//! Turning piped text into clipboard buttons, and the lifecycle report lines
//! that tell a caller how a run went.

pub mod text;
pub mod palette;
pub mod lifecycle;
