//! Lifecycle report lines.
//!
//! The app is often launched by a script that only sees stdout, so every
//! line that reports how a run goes starts with [`LOG_PREFIX`]: a caller can
//! decide the outcome by reading stdout alone. This module makes the lines;
//! writing them is left to the caller.

use vstd::prelude::*;

use crate::text;

verus! {

/// Prefix shared by every lifecycle line, so a caller can select them with a
/// single grep.
pub const LOG_PREFIX: &'static str = "[lifecycle]";

/// One line of a lifecycle message behind the prefix and a space.
pub open spec fn prefixed(piece: Seq<char>) -> Seq<char> {
    LOG_PREFIX@ + " "@ + piece
}

/// The lifecycle text that carries `message`: each line of the message (the
/// pieces between its newlines) behind the prefix and a space, joined with
/// newlines. A message that holds a newline (a panic text, say) thus still
/// gives only lines that start with the prefix.
pub open spec fn line_of(message: Seq<char>) -> Seq<char> {
    let pieces = text::split_runs(message, '\n', 1);
    text::join(Seq::new(pieces.len(), |k: int| prefixed(pieces[k])), seq!['\n'])
}

/// The lifecycle text that carries `message`: every line of the message
/// behind the prefix and a space.
pub fn lifecycle_line(message: &str) -> (r: String)
    ensures
        r@ == line_of(message@),
{
    let s = text::chars_of(message);
    let spans = text::run_pieces(&s, '\n', 0);
    let ghost ps = text::split_runs(s@, '\n', 1);
    let ghost q = Seq::new(ps.len(), |k: int| prefixed(ps[k]));
    assert(ps.len() >= 1);
    let mut r = String::new();
    let mut k: usize = 0;
    while k < spans.len()
        invariant
            text::spans_valid(s@, spans@),
            text::spans(s@, spans@) == ps,
            q == Seq::new(ps.len(), |k: int| prefixed(ps[k])),
            k <= spans@.len(),
            k == 0 ==> r@ == Seq::<char>::empty(),
            k > 0 ==> r@ == text::join(q.take(k as int), seq!['\n']),
        decreases spans@.len() - k,
    {
        let ghost before = r@;
        if k > 0 {
            text::push_char(&mut r, '\n');
        }
        r.append(LOG_PREFIX);
        r.append(" ");
        let (a, b) = spans[k];
        let piece = text::string_of(&s, a, b);
        r.append(piece.as_str());
        proof {
            assert(ps[k as int] == s@.subrange(a as int, b as int));
            if k == 0 {
                assert(q.take(1) =~= seq![q[0]]);
                assert(r@ =~= q[0]);
            } else {
                text::lemma_join_push(q.take(k as int), q[k as int], seq!['\n']);
                assert(q.take(k + 1) =~= q.take(k as int).push(q[k as int]));
                assert(r@ =~= before + seq!['\n'] + q[k as int]);
            }
        }
        k += 1;
    }
    assert(q.take(spans@.len() as int) =~= q);
    r
}

/// The character of the decimal digit `d`.
pub open spec fn digit_char(d: int) -> char {
    (d + 48) as char
}

/// The decimal digits of `n`, without leading zeros.
pub open spec fn digits(n: nat) -> Seq<char>
    decreases n,
{
    if n < 10 {
        seq![digit_char(n as int)]
    } else {
        digits(n / 10).push(digit_char((n % 10) as int))
    }
}

/// `n` written in decimal, with a leading `-` when it is negative.
pub open spec fn decimal(n: int) -> Seq<char> {
    if n < 0 {
        seq!['-'] + digits((-n) as nat)
    } else {
        digits(n as nat)
    }
}

/// Appends the decimal digits of `n` to `r`.
fn push_digits(r: &mut String, n: u32)
    ensures
        final(r)@ == old(r)@ + digits(n as nat),
    decreases n,
{
    if n >= 10 {
        push_digits(r, n / 10);
    }
    let d = (n % 10) as u8;
    let c = (48u8 + d) as char;
    assert(c == digit_char((n % 10) as int));
    text::push_char(r, c);
}

/// `n` written in decimal.
fn i32_decimal(n: i32) -> (s: String)
    ensures
        s@ == decimal(n as int),
{
    let mut s = String::new();
    let m: u32 = if n < 0 {
        s.append("-");
        proof {
            reveal_strlit("-");
        }
        (0i64 - n as i64) as u32
    } else {
        n as u32
    };
    push_digits(&mut s, m);
    assert(s@ =~= decimal(n as int));
    s
}

/// `n` written in decimal.
fn u32_decimal(n: u32) -> (s: String)
    ensures
        s@ == decimal(n as int),
{
    let mut s = String::new();
    push_digits(&mut s, n);
    assert(s@ =~= decimal(n as int));
    s
}

/// The line that says the main window object was created. This says the
/// window was built, not that it is on screen.
pub fn log_window_created(label: &str) -> (r: String)
    ensures
        r@ == line_of("window created: label="@ + label@),
{
    let mut m = String::from_str("window created: label=");
    m.append(label);
    lifecycle_line(m.as_str())
}

/// The line that says the app could not finish its startup.
pub fn log_startup_failed(error: &str) -> (r: String)
    ensures
        r@ == line_of("startup failed: "@ + error@),
{
    let mut m = String::from_str("startup failed: ");
    m.append(error);
    lifecycle_line(m.as_str())
}

/// The line that says the event loop is winding down; `code` is the exit
/// code the caller asked for, if any.
pub fn log_exit_requested(code: Option<i32>) -> (r: String)
    ensures
        r@ == line_of(
            "exit requested: code="@ + match code {
                Some(c) => decimal(c as int),
                None => "none"@,
            },
        ),
{
    let mut m = String::from_str("exit requested: code=");
    match code {
        Some(c) => {
            let d = i32_decimal(c);
            m.append(d.as_str());
        },
        None => {
            m.append("none");
        },
    }
    lifecycle_line(m.as_str())
}

/// The line for a normal end of the event loop: the app shut down on its own
/// terms.
pub fn log_exit() -> (r: String)
    ensures
        r@ == line_of("exit: reason=normal"@),
{
    lifecycle_line("exit: reason=normal")
}

/// The line that mirrors a panic to stdout, `payload` being the panic's
/// message (or `unknown`).
pub fn log_panic(payload: &str) -> (r: String)
    ensures
        r@ == line_of("exit: reason=panic message="@ + payload@),
{
    let mut m = String::from_str("exit: reason=panic message=");
    m.append(payload);
    lifecycle_line(m.as_str())
}

} // verus!

verus! {

/// What could be learned of the main window once the event loop was up.
/// Each query either answered or failed with an error message.
pub struct WindowReport {
    pub visible: Result<bool, String>,
    pub minimized: Result<bool, String>,
    pub focused: Result<bool, String>,
    /// The outer position, when it could be read
    pub position: Option<(i32, i32)>,
    /// The outer size (width, height), when it could be read
    pub size: Option<(u32, u32)>,
}

/// How a window flag is written: `true`, `false`, or `unknown` when the
/// query failed.
pub open spec fn flag_text(result: Result<bool, String>) -> Seq<char> {
    match result {
        Ok(true) => "true"@,
        Ok(false) => "false"@,
        Err(_) => "unknown"@,
    }
}

pub open spec fn position_text(position: Option<(i32, i32)>) -> Seq<char> {
    match position {
        Some((x, y)) => decimal(x as int) + ","@ + decimal(y as int),
        None => "unknown"@,
    }
}

pub open spec fn size_text(size: Option<(u32, u32)>) -> Seq<char> {
    match size {
        Some((w, h)) => decimal(w as int) + "x"@ + decimal(h as int),
        None => "unknown"@,
    }
}

/// The message that lists the window's state.
pub open spec fn state_message(label: Seq<char>, w: WindowReport) -> Seq<char> {
    "window state: label="@ + label + " visible="@ + flag_text(w.visible) + " minimized="@
        + flag_text(w.minimized) + " focused="@ + flag_text(w.focused) + " position="@
        + position_text(w.position) + " size="@ + size_text(w.size)
}

/// The verdict on whether the window made it on screen. Only a window that
/// is known to be visible and known not to be minimized counts: anything
/// short of a confirmed yes to both is incomplete.
pub open spec fn verdict_message(visible: Result<bool, String>, minimized: Result<bool, String>) -> Seq<
    char,
> {
    match visible {
        Ok(true) => match minimized {
            Ok(false) => "startup ok: window is visible"@,
            Ok(true) => "startup incomplete: window is minimized"@,
            Err(e) => "startup incomplete: window is visible but its minimized state is unknown: "@
                + e@,
        },
        Ok(false) => "startup incomplete: window is not visible"@,
        Err(e) => "startup incomplete: window visibility is unknown: "@ + e@,
    }
}

/// How a window flag is written.
pub fn flag(result: &Result<bool, String>) -> (r: &'static str)
    ensures
        r@ == flag_text(*result),
{
    match result {
        Ok(true) => "true",
        Ok(false) => "false",
        Err(_) => "unknown",
    }
}

fn position_string(position: Option<(i32, i32)>) -> (r: String)
    ensures
        r@ == position_text(position),
{
    match position {
        Some((x, y)) => {
            let mut r = i32_decimal(x);
            r.append(",");
            let d = i32_decimal(y);
            r.append(d.as_str());
            r
        },
        None => String::from_str("unknown"),
    }
}

fn size_string(size: Option<(u32, u32)>) -> (r: String)
    ensures
        r@ == size_text(size),
{
    match size {
        Some((w, h)) => {
            let mut r = u32_decimal(w);
            r.append("x");
            let d = u32_decimal(h);
            r.append(d.as_str());
            r
        },
        None => String::from_str("unknown"),
    }
}

fn verdict_string(visible: &Result<bool, String>, minimized: &Result<bool, String>) -> (r: String)
    ensures
        r@ == verdict_message(*visible, *minimized),
{
    match visible {
        Ok(true) => match minimized {
            Ok(false) => String::from_str("startup ok: window is visible"),
            Ok(true) => String::from_str("startup incomplete: window is minimized"),
            Err(e) => {
                let mut r = String::from_str(
                    "startup incomplete: window is visible but its minimized state is unknown: ",
                );
                r.append(e.as_str());
                r
            },
        },
        Ok(false) => String::from_str("startup incomplete: window is not visible"),
        Err(e) => {
            let mut r = String::from_str("startup incomplete: window visibility is unknown: ");
            r.append(e.as_str());
            r
        },
    }
}

/// The lines that report whether the window actually made it on screen: a
/// line of details, then a verdict line that a caller can match without
/// parsing the details. `window` is `None` when no window had the label.
pub fn log_window_state(label: &str, window: &Option<WindowReport>) -> (r: Vec<String>)
    ensures
        r@.len() == 2,
        match window {
            None => {
                &&& r@[0]@ == line_of("window missing: label="@ + label@)
                &&& r@[1]@ == line_of("startup incomplete: window was not found"@)
            },
            Some(w) => {
                &&& r@[0]@ == line_of(state_message(label@, *w))
                &&& r@[1]@ == line_of(verdict_message(w.visible, w.minimized))
            },
        },
{
    let mut r: Vec<String> = Vec::new();
    match window {
        None => {
            let mut m = String::from_str("window missing: label=");
            m.append(label);
            r.push(lifecycle_line(m.as_str()));
            r.push(lifecycle_line("startup incomplete: window was not found"));
        },
        Some(w) => {
            let mut m = String::from_str("window state: label=");
            m.append(label);
            m.append(" visible=");
            m.append(flag(&w.visible));
            m.append(" minimized=");
            m.append(flag(&w.minimized));
            m.append(" focused=");
            m.append(flag(&w.focused));
            m.append(" position=");
            let p = position_string(w.position);
            m.append(p.as_str());
            m.append(" size=");
            let s = size_string(w.size);
            m.append(s.as_str());
            r.push(lifecycle_line(m.as_str()));
            let v = verdict_string(&w.visible, &w.minimized);
            r.push(lifecycle_line(v.as_str()));
        },
    }
    r
}

/// The window events that tell the exit reason apart; the others are of no
/// interest to the log.
#[derive(Debug, Clone, Copy, PartialEq, Eq, Structural)]
pub enum WindowEventKind {
    CloseRequested,
    Destroyed,
    Other,
}

/// The line for a window event, if it is one that tells the exit reason
/// apart. Focus, resize and move events are left out on purpose.
pub fn log_window_event(label: &str, event: WindowEventKind) -> (r: Option<String>)
    ensures
        match event {
            WindowEventKind::CloseRequested => r matches Some(l) && l@ == line_of(
                "window close requested: label="@ + label@,
            ),
            WindowEventKind::Destroyed => r matches Some(l) && l@ == line_of(
                "window destroyed: label="@ + label@,
            ),
            WindowEventKind::Other => r is None,
        },
{
    match event {
        WindowEventKind::CloseRequested => {
            let mut m = String::from_str("window close requested: label=");
            m.append(label);
            Some(lifecycle_line(m.as_str()))
        },
        WindowEventKind::Destroyed => {
            let mut m = String::from_str("window destroyed: label=");
            m.append(label);
            Some(lifecycle_line(m.as_str()))
        },
        WindowEventKind::Other => None,
    }
}

} // verus!

verus! {

/// The last piece of a path split at `/` that is neither empty nor `.`.
pub open spec fn last_component(ps: Seq<Seq<char>>) -> Option<Seq<char>>
    decreases ps.len(),
{
    if ps.len() == 0 {
        None
    } else if ps.last().len() == 0 || ps.last() == seq!['.'] {
        last_component(ps.drop_last())
    } else {
        Some(ps.last())
    }
}

/// The final component of a Unix path, as `Path::file_name` gives it:
/// repeated and trailing `/` and `.` components are normalized away, and
/// there is none when the path is empty, the root, `.`, or ends in `..`.
pub open spec fn file_name(path: Seq<char>) -> Option<Seq<char>> {
    match last_component(text::split_runs(path, '/', 1)) {
        Some(c) => if c == seq!['.', '.'] {
            None
        } else {
            Some(c)
        },
        None => None,
    }
}

/// The program name that a `comm` column gives: the file name of the path,
/// or the whole column when it has none.
pub open spec fn program_name(command: Seq<char>) -> Seq<char> {
    match file_name(command) {
        Some(n) => n,
        None => command,
    }
}

/// Whether a `comm` column names the same program as `exe_name`: the same
/// base name, or (as Linux cuts names down to 15 bytes) a 15-byte name that
/// `exe_name` starts with.
pub open spec fn same_program(exe_name: Seq<char>, command: Seq<char>) -> bool {
    let name = program_name(command);
    ||| name == exe_name
    ||| text::utf8_len(name) == 15 && name.len() <= exe_name.len() && exe_name.take(
        name.len() as int,
    ) == name
}

/// The span of the file name of the path `p`.
fn file_name_span(p: &Vec<char>) -> (r: Option<(usize, usize)>)
    ensures
        match file_name(p@) {
            Some(n) => r matches Some(sp) && sp.0 <= sp.1 <= p@.len() && p@.subrange(
                sp.0 as int,
                sp.1 as int,
            ) == n,
            None => r is None,
        },
{
    let pieces = text::run_pieces(p, '/', 0);
    let ghost ps = text::split_runs(p@, '/', 1);
    let mut k = pieces.len();
    assert(ps.take(k as int) =~= ps);
    while k > 0
        invariant
            text::spans_valid(p@, pieces@),
            text::spans(p@, pieces@) == ps,
            ps == text::split_runs(p@, '/', 1),
            k <= pieces@.len(),
            last_component(ps) == last_component(ps.take(k as int)),
        decreases k,
    {
        let (a, b) = pieces[k - 1];
        let ghost piece = ps[k - 1];
        assert(piece == p@.subrange(a as int, b as int));
        assert(ps.take(k as int).last() == piece);
        assert(ps.take(k as int).drop_last() =~= ps.take(k - 1));
        let is_dot = b - a == 1 && p[a] == '.';
        if is_dot {
            assert(piece =~= seq!['.']);
        } else if b - a == 1 {
            assert(piece[0] != seq!['.'][0]);
        }
        if b > a && !is_dot {
            if b - a == 2 && p[a] == '.' && p[a + 1] == '.' {
                assert(piece =~= seq!['.', '.']);
                return None;
            }
            if b - a == 2 {
                assert(piece[0] != '.' || piece[1] != '.');
                assert(piece != seq!['.', '.']);
            }
            return Some((a, b));
        }
        k -= 1;
    }
    None
}

/// Whether the command `cmd` names the same program as `exe`.
fn program_matches(exe: &Vec<char>, cmd: &Vec<char>) -> (r: bool)
    ensures
        r == same_program(exe@, cmd@),
{
    let (a, b) = match file_name_span(cmd) {
        Some(sp) => sp,
        None => (0, cmd.len()),
    };
    assert(cmd@.subrange(0, cmd@.len() as int) =~= cmd@);
    let ghost name = cmd@.subrange(a as int, b as int);
    assert(name == program_name(cmd@));
    if b - a == exe.len() && text::span_is_prefix_of(cmd, a, b, exe) {
        assert(exe@.take(exe@.len() as int) =~= exe@);
        return true;
    }
    if b - a == exe.len() {
        assert(name.len() == exe@.len());
        assert(exe@.take(exe@.len() as int) =~= exe@);
    }
    text::utf8_len_is_15(cmd, a, b) && text::span_is_prefix_of(cmd, a, b, exe)
}

/// Whether a `comm` column names the same program as `exe_name`.
///
/// macOS reports the full executable path, Linux reports the base name cut
/// down to 15 characters, so a truncated name that prefixes ours counts as a
/// match. The comparison is on the base name rather than the whole path on
/// purpose: an installed build and a development build sit at different
/// paths but are both instances of this app.
pub fn is_same_program(exe_name: &str, command: &str) -> (r: bool)
    ensures
        r == same_program(exe_name@, command@),
{
    let exe = text::chars_of(exe_name);
    let cmd = text::chars_of(command);
    program_matches(&exe, &cmd)
}

} // verus!

verus! {

/// What one line of `ps -A -o pid=,comm=` contributes: the pid of another
/// process running the same program as `exe_name`, or nothing. The line is
/// read as a pid, one whitespace character, then the command; a line whose
/// first word is no pid (a header, say) contributes nothing.
pub open spec fn ps_line_pid(line: Seq<char>, exe_name: Seq<char>, self_pid: u32) -> Option<u32> {
    let l = text::trim_start(line);
    match text::first_whitespace(l, 0) {
        None => None,
        Some(k) => match text::parse_u32(l.take(k as int)) {
            None => None,
            Some(pid) => if pid == self_pid || !same_program(
                exe_name,
                text::trim(l.skip((k + 1) as int)),
            ) {
                None
            } else {
                Some(pid)
            },
        },
    }
}

/// The pids that the lines `ls` contribute, in order.
pub open spec fn pids_in(ls: Seq<Seq<char>>, exe_name: Seq<char>, self_pid: u32) -> Seq<u32>
    decreases ls.len(),
{
    if ls.len() == 0 {
        seq![]
    } else {
        let rest = pids_in(ls.drop_last(), exe_name, self_pid);
        match ps_line_pid(ls.last(), exe_name, self_pid) {
            Some(p) => rest.push(p),
            None => rest,
        }
    }
}

fn line_pid(s: &Vec<char>, a: usize, b: usize, exe: &Vec<char>, self_pid: u32) -> (r: Option<u32>)
    requires
        a <= b <= s@.len(),
    ensures
        r == ps_line_pid(s@.subrange(a as int, b as int), exe@, self_pid),
{
    let ghost l = text::trim_start(s@.subrange(a as int, b as int));
    let i = text::trim_start_span(s, a, b);
    match text::first_whitespace_span(s, i, b) {
        None => None,
        Some(w) => {
            proof {
                text::lemma_first_whitespace_found(l, 0);
                assert(l.take(w - i) =~= s@.subrange(i as int, w as int));
                assert(l.skip(w - i + 1) =~= s@.subrange(w + 1, b as int));
            }
            match text::parse_u32_span(s, i, w) {
                None => None,
                Some(pid) => {
                    if pid == self_pid {
                        return None;
                    }
                    let (ca, cb) = text::trim_span(s, w + 1, b);
                    let cmd = text::chars_in(s, ca, cb);
                    if program_matches(exe, &cmd) {
                        Some(pid)
                    } else {
                        None
                    }
                },
            }
        },
    }
}

/// Pick the pids of other processes running `exe_name` out of the output of
/// `ps -A -o pid=,comm=`. This process (`self_pid`) is left out.
pub fn other_pids_from_ps(output: &str, exe_name: &str, self_pid: u32) -> (r: Vec<u32>)
    ensures
        r@ == pids_in(text::lines(output@), exe_name@, self_pid),
{
    let s = text::chars_of(output);
    let exe = text::chars_of(exe_name);
    let ls = text::line_spans(&s);
    let ghost lines = text::spans(s@, ls@);
    let mut r: Vec<u32> = Vec::new();
    let mut k: usize = 0;
    while k < ls.len()
        invariant
            text::spans_valid(s@, ls@),
            lines == text::spans(s@, ls@),
            exe@ == exe_name@,
            k <= ls@.len(),
            r@ == pids_in(lines.take(k as int), exe_name@, self_pid),
        decreases ls@.len() - k,
    {
        let (a, b) = ls[k];
        assert(lines.take(k + 1).drop_last() =~= lines.take(k as int));
        assert(lines.take(k + 1).last() == s@.subrange(a as int, b as int));
        match line_pid(&s, a, b, &exe, self_pid) {
            Some(p) => r.push(p),
            None => {},
        }
        k += 1;
    }
    assert(lines.take(ls@.len() as int) =~= lines);
    r
}

/// `pid=` and the pid, for each of `pids`, separated by spaces.
pub open spec fn pid_list(pids: Seq<u32>) -> Seq<char>
    decreases pids.len(),
{
    if pids.len() == 0 {
        seq![]
    } else if pids.len() == 1 {
        "pid="@ + decimal(pids[0] as int)
    } else {
        pid_list(pids.drop_last()) + " pid="@ + decimal(pids.last() as int)
    }
}

/// The message that reports the other instances found.
pub open spec fn instances_message(pids: Seq<u32>) -> Seq<char> {
    if pids.len() == 0 {
        "other instances: none"@
    } else {
        "other instances: "@ + pid_list(pids)
    }
}

/// The "other instances" message for what `ps -A -o pid=,comm=` printed:
/// the pids of the other processes running `exe_name`, or `none`. The line
/// names the pids instead of claiming anything about them.
pub fn other_instances_line(ps_output: &str, exe_name: &str, self_pid: u32) -> (r: String)
    ensures
        r@ == instances_message(pids_in(text::lines(ps_output@), exe_name@, self_pid)),
{
    let pids = other_pids_from_ps(ps_output, exe_name, self_pid);
    if pids.len() == 0 {
        return String::from_str("other instances: none");
    }
    let mut list = String::from_str("pid=");
    let d = u32_decimal(pids[0]);
    list.append(d.as_str());
    let mut k: usize = 1;
    while k < pids.len()
        invariant
            1 <= k <= pids@.len(),
            list@ == pid_list(pids@.take(k as int)),
        decreases pids@.len() - k,
    {
        assert(pids@.take(k + 1).drop_last() =~= pids@.take(k as int));
        list.append(" pid=");
        let d = u32_decimal(pids[k]);
        list.append(d.as_str());
        k += 1;
    }
    assert(pids@.take(pids@.len() as int) =~= pids@);
    let mut r = String::from_str("other instances: ");
    r.append(list.as_str());
    r
}

/// The "other instances" message when the check could not be made, and why.
/// It is always given, so a caller never has to tell a missing line apart
/// from a check that found nothing.
pub fn instances_unknown(reason: &str) -> (r: String)
    ensures
        r@ == "other instances: unknown ("@ + reason@ + ")"@,
{
    let mut r = String::from_str("other instances: unknown (");
    r.append(reason);
    r.append(")");
    r
}

} // verus!

verus! {

/// A signal that asks the process to stop.
#[derive(Debug, Clone, Copy, PartialEq, Eq, Structural)]
pub enum TerminatingSignal {
    /// `SIGINT`
    Interrupt,
    /// `SIGTERM`
    Terminate,
    /// `SIGHUP`
    HangUp,
    /// any other signal
    Other,
}

/// The message that says the process was stopped by `signal`.
pub open spec fn signal_exit_message(signal: TerminatingSignal) -> Seq<char> {
    match signal {
        TerminatingSignal::Interrupt => "exit: reason=signal signal=SIGINT"@,
        TerminatingSignal::Terminate => "exit: reason=signal signal=SIGTERM"@,
        TerminatingSignal::HangUp => "exit: reason=signal signal=SIGHUP"@,
        TerminatingSignal::Other => "exit: reason=signal"@,
    }
}

/// The whole line, newline included, that a signal handler writes when
/// `signal` arrives. It is a fixed string, so that the handler needs nothing
/// that is not async-signal-safe to write it.
pub fn signal_exit_line(signal: TerminatingSignal) -> (r: &'static str)
    ensures
        r@ == prefixed(signal_exit_message(signal)) + "\n"@,
{
    proof {
        reveal_strlit("[lifecycle]");
        reveal_strlit(" ");
        reveal_strlit("\n");
    }
    match signal {
        TerminatingSignal::Interrupt => {
            proof {
                reveal_strlit("exit: reason=signal signal=SIGINT");
                reveal_strlit("[lifecycle] exit: reason=signal signal=SIGINT\n");
                assert("[lifecycle] exit: reason=signal signal=SIGINT\n"@ =~= prefixed(
                    signal_exit_message(signal),
                ) + "\n"@);
            }
            "[lifecycle] exit: reason=signal signal=SIGINT\n"
        },
        TerminatingSignal::Terminate => {
            proof {
                reveal_strlit("exit: reason=signal signal=SIGTERM");
                reveal_strlit("[lifecycle] exit: reason=signal signal=SIGTERM\n");
                assert("[lifecycle] exit: reason=signal signal=SIGTERM\n"@ =~= prefixed(
                    signal_exit_message(signal),
                ) + "\n"@);
            }
            "[lifecycle] exit: reason=signal signal=SIGTERM\n"
        },
        TerminatingSignal::HangUp => {
            proof {
                reveal_strlit("exit: reason=signal signal=SIGHUP");
                reveal_strlit("[lifecycle] exit: reason=signal signal=SIGHUP\n");
                assert("[lifecycle] exit: reason=signal signal=SIGHUP\n"@ =~= prefixed(
                    signal_exit_message(signal),
                ) + "\n"@);
            }
            "[lifecycle] exit: reason=signal signal=SIGHUP\n"
        },
        TerminatingSignal::Other => {
            proof {
                reveal_strlit("exit: reason=signal");
                reveal_strlit("[lifecycle] exit: reason=signal\n");
                assert("[lifecycle] exit: reason=signal\n"@ =~= prefixed(signal_exit_message(signal))
                    + "\n"@);
            }
            "[lifecycle] exit: reason=signal\n"
        },
    }
}

/// The line that says the exit line for signal `signum` will be missing,
/// because its handler could not be installed; `errno` describes why.
pub fn signal_logger_failure_line(signum: i32, errno: &str) -> (r: String)
    ensures
        r@ == line_of(
            "signal logger not installed: signal="@ + decimal(signum as int) + " errno="@ + errno@,
        ),
{
    let mut m = String::from_str("signal logger not installed: signal=");
    let d = i32_decimal(signum);
    m.append(d.as_str());
    m.append(" errno=");
    m.append(errno);
    lifecycle_line(m.as_str())
}

} // verus!

verus! {

/// Every line of lifecycle text starts with [`LOG_PREFIX`], whatever the
/// message holds, so one grep selects them all: the text starts with it, and
/// every newline in it is followed by it.
pub proof fn lemma_lines_carry_prefix(message: Seq<char>)
    ensures
        ({
            let out = line_of(message);
            let p = LOG_PREFIX@;
            &&& p.len() <= out.len()
            &&& out.take(p.len() as int) == p
            &&& text::newlines_followed_by(out, p)
        }),
{
    let ps = text::split_runs(message, '\n', 1);
    let q = Seq::new(ps.len(), |k: int| prefixed(ps[k]));
    let p = LOG_PREFIX@;
    reveal_strlit("[lifecycle]");
    reveal_strlit(" ");
    let head = p + " "@;
    assert(head =~= seq!['[', 'l', 'i', 'f', 'e', 'c', 'y', 'c', 'l', 'e', ']', ' ']);
    text::lemma_split_pieces_hold_no_run(message, '\n', 1);
    assert(ps.len() >= 1);
    assert forall|k: int| 0 <= k < q.len() implies p.len() <= (#[trigger] q[k]).len() && q[k].take(
        p.len() as int,
    ) == p by {
        assert(q[k].take(p.len() as int) =~= p);
    }
    assert forall|k: int, i: int| 0 <= k < q.len() && 0 <= i < q[k].len() implies #[trigger] q[k][i]
        != '\n' by {
        if i < head.len() {
            assert(q[k][i] == head[i]);
        } else {
            assert(q[k][i] == ps[k][i - head.len()]);
            assert(!text::run_at(ps[k], '\n', 1, i - head.len()));
        }
    }
    text::lemma_join_lines_start_with(q, p);
}

/// A message without newlines gives one line: the prefix, a space, then the
/// message.
pub proof fn lemma_one_line(message: Seq<char>)
    requires
        forall|i: int| 0 <= i < message.len() ==> message[i] != '\n',
    ensures
        line_of(message) == prefixed(message),
{
    assert forall|k: int| !text::run_at(message, '\n', 1, k) by {
        if text::run_at(message, '\n', 1, k) {
            assert(message[k] == '\n');
        }
    }
    text::lemma_split_without_run(message, '\n', 1);
    let q = Seq::new(1, |k: int| prefixed(seq![message][k]));
    assert(q[0] == prefixed(message));
}

/// The verdict is "startup ok" exactly when the window is known to be
/// visible and known not to be minimized; every other verdict says the
/// startup is incomplete.
pub proof fn lemma_startup_ok_only_on_screen(
    visible: Result<bool, String>,
    minimized: Result<bool, String>,
)
    ensures
        (verdict_message(visible, minimized) == "startup ok: window is visible"@) <==> (visible
            == Ok::<bool, String>(true) && minimized == Ok::<bool, String>(false)),
        !(visible == Ok::<bool, String>(true) && minimized == Ok::<bool, String>(false))
            ==> verdict_message(visible, minimized).take(19) == "startup incomplete:"@,
{
    reveal_strlit("startup ok: window is visible");
    reveal_strlit("startup incomplete:");
    reveal_strlit("startup incomplete: window is minimized");
    reveal_strlit("startup incomplete: window is visible but its minimized state is unknown: ");
    reveal_strlit("startup incomplete: window is not visible");
    reveal_strlit("startup incomplete: window visibility is unknown: ");
    let v = verdict_message(visible, minimized);
    if !(visible == Ok::<bool, String>(true) && minimized == Ok::<bool, String>(false)) {
        assert(v.take(19) =~= "startup incomplete:"@);
        assert(v[8] != "startup ok: window is visible"@[8]);
    }
}

/// The other instances found never include this process.
pub proof fn lemma_never_reports_itself(ls: Seq<Seq<char>>, exe_name: Seq<char>, self_pid: u32)
    ensures
        !pids_in(ls, exe_name, self_pid).contains(self_pid),
    decreases ls.len(),
{
    if ls.len() > 0 {
        lemma_never_reports_itself(ls.drop_last(), exe_name, self_pid);
        let rest = pids_in(ls.drop_last(), exe_name, self_pid);
        match ps_line_pid(ls.last(), exe_name, self_pid) {
            Some(p) => {
                assert(p != self_pid);
                assert forall|k: int| 0 <= k < rest.len() + 1 implies rest.push(p)[k] != self_pid by {
                    if k < rest.len() {
                        assert(rest.push(p)[k] == rest[k]);
                    }
                }
            },
            None => {},
        }
    }
}

} // verus!

verus! {

proof fn lemma_pids_in_concat(x: Seq<Seq<char>>, y: Seq<Seq<char>>, exe_name: Seq<char>, self_pid: u32)
    ensures
        pids_in(x + y, exe_name, self_pid) == pids_in(x, exe_name, self_pid) + pids_in(
            y,
            exe_name,
            self_pid,
        ),
    decreases y.len(),
{
    if y.len() == 0 {
        assert(x + y =~= x);
        assert(pids_in(x, exe_name, self_pid) + pids_in(y, exe_name, self_pid) =~= pids_in(
            x,
            exe_name,
            self_pid,
        ));
    } else {
        lemma_pids_in_concat(x, y.drop_last(), exe_name, self_pid);
        assert((x + y).drop_last() =~= x + y.drop_last());
        assert((x + y).last() == y.last());
        let px = pids_in(x, exe_name, self_pid);
        let py = pids_in(y.drop_last(), exe_name, self_pid);
        match ps_line_pid(y.last(), exe_name, self_pid) {
            Some(p) => {
                assert((px + py).push(p) =~= px + py.push(p));
            },
            None => {},
        }
    }
}

/// Each line of `ps` output is judged on its own: when `a` is empty or ends
/// with a newline, the pids found in `a + b` are those found in `a`, then
/// those found in `b`.
pub proof fn lemma_ps_lines_judged_alone(
    a: Seq<char>,
    b: Seq<char>,
    exe_name: Seq<char>,
    self_pid: u32,
)
    requires
        a.len() == 0 || a.last() == '\n',
    ensures
        pids_in(text::lines(a + b), exe_name, self_pid) == pids_in(
            text::lines(a),
            exe_name,
            self_pid,
        ) + pids_in(text::lines(b), exe_name, self_pid),
{
    text::lemma_lines_concat(a, b);
    lemma_pids_in_concat(text::lines(a), text::lines(b), exe_name, self_pid);
}

} // verus!

verus! {

proof fn lemma_digits_read_back(n: nat)
    ensures
        digits(n).len() >= 1,
        text::all_digits(digits(n)),
        text::digits_value(digits(n)) == n,
        digits(n)[0] != '+',
        forall|i: int| 0 <= i < digits(n).len() ==> !text::char_is_whitespace(#[trigger] digits(n)[i]),
    decreases n,
{
    if n < 10 {
        let c = digit_char(n as int);
        assert((c as u32) == n + 48);
        assert(digits(n).drop_last() =~= Seq::<char>::empty());
        assert(text::digits_value(Seq::<char>::empty()) == 0);
        assert(digits(n).last() == c);
    } else {
        lemma_digits_read_back(n / 10);
        let c = digit_char((n % 10) as int);
        assert((c as u32) == n % 10 + 48);
        let d = digits(n);
        assert(d.drop_last() =~= digits(n / 10));
        assert(d.last() == c);
        assert(text::digits_value(d) == text::digits_value(d.drop_last()) * 10 + ((d.last() as u32) - 48) as nat);
        assert(n == (n / 10) * 10 + n % 10);
        assert forall|i: int| 0 <= i < d.len() implies text::is_digit(#[trigger] d[i])
            && !text::char_is_whitespace(d[i]) by {
            if i < d.len() - 1 {
                assert(d[i] == digits(n / 10)[i]);
            }
        }
    }
}

} // verus!

verus! {

/// A `ps` line is read as its pid and the whole rest of the line: for a line
/// made of any leading whitespace, a pid in decimal, one whitespace
/// character and a command, the pid is reported exactly when it is not this
/// process and the command, trimmed, names the same program. Spaces inside
/// the command do not cut it short.
pub proof fn lemma_ps_line_reads_pid_and_command(
    lead: Seq<char>,
    pid: u32,
    sep: char,
    command: Seq<char>,
    exe_name: Seq<char>,
    self_pid: u32,
)
    requires
        text::is_blank(lead),
        text::char_is_whitespace(sep),
    ensures
        ps_line_pid(lead + decimal(pid as int) + seq![sep] + command, exe_name, self_pid) == (if pid
            != self_pid && same_program(exe_name, text::trim(command)) {
            Some(pid)
        } else {
            None
        }),
{
    let d = decimal(pid as int);
    assert(d == digits(pid as nat));
    lemma_digits_read_back(pid as nat);
    let rest = d + seq![sep] + command;
    let line = lead + d + seq![sep] + command;
    assert(line =~= lead + rest);
    text::lemma_trim_start_skip(lead + rest, lead.len() as int);
    assert((lead + rest).skip(lead.len() as int) =~= rest);
    assert(rest[0] == d[0]);
    assert(text::trim_start(rest) == rest);
    assert forall|k: int| 0 <= k < d.len() implies !text::char_is_whitespace(#[trigger] rest[k]) by {
        assert(rest[k] == d[k]);
    }
    assert(rest[d.len() as int] == sep);
    text::lemma_first_whitespace_at(rest, 0, d.len());
    assert(rest.take(d.len() as int) =~= d);
    assert(text::unsigned_digits(d) == d);
    assert(rest.skip((d.len() + 1) as int) =~= command);
}

/// The pids found in `ps` lines are those that the lines give one by one,
/// in order: `Seq::filter_map` of [`ps_line_pid`].
pub proof fn lemma_pids_in_is_filter_map(ls: Seq<Seq<char>>, exe_name: Seq<char>, self_pid: u32)
    ensures
        pids_in(ls, exe_name, self_pid) == ls.filter_map(
            |l: Seq<char>| ps_line_pid(l, exe_name, self_pid),
        ),
    decreases ls.len(),
{
    if ls.len() > 0 {
        lemma_pids_in_is_filter_map(ls.drop_last(), exe_name, self_pid);
        let rest = pids_in(ls.drop_last(), exe_name, self_pid);
        if let Some(p) = ps_line_pid(ls.last(), exe_name, self_pid) {
            assert(rest.push(p) =~= rest + seq![p]);
        }
    }
}

/// Two commands name the same program only when their base name is the
/// executable's name, or is a 15-byte name that the executable's name starts
/// with; an equal base name always matches.
pub proof fn lemma_same_program_only(exe_name: Seq<char>, command: Seq<char>)
    ensures
        program_name(command) == exe_name ==> same_program(exe_name, command),
        same_program(exe_name, command) ==> program_name(command) == exe_name || (text::utf8_len(
            program_name(command),
        ) == 15 && program_name(command).len() <= exe_name.len() && exe_name.take(
            program_name(command).len() as int,
        ) == program_name(command)),
{
}

/// The base name of a path that ends in a plain name (not empty, no `/`,
/// neither `.` nor `..`) is that name, whatever comes before the last `/`;
/// a plain name alone is its own base name.
pub proof fn lemma_base_name(dir: Seq<char>, name: Seq<char>)
    requires
        name.len() > 0,
        forall|i: int| 0 <= i < name.len() ==> name[i] != '/',
        name != seq!['.'],
        name != seq!['.', '.'],
    ensures
        file_name(dir + seq!['/'] + name) == Some(name),
        program_name(dir + seq!['/'] + name) == name,
        file_name(name) == Some(name),
        program_name(name) == name,
{
    assert forall|k: int| !text::run_at(name, '/', 1, k) by {
        if text::run_at(name, '/', 1, k) {
            assert(name[k] == '/');
        }
    }
    text::lemma_split_without_run(name, '/', 1);
    let a = dir + seq!['/'];
    text::lemma_split_concat(a, name, '/');
    assert(dir + seq!['/'] + name == a + name);
    let ps = text::split_runs(a + name, '/', 1);
    assert(ps.last() == name);
    assert(text::split_runs(name, '/', 1).last() == name);
}

} // verus!
