//! What the window shows: the modes, the items each mode makes of the piped
//! text, and the data handed to the window.

use std::sync::Mutex;
use vstd::prelude::*;

use crate::text;

verus! {

/// The color theme asked for on the command line.
#[derive(Debug, Clone, Copy, PartialEq, Eq, Structural)]
pub enum ThemeArg {
    /// Follow the OS setting
    Auto,
    /// Always use the light theme
    Light,
    /// Always use the dark theme
    Dark,
}

/// A theme forced onto the window and its title bar.
#[derive(Debug, Clone, Copy, PartialEq, Eq, Structural)]
pub enum WindowTheme {
    Light,
    Dark,
}

/// The name of a theme, as the page script receives it.
pub open spec fn theme_name(theme: ThemeArg) -> Seq<char> {
    match theme {
        ThemeArg::Auto => "auto"@,
        ThemeArg::Light => "light"@,
        ThemeArg::Dark => "dark"@,
    }
}

impl ThemeArg {
    /// The theme's name: `auto`, `light` or `dark`.
    pub fn as_str(&self) -> (r: &'static str)
        ensures
            r@ == theme_name(*self),
    {
        match self {
            ThemeArg::Auto => "auto",
            ThemeArg::Light => "light",
            ThemeArg::Dark => "dark",
        }
    }

    /// The theme applied to the window. `Auto` is `None`: follow the OS.
    pub fn window_theme(&self) -> (r: Option<WindowTheme>)
        ensures
            r == match *self {
                ThemeArg::Auto => None,
                ThemeArg::Light => Some(WindowTheme::Light),
                ThemeArg::Dark => Some(WindowTheme::Dark),
            },
    {
        match self {
            ThemeArg::Auto => None,
            ThemeArg::Light => Some(WindowTheme::Light),
            ThemeArg::Dark => Some(WindowTheme::Dark),
        }
    }
}

/// The command line, as far as the choice of mode and theme goes.
#[derive(Debug, Clone, Copy)]
pub struct Args {
    /// `-m`, `--multiline`: one button per line
    pub multiline: bool,
    /// `-j`, `--json`: read the input as a JSON array
    pub json: bool,
    /// `-s`, `--split-empty-line[=COUNT]`: `None` when absent, `Some(None)`
    /// when given without a count
    pub split_empty_line: Option<Option<usize>>,
    /// `--theme`
    pub theme: ThemeArg,
}

/// The mode that applies and its count. The first match wins: multiline,
/// then split-empty-line, then json; the sample data is JSON, so it is read
/// in JSON mode when no earlier mode was asked for.
pub open spec fn selected_mode(args: Args, is_default_data: bool) -> (Seq<char>, usize) {
    if args.multiline {
        ("multiline"@, 1)
    } else if args.split_empty_line is Some {
        (
            "split-empty-line"@,
            match args.split_empty_line->0 {
                Some(count) => count,
                None => 1,
            },
        )
    } else if args.json || is_default_data {
        ("json"@, 1)
    } else {
        ("normal"@, 1)
    }
}

/// Decide the mode and its count.
pub fn select_mode(args: &Args, is_default_data: bool) -> (r: (&'static str, usize))
    ensures
        (r.0@, r.1) == selected_mode(*args, is_default_data),
{
    if args.multiline {
        ("multiline", 1)
    } else if let Some(count_opt) = args.split_empty_line {
        let count = match count_opt {
            Some(count) => count,
            None => 1,
        };
        ("split-empty-line", count)
    } else if args.json || is_default_data {
        ("json", 1)
    } else {
        ("normal", 1)
    }
}

} // verus!

verus! {

/// One button: `label` is shown, `text` is copied when it is clicked.
#[derive(Debug, Clone)]
pub struct ClipboardItem {
    pub label: String,
    pub text: String,
}

/// Everything the window shows.
#[derive(Debug, Clone)]
pub struct AppData {
    pub items: Vec<ClipboardItem>,
    pub mode: String,
    pub is_default_data: bool,
}

/// `items` are one button per text of `texts`, in order, each showing the
/// text it copies.
pub open spec fn items_match(items: Seq<ClipboardItem>, texts: Seq<Seq<char>>) -> bool {
    &&& items.len() == texts.len()
    &&& forall|k: int|
        0 <= k < items.len() ==> (#[trigger] items[k]).label@ == texts[k] && items[k].text@
            == texts[k]
}

/// The texts of the buttons that a mode other than JSON makes of `buffer`:
/// in multiline mode its non-blank lines; in split-empty-line mode its
/// non-blank sections between runs of `count + 1` newlines; in any other mode
/// the whole of it, trimmed.
pub open spec fn text_items(buffer: Seq<char>, mode: Seq<char>, count: usize) -> Seq<Seq<char>> {
    if mode == "multiline"@ {
        text::without_blank(text::lines(buffer))
    } else if mode == "split-empty-line"@ {
        text::without_blank(text::split_runs(buffer, '\n', (count + 1) as nat))
    } else {
        seq![text::trim(buffer)]
    }
}

/// Whether `a` and `b` hold the same text.
pub fn same_text(a: &str, b: &str) -> (r: bool)
    ensures
        r == (a@ == b@),
{
    let x = text::chars_of(a);
    let y = text::chars_of(b);
    if x.len() != y.len() {
        return false;
    }
    let mut k: usize = 0;
    while k < x.len()
        invariant
            x@ == a@,
            y@ == b@,
            x@.len() == y@.len(),
            k <= x@.len(),
            forall|j: int| 0 <= j < k ==> x@[j] == y@[j],
        decreases x@.len() - k,
    {
        if x[k] != y[k] {
            return false;
        }
        k += 1;
    }
    assert(x@ =~= y@);
    true
}

fn item_of(t: String) -> (r: ClipboardItem)
    ensures
        r.label@ == t@,
        r.text@ == t@,
{
    ClipboardItem { label: t.clone(), text: t }
}

/// One button for each non-blank piece of `s` that `spans` marks.
fn items_from_spans(s: &Vec<char>, spans: &Vec<(usize, usize)>) -> (r: Vec<ClipboardItem>)
    requires
        text::spans_valid(s@, spans@),
    ensures
        items_match(r@, text::without_blank(text::spans(s@, spans@))),
{
    let ghost ps = text::spans(s@, spans@);
    let mut r: Vec<ClipboardItem> = Vec::new();
    let mut k: usize = 0;
    while k < spans.len()
        invariant
            text::spans_valid(s@, spans@),
            ps == text::spans(s@, spans@),
            k <= spans@.len(),
            items_match(r@, text::without_blank(ps.take(k as int))),
        decreases spans@.len() - k,
    {
        let (a, b) = spans[k];
        assert(ps.take(k + 1).drop_last() =~= ps.take(k as int));
        assert(ps.take(k + 1).last() == s@.subrange(a as int, b as int));
        if !text::span_is_blank(s, a, b) {
            let t = text::string_of(s, a, b);
            r.push(item_of(t));
        }
        k += 1;
    }
    assert(ps.take(spans@.len() as int) =~= ps);
    r
}

/// Split the piped text into the buttons the window shows.
///
/// JSON mode makes no buttons here: its buttons are the elements of the JSON
/// array, read by the JSON reader, and this returns `None` for it (see
/// [`json_items`]). Every other mode is described by [`text_items`]; a mode
/// name that is none of the known ones reads the input as one item.
pub fn build_items(buffer: &str, mode: &str, split_empty_line_count: usize) -> (r: Option<
    Vec<ClipboardItem>,
>)
    ensures
        r is None <==> mode@ == "json"@,
        r matches Some(items) ==> items_match(
            items@,
            text_items(buffer@, mode@, split_empty_line_count),
        ),
{
    if same_text(mode, "json") {
        return None;
    }
    let s = text::chars_of(buffer);
    if same_text(mode, "multiline") {
        let spans = text::line_spans(&s);
        Some(items_from_spans(&s, &spans))
    } else if same_text(mode, "split-empty-line") {
        let spans = text::run_pieces(&s, '\n', split_empty_line_count);
        Some(items_from_spans(&s, &spans))
    } else {
        let (a, b) = text::trim_span(&s, 0, s.len());
        assert(s@.subrange(0, s@.len() as int) =~= s@);
        let t = text::string_of(&s, a, b);
        let mut items: Vec<ClipboardItem> = Vec::new();
        items.push(item_of(t));
        Some(items)
    }
}

/// The prefix of the error that malformed JSON input is reported with.
pub open spec fn json_error_prefix() -> Seq<char> {
    "Failed to parse JSON: "@
}

/// The outcome of JSON mode, given what the JSON reader made of the input:
/// its items, or its error message behind "Failed to parse JSON: ".
pub fn json_items(parsed: Result<Vec<ClipboardItem>, String>) -> (r: Result<
    Vec<ClipboardItem>,
    String,
>)
    ensures
        match parsed {
            Ok(items) => r == Ok::<Vec<ClipboardItem>, String>(items),
            Err(e) => r matches Err(m) && m@ == json_error_prefix() + e@,
        },
{
    match parsed {
        Ok(items) => Ok(items),
        Err(e) => {
            let mut m = String::from_str("Failed to parse JSON: ");
            m.append(e.as_str());
            Err(m)
        },
    }
}

} // verus!

verus! {

/// The sample shown when there is nothing to read: two JSON items.
pub const SAMPLE_DATA: &'static str = "[\n    {\"label\": \"ラベル1\", \"text\": \"テキスト1\"},\n    {\"label\": \"ラベル2\", \"text\": \"テキスト2\"}\n]";

/// The sample data, as a fresh buffer.
pub fn default_data_buffer() -> (r: String)
    ensures
        r@ == SAMPLE_DATA@,
{
    String::from_str(SAMPLE_DATA)
}

/// The text to split and whether it is the sample data. `piped` is what was
/// read from standard input, or `None` when standard input is a terminal and
/// was not read. A terminal, and input that is empty or whitespace only, get
/// the sample data instead.
pub fn input_buffer(piped: Option<String>) -> (r: (String, bool))
    ensures
        match piped {
            None => r.0@ == SAMPLE_DATA@ && r.1,
            Some(buf) => if text::is_blank(buf@) {
                r.0@ == SAMPLE_DATA@ && r.1
            } else {
                r.0 == buf && !r.1
            },
        },
{
    match piped {
        None => (default_data_buffer(), true),
        Some(buf) => {
            let s = text::chars_of(buf.as_str());
            if text::span_is_blank(&s, 0, s.len()) {
                assert(s@.subrange(0, s@.len() as int) =~= s@);
                (default_data_buffer(), true)
            } else {
                assert(s@.subrange(0, s@.len() as int) =~= s@);
                (buf, false)
            }
        },
    }
}

} // verus!

verus! {

#[verifier::external_type_specification]
#[verifier::external_body]
#[verifier::reject_recursive_types(T)]
pub struct ExMutex<T: ?Sized>(Mutex<T>);

/// What the window asks for, shared with the window's command handler.
pub struct AppState {
    pub data: Mutex<Option<AppData>>,
}

/// Locks `state.data` (`Mutex::lock`) and returns a clone of what it holds.
/// What it holds is whatever was stored last, so nothing is stated of it. A
/// lock that is poisoned (another thread panicked while holding it) still
/// gives its contents (`PoisonError::into_inner`), so this never panics.
#[verifier::external_body]
fn current_data(state: &AppState) -> Option<AppData> {
    match state.data.lock() {
        Ok(guard) => guard.clone(),
        Err(poisoned) => poisoned.into_inner().clone(),
    }
}

/// The reply to the window's request for data: the data, or an error when
/// there is none.
pub fn clipboard_data_reply(data: Option<AppData>) -> (r: Result<AppData, String>)
    ensures
        match data {
            Some(d) => r == Ok::<AppData, String>(d),
            None => r matches Err(e) && e@ == "No data available"@,
        },
{
    match data {
        Some(app_data) => Ok(app_data),
        None => Err(String::from_str("No data available")),
    }
}

/// The window's request for the data: whatever the state holds, or the
/// error when it holds nothing.
pub fn get_clipboard_data(state: &AppState) -> (r: Result<AppData, String>)
    ensures
        r matches Err(e) ==> e@ == "No data available"@,
{
    clipboard_data_reply(current_data(state))
}

} // verus!

verus! {

/// Exactly one mode applies, and the first match wins: multiline, then
/// split-empty-line, then JSON. JSON is never detected from the input: it
/// takes the `--json` flag, or the sample data. Only split-empty-line takes a
/// count other than 1, and then only the one given.
pub proof fn lemma_mode_precedence(args: Args, is_default_data: bool)
    ensures
        args.multiline ==> selected_mode(args, is_default_data).0 == "multiline"@,
        !args.multiline && args.split_empty_line is Some ==> selected_mode(
            args,
            is_default_data,
        ).0 == "split-empty-line"@,
        selected_mode(args, is_default_data).0 == "json"@ ==> args.json || is_default_data,
        selected_mode(args, is_default_data).1 != 1 ==> !args.multiline
            && args.split_empty_line == Some(Some(selected_mode(args, is_default_data).1)),
{
    reveal_strlit("multiline");
    reveal_strlit("split-empty-line");
    reveal_strlit("json");
    reveal_strlit("normal");
    if selected_mode(args, is_default_data).0 == "json"@ {
        assert("multiline"@[0] != "json"@[0]);
        assert("split-empty-line"@[0] != "json"@[0]);
        assert("normal"@[0] != "json"@[0]);
    }
}

/// In multiline mode every button is one line of the input, holds no
/// newline, and is not blank.
pub proof fn lemma_multiline_items(buffer: Seq<char>, count: usize)
    ensures
        forall|k: int|
            0 <= k < text_items(buffer, "multiline"@, count).len() ==> {
                let t = #[trigger] text_items(buffer, "multiline"@, count)[k];
                &&& text::lines(buffer).contains(t)
                &&& !text::is_blank(t)
                &&& forall|i: int| 0 <= i < t.len() ==> t[i] != '\n'
            },
{
    let ls = text::lines(buffer);
    text::lemma_without_blank_kept(ls);
    text::lemma_lines_hold_no_newline(buffer);
    assert forall|k: int| 0 <= k < text_items(buffer, "multiline"@, count).len() implies {
        let t = #[trigger] text_items(buffer, "multiline"@, count)[k];
        &&& ls.contains(t)
        &&& !text::is_blank(t)
        &&& forall|i: int| 0 <= i < t.len() ==> t[i] != '\n'
    } by {
        let t = text_items(buffer, "multiline"@, count)[k];
        let j = choose|j: int| 0 <= j < ls.len() && ls[j] == t;
        assert forall|i: int| 0 <= i < t.len() implies t[i] != '\n' by {
            assert(ls[j][i] != '\n');
        }
    }
}

/// In split-empty-line mode the input is cut at runs of `count + 1`
/// newlines and nothing else: the sections joined with that run between
/// each two give the input back, no section holds such a run (the run is cut
/// where it starts, so extra newlines open the next section), and the
/// buttons are the sections that are not blank.
pub proof fn lemma_split_items(buffer: Seq<char>, count: usize)
    ensures
        ({
            let n = (count + 1) as nat;
            let sections = text::split_runs(buffer, '\n', n);
            &&& text::join(sections, text::repeat_char('\n', n)) == buffer
            &&& forall|k: int, i: int|
                0 <= k < sections.len() ==> !#[trigger] text::run_at(sections[k], '\n', n, i)
            &&& text_items(buffer, "split-empty-line"@, count) == text::without_blank(sections)
        }),
{
    let n = (count + 1) as nat;
    text::lemma_split_join(buffer, '\n', n);
    text::lemma_split_pieces_hold_no_run(buffer, '\n', n);
    reveal_strlit("multiline");
    reveal_strlit("split-empty-line");
    assert("multiline"@[0] != "split-empty-line"@[0]);
}

/// In every mode but JSON and the line-based ones, the button is the whole
/// input without its outer whitespace: it neither starts nor ends with
/// whitespace, and it is empty only for blank input.
pub proof fn lemma_normal_item(buffer: Seq<char>, count: usize)
    ensures
        ({
            let t = text_items(buffer, "normal"@, count);
            &&& t.len() == 1
            &&& t[0] == text::trim(buffer)
            &&& t[0].len() == 0 <==> text::is_blank(buffer)
            &&& t[0].len() > 0 ==> !text::char_is_whitespace(t[0][0])
                && !text::char_is_whitespace(t[0].last())
        }),
{
    reveal_strlit("multiline");
    reveal_strlit("split-empty-line");
    reveal_strlit("normal");
    assert("multiline"@[0] != "normal"@[0]);
    assert("split-empty-line"@[0] != "normal"@[0]);
    text::lemma_trim_shape(buffer);
}

} // verus!

verus! {

/// The mode and count for each command line: `--multiline` gives
/// ("multiline", 1) whatever else is given; otherwise `--split-empty-line=N`
/// gives ("split-empty-line", N) with N kept as given, and
/// `--split-empty-line` without a count gives ("split-empty-line", 1);
/// otherwise `--json` or the sample data gives ("json", 1), and anything else
/// ("normal", 1).
pub proof fn lemma_mode_for_each_command_line(args: Args, is_default_data: bool)
    ensures
        args.multiline ==> selected_mode(args, is_default_data) == ("multiline"@, 1usize),
        forall|n: usize|
            !args.multiline && args.split_empty_line == Some(Some(n)) ==> selected_mode(
                args,
                is_default_data,
            ) == ("split-empty-line"@, n),
        !args.multiline && args.split_empty_line == Some(None::<usize>) ==> selected_mode(
            args,
            is_default_data,
        ) == ("split-empty-line"@, 1usize),
        !args.multiline && args.split_empty_line is None && (args.json || is_default_data)
            ==> selected_mode(args, is_default_data) == ("json"@, 1usize),
        !args.multiline && args.split_empty_line is None && !args.json && !is_default_data
            ==> selected_mode(args, is_default_data) == ("normal"@, 1usize),
{
}

/// In multiline mode the buttons are all the non-blank lines of the input,
/// in order, and nothing else; in split-empty-line mode they are all the
/// non-blank sections, in order, and nothing else.
pub proof fn lemma_items_are_all_non_blank_pieces(buffer: Seq<char>, count: usize)
    ensures
        text_items(buffer, "multiline"@, count) == text::lines(buffer).filter(
            |x: Seq<char>| !text::is_blank(x),
        ),
        text_items(buffer, "split-empty-line"@, count) == text::split_runs(
            buffer,
            '\n',
            (count + 1) as nat,
        ).filter(|x: Seq<char>| !text::is_blank(x)),
{
    text::lemma_without_blank_is_filter(text::lines(buffer));
    text::lemma_without_blank_is_filter(text::split_runs(buffer, '\n', (count + 1) as nat));
    reveal_strlit("multiline");
    reveal_strlit("split-empty-line");
    assert("multiline"@[0] != "split-empty-line"@[0]);
}

} // verus!
