use clipboard_palette::text::{
    chars_of, line_spans, run_pieces, string_of, trim_span,
};

fn pieces(s: &str, c: char, count: usize) -> Vec<String> {
    let v = chars_of(s);
    run_pieces(&v, c, count)
        .into_iter()
        .map(|(a, b)| string_of(&v, a, b))
        .collect()
}

#[test]
fn split_pieces_join_back_to_the_input() {
    for (s, count) in [("a\n\n\n\nb\n\n", 1usize), ("\n\n\n", 0), ("", 2), ("x\n\ny", 1)] {
        let sep = "\n".repeat(count + 1);
        assert_eq!(pieces(s, '\n', count).join(&sep), s);
        assert_eq!(
            pieces(s, '\n', count),
            s.split(sep.as_str()).map(String::from).collect::<Vec<_>>()
        );
    }
}

#[test]
fn no_piece_holds_the_separator() {
    for p in pieces("a\n\n\n\n\nb", '\n', 1) {
        assert!(!p.contains("\n\n"), "{:?}", p);
    }
}

#[test]
fn line_spans_agree_with_str_lines() {
    for s in ["a\nb\r\nc\r", "", "\n", "\r\n\r\n", "x\n\ny\n", "a\rb"] {
        let v = chars_of(s);
        let got: Vec<String> = line_spans(&v)
            .into_iter()
            .map(|(a, b)| string_of(&v, a, b))
            .collect();
        let want: Vec<String> = s.lines().map(String::from).collect();
        assert_eq!(got, want, "{:?}", s);
    }
}

#[test]
fn trimming_agrees_with_str_trim() {
    for s in [" a ", "\u{2003}b\u{85}", "   ", "", "c", "\u{200b}d"] {
        let v = chars_of(s);
        let (a, b) = trim_span(&v, 0, v.len());
        assert_eq!(string_of(&v, a, b), s.trim(), "{:?}", s);
    }
}

#[test]
fn whitespace_agrees_with_char_is_whitespace() {
    for v in 0u32..=0x10FFFF {
        if let Some(c) = char::from_u32(v) {
            assert_eq!(
                clipboard_palette::text::is_whitespace(c),
                c.is_whitespace(),
                "{:#x}",
                v
            );
        }
    }
}
