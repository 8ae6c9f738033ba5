use clipboard_palette::palette::{
    build_items, clipboard_data_reply, default_data_buffer, get_clipboard_data, input_buffer,
    json_items, same_text, select_mode, AppData, AppState, Args, ClipboardItem, ThemeArg,
    WindowTheme, SAMPLE_DATA,
};
use std::sync::Mutex;

/// The command line with nothing given.
fn no_args() -> Args {
    Args {
        multiline: false,
        json: false,
        split_empty_line: None,
        theme: ThemeArg::Auto,
    }
}

fn texts(items: &[ClipboardItem]) -> Vec<&str> {
    items.iter().map(|i| i.text.as_str()).collect()
}

#[test]
fn no_option_reads_the_input_as_one_item() {
    let (mode, count) = select_mode(&no_args(), false);
    assert_eq!((mode, count), ("normal", 1));
}

#[test]
fn multiline_wins_over_the_other_modes() {
    // --multiline --split-empty-line=3 --json
    let args = Args {
        multiline: true,
        json: true,
        split_empty_line: Some(Some(3)),
        ..no_args()
    };
    assert_eq!(select_mode(&args, false).0, "multiline");
}

#[test]
fn split_empty_line_wins_over_json() {
    // --split-empty-line --json
    let args = Args {
        json: true,
        split_empty_line: Some(None),
        ..no_args()
    };
    assert_eq!(select_mode(&args, false), ("split-empty-line", 1));
}

#[test]
fn split_empty_line_takes_an_optional_count() {
    // --split-empty-line=2
    let args = Args {
        split_empty_line: Some(Some(2)),
        ..no_args()
    };
    assert_eq!(select_mode(&args, false), ("split-empty-line", 2));
    // -s 0
    let args = Args {
        split_empty_line: Some(Some(0)),
        ..no_args()
    };
    assert_eq!(select_mode(&args, false), ("split-empty-line", 0));
}

#[test]
fn json_needs_its_flag() {
    // --json, and -j, which is the same flag
    let args = Args {
        json: true,
        ..no_args()
    };
    assert_eq!(select_mode(&args, false), ("json", 1));
    assert_eq!(select_mode(&args, false), ("json", 1));
}

#[test]
fn the_sample_data_is_read_as_json_without_the_flag() {
    assert_eq!(select_mode(&no_args(), true).0, "json");
    assert_eq!(select_mode(&no_args(), false).0, "normal");
}

#[test]
fn multiline_drops_blank_lines() {
    let items = build_items("first\n\n  \nsecond\n", "multiline", 1).unwrap();
    let labels: Vec<_> = items.iter().map(|i| i.label.as_str()).collect();
    assert_eq!(labels, vec!["first", "second"]);
    assert_eq!(items[0].text, "first");
}

#[test]
fn normal_mode_trims_the_whole_input() {
    let items = build_items("  hello\nworld  \n", "normal", 1).unwrap();
    assert_eq!(items.len(), 1);
    assert_eq!(items[0].text, "hello\nworld");
}

#[test]
fn split_empty_line_splits_on_the_requested_run_of_newlines() {
    let items = build_items("a\n\n\nb\n", "split-empty-line", 2).unwrap();
    assert_eq!(texts(&items), vec!["a", "b\n"]);
}

#[test]
fn split_empty_line_keeps_shorter_runs_inside_a_section() {
    // One blank line is not a separator when a count of 2 was asked for
    let items = build_items("a\n\nb\n\n\nc", "split-empty-line", 2).unwrap();
    assert_eq!(texts(&items), vec!["a\n\nb", "c"]);
}

#[test]
fn split_empty_line_does_not_treat_crlf_or_spaces_as_a_separator() {
    let items = build_items("a\r\n\r\nb", "split-empty-line", 1).unwrap();
    assert_eq!(items.len(), 1, "CRLF must not separate sections");
    let items = build_items("a\n \nb", "split-empty-line", 1).unwrap();
    assert_eq!(items.len(), 1, "a line of spaces must not separate sections");
}

#[test]
fn split_empty_line_with_zero_splits_every_line() {
    let items = build_items("a\nb\n\nc", "split-empty-line", 0).unwrap();
    assert_eq!(texts(&items), vec!["a", "b", "c"]);
}

#[test]
fn json_mode_reports_malformed_input() {
    // Reported rather than shown as a single button holding the raw JSON
    let parsed = serde_json::from_str::<serde_json::Value>("not json")
        .map(|_| Vec::new())
        .map_err(|e| e.to_string());
    let err = json_items(parsed).unwrap_err();
    assert!(err.starts_with("Failed to parse JSON"), "{}", err);
}

#[test]
fn the_sample_data_parses_in_json_mode() {
    // The fallback shown on a TTY or on empty input has to be a JSON array of
    // two objects, each with a string label and text
    let buffer = default_data_buffer();
    assert!(build_items(&buffer, "json", 1).is_none());
    let value: serde_json::Value = serde_json::from_str(&buffer).unwrap();
    let items = value.as_array().unwrap();
    assert_eq!(items.len(), 2);
    for item in items {
        assert!(item["label"].is_string());
        assert!(item["text"].is_string());
    }
}

#[test]
fn theme_defaults_to_following_the_os() {
    let args = no_args();
    assert_eq!(args.theme.as_str(), "auto");
    assert!(args.theme.window_theme().is_none());
}

#[test]
fn theme_can_be_forced() {
    // --theme=dark and --theme light
    let dark = Args {
        theme: ThemeArg::Dark,
        ..no_args()
    };
    let light = Args {
        theme: ThemeArg::Light,
        ..no_args()
    };
    assert_eq!(dark.theme.as_str(), "dark");
    assert_eq!(light.theme.as_str(), "light");
    assert!(matches!(dark.theme, ThemeArg::Dark));
    assert!(dark.theme.window_theme().is_some());
}

#[test]
fn forced_themes_map_to_window_themes() {
    assert_eq!(ThemeArg::Light.window_theme(), Some(WindowTheme::Light));
    assert_eq!(ThemeArg::Dark.window_theme(), Some(WindowTheme::Dark));
}

#[test]
fn multiline_strips_crlf_endings_but_keeps_a_lone_final_cr() {
    let items = build_items("one\r\ntwo\r\nthree\r", "multiline", 1).unwrap();
    assert_eq!(texts(&items), vec!["one", "two", "three\r"]);
    assert_eq!(items[2].label, "three\r");
}

#[test]
fn multiline_keeps_inner_spaces_of_a_line() {
    let items = build_items("  indented line \n\t\n", "multiline", 1).unwrap();
    assert_eq!(texts(&items), vec!["  indented line "]);
}

#[test]
fn split_keeps_extra_newlines_at_the_head_of_the_next_section() {
    // Four newlines with a count of 1: one separator, then "\n\n" opens the next section
    let items = build_items("a\n\n\n\nb", "split-empty-line", 1).unwrap();
    assert_eq!(texts(&items), vec!["a", "b"]);
    let items = build_items("a\n\n\nb", "split-empty-line", 1).unwrap();
    assert_eq!(texts(&items), vec!["a", "\nb"]);
}

#[test]
fn split_drops_blank_sections_and_takes_huge_counts() {
    let items = build_items("a\n\n \n\nb", "split-empty-line", 1).unwrap();
    assert_eq!(texts(&items), vec!["a", "b"]);
    let items = build_items("a\n\n\nb", "split-empty-line", usize::MAX).unwrap();
    assert_eq!(texts(&items), vec!["a\n\n\nb"]);
}

#[test]
fn unknown_modes_read_the_input_as_one_item() {
    let items = build_items("\u{3000} x y \u{a0}", "other", 1).unwrap();
    assert_eq!(texts(&items), vec!["x y"]);
    let items = build_items(" \n ", "normal", 1).unwrap();
    assert_eq!(texts(&items), vec![""]);
}

#[test]
fn json_items_pass_the_reader_result_through() {
    let item = ClipboardItem {
        label: "L".to_string(),
        text: "T".to_string(),
    };
    let items = json_items(Ok(vec![item])).unwrap();
    assert_eq!(items[0].label, "L");
    assert_eq!(items[0].text, "T");
    assert_eq!(
        json_items(Err("oops".to_string())).unwrap_err(),
        "Failed to parse JSON: oops"
    );
}

#[test]
fn the_input_buffer_falls_back_to_the_sample() {
    assert_eq!(input_buffer(None), (SAMPLE_DATA.to_string(), true));
    assert_eq!(
        input_buffer(Some(" \n\t ".to_string())),
        (SAMPLE_DATA.to_string(), true)
    );
    assert_eq!(
        input_buffer(Some(" x ".to_string())),
        (" x ".to_string(), false)
    );
    assert_eq!(default_data_buffer(), SAMPLE_DATA);
}

#[test]
fn texts_compare_by_content() {
    assert!(same_text("json", "json"));
    assert!(!same_text("json", "jso"));
    assert!(!same_text("json", "JSON"));
}

#[test]
fn the_window_gets_the_data_or_an_error() {
    let data = AppData {
        items: vec![],
        mode: "normal".to_string(),
        is_default_data: false,
    };
    assert_eq!(clipboard_data_reply(Some(data)).unwrap().mode, "normal");
    assert_eq!(clipboard_data_reply(None).unwrap_err(), "No data available");

    let state = AppState {
        data: Mutex::new(None),
    };
    assert_eq!(get_clipboard_data(&state).unwrap_err(), "No data available");
    let state = AppState {
        data: Mutex::new(Some(AppData {
            items: vec![ClipboardItem {
                label: "a".to_string(),
                text: "b".to_string(),
            }],
            mode: "json".to_string(),
            is_default_data: true,
        })),
    };
    let got = get_clipboard_data(&state).unwrap();
    assert_eq!(got.items[0].text, "b");
    assert!(got.is_default_data);
}
