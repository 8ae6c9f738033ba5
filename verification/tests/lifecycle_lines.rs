use clipboard_palette::lifecycle::{
    flag, instances_unknown, is_same_program, lifecycle_line, log_exit, log_exit_requested,
    log_panic, log_startup_failed, log_window_created, log_window_event, log_window_state,
    other_instances_line, other_pids_from_ps, signal_exit_line, signal_logger_failure_line,
    TerminatingSignal, WindowEventKind, WindowReport, LOG_PREFIX,
};

#[test]
fn matches_the_full_path_reported_by_macos() {
    assert!(is_same_program(
        "clipboard-palette",
        "/Applications/clipboard-palette.app/Contents/MacOS/clipboard-palette"
    ));
}

#[test]
fn matches_the_name_truncated_by_linux() {
    assert!(is_same_program("clipboard-palette", "clipboard-palet"));
}

#[test]
fn does_not_match_another_program() {
    assert!(!is_same_program("clipboard-palette", "node"));
    assert!(!is_same_program("clipboard-palette", "/usr/bin/pbcopy"));
}

#[test]
fn collects_other_pids_and_skips_this_process() {
    let output = "    1 /sbin/launchd\n 4242 /Applications/clipboard-palette.app/Contents/MacOS/clipboard-palette\n 4243 clipboard-palet\n 4244 node\n";
    assert_eq!(
        other_pids_from_ps(output, "clipboard-palette", 4243),
        vec![4242]
    );
}

#[test]
fn reports_nothing_when_only_this_process_runs() {
    let output = " 4242 clipboard-palette\n 4244 node\n";
    assert!(other_pids_from_ps(output, "clipboard-palette", 4242).is_empty());
}

#[test]
fn ignores_the_header_of_a_ps_run_without_the_trailing_equals() {
    let output = "  PID COMMAND\n 4242 clipboard-palette\n";
    assert_eq!(
        other_pids_from_ps(output, "clipboard-palette", 1),
        vec![4242]
    );
}

#[test]
fn file_names_follow_path_normalization() {
    assert!(is_same_program("bin", "/usr/bin/"));
    assert!(is_same_program("app", "./app/."));
    assert!(!is_same_program("a", "a/.."));
    assert!(is_same_program("a/..", "a/.."));
    assert!(is_same_program("/", "/"));
    assert!(is_same_program("x", "//x//"));
}

#[test]
fn only_a_fifteen_byte_name_matches_by_prefix() {
    // 14 characters: not what Linux cuts names down to
    assert!(!is_same_program("clipboard-palette", "clipboard-pale"));
    // 15 bytes, but not a prefix
    assert!(!is_same_program("clipboard-palette", "clipboard-paleX"));
    // 5 characters of 3 bytes each: 15 bytes
    assert!(is_same_program("あいうえおか", "あいうえお"));
    // 15 characters but more than 15 bytes
    assert!(!is_same_program("ああああああああああああああああ", "あああああああああああああああ"));
}

#[test]
fn reads_pids_as_unsigned_decimal() {
    let output = "+7 app\n-8 app\n99999999999 app\n 12\tapp  \n13 app\n14\n015 /bin/app\n";
    assert_eq!(other_pids_from_ps(output, "app", 13), vec![7, 12, 15]);
    assert_eq!(other_pids_from_ps("", "app", 1), Vec::<u32>::new());
    assert_eq!(other_pids_from_ps("5 app\r\n6 app", "app", 1), vec![5, 6]);
}

#[test]
fn the_instances_line_lists_the_pids() {
    let output = " 10 app\n 11 other\n 12 /x/app\n 13 app\n";
    assert_eq!(
        other_instances_line(output, "app", 13),
        "other instances: pid=10 pid=12"
    );
    assert_eq!(
        other_instances_line(" 13 app\n", "app", 13),
        "other instances: none"
    );
    assert_eq!(
        instances_unknown("ps failed to run: boom"),
        "other instances: unknown (ps failed to run: boom)"
    );
}

#[test]
fn every_line_carries_the_prefix() {
    assert_eq!(LOG_PREFIX, "[lifecycle]");
    assert_eq!(lifecycle_line("pid=3"), "[lifecycle] pid=3");
    assert_eq!(
        log_window_created("main"),
        "[lifecycle] window created: label=main"
    );
    assert_eq!(
        log_startup_failed("no config"),
        "[lifecycle] startup failed: no config"
    );
    assert_eq!(
        log_exit_requested(Some(-3)),
        "[lifecycle] exit requested: code=-3"
    );
    assert_eq!(
        log_exit_requested(Some(0)),
        "[lifecycle] exit requested: code=0"
    );
    assert_eq!(
        log_exit_requested(None),
        "[lifecycle] exit requested: code=none"
    );
    assert_eq!(log_exit(), "[lifecycle] exit: reason=normal");
    assert_eq!(
        log_panic("unknown"),
        "[lifecycle] exit: reason=panic message=unknown"
    );
    assert_eq!(
        signal_logger_failure_line(15, "Invalid argument (os error 22)"),
        "[lifecycle] signal logger not installed: signal=15 errno=Invalid argument (os error 22)"
    );
}

#[test]
fn signal_lines_are_fixed_strings() {
    assert_eq!(
        signal_exit_line(TerminatingSignal::Interrupt),
        "[lifecycle] exit: reason=signal signal=SIGINT\n"
    );
    assert_eq!(
        signal_exit_line(TerminatingSignal::Terminate),
        "[lifecycle] exit: reason=signal signal=SIGTERM\n"
    );
    assert_eq!(
        signal_exit_line(TerminatingSignal::HangUp),
        "[lifecycle] exit: reason=signal signal=SIGHUP\n"
    );
    assert_eq!(
        signal_exit_line(TerminatingSignal::Other),
        "[lifecycle] exit: reason=signal\n"
    );
}

#[test]
fn window_events_that_end_a_run_are_logged() {
    assert_eq!(
        log_window_event("main", WindowEventKind::CloseRequested).unwrap(),
        "[lifecycle] window close requested: label=main"
    );
    assert_eq!(
        log_window_event("main", WindowEventKind::Destroyed).unwrap(),
        "[lifecycle] window destroyed: label=main"
    );
    assert!(log_window_event("main", WindowEventKind::Other).is_none());
}

fn report(visible: Result<bool, String>, minimized: Result<bool, String>) -> WindowReport {
    WindowReport {
        visible,
        minimized,
        focused: Err("gone".to_string()),
        position: Some((-10, 20)),
        size: Some((800, 600)),
    }
}

#[test]
fn the_window_state_ends_with_a_verdict() {
    let lines = log_window_state("main", &Some(report(Ok(true), Ok(false))));
    assert_eq!(
        lines[0],
        "[lifecycle] window state: label=main visible=true minimized=false focused=unknown position=-10,20 size=800x600"
    );
    assert_eq!(lines[1], "[lifecycle] startup ok: window is visible");

    let verdict = |v, m| log_window_state("main", &Some(report(v, m)))[1].clone();
    assert_eq!(
        verdict(Ok(true), Ok(true)),
        "[lifecycle] startup incomplete: window is minimized"
    );
    assert_eq!(
        verdict(Ok(true), Err("e1".to_string())),
        "[lifecycle] startup incomplete: window is visible but its minimized state is unknown: e1"
    );
    assert_eq!(
        verdict(Ok(false), Ok(false)),
        "[lifecycle] startup incomplete: window is not visible"
    );
    assert_eq!(
        verdict(Err("e2".to_string()), Ok(false)),
        "[lifecycle] startup incomplete: window visibility is unknown: e2"
    );

    let unknown = WindowReport {
        position: None,
        size: None,
        ..report(Ok(false), Ok(true))
    };
    let lines = log_window_state("w", &Some(unknown));
    assert_eq!(
        lines[0],
        "[lifecycle] window state: label=w visible=false minimized=true focused=unknown position=unknown size=unknown"
    );

    let lines = log_window_state("main", &None);
    assert_eq!(
        lines,
        vec![
            "[lifecycle] window missing: label=main".to_string(),
            "[lifecycle] startup incomplete: window was not found".to_string(),
        ]
    );
}

#[test]
fn flags_read_true_false_or_unknown() {
    assert_eq!(flag(&Ok(true)), "true");
    assert_eq!(flag(&Ok(false)), "false");
    assert_eq!(flag(&Err("x".to_string())), "unknown");
}

#[test]
fn base_names_agree_with_std_path() {
    for path in [
        "/usr/bin/node",
        "/usr/bin/",
        "tmp/foo.txt",
        "foo.txt/.",
        "foo.txt/.//",
        "foo.txt/..",
        "./x",
        "x//y",
        "/",
        ".",
        "..",
        "",
    ] {
        let name = std::path::Path::new(path)
            .file_name()
            .and_then(|n| n.to_str())
            .unwrap_or(path);
        assert!(is_same_program(name, path), "{:?}", path);
        assert!(!is_same_program(&format!("{}z", name), path), "{:?}", path);
    }
}

#[test]
fn every_line_of_a_multiline_message_carries_the_prefix() {
    assert_eq!(lifecycle_line("a\nb"), "[lifecycle] a\n[lifecycle] b");
    assert_eq!(
        log_panic("assertion failed\n  left: 1\n right: 2"),
        "[lifecycle] exit: reason=panic message=assertion failed\n[lifecycle]   left: 1\n[lifecycle]  right: 2"
    );
    assert_eq!(lifecycle_line("x\n"), "[lifecycle] x\n[lifecycle] ");
    assert_eq!(lifecycle_line(""), "[lifecycle] ");
    for line in log_startup_failed("one\n\ntwo").split('\n') {
        assert!(line.starts_with(LOG_PREFIX), "{:?}", line);
    }
}

#[test]
fn numbers_are_written_in_decimal_at_their_limits() {
    assert_eq!(
        log_exit_requested(Some(i32::MIN)),
        "[lifecycle] exit requested: code=-2147483648"
    );
    assert_eq!(
        log_exit_requested(Some(i32::MAX)),
        "[lifecycle] exit requested: code=2147483647"
    );
    assert_eq!(
        other_instances_line("4294967295 app\n 9 app\n", "app", 1),
        "other instances: pid=4294967295 pid=9"
    );
}

#[test]
fn ps_lines_are_judged_each_on_their_own() {
    let a = " 5 app\n 6 node\n";
    let b = " 7 /bin/app\n 1 app";
    let mut both = other_pids_from_ps(a, "app", 1);
    both.extend(other_pids_from_ps(b, "app", 1));
    assert_eq!(
        other_pids_from_ps(&format!("{}{}", a, b), "app", 1),
        both
    );
    assert_eq!(both, vec![5, 7]);
}
