use slmsttaa::tasks::{
    build_args, capture_marker, checkpoints_of, content_type, default_steps, first_frame,
    join_frames, parse_script, parse_size, route, shot_file_name, steps_on, Action, PathStyle, Route,
    ScriptErrorKind,
};

#[test]
fn content_types_follow_the_extension() {
    assert_eq!(content_type("index.html"), "text/html; charset=utf-8");
    assert_eq!(content_type("pkg/app.js"), "text/javascript; charset=utf-8");
    assert_eq!(content_type("a.mjs"), "text/javascript; charset=utf-8");
    assert_eq!(content_type("pkg/app_bg.wasm"), "application/wasm");
    assert_eq!(content_type("style.css"), "text/css; charset=utf-8");
    assert_eq!(content_type("x.json"), "application/json; charset=utf-8");
    assert_eq!(content_type("x.d.ts"), "text/plain; charset=utf-8");
    assert_eq!(content_type("shot.png"), "image/png");
    assert_eq!(content_type("logo.svg"), "image/svg+xml");
    assert_eq!(content_type("README"), "application/octet-stream");
    assert_eq!(content_type("archive.tar.gz"), "application/octet-stream");
    assert_eq!(content_type("html"), "text/html; charset=utf-8");
}

#[test]
fn build_args_native_and_wasm() {
    assert_eq!(
        build_args("cube", false, false),
        vec!["build", "--package", "slmsttaa", "--example", "cube"]
    );
    assert_eq!(
        build_args("terrain", true, true),
        vec![
            "build",
            "--package",
            "slmsttaa",
            "--example",
            "terrain",
            "--target",
            "wasm32-unknown-unknown",
            "--release"
        ]
    );
}

#[test]
fn sizes_need_two_positive_numbers() {
    assert_eq!(parse_size("1280x800"), Some((1280, 800)));
    assert_eq!(parse_size("640X480"), Some((640, 480)));
    assert_eq!(parse_size("0x480"), None);
    assert_eq!(parse_size("640"), None);
    assert_eq!(parse_size("1x2x3"), None);
    assert_eq!(parse_size("ax2"), None);
    assert_eq!(parse_size("+3x4"), Some((3, 4)));
}

#[test]
fn the_first_frame_defaults_to_120() {
    assert_eq!(first_frame(None), 120);
    assert_eq!(first_frame(Some("60,90")), 60);
    assert_eq!(first_frame(Some(" 45 ")), 45);
    assert_eq!(first_frame(Some("x,90")), 120);
    assert_eq!(first_frame(Some("")), 120);
}

#[test]
fn markers_name_their_frame() {
    assert_eq!(capture_marker("slmsttaa: capture 120"), Some(120));
    assert_eq!(capture_marker("slmsttaa: capture  7 "), Some(7));
    assert_eq!(capture_marker("slmsttaa: capture x"), None);
    assert_eq!(capture_marker("hello"), None);
    assert_eq!(capture_marker("slmsttaa: capture"), None);
}

#[test]
fn shots_are_named_after_the_example() {
    assert_eq!(shot_file_name("terrain", ""), "terrain.png");
    assert_eq!(shot_file_name("terrain", "inset"), "terrain-inset.png");
}

#[test]
fn frames_join_with_commas() {
    assert_eq!(join_frames(&[]), "");
    assert_eq!(join_frames(&[120]), "120");
    assert_eq!(join_frames(&[0, 5, 18446744073709551615]), "0,5,18446744073709551615");
}

#[test]
fn requests_are_routed() {
    assert!(matches!(route("GET / HTTP/1.1\r\n", PathStyle::Posix), Route::File(f) if f == "index.html"));
    assert!(matches!(route("GET /pkg/app.js?v=3 HTTP/1.1", PathStyle::Posix), Route::File(f) if f == "pkg/app.js"));
    assert!(matches!(route("GET //a.css HTTP/1.1", PathStyle::Posix), Route::File(f) if f == "a.css"));
    assert!(matches!(route("GET", PathStyle::Posix), Route::File(f) if f == "index.html"));
    assert!(matches!(route("POST / HTTP/1.1", PathStyle::Posix), Route::NotAllowed));
    assert!(matches!(route("", PathStyle::Posix), Route::NotAllowed));
    assert!(matches!(route("get / HTTP/1.1", PathStyle::Posix), Route::NotAllowed));
    assert!(matches!(route("GET /../secret HTTP/1.1", PathStyle::Posix), Route::Forbidden));
    assert!(matches!(route("GET /a/../../b HTTP/1.1", PathStyle::Posix), Route::Forbidden));
    assert!(matches!(route("GET /a..b HTTP/1.1", PathStyle::Posix), Route::File(f) if f == "a..b"));
}

#[test]
fn backslash_and_drive_paths_are_refused_on_windows() {
    assert!(matches!(route("GET /..\\secret HTTP/1.1", PathStyle::Windows), Route::Forbidden));
    assert!(matches!(route("GET /a\\..\\..\\b HTTP/1.1", PathStyle::Windows), Route::Forbidden));
    assert!(matches!(route("GET /a/..\\b HTTP/1.1", PathStyle::Windows), Route::Forbidden));
    assert!(matches!(route("GET /C:/Windows/win.ini HTTP/1.1", PathStyle::Windows), Route::Forbidden));
    assert!(matches!(route("GET /C:x HTTP/1.1", PathStyle::Windows), Route::Forbidden));
    assert!(matches!(route("GET /\\server\\share HTTP/1.1", PathStyle::Windows), Route::Forbidden));
    assert!(matches!(route("GET //\\x HTTP/1.1", PathStyle::Windows), Route::Forbidden));
    assert!(matches!(route("GET /pkg/a:b.js HTTP/1.1", PathStyle::Windows), Route::File(f) if f == "pkg/a:b.js"));
    assert!(matches!(route("GET /a\\b.txt HTTP/1.1", PathStyle::Windows), Route::File(f) if f == "a\\b.txt"));
}

#[test]
fn backslashes_and_colons_are_plain_names_on_posix() {
    assert!(matches!(route("GET /..\\secret HTTP/1.1", PathStyle::Posix), Route::File(f) if f == "..\\secret"));
    assert!(matches!(route("GET /a:b HTTP/1.1", PathStyle::Posix), Route::File(f) if f == "a:b"));
    assert!(matches!(route("GET /C:/x HTTP/1.1", PathStyle::Posix), Route::File(f) if f == "C:/x"));
    assert!(matches!(route("GET /\\x HTTP/1.1", PathStyle::Posix), Route::File(f) if f == "\\x"));
    assert!(matches!(route("GET /a/../b HTTP/1.1", PathStyle::Posix), Route::Forbidden));
    assert!(matches!(route("GET /a/../b HTTP/1.1", PathStyle::Windows), Route::Forbidden));
}

#[test]
fn a_script_reads_as_steps() {
    let text = "# a drag\n120  shot   inset\n120  move   414 368\r\n\n150  click # go\n150  wheel  -3\n160 press\n170 release\n180 key space\n190 shot\n";
    let steps = parse_script(text).unwrap();
    assert_eq!(steps.len(), 8);
    assert_eq!(steps[0].frame, 120);
    assert!(matches!(&steps[0].action, Action::Shot(n) if n == "inset"));
    assert!(matches!(steps[1].action, Action::Move(414, 368)));
    assert!(matches!(steps[2].action, Action::Click));
    assert!(matches!(steps[3].action, Action::Wheel(-3)));
    assert!(matches!(steps[4].action, Action::Press));
    assert!(matches!(steps[5].action, Action::Release));
    assert!(matches!(&steps[6].action, Action::Key(k) if k == "space"));
    assert!(matches!(&steps[7].action, Action::Shot(n) if n == "shot"));
    assert_eq!(steps[7].frame, 190);
}

#[test]
fn script_errors_name_the_line() {
    let e = parse_script("10 click\n\nfoo click\n").unwrap_err();
    assert_eq!(e.line, 3);
    assert!(matches!(e.kind, ScriptErrorKind::NoFrame));
    assert_eq!(e.kind.message(), "expected a frame number first");

    let e = parse_script("10\n").unwrap_err();
    assert_eq!(e.line, 1);
    assert!(matches!(e.kind, ScriptErrorKind::NoAction));

    let e = parse_script("10 move 3\n").unwrap_err();
    assert!(matches!(e.kind, ScriptErrorKind::BadMove));
    assert_eq!(e.kind.message(), "move needs X and Y");

    let e = parse_script("10 wheel up\n").unwrap_err();
    assert!(matches!(e.kind, ScriptErrorKind::BadWheel));

    let e = parse_script("10 key\n").unwrap_err();
    assert!(matches!(e.kind, ScriptErrorKind::NoKeyName));

    let e = parse_script("1 click\n2 jump\n3 bad bad\n").unwrap_err();
    assert_eq!(e.line, 2);
    assert_eq!(e.kind.message(), "unknown action `jump`");
}

#[test]
fn an_empty_script_has_no_steps() {
    assert_eq!(parse_script("").unwrap().len(), 0);
    assert_eq!(parse_script("# nothing\n   \n").unwrap().len(), 0);
}

#[test]
fn checkpoints_and_steps_per_frame() {
    let steps = parse_script("150 click\n120 shot a\n150 shot b\n120 move 1 2\n").unwrap();
    assert_eq!(checkpoints_of(&steps), vec![120, 150]);
    assert_eq!(steps_on(&steps, 120), vec![1, 3]);
    assert_eq!(steps_on(&steps, 150), vec![0, 2]);
    assert_eq!(steps_on(&steps, 7), Vec::<usize>::new());
}

#[test]
fn without_a_script_there_is_one_unnamed_shot() {
    let steps = default_steps(Some("60,90"));
    assert_eq!(steps.len(), 1);
    assert_eq!(steps[0].frame, 60);
    assert!(matches!(&steps[0].action, Action::Shot(n) if n.is_empty()));
    assert_eq!(default_steps(None)[0].frame, 120);
}

#[test]
fn a_run_visits_each_step_once_in_frame_then_script_order() {
    let steps = parse_script("30 click\n10 shot a\n30 key Tab\n20 press\n10 release\n20 shot b\n").unwrap();
    let mut run = Vec::new();
    for frame in checkpoints_of(&steps) {
        run.extend(steps_on(&steps, frame));
    }
    assert_eq!(run, vec![1, 4, 3, 5, 0, 2]);
}
