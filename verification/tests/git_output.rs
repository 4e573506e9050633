use clawyer::error::ClawyerError;
use clawyer::git::{collect_dirty_paths, resolve_latest_stable_tag, status_output_well_formed};

#[test]
fn latest_stable_tag_is_the_greatest() {
    let out = "\
aaa\trefs/tags/v2026.3.12
bbb\trefs/tags/v2026.3.13-beta.1
ccc\trefs/tags/v2026.3.13
ddd\trefs/tags/v2026.3.13-1
eee\trefs/tags/v2025.12.31
fff\trefs/heads/v2027.1.1
";
    assert_eq!(resolve_latest_stable_tag(out).unwrap(), "v2026.3.13-1");
}

#[test]
fn latest_stable_tag_takes_the_last_of_equals() {
    let out = "a refs/tags/v2026.3.13\nb refs/tags/v2026.03.13\nc refs/tags/v2026.3.1\n";
    assert_eq!(resolve_latest_stable_tag(out).unwrap(), "v2026.03.13");
}

#[test]
fn latest_stable_tag_reads_only_the_second_field() {
    let out = "refs/tags/v9.9.9\nx refs/tags/v1.0.0 refs/tags/v8.0.0\n  y   refs/tags/v2.0.0\r\n";
    assert_eq!(resolve_latest_stable_tag(out).unwrap(), "v2.0.0");
}

#[test]
fn no_stable_tag_is_an_error() {
    assert_eq!(resolve_latest_stable_tag(""), Err(ClawyerError::NoStableTag));
    assert_eq!(
        resolve_latest_stable_tag("a refs/tags/v1.2.3-beta\nb refs/tags/nightly\n"),
        Err(ClawyerError::NoStableTag)
    );
}

#[test]
fn dirty_paths_from_porcelain_status() {
    let out = " M src/main.rs\n?? crates/clawyer/new.rs\nR  old.txt -> new.txt\nA  \"with space\"\nx\n";
    assert!(status_output_well_formed(out));
    assert_eq!(
        collect_dirty_paths(out).unwrap(),
        vec!["src/main.rs", "crates/clawyer/new.rs", "new.txt", "\"with space\""]
    );
}

#[test]
fn dirty_paths_skip_short_lines_and_handle_multibyte() {
    let out = "ab\n\n?? é\nM  é x\n";
    assert!(status_output_well_formed(out));
    assert_eq!(collect_dirty_paths(out).unwrap(), vec!["é", "é x"]);
}

#[test]
fn status_line_without_path_is_an_error() {
    let out = " M ok\n?? \t \n?? later\n";
    assert_eq!(
        collect_dirty_paths(out),
        Err(ClawyerError::UnparsableStatusLine { line: "?? \t ".to_string() })
    );
    let arrow_only = "R  a -> \n";
    assert_eq!(
        collect_dirty_paths(arrow_only),
        Err(ClawyerError::UnparsableStatusLine { line: "R  a -> ".to_string() })
    );
}

#[test]
fn status_lines_cut_inside_a_character_are_flagged() {
    assert!(!status_output_well_formed("🎉abc\n"));
    assert!(!status_output_well_formed("abéxy\n"));
    assert!(status_output_well_formed("aéxy\n"));
    assert!(status_output_well_formed("aé\n"));
    assert!(status_output_well_formed("éaxy\n"));
}

#[test]
fn lines_after_the_first_unparsable_one_are_not_read() {
    let out = " M ok\n M    \nab\u{e9}xy\n";
    assert!(status_output_well_formed(out));
    assert_eq!(
        collect_dirty_paths(out),
        Err(ClawyerError::UnparsableStatusLine { line: " M    ".to_string() })
    );
    assert!(!status_output_well_formed("ab\u{e9}xy\n M    \n"));
    assert!(!status_output_well_formed(" M ok\nab\u{e9}xy\n"));
}
