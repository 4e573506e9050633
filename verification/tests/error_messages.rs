use clawyer::error::{decimal, ClawyerError};

#[test]
fn decimal_matches_display() {
    for n in [0, 1, 9, 10, 42, 100, 12345, -1, -10, -987, i32::MAX, i32::MIN] {
        assert_eq!(decimal(n), n.to_string());
    }
}

#[test]
fn every_error_has_its_words() {
    let cases = vec![
        (ClawyerError::NoStableTag, "could not resolve a stable release tag from origin"),
        (
            ClawyerError::UnparsableStatusLine { line: "?? ".to_string() },
            "could not parse git status line: ?? ",
        ),
        (
            ClawyerError::MissingDotenvKey { key: "K".to_string(), path: "/r/.env".to_string() },
            "missing K in /r/.env",
        ),
        (ClawyerError::ExecUsage, "Usage: clawyer exec -- <CMD...>"),
        (ClawyerError::NoConflictInProgress, "no rebase or merge conflict is in progress"),
        (ClawyerError::NoUnmergedPaths, "no unmerged paths found"),
        (
            ClawyerError::WouldDropPaths { paths: vec!["a".to_string(), "b/c".to_string()] },
            "non-preserved local paths would be dropped; re-run with --drop-nonpreserved after reviewing:\n- a\n- b/c",
        ),
        (
            ClawyerError::WouldDropPaths { paths: vec![] },
            "non-preserved local paths would be dropped; re-run with --drop-nonpreserved after reviewing:\n",
        ),
        (
            ClawyerError::CommandFailed { command: "docker compose".to_string(), code: 125 },
            "docker compose failed with exit code 125",
        ),
        (
            ClawyerError::CommandFailed { command: "git add".to_string(), code: -2 },
            "git add failed with exit code -2",
        ),
        (ClawyerError::GitFailed { detail: "fatal: bad".to_string() }, "fatal: bad"),
        (
            ClawyerError::HealthProbeFailed { detail: "ECONNREFUSED".to_string() },
            "gateway health probe failed: ECONNREFUSED",
        ),
    ];
    for (err, words) in cases {
        assert_eq!(err.message(), words);
    }
}
