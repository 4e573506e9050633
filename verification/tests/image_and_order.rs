use std::path::PathBuf;

use clawyer::image::{image_step, ImageSource, ImageStep};
use clawyer::paths::sort_paths;
use clawyer::upgrade::{step_command, UpgradeStep};

fn strings(words: &[&str]) -> Vec<String> {
    words.iter().map(|w| w.to_string()).collect()
}

fn resolve(env: Option<&str>, dotenv: Option<&str>, running: Option<&str>) -> String {
    let mut source = ImageSource::Environment;
    loop {
        let found = match source {
            ImageSource::Environment => env,
            ImageSource::DotenvFile => dotenv,
            ImageSource::RunningContainer => running,
        };
        match image_step(source, found) {
            ImageStep::Use(image) => return image,
            ImageStep::LookAt(next) => source = next,
        }
    }
}

#[test]
fn image_precedence() {
    assert_eq!(resolve(Some(" env:1 "), Some("dot:1"), Some("run:1")), "env:1");
    assert_eq!(resolve(Some("  "), Some(" dot:1\n"), Some("run:1")), "dot:1");
    assert_eq!(resolve(None, Some(""), Some("run:1")), "run:1");
    assert_eq!(resolve(None, None, None), "openclaw:engulfed");
    assert!(matches!(
        image_step(ImageSource::Environment, None),
        ImageStep::LookAt(ImageSource::DotenvFile)
    ));
    assert!(matches!(
        image_step(ImageSource::DotenvFile, Some("\t")),
        ImageStep::LookAt(ImageSource::RunningContainer)
    ));
}

#[test]
fn sort_paths_matches_pathbuf_sort() {
    let samples = [
        "/tmp/s/b", "/tmp/s", "/tmp/s/a/z", "/tmp/s/a", "/tmp/s/a-b", "/tmp/s/a/b", "/tmp/s/A",
        "/tmp/s/é", "/tmp/s/.hidden", "rel", "./x", "../y", "/", "a//b", "a/b", "a/./b", "",
        "a/b/", ".", "..", "/tmp/s/a.b", "/tmp/s/a/",
    ];
    let input = strings(&samples);
    let mut want: Vec<PathBuf> = samples.iter().map(PathBuf::from).collect();
    want.sort();
    let want: Vec<String> = want.iter().map(|p| p.to_string_lossy().to_string()).collect();
    assert_eq!(sort_paths(&input), want);
    let mut reversed = input.clone();
    reversed.reverse();
    let mut want_rev: Vec<PathBuf> = reversed.iter().map(PathBuf::from).collect();
    want_rev.sort();
    let want_rev: Vec<String> = want_rev.iter().map(|p| p.to_string_lossy().to_string()).collect();
    assert_eq!(sort_paths(&reversed), want_rev);
}

#[test]
fn upgrade_step_git_arguments() {
    assert_eq!(step_command(UpgradeStep::ResetHard, "b", "t"), Some(strings(&["reset", "--hard", "HEAD"])));
    assert_eq!(step_command(UpgradeStep::CleanUntracked, "b", "t"), Some(strings(&["clean", "-fd"])));
    assert_eq!(step_command(UpgradeStep::FetchTags, "b", "t"), Some(strings(&["fetch", "--tags", "origin"])));
    assert_eq!(
        step_command(UpgradeStep::SwitchBranch, "local/release-v1.0.0", "v1.0.0"),
        Some(strings(&["switch", "-C", "local/release-v1.0.0", "v1.0.0"]))
    );
    for step in [
        UpgradeStep::SnapshotPreserved,
        UpgradeStep::RestoreSnapshot,
        UpgradeStep::StagePreserved,
        UpgradeStep::CommitOverlay,
        UpgradeStep::Rebuild,
        UpgradeStep::Restart,
        UpgradeStep::Health,
    ] {
        assert_eq!(step_command(step, "b", "t"), None);
    }
}
