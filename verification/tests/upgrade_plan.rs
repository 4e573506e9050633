use clawyer::error::ClawyerError;
use clawyer::paths::path_is_preserved;
use clawyer::roots::preserved_roots;
use clawyer::upgrade::{
    conflict_kind, dropped_paths, plan_conflict_repair, plan_upgrade, UpgradeOptions, UpgradePlan,
    UpgradeStep,
};

fn strings(words: &[&str]) -> Vec<String> {
    words.iter().map(|w| w.to_string()).collect()
}

fn options(dry_run: bool, drop: bool, no_build: bool, no_restart: bool) -> UpgradeOptions {
    UpgradeOptions {
        dry_run,
        ref_override: None,
        drop_nonpreserved: drop,
        no_build,
        no_restart,
    }
}

#[test]
fn preserved_paths_are_whole_components() {
    let preserve = strings(&["crates/clawyer", "skills/mine"]);
    assert!(path_is_preserved("crates/clawyer", &preserve));
    assert!(path_is_preserved("crates/clawyer/src/main.rs", &preserve));
    assert!(path_is_preserved("skills/mine//SKILL.md", &preserve));
    assert!(!path_is_preserved("./skills/mine/SKILL.md", &preserve));
    assert!(!path_is_preserved("crates/clawyerx", &preserve));
    assert!(!path_is_preserved("skills", &preserve));
    assert!(!path_is_preserved("src/main.rs", &preserve));
    assert!(!path_is_preserved("anything", &Vec::new()));
}

#[test]
fn preserved_roots_are_sorted_and_unique() {
    let roots = preserved_roots(true, &strings(&["zeta", "alpha", "zeta", "Beta"]));
    assert_eq!(roots, strings(&["crates/clawyer", "skills/Beta", "skills/alpha", "skills/zeta"]));
    assert_eq!(preserved_roots(false, &strings(&[])), Vec::<String>::new());
    assert_eq!(preserved_roots(false, &strings(&["b", "a"])), strings(&["skills/a", "skills/b"]));
}

#[test]
fn dropped_paths_are_the_unpreserved_ones() {
    let preserve = strings(&["crates/clawyer"]);
    let dirty = strings(&["README.md", "crates/clawyer/Cargo.toml", "src/x.rs"]);
    assert_eq!(dropped_paths(&dirty, &preserve), strings(&["README.md", "src/x.rs"]));
}

#[test]
fn dry_run_reports_target_and_lists() {
    let preserve = strings(&["crates/clawyer"]);
    let dirty = strings(&["crates/clawyer/a.rs", "notes.txt"]);
    match plan_upgrade(&options(true, false, false, false), "v2026.3.13", "img", &preserve, &dirty) {
        Ok(UpgradePlan::DryRun { report }) => assert_eq!(
            report,
            strings(&[
                "targetTag=v2026.3.13",
                "branch=local/release-v2026.3.13",
                "image=img",
                "preserve:",
                "- crates/clawyer",
                "drop:",
                "- notes.txt",
            ])
        ),
        other => panic!("unexpected {other:?}"),
    }
}

#[test]
fn upgrade_refuses_to_drop_without_flag() {
    let preserve = strings(&["crates/clawyer"]);
    let dirty = strings(&["notes.txt"]);
    match plan_upgrade(&options(false, false, false, false), "v1.0.0", "img", &preserve, &dirty) {
        Err(ClawyerError::WouldDropPaths { paths }) => assert_eq!(paths, strings(&["notes.txt"])),
        other => panic!("unexpected {other:?}"),
    }
}

#[test]
fn upgrade_steps_follow_flags() {
    let preserve = strings(&["crates/clawyer"]);
    let dirty = strings(&["notes.txt"]);
    match plan_upgrade(&options(false, true, false, false), "v1.0.0", "img", &preserve, &dirty) {
        Ok(UpgradePlan::Apply { branch, steps }) => {
            assert_eq!(branch, "local/release-v1.0.0");
            assert_eq!(
                steps,
                vec![
                    UpgradeStep::SnapshotPreserved,
                    UpgradeStep::ResetHard,
                    UpgradeStep::CleanUntracked,
                    UpgradeStep::FetchTags,
                    UpgradeStep::SwitchBranch,
                    UpgradeStep::RestoreSnapshot,
                    UpgradeStep::StagePreserved,
                    UpgradeStep::CommitOverlay,
                    UpgradeStep::Rebuild,
                    UpgradeStep::Restart,
                    UpgradeStep::Health,
                ]
            );
        }
        other => panic!("unexpected {other:?}"),
    }
    match plan_upgrade(&options(false, false, true, true), "v1.0.0", "img", &preserve, &[].to_vec()) {
        Ok(UpgradePlan::Apply { steps, .. }) => assert_eq!(
            steps,
            vec![
                UpgradeStep::SnapshotPreserved,
                UpgradeStep::FetchTags,
                UpgradeStep::SwitchBranch,
                UpgradeStep::RestoreSnapshot,
                UpgradeStep::StagePreserved,
                UpgradeStep::CommitOverlay,
                UpgradeStep::Health,
            ]
        ),
        other => panic!("unexpected {other:?}"),
    }
}

#[test]
fn conflict_kind_needs_a_rebase_or_merge() {
    assert_eq!(conflict_kind(true, true), Ok(true));
    assert_eq!(conflict_kind(false, true), Ok(false));
    assert_eq!(conflict_kind(false, false), Err(ClawyerError::NoConflictInProgress));
}

#[test]
fn rebase_repair_prefers_local_for_preserved_paths() {
    let preserve = strings(&["crates/clawyer"]);
    let cmds = plan_conflict_repair(true, "crates/clawyer/src/main.rs\n  README.md  \n\n", &preserve)
        .unwrap();
    assert_eq!(
        cmds,
        vec![
            strings(&["checkout", "--theirs", "--", "crates/clawyer/src/main.rs"]),
            strings(&["add", "--", "crates/clawyer/src/main.rs"]),
            strings(&["checkout", "--ours", "--", "README.md"]),
            strings(&["add", "--", "README.md"]),
            strings(&["rebase", "--continue"]),
        ]
    );
}

#[test]
fn merge_repair_prefers_local_for_preserved_paths() {
    let preserve = strings(&["skills/mine"]);
    let cmds = plan_conflict_repair(false, "skills/mine/SKILL.md\nsrc/a.rs", &preserve).unwrap();
    assert_eq!(
        cmds,
        vec![
            strings(&["checkout", "--ours", "--", "skills/mine/SKILL.md"]),
            strings(&["add", "--", "skills/mine/SKILL.md"]),
            strings(&["checkout", "--theirs", "--", "src/a.rs"]),
            strings(&["add", "--", "src/a.rs"]),
            strings(&["merge", "--continue"]),
        ]
    );
}

#[test]
fn repair_without_unmerged_paths_is_an_error() {
    assert_eq!(plan_conflict_repair(true, " \n\n", &vec![]), Err(ClawyerError::NoUnmergedPaths));
}
