//! Moving the checkout to a release while keeping the local roots, and
//! settling a conflicted rebase or merge.
use vstd::prelude::*;

use crate::commands::{push_str, push_string, upgrade_branch, DEFAULT_BRANCH_PREFIX};
use crate::error::ClawyerError;
use crate::paths::{path_is_preserved, preserved_by};
use crate::text::{chars_of, line_spans, lines, nonempty_piece, string_of, trim, trim_span, Delim};

verus! {

/// The flags of `clawyer upgrade`.
#[derive(Clone, Debug)]
pub struct UpgradeOptions {
    pub dry_run: bool,
    pub ref_override: Option<String>,
    pub drop_nonpreserved: bool,
    pub no_build: bool,
    pub no_restart: bool,
}

/// One step of an upgrade, in the order the plan lists them.
#[derive(Clone, Copy, Debug, PartialEq, Eq)]
pub enum UpgradeStep {
    /// Copy the preserved roots aside.
    SnapshotPreserved,
    /// `git reset --hard HEAD`.
    ResetHard,
    /// `git clean -fd`.
    CleanUntracked,
    /// `git fetch --tags origin`.
    FetchTags,
    /// `git switch -C <branch> <tag>`.
    SwitchBranch,
    /// Copy the preserved roots back.
    RestoreSnapshot,
    /// `git add -A --` the preserved roots.
    StagePreserved,
    /// Commit what was staged, if anything.
    CommitOverlay,
    /// Build the image.
    Rebuild,
    /// Recreate the gateway.
    Restart,
    /// Probe the gateway.
    Health,
}

/// What an upgrade does: print a report, or carry out steps.
#[derive(Clone, Debug)]
pub enum UpgradePlan {
    DryRun { report: Vec<String> },
    Apply { branch: String, steps: Vec<UpgradeStep> },
}

pub open spec fn not_preserved(roots: Seq<Seq<char>>) -> spec_fn(Seq<char>) -> bool {
    |p: Seq<char>| !preserved_by(p, roots)
}

/// The changed paths that an upgrade would discard: those outside every
/// preserved root, in order.
pub fn dropped_paths(dirty: &Vec<String>, preserve: &Vec<String>) -> (res: Vec<String>)
    ensures
        res.deep_view() == dirty.deep_view().filter(not_preserved(preserve.deep_view())),
{
    let ghost d = dirty.deep_view();
    let ghost f = not_preserved(preserve.deep_view());
    let mut out: Vec<String> = Vec::new();
    let mut i: usize = 0;
    assert(d.take(0).filter(f) =~= Seq::<Seq<char>>::empty()) by {
        reveal(Seq::filter);
    }
    while i < dirty.len()
        invariant
            d == dirty.deep_view(),
            f == not_preserved(preserve.deep_view()),
            i <= dirty.len(),
            out.deep_view() == d.take(i as int).filter(f),
        decreases dirty.len() - i,
    {
        proof {
            assert(d.take(i + 1) =~= d.take(i as int).push(d[i as int]));
            d.take(i as int).lemma_filter_push(d[i as int], f);
        }
        if !path_is_preserved(dirty[i].as_str(), preserve) {
            let ghost before = out.deep_view();
            out.push(dirty[i].clone());
            assert(out.deep_view() =~= before.push(d[i as int]));
        }
        i += 1;
    }
    assert(d.take(i as int) =~= d);
    out
}

/// `- <path>` for each path.
pub open spec fn listed(paths: Seq<Seq<char>>) -> Seq<Seq<char>> {
    paths.map_values(|p: Seq<char>| "- "@ + p)
}

/// The lines that `clawyer upgrade --dry-run` prints.
pub open spec fn dry_run_report_spec(
    tag: Seq<char>,
    branch: Seq<char>,
    image: Seq<char>,
    preserve: Seq<Seq<char>>,
    dropped: Seq<Seq<char>>,
) -> Seq<Seq<char>> {
    seq!["targetTag="@ + tag, "branch="@ + branch, "image="@ + image, "preserve:"@] + listed(
        preserve,
    ) + seq!["drop:"@] + listed(dropped)
}

fn push_listed(out: &mut Vec<String>, paths: &Vec<String>)
    ensures
        final(out).deep_view() == old(out).deep_view() + listed(paths.deep_view()),
{
    let ghost start = out.deep_view();
    let mut i: usize = 0;
    while i < paths.len()
        invariant
            i <= paths.len(),
            out.deep_view() == start + listed(paths.deep_view().take(i as int)),
        decreases paths.len() - i,
    {
        let mut line = "- ".to_owned();
        line.append(paths[i].as_str());
        let ghost before = out.deep_view();
        out.push(line);
        assert(out.deep_view() =~= before.push("- "@ + paths[i as int]@));
        assert(listed(paths.deep_view().take(i + 1)) =~= listed(paths.deep_view().take(i as int)).push(
            "- "@ + paths[i as int]@,
        ));
        i += 1;
    }
    assert(paths.deep_view().take(i as int) =~= paths.deep_view());
}

pub fn dry_run_report(
    tag: &str,
    branch: &str,
    image: &str,
    preserve: &Vec<String>,
    dropped: &Vec<String>,
) -> (res: Vec<String>)
    ensures
        res.deep_view() == dry_run_report_spec(
            tag@,
            branch@,
            image@,
            preserve.deep_view(),
            dropped.deep_view(),
        ),
{
    let mut out: Vec<String> = Vec::new();
    let mut t = "targetTag=".to_owned();
    t.append(tag);
    out.push(t);
    let mut b = "branch=".to_owned();
    b.append(branch);
    out.push(b);
    let mut i = "image=".to_owned();
    i.append(image);
    out.push(i);
    push_str(&mut out, "preserve:");
    assert(out.deep_view() =~= seq!["targetTag="@ + tag@, "branch="@ + branch@, "image="@ + image@, "preserve:"@]);
    push_listed(&mut out, preserve);
    push_str(&mut out, "drop:");
    push_listed(&mut out, dropped);
    out
}

/// The dry-run report names the target tag, the branch and the image, then
/// lists every preserved root and every dropped path, each once and in
/// order, under its heading.
pub proof fn lemma_dry_run_report_lists(
    tag: Seq<char>,
    branch: Seq<char>,
    image: Seq<char>,
    preserve: Seq<Seq<char>>,
    dropped: Seq<Seq<char>>,
)
    ensures
        dry_run_report_spec(tag, branch, image, preserve, dropped).len() == 5 + preserve.len()
            + dropped.len(),
        dry_run_report_spec(tag, branch, image, preserve, dropped)[0] == "targetTag="@ + tag,
        dry_run_report_spec(tag, branch, image, preserve, dropped)[1] == "branch="@ + branch,
        dry_run_report_spec(tag, branch, image, preserve, dropped)[2] == "image="@ + image,
        dry_run_report_spec(tag, branch, image, preserve, dropped)[3] == "preserve:"@,
        forall|i: int|
            0 <= i < preserve.len() ==> dry_run_report_spec(tag, branch, image, preserve, dropped)[4
                + i] == "- "@ + #[trigger] preserve[i],
        dry_run_report_spec(tag, branch, image, preserve, dropped)[4 + preserve.len() as int] == "drop:"@,
        forall|j: int|
            0 <= j < dropped.len() ==> dry_run_report_spec(tag, branch, image, preserve, dropped)[5
                + preserve.len() + j] == "- "@ + #[trigger] dropped[j],
{
    let r = dry_run_report_spec(tag, branch, image, preserve, dropped);
    let n = preserve.len() as int;
    let h = seq!["targetTag="@ + tag, "branch="@ + branch, "image="@ + image, "preserve:"@];
    let a = h + listed(preserve);
    let b = a + seq!["drop:"@];
    assert(r == b + listed(dropped));
    assert(listed(preserve).len() == preserve.len());
    assert(listed(dropped).len() == dropped.len());
    assert(a.len() == 4 + n);
    assert(b[4 + n] == "drop:"@);
    assert(r[4 + n] == b[4 + n]);
    assert(r[0] == h[0] && r[1] == h[1] && r[2] == h[2] && r[3] == h[3]);
    assert forall|i: int| 0 <= i < n implies r[4 + i] == "- "@ + #[trigger] preserve[i] by {
        assert(listed(preserve)[i] == "- "@ + preserve[i]);
        assert(r[4 + i] == a[4 + i]);
    }
    assert forall|j: int| 0 <= j < dropped.len() implies r[5 + n + j] == "- "@
        + #[trigger] dropped[j] by {
        assert(listed(dropped)[j] == "- "@ + dropped[j]);
        assert(r[5 + n + j] == listed(dropped)[j]);
    }
}

/// The steps of an upgrade that is carried out.
pub open spec fn upgrade_steps_spec(dirty: bool, build: bool, restart: bool) -> Seq<UpgradeStep> {
    seq![UpgradeStep::SnapshotPreserved] + (if dirty {
        seq![UpgradeStep::ResetHard, UpgradeStep::CleanUntracked]
    } else {
        Seq::<UpgradeStep>::empty()
    }) + seq![
        UpgradeStep::FetchTags,
        UpgradeStep::SwitchBranch,
        UpgradeStep::RestoreSnapshot,
        UpgradeStep::StagePreserved,
        UpgradeStep::CommitOverlay,
    ] + (if build {
        seq![UpgradeStep::Rebuild]
    } else {
        Seq::<UpgradeStep>::empty()
    }) + (if restart {
        seq![UpgradeStep::Restart]
    } else {
        Seq::<UpgradeStep>::empty()
    }) + seq![UpgradeStep::Health]
}

fn upgrade_steps(dirty: bool, build: bool, restart: bool) -> (res: Vec<UpgradeStep>)
    ensures
        res@ == upgrade_steps_spec(dirty, build, restart),
{
    let mut v: Vec<UpgradeStep> = Vec::new();
    v.push(UpgradeStep::SnapshotPreserved);
    if dirty {
        v.push(UpgradeStep::ResetHard);
        v.push(UpgradeStep::CleanUntracked);
    }
    v.push(UpgradeStep::FetchTags);
    v.push(UpgradeStep::SwitchBranch);
    v.push(UpgradeStep::RestoreSnapshot);
    v.push(UpgradeStep::StagePreserved);
    v.push(UpgradeStep::CommitOverlay);
    if build {
        v.push(UpgradeStep::Rebuild);
    }
    if restart {
        v.push(UpgradeStep::Restart);
    }
    v.push(UpgradeStep::Health);
    assert(v@ =~= upgrade_steps_spec(dirty, build, restart));
    v
}

/// Plans an upgrade of the checkout to `tag`. A dry run reports the target,
/// the branch, the image and which changed paths are kept or dropped. A real
/// run is refused while changed paths outside the preserved roots would be
/// dropped, unless dropping them was asked for; otherwise it snapshots the
/// preserved roots, discards local changes (if any), switches to the release
/// branch, restores and commits the roots, then rebuilds, restarts and
/// probes as asked.
pub fn plan_upgrade(
    options: &UpgradeOptions,
    tag: &str,
    image: &str,
    preserve: &Vec<String>,
    dirty: &Vec<String>,
) -> (res: Result<UpgradePlan, ClawyerError>)
    ensures
        ({
            let dropped = dirty.deep_view().filter(not_preserved(preserve.deep_view()));
            let branch = DEFAULT_BRANCH_PREFIX@ + tag@;
            if options.dry_run {
                res matches Ok(UpgradePlan::DryRun { report }) && report.deep_view()
                    == dry_run_report_spec(tag@, branch, image@, preserve.deep_view(), dropped)
            } else if dropped.len() > 0 && !options.drop_nonpreserved {
                res matches Err(ClawyerError::WouldDropPaths { paths }) && paths.deep_view()
                    == dropped
            } else {
                res matches Ok(UpgradePlan::Apply { branch: b, steps }) && b@ == branch && steps@
                    == upgrade_steps_spec(dirty.len() > 0, !options.no_build, !options.no_restart)
            }
        }),
{
    let branch = upgrade_branch(tag);
    let dropped = dropped_paths(dirty, preserve);
    if options.dry_run {
        let report = dry_run_report(tag, branch.as_str(), image, preserve, &dropped);
        return Ok(UpgradePlan::DryRun { report });
    }
    if dropped.len() > 0 && !options.drop_nonpreserved {
        return Err(ClawyerError::WouldDropPaths { paths: dropped });
    }
    let steps = upgrade_steps(dirty.len() > 0, !options.no_build, !options.no_restart);
    Ok(UpgradePlan::Apply { branch, steps })
}

/// The git arguments of the upgrade steps that are git commands; `None` for
/// the other steps.
pub fn step_command(step: UpgradeStep, branch: &str, tag: &str) -> (res: Option<Vec<String>>)
    ensures
        match step {
            UpgradeStep::ResetHard => res matches Some(v) && v.deep_view() == seq![
                "reset"@,
                "--hard"@,
                "HEAD"@,
            ],
            UpgradeStep::CleanUntracked => res matches Some(v) && v.deep_view() == seq![
                "clean"@,
                "-fd"@,
            ],
            UpgradeStep::FetchTags => res matches Some(v) && v.deep_view() == seq![
                "fetch"@,
                "--tags"@,
                "origin"@,
            ],
            UpgradeStep::SwitchBranch => res matches Some(v) && v.deep_view() == seq![
                "switch"@,
                "-C"@,
                branch@,
                tag@,
            ],
            _ => res is None,
        },
{
    let mut v: Vec<String> = Vec::new();
    match step {
        UpgradeStep::ResetHard => {
            push_str(&mut v, "reset");
            push_str(&mut v, "--hard");
            push_str(&mut v, "HEAD");
        },
        UpgradeStep::CleanUntracked => {
            push_str(&mut v, "clean");
            push_str(&mut v, "-fd");
        },
        UpgradeStep::FetchTags => {
            push_str(&mut v, "fetch");
            push_str(&mut v, "--tags");
            push_str(&mut v, "origin");
        },
        UpgradeStep::SwitchBranch => {
            push_str(&mut v, "switch");
            push_str(&mut v, "-C");
            push_str(&mut v, branch);
            push_str(&mut v, tag);
        },
        _ => {
            return None;
        },
    }
    Some(v)
}

/// An upgrade never drops a preserved path, and every changed path is either
/// preserved or listed as dropped.
pub proof fn lemma_dropped_partition(dirty: Seq<Seq<char>>, roots: Seq<Seq<char>>)
    ensures
        forall|i: int|
            0 <= i < dirty.filter(not_preserved(roots)).len() ==> !preserved_by(
                #[trigger] dirty.filter(not_preserved(roots))[i],
                roots,
            ),
        forall|i: int|
            0 <= i < dirty.len() ==> preserved_by(#[trigger] dirty[i], roots) || dirty.filter(
                not_preserved(roots),
            ).contains(dirty[i]),
{
    let f = not_preserved(roots);
    assert forall|i: int| 0 <= i < dirty.filter(f).len() implies !preserved_by(
        #[trigger] dirty.filter(f)[i],
        roots,
    ) by {
        dirty.lemma_filter_pred(f, i);
    }
    assert forall|i: int| 0 <= i < dirty.len() implies preserved_by(#[trigger] dirty[i], roots)
        || dirty.filter(f).contains(dirty[i]) by {
        if !preserved_by(dirty[i], roots) {
            dirty.lemma_filter_contains(f, i);
        }
    }
}

/// The side of a conflict that holds upstream's version: during a rebase
/// that is `--ours` (the branch being rebased onto), during a merge
/// `--theirs`.
pub open spec fn upstream_side(rebase: bool) -> Seq<char> {
    if rebase {
        "--ours"@
    } else {
        "--theirs"@
    }
}

/// The side of a conflict that holds the local version.
pub open spec fn local_side(rebase: bool) -> Seq<char> {
    if rebase {
        "--theirs"@
    } else {
        "--ours"@
    }
}

/// Which version a conflicted path takes: the local one inside the
/// preserved roots, upstream's everywhere else.
pub open spec fn chosen_side(path: Seq<char>, roots: Seq<Seq<char>>, rebase: bool) -> Seq<char> {
    if preserved_by(path, roots) {
        local_side(rebase)
    } else {
        upstream_side(rebase)
    }
}

/// The unmerged paths that `git diff --name-only --diff-filter=U` lists:
/// its lines, trimmed, without the empty ones.
pub open spec fn unmerged_paths(diff_output: Seq<char>) -> Seq<Seq<char>> {
    lines(diff_output).map_values(|l: Seq<char>| trim(l)).filter(nonempty_piece())
}

/// The git commands that settle the conflicted paths, in order: check out
/// the chosen side of each, then stage it.
pub open spec fn resolution_commands(
    paths: Seq<Seq<char>>,
    roots: Seq<Seq<char>>,
    rebase: bool,
) -> Seq<Seq<Seq<char>>>
    decreases paths.len(),
{
    if paths.len() == 0 {
        seq![]
    } else {
        let p = paths.last();
        resolution_commands(paths.drop_last(), roots, rebase) + seq![
            seq!["checkout"@, chosen_side(p, roots, rebase), "--"@, p],
            seq!["add"@, "--"@, p],
        ]
    }
}

/// The flags decide exactly which optional steps run: the image is rebuilt
/// exactly when `build`, the gateway recreated exactly when `restart` (the
/// two are independent), local changes are discarded exactly when there
/// are any; the snapshot comes first, the probe last, and the release
/// switch and the restore and commit of the roots always happen.
pub proof fn lemma_upgrade_steps_follow_flags(dirty: bool, build: bool, restart: bool)
    ensures
        ({
            let s = upgrade_steps_spec(dirty, build, restart);
            &&& s.contains(UpgradeStep::Restart) == restart
            &&& s.contains(UpgradeStep::Rebuild) == build
            &&& s.contains(UpgradeStep::ResetHard) == dirty
            &&& s.contains(UpgradeStep::CleanUntracked) == dirty
            &&& s.contains(UpgradeStep::FetchTags)
            &&& s.contains(UpgradeStep::SwitchBranch)
            &&& s.contains(UpgradeStep::RestoreSnapshot)
            &&& s.contains(UpgradeStep::StagePreserved)
            &&& s.contains(UpgradeStep::CommitOverlay)
            &&& s[0] == UpgradeStep::SnapshotPreserved
            &&& s.last() == UpgradeStep::Health
            &&& s.len() == 7 + (if dirty { 2int } else { 0int }) + (if build { 1int } else { 0int })
                + (if restart { 1int } else { 0int })
        }),
{
    let s = upgrade_steps_spec(dirty, build, restart);
    let a = if dirty {
        seq![
            UpgradeStep::SnapshotPreserved,
            UpgradeStep::ResetHard,
            UpgradeStep::CleanUntracked,
        ]
    } else {
        seq![UpgradeStep::SnapshotPreserved]
    };
    let m = seq![
        UpgradeStep::FetchTags,
        UpgradeStep::SwitchBranch,
        UpgradeStep::RestoreSnapshot,
        UpgradeStep::StagePreserved,
        UpgradeStep::CommitOverlay,
    ];
    let b = if build {
        seq![UpgradeStep::Rebuild]
    } else {
        Seq::<UpgradeStep>::empty()
    };
    let r = if restart {
        seq![UpgradeStep::Restart]
    } else {
        Seq::<UpgradeStep>::empty()
    };
    assert(s =~= a + m + b + r + seq![UpgradeStep::Health]);
    let la = a.len() as int;
    let lm = la + 5;
    let lb = lm + b.len();
    let lr = lb + r.len();
    assert forall|i: int| 0 <= i < s.len() implies {
        &&& (s[i] == UpgradeStep::Restart ==> restart)
        &&& (s[i] == UpgradeStep::Rebuild ==> build)
        &&& (s[i] == UpgradeStep::ResetHard ==> dirty)
        &&& (s[i] == UpgradeStep::CleanUntracked ==> dirty)
    } by {
        if i < la {
            assert(s[i] == a[i]);
        } else if i < lm {
            assert(s[i] == m[i - la]);
        } else if i < lb {
            assert(s[i] == b[i - lm]);
        } else if i < lr {
            assert(s[i] == r[i - lb]);
        } else {
            assert(s[i] == UpgradeStep::Health);
        }
    }
    assert(s[la] == UpgradeStep::FetchTags);
    assert(s[la + 1] == UpgradeStep::SwitchBranch);
    assert(s[la + 2] == UpgradeStep::RestoreSnapshot);
    assert(s[la + 3] == UpgradeStep::StagePreserved);
    assert(s[la + 4] == UpgradeStep::CommitOverlay);
    if build {
        assert(s[lm] == UpgradeStep::Rebuild);
    }
    if restart {
        assert(s[lb] == UpgradeStep::Restart);
    }
    if dirty {
        assert(s[1] == UpgradeStep::ResetHard);
        assert(s[2] == UpgradeStep::CleanUntracked);
    }
}

/// A conflicted path takes the local version exactly when it lies within
/// one of the preserved roots: during a rebase that is `--theirs`, during a
/// merge `--ours`; every other path takes upstream's version.
pub proof fn lemma_conflict_sides(p: Seq<char>, roots: Seq<Seq<char>>, rebase: bool)
    ensures
        (exists|i: int| 0 <= i < roots.len() && crate::paths::path_within(p, #[trigger] roots[i]))
            ==> chosen_side(p, roots, rebase) == (if rebase { "--theirs"@ } else { "--ours"@ }),
        !(exists|i: int|
            0 <= i < roots.len() && crate::paths::path_within(p, #[trigger] roots[i]))
            ==> chosen_side(p, roots, rebase) == (if rebase { "--ours"@ } else { "--theirs"@ }),
{
}

/// Each conflicted path gets two commands, in the order of the paths: a
/// checkout of the side the roots choose for it, then `git add`.
pub proof fn lemma_resolution_commands(paths: Seq<Seq<char>>, roots: Seq<Seq<char>>, rebase: bool)
    ensures
        resolution_commands(paths, roots, rebase).len() == 2 * paths.len(),
        forall|i: int|
            0 <= i < paths.len() ==> resolution_commands(paths, roots, rebase)[2 * i] == seq![
                "checkout"@,
                if (exists|j: int|
                    0 <= j < roots.len() && crate::paths::path_within(
                        #[trigger] paths[i],
                        roots[j],
                    )) == rebase {
                    "--theirs"@
                } else {
                    "--ours"@
                },
                "--"@,
                paths[i],
            ] && resolution_commands(paths, roots, rebase)[2 * i + 1] == seq![
                "add"@,
                "--"@,
                paths[i],
            ],
    decreases paths.len(),
{
    if paths.len() > 0 {
        let d = paths.drop_last();
        lemma_resolution_commands(d, roots, rebase);
        let r = resolution_commands(paths, roots, rebase);
        let rd = resolution_commands(d, roots, rebase);
        assert forall|i: int| 0 <= i < paths.len() implies r[2 * i] == seq![
            "checkout"@,
            if (exists|j: int|
                0 <= j < roots.len() && crate::paths::path_within(#[trigger] paths[i], roots[j]))
                == rebase {
                "--theirs"@
            } else {
                "--ours"@
            },
            "--"@,
            paths[i],
        ] && r[2 * i + 1] == seq!["add"@, "--"@, paths[i]] by {
            lemma_conflict_sides(paths[i], roots, rebase);
            if i < d.len() {
                assert(d[i] == paths[i]);
                assert(r[2 * i] == rd[2 * i]);
                assert(r[2 * i + 1] == rd[2 * i + 1]);
            } else {
                assert(paths[i] == paths.last());
            }
        }
    }
}

/// The command that goes on with the interrupted rebase or merge.
pub open spec fn continue_command(rebase: bool) -> Seq<Seq<char>> {
    if rebase {
        seq!["rebase"@, "--continue"@]
    } else {
        seq!["merge"@, "--continue"@]
    }
}

/// Whether the conflict to settle is a rebase's (`true`) or a merge's
/// (`false`); an error when neither is in progress.
pub fn conflict_kind(rebase_in_progress: bool, merge_in_progress: bool) -> (res: Result<
    bool,
    ClawyerError,
>)
    ensures
        rebase_in_progress ==> res == Ok::<bool, ClawyerError>(true),
        !rebase_in_progress && merge_in_progress ==> res == Ok::<bool, ClawyerError>(false),
        !rebase_in_progress && !merge_in_progress ==> res == Err::<bool, ClawyerError>(
            ClawyerError::NoConflictInProgress,
        ),
{
    if rebase_in_progress {
        Ok(true)
    } else if merge_in_progress {
        Ok(false)
    } else {
        Err(ClawyerError::NoConflictInProgress)
    }
}

fn side_arg(local: bool, rebase: bool) -> (res: String)
    ensures
        res@ == (if local { local_side(rebase) } else { upstream_side(rebase) }),
{
    if local == rebase {
        "--theirs".to_owned()
    } else {
        "--ours".to_owned()
    }
}

/// The git commands that settle a conflicted rebase (`rebase` true) or merge:
/// each unmerged path that `diff_output` lists takes the local version when
/// it lies in a preserved root and upstream's otherwise, and is staged; then
/// the rebase or merge goes on. No unmerged path is an error.
pub fn plan_conflict_repair(rebase: bool, diff_output: &str, preserve: &Vec<String>) -> (res:
    Result<Vec<Vec<String>>, ClawyerError>)
    ensures
        ({
            let paths = unmerged_paths(diff_output@);
            if paths.len() == 0 {
                res == Err::<Vec<Vec<String>>, ClawyerError>(ClawyerError::NoUnmergedPaths)
            } else {
                res matches Ok(cmds) && cmds.deep_view() == resolution_commands(
                    paths,
                    preserve.deep_view(),
                    rebase,
                ).push(continue_command(rebase))
            }
        }),
{
    let s = chars_of(diff_output);
    let spans = line_spans(&s);
    let ghost ls = lines(s@);
    let ghost trimmed = ls.map_values(|l: Seq<char>| trim(l));
    let ghost ne = nonempty_piece();
    let ghost roots = preserve.deep_view();
    let mut paths: Vec<String> = Vec::new();
    let mut cmds: Vec<Vec<String>> = Vec::new();
    let mut k: usize = 0;
    assert(trimmed.take(0).filter(ne) =~= Seq::<Seq<char>>::empty()) by {
        reveal(Seq::filter);
    }
    assert(cmds.deep_view() =~= Seq::<Seq<Seq<char>>>::empty());
    while k < spans.len()
        invariant
            s@ == diff_output@,
            ls == lines(s@),
            trimmed == ls.map_values(|l: Seq<char>| trim(l)),
            ne == nonempty_piece(),
            roots == preserve.deep_view(),
            spans.len() == ls.len(),
            forall|j: int|
                0 <= j < spans.len() ==> (#[trigger] spans[j]).0 <= spans[j].1 <= s.len()
                    && s@.subrange(spans[j].0 as int, spans[j].1 as int) == ls[j],
            k <= spans.len(),
            paths.deep_view() == trimmed.take(k as int).filter(ne),
            cmds.deep_view() == resolution_commands(paths.deep_view(), roots, rebase),
        decreases spans.len() - k,
    {
        let (lo, hi) = spans[k];
        let (a, b) = trim_span(&s, lo, hi, Delim::Whitespace);
        proof {
            assert(trimmed[k as int] == trim(ls[k as int]));
            assert(trimmed.take(k + 1) =~= trimmed.take(k as int).push(trimmed[k as int]));
            trimmed.take(k as int).lemma_filter_push(trimmed[k as int], ne);
        }
        if a < b {
            let path = string_of(&s, a, b);
            let local = path_is_preserved(path.as_str(), preserve);
            let mut checkout: Vec<String> = Vec::new();
            push_str(&mut checkout, "checkout");
            let side = side_arg(local, rebase);
            push_string(&mut checkout, side);
            push_str(&mut checkout, "--");
            push_string(&mut checkout, path.clone());
            let mut add: Vec<String> = Vec::new();
            push_str(&mut add, "add");
            push_str(&mut add, "--");
            push_string(&mut add, path.clone());
            let ghost old_paths = paths.deep_view();
            let ghost old_cmds = cmds.deep_view();
            let ghost p = s@.subrange(a as int, b as int);
            assert(checkout.deep_view() =~= seq!["checkout"@, chosen_side(p, roots, rebase), "--"@, p]);
            assert(add.deep_view() =~= seq!["add"@, "--"@, p]);
            paths.push(path);
            cmds.push(checkout);
            cmds.push(add);
            proof {
                assert(paths.deep_view() =~= old_paths.push(p));
                assert(paths.deep_view().drop_last() =~= old_paths);
                assert(cmds.deep_view() =~~= old_cmds + seq![
                    seq!["checkout"@, chosen_side(p, roots, rebase), "--"@, p],
                    seq!["add"@, "--"@, p],
                ]);
            }
        }
        k += 1;
    }
    assert(trimmed.take(k as int) =~= trimmed);
    if paths.len() == 0 {
        return Err(ClawyerError::NoUnmergedPaths);
    }
    let mut cont: Vec<String> = Vec::new();
    if rebase {
        push_str(&mut cont, "rebase");
    } else {
        push_str(&mut cont, "merge");
    }
    push_str(&mut cont, "--continue");
    let ghost before = cmds.deep_view();
    assert(cont.deep_view() =~= continue_command(rebase));
    cmds.push(cont);
    assert(cmds.deep_view() =~~= before.push(continue_command(rebase)));
    Ok(cmds)
}

} // verus!
