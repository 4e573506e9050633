//! The errors that the library reports, and the words they are reported with.
use vstd::prelude::*;

verus! {

/// Why an operation was refused.
#[derive(Clone, Debug, PartialEq, Eq)]
pub enum ClawyerError {
    /// `git ls-remote` listed no stable release tag.
    NoStableTag,
    /// A `git status --porcelain` line named no path.
    UnparsableStatusLine { line: String },
    /// The dotenv file holds no entry for `key`.
    MissingDotenvKey { key: String, path: String },
    /// `exec` was given no command to run.
    ExecUsage,
    /// Neither a rebase nor a merge is in progress.
    NoConflictInProgress,
    /// A rebase or merge is in progress but no path is unmerged.
    NoUnmergedPaths,
    /// An upgrade would discard local changes outside the preserved roots.
    WouldDropPaths { paths: Vec<String> },
    /// An external command exited unsuccessfully.
    CommandFailed { command: String, code: i32 },
    /// git failed; `detail` is what it printed on stderr, trimmed.
    GitFailed { detail: String },
    /// The gateway's health probe failed; `detail` is its stderr, trimmed.
    HealthProbeFailed { detail: String },
}

pub open spec fn digit_char(d: nat) -> char {
    (48 + d) as char
}

/// The decimal digits of `n`, most significant first, without leading zeros.
pub open spec fn decimal_digits(n: nat) -> Seq<char>
    decreases n,
{
    if n < 10 {
        seq![digit_char(n)]
    } else {
        decimal_digits(n / 10).push(digit_char(n % 10))
    }
}

/// `n` written in decimal, with a leading `-` when negative.
pub open spec fn decimal_text(n: int) -> Seq<char> {
    if n < 0 {
        seq!['-'] + decimal_digits((-n) as nat)
    } else {
        decimal_digits(n as nat)
    }
}

/// `- <path>` for each path, one per line.
pub open spec fn dash_list(paths: Seq<Seq<char>>) -> Seq<char>
    decreases paths.len(),
{
    if paths.len() == 0 {
        seq![]
    } else if paths.len() == 1 {
        "- "@ + paths[0]
    } else {
        dash_list(paths.drop_last()) + "\n- "@ + paths.last()
    }
}

/// The words each error is reported with.
pub open spec fn error_text(e: ClawyerError) -> Seq<char> {
    match e {
        ClawyerError::NoStableTag => "could not resolve a stable release tag from origin"@,
        ClawyerError::UnparsableStatusLine { line } => "could not parse git status line: "@
            + line@,
        ClawyerError::MissingDotenvKey { key, path } => "missing "@ + key@ + " in "@ + path@,
        ClawyerError::ExecUsage => "Usage: clawyer exec -- <CMD...>"@,
        ClawyerError::NoConflictInProgress => "no rebase or merge conflict is in progress"@,
        ClawyerError::NoUnmergedPaths => "no unmerged paths found"@,
        ClawyerError::WouldDropPaths { paths } =>
            "non-preserved local paths would be dropped; re-run with --drop-nonpreserved after reviewing:\n"@
            + dash_list(paths.deep_view()),
        ClawyerError::CommandFailed { command, code } => command@ + " failed with exit code "@
            + decimal_text(code as int),
        ClawyerError::GitFailed { detail } => detail@,
        ClawyerError::HealthProbeFailed { detail } => "gateway health probe failed: "@ + detail@,
    }
}

fn digit_of(d: u64) -> (c: char)
    requires
        d < 10,
    ensures
        c == digit_char(d as nat),
{
    ((48u8 + d as u8) as char)
}

/// Appends the decimal digits of `v`.
fn push_decimal(out: &mut String, v: u64)
    ensures
        final(out)@ == old(out)@ + decimal_digits(v as nat),
    decreases v,
{
    if v >= 10 {
        push_decimal(out, v / 10);
    }
    crate::text::push_char(out, digit_of(v % 10));
    proof {
        if v < 10 {
            assert(v % 10 == v);
        }
    }
}

/// `n` written in decimal (as `i32`'s `Display` writes it).
pub fn decimal(n: i32) -> (res: String)
    ensures
        res@ == decimal_text(n as int),
{
    let mut out = String::new();
    if n < 0 {
        crate::text::push_char(&mut out, '-');
        let v: u64 = (-(n as i64)) as u64;
        push_decimal(&mut out, v);
    } else {
        push_decimal(&mut out, n as u64);
    }
    out
}

impl ClawyerError {
    /// The words the error is reported with.
    pub fn message(&self) -> (res: String)
        ensures
            res@ == error_text(*self),
    {
        match self {
            ClawyerError::NoStableTag => "could not resolve a stable release tag from origin".to_owned(),
            ClawyerError::UnparsableStatusLine { line } => {
                let mut m = "could not parse git status line: ".to_owned();
                m.append(line.as_str());
                m
            },
            ClawyerError::MissingDotenvKey { key, path } => {
                let mut m = "missing ".to_owned();
                m.append(key.as_str());
                m.append(" in ");
                m.append(path.as_str());
                m
            },
            ClawyerError::ExecUsage => "Usage: clawyer exec -- <CMD...>".to_owned(),
            ClawyerError::NoConflictInProgress => "no rebase or merge conflict is in progress".to_owned(),
            ClawyerError::NoUnmergedPaths => "no unmerged paths found".to_owned(),
            ClawyerError::WouldDropPaths { paths } => {
                let mut m =
                    "non-preserved local paths would be dropped; re-run with --drop-nonpreserved after reviewing:\n".to_owned();
                let ghost start = m@;
                let ghost ps = paths.deep_view();
                let mut i: usize = 0;
                while i < paths.len()
                    invariant
                        i <= paths.len(),
                        ps == paths.deep_view(),
                        m@ == start + dash_list(ps.take(i as int)),
                    decreases paths.len() - i,
                {
                    if i == 0 {
                        m.append("- ");
                    } else {
                        m.append("\n- ");
                    }
                    m.append(paths[i].as_str());
                    proof {
                        let t = ps.take(i + 1);
                        assert(t.drop_last() =~= ps.take(i as int));
                        assert(t.last() == paths[i as int]@);
                        if i == 0 {
                            assert(ps.take(0) =~= Seq::<Seq<char>>::empty());
                            assert(t[0] == paths[0]@);
                        }
                    }
                    i += 1;
                }
                assert(ps.take(i as int) =~= ps);
                m
            },
            ClawyerError::CommandFailed { command, code } => {
                let mut m = command.clone();
                m.append(" failed with exit code ");
                let d = decimal(*code);
                m.append(d.as_str());
                m
            },
            ClawyerError::GitFailed { detail } => detail.clone(),
            ClawyerError::HealthProbeFailed { detail } => {
                let mut m = "gateway health probe failed: ".to_owned();
                m.append(detail.as_str());
                m
            },
        }
    }
}

} // verus!
