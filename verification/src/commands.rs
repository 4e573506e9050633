//! What each command does, as data: the argument lists handed to
//! `docker compose`, `docker` and `git`, and the checks on their results.
use vstd::prelude::*;

use crate::error::ClawyerError;
use crate::text::{chars_of, string_of, trim, trim_span, Delim};

verus! {

pub const DEFAULT_IMAGE: &'static str = "openclaw:engulfed";

pub const DEFAULT_SERVICE: &'static str = "openclaw-gateway";

pub const CLI_SERVICE: &'static str = "openclaw-cli";

pub const DEFAULT_BRANCH_PREFIX: &'static str = "local/release-";

pub const DEFAULT_AUTHOR_NAME: &'static str = "clawyer";

pub const DEFAULT_AUTHOR_EMAIL: &'static str = "clawyer@local";

/// `v` followed by `s`.
pub fn push_str(v: &mut Vec<String>, s: &str)
    ensures
        final(v).deep_view() == old(v).deep_view().push(s@),
{
    let ghost before = v.deep_view();
    v.push(s.to_owned());
    assert(v.deep_view() =~= before.push(s@));
}

/// `v` followed by `s`.
pub fn push_string(v: &mut Vec<String>, s: String)
    ensures
        final(v).deep_view() == old(v).deep_view().push(s@),
{
    let ghost before = v.deep_view();
    let ghost sv = s@;
    v.push(s);
    assert(v.deep_view() =~= before.push(sv));
}

/// `v` followed by the elements of `extra`.
pub fn push_all(v: &mut Vec<String>, extra: &Vec<String>)
    ensures
        final(v).deep_view() == old(v).deep_view() + extra.deep_view(),
{
    let ghost start = v.deep_view();
    let mut i: usize = 0;
    while i < extra.len()
        invariant
            i <= extra.len(),
            v.deep_view() == start + extra.deep_view().take(i as int),
        decreases extra.len() - i,
    {
        let ghost before = v.deep_view();
        v.push(extra[i].clone());
        assert(v.deep_view() =~= before.push(extra[i as int]@));
        assert(extra.deep_view().take(i + 1) =~= extra.deep_view().take(i as int).push(
            extra[i as int]@,
        ));
        i += 1;
    }
    assert(extra.deep_view().take(i as int) =~= extra.deep_view());
}

/// The exit status to report for a process: its code, or 1 when it has none
/// (it was killed by a signal).
pub fn exit_code(code: Option<i32>) -> (res: i32)
    ensures
        res == match code {
            Some(c) => c,
            None => 1i32,
        },
{
    match code {
        Some(c) => c,
        None => 1,
    }
}

/// A command whose failure is reported by its name.
#[derive(Clone, Copy, Debug, PartialEq, Eq)]
pub enum Tool {
    /// `docker compose`.
    Compose,
    /// `docker compose run`.
    ComposeRun,
    /// `docker compose exec`.
    ComposeExec,
    /// `docker build`.
    DockerBuild,
    /// `git add`.
    GitAdd,
    /// `git commit`.
    GitCommit,
    /// Any other git command.
    Git,
}

/// The name a failed command is reported with.
pub open spec fn tool_name(tool: Tool) -> Seq<char> {
    match tool {
        Tool::Compose => "docker compose"@,
        Tool::ComposeRun => "docker compose run"@,
        Tool::ComposeExec => "docker compose exec"@,
        Tool::DockerBuild => "docker build"@,
        Tool::GitAdd => "git add"@,
        Tool::GitCommit => "git commit"@,
        Tool::Git => "git command"@,
    }
}

fn tool_label(tool: Tool) -> (res: &'static str)
    ensures
        res@ == tool_name(tool),
{
    match tool {
        Tool::Compose => "docker compose",
        Tool::ComposeRun => "docker compose run",
        Tool::ComposeExec => "docker compose exec",
        Tool::DockerBuild => "docker build",
        Tool::GitAdd => "git add",
        Tool::GitCommit => "git commit",
        Tool::Git => "git command",
    }
}

/// `Ok` for a successful command; otherwise the failure of `tool` with its
/// exit status.
pub fn command_status(success: bool, code: Option<i32>, tool: Tool) -> (res: Result<
    (),
    ClawyerError,
>)
    ensures
        success ==> res is Ok,
        !success ==> (res matches Err(ClawyerError::CommandFailed { command: c, code: k }) && c@
            == tool_name(tool) && k == match code {
            Some(x) => x,
            None => 1i32,
        }),
{
    if success {
        Ok(())
    } else {
        Err(
            ClawyerError::CommandFailed {
                command: tool_label(tool).to_owned(),
                code: exit_code(code),
            },
        )
    }
}

/// The trimmed standard output of a command that succeeded, or `None` when
/// it failed or printed only whitespace.
pub fn output_value(success: bool, stdout: &str) -> (res: Option<String>)
    ensures
        success && trim(stdout@).len() > 0 ==> (res matches Some(v) && v@ == trim(stdout@)),
        !(success && trim(stdout@).len() > 0) ==> res is None,
{
    if !success {
        return None;
    }
    non_empty_trimmed(stdout)
}

/// The arguments for `docker` that list the running gateway container.
pub fn running_container_args(compose_file: &str) -> (res: Vec<String>)
    ensures
        res.deep_view() == seq!["compose"@, "-f"@, compose_file@, "ps"@, "-q"@, DEFAULT_SERVICE@],
{
    let mut v: Vec<String> = Vec::new();
    push_str(&mut v, "compose");
    push_str(&mut v, "-f");
    push_str(&mut v, compose_file);
    push_str(&mut v, "ps");
    push_str(&mut v, "-q");
    push_str(&mut v, DEFAULT_SERVICE);
    v
}

/// The arguments for `docker` that print the image a container runs.
pub fn container_image_args(container_id: &str) -> (res: Vec<String>)
    ensures
        res.deep_view() == seq!["inspect"@, "--format"@, "{{.Config.Image}}"@, container_id@],
{
    let mut v: Vec<String> = Vec::new();
    push_str(&mut v, "inspect");
    push_str(&mut v, "--format");
    push_str(&mut v, "{{.Config.Image}}");
    push_str(&mut v, container_id);
    v
}

/// The words joined by single spaces.
pub open spec fn join_words(ws: Seq<Seq<char>>) -> Seq<char>
    decreases ws.len(),
{
    if ws.len() == 0 {
        seq![]
    } else if ws.len() == 1 {
        ws[0]
    } else {
        join_words(ws.drop_last()) + seq![' '] + ws.last()
    }
}

/// How a command is echoed in verbose mode: the program and its arguments,
/// separated by single spaces.
pub fn format_command(program: &str, args: &Vec<String>) -> (res: String)
    ensures
        res@ == join_words(seq![program@] + args.deep_view()),
{
    let mut out = program.to_owned();
    let ghost words = seq![program@] + args.deep_view();
    let mut i: usize = 0;
    assert(words.take(1) =~= seq![program@]);
    while i < args.len()
        invariant
            i <= args.len(),
            words == seq![program@] + args.deep_view(),
            out@ == join_words(words.take(i + 1)),
        decreases args.len() - i,
    {
        out.append(" ");
        out.append(args[i].as_str());
        proof {
            assert(words.take(i + 2).drop_last() =~= words.take(i + 1));
            assert(words.take(i + 2).last() == args[i as int]@);
            assert(" "@ =~= seq![' ']) by {
                reveal_strlit(" ");
            }
        }
        i += 1;
    }
    assert(words.take(i + 1) =~= words);
    out
}

/// `s` trimmed, or `None` if nothing is left.
pub fn non_empty_trimmed(s: &str) -> (res: Option<String>)
    ensures
        trim(s@).len() > 0 ==> (res matches Some(r) && r@ == trim(s@)),
        trim(s@).len() == 0 ==> res is None,
{
    let c = chars_of(s);
    assert(c@.subrange(0, c@.len() as int) =~= c@);
    let (a, b) = trim_span(&c, 0, c.len(), Delim::Whitespace);
    if a == b {
        None
    } else {
        Some(string_of(&c, a, b))
    }
}

/// `s` without leading and trailing whitespace (`str::trim`).
pub fn trimmed(s: &str) -> (res: String)
    ensures
        res@ == trim(s@),
{
    let c = chars_of(s);
    assert(c@.subrange(0, c@.len() as int) =~= c@);
    let (a, b) = trim_span(&c, 0, c.len(), Delim::Whitespace);
    string_of(&c, a, b)
}

/// The arguments for `docker compose run` of an OpenClaw CLI command in a
/// one-shot container.
pub fn run_openclaw_args(args: &Vec<String>) -> (res: Vec<String>)
    ensures
        res.deep_view() == seq!["run"@, "--rm"@, "--no-deps"@, CLI_SERVICE@] + args.deep_view(),
{
    let mut v: Vec<String> = Vec::new();
    push_str(&mut v, "run");
    push_str(&mut v, "--rm");
    push_str(&mut v, "--no-deps");
    push_str(&mut v, CLI_SERVICE);
    push_all(&mut v, args);
    assert(v.deep_view() =~= seq!["run"@, "--rm"@, "--no-deps"@, CLI_SERVICE@] + args.deep_view());
    v
}

/// The arguments for `docker compose exec` of `cmd` in the running gateway;
/// an empty command is a usage error.
pub fn exec_gateway_args(cmd: &Vec<String>) -> (res: Result<Vec<String>, ClawyerError>)
    ensures
        cmd.len() == 0 ==> res == Err::<Vec<String>, ClawyerError>(ClawyerError::ExecUsage),
        cmd.len() > 0 ==> (res matches Ok(v) && v.deep_view() == seq![
            "exec"@,
            "-T"@,
            DEFAULT_SERVICE@,
        ] + cmd.deep_view()),
{
    if cmd.len() == 0 {
        return Err(ClawyerError::ExecUsage);
    }
    let mut v: Vec<String> = Vec::new();
    push_str(&mut v, "exec");
    push_str(&mut v, "-T");
    push_str(&mut v, DEFAULT_SERVICE);
    push_all(&mut v, cmd);
    assert(v.deep_view() =~= seq!["exec"@, "-T"@, DEFAULT_SERVICE@] + cmd.deep_view());
    Ok(v)
}

/// The arguments for `docker compose` that recreate the gateway.
pub fn restart_args() -> (res: Vec<String>)
    ensures
        res.deep_view() == seq!["up"@, "-d"@, "--force-recreate"@, DEFAULT_SERVICE@],
{
    let mut v: Vec<String> = Vec::new();
    push_str(&mut v, "up");
    push_str(&mut v, "-d");
    push_str(&mut v, "--force-recreate");
    push_str(&mut v, DEFAULT_SERVICE);
    v
}

/// The two OpenClaw CLI commands that set the gateway's remote and auth
/// tokens to `token`.
pub fn fix_token_commands(token: &str) -> (res: (Vec<String>, Vec<String>))
    ensures
        res.0.deep_view() == seq!["config"@, "set"@, "gateway.remote.token"@, token@],
        res.1.deep_view() == seq!["config"@, "set"@, "gateway.auth.token"@, token@],
{
    let mut remote: Vec<String> = Vec::new();
    push_str(&mut remote, "config");
    push_str(&mut remote, "set");
    push_str(&mut remote, "gateway.remote.token");
    push_str(&mut remote, token);
    let mut auth: Vec<String> = Vec::new();
    push_str(&mut auth, "config");
    push_str(&mut auth, "set");
    push_str(&mut auth, "gateway.auth.token");
    push_str(&mut auth, token);
    (remote, auth)
}

/// The arguments of `docker`: `compose`, `-f <file>` for each compose file,
/// then `args`.
pub open spec fn compose_args_spec(files: Seq<Seq<char>>, args: Seq<Seq<char>>) -> Seq<Seq<char>>
    decreases files.len(),
{
    if files.len() == 0 {
        seq!["compose"@] + args
    } else {
        let prev = compose_args_spec(files.drop_last(), seq![]);
        prev + seq!["-f"@, files.last()] + args
    }
}

pub fn compose_args(files: &Vec<String>, args: &Vec<String>) -> (res: Vec<String>)
    ensures
        res.deep_view() == compose_args_spec(files.deep_view(), args.deep_view()),
{
    let mut v: Vec<String> = Vec::new();
    push_str(&mut v, "compose");
    let ghost fs = files.deep_view();
    let mut i: usize = 0;
    assert(v.deep_view() =~= compose_args_spec(fs.take(0), seq![])) by {
        assert(seq!["compose"@] + Seq::<Seq<char>>::empty() =~= seq!["compose"@]);
    }
    while i < files.len()
        invariant
            i <= files.len(),
            fs == files.deep_view(),
            v.deep_view() == compose_args_spec(fs.take(i as int), seq![]),
        decreases files.len() - i,
    {
        let ghost before = v.deep_view();
        push_str(&mut v, "-f");
        push_str(&mut v, files[i].as_str());
        proof {
            let t = fs.take(i + 1);
            assert(t.drop_last() =~= fs.take(i as int));
            assert(t.last() == files[i as int]@);
            assert(v.deep_view() =~= before + seq!["-f"@, files[i as int]@] + Seq::<
                Seq<char>,
            >::empty());
        }
        i += 1;
    }
    let ghost before = v.deep_view();
    push_all(&mut v, args);
    proof {
        assert(fs.take(i as int) =~= fs);
        if fs.len() == 0 {
            assert(before =~= seq!["compose"@] + Seq::<Seq<char>>::empty());
            assert(v.deep_view() =~= seq!["compose"@] + args.deep_view());
        } else {
            let p = compose_args_spec(fs.drop_last(), seq![]);
            assert(before == p + seq!["-f"@, fs.last()] + Seq::<Seq<char>>::empty());
            assert(v.deep_view() =~= p + seq!["-f"@, fs.last()] + args.deep_view());
        }
    }
    v
}

/// `PathBuf::join` on Unix: an absolute `rel` replaces `base`; otherwise a
/// `/` goes between them unless `base` is empty or already ends in one.
pub open spec fn join_path_spec(base: Seq<char>, rel: Seq<char>) -> Seq<char> {
    if rel.len() > 0 && rel[0] == '/' {
        rel
    } else if base.len() == 0 || base.last() == '/' {
        base + rel
    } else {
        base + seq!['/'] + rel
    }
}

pub fn join_path(base: &str, rel: &str) -> (res: String)
    ensures
        res@ == join_path_spec(base@, rel@),
{
    let b = chars_of(base);
    let r = chars_of(rel);
    if r.len() > 0 && r[0] == '/' {
        return rel.to_owned();
    }
    let mut out = base.to_owned();
    if !(b.len() == 0 || b[b.len() - 1] == '/') {
        out.append("/");
        assert("/"@ =~= seq!['/']) by {
            reveal_strlit("/");
        }
    }
    out.append(rel);
    out
}

/// The compose files: the checkout's `docker-compose.yml`, its
/// `docker-compose.extra.yml` when that exists, and the generated override.
pub fn compose_files(root: &str, extra_exists: bool, override_dir: &str) -> (res: Vec<String>)
    ensures
        res.deep_view() == seq![join_path_spec(root@, "docker-compose.yml"@)] + (if extra_exists {
            seq![join_path_spec(root@, "docker-compose.extra.yml"@)]
        } else {
            Seq::<Seq<char>>::empty()
        }) + seq![join_path_spec(override_dir@, "docker-compose.clawyer.override.yml"@)],
{
    let mut v: Vec<String> = Vec::new();
    let main = join_path(root, "docker-compose.yml");
    v.push(main);
    if extra_exists {
        let extra = join_path(root, "docker-compose.extra.yml");
        v.push(extra);
    }
    let over = join_path(override_dir, "docker-compose.clawyer.override.yml");
    v.push(over);
    proof {
        if extra_exists {
            assert(v.deep_view() =~= seq![
                join_path_spec(root@, "docker-compose.yml"@),
                join_path_spec(root@, "docker-compose.extra.yml"@),
                join_path_spec(override_dir@, "docker-compose.clawyer.override.yml"@),
            ]);
        } else {
            assert(v.deep_view() =~= seq![
                join_path_spec(root@, "docker-compose.yml"@),
                join_path_spec(override_dir@, "docker-compose.clawyer.override.yml"@),
            ]);
        }
    }
    v
}

/// The environment handed to `docker compose`: the image, and the Notion
/// key when there is one.
pub fn base_env(image: &str, notion_api_key: Option<&str>) -> (res: Vec<(String, String)>)
    ensures
        res.len() == (if notion_api_key is Some { 2int } else { 1int }),
        res[0].0@ == "OPENCLAW_IMAGE"@ && res[0].1@ == image@,
        notion_api_key matches Some(k) ==> res[1].0@ == "NOTION_API_KEY"@ && res[1].1@ == k@,
{
    let mut vars: Vec<(String, String)> = Vec::new();
    vars.push(("OPENCLAW_IMAGE".to_owned(), image.to_owned()));
    if let Some(key) = notion_api_key {
        vars.push(("NOTION_API_KEY".to_owned(), key.to_owned()));
    }
    vars
}

/// The arguments for `docker build` of the image from the checkout.
pub fn docker_build_args(image: &str) -> (res: Vec<String>)
    ensures
        res.deep_view() == seq!["build"@, "-t"@, image@, "-f"@, "Dockerfile"@, "."@],
{
    let mut v: Vec<String> = Vec::new();
    push_str(&mut v, "build");
    push_str(&mut v, "-t");
    push_str(&mut v, image);
    push_str(&mut v, "-f");
    push_str(&mut v, "Dockerfile");
    push_str(&mut v, ".");
    v
}

/// The arguments for `git add` of the preserved roots, or `None` when there
/// is nothing to stage.
pub fn stage_args(preserve: &Vec<String>) -> (res: Option<Vec<String>>)
    ensures
        preserve.len() == 0 ==> res is None,
        preserve.len() > 0 ==> (res matches Some(v) && v.deep_view() == seq![
            "add"@,
            "-A"@,
            "--"@,
        ] + preserve.deep_view()),
{
    if preserve.len() == 0 {
        return None;
    }
    let mut v: Vec<String> = Vec::new();
    push_str(&mut v, "add");
    push_str(&mut v, "-A");
    push_str(&mut v, "--");
    push_all(&mut v, preserve);
    assert(v.deep_view() =~= seq!["add"@, "-A"@, "--"@] + preserve.deep_view());
    Some(v)
}

/// The message of the commit that records the preserved roots on a release
/// branch.
pub fn overlay_commit_message(tag: &str) -> (res: String)
    ensures
        res@ == "Local overlay for "@ + tag@,
{
    let mut m = "Local overlay for ".to_owned();
    m.append(tag);
    m
}

/// The branch that an upgrade to `tag` switches to.
pub fn upgrade_branch(tag: &str) -> (res: String)
    ensures
        res@ == DEFAULT_BRANCH_PREFIX@ + tag@,
{
    let mut b = DEFAULT_BRANCH_PREFIX.to_owned();
    b.append(tag);
    b
}

/// The path, inside the repository, of a skill's `SKILL.md`.
pub fn skill_repo_path(skill_name: &str) -> (res: String)
    ensures
        res@ == "skills/"@ + skill_name@ + "/SKILL.md"@,
{
    let mut p = "skills/".to_owned();
    p.append(skill_name);
    p.append("/SKILL.md");
    p
}

/// A `rev:path` argument for `git cat-file -e`.
pub fn rev_path_arg(rev: &str, repo_path: &str) -> (res: String)
    ensures
        res@ == rev@ + ":"@ + repo_path@,
{
    let mut a = rev.to_owned();
    a.append(":");
    a.append(repo_path);
    a
}

/// Whether copying a preserved tree leaves out the entry `name`: git
/// metadata and build output are not copied.
pub fn copy_skips(name: &str) -> (res: bool)
    ensures
        res == (name@ == ".git"@ || name@ == "target"@),
{
    let n = chars_of(name);
    let git = vec!['.', 'g', 'i', 't'];
    let target = vec!['t', 'a', 'r', 'g', 'e', 't'];
    proof {
        reveal_strlit(".git");
        reveal_strlit("target");
        assert(git@ =~= ".git"@);
        assert(target@ =~= "target"@);
    }
    assert(n@.subrange(0, n@.len() as int) =~= n@);
    crate::text::range_eq(&n, 0, n.len(), &git) || crate::text::range_eq(&n, 0, n.len(), &target)
}

} // verus!
