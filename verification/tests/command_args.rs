use clawyer::cli::{command_action, Action, Command};
use clawyer::commands::{
    base_env, command_status, compose_args, compose_files, copy_skips, docker_build_args,
    exec_gateway_args, exit_code, fix_token_commands, format_command, overlay_commit_message,
    restart_args, rev_path_arg, run_openclaw_args, skill_repo_path, stage_args, upgrade_branch,
    container_image_args, output_value, running_container_args, Tool,
};
use clawyer::error::ClawyerError;
use clawyer::upgrade::UpgradeOptions;

fn strings(words: &[&str]) -> Vec<String> {
    words.iter().map(|w| w.to_string()).collect()
}

#[test]
fn exit_code_defaults_to_one() {
    assert_eq!(exit_code(Some(0)), 0);
    assert_eq!(exit_code(Some(42)), 42);
    assert_eq!(exit_code(Some(-3)), -3);
    assert_eq!(exit_code(None), 1);
}

#[test]
fn command_status_reports_failures() {
    assert_eq!(command_status(true, Some(3), Tool::GitAdd), Ok(()));
    assert_eq!(
        command_status(false, Some(3), Tool::GitAdd),
        Err(ClawyerError::CommandFailed { command: "git add".to_string(), code: 3 })
    );
    assert_eq!(
        command_status(false, None, Tool::DockerBuild),
        Err(ClawyerError::CommandFailed { command: "docker build".to_string(), code: 1 })
    );
}

#[test]
fn format_command_joins_with_spaces() {
    assert_eq!(format_command("docker", &strings(&[])), "docker");
    assert_eq!(format_command("docker", &strings(&["compose", "-f", "a b"])), "docker compose -f a b");
}

#[test]
fn compose_invocation() {
    let files = compose_files("/repo", true, "/tmp/o");
    assert_eq!(
        files,
        strings(&[
            "/repo/docker-compose.yml",
            "/repo/docker-compose.extra.yml",
            "/tmp/o/docker-compose.clawyer.override.yml",
        ])
    );
    assert_eq!(compose_files("/repo", false, "/tmp/o").len(), 2);
    assert_eq!(
        compose_args(&strings(&["a.yml", "b.yml"]), &strings(&["ps"])),
        strings(&["compose", "-f", "a.yml", "-f", "b.yml", "ps"])
    );
    assert_eq!(compose_args(&strings(&[]), &strings(&[])), strings(&["compose"]));
    let env = base_env("img", Some("key"));
    assert_eq!(env, vec![("OPENCLAW_IMAGE".to_string(), "img".to_string()), ("NOTION_API_KEY".to_string(), "key".to_string())]);
    assert_eq!(base_env("img", None).len(), 1);
}

#[test]
fn openclaw_argument_lists() {
    assert_eq!(
        run_openclaw_args(&strings(&["--version"])),
        strings(&["run", "--rm", "--no-deps", "openclaw-cli", "--version"])
    );
    assert_eq!(exec_gateway_args(&strings(&[])), Err(ClawyerError::ExecUsage));
    assert_eq!(
        exec_gateway_args(&strings(&["sh", "-lc", "ls"])),
        Ok(strings(&["exec", "-T", "openclaw-gateway", "sh", "-lc", "ls"]))
    );
    assert_eq!(restart_args(), strings(&["up", "-d", "--force-recreate", "openclaw-gateway"]));
    let (remote, auth) = fix_token_commands("tok");
    assert_eq!(remote, strings(&["config", "set", "gateway.remote.token", "tok"]));
    assert_eq!(auth, strings(&["config", "set", "gateway.auth.token", "tok"]));
    assert_eq!(docker_build_args("img"), strings(&["build", "-t", "img", "-f", "Dockerfile", "."]));
}

#[test]
fn git_argument_texts() {
    assert_eq!(stage_args(&strings(&[])), None);
    assert_eq!(stage_args(&strings(&["a", "b"])), Some(strings(&["add", "-A", "--", "a", "b"])));
    assert_eq!(overlay_commit_message("v1.2.3"), "Local overlay for v1.2.3");
    assert_eq!(upgrade_branch("v1.2.3"), "local/release-v1.2.3");
    assert_eq!(skill_repo_path("mine"), "skills/mine/SKILL.md");
    assert_eq!(rev_path_arg("HEAD", "skills/mine/SKILL.md"), "HEAD:skills/mine/SKILL.md");
    assert!(copy_skips(".git"));
    assert!(copy_skips("target"));
    assert!(!copy_skips("src"));
    assert!(!copy_skips(".gitignore"));
}

#[test]
fn subcommands_map_to_actions() {
    match command_action(Command::Start) {
        Action::Compose(args) => assert_eq!(args, strings(&["up", "-d", "openclaw-gateway"])),
        other => panic!("{other:?}"),
    }
    match command_action(Command::Clean) {
        Action::Compose(args) => assert_eq!(args, strings(&["down", "-v", "--remove-orphans"])),
        other => panic!("{other:?}"),
    }
    match command_action(Command::Approve("req-1".to_string())) {
        Action::RunOpenclaw(args) => assert_eq!(args, strings(&["devices", "approve", "req-1"])),
        other => panic!("{other:?}"),
    }
    match command_action(Command::Workspace) {
        Action::PrintHomePath(p) => assert_eq!(p, ".openclaw/workspace"),
        other => panic!("{other:?}"),
    }
    assert!(matches!(command_action(Command::Init), Action::PrintRoot));
    assert!(matches!(command_action(Command::Tui), Action::PrintText(_)));
    let options = UpgradeOptions { dry_run: true, ref_override: Some("v1.0.0".into()), drop_nonpreserved: false, no_build: false, no_restart: false };
    match command_action(Command::Upgrade(options)) {
        Action::Upgrade(o) => assert_eq!(o.ref_override.as_deref(), Some("v1.0.0")),
        other => panic!("{other:?}"),
    }
}

#[test]
fn command_names_for_failures() {
    for (tool, name) in [
        (Tool::Compose, "docker compose"),
        (Tool::ComposeRun, "docker compose run"),
        (Tool::ComposeExec, "docker compose exec"),
        (Tool::DockerBuild, "docker build"),
        (Tool::GitAdd, "git add"),
        (Tool::GitCommit, "git commit"),
        (Tool::Git, "git command"),
    ] {
        assert_eq!(
            command_status(false, Some(2), tool),
            Err(ClawyerError::CommandFailed { command: name.to_string(), code: 2 })
        );
    }
}

#[test]
fn running_image_lookup() {
    assert_eq!(
        running_container_args("/r/docker-compose.yml"),
        strings(&["compose", "-f", "/r/docker-compose.yml", "ps", "-q", "openclaw-gateway"])
    );
    assert_eq!(
        container_image_args("abc"),
        strings(&["inspect", "--format", "{{.Config.Image}}", "abc"])
    );
    assert_eq!(output_value(true, "  abc123\n"), Some("abc123".to_string()));
    assert_eq!(output_value(true, " \n"), None);
    assert_eq!(output_value(false, "abc123\n"), None);
}
