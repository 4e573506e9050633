//! The subcommands of `clawyer` and what each one asks for.
use vstd::prelude::*;

use crate::commands::{push_all, push_str, DEFAULT_SERVICE};
use crate::upgrade::UpgradeOptions;

verus! {

/// A subcommand of `clawyer`.
#[derive(Clone, Debug)]
pub enum Command {
    Start,
    Stop,
    Restart,
    Logs,
    Status,
    Health,
    Shell,
    Exec(Vec<String>),
    Run(Vec<String>),
    Rebuild,
    Upgrade(UpgradeOptions),
    RepairConflicts,
    Clean,
    Token,
    FixToken,
    Dashboard,
    Devices,
    Approve(String),
    Cd,
    Config,
    Workspace,
    Init,
    Tui,
}

/// What a subcommand comes down to.
#[derive(Clone, Debug)]
pub enum Action {
    /// Run `docker compose` with these arguments and require success.
    Compose(Vec<String>),
    /// Recreate the gateway.
    Restart,
    /// Show the services and probe the gateway.
    Health,
    /// Run a command in the gateway container.
    ExecGateway(Vec<String>),
    /// Run an OpenClaw CLI command in a one-shot container.
    RunOpenclaw(Vec<String>),
    /// Build the image.
    Rebuild,
    /// Upgrade the checkout.
    Upgrade(UpgradeOptions),
    /// Settle a conflicted rebase or merge.
    RepairConflicts,
    /// Print the gateway token from `.env`.
    PrintToken,
    /// Copy the gateway token into the OpenClaw configuration.
    FixToken,
    /// Print the checkout's root.
    PrintRoot,
    /// Print this path below the home directory.
    PrintHomePath(String),
    /// Print this text.
    PrintText(String),
}

fn words2(a: &str, b: &str) -> (res: Vec<String>)
    ensures
        res.deep_view() == seq![a@, b@],
{
    let mut v: Vec<String> = Vec::new();
    push_str(&mut v, a);
    push_str(&mut v, b);
    v
}

fn words3(a: &str, b: &str, c: &str) -> (res: Vec<String>)
    ensures
        res.deep_view() == seq![a@, b@, c@],
{
    let mut v: Vec<String> = Vec::new();
    push_str(&mut v, a);
    push_str(&mut v, b);
    push_str(&mut v, c);
    v
}

/// The action of each subcommand.
pub fn command_action(command: Command) -> (res: Action)
    ensures
        match command {
            Command::Start => res matches Action::Compose(a) && a.deep_view() == seq![
                "up"@,
                "-d"@,
                DEFAULT_SERVICE@,
            ],
            Command::Stop => res matches Action::Compose(a) && a.deep_view() == seq!["down"@],
            Command::Restart => res matches Action::Restart,
            Command::Logs => res matches Action::Compose(a) && a.deep_view() == seq![
                "logs"@,
                "-f"@,
                DEFAULT_SERVICE@,
            ],
            Command::Status => res matches Action::Compose(a) && a.deep_view() == seq!["ps"@],
            Command::Health => res matches Action::Health,
            Command::Shell => res matches Action::Compose(a) && a.deep_view() == seq![
                "exec"@,
                DEFAULT_SERVICE@,
                "bash"@,
            ],
            Command::Exec(cmd) => res matches Action::ExecGateway(c) && c.deep_view()
                == cmd.deep_view(),
            Command::Run(args) => res matches Action::RunOpenclaw(a) && a.deep_view()
                == args.deep_view(),
            Command::Rebuild => res matches Action::Rebuild,
            Command::Upgrade(options) => res matches Action::Upgrade(o) && o == options,
            Command::RepairConflicts => res matches Action::RepairConflicts,
            Command::Clean => res matches Action::Compose(a) && a.deep_view() == seq![
                "down"@,
                "-v"@,
                "--remove-orphans"@,
            ],
            Command::Token => res matches Action::PrintToken,
            Command::FixToken => res matches Action::FixToken,
            Command::Dashboard => res matches Action::RunOpenclaw(a) && a.deep_view() == seq![
                "dashboard"@,
                "--no-open"@,
            ],
            Command::Devices => res matches Action::RunOpenclaw(a) && a.deep_view() == seq![
                "devices"@,
                "list"@,
            ],
            Command::Approve(id) => res matches Action::RunOpenclaw(a) && a.deep_view() == seq![
                "devices"@,
                "approve"@,
                id@,
            ],
            Command::Cd | Command::Init => res matches Action::PrintRoot,
            Command::Config => res matches Action::PrintHomePath(p) && p@ == ".openclaw"@,
            Command::Workspace => res matches Action::PrintHomePath(p) && p@
                == ".openclaw/workspace"@,
            Command::Tui => res matches Action::PrintText(t) && t@
                == "TUI is not implemented yet. Use `clawyer status`, `clawyer health`, or `clawyer logs`."@,
        },
{
    match command {
        Command::Start => Action::Compose(words3("up", "-d", DEFAULT_SERVICE)),
        Command::Stop => {
            let mut v: Vec<String> = Vec::new();
            push_str(&mut v, "down");
            Action::Compose(v)
        },
        Command::Restart => Action::Restart,
        Command::Logs => Action::Compose(words3("logs", "-f", DEFAULT_SERVICE)),
        Command::Status => {
            let mut v: Vec<String> = Vec::new();
            push_str(&mut v, "ps");
            Action::Compose(v)
        },
        Command::Health => Action::Health,
        Command::Shell => Action::Compose(words3("exec", DEFAULT_SERVICE, "bash")),
        Command::Exec(cmd) => Action::ExecGateway(cmd),
        Command::Run(args) => Action::RunOpenclaw(args),
        Command::Rebuild => Action::Rebuild,
        Command::Upgrade(options) => Action::Upgrade(options),
        Command::RepairConflicts => Action::RepairConflicts,
        Command::Clean => Action::Compose(words3("down", "-v", "--remove-orphans")),
        Command::Token => Action::PrintToken,
        Command::FixToken => Action::FixToken,
        Command::Dashboard => Action::RunOpenclaw(words2("dashboard", "--no-open")),
        Command::Devices => Action::RunOpenclaw(words2("devices", "list")),
        Command::Approve(id) => {
            let mut v = words2("devices", "approve");
            let mut rest: Vec<String> = Vec::new();
            rest.push(id);
            assert(rest.deep_view() =~= seq![id@]);
            push_all(&mut v, &rest);
            Action::RunOpenclaw(v)
        },
        Command::Cd | Command::Init => Action::PrintRoot,
        Command::Config => Action::PrintHomePath(".openclaw".to_owned()),
        Command::Workspace => Action::PrintHomePath(".openclaw/workspace".to_owned()),
        Command::Tui => Action::PrintText(
            "TUI is not implemented yet. Use `clawyer status`, `clawyer health`, or `clawyer logs`.".to_owned(),
        ),
    }
}

} // verus!
