# clawyer

Docker helpers for a containerized OpenClaw checkout ("a lawyer for your
claw"): start, stop and probe the gateway, run OpenClaw CLI commands in a
one-shot container, and move the checkout to the latest stable upstream
release while keeping local work (`crates/clawyer` and custom skills).

## Layout

- `src/` — the library, verified with Verus.
  - `text.rs` — the meaning of `lines`, `trim`, `split`, `split_whitespace`
    and friends on `Seq<char>`, and scanners proved to agree with it.
  - `number.rs` — `u32` parsing with the meaning of `u32::from_str`.
  - `tag.rs` — stable release tags (`v2026.3.12`, `v2026.3.13-1`), their
    parser and their order.
  - `git.rs` — reading `git ls-remote` (latest stable tag) and
    `git status --porcelain` (changed paths).
  - `dotenv.rs` — `KEY=value` lookup.
  - `image.rs` — which image runs: environment, then `.env`, then the
    running container, then the default.
  - `paths.rs` — paths as component sequences; which paths a root preserves;
    `Path`'s order and sorting by it.
  - `roots.rs` — the preserved roots, sorted and without duplicates.
  - `upgrade.rs` — the upgrade plan and the conflict-repair plan.
  - `commands.rs` — argument lists for `docker compose`, `docker` and `git`.
  - `cli.rs` — what each subcommand asks for.
- `app/main.rs` — the command-line program: argument parsing, processes,
  files and the temporary directories; it runs what the library plans.
- `tests/` — tests of the library, including comparisons of the text model
  with the standard library.
