# hidenv

Keeps secret values out of sight: reads environment files (or the shell
environment, or a remote file over SSH) and prints them with every value
replaced by `###`, unless the user asks for names only (`--keys`), for some
values (`--show KEY1,KEY2`) or for all of them (`--all`).

The library under `src/` carries its specifications and proofs:

- `text` — character classes (Unicode and ASCII whitespace, name characters)
  and the scans built on them, with `trim` specified as `str::trim` does it.
- `mask` — parsing `NAME=VALUE` lines, masking them, extracting pairs from
  free-form text.
- `keys` — the order of names and the ordered set of requested keys.
- `cli` — the command line, specified as a left-to-right scan.
- `disclose` — what `--keys`, `--show` and `--all` print, and which requested
  keys are missing.
- `plan` — which sources an invocation reads, how a failing source is
  handled, its warnings, and the sorted listing of the environment.
- `ssh` — remote targets and the `ssh` command line.
- `properties` — laws over the specifications: masking hides values and is
  idempotent, parsing gives back what `NAME=VALUE` wrote, joined pairs
  extract back, masking is the default mode, a help flag ends parsing, an
  appended mode flag changes only the mode, and more.

`app/main.rs` is the program: it reads files, standard input, the
environment and `ssh` output, and prints what the library decides.
