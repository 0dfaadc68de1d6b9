# gitsama

GitSama plays a sound when something happens in your local Git workflow: a
commit, a push (or a massive push), a merge, a branch being created, deleted
or switched to, or a rebase. It registers named hooks in Git's user-level
configuration and never touches a repository's own files.

This crate is written in Verus. The library under `src/` holds the logic and
proves it against its contracts:

- `events`, `config`: the sound events and the user settings;
- `git`, `hooks`: reading what Git prints, the configuration edits that
  install, remove, disable and re-enable the hooks, and what each hook does;
- `git_config`: a model of Git's configuration as a map from scope and key
  to values, with the state that setup, uninstall, `off-here` and `on-here`
  leave behind;
- `push`: counting the distinct commits of a push, stopping at the threshold;
- `packs`: pack manifests and ids, audio paths (with each platform's rules),
  the default and Starter packs, scaffolding,
  the listing order, and choosing a sound;
- `state`: the short-lived branch state shared by hook processes;
- `platform`, `paths`: quoting for Git's shell, the per-user layout with
  paths joined by each platform's rules, the user PATH entry, and the
  cleanup after an uninstall;
- `cli`, `logging`, `audio`, `error`, `text`: command-line values, the log,
  the playback lock, errors, and the text operations the rest is built on.

Laws that relate several functions are public proof functions named
`lemma_*` (for instance, removing the hooks undoes installing them, and a
quoted path reads back as the path in a POSIX shell).

`app/` is the program around the library: argument parsing, files,
processes, audio output and the terminal.
