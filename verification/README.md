# Undo

Undo records the changes of a project's files while coding agents (or people)
work on them, says who reported which change, and brings earlier versions back:
a file, a folder, one task, one Run, or everything before the latest burst of
changes. A restore is previewed before it is applied, is checked again when it
is applied, and leaves a copy of what it replaces.

## Layout

- `src/` is the library. Its functions carry contracts that Verus proves: the
  tables of the history and their rules (`db`), Runs and tasks (`runs`,
  `sessions`, `agent_events`), the state of a file at a point of the history
  and restore plans (`restore`), previews and saved recoveries (`recoveries`,
  `recovery_apply`, `intent_recovery`), the steps by which a file is replaced
  without losing either version (`replace`), what is thrown away and what is
  kept (`retention`), the recorder (`daemon`), and the text that each command
  shows. `laws` states what holds across them.
- `app/` is the program around it: the command line, the SQLite file that holds
  the tables, the saved versions on disk, the recorder's process and the agents'
  hooks. It gathers plain facts, asks the library, and does what it says.
- `tests/` runs the library.

## What is taken on trust

The library calls `chrono`, `sha2`, `similar`, `serde_json`, `diffy`, `ignore` and a few
functions of the standard library. Each call stands in a small function of its
own whose doc comment says what is believed of it. Everything else in `src/` is
proved.
