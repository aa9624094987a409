# Nuillu Code

A deliberately small coding agent. It has four workspace tools:

- `files`: a listing of the visible files
- `search`: a regular-expression search of the visible text
- `read`: some lines of one visible text file
- `patch`: a transaction of create, update, delete and rename operations

Hidden files are visible unless an ignore rule hides them. Absolute paths, `.`, `..`, `.git` and
symbolic links are refused. Results are bounded, and every bounded result says when it was cut.

The agent works in a Git worktree of its own and starts in Read-only. Review keeps its patches as
commits until the user applies or discards them. Write applies each patch to the user's files at
once. Neither ever commits on the user's branch or touches the user's index.

## Layout

- `src/` is the library: every decision, with its contract and its proof. `src/lib.rs` lists the
  modules. `src/atomicity.rs` proves that a patch is carried out as a whole or leaves no trace;
  `src/guarantees.rs` proves what a session does and never does, whatever Git replies.
- `app/` is the program around it: the file system, ripgrep, Git, the Nuillu runtime and the
  window. It performs what the library asks for and hands back what it found.
- `tests/` runs the library on evidence in memory.

## How the library meets the outside

The listing, search, read and patch functions take what a look at the file system or a run of
ripgrep found, and say what follows from it. A transaction is asked for its next step and told what
came of it. A session's work is run on the replies that are there; where one is missing, it stops
and names the request, and it is run again once the reply is there.
