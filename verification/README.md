# babygit

A small tool for sharing a project directory through a SpacetimeDB database:
a server module keeps projects, their members and their files; a command-line
client creates projects, lets guests in, lists a user's projects and keeps a
local directory in step with a project's files.

The library under `src/` holds the logic, verified with Verus:

- `project`: the rules of the server module. Project names are trimmed and
  checked; only a project's author may let guests in, and only people who are
  not members yet; each user sees the projects they authored or were let into.
- `file_tree`: the client's tree of a project's files, built from queued files
  in order of their ids; `tree_laws` and `build_law` hold what is proved of it
  for every tree and every queue.
- `path`: paths as sequences of components; `text`: Unicode white space and
  trimming; `client`: the checksum of uploaded files and a one-shot signal.

Paths follow Unix syntax: the contracts on splitting and stripping paths
state what the standard library does on Unix targets (`/` the only
separator, no drive prefixes). The library is meant for Unix targets.

`app/` holds the program around it: the command-line client (`main.rs`) and
the server module's tables and reducers (`server.rs`), which read and write
rows and leave every decision to the library. The client expects the
bindings that `spacetime generate` writes for the module in
`app/module_bindings/`.
