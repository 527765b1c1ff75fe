# just_bash_rs

An in-memory bash emulator whose behaviour is specified and proved with Verus:
a parser for shell input, a virtual file system, environment variables,
pipes, redirections and a set of built-in commands.

## Layout

- `src/` — the verified library.
  - `text`, `assoc`: character and string helpers, association lists.
  - `parser`: tokenizer and parser of pipelines, redirections and expansion.
  - `env`: variables, working directory and `$VAR` expansion.
  - `argparse`: command-line flags and positionals, with command metadata.
  - `paths`, `keys`: path normalisation, globbing and shared path keys.
  - `fs`: the in-memory file system with its limits; `fstree` shows that
    every operation keeps it shaped as a tree; `fslaws` states what a read
    gives back after a write, a copy, a move or a removal, and that a write
    leaves every other path alone.
  - `overlay`, `readthrough`: the decisions of the layered (read-through)
    file system, taking what the disk holds as plain facts; `rtlaws` states
    that reads fall through to the disk and that what the layer wrote, made
    or removed is what later reads see.
  - `commands`, `textcmds`, `sortcmd`, `tr`, `sed`, `diff`, `fscmds`: the
    built-in commands.
  - `shell`: pipelines, redirections and the exit status.
  - `diskplan`: the steps on disk that the changes of a command line call
    for, so that a disk can follow the in-memory file system.
- `tests/` — the tests, run against the compiled library.
- `app/` — the disk-backed modes: the I/O around the library, and a shell
  (`DiskShell`) that runs its commands on the memory file system loaded
  from the disk, keeping changes in memory (read-through) or carrying out
  the library's disk steps after each command line (passthrough).
