# git-overlay

A tool that keeps a private layer of personal files inside a Git
repository: files of an overlay directory are hard-linked into the
repository and listed in its private ignore file, `.git/info/exclude`.

- `src/` is the verified library. It holds the exclude file with its
  managed region, the two configurations, path handling, gitignore
  matching (through the `ignore` crate), and every decision of `init`,
  `add`, `remove`, `file add`, `ignore add` and `sync`, each with its
  contract, and the laws that relate them. Synchronization, and the file
  work of `add` and `remove`, is a state machine (`sync::sync_step`): each
  step takes what was found or done on disk and says what to do next.
- `app/` is the command-line program around it: argument parsing, reading
  and writing files, walking directories, YAML and JSON, and a loop that
  carries out on disk each request of the state machine.
- `tests/` runs the library on concrete values, including whole command
  scenarios with the disk replaced by walk entries and probe results.
