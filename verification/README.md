# inotifytools

A small library that simplifies the use of inotify and fanotify, and the tools
`inotifywait` / `fsnotifywait` (wait for, or monitor, filesystem events) and
`inotifywatch` / `fsnotifywatch` (gather filesystem usage statistics).

- `src/` is the library.  It is written in Verus: every function has a contract
  that Verus proves.  It makes no system calls.  Each operation that needs one
  says which call to make and takes its outcome as an argument.
- `tests/` holds its tests.
- `app/` is ordinary Rust around the library: the system calls, the two tools
  (chosen by the name the program is invoked as), and the C API.

In `src/`:

| module | what it holds |
| --- | --- |
| `consts` | event masks and error numbers |
| `bytes`, `order` | byte strings, messages, numbers in kernel data |
| `events` | event names |
| `stats` | event counters |
| `fid` | fanotify file identifiers |
| `keymap`, `table` | the watches and the indexes into them |
| `buffer` | the event buffer |
| `inotify` | the library handle, with formatting (`printf`), reading (`reader`), resolving file identifiers (`resolve`), setting up watches (`setup`), walking through trees (`walk`) and how totals and counts hang together (`totals`) |
| `common`, `wait`, `watch` | the logic of the tools |

The one thing taken on trust is that `u16::from_ne_bytes` reads two bytes in
the byte order of the executing hardware.
