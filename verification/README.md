# FileLens

A local-first finder of exact duplicate files. It indexes directories, groups
files of equal content, and removes copies only through reviewed, checked
operations: a recycle bin that can restore, hard links, or deletion.

- `src/` is the library, verified with Verus: the index and its rules, the
  scan, the review, every operation on files, reports, fingerprints, and the
  state of the desktop's background tasks. Operations that need the disk are
  written as steps: each step says what it wants to know or have done, and the
  answers decide how it goes on.
- `app/` is ordinary Rust around it: the command line, the database, the disk,
  threads, the change journal of Windows, and the commands of the desktop
  window.
- `tests/` runs the library: whole sessions on a disk in memory, and single
  functions on concrete values.

`src/outside.rs` holds the calls into other crates whose results the library
believes, with what is claimed of each.
