# kyoku

A music library manager: it catalogs audio files, matches them against
MusicBrainz, and organizes them into a directory tree that any player can
browse.

- `src/` is the library, written in Verus. Every decision is made here and
  proved against its contract: where a file goes and what it may overwrite,
  which rows a run removes, in which order a collection plays, how candidates
  are searched for and scored, how a command line is read.
- `app/` is the program around it: the disk, the database, the network, the
  terminal. It hands the library plain values and does what the library says.
- `tests/` runs the library on concrete values.

Where a decision waits on the outside world, the library holds a small state
machine. `import_run::ImportRun`, `organize_apply::Apply`, `deletion::Deletion`, `sweep::Sweep`,
`tag_write::TagWrite`, `lookup::ReleaseSearch` and `lookup::Completion` each
say what is to be done next, take what came of it, and have proofs about every
run: that a live file is never unlinked, that nothing outside the managed
directories is touched, that a failed write leaves the file as it was.
