# filesentry

A recursive file watcher whose logic is verified with Verus.

The watcher keeps a tree of the files and directories that it watches. The operating system reports
that something changed; the worker looks at what is on disk, compares it with the tree, and tells its
handlers which files were created, modified or deleted.

- `src/` is the verified library.
  - `path.rs`, `path_laws.rs`, `components.rs`, `bytes.rs`: canonical paths, their order and ancestry.
  - `tree.rs` and `tree/`: the tree, what a change does to it, and crawls. `tree/model.rs` says what
    the operations do; `tree/laws.rs`, `tree/crawl_laws.rs`, `tree/event_laws.rs`,
    `tree/disk_laws.rs` and `tree/second_crawl.rs` what holds of them. `tree/walk.rs` and
    `tree/followed.rs` hold what a crawl keeps to on its way through a directory.
  - `pending.rs`, `events.rs`: changes that wait to be looked into, and events that wait to be handed
    out.
  - `roots.rs`, `worker.rs`, `watcher.rs`: the directories that were asked for, and what the worker
    does next.
  - `inotify.rs`, `fsevent.rs`, `windows.rs`: what the operating systems report.
  - `eco.rs`, `table.rs`: the containers that come from other crates.
- `app/` is the ordinary Rust around it: threads, locks, the disk and the system calls.
- `tests/` runs the library on concrete values.

Paths in the library are bytes, separated by `/` and stored with a NUL at the end. None ends with a
separator: the root directory is stored as a lone NUL.
