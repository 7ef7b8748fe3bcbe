# bfiles

A fast parallel directory size analyzer. Point it at a folder and it shows
which folders use the most disk space; an scp-style path
(`user@host:/srv/storage`) runs the scan on that host over ssh.

The crate is a Verus library with a thin program around it.

* `src/` is the verified library:
  * `tree` — the column-oriented directory tree (parents, names in one byte
    arena, sizes), paths, lookup, and the bottom-up fold of sizes;
  * `scan` — what one directory listing contributes (files counted, symbolic
    links skipped, excluded directories left out), path components as
    `Path::components` yields them, and the decoder of `getattrlistbulk`
    listings;
  * `summary`, `ranking` — the summary shown to the user: one group per
    directory under the root with its largest descendants, largest first;
  * `size`, `layout` — sizes as text and the tables; the size text is
    specified as an integer model of dividing in `f64` and printing with
    `{:.2}`, and `tests/formatting.rs` checks that model against the real
    float formatting;
  * `remote`, `shell`, `protocol`, `roundtrip` — remote paths, shell
    quoting and what a POSIX shell makes of the remote command, label
    escaping, the line protocol of remote scans and what reading it back
    gives;
  * `cli`, `text` — the configuration and small text utilities.
* `app/` is the program: the command line (clap), the threads of the two
  traversal engines, disk and process I/O, progress spinners and upgrades.
* `tests/` exercises the library on concrete values.
