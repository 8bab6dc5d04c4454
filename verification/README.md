# disk_cleaner

A program that shows what takes up space on a disk, and deletes what is not
needed. Its logic is verified with Verus; the window and the system calls are
ordinary Rust around it.

## `src/`: the verified library

* `tree`, `shape`, `navigate`, `order`, `names`, `path`: the tree of a scan, its
  entries by size and by name, and paths into it.
* `scanner`, `bulk`, `extd`, `bytes`, `wide`, `arena_scanner`, `platform`: how the
  entries of directories, as the system hands them out, become a tree; which
  directories are passed over; which volumes are shown.
* `ntfs`, `probe`: the records of an NTFS volume.
* `categories`, `category_worker`, `search`, `matching`, `suggestions`: what files
  are, and which are looked for.
* `ui`, `tree_view`, `treemap`, `targets`, `fitting`, `labels`, `sizes`,
  `suggestions_ui`: what is shown, and what a deletion touches.
* `session`, `commands`, `deleter`, `background_query`, `screenshot`, `window`,
  `config`, `args`, `permissions`, `report`: what the program remembers, and how
  it answers to input and to finished work.
* `measure`, `listing`, `icon_art`, `intern`: parts of the tools.
* `agreement`, `whereabouts`: how these parts fit together, for instance that the
  rows of a filtered view do not depend on whether the matches were found before,
  or what a deletion leaves of the tree.

Paths have slashes between their components. Where the system writes them otherwise
the program hands over the components.

Each function states in its contract what it returns. The public proof functions
state what holds of several functions together.

Calls of other crates stand behind functions marked
`#[verifier::external_body]`, whose comments say what is believed of them.

## `app/`: the program

The window (`gui`, `tree_panel`, `treemap_panel`, `suggestions_panel`), the walks
through directories (`scan`, `macos`, `windows_scan`, `windows_ntfs`), the threads
(`workers`) and a few tools (`tools`, `bench`, `probes`), which run when the program
is called by their names. On macOS the program needs `objc2`, `objc2-app-kit` and
`objc2-foundation` besides the crates in `Cargo.toml`.

## `tests/`

Tests of the library on concrete values.
