# macdirstat

The logic of a disk usage visualizer for macOS, verified with Verus, and the
application around it.

- `src/` is the verified library.
  - `model/` holds the tree: its nodes (`node`), paths into it (`tree`), its totals
    (`totals`), the decisions of a scan and of a refresh (`scan`, `refresh`), deletion
    (`edit`), statistics per file type (`extensions`), ranked lists (`report`) and what
    they say of the tree (`listing`), and what holds of whole scans (`whole`) and whole
    refreshes (`refreshed`), also where they are stopped.
  - `loaded` is the state of a loaded scan: navigation, selection, deletion, requests.
    `breadcrumb` is the path bar.
  - `ui/` says what each view shows, and what a click or a key in it means.
  - `settings`, `cache`, `logging`, `confirm` and `format` hold the texts and file
    formats. `path`, `location`, `text`, `decimal`, `ranking` and `hashed` are what the
    rest is built on.
- `tests/` runs the library on examples.
- `app/` is ordinary Rust: the window, threads, the file system, and the arithmetic of
  the treemap and the sunburst, which takes floating point.

Sizes of directories are marked with "~" whenever a scan left content out: a size
floor, an excluded folder, or a folder that could not be read.
