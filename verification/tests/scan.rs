use macdirstat::model::extensions::ExtTable;
use macdirstat::model::node::FileNode;
use macdirstat::model::scan::{assemble_dir, goes_into, sizes_fit, DirEntry, ScanCtx};
use macdirstat::model::tree::FileTree;
use macdirstat::path::join;

/// A directory in memory.
enum Item {
    File { name: String, size: u64, inode: u64 },
    Dir { name: String, inode: u64, items: Vec<Item> },
    Locked { name: String },
}

fn file(name: &str, size: u64, inode: u64) -> Item {
    Item::File { name: name.to_string(), size, inode }
}

fn dir(name: &str, inode: u64, items: Vec<Item>) -> Item {
    Item::Dir { name: name.to_string(), inode, items }
}

struct Walk<'a> {
    ctx: ScanCtx,
    table: ExtTable,
    excluded: &'a [String],
    /// How many folders it comes to before it is stopped.
    before_stop: usize,
}

impl Walk<'_> {
    fn node(&mut self, name: String, path: &str, items: &[Item]) -> FileNode {
        let entries = items
            .iter()
            .map(|item| match item {
                Item::File { name, size, inode } => DirEntry {
                    name: name.clone(),
                    is_dir: false,
                    file_size: *size,
                    devid: 1,
                    fileid: *inode,
                },
                Item::Dir { name, inode, .. } => DirEntry {
                    name: name.clone(),
                    is_dir: true,
                    file_size: 0,
                    devid: 1,
                    fileid: *inode,
                },
                Item::Locked { name } => DirEntry {
                    name: name.clone(),
                    is_dir: true,
                    file_size: 0,
                    devid: 1,
                    fileid: 0,
                },
            })
            .collect();
        let (files, folders) = self.ctx.take_entries(entries, Some(path), self.excluded);
        assert!(self.table.count_files(&files));
        let mut dirs = Vec::new();
        for folder in folders {
            if !goes_into(self.before_stop == 0, &folder) {
                continue;
            }
            self.before_stop -= 1;
            let child = join(path, &folder.name);
            for item in items {
                match item {
                    Item::Dir { name, inode, items } if *name == folder.name => {
                        if self.ctx.enter_dir(true, Some((1, *inode))) {
                            dirs.push(self.node(folder.name.clone(), &child, items));
                        }
                    }
                    Item::Locked { name } if *name == folder.name => {
                        if self.ctx.enter_dir(false, None) {
                            dirs.push(self.node(folder.name.clone(), &child, &[]));
                        }
                    }
                    _ => {}
                }
            }
        }
        assert!(sizes_fit(&files, &dirs));
        assemble_dir(name, files, dirs)
    }
}

fn walk(
    items: &[Item],
    excluded: &[String],
    skip_duplicates: bool,
    min_file_size_bytes: u64,
    cancelled: bool,
) -> FileTree {
    let before_stop = if cancelled { 0 } else { usize::MAX };
    walk_until(items, excluded, skip_duplicates, min_file_size_bytes, before_stop)
}

fn walk_until(
    items: &[Item],
    excluded: &[String],
    skip_duplicates: bool,
    min_file_size_bytes: u64,
    before_stop: usize,
) -> FileTree {
    let mut w = Walk {
        ctx: ScanCtx::new(skip_duplicates, min_file_size_bytes),
        table: ExtTable::new(),
        excluded,
        before_stop,
    };
    assert!(w.ctx.enter_dir(true, Some((1, 2))));
    let root = w.node("/top".to_string(), "/top", items);
    FileTree::from_scan(root, "/top".to_string(), w.table, &w.ctx)
}

fn scan(items: &[Item], skip_duplicates: bool, min_file_size_bytes: u64) -> FileTree {
    walk(items, &[], skip_duplicates, min_file_size_bytes, false)
}

#[test]
fn counts_sizes_and_extensions_are_correct() {
    // a.txt (10), b.txt (20), sub/c.log (30), sub/deep/d.txt (40)
    let items = vec![
        file("a.txt", 10, 11),
        file("b.txt", 20, 12),
        dir(
            "sub",
            13,
            vec![file("c.log", 30, 14), dir("deep", 15, vec![file("d.txt", 40, 16)])],
        ),
    ];

    let tree = scan(&items, true, 0);

    assert_eq!(tree.root.file_count, 4, "4 files total");
    // dirs: root + sub + deep = 3
    assert_eq!(tree.root.dir_count, 3, "root + sub + deep");
    assert!(tree.root.is_dir);
    assert_eq!(tree.root.size, 100, "10+20+30+40");

    // Extension histogram: txt = 10+20+40 = 70, log = 30.
    let txt = tree.extensions.iter().find(|s| s.ext == "txt").map(|s| s.bytes);
    let log = tree.extensions.iter().find(|s| s.ext == "log").map(|s| s.bytes);
    assert_eq!(txt, Some(70));
    assert_eq!(log, Some(30));

    // extensions are sorted by size descending.
    let sizes: Vec<u64> = tree.extensions.iter().map(|s| s.bytes).collect();
    let mut sorted = sizes.clone();
    sorted.sort_unstable_by(|a, b| b.cmp(a));
    assert_eq!(sizes, sorted, "extensions sorted by size desc");

    assert!(!tree.size_approximate);
    assert_eq!(tree.permission_denied, 0);
}

#[test]
fn children_sorted_by_size_descending() {
    let items = vec![
        file("small.bin", 5, 11),
        file("big.bin", 5000, 12),
        file("medium.bin", 500, 13),
    ];
    let tree = scan(&items, true, 0);
    let sizes: Vec<u64> = tree.root.children.iter().map(|c| c.size).collect();
    let mut sorted = sizes.clone();
    sorted.sort_unstable_by(|a, b| b.cmp(a));
    assert_eq!(sizes, sorted, "children sorted by size descending");
    assert_eq!(sizes, vec![5000, 500, 5]);
}

#[test]
fn min_file_size_filter_excludes_small_files() {
    let items = vec![file("tiny.dat", 100, 11), file("big.dat", 10_000, 12)];

    let full = scan(&items, true, 0);
    assert_eq!(full.root.file_count, 2);
    assert_eq!(full.root.size, 10_100);

    // Floor at 1000 bytes: only big.dat survives.
    let filtered = scan(&items, true, 1000);
    assert_eq!(filtered.root.file_count, 1, "tiny file filtered out");
    assert_eq!(filtered.root.size, 10_000);
    assert!(filtered.size_approximate);
}

#[test]
fn hardlink_deduplicated_only_when_enabled() {
    // Three entries with one inode.
    let items = vec![
        file("original.dat", 1234, 11),
        file("link1.dat", 1234, 11),
        file("link2.dat", 1234, 11),
    ];

    // Dedup OFF: all three directory entries counted.
    let no_dedup = scan(&items, false, 0);
    assert_eq!(no_dedup.root.file_count, 3, "3 entries without dedup");
    assert_eq!(no_dedup.root.size, 1234 * 3);

    // Dedup ON: same inode counted once.
    let dedup = scan(&items, true, 0);
    assert_eq!(
        dedup.root.file_count, 1,
        "hardlinks counted once with dedup"
    );
    assert_eq!(dedup.root.size, 1234);
}

#[test]
fn hardlinks_in_other_directories_are_counted_once() {
    let items = vec![
        file("a", 7, 11),
        dir("sub", 12, vec![file("b", 7, 11), file("unknown1", 1, 0), file("unknown2", 1, 0)]),
    ];
    let tree = scan(&items, true, 0);
    assert_eq!(tree.root.file_count, 3);
    assert_eq!(tree.root.size, 9);
}

#[test]
fn a_small_file_does_not_hide_its_hardlinks() {
    // The floor comes first: what is under it is not registered.
    let mut ctx = ScanCtx::new(true, 10);
    let entry = |name: &str, size: u64| DirEntry {
        name: name.to_string(),
        is_dir: false,
        file_size: size,
        devid: 1,
        fileid: 9,
    };
    let (files, dirs) = ctx.take_entries(vec![entry("a", 9), entry("b", 10)], None, &[]);
    assert_eq!(files.len(), 1);
    assert_eq!(files[0].name, "b");
    assert!(dirs.is_empty());
}

#[test]
fn excluded_paths_are_skipped() {
    let items = vec![
        file("keep.dat", 100, 11),
        dir("skipme", 12, vec![file("inside.dat", 9999, 13)]),
    ];
    let excluded = vec!["/top/skipme".to_string()];
    let tree = walk(&items, &excluded, true, 0, false);

    assert_eq!(tree.root.file_count, 1, "only keep.dat counted");
    assert_eq!(tree.root.size, 100);
    assert_eq!(tree.root.dir_count, 1);
    assert!(tree.size_approximate);
}

#[test]
fn excluded_paths_match_as_paths() {
    let items = vec![dir("skipme", 12, vec![file("inside.dat", 9999, 13)])];
    let same = walk(&items, &["//top/./skipme/".to_string()], true, 0, false);
    assert_eq!(same.root.file_count, 0);
    let other = walk(&items, &["/top/skipme2".to_string()], true, 0, false);
    assert_eq!(other.root.file_count, 1);
    assert!(!other.size_approximate);
}

#[test]
fn folders_without_a_known_parent_are_not_excluded() {
    let mut ctx = ScanCtx::new(true, 0);
    let entry = DirEntry {
        name: "x".to_string(),
        is_dir: true,
        file_size: 0,
        devid: 0,
        fileid: 0,
    };
    let (files, dirs) = ctx.take_entries(vec![entry], None, &["x".to_string()]);
    assert!(files.is_empty());
    assert_eq!(dirs.len(), 1);
}

#[test]
fn precancelled_scan_returns_promptly_without_counting() {
    let mut items = Vec::new();
    for d in 0..20u64 {
        let mut inside = Vec::new();
        for f in 0..200u64 {
            inside.push(file(&format!("f{f}.dat"), 64, 1000 + d * 200 + f));
        }
        items.push(dir(&format!("d{d}"), 100 + d, inside));
    }
    let start = std::time::Instant::now();
    let tree = walk(&items, &[], true, 0, true);
    let elapsed = start.elapsed();
    assert!(
        tree.root.file_count < 4000,
        "pre-cancelled scan must not count the whole tree (got {})",
        tree.root.file_count
    );
    assert!(
        elapsed < std::time::Duration::from_secs(5),
        "pre-cancelled scan must return promptly (took {elapsed:?})"
    );
    assert_eq!(tree.root.dir_count, 1);
}

#[test]
fn unreadable_folders_are_counted_and_kept() {
    let items = vec![Item::Locked { name: "locked".to_string() }, file("a.txt", 3, 11)];
    let tree = scan(&items, true, 0);
    assert_eq!(tree.permission_denied, 1);
    assert!(tree.size_approximate);
    assert_eq!(tree.root.dir_count, 2);
    assert_eq!(tree.root.children[1].name, "locked");
    assert!(tree.root.children[1].children.is_empty());
}

#[test]
fn a_folder_that_is_reached_twice_is_left_out() {
    let items = vec![
        dir("one", 20, vec![file("a", 5, 30)]),
        dir("twin", 20, vec![file("a", 5, 30)]),
        dir("root again", 2, vec![]),
    ];
    let tree = scan(&items, true, 0);
    assert_eq!(tree.root.children.len(), 1);
    assert_eq!(tree.root.children[0].name, "one");
    let all = scan(&items, false, 0);
    assert_eq!(all.root.children.len(), 3);
    assert_eq!(all.root.size, 10);
}

#[test]
fn registration() {
    let mut ctx = ScanCtx::new(true, 0);
    assert!(ctx.try_register_dir(Some((1, 5))));
    assert!(!ctx.try_register_dir(Some((1, 5))));
    assert!(ctx.try_register_dir(Some((2, 5))));
    assert!(ctx.try_register_dir(None));
    assert!(ctx.try_register_file(1, 5));
    assert!(!ctx.try_register_file(1, 5));
    assert!(ctx.try_register_file(1, 0));
    assert!(ctx.try_register_file(1, 0));
    let mut all = ScanCtx::new(false, 0);
    assert!(all.try_register_dir(Some((1, 5))));
    assert!(all.try_register_dir(Some((1, 5))));
    assert!(all.try_register_file(1, 5));
    assert!(all.try_register_file(1, 5));
}

#[test]
fn sizes_that_do_not_fit() {
    let big = |size: u64| FileNode {
        name: "x".to_string(),
        children: Vec::new(),
        size,
        file_count: 1,
        dir_count: 0,
        is_dir: false,
    };
    assert!(sizes_fit(&vec![big(u64::MAX)], &Vec::new()));
    assert!(!sizes_fit(&vec![big(u64::MAX)], &vec![big(1)]));
    assert!(!sizes_fit(&vec![big(u64::MAX), big(1)], &Vec::new()));
}

#[test]
fn counts_are_held_at_their_limit() {
    let crowd = FileNode {
        name: "crowd".to_string(),
        children: Vec::new(),
        size: 1,
        file_count: u32::MAX,
        dir_count: u32::MAX,
        is_dir: true,
    };
    let one = FileNode {
        name: "one".to_string(),
        children: Vec::new(),
        size: 1,
        file_count: 1,
        dir_count: 0,
        is_dir: false,
    };
    let node = assemble_dir("d".to_string(), vec![one], vec![crowd]);
    assert_eq!(node.file_count, u32::MAX);
    assert_eq!(node.dir_count, u32::MAX);
    assert_eq!(node.size, 2);
}

#[test]
fn statistics_do_not_depend_on_how_files_are_shared_out() {
    let node = |name: String, size: u64| FileNode {
        name,
        children: Vec::new(),
        size,
        file_count: 1,
        dir_count: 0,
        is_dir: false,
    };
    let mut files = Vec::new();
    for f in 0..50u64 {
        let ext = if f % 2 == 0 { "txt" } else { "bin" };
        files.push(node(format!("f{f}.{ext}"), 100 + f));
    }
    let mut whole = ExtTable::new();
    assert!(whole.count_files(&files));

    let mut shared = ExtTable::new();
    for chunk in files.chunks(7) {
        let part: Vec<FileNode> =
            chunk.iter().map(|f| node(f.name.clone(), f.size)).collect();
        let mut local = ExtTable::new();
        assert!(local.count_files(&part));
        assert!(shared.can_merge(&local));
        shared.merge(local);
    }
    let key = |t: ExtTable| {
        let mut v: Vec<(String, u64, u64)> =
            t.into_stats().into_iter().map(|s| (s.ext, s.bytes, s.count)).collect();
        v.sort();
        v
    };
    let a = key(whole);
    assert_eq!(a, key(shared));
    assert_eq!(a, vec![("bin".to_string(), 3125, 25), ("txt".to_string(), 3100, 25)]);
}

#[test]
fn a_full_table_takes_no_more() {
    let mut t = ExtTable::new();
    t.add("txt", u64::MAX - 1, 1);
    assert!(t.has_room("txt", 1, 1));
    assert!(!t.has_room("txt", 2, 1));
    assert!(t.has_room("log", u64::MAX, u64::MAX));
    let mut more = ExtTable::new();
    more.add("txt", 2, 0);
    assert!(!t.can_merge(&more));
    let f = FileNode {
        name: "a.txt".to_string(),
        children: Vec::new(),
        size: 2,
        file_count: 1,
        dir_count: 0,
        is_dir: false,
    };
    assert!(!t.count_files(&vec![f]));
}

#[test]
fn build_fs_path_and_resolve_path_roundtrip() {
    let items = vec![dir("sub", 11, vec![file("file.txt", 7, 12)])];
    let tree = scan(&items, true, 0);

    // Find the index path to "sub" then to "file.txt".
    let sub_idx = tree
        .root
        .children
        .iter()
        .position(|c| c.name == "sub")
        .expect("sub present");
    let sub = &tree.root.children[sub_idx];
    let file_idx = sub
        .children
        .iter()
        .position(|c| c.name == "file.txt")
        .expect("file present");

    let path = vec![sub_idx, file_idx];
    let node = tree.root.resolve_path(&path).expect("resolve");
    assert_eq!(node.name, "file.txt");
    assert_eq!(node.size, 7);
    assert!(!node.is_dir);

    let fs_path = tree.build_fs_path(&path).expect("fs path");
    assert_eq!(fs_path, join("/top", "sub/file.txt"));
    assert_eq!(fs_path, "/top/sub/file.txt");
    assert!(tree.build_fs_path(&[9]).is_none());
    assert!(tree.root.resolve_path(&[0, 0, 0]).is_none());
}

#[test]
fn filenode_is_compact() {
    // Memory footprint guard.
    assert_eq!(std::mem::size_of::<FileNode>(), 72);
}

#[test]
fn a_stopped_scan_goes_into_nothing() {
    let entry = |is_dir: bool| DirEntry {
        name: "x".to_string(),
        is_dir,
        file_size: 0,
        devid: 0,
        fileid: 0,
    };
    assert!(goes_into(false, &entry(true)));
    assert!(!goes_into(true, &entry(true)));
    assert!(!goes_into(false, &entry(false)));
    // What was found until then is kept.
    let items = vec![file("a", 5, 11), dir("sub", 12, vec![file("b", 7, 13)])];
    let tree = walk(&items, &[], true, 0, true);
    assert_eq!((tree.root.size, tree.root.file_count, tree.root.dir_count), (5, 1, 1));
}

/// Every file below a node, counted one by one: how many there are, and their bytes.
fn count(node: &FileNode) -> (u32, u64) {
    if !node.is_dir {
        return (1, node.size);
    }
    let mut sum = (0, 0);
    for child in &node.children {
        let (files, bytes) = count(child);
        sum = (sum.0 + files, sum.1 + bytes);
    }
    assert_eq!((node.file_count, node.size), sum);
    assert!(node.children.windows(2).all(|w| w[0].size >= w[1].size));
    sum
}

#[test]
fn a_scan_stopped_on_the_way_has_right_totals() {
    let items = vec![
        file("a.txt", 10, 11),
        dir("one", 12, vec![file("b.log", 20, 13), dir("in", 14, vec![file("c.txt", 5, 15)])]),
        dir("two", 16, vec![dir("deep", 17, vec![file("d.txt", 30, 18)])]),
    ];
    let found: Vec<(u32, u64, u32)> = (0..6)
        .map(|before_stop| {
            let tree = walk_until(&items, &[], true, 0, before_stop);
            let (files, bytes) = count(&tree.root);
            // The statistics are those of the tree.
            assert_eq!(tree.extensions.iter().map(|s| s.count).sum::<u64>(), files as u64);
            assert_eq!(tree.extensions.iter().map(|s| s.bytes).sum::<u64>(), bytes);
            (files, bytes, tree.root.dir_count)
        })
        .collect();
    assert_eq!(
        found,
        vec![(1, 10, 1), (2, 30, 2), (3, 35, 3), (3, 35, 4), (4, 65, 5), (4, 65, 5)]
    );
}

#[test]
fn the_order_of_reading_does_not_matter() {
    let items = |flip: bool| {
        let mut v = vec![
            file("a.txt", 10, 11),
            dir("one", 12, vec![file("b.log", 20, 13), file("c", 5, 14)]),
            dir("two", 15, vec![dir("deep", 16, vec![file("d.txt", 30, 17)])]),
        ];
        if flip {
            v.reverse();
        }
        v
    };
    let a = scan(&items(false), true, 0);
    let b = scan(&items(true), true, 0);
    assert_eq!(
        (a.root.size, a.root.file_count, a.root.dir_count),
        (b.root.size, b.root.file_count, b.root.dir_count)
    );
    let key = |t: FileTree| {
        let mut v: Vec<(String, u64, u64)> =
            t.extensions.into_iter().map(|s| (s.ext, s.bytes, s.count)).collect();
        v.sort();
        v
    };
    let stats = key(a);
    assert_eq!(stats, key(b));
    assert_eq!(stats.len(), 3);
}
