use macdirstat::model::node::FileNode;
use macdirstat::model::refresh::{RefreshDir, RefreshStep};
use macdirstat::model::scan::DirEntry;

fn file(name: &str, size: u64) -> FileNode {
    FileNode {
        name: name.to_string(),
        children: Vec::new(),
        size,
        file_count: 1,
        dir_count: 0,
        is_dir: false,
    }
}

fn folder(name: &str, children: Vec<FileNode>) -> FileNode {
    FileNode {
        name: name.to_string(),
        size: children.iter().map(|c| c.size).sum(),
        file_count: children.iter().map(|c| c.file_count).sum(),
        dir_count: 1 + children.iter().map(|c| c.dir_count).sum::<u32>(),
        is_dir: true,
        children,
    }
}

fn entry(name: &str, is_dir: bool, size: u64) -> DirEntry {
    DirEntry { name: name.to_string(), is_dir, file_size: size, devid: 0, fileid: 0 }
}

fn names(node: &FileNode) -> Vec<&str> {
    node.children.iter().map(|c| c.name.as_str()).collect()
}

#[test]
fn refresh_drops_updates_and_sorts() {
    let mut root = folder(
        "/r",
        vec![
            file("gone", 50),
            folder("sub", vec![file("x", 40)]),
            file("grown", 30),
            file("was a file", 20),
            folder("now excluded", vec![file("y", 10)]),
            file("same", 5),
        ],
    );
    let entries = vec![
        entry("sub", true, 0),
        entry("grown", false, 1),
        entry("grown", false, 300),
        entry("was a file", true, 0),
        entry("now excluded", true, 0),
        entry("same", false, 5),
        entry("new", false, 77),
    ];
    let excluded = vec!["/r/now excluded".to_string()];
    assert!(root.needs_refresh(false));
    let mut run = RefreshDir::begin(&mut root, entries);
    assert!(root.children.is_empty());
    let mut said = Vec::new();
    loop {
        match run.step(false, "/r", &excluded) {
            RefreshStep::Done => break,
            RefreshStep::Carried => said.push("carried"),
            RefreshStep::Dropped => said.push("dropped"),
            RefreshStep::FileSeen => said.push("file"),
            RefreshStep::Enter(child, path) => {
                assert_eq!(child.name, "sub");
                assert_eq!(path, "/r/sub");
                said.push("enter");
                run.resume(folder("sub", vec![file("x", 7)]));
            }
        }
    }
    assert_eq!(said, vec!["dropped", "enter", "file", "dropped", "dropped", "file"]);
    assert!(run.fits());
    run.finish(&mut root);
    assert_eq!(names(&root), vec!["grown", "sub", "same"]);
    assert_eq!(root.name, "/r");
    assert!(root.is_dir);
    assert_eq!(root.size, 312);
    assert_eq!(root.file_count, 3);
    assert_eq!(root.dir_count, 2);
}

#[test]
fn stopped_refresh_keeps_what_it_did_not_reach() {
    let mut root = folder("/r", vec![file("a", 3), file("b", 2), file("c", 1)]);
    let mut run = RefreshDir::begin(&mut root, vec![entry("a", false, 30)]);
    assert!(matches!(run.step(false, "/r", &[]), RefreshStep::FileSeen));
    assert!(matches!(run.step(true, "/r", &[]), RefreshStep::Carried));
    // Once stopped it stays so.
    assert!(matches!(run.step(false, "/r", &[]), RefreshStep::Carried));
    assert!(matches!(run.step(false, "/r", &[]), RefreshStep::Done));
    run.finish(&mut root);
    assert_eq!(names(&root), vec!["a", "b", "c"]);
    assert_eq!(root.size, 33);
}

#[test]
fn nothing_to_refresh() {
    assert!(!folder("/r", Vec::new()).needs_refresh(false));
    assert!(!folder("/r", vec![file("a", 1)]).needs_refresh(true));
}

#[test]
fn everything_gone() {
    let mut root = folder("/r", vec![file("a", 3)]);
    let mut run = RefreshDir::begin(&mut root, Vec::new());
    assert!(matches!(run.step(false, "/r", &[]), RefreshStep::Dropped));
    run.finish(&mut root);
    assert!(root.children.is_empty());
    assert_eq!((root.size, root.file_count, root.dir_count), (0, 0, 1));
}

#[test]
fn refreshed_sizes_that_do_not_fit() {
    let mut root = folder("/r", vec![file("a", 1), file("b", 1)]);
    let entries = vec![entry("a", false, u64::MAX), entry("b", false, 1)];
    let mut run = RefreshDir::begin(&mut root, entries);
    let _ = run.step(false, "/r", &[]);
    assert!(run.fits());
    let _ = run.step(false, "/r", &[]);
    assert!(!run.fits());
}

#[test]
fn an_unchanged_directory_stays_as_it_is() {
    let mut root = folder("/r", vec![folder("sub", vec![file("x", 9)]), file("a", 3)]);
    let entries = vec![entry("a", false, 3), entry("sub", true, 0)];
    let mut run = RefreshDir::begin(&mut root, entries);
    loop {
        match run.step(false, "/r", &[]) {
            RefreshStep::Done => break,
            RefreshStep::Enter(child, _) => run.resume(child),
            RefreshStep::FileSeen => {}
            RefreshStep::Carried | RefreshStep::Dropped => panic!("nothing changed"),
        }
    }
    run.finish(&mut root);
    assert_eq!(names(&root), vec!["sub", "a"]);
    assert_eq!((root.size, root.file_count, root.dir_count), (12, 2, 2));
}

/// What is on a disk now: its entries, and what the folders among them hold.
struct OnDisk {
    entries: Vec<(&'static str, u64)>,
    folders: Vec<(&'static str, Option<OnDisk>)>,
}

/// Refreshes a whole tree. It is stopped once it has looked at `left` children.
fn refresh(node: &mut FileNode, path: &str, disk: &OnDisk, left: &mut usize) {
    if !node.needs_refresh(*left == 0) {
        return;
    }
    let mut entries: Vec<DirEntry> =
        disk.entries.iter().map(|(name, size)| entry(name, false, *size)).collect();
    entries.extend(disk.folders.iter().map(|(name, _)| entry(name, true, 0)));
    let mut run = RefreshDir::begin(node, entries);
    loop {
        let step = run.step(*left == 0, path, &[]);
        *left = left.saturating_sub(1);
        match step {
            RefreshStep::Done => break,
            RefreshStep::Carried | RefreshStep::Dropped | RefreshStep::FileSeen => {}
            RefreshStep::Enter(mut child, child_path) => {
                let inside = disk.folders.iter().find(|(name, _)| *name == child.name);
                if let Some((_, Some(inside))) = inside {
                    refresh(&mut child, &child_path, inside, left);
                }
                run.resume(child);
            }
        }
    }
    assert!(run.fits());
    run.finish(node);
}

/// The files below a node, by their paths.
fn files_of(node: &FileNode, path: &str, out: &mut Vec<(String, u64)>) {
    for child in &node.children {
        let at = format!("{path}/{}", child.name);
        if child.is_dir {
            files_of(child, &at, out);
        } else {
            out.push((at, child.size));
        }
    }
}

fn check_totals(node: &FileNode) {
    if node.is_dir {
        assert_eq!(node.size, node.children.iter().map(|c| c.size).sum::<u64>());
        assert_eq!(node.file_count, node.children.iter().map(|c| c.file_count).sum::<u32>());
        assert_eq!(node.dir_count, 1 + node.children.iter().map(|c| c.dir_count).sum::<u32>());
        assert!(node.children.windows(2).all(|w| w[0].size >= w[1].size));
        node.children.iter().for_each(check_totals);
    }
}

#[test]
fn a_whole_refresh_adds_nothing() {
    let tree = || {
        folder(
            "/r",
            vec![
                folder("sub", vec![folder("deep", vec![file("x", 40), file("y", 9)])]),
                folder("locked", vec![file("z", 8)]),
                file("a", 3),
            ],
        )
    };
    let disk = OnDisk {
        entries: vec![("a", 100), ("new", 1)],
        folders: vec![
            (
                "sub",
                Some(OnDisk {
                    entries: vec![("new", 1)],
                    folders: vec![(
                        "deep",
                        Some(OnDisk { entries: vec![("y", 70), ("new", 1)], folders: vec![] }),
                    )],
                }),
            ),
            ("locked", None),
        ],
    };
    let mut done = tree();
    refresh(&mut done, "/r", &disk, &mut usize::MAX.clone());
    check_totals(&done);
    let mut found = Vec::new();
    files_of(&done, "", &mut found);
    assert_eq!(
        found,
        vec![
            ("/a".to_string(), 100),
            ("/sub/deep/y".to_string(), 70),
            ("/locked/z".to_string(), 8),
        ]
    );

    let mut before = Vec::new();
    files_of(&tree(), "", &mut before);
    for stop in 0..8 {
        let mut node = tree();
        refresh(&mut node, "/r", &disk, &mut stop.clone());
        check_totals(&node);
        let mut now = Vec::new();
        files_of(&node, "", &mut now);
        assert!(now.iter().all(|(path, _)| before.iter().any(|(old, _)| old == path)));
        if stop == 0 {
            assert_eq!(now, before);
        }
        // The child that is not there any more is the third that the refresh comes to.
        let dropped = !now.iter().any(|(path, _)| path == "/sub/deep/x");
        assert_eq!(dropped, stop >= 3);
    }
}
