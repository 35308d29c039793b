use macdirstat::model::node::FileNode;
use macdirstat::model::tree::{raw_extension, ExtStat, FileTree};

fn file(name: &str, size: u64) -> FileNode {
    FileNode {
        name: name.to_string(),
        children: Vec::new(),
        size,
        file_count: 1,
        dir_count: 0,
        is_dir: false,
    }
}

fn folder(name: &str, children: Vec<FileNode>) -> FileNode {
    FileNode {
        name: name.to_string(),
        size: children.iter().map(|c| c.size).sum(),
        file_count: children.iter().map(|c| c.file_count).sum(),
        dir_count: 1 + children.iter().map(|c| c.dir_count).sum::<u32>(),
        is_dir: true,
        children,
    }
}

fn sample() -> FileTree {
    FileTree {
        root: folder(
            "/r",
            vec![
                folder("a", vec![folder("deep", vec![file("1.txt", 40), file("2.log", 30)])]),
                folder("b", vec![file("3.txt", 20), file("none", 5)]),
                file("4.log", 10),
            ],
        ),
        root_path: "/r".to_string(),
        extensions: Vec::new(),
        permission_denied: 0,
        size_approximate: false,
    }
}

fn stats(tree: &FileTree) -> Vec<(&str, u64, u64)> {
    tree.extensions.iter().map(|s: &ExtStat| (s.ext.as_str(), s.bytes, s.count)).collect()
}

#[test]
fn extensions() {
    assert_eq!(raw_extension("a.tar.gz"), "gz");
    assert_eq!(raw_extension("a."), "");
    assert_eq!(raw_extension("a"), "");
    assert_eq!(raw_extension(".hidden"), "hidden");
    assert_eq!(file("x.rs", 1).extension(), "rs");
    assert_eq!(folder("x.app", Vec::new()).extension(), "");
}

#[test]
fn rebuilt_statistics() {
    let mut tree = sample();
    tree.rebuild_extensions();
    assert_eq!(stats(&tree), vec![("txt", 60, 2), ("log", 40, 2), ("(no ext)", 5, 1)]);
}

#[test]
fn resolve_path_walks_children() {
    let tree = sample();
    assert_eq!(tree.root.resolve_path(&[]).map(|n| n.name.as_str()), Some("/r"));
    assert_eq!(tree.root.resolve_path(&[0, 0, 1]).map(|n| n.name.as_str()), Some("2.log"));
    assert!(tree.root.resolve_path(&[3]).is_none());
    assert_eq!(tree.build_fs_path(&[0, 0, 1]).as_deref(), Some("/r/a/deep/2.log"));
    assert_eq!(tree.build_fs_path(&[]).as_deref(), Some("/r"));
}

#[test]
fn fs_paths_at_the_top_of_the_disk() {
    let mut tree = sample();
    tree.root_path = "/".to_string();
    assert_eq!(tree.build_fs_path(&[1]).as_deref(), Some("/b"));
}

#[test]
fn remove_child_takes_from_the_totals() {
    let mut tree = sample();
    let gone = tree.root.remove_child(1);
    assert_eq!(gone.name, "b");
    assert_eq!((tree.root.size, tree.root.file_count, tree.root.dir_count), (80, 3, 3));
    assert_eq!(tree.root.children.len(), 2);
}

#[test]
fn remove_child_never_goes_below_zero() {
    let mut node = folder("d", vec![file("x", 10)]);
    node.size = 3;
    node.file_count = 0;
    let _ = node.remove_child(0);
    assert_eq!((node.size, node.file_count), (0, 0));
}

#[test]
fn removal_updates_every_ancestor() {
    let mut tree = sample();
    let gone = tree.remove_at_path(&[0, 0, 0]).expect("removed");
    assert_eq!(gone.name, "1.txt");
    assert_eq!((tree.root.size, tree.root.file_count), (65, 4));
    assert_eq!((tree.root.children[0].size, tree.root.children[0].file_count), (30, 1));
    assert_eq!(tree.root.children[0].children[0].size, 30);
    let gone = tree.remove_at_path(&[0]).expect("removed");
    assert_eq!(gone.name, "a");
    assert_eq!((tree.root.size, tree.root.file_count, tree.root.dir_count), (35, 3, 2));
}

#[test]
fn removal_of_what_is_not_there() {
    let mut tree = sample();
    assert!(tree.remove_at_path(&[]).is_none());
    assert!(tree.remove_at_path(&[7]).is_none());
    assert!(tree.remove_at_path(&[2, 0]).is_none());
    assert_eq!(tree.root.size, 105);
}

#[test]
fn subtraction_leaves_the_parent_to_remove_child() {
    let mut tree = sample();
    tree.subtract_from_ancestors(&[0, 0, 0], 40, 1, 0);
    assert_eq!((tree.root.size, tree.root.file_count), (65, 4));
    assert_eq!(tree.root.children[0].size, 30);
    assert_eq!(tree.root.children[0].children[0].size, 70);
    let gone = tree.root.children[0].children[0].remove_child(0);
    assert_eq!(gone.size, 40);
    let mut other = sample();
    let _ = other.remove_at_path(&[0, 0, 0]);
    assert_eq!(other.root.size, tree.root.size);
    assert_eq!(
        other.root.children[0].children[0].size,
        tree.root.children[0].children[0].size
    );
    // The parent of a child of the root is the root: nothing is left to do.
    let mut top = sample();
    top.subtract_from_ancestors(&[2], 10, 1, 0);
    assert_eq!(top.root.size, 105);
}

#[test]
fn largest_directories_are_ranked() {
    let tree = sample();
    let all: Vec<(String, u64, Vec<usize>)> = tree
        .largest_directories(10)
        .into_iter()
        .map(|d| (d.name, d.size, d.path))
        .collect();
    assert_eq!(all.len(), 3);
    assert_eq!(all[2], ("b".to_string(), 25, vec![1]));
    assert_eq!(all[0].1, 70);
    assert_eq!(all[1].1, 70);
    let top = tree.largest_directories(1);
    assert_eq!(top.len(), 1);
    assert_eq!(top[0].size, 70);
    assert_eq!((top[0].file_count), 2);
    assert!(tree.largest_directories(0).is_empty());
}

#[test]
fn folders_by_extension_are_ranked() {
    let tree = sample();
    let logs: Vec<(Vec<usize>, u64, u64)> = tree
        .folders_by_extension("log", 10)
        .into_iter()
        .map(|d| (d.path, d.ext_bytes, d.ext_count))
        .collect();
    assert_eq!(logs.len(), 2);
    assert!(logs.contains(&(vec![0], 30, 1)));
    assert!(logs.contains(&(vec![0, 0], 30, 1)));
    let none = tree.folders_by_extension("(no ext)", 10);
    assert_eq!(none.len(), 1);
    assert_eq!(none[0].name, "b");
    assert!(tree.folders_by_extension("zip", 10).is_empty());
    assert_eq!(tree.folders_by_extension("txt", 1)[0].ext_bytes, 40);
}

#[test]
fn folders_with_empty_files_of_the_type_are_listed() {
    let mut tree = sample();
    tree.root = folder("/r", vec![folder("a", vec![file("empty.log", 0)])]);
    let logs = tree.folders_by_extension("log", 10);
    assert_eq!(logs.len(), 1);
    assert_eq!((logs[0].ext_bytes, logs[0].ext_count), (0, 1));
}

#[test]
fn all_files_largest_first() {
    let tree = sample();
    let names: Vec<String> = tree.all_files().into_iter().map(|f| f.name).collect();
    assert_eq!(names, vec!["1.txt", "2.log", "3.txt", "4.log", "none"]);
    for f in tree.all_files() {
        let n = tree.root.resolve_path(&f.path).expect("there");
        assert_eq!((n.name.as_str(), n.size), (f.name.as_str(), f.size));
    }
}

#[test]
fn counting_one_by_one() {
    let tree = sample();
    assert_eq!(tree.root.count_all(), Some((105, 5)));
    let huge = folder("d", Vec::new());
    assert_eq!(huge.count_all(), Some((0, 0)));
    let over = FileNode {
        children: vec![file("a", u64::MAX), file("b", 1)],
        ..folder("d", Vec::new())
    };
    assert_eq!(over.count_all(), None);
}

#[test]
fn removing_a_child_leaves_the_others_in_order() {
    let mut tree = sample();
    let _ = tree.root.remove_child(1);
    let sizes: Vec<u64> = tree.root.children.iter().map(|c| c.size).collect();
    assert_eq!(sizes, vec![70, 10]);
}

#[test]
fn removing_deeper_can_put_folders_out_of_order() {
    let mut tree = sample();
    let _ = tree.remove_at_path(&[0, 0]);
    let sizes: Vec<u64> = tree.root.children.iter().map(|c| c.size).collect();
    assert_eq!(sizes, vec![0, 25, 10]);
}

#[test]
fn every_directory_is_listed_once() {
    let tree = sample();
    let mut paths: Vec<Vec<usize>> =
        tree.largest_directories(100).into_iter().map(|d| d.path).collect();
    paths.sort();
    assert_eq!(paths, vec![vec![0], vec![0, 0], vec![1]]);
    for d in tree.largest_directories(100) {
        let n = tree.root.resolve_path(&d.path).expect("there");
        assert!(n.is_dir);
        assert_eq!(
            (n.name.as_str(), n.size, n.file_count, n.dir_count),
            (d.name.as_str(), d.size, d.file_count, d.dir_count)
        );
    }
}

#[test]
fn the_type_filter_agrees_with_the_statistics() {
    let mut tree = sample();
    tree.rebuild_extensions();
    for stat in &tree.extensions {
        let whole = FileTree {
            root: folder("top", vec![sample().root]),
            root_path: "/".to_string(),
            extensions: Vec::new(),
            permission_denied: 0,
            size_approximate: false,
        };
        let ranked = whole.folders_by_extension(&stat.ext, 1);
        assert_eq!((ranked[0].ext_bytes, ranked[0].ext_count), (stat.bytes, stat.count));
    }
}

#[test]
fn every_file_and_folder_of_a_type_is_listed_once() {
    let tree = sample();
    let mut paths: Vec<Vec<usize>> = tree.all_files().into_iter().map(|f| f.path).collect();
    let all = paths.len();
    paths.sort();
    paths.dedup();
    assert_eq!((paths.len(), all), (5, 5));
    let mut paths: Vec<Vec<usize>> =
        tree.folders_by_extension("txt", 100).into_iter().map(|d| d.path).collect();
    let all = paths.len();
    paths.sort();
    paths.dedup();
    assert_eq!((paths.len(), all), (3, 3));
}
