use macdirstat::model::node::FileNode;
use macdirstat::model::report::{DirSummary, FileSummary};
use macdirstat::model::tree::ExtStat;
use macdirstat::ui::files_view::{find_files, find_types, is_found, search_query, update_filter};
use macdirstat::ui::largest_view::{bar_size, row_counts, row_title};
use macdirstat::ui::sunburst_view::{center_activation, center_name, dir_color, truncate};
use macdirstat::ui::tree_view::{
    alternate_channel, display_name, move_selection, visible_rows, Expansion, Row, TreeViewState,
    MAX_RENDERED_ITEMS,
};
use macdirstat::ui::treemap_view::{
    absolute_path, build_path, click_selection, hit_path, selection_in_view, view_root,
};

fn file(name: &str) -> FileNode {
    FileNode {
        name: name.to_string(),
        children: Vec::new(),
        size: 1,
        file_count: 1,
        dir_count: 0,
        is_dir: false,
    }
}

fn folder(name: &str, children: Vec<FileNode>) -> FileNode {
    FileNode {
        name: name.to_string(),
        size: 1,
        file_count: 1,
        dir_count: 1,
        is_dir: true,
        children,
    }
}

fn root() -> FileNode {
    folder(
        "/Users/me",
        vec![
            folder("a", vec![folder("deep", vec![file("x")])]),
            folder("empty", Vec::new()),
            file("b"),
        ],
    )
}

fn texts(rows: &[Row]) -> Vec<String> {
    rows.iter()
        .map(|r| match r {
            Row::Item(p) => format!("{p:?}"),
            Row::More(n) => format!("{n} more"),
        })
        .collect()
}

#[test]
fn only_the_root_is_open_at_first() {
    let e = Expansion::new();
    assert!(e.is_open(&[]));
    assert!(!e.is_open(&[0]));
    assert_eq!(texts(&visible_rows(&root(), &e)), vec!["[]", "[0]", "[1]", "[2]"]);
}

#[test]
fn folders_open_and_close() {
    let mut e = Expansion::new();
    e.set_open(&[0], true);
    assert_eq!(texts(&visible_rows(&root(), &e)), vec!["[]", "[0]", "[0, 0]", "[1]", "[2]"]);
    e.set_open(&[0], false);
    e.set_open(&[], false);
    assert_eq!(texts(&visible_rows(&root(), &e)), vec!["[]"]);
    e.set_open(&[], true);
    assert!(!e.is_open(&[0]));
}

#[test]
fn expanding_to_a_node_shows_it() {
    let mut e = Expansion::new();
    e.set_open(&[], false);
    e.expand_to_path(&[0, 0, 0]);
    assert!(e.is_open(&[]) && e.is_open(&[0]) && e.is_open(&[0, 0]));
    assert!(!e.is_open(&[0, 0, 0]));
    assert!(texts(&visible_rows(&root(), &e)).contains(&"[0, 0, 0]".to_string()));
}

#[test]
fn the_tree_is_cut_off_at_its_limit() {
    let many = |n: usize| (0..n).map(|i| file(&format!("f{i}"))).collect::<Vec<FileNode>>();
    let mut e = Expansion::new();
    e.set_open(&[0], true);
    let tree = folder("r", vec![folder("a", many(3000)), file("z"), file("y")]);
    let rows = visible_rows(&tree, &e);
    let items = rows.iter().filter(|r| matches!(r, Row::Item(_))).count();
    assert_eq!(items, MAX_RENDERED_ITEMS);
    assert_eq!(MAX_RENDERED_ITEMS, 2000);
    let tail = texts(&rows[rows.len() - 2..]);
    assert_eq!(tail, vec!["1002 more", "2 more"]);
}

#[test]
fn a_tree_that_just_fits_is_shown_whole() {
    let kids: Vec<FileNode> = (0..1999).map(|i| file(&format!("f{i}"))).collect();
    let rows = visible_rows(&folder("r", kids), &Expansion::new());
    assert_eq!(rows.len(), 2000);
    assert!(rows.iter().all(|r| matches!(r, Row::Item(_))));
}

#[test]
fn arrow_keys() {
    let rows = visible_rows(&root(), &Expansion::new());
    assert_eq!(move_selection(&rows, &None, true), Some(vec![]));
    assert_eq!(move_selection(&rows, &Some(vec![]), true), Some(vec![0]));
    assert_eq!(move_selection(&rows, &Some(vec![0]), false), Some(vec![]));
    assert_eq!(move_selection(&rows, &Some(vec![]), false), Some(vec![]));
    assert_eq!(move_selection(&rows, &Some(vec![2]), true), Some(vec![2]));
    // What is selected is in a closed folder.
    assert_eq!(move_selection(&rows, &Some(vec![0, 0]), true), Some(vec![]));
    assert_eq!(move_selection(&Vec::new(), &Some(vec![0]), true), Some(vec![0]));
    assert_eq!(move_selection(&Vec::new(), &None, true), None);
    let down = move_selection(&rows, &Some(vec![1]), true);
    assert_eq!(move_selection(&rows, &down, false), Some(vec![1]));
}

#[test]
fn the_tree_follows_the_selection_once() {
    let mut s = TreeViewState::new();
    assert!(!s.follow_selection(&None));
    assert!(s.follow_selection(&Some(vec![0, 0])));
    assert!(s.expansion.is_open(&[0]));
    // Closed by hand, the folder stays closed.
    s.expansion.set_open(&[0], false);
    assert!(!s.follow_selection(&Some(vec![0, 0])));
    assert!(!s.expansion.is_open(&[0]));
    assert!(s.follow_selection(&None));
    assert!(s.last_expanded.is_none());
}

#[test]
fn names_in_the_tree() {
    assert_eq!(display_name(&root(), 0), "me");
    assert_eq!(display_name(&file("a/b"), 1), "a/b");
    assert_eq!(display_name(&file("/"), 0), "");
}

#[test]
fn row_colors() {
    assert_eq!(alternate_channel(38, true), 46);
    assert_eq!(alternate_channel(236, false), 226);
    assert_eq!(alternate_channel(250, true), 255);
    assert_eq!(alternate_channel(5, false), 0);
}

#[test]
fn the_treemap_falls_back_to_the_root() {
    assert_eq!(view_root(&root(), &[0, 0]), vec![0, 0]);
    assert_eq!(view_root(&root(), &[5]), Vec::<usize>::new());
}

#[test]
fn clicks_in_the_treemap() {
    let sel = Some(vec![2]);
    assert_eq!(absolute_path(&[0], &[1, 2]), vec![0, 1, 2]);
    assert_eq!(click_selection(&[0], &Some(vec![1]), &sel), Some(vec![0, 1]));
    assert_eq!(click_selection(&[0], &None, &sel), sel);
    assert_eq!(click_selection(&[], &Some(vec![]), &sel), sel);
    assert_eq!(click_selection(&[0], &Some(vec![]), &sel), None);
    assert_eq!(click_selection(&[0, 3], &Some(vec![]), &sel), Some(vec![0]));
    assert_eq!(hit_path(&[0], &Some(vec![1])), Some(vec![0, 1]));
    assert_eq!(hit_path(&[0], &Some(vec![])), None);
    assert_eq!(hit_path(&[0], &None), None);
}

#[test]
fn the_selection_within_the_view() {
    assert_eq!(selection_in_view(&[0], &[0, 1]), Some(vec![1]));
    assert_eq!(selection_in_view(&[0], &[0]), Some(vec![]));
    assert_eq!(selection_in_view(&[0], &[1, 1]), None);
    assert_eq!(selection_in_view(&[0, 1], &[0]), None);
    let r = root();
    let base = r.resolve_path(&[0]).expect("a");
    assert_eq!(
        base.resolve_path(&[0, 0]).map(|n| n.name.clone()),
        r.resolve_path(&absolute_path(&[0], &[0, 0])).map(|n| n.name.clone())
    );
}

#[test]
fn tooltip_paths() {
    assert_eq!(build_path(&root(), &[0, 0, 0]), "/Users/me/a/deep/x");
    assert_eq!(build_path(&root(), &[]), "/Users/me");
    assert_eq!(build_path(&root(), &[9, 1]), "/Users/me/empty");
}

#[test]
fn sunburst_texts() {
    assert_eq!(truncate("short", 18), "short");
    assert_eq!(truncate("exactly", 7), "exactly");
    assert_eq!(truncate("too long", 4), "too\u{2026}");
    assert_eq!(truncate("", 0), "");
    assert_eq!(center_name(&root(), &[]), "me");
    assert_eq!(center_name(&file("a/b"), &[0]), "a/b");
}

#[test]
fn sunburst_colors() {
    assert_eq!(dir_color(0), (70, 92, 78));
    assert_eq!(dir_color(1), (76, 101, 84));
    assert_eq!(dir_color(6), (106, 146, 114));
    assert_eq!(dir_color(60), (106, 146, 114));
}

#[test]
fn the_center_leads_up() {
    assert_eq!(center_activation(&[]), None);
    assert_eq!(center_activation(&[3]), Some(vec![]));
    assert_eq!(center_activation(&[3, 4]), Some(vec![3]));
}

fn dir(size: u64) -> DirSummary {
    DirSummary { path: Vec::new(), name: "d".to_string(), size, file_count: 12, dir_count: 3 }
}

#[test]
fn rows_of_the_largest_folders() {
    assert_eq!(bar_size(&Vec::new()), 1);
    assert_eq!(bar_size(&vec![dir(0)]), 1);
    assert_eq!(bar_size(&vec![dir(5), dir(9), dir(7)]), 9);
    assert_eq!(row_title(0, "Music"), "1.  Music");
    assert_eq!(row_counts(&dir(1)), "12 files \u{2022} 3 dirs");
}

fn named(name: &str) -> FileSummary {
    FileSummary { path: Vec::new(), name: name.to_string(), size: 0 }
}

#[test]
fn searching_files() {
    assert_eq!(search_query("  ReadMe \n"), "readme");
    assert_eq!(search_query("\u{c4}rger"), "\u{e4}rger");
    assert!(is_found("readme.md", "me"));
    assert!(is_found("x", ""));
    assert!(!is_found("x", "xy"));
    let files = vec![named("README.md"), named("main.rs"), named("Theme.css")];
    assert_eq!(find_files(&files, "me"), vec![0, 2]);
    assert_eq!(find_files(&files, ""), vec![0, 1, 2]);
    assert!(find_files(&files, "zip").is_empty());
}

#[test]
fn the_filter_is_kept_while_the_query_stays() {
    let files = vec![named("README.md"), named("main.rs")];
    let mut first = update_filter(None, &files, "MD");
    assert_eq!(first.query, "md");
    assert_eq!(first.indices, vec![0]);
    // The vector is handed on, not made anew.
    first.indices.reserve(100);
    let room = first.indices.capacity();
    let second = update_filter(Some(first), &files, " md ");
    assert_eq!(second.indices, vec![0]);
    assert_eq!(second.indices.capacity(), room);
    let third = update_filter(Some(second), &files, "rs");
    assert_eq!(third.indices, vec![1]);
}

#[test]
fn searching_file_types() {
    let stat = |ext: &str| ExtStat { ext: ext.to_string(), bytes: 1, count: 1 };
    let types = vec![stat("JPG"), stat("png"), stat("(no ext)")];
    assert_eq!(find_types(&types, "jp"), vec![0]);
    assert_eq!(find_types(&types, "  "), vec![0, 1, 2]);
    assert_eq!(find_types(&types, "EXT"), vec![2]);
}

#[test]
fn no_node_has_two_rows() {
    let mut e = Expansion::new();
    e.expand_to_path(&[0, 0, 0]);
    let mut shown = texts(&visible_rows(&root(), &e));
    let all = shown.len();
    shown.sort();
    shown.dedup();
    assert_eq!(shown.len(), all);
    assert_eq!(all, 6);
}
