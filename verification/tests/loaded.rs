use macdirstat::breadcrumb::{build_crumbs, elide, path_components, volume_label, Crumb};
use macdirstat::format::FileCount;
use macdirstat::loaded::{
    next_selection_after_delete, CardDetail, Command, ContextEffect, DeleteChoice, DeleteTarget,
    LoadedState, NavIntent, ViewMode, Volume,
};
use macdirstat::model::node::FileNode;
use macdirstat::model::tree::FileTree;
use macdirstat::ui::tree_view::{visible_rows, Row, TreeViewState};
use macdirstat::ui::ContextAction;

fn file(name: &str, size: u64) -> FileNode {
    FileNode {
        name: name.to_string(),
        children: Vec::new(),
        size,
        file_count: 1,
        dir_count: 0,
        is_dir: false,
    }
}

fn folder(name: &str, children: Vec<FileNode>) -> FileNode {
    FileNode {
        name: name.to_string(),
        size: children.iter().map(|c| c.size).sum(),
        file_count: children.iter().map(|c| c.file_count).sum(),
        dir_count: 1 + children.iter().map(|c| c.dir_count).sum::<u32>(),
        is_dir: true,
        children,
    }
}

fn loaded() -> LoadedState {
    let tree = FileTree {
        root: folder(
            "/Users/me",
            vec![
                folder("a", vec![folder("deep", vec![file("1.txt", 40), file("2.log", 30)])]),
                folder("b", vec![file("3.txt", 20)]),
                file("plain", 10),
            ],
        ),
        root_path: "/Users/me".to_string(),
        extensions: Vec::new(),
        permission_denied: 0,
        size_approximate: false,
    };
    LoadedState::new(tree, None, false, false, TreeViewState::new())
}

#[test]
fn a_fresh_state() {
    let s = loaded();
    assert!(s.selected.is_none());
    assert!(s.current_dir.is_empty());
    assert_eq!(s.history, vec![Vec::<usize>::new()]);
    assert_eq!(s.history_pos, 0);
    assert!(s.view_mode == ViewMode::Treemap);
    assert!(s.largest.is_none());
    assert!(s.layout_stale && s.colors_stale);
    assert!(!s.can_go_back() && !s.can_go_forward());
}

#[test]
fn back_and_forward() {
    let mut s = loaded();
    s.layout_stale = false;
    s.navigate_to(vec![0]);
    assert!(s.layout_stale);
    s.navigate_to(vec![0, 0]);
    assert_eq!(s.history, vec![vec![], vec![0], vec![0, 0]]);
    s.go_back();
    assert_eq!(s.current_dir, vec![0]);
    assert!(s.can_go_back() && s.can_go_forward());
    s.go_forward();
    assert_eq!(s.current_dir, vec![0, 0]);
    s.go_forward();
    assert_eq!(s.current_dir, vec![0, 0]);
    s.go_back();
    s.go_back();
    s.go_back();
    assert_eq!(s.current_dir, Vec::<usize>::new());
    // Going elsewhere drops what was ahead.
    s.navigate_to(vec![1]);
    assert_eq!(s.history, vec![vec![], vec![1]]);
    assert_eq!(s.history_pos, 1);
}

#[test]
fn navigating_to_where_one_is_does_nothing() {
    let mut s = loaded();
    s.layout_stale = false;
    s.navigate_to(Vec::new());
    assert_eq!(s.history.len(), 1);
    assert!(!s.layout_stale);
}

#[test]
fn navigating_opens_the_tree_down_to_the_folder() {
    let mut s = loaded();
    assert!(!s.tree_view.expansion.is_open(&[0]));
    s.navigate_to(vec![0, 0]);
    assert!(s.tree_view.expansion.is_open(&[]));
    assert!(s.tree_view.expansion.is_open(&[0]));
    assert!(s.tree_view.expansion.is_open(&[0, 0]));
    assert!(!s.tree_view.expansion.is_open(&[1]));
    s.go_back();
    assert!(s.tree_view.expansion.is_open(&[]));
}

#[test]
fn intents() {
    let mut s = loaded();
    s.apply_nav(NavIntent::SetDir(vec![1]));
    assert_eq!(s.current_dir, vec![1]);
    s.apply_nav(NavIntent::Back);
    assert!(s.current_dir.is_empty());
    s.apply_nav(NavIntent::Forward);
    assert_eq!(s.current_dir, vec![1]);
    s.apply_nav(NavIntent::Rescan("/Users".to_string()));
    assert_eq!(s.pending_scan.as_deref(), Some("/Users"));
    assert_eq!(s.current_dir, vec![1]);
}

#[test]
fn activation() {
    let mut s = loaded();
    s.activate(vec![0]);
    assert_eq!(s.current_dir, vec![0]);
    assert_eq!(s.selected, Some(vec![0]));
    s.activate(vec![0, 0, 1]);
    assert_eq!(s.current_dir, vec![0, 0]);
    assert_eq!(s.selected, Some(vec![0, 0, 1]));
    s.activate(vec![9]);
    assert_eq!(s.current_dir, vec![0, 0]);
    assert_eq!(s.selected, Some(vec![0, 0, 1]));
}

#[test]
fn a_dangling_folder_is_left() {
    let mut s = loaded();
    s.navigate_to(vec![1]);
    s.drop_dangling_dir();
    assert_eq!(s.current_dir, vec![1]);
    s.current_dir = vec![7];
    s.layout_stale = false;
    s.tree_view.expansion.set_open(&[], false);
    s.drop_dangling_dir();
    assert!(s.current_dir.is_empty());
    assert!(s.layout_stale);
    // Rows that were closed stay closed, and the history stays.
    assert!(!s.tree_view.expansion.is_open(&[]));
    assert_eq!(s.history, vec![vec![], vec![1]]);
}

#[test]
fn the_ranking_is_made_once() {
    let mut s = loaded();
    s.ensure_largest();
    assert_eq!(s.largest.as_ref().map(|d| d.len()), Some(3));
    s.tree.root.children.clear();
    s.ensure_largest();
    assert_eq!(s.largest.as_ref().map(|d| d.len()), Some(3));
}

#[test]
fn delete_keys() {
    let mut s = loaded();
    assert!(matches!(s.delete_choice(true, false), DeleteChoice::Nothing));
    s.selected = Some(vec![1]);
    assert!(matches!(s.delete_choice(false, true), DeleteChoice::Nothing));
    match s.delete_choice(true, false) {
        DeleteChoice::Confirm(t) => {
            assert_eq!(t.fs_path, "/Users/me/b");
            assert_eq!(t.name(), "b");
            assert!(t.is_dir);
            assert_eq!((t.size, t.file_count, t.dir_count), (20, 1, 1));
        }
        _ => panic!("a confirmation was due"),
    }
    assert!(matches!(s.delete_choice(true, true), DeleteChoice::Now(_)));
    s.selected = Some(vec![5]);
    assert!(matches!(s.delete_choice(true, true), DeleteChoice::Nothing));
}

#[test]
fn names_of_targets() {
    let mut s = loaded();
    s.tree.root_path = "/".to_string();
    let t = DeleteTarget::from_selection(&s.tree, &[]).expect("the root");
    assert_eq!(t.name(), "");
    assert!(DeleteTarget::from_selection(&s.tree, &[4]).is_none());
}

#[test]
fn deleting_updates_everything() {
    let mut s = loaded();
    s.ensure_largest();
    s.layout_stale = false;
    s.colors_stale = false;
    let t = DeleteTarget::from_selection(&s.tree, &[0, 0, 0]).expect("there");
    s.apply_delete(&t);
    assert_eq!(s.tree.root.size, 60);
    assert_eq!(s.tree.root.file_count, 3);
    assert_eq!(s.tree.root.children[0].size, 30);
    assert_eq!(s.tree.root.children[0].children[0].size, 30);
    let stats: Vec<(&str, u64)> =
        s.tree.extensions.iter().map(|e| (e.ext.as_str(), e.bytes)).collect();
    assert_eq!(stats, vec![("log", 30), ("txt", 20), ("(no ext)", 10)]);
    assert_eq!(s.selected, Some(vec![0, 0, 0]));
    assert!(s.layout_stale && s.colors_stale && s.largest.is_none());
}

#[test]
fn deleting_a_child_of_the_root_counts_it_once() {
    let mut s = loaded();
    let t = DeleteTarget::from_selection(&s.tree, &[2]).expect("there");
    s.apply_delete(&t);
    assert_eq!((s.tree.root.size, s.tree.root.file_count), (90, 3));
    assert_eq!(s.selected, Some(vec![1]));
}

#[test]
fn selection_after_deleting() {
    let root = folder("r", vec![folder("a", Vec::new()), file("b", 1)]);
    assert_eq!(next_selection_after_delete(&root, &[1]), Some(vec![1]));
    assert_eq!(next_selection_after_delete(&root, &[2]), Some(vec![1]));
    assert_eq!(next_selection_after_delete(&root, &[0, 0]), Some(vec![0]));
    assert_eq!(next_selection_after_delete(&root, &[5, 0]), None);
    assert_eq!(next_selection_after_delete(&root, &[]), None);
    assert_eq!(next_selection_after_delete(&folder("r", Vec::new()), &[0]), None);
}

#[test]
fn context_menu() {
    let s = loaded();
    match s.context_effect(&[1], ContextAction::OpenInFinder) {
        ContextEffect::Open(p) => assert_eq!(p, "/Users/me/b"),
        _ => panic!("a folder is opened"),
    }
    match s.context_effect(&[1, 0], ContextAction::OpenInFinder) {
        ContextEffect::Reveal(p) => assert_eq!(p, "/Users/me/b/3.txt"),
        _ => panic!("a file is revealed"),
    }
    match s.context_effect(&[1], ContextAction::RevealInFinder) {
        ContextEffect::Reveal(p) => assert_eq!(p, "/Users/me/b"),
        _ => panic!("a folder is revealed"),
    }
    match s.context_effect(&[1, 0], ContextAction::CopyPath) {
        ContextEffect::Copy(p) => assert_eq!(p, "/Users/me/b/3.txt"),
        _ => panic!("a path is copied"),
    }
    match s.context_effect(&[1, 0], ContextAction::Delete) {
        ContextEffect::ConfirmDelete(t) => assert_eq!(t.name(), "3.txt"),
        _ => panic!("a confirmation is due"),
    }
    for action in [
        ContextAction::OpenInFinder,
        ContextAction::RevealInFinder,
        ContextAction::CopyPath,
        ContextAction::Delete,
    ] {
        assert!(matches!(s.context_effect(&[8], action), ContextEffect::Nothing));
    }
}

#[test]
fn details() {
    let mut s = loaded();
    assert!(s.info_card(true).is_none());
    s.selected = Some(vec![0]);
    assert!(s.info_card(false).is_none());
    let card = s.info_card(true).expect("a card");
    assert_eq!((card.name.as_str(), card.size, card.path.as_str()), ("a", 70, "/Users/me/a"));
    match card.detail {
        CardDetail::Folder(FileCount::Exact(files), FileCount::Exact(dirs)) => {
            assert_eq!((files.as_str(), dirs.as_str()), ("2", "2"));
        }
        _ => panic!("a folder"),
    }
    s.selected = Some(vec![1, 0]);
    match s.info_card(true).expect("a card").detail {
        CardDetail::File(kind) => assert_eq!(kind, ".txt file"),
        _ => panic!("a file"),
    }
    s.selected = Some(vec![2]);
    match s.info_card(true).expect("a card").detail {
        CardDetail::File(kind) => assert_eq!(kind, "File"),
        _ => panic!("a file"),
    }
    s.selected = Some(vec![6]);
    assert!(s.info_card(true).is_none());
}

#[test]
fn commands() {
    let mut s = loaded();
    assert!(matches!(s.take_command(false, false, None), Command::Nothing));
    assert!(matches!(s.take_command(true, false, None), Command::Refresh));
    s.pending_refresh = true;
    assert!(matches!(s.take_command(false, false, None), Command::Refresh));
    assert!(!s.pending_refresh);
    s.request_rescan();
    match s.take_command(true, false, None) {
        Command::Scan(p) => assert_eq!(p, "/Users/me"),
        _ => panic!("a scan comes first"),
    }
    assert!(s.pending_scan.is_none());
    s.request_rescan();
    match s.take_command(false, true, Some("/picked".to_string())) {
        Command::Scan(p) => assert_eq!(p, "/picked"),
        _ => panic!("the picked folder is scanned"),
    }
    assert!(s.pending_scan.is_some());
    // The dialog was cancelled.
    assert!(matches!(s.take_command(false, true, None), Command::Nothing));
}

#[test]
fn settings_request() {
    let mut s = loaded();
    assert!(!s.take_settings_request());
    s.open_settings_requested = true;
    assert!(s.take_settings_request());
    assert!(!s.take_settings_request());
}

fn crumb(c: &Crumb) -> (String, String) {
    let to = match &c.intent {
        NavIntent::SetDir(d) => format!("dir {d:?}"),
        NavIntent::Rescan(p) => format!("scan {p}"),
        NavIntent::Back => "back".to_string(),
        NavIntent::Forward => "forward".to_string(),
    };
    (c.label.clone(), to)
}

#[test]
fn crumbs_above_and_below_the_root() {
    let s = loaded();
    let crumbs = build_crumbs("HD".to_string(), "/Users/me", &s.tree.root, &[0, 0]);
    let got: Vec<(String, String)> = crumbs.iter().map(crumb).collect();
    let want: Vec<(String, String)> = [
        ("HD", "scan /"),
        ("Users", "scan /Users"),
        ("me", "dir []"),
        ("a", "dir [0]"),
        ("deep", "dir [0, 0]"),
    ]
    .iter()
    .map(|(a, b)| (a.to_string(), b.to_string()))
    .collect();
    assert_eq!(got, want);
}

#[test]
fn crumbs_of_the_whole_disk() {
    let s = loaded();
    let crumbs = build_crumbs("HD".to_string(), "/", &s.tree.root, &[1, 9]);
    let got: Vec<(String, String)> = crumbs.iter().map(crumb).collect();
    assert_eq!(
        got,
        vec![
            ("HD".to_string(), "dir []".to_string()),
            ("b".to_string(), "dir [1]".to_string()),
        ]
    );
}

#[test]
fn crumbs_are_elided() {
    assert_eq!(elide(0), Vec::<Option<usize>>::new());
    assert_eq!(elide(5), vec![Some(0), Some(1), Some(2), Some(3), Some(4)]);
    assert_eq!(elide(6), vec![Some(0), None, Some(3), Some(4), Some(5)]);
}

#[test]
fn components_of_paths() {
    assert_eq!(path_components("//a/./b/"), vec!["a", ".", "b"]);
    assert!(path_components("/").is_empty());
    assert_eq!(volume_label(None), "Macintosh HD");
    let v = Volume { free: 1, total: 2, name: "Backup".to_string() };
    assert_eq!(volume_label(Some(v.name.as_str())), "Backup");
}

#[test]
fn what_is_selected_after_deleting_is_there() {
    for path in [vec![0], vec![1, 0], vec![0, 0, 1], vec![2]] {
        let mut s = loaded();
        let t = DeleteTarget::from_selection(&s.tree, &path).expect("there");
        s.apply_delete(&t);
        let next = s.selected.as_ref().expect("something is left");
        assert!(s.tree.root.resolve_path(next).is_some());
    }
}

#[test]
fn navigating_shows_the_folder_in_the_tree() {
    let mut s = loaded();
    s.navigate_to(vec![0, 0]);
    let rows = visible_rows(&s.tree.root, &s.tree_view.expansion);
    assert!(rows.iter().any(|r| matches!(r, Row::Item(p) if *p == vec![0, 0])));
    s.go_back();
    let rows = visible_rows(&s.tree.root, &s.tree_view.expansion);
    assert!(rows.iter().any(|r| matches!(r, Row::Item(p) if p.is_empty())));
}

#[test]
fn folders_stay_open_over_a_rescan() {
    let mut s = loaded();
    s.tree_view.expansion.set_open(&[0], true);
    s.tree_view.expansion.set_open(&[], false);
    s.selected = Some(vec![1]);
    assert!(s.tree_view.follow_selection(&s.selected));
    let LoadedState { tree, tree_view, .. } = s;
    let again = LoadedState::new(tree, None, false, false, tree_view);
    assert!(again.tree_view.expansion.is_open(&[0]));
    assert_eq!(again.tree_view.last_expanded, Some(vec![1]));
    assert!(again.selected.is_none());
}
