use canopy::builder::{build_tree, parse_export_format, ExportFormat, TreeError};
use canopy::fsmodel::FsNode;
use canopy::render::{format_size, render_tree, render_tree_with_icons};
use canopy::tree::{collapse_tree, TreeNode};

fn file(name: &str, size: u64) -> FsNode {
    FsNode {
        name: name.to_string(),
        is_dir: false,
        size: Some(size),
        readable: true,
        entries: Vec::new(),
    }
}

fn dir(name: &str, entries: Vec<FsNode>) -> FsNode {
    FsNode { name: name.to_string(), is_dir: true, size: None, readable: true, entries }
}

fn tnode(name: &str, is_dir: bool, size: Option<u64>, children: Vec<TreeNode>) -> TreeNode {
    TreeNode { name: name.to_string(), is_dir, size, children }
}

fn tree_eq(a: &TreeNode, b: &TreeNode) -> bool {
    if a.name != b.name || a.is_dir != b.is_dir || a.size != b.size {
        return false;
    }
    if a.children.len() != b.children.len() {
        return false;
    }
    for i in 0..a.children.len() {
        if !tree_eq(&a.children[i], &b.children[i]) {
            return false;
        }
    }
    true
}

fn count_files(t: &TreeNode) -> usize {
    if !t.is_dir {
        return 1;
    }
    let mut n = 0;
    for c in &t.children {
        n += count_files(c);
    }
    n
}

#[test]
fn text_render_scenario() {
    let root = dir(
        "root",
        vec![dir("a", vec![file("x.txt", 10)]), dir("b", vec![file("y.rs", 2048)])],
    );
    let tree = build_tree(&root, None, false, None).unwrap();
    let lines = render_tree(&tree);
    assert_eq!(
        lines,
        vec![
            "root".to_string(),
            "├── a".to_string(),
            "│   └── x.txt (10B)".to_string(),
            "└── b".to_string(),
            "    └── y.rs (2.0K)".to_string(),
        ]
    );
}

#[test]
fn decorated_render_carries_icons() {
    let root = dir(
        "root",
        vec![dir("a", vec![file("x.txt", 10)]), dir("b", vec![file("y.rs", 2048)])],
    );
    let tree = build_tree(&root, None, false, None).unwrap();
    let lines = render_tree_with_icons(&tree);
    assert_eq!(
        lines,
        vec![
            "root".to_string(),
            "├── [DIR] a".to_string(),
            "│   └── [.txt] x.txt (10B)".to_string(),
            "└── [DIR] b".to_string(),
            "    └── [.rs] y.rs (2.0K)".to_string(),
        ]
    );
}

#[test]
fn file_count_matches_snapshot() {
    let root = dir(
        "r",
        vec![
            dir("sub", vec![file(".hidden", 1), file("b.txt", 2), dir("deep", vec![file("c", 3)])]),
            file("top.rs", 4),
        ],
    );
    let tree = build_tree(&root, None, true, None).unwrap();
    assert_eq!(count_files(&tree), 4);
}

#[test]
fn depth_limit_leaves_stubs() {
    let root = dir("r", vec![dir("a", vec![dir("b", vec![file("f", 1)])])]);
    let tree = build_tree(&root, Some(1), true, None).unwrap();
    // depth 1: `a` is expanded once, `b` is present but unexpanded
    assert_eq!(tree.children.len(), 1);
    let a = &tree.children[0];
    assert_eq!(a.name, "a");
    assert_eq!(a.children.len(), 1);
    let b = &a.children[0];
    assert_eq!(b.name, "b");
    assert!(b.is_dir);
    assert!(b.children.is_empty());
}

#[test]
fn depth_zero_lists_but_never_expands() {
    let root = dir("r", vec![dir("a", vec![file("f", 1)]), file("g", 2)]);
    let tree = build_tree(&root, Some(0), true, None).unwrap();
    assert_eq!(tree.children.len(), 2);
    assert!(tree.children.iter().all(|c| c.children.is_empty()));
}

#[test]
fn filter_keeps_matching_files_and_all_dirs() {
    let root = dir(
        "r",
        vec![
            dir("zzz", vec![file("inner.rs", 1), file("inner.txt", 2)]),
            file("a.rs", 3),
            file("b.py", 4),
            file(".c.rs", 5),
        ],
    );
    let tree = build_tree(&root, None, false, Some("*.rs")).unwrap();
    let names: Vec<&str> = tree.children.iter().map(|c| c.name.as_str()).collect();
    assert_eq!(names, vec!["a.rs", "zzz"]);
    let zzz = &tree.children[1];
    let inner: Vec<&str> = zzz.children.iter().map(|c| c.name.as_str()).collect();
    assert_eq!(inner, vec!["inner.rs"]);
}

#[test]
fn hidden_entries_dropped_unless_shown() {
    let root = dir("r", vec![file(".dot", 1), dir(".dotdir", vec![]), file("plain", 2)]);
    let without = build_tree(&root, None, false, None).unwrap();
    assert_eq!(without.children.len(), 1);
    assert_eq!(without.children[0].name, "plain");
    let with = build_tree(&root, None, true, None).unwrap();
    assert_eq!(with.children.len(), 3);
}

#[test]
fn invalid_glob_matches_everything() {
    let root = dir("r", vec![file("a.rs", 1), file("b.py", 2)]);
    let tree = build_tree(&root, None, true, Some("[")).unwrap();
    assert_eq!(tree.children.len(), 2);
}

#[test]
fn children_sorted_by_name() {
    let root = dir(
        "r",
        vec![file("delta", 1), dir("alpha", vec![]), file("Bravo", 2), dir("charlie", vec![])],
    );
    let tree = build_tree(&root, None, true, None).unwrap();
    let names: Vec<&str> = tree.children.iter().map(|c| c.name.as_str()).collect();
    // byte/codepoint order: uppercase before lowercase
    assert_eq!(names, vec!["Bravo", "alpha", "charlie", "delta"]);
}

#[test]
fn unreadable_root_is_fatal() {
    let root = FsNode {
        name: "locked".to_string(),
        is_dir: true,
        size: None,
        readable: false,
        entries: Vec::new(),
    };
    let r = build_tree(&root, None, true, None);
    assert!(matches!(r, Err(TreeError::RootUnreadable)));
}

#[test]
fn file_root_is_fatal() {
    let root = file("f", 1);
    assert!(matches!(build_tree(&root, None, true, None), Err(TreeError::RootUnreadable)));
}

#[test]
fn unreadable_subdirectory_degrades_to_empty() {
    let mut locked = dir("locked", vec![file("invisible", 1)]);
    locked.readable = false;
    locked.entries = Vec::new();
    let root = dir("r", vec![locked, file("seen", 2)]);
    let tree = build_tree(&root, None, true, None).unwrap();
    assert_eq!(tree.children.len(), 2);
    assert_eq!(tree.children[0].name, "locked");
    assert!(tree.children[0].is_dir);
    assert!(tree.children[0].children.is_empty());
}

#[test]
fn collapse_merges_single_dir_chain() {
    let t = tnode(
        "root",
        true,
        None,
        vec![tnode(
            "a",
            true,
            None,
            vec![tnode("b", true, None, vec![tnode("leaf.txt", false, Some(7), vec![])])],
        )],
    );
    let c = collapse_tree(t);
    assert_eq!(c.name, "root/a/b");
    assert!(c.is_dir);
    assert_eq!(c.children.len(), 1);
    assert_eq!(c.children[0].name, "leaf.txt");
}

#[test]
fn collapse_is_idempotent() {
    let t = tnode(
        "root",
        true,
        None,
        vec![
            tnode("a", true, None, vec![tnode("b", true, None, vec![])]),
            tnode("f", false, Some(1), vec![]),
        ],
    );
    let t2 = tnode(
        "root",
        true,
        None,
        vec![
            tnode("a", true, None, vec![tnode("b", true, None, vec![])]),
            tnode("f", false, Some(1), vec![]),
        ],
    );
    let once = collapse_tree(t);
    let once_copy = collapse_tree(t2);
    let twice = collapse_tree(once_copy);
    assert!(tree_eq(&once, &twice));
}

#[test]
fn collapse_leaves_file_child_alone() {
    let t = tnode("d", true, None, vec![tnode("only.txt", false, Some(1), vec![])]);
    let c = collapse_tree(t);
    assert_eq!(c.name, "d");
    assert_eq!(c.children.len(), 1);
}

#[test]
fn format_size_thresholds() {
    assert_eq!(format_size(0), "0B");
    assert_eq!(format_size(10), "10B");
    assert_eq!(format_size(1023), "1023B");
    assert_eq!(format_size(1024), "1.0K");
    assert_eq!(format_size(1536), "1.5K");
    assert_eq!(format_size(2048), "2.0K");
    assert_eq!(format_size(1996), "1.9K");
    // exact ties round to the even tenth, as {:.1} does
    assert_eq!(format_size(1280), "1.2K");
    assert_eq!(format_size(1792), "1.8K");
    assert_eq!(format_size(1048575), "1024.0K");
    assert_eq!(format_size(1048576), "1.0M");
    assert_eq!(format_size(1073741823), "1024.0M");
    assert_eq!(format_size(1073741824), "1.0G");
    assert_eq!(format_size(3221225472), "3.0G");
}

#[test]
fn export_format_names() {
    assert_eq!(parse_export_format("json"), Ok(ExportFormat::Json));
    assert_eq!(parse_export_format("csv"), Ok(ExportFormat::Csv));
    assert_eq!(parse_export_format("xml"), Err(TreeError::ExportFormatInvalid));
    assert_eq!(parse_export_format(""), Err(TreeError::ExportFormatInvalid));
}
