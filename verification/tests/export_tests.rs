use canopy::csvexport::{collect_entries, export_csv};
use canopy::json::to_json;
use canopy::jsonparse::from_json;
use canopy::names::{get_icon_for_entry, get_icon_for_name, is_executable};
use canopy::tree::TreeNode;

fn tnode(name: &str, is_dir: bool, size: Option<u64>, children: Vec<TreeNode>) -> TreeNode {
    TreeNode { name: name.to_string(), is_dir, size, children }
}

fn sample() -> TreeNode {
    tnode(
        "root",
        true,
        None,
        vec![
            tnode("a", true, None, vec![tnode("x.txt", false, Some(10), vec![])]),
            tnode("y.rs", false, Some(2048), vec![]),
        ],
    )
}

#[test]
fn csv_rows_walk_preorder() {
    let rows = collect_entries(&sample(), "");
    let got: Vec<(String, bool, Option<u64>)> =
        rows.iter().map(|r| (r.path.clone(), r.is_dir, r.size)).collect();
    assert_eq!(
        got,
        vec![
            ("root".to_string(), true, None),
            ("root/a".to_string(), true, None),
            ("root/a/x.txt".to_string(), false, Some(10)),
            ("root/y.rs".to_string(), false, Some(2048)),
        ]
    );
}

#[test]
fn csv_payload_exact() {
    let s = export_csv(&sample());
    assert_eq!(
        s,
        "path,type,size\nroot,directory,\nroot/a,directory,\nroot/a/x.txt,file,10\nroot/y.rs,file,2048\n"
    );
}

#[test]
fn csv_quotes_field_with_comma() {
    let t = tnode("a,b", false, Some(1), vec![]);
    let s = export_csv(&t);
    assert_eq!(s, "path,type,size\n\"a,b\",file,1\n");
}

#[test]
fn json_payload_exact() {
    let t = tnode("d", true, None, vec![tnode("f.txt", false, Some(5), vec![])]);
    let s = to_json(&t);
    assert_eq!(
        s,
        "{\"name\":\"d\",\"is_dir\":true,\"size\":null,\"children\":[{\"name\":\"f.txt\",\"is_dir\":false,\"size\":5,\"children\":[]}]}"
    );
}

#[test]
fn json_escapes_name() {
    let t = tnode("a\"b\\c\n", false, Some(1), vec![]);
    let s = to_json(&t);
    assert_eq!(
        s,
        "{\"name\":\"a\\\"b\\\\c\\u000a\",\"is_dir\":false,\"size\":1,\"children\":[]}"
    );
}

fn tree_eq(a: &TreeNode, b: &TreeNode) -> bool {
    if a.name != b.name || a.is_dir != b.is_dir || a.size != b.size {
        return false;
    }
    if a.children.len() != b.children.len() {
        return false;
    }
    for i in 0..a.children.len() {
        if !tree_eq(&a.children[i], &b.children[i]) {
            return false;
        }
    }
    true
}

#[test]
fn json_round_trips_through_own_parser() {
    let t = sample();
    let s = to_json(&t);
    let back = from_json(&s).unwrap();
    assert!(tree_eq(&back, &t));
}

#[test]
fn json_parser_handles_escapes_and_sizes() {
    let t = tnode(
        "we\"ird\\name",
        true,
        None,
        vec![
            tnode("tab\there", false, Some(0), vec![]),
            tnode("big", false, Some(u64::MAX), vec![]),
            tnode("lost", false, None, vec![]),
        ],
    );
    let s = to_json(&t);
    let back = from_json(&s).unwrap();
    assert!(tree_eq(&back, &t));
}

#[test]
fn json_parser_rejects_other_text() {
    assert!(from_json("").is_none());
    assert!(from_json("{}").is_none());
    assert!(from_json("{\"name\":\"a\",\"is_dir\":true,\"size\":null,\"children\":[]} ").is_none());
    assert!(from_json("[1,2,3]").is_none());
}

fn value_matches(v: &serde_json::Value, t: &TreeNode) -> bool {
    let name_ok = v.get("name").and_then(|x| x.as_str()) == Some(t.name.as_str());
    let dir_ok = v.get("is_dir").and_then(|x| x.as_bool()) == Some(t.is_dir);
    let size_ok = match t.size {
        Some(n) => v.get("size").and_then(|x| x.as_u64()) == Some(n),
        None => v.get("size").map(|x| x.is_null()) == Some(true),
    };
    let children = match v.get("children").and_then(|x| x.as_array()) {
        Some(c) => c,
        None => return false,
    };
    if children.len() != t.children.len() {
        return false;
    }
    let mut ok = name_ok && dir_ok && size_ok;
    for i in 0..children.len() {
        ok = ok && value_matches(&children[i], &t.children[i]);
    }
    ok
}

#[test]
fn json_round_trips_through_reader() {
    let t = sample();
    let s = to_json(&t);
    let v: serde_json::Value = serde_json::from_str(&s).unwrap();
    assert!(value_matches(&v, &t));
}

#[test]
fn json_round_trips_awkward_names() {
    let t = tnode(
        "we\"ird\\",
        true,
        None,
        vec![tnode("tab\there", false, Some(0), vec![])],
    );
    let s = to_json(&t);
    let v: serde_json::Value = serde_json::from_str(&s).unwrap();
    assert!(value_matches(&v, &t));
}

#[test]
fn icons_follow_extensions() {
    assert_eq!(get_icon_for_name("main.rs"), "[.rs] ");
    assert_eq!(get_icon_for_name("app.PY"), "[.py] ");
    assert_eq!(get_icon_for_name("page.html"), "[.html] ");
    assert_eq!(get_icon_for_name("tool.exe"), "[EXEC] ");
    assert_eq!(get_icon_for_name("archive.zip"), "[zip] ");
    assert_eq!(get_icon_for_name("README"), "[FILE] ");
    assert_eq!(get_icon_for_name(".bashrc"), "[FILE] ");
    assert_eq!(get_icon_for_name("run.sh"), "[sh] ");
}

#[test]
fn entry_icons_know_dirs_and_big_files() {
    assert_eq!(get_icon_for_entry("anything", true, None), "[DIR] ");
    assert_eq!(get_icon_for_entry("huge.bin", false, Some(2 * 1024 * 1024)), "[BIG] ");
    assert_eq!(get_icon_for_entry("run.sh", false, Some(10)), "[EXEC] ");
    assert_eq!(get_icon_for_entry("code.rs", false, Some(10)), "[.rs] ");
}

#[test]
fn executables_judged_by_extension() {
    assert!(is_executable("setup.exe"));
    assert!(is_executable("legacy.COM"));
    assert!(is_executable("run.bat"));
    assert!(is_executable("do.cmd"));
    assert!(!is_executable("notes.txt"));
    assert!(!is_executable("exe"));
    assert!(!is_executable(".exe"));
}
