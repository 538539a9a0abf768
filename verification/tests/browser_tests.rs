use canopy::browser::{BrowserState, Command, Effect};
use canopy::lister::{list_entries, EntryInfo};

fn entry(name: &str, is_dir: bool) -> EntryInfo {
    EntryInfo { name: name.to_string(), is_dir, size: if is_dir { None } else { Some(1) } }
}

#[test]
fn browse_descend_scenario() {
    let root = vec!["root".to_string()];
    let listing = vec![entry("docs", true), entry("src", true)];
    let mut s = BrowserState::start(root, listing);
    assert_eq!(s.selected, 0);

    let eff = s.step(Command::MoveDown);
    assert_eq!(eff, Effect::Nothing);
    assert_eq!(s.selected, 1);

    let eff = s.step(Command::Enter);
    assert_eq!(eff, Effect::Relist);
    let path: Vec<&str> = s.current_path.iter().map(|p| p.as_str()).collect();
    assert_eq!(path, vec!["root", "src"]);
    assert_eq!(s.selected, 0);
    assert!(s.entries.is_empty());

    let new_listing = vec![entry("lib.rs", false), entry("main.rs", false)];
    s.set_entries(new_listing);
    assert_eq!(s.selected, 0);
    assert_eq!(s.entries.len(), 2);
    assert_eq!(s.entries[0].name, "lib.rs");
}

#[test]
fn cursor_clamps_at_both_ends() {
    let mut s = BrowserState::start(
        vec!["r".to_string()],
        vec![entry("a", false), entry("b", false)],
    );
    assert_eq!(s.step(Command::MoveUp), Effect::Nothing);
    assert_eq!(s.selected, 0);
    s.step(Command::MoveDown);
    assert_eq!(s.selected, 1);
    s.step(Command::MoveDown);
    assert_eq!(s.selected, 1);
}

#[test]
fn enter_on_file_is_a_no_op() {
    let mut s = BrowserState::start(vec!["r".to_string()], vec![entry("f.txt", false)]);
    let eff = s.step(Command::Enter);
    assert_eq!(eff, Effect::Nothing);
    assert_eq!(s.current_path.len(), 1);
    assert_eq!(s.entries.len(), 1);
}

#[test]
fn back_stops_at_browsing_root() {
    let mut s = BrowserState::start(vec!["r".to_string()], vec![entry("d", true)]);
    let eff = s.step(Command::Back);
    assert_eq!(eff, Effect::Nothing);
    assert_eq!(s.current_path.len(), 1);

    s.step(Command::Enter);
    s.set_entries(vec![]);
    assert_eq!(s.current_path.len(), 2);
    let eff = s.step(Command::Back);
    assert_eq!(eff, Effect::Relist);
    assert_eq!(s.current_path.len(), 1);
}

#[test]
fn open_and_quit_effects() {
    let mut s = BrowserState::start(vec!["r".to_string()], vec![entry("f", false)]);
    assert_eq!(s.step(Command::Open), Effect::OpenSelected);
    assert_eq!(s.step(Command::Quit), Effect::Quit);
    let mut empty = BrowserState::start(vec!["r".to_string()], vec![]);
    assert_eq!(empty.step(Command::Open), Effect::Nothing);
}

#[test]
fn empty_listing_keeps_cursor_at_zero() {
    let mut s = BrowserState::start(vec!["r".to_string()], vec![]);
    s.step(Command::MoveDown);
    assert_eq!(s.selected, 0);
    s.step(Command::MoveUp);
    assert_eq!(s.selected, 0);
}

#[test]
fn lister_orders_and_filters() {
    let raw = vec![
        entry("zeta", false),
        entry(".hidden", false),
        entry("alpha", true),
        entry("beta.rs", false),
        entry("beta.py", false),
    ];
    let out = list_entries(raw, false, Some("*.rs"));
    let names: Vec<&str> = out.iter().map(|e| e.name.as_str()).collect();
    assert_eq!(names, vec!["alpha", "beta.rs"]);
}

#[test]
fn lister_shows_hidden_when_asked() {
    let raw = vec![entry(".b", false), entry("a", false)];
    let out = list_entries(raw, true, None);
    let names: Vec<&str> = out.iter().map(|e| e.name.as_str()).collect();
    assert_eq!(names, vec![".b", "a"]);
}
