use rustdirstat::tree::{
    add_child, ancestors, entry_of, expand_to_node, get_entry_or_panic, get_size_or_panic, neighbors,
    new_tree, node_path_names, EntryData, Tree,
};
use std::collections::HashSet;

fn dir(name: &str, size: u128, count: u64) -> EntryData {
    EntryData { name: name.to_string(), size, entry_count: Some(count), is_dir: true }
}

fn file(name: &str, size: u128) -> EntryData {
    EntryData { name: name.to_string(), size, entry_count: None, is_dir: false }
}

/// root(180) -> a(150) -> x.TXT(100), y.rs(50); root -> z.txt(30)
fn sample() -> (Tree, [u32; 5]) {
    let mut t = new_tree();
    let root = add_child(&mut t, None, dir("/data", 180, 4));
    let a = add_child(&mut t, Some(root), dir("a", 150, 2));
    let f1 = add_child(&mut t, Some(a), file("x.TXT", 100));
    let f2 = add_child(&mut t, Some(a), file("y.rs", 50));
    let b = add_child(&mut t, Some(root), file("z.txt", 30));
    (t, [root, a, f1, f2, b])
}

#[test]
fn children_are_listed_newest_first() {
    let (t, [root, a, f1, f2, b]) = sample();
    assert_eq!(neighbors(&t, root, true), vec![b, a]);
    assert_eq!(neighbors(&t, a, true), vec![f2, f1]);
    assert_eq!(neighbors(&t, f1, false), vec![a]);
    assert!(neighbors(&t, root, false).is_empty());
    assert!(neighbors(&t, 999, true).is_empty());
}

#[test]
fn entries_are_found_by_node() {
    let (t, [_, a, f1, _, _]) = sample();
    assert_eq!(entry_of(&t, f1).map(|e| e.name.clone()), Some("x.TXT".to_string()));
    assert!(entry_of(&t, 999).is_none());
    assert_eq!(get_entry_or_panic(&t, a).entry_count, Some(2));
    assert_eq!(get_size_or_panic(&t, f1), 100);
}

#[test]
fn ancestors_go_up_to_the_root() {
    let (t, [root, a, f1, _, _]) = sample();
    assert_eq!(ancestors(&t, f1), vec![a, root]);
    assert!(ancestors(&t, root).is_empty());
}

#[test]
fn expanding_to_a_node_opens_its_ancestors() {
    let (t, [root, a, f1, _, b]) = sample();
    let mut expanded = HashSet::new();
    expanded.insert(b);
    expand_to_node(&t, f1, &mut expanded);
    let want: HashSet<u32> = [b, a, root].into_iter().collect();
    assert_eq!(expanded, want);
}

#[test]
fn path_names_run_from_the_root() {
    let (t, [_, _, f1, _, _]) = sample();
    assert_eq!(
        node_path_names(&t, f1),
        Some(vec!["/data".to_string(), "a".to_string(), "x.TXT".to_string()])
    );
    assert_eq!(node_path_names(&t, 999), None);
}
