use rustdirstat::tree::{add_child, new_tree, EntryData, Tree};
use rustdirstat::tree_panel::collect_tree_data;
use std::collections::HashSet;

fn dir(name: &str, size: u128, count: u64) -> EntryData {
    EntryData { name: name.to_string(), size, entry_count: Some(count), is_dir: true }
}

fn file(name: &str, size: u128) -> EntryData {
    EntryData { name: name.to_string(), size, entry_count: None, is_dir: false }
}

fn sample() -> (Tree, [u32; 5]) {
    let mut t = new_tree();
    let root = add_child(&mut t, None, dir("/data", 180, 4));
    let a = add_child(&mut t, Some(root), dir("a", 150, 2));
    let f1 = add_child(&mut t, Some(a), file("x.TXT", 100));
    let f2 = add_child(&mut t, Some(a), file("y.rs", 50));
    let b = add_child(&mut t, Some(root), file("z.txt", 30));
    (t, [root, a, f1, f2, b])
}

#[test]
fn collapsed_tree_shows_only_the_root() {
    let (t, [root, ..]) = sample();
    let items = collect_tree_data(&t, root, &HashSet::new());
    assert_eq!(items.len(), 1);
    assert_eq!(items[0].node, root);
    assert!(!items[0].is_expanded);
    assert!(items[0].has_children);
    assert!(items[0].is_dir);
}

#[test]
fn expanded_nodes_show_children_largest_first() {
    let (t, [root, a, f1, f2, b]) = sample();
    let expanded: HashSet<u32> = [root, a].into_iter().collect();
    let items = collect_tree_data(&t, root, &expanded);
    let nodes: Vec<u32> = items.iter().map(|i| i.node).collect();
    assert_eq!(nodes, vec![root, a, f1, f2, b]);
    let depths: Vec<usize> = items.iter().map(|i| i.depth).collect();
    assert_eq!(depths, vec![0, 1, 2, 2, 1]);
    assert_eq!(items[2].name, "x.TXT");
    assert_eq!(items[2].size, 100);
    assert!(!items[2].is_dir);
    assert!(!items[2].has_children);
}

#[test]
fn equal_sizes_keep_the_order_of_the_edges() {
    let mut t = new_tree();
    let root = add_child(&mut t, None, dir("/r", 20, 2));
    let first = add_child(&mut t, Some(root), file("first", 10));
    let second = add_child(&mut t, Some(root), file("second", 10));
    let expanded: HashSet<u32> = [root].into_iter().collect();
    let nodes: Vec<u32> = collect_tree_data(&t, root, &expanded).iter().map(|i| i.node).collect();
    assert_eq!(nodes, vec![root, second, first]);
}

#[test]
fn a_missing_node_shows_nothing() {
    let (t, _) = sample();
    assert!(collect_tree_data(&t, 77, &HashSet::new()).is_empty());
}
