use rustdirstat::tree::{add_child, entry_of, neighbors, new_tree, EntryData, Tree};
use rustdirstat::tree_edit::{remove_below, remove_node_from_tree, remove_subtree, subtree_post_order};

fn dir(name: &str, size: u128, count: u64) -> EntryData {
    EntryData { name: name.to_string(), size, entry_count: Some(count), is_dir: true }
}

fn file(name: &str, size: u128) -> EntryData {
    EntryData { name: name.to_string(), size, entry_count: None, is_dir: false }
}

fn sample() -> (Tree, [u32; 5]) {
    let mut t = new_tree();
    let root = add_child(&mut t, None, dir("/data", 180, 4));
    let a = add_child(&mut t, Some(root), dir("a", 150, 2));
    let f1 = add_child(&mut t, Some(a), file("x.TXT", 100));
    let f2 = add_child(&mut t, Some(a), file("y.rs", 50));
    let b = add_child(&mut t, Some(root), file("z.txt", 30));
    (t, [root, a, f1, f2, b])
}

#[test]
fn post_order_lists_children_before_parents() {
    let (t, [root, a, f1, f2, b]) = sample();
    assert_eq!(subtree_post_order(&t, root), vec![b, f2, f1, a, root]);
    assert_eq!(subtree_post_order(&t, a), vec![f2, f1, a]);
    assert_eq!(subtree_post_order(&t, b), vec![b]);
}

#[test]
fn removing_a_subtree_takes_all_its_nodes() {
    let (mut t, [root, a, f1, f2, b]) = sample();
    remove_subtree(&mut t, a);
    assert!(entry_of(&t, a).is_none());
    assert!(entry_of(&t, f1).is_none());
    assert!(entry_of(&t, f2).is_none());
    assert_eq!(neighbors(&t, root, true), vec![b]);
    // sizes are left as they were
    assert_eq!(entry_of(&t, root).unwrap().size, 180);
}

#[test]
fn removing_below_keeps_the_node() {
    let (mut t, [root, a, f1, f2, b]) = sample();
    remove_below(&mut t, root);
    assert!(entry_of(&t, root).is_some());
    for n in [a, f1, f2, b] {
        assert!(entry_of(&t, n).is_none());
    }
    assert!(neighbors(&t, root, true).is_empty());
}

#[test]
fn removing_a_file_shrinks_its_ancestors() {
    let (mut t, [root, a, f1, f2, b]) = sample();
    remove_node_from_tree(&mut t, f1);
    assert!(entry_of(&t, f1).is_none());
    let ea = entry_of(&t, a).unwrap();
    assert_eq!((ea.size, ea.entry_count), (50, Some(1)));
    let er = entry_of(&t, root).unwrap();
    assert_eq!((er.size, er.entry_count), (80, Some(3)));
    assert_eq!(neighbors(&t, a, true), vec![f2]);
    assert_eq!(entry_of(&t, b).unwrap().size, 30);
}

#[test]
fn removing_a_directory_counts_one_entry() {
    let (mut t, [root, a, f1, _, b]) = sample();
    remove_node_from_tree(&mut t, a);
    assert!(entry_of(&t, f1).is_none());
    let er = entry_of(&t, root).unwrap();
    assert_eq!((er.size, er.entry_count), (30, Some(3)));
    assert_eq!(neighbors(&t, root, true), vec![b]);
}

#[test]
fn sizes_do_not_go_below_zero() {
    let mut t = new_tree();
    let root = add_child(&mut t, None, dir("/r", 10, 0));
    let big = add_child(&mut t, Some(root), file("big", 25));
    remove_node_from_tree(&mut t, big);
    let er = entry_of(&t, root).unwrap();
    assert_eq!((er.size, er.entry_count), (0, Some(0)));
}

#[test]
fn removing_a_missing_node_changes_nothing() {
    let (mut t, [root, a, _, _, b]) = sample();
    remove_node_from_tree(&mut t, 999);
    assert_eq!(entry_of(&t, root).unwrap().size, 180);
    assert_eq!(neighbors(&t, root, true), vec![b, a]);
}

fn sizes_add_up(t: &Tree, n: u32) -> bool {
    let e = entry_of(t, n).unwrap();
    let kids = neighbors(t, n, true);
    let own = if e.is_dir || e.entry_count.is_some() || !kids.is_empty() {
        e.size == kids.iter().map(|&c| entry_of(t, c).unwrap().size).sum::<u128>()
    } else {
        true
    };
    own && kids.iter().all(|&c| sizes_add_up(t, c))
}

#[test]
fn removal_keeps_directory_sizes_adding_up() {
    let (mut t, [root, a, f1, _, b]) = sample();
    assert!(sizes_add_up(&t, root));
    remove_node_from_tree(&mut t, f1);
    assert!(sizes_add_up(&t, root));
    remove_node_from_tree(&mut t, b);
    assert!(sizes_add_up(&t, root));
    remove_node_from_tree(&mut t, a);
    assert!(sizes_add_up(&t, root));
    assert_eq!(entry_of(&t, root).unwrap().size, 0);
}
