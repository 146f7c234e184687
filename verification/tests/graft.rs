use rustdirstat::graft::merge_partial_scan;
use rustdirstat::tree::{add_child, entry_of, neighbors, new_tree, EntryData, Tree};
use std::collections::HashSet;

fn dir(name: &str, size: u128, count: u64) -> EntryData {
    EntryData { name: name.to_string(), size, entry_count: Some(count), is_dir: true }
}

fn file(name: &str, size: u128) -> EntryData {
    EntryData { name: name.to_string(), size, entry_count: None, is_dir: false }
}

fn sample() -> (Tree, [u32; 5]) {
    let mut t = new_tree();
    let root = add_child(&mut t, None, dir("/data", 180, 4));
    let a = add_child(&mut t, Some(root), dir("a", 150, 2));
    let f1 = add_child(&mut t, Some(a), file("x.TXT", 100));
    let f2 = add_child(&mut t, Some(a), file("y.rs", 50));
    let b = add_child(&mut t, Some(root), file("z.txt", 30));
    (t, [root, a, f1, f2, b])
}

/// A fresh scan of `a`: a(70) -> sub(40) -> deep.md(40); a -> new.txt(30)
fn rescan() -> (Tree, [u32; 4]) {
    let mut p = new_tree();
    let top = add_child(&mut p, None, dir("/data/a", 70, 3));
    let sub = add_child(&mut p, Some(top), dir("sub", 40, 1));
    let deep = add_child(&mut p, Some(sub), file("deep.md", 40));
    let fresh = add_child(&mut p, Some(top), file("new.txt", 30));
    (p, [top, sub, deep, fresh])
}

#[test]
fn merge_replaces_the_subtree_and_fixes_sizes() {
    let (mut main, [root, a, f1, f2, b]) = sample();
    let (partial, [top, sub, deep, fresh]) = rescan();
    let mut expanded = HashSet::new();
    let map = merge_partial_scan(&mut main, a, &partial, top, &mut expanded);

    assert_eq!(map.len(), 3);
    assert!(!map.contains_key(&top));
    let new_sub = map[&sub];
    let new_deep = map[&deep];
    let new_fresh = map[&fresh];

    // the copies keep the entries and the shape
    assert_eq!(entry_of(&main, new_sub).unwrap().name, "sub");
    assert_eq!(entry_of(&main, new_deep).unwrap().size, 40);
    assert_eq!(entry_of(&main, new_fresh).unwrap().name, "new.txt");
    assert_eq!(neighbors(&main, new_sub, true), vec![new_deep]);
    assert_eq!(neighbors(&main, new_deep, false), vec![new_sub]);
    // partial lists [fresh, sub]; the copies come in the other order
    assert_eq!(neighbors(&main, a, true), vec![new_sub, new_fresh]);

    // the old entries below `a` are gone
    let old_names: Vec<String> = [f1, f2]
        .iter()
        .filter_map(|&n| entry_of(&main, n).map(|e| e.name.clone()))
        .collect();
    assert!(!old_names.contains(&"x.TXT".to_string()));
    assert!(!old_names.contains(&"y.rs".to_string()));

    // sizes: `a` takes the new size, the root moves by the difference
    assert_eq!(entry_of(&main, a).unwrap().size, 70);
    assert_eq!(entry_of(&main, root).unwrap().size, 180 - 80);
    assert_eq!(entry_of(&main, b).unwrap().size, 30);
    assert!(expanded.contains(&a));
}

#[test]
fn merge_of_a_grown_directory() {
    let (mut main, [root, a, _, _, _]) = sample();
    let mut p = new_tree();
    let top = add_child(&mut p, None, dir("/data/a", 1150, 1));
    add_child(&mut p, Some(top), file("huge.iso", 1150));
    let mut expanded = HashSet::new();
    merge_partial_scan(&mut main, a, &p, top, &mut expanded);
    assert_eq!(entry_of(&main, a).unwrap().size, 1150);
    assert_eq!(entry_of(&main, root).unwrap().size, 1180);
    assert_eq!(neighbors(&main, a, true).len(), 1);
}

#[test]
fn merge_into_a_missing_node_only_marks_it() {
    let (mut main, [root, a, _, _, b]) = sample();
    let p = new_tree();
    let mut expanded = HashSet::new();
    let map = merge_partial_scan(&mut main, 999, &p, 0, &mut expanded);
    assert!(map.is_empty());
    assert!(expanded.contains(&999));
    assert_eq!(neighbors(&main, root, true), vec![b, a]);
    assert_eq!(entry_of(&main, root).unwrap().size, 180);
}

#[test]
fn ancestor_sizes_stop_at_zero() {
    let mut main = new_tree();
    let root = add_child(&mut main, None, dir("/r", 5, 1));
    let d = add_child(&mut main, Some(root), dir("d", 100, 0));
    let mut p = new_tree();
    let top = add_child(&mut p, None, dir("/r/d", 0, 0));
    let mut expanded = HashSet::new();
    merge_partial_scan(&mut main, d, &p, top, &mut expanded);
    assert_eq!(entry_of(&main, d).unwrap().size, 0);
    assert_eq!(entry_of(&main, root).unwrap().size, 0);
}

fn sizes_add_up(t: &Tree, n: u32) -> bool {
    let e = entry_of(t, n).unwrap();
    let kids = neighbors(t, n, true);
    let own = if e.is_dir || e.entry_count.is_some() || !kids.is_empty() {
        e.size == kids.iter().map(|&c| entry_of(t, c).unwrap().size).sum::<u128>()
    } else {
        true
    };
    own && kids.iter().all(|&c| sizes_add_up(t, c))
}

#[test]
fn merge_keeps_directory_sizes_adding_up() {
    let (mut main, [root, a, _, _, _]) = sample();
    let (partial, [top, ..]) = rescan();
    assert!(sizes_add_up(&main, root));
    assert!(sizes_add_up(&partial, top));
    let mut expanded = HashSet::new();
    merge_partial_scan(&mut main, a, &partial, top, &mut expanded);
    assert!(sizes_add_up(&main, root));
}
