use rustdirstat::totals::total_up;
use rustdirstat::tree::{add_child, entry_of, new_tree, set_entry, EntryData, Tree};

fn dir(name: &str) -> EntryData {
    EntryData { name: name.to_string(), size: 0, entry_count: Some(0), is_dir: true }
}

fn file(name: &str, size: u128) -> EntryData {
    EntryData { name: name.to_string(), size, entry_count: None, is_dir: false }
}

fn scanned() -> (Tree, [u32; 6]) {
    let mut t = new_tree();
    let root = add_child(&mut t, None, dir("/data"));
    let a = add_child(&mut t, Some(root), dir("a"));
    let f1 = add_child(&mut t, Some(a), file("x.txt", 100));
    let f2 = add_child(&mut t, Some(a), file("y.rs", 50));
    let empty = add_child(&mut t, Some(root), dir("empty"));
    let b = add_child(&mut t, Some(root), file("z.txt", 30));
    (t, [root, a, f1, f2, empty, b])
}

fn size_and_count(t: &Tree, n: u32) -> (u128, Option<u64>) {
    let e = entry_of(t, n).unwrap();
    (e.size, e.entry_count)
}

#[test]
fn directory_sizes_are_the_sums_of_their_entries() {
    let (mut t, [root, a, f1, f2, empty, b]) = scanned();
    assert!(total_up(&mut t, root));
    assert_eq!(size_and_count(&t, root), (180, Some(5)));
    assert_eq!(size_and_count(&t, a), (150, Some(2)));
    assert_eq!(size_and_count(&t, empty), (0, Some(0)));
    assert_eq!(size_and_count(&t, f1), (100, None));
    assert_eq!(size_and_count(&t, f2), (50, None));
    assert_eq!(size_and_count(&t, b), (30, None));
    assert_eq!(entry_of(&t, a).unwrap().name, "a");
}

#[test]
fn totals_below_a_node_leave_the_rest_alone() {
    let (mut t, [root, a, _f1, _f2, _empty, _b]) = scanned();
    assert!(total_up(&mut t, a));
    assert_eq!(size_and_count(&t, a), (150, Some(2)));
    assert_eq!(size_and_count(&t, root), (0, Some(0)));
}

#[test]
fn stale_totals_are_recomputed() {
    let (mut t, [root, a, f1, _f2, _empty, _b]) = scanned();
    assert!(total_up(&mut t, root));
    set_entry(&mut t, f1, file("x.txt", 10));
    assert!(total_up(&mut t, root));
    assert_eq!(size_and_count(&t, a), (60, Some(2)));
    assert_eq!(size_and_count(&t, root), (90, Some(5)));
}

#[test]
fn totals_that_overflow_change_nothing() {
    let mut t = new_tree();
    let root = add_child(&mut t, None, dir("/big"));
    let f1 = add_child(&mut t, Some(root), file("a", u128::MAX));
    let f2 = add_child(&mut t, Some(root), file("b", 1));
    assert!(!total_up(&mut t, root));
    assert_eq!(size_and_count(&t, root), (0, Some(0)));
    assert_eq!(size_and_count(&t, f1), (u128::MAX, None));
    assert_eq!(size_and_count(&t, f2), (1, None));
}
