use rustdirstat::extension_index::{build_extension_index, ExtensionStat};
use rustdirstat::tree::{add_child, new_tree, EntryData, Tree};

fn dir(name: &str, size: u128, count: u64) -> EntryData {
    EntryData { name: name.to_string(), size, entry_count: Some(count), is_dir: true }
}

fn file(name: &str, size: u128) -> EntryData {
    EntryData { name: name.to_string(), size, entry_count: None, is_dir: false }
}

fn sample() -> (Tree, u32) {
    let mut t = new_tree();
    let root = add_child(&mut t, None, dir("/data", 260, 6));
    let a = add_child(&mut t, Some(root), dir("a", 150, 2));
    add_child(&mut t, Some(a), file("x.TXT", 100));
    add_child(&mut t, Some(a), file("y.rs", 50));
    add_child(&mut t, Some(root), file("z.txt", 30));
    add_child(&mut t, Some(root), file("Makefile", 70));
    add_child(&mut t, Some(root), file(".bashrc", 10));
    (t, root)
}

#[test]
fn files_are_counted_by_lowercase_extension() {
    let (t, root) = sample();
    let index = build_extension_index(&t, root);
    assert_eq!(index.stat_of(&"txt".to_string()), Some(ExtensionStat { total_bytes: 130, file_count: 2 }));
    assert_eq!(index.stat_of(&"rs".to_string()), Some(ExtensionStat { total_bytes: 50, file_count: 1 }));
    // names without an extension, dot files included, count under ""
    assert_eq!(index.stat_of(&String::new()), Some(ExtensionStat { total_bytes: 80, file_count: 2 }));
    assert_eq!(index.stat_of(&"TXT".to_string()), None);
    assert_eq!(index.by_ext.len(), 3);
}

#[test]
fn extensions_are_ordered_by_total_size() {
    let (t, root) = sample();
    let index = build_extension_index(&t, root);
    assert_eq!(index.ordered, vec!["txt".to_string(), String::new(), "rs".to_string()]);
}

#[test]
fn a_lone_file_is_its_own_index() {
    let mut t = new_tree();
    let f = add_child(&mut t, None, file("photo.JPEG", 7));
    let index = build_extension_index(&t, f);
    assert_eq!(index.ordered, vec!["jpeg".to_string()]);
    assert_eq!(index.stat_of(&"jpeg".to_string()), Some(ExtensionStat { total_bytes: 7, file_count: 1 }));
}

#[test]
fn a_missing_root_gives_an_empty_index() {
    let t = new_tree();
    let index = build_extension_index(&t, 3);
    assert!(index.ordered.is_empty());
    assert!(index.by_ext.is_empty());
}
