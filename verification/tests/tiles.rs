use rustdirstat::extension_index::build_extension_index;
use rustdirstat::palette::FALLBACK_COLOR;
use rustdirstat::tiles::{tile_children, tile_color};
use rustdirstat::tree::{add_child, new_tree, EntryData, Tree};

fn dir(name: &str, size: u128, count: u64) -> EntryData {
    EntryData { name: name.to_string(), size, entry_count: Some(count), is_dir: true }
}

fn file(name: &str, size: u128) -> EntryData {
    EntryData { name: name.to_string(), size, entry_count: None, is_dir: false }
}

fn sample() -> (Tree, [u32; 6]) {
    let mut t = new_tree();
    let root = add_child(&mut t, None, dir("/data", 180, 5));
    let a = add_child(&mut t, Some(root), dir("a", 150, 2));
    let f1 = add_child(&mut t, Some(a), file("x.TXT", 100));
    let f2 = add_child(&mut t, Some(a), file("y.rs", 50));
    let b = add_child(&mut t, Some(root), file("z.txt", 30));
    let empty = add_child(&mut t, Some(root), file("empty.log", 0));
    (t, [root, a, f1, f2, b, empty])
}

#[test]
fn directories_tile_their_nonempty_children_largest_first() {
    let (t, [root, a, f1, f2, b, _]) = sample();
    assert_eq!(tile_children(&t, root), vec![(a, 150), (b, 30)]);
    assert_eq!(tile_children(&t, a), vec![(f1, 100), (f2, 50)]);
}

#[test]
fn files_and_missing_nodes_have_no_child_tiles() {
    let (t, [_, _, f1, ..]) = sample();
    assert!(tile_children(&t, f1).is_empty());
    assert!(tile_children(&t, 999).is_empty());
}

#[test]
fn tiles_take_the_colour_of_their_extension_rank() {
    let (t, [root, a, f1, f2, b, empty]) = sample();
    let index = build_extension_index(&t, root);
    assert_eq!(index.ordered[0], "txt");
    assert_eq!(index.ordered[1], "rs");
    let palette = vec![[1, 2, 3], [4, 5, 6]];
    assert_eq!(tile_color(&t, f1, &index, &palette), [1, 2, 3]);
    assert_eq!(tile_color(&t, b, &index, &palette), [1, 2, 3]);
    assert_eq!(tile_color(&t, f2, &index, &palette), [4, 5, 6]);
    // "log" ranks third, past the end of this palette
    assert_eq!(tile_color(&t, empty, &index, &palette), FALLBACK_COLOR);
    // no extension, or no such node
    assert_eq!(tile_color(&t, a, &index, &palette), FALLBACK_COLOR);
    assert_eq!(tile_color(&t, 999, &index, &palette), FALLBACK_COLOR);
}
