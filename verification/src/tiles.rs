use vstd::prelude::*;
use crate::tree::{Tree, TreeNode, entry_of, get_size_or_panic, is_directory, is_forest, neighbors, tree_nodes};
use crate::order::{sort_by_key_desc, sort_desc};
use crate::extension_index::{ExtensionIndex, ascii_lower, ascii_lowercase, file_extension, path_extension};
use crate::palette::FALLBACK_COLOR;

verus! {

/// The children of `n` with their sizes, those of size 0 left out, in the
/// order of the edges of `n`.
pub open spec fn sized_children(nodes: Map<u32, TreeNode>, n: u32) -> Seq<(u32, u128)> {
    nodes[n].children.map_values(|c: u32| (c, nodes[c].entry.size)).filter(|p: (u32, u128)| p.1 > 0)
}

/// The children of `node` that get a tile of their own inside its tile:
/// none for a file or a missing node; for a directory, those of nonzero
/// size with their sizes, largest first, children of equal size in the
/// order of the edges.
pub fn tile_children(tree: &Tree, node: u32) -> (children: Vec<(u32, u128)>)
    requires
        is_forest(tree_nodes(*tree)),
    ensures
        !tree_nodes(*tree).contains_key(node) || !is_directory(tree_nodes(*tree)[node].entry)
            ==> children@ == Seq::<(u32, u128)>::empty(),
        tree_nodes(*tree).contains_key(node) && is_directory(tree_nodes(*tree)[node].entry) ==> children@
            == sort_desc(sized_children(tree_nodes(*tree), node)),
        tree_nodes(*tree).contains_key(node) && is_directory(tree_nodes(*tree)[node].entry) ==> forall|
            c: u32,
        |
            tree_nodes(*tree)[node].children.contains(c) && tree_nodes(*tree)[c].entry.size > 0
                ==> #[trigger] children@.contains((c, tree_nodes(*tree)[c].entry.size)),
        forall|i: int|
            0 <= i < children@.len() ==> (#[trigger] children@[i]).1 > 0 && tree_nodes(*tree)[node].children.contains(
                children@[i].0,
            ) && children@[i].1 == tree_nodes(*tree)[children@[i].0].entry.size,
{
    let ghost nodes = tree_nodes(*tree);
    proof {
        tiles_are_the_sized_children(nodes, node);
    }
    let entry = match entry_of(tree, node) {
        Some(e) => e,
        None => {
            return Vec::new();
        },
    };
    if !(entry.is_dir || entry.entry_count.is_some()) {
        return Vec::new();
    }
    let kids = neighbors(tree, node, true);
    let ghost pairs = nodes[node].children.map_values(|c: u32| (c, nodes[c].entry.size));
    let mut sized: Vec<(u32, u128)> = Vec::new();
    let mut i: usize = 0;
    proof {
        reveal(Seq::filter);
        assert(pairs.take(0) =~= Seq::<(u32, u128)>::empty());
    }
    while i < kids.len()
        invariant
            nodes == tree_nodes(*tree),
            is_forest(nodes),
            nodes.contains_key(node),
            kids@ == nodes[node].children,
            pairs == nodes[node].children.map_values(|c: u32| (c, nodes[c].entry.size)),
            0 <= i <= kids@.len(),
            sized@ == pairs.take(i as int).filter(|p: (u32, u128)| p.1 > 0),
        decreases kids@.len() - i,
    {
        let c = kids[i];
        proof {
            assert(nodes.contains_key(nodes[node].children[i as int]));
        }
        let size = get_size_or_panic(tree, c);
        proof {
            assert(pairs.take(i + 1) =~= pairs.take(i as int).push((c, size)));
            pairs.take(i as int).lemma_filter_push((c, size), |p: (u32, u128)| p.1 > 0);
        }
        if size > 0 {
            sized.push((c, size));
        }
        i = i + 1;
    }
    proof {
        assert(pairs.take(kids@.len() as int) =~= pairs);
    }
    sort_by_key_desc(&sized)
}

proof fn lemma_sized_counts(nodes: Map<u32, TreeNode>, list: Seq<u32>, c: u32, size: u128)
    ensures
        list.map_values(|c: u32| (c, nodes[c].entry.size)).filter(|p: (u32, u128)| p.1 > 0).to_multiset().count(
            (c, size),
        ) == if size == nodes[c].entry.size && size > 0 {
            list.to_multiset().count(c)
        } else {
            0
        },
    decreases list.len(),
{
    broadcast use vstd::seq_lib::group_to_multiset_ensures;
    broadcast use vstd::multiset::group_multiset_axioms;

    if list.len() == 0 {
        reveal(Seq::filter);
        assert(list.map_values(|c: u32| (c, nodes[c].entry.size)) =~= Seq::<(u32, u128)>::empty());
        assert(list.map_values(|c: u32| (c, nodes[c].entry.size)).filter(|p: (u32, u128)| p.1 > 0) =~= Seq::<
            (u32, u128),
        >::empty());
        assert(list.to_multiset() =~= vstd::multiset::Multiset::<u32>::empty());
    } else {
        let rest = list.drop_last();
        let x = list.last();
        lemma_sized_counts(nodes, rest, c, size);
        let mr = rest.map_values(|c: u32| (c, nodes[c].entry.size));
        let px = (x, nodes[x].entry.size);
        assert(list.map_values(|c: u32| (c, nodes[c].entry.size)) =~= mr.push(px));
        mr.lemma_filter_push(px, |p: (u32, u128)| p.1 > 0);
        assert(list =~= rest.push(x));
    }
}

/// The tiles inside a directory's tile are its children of nonzero size,
/// each with its size, largest first: every such child has a tile (as many
/// as it has edges from the directory), and nothing else has one.
pub proof fn tiles_are_the_sized_children(nodes: Map<u32, TreeNode>, n: u32)
    ensures
        forall|i: int, j: int|
            0 <= i < j < sort_desc(sized_children(nodes, n)).len() ==> sort_desc(sized_children(nodes, n))[i].1
                >= sort_desc(sized_children(nodes, n))[j].1,
        forall|c: u32, size: u128|
            #[trigger] sort_desc(sized_children(nodes, n)).to_multiset().count((c, size)) == if size
                == nodes[c].entry.size && size > 0 {
                nodes[n].children.to_multiset().count(c)
            } else {
                0
            },
        forall|c: u32|
            nodes[n].children.contains(c) && nodes[c].entry.size > 0 ==> #[trigger] sort_desc(
                sized_children(nodes, n),
            ).contains((c, nodes[c].entry.size)),
        forall|i: int|
            0 <= i < sort_desc(sized_children(nodes, n)).len() ==> {
                let p = #[trigger] sort_desc(sized_children(nodes, n))[i];
                &&& p.1 > 0
                &&& p.1 == nodes[p.0].entry.size
                &&& nodes[n].children.contains(p.0)
            },
{
    broadcast use vstd::seq_lib::group_to_multiset_ensures;

    let r = sort_desc(sized_children(nodes, n));
    crate::order::lemma_sort_desc(sized_children(nodes, n));
    assert forall|c: u32, size: u128| #[trigger] r.to_multiset().count((c, size)) == if size
        == nodes[c].entry.size && size > 0 {
        nodes[n].children.to_multiset().count(c)
    } else {
        0
    } by {
        lemma_sized_counts(nodes, nodes[n].children, c, size);
    }
    assert forall|c: u32|
        nodes[n].children.contains(c) && nodes[c].entry.size > 0 implies #[trigger] r.contains(
        (c, nodes[c].entry.size),
    ) by {
        lemma_sized_counts(nodes, nodes[n].children, c, nodes[c].entry.size);
        assert(nodes[n].children.to_multiset().count(c) > 0);
        assert(r.to_multiset().count((c, nodes[c].entry.size)) > 0);
    }
    assert forall|i: int| 0 <= i < r.len() implies {
        let p = #[trigger] r[i];
        &&& p.1 > 0
        &&& p.1 == nodes[p.0].entry.size
        &&& nodes[n].children.contains(p.0)
    } by {
        let p = r[i];
        assert(r.contains(p));
        lemma_sized_counts(nodes, nodes[n].children, p.0, p.1);
        assert(r.to_multiset().count((p.0, p.1)) > 0);
    }
}

/// `s` in ASCII small letters.
pub open spec fn lowered(s: Seq<char>) -> Seq<char> {
    s.map_values(|c: char| ascii_lower(c))
}

/// `i` is the first place in `list` whose entry, in ASCII small letters,
/// is `key`.
pub open spec fn is_first_match(list: Seq<Seq<char>>, key: Seq<char>, i: int) -> bool {
    &&& 0 <= i < list.len()
    &&& lowered(list[i]) == key
    &&& forall|j: int| 0 <= j < i ==> lowered(#[trigger] list[j]) != key
}

/// The colour of the tile of `node`: the palette entry at the first place
/// in `index.ordered` that holds the node's extension, both compared in
/// ASCII small letters; the fallback colour when there is no such node,
/// the name has no extension, no place holds it, or the place lies past
/// the end of the palette.
pub fn tile_color(tree: &Tree, node: u32, index: &ExtensionIndex, palette: &Vec<[u8; 3]>) -> (color: [u8; 3])
    ensures
        !tree_nodes(*tree).contains_key(node) ==> color == FALLBACK_COLOR,
        tree_nodes(*tree).contains_key(node) ==> match path_extension(tree_nodes(*tree)[node].entry.name) {
            None => color == FALLBACK_COLOR,
            Some(ext) => {
                let ordered = index.ordered@.map_values(|s: String| s@);
                &&& forall|i: int| #[trigger] is_first_match(ordered, lowered(ext), i) ==> color == if i < palette@.len() {
                    palette@[i]
                } else {
                    FALLBACK_COLOR
                }
                &&& (forall|j: int| 0 <= j < ordered.len() ==> lowered(#[trigger] ordered[j]) != lowered(ext))
                    ==> color == FALLBACK_COLOR
            },
        },
{
    let entry = match entry_of(tree, node) {
        Some(e) => e,
        None => {
            return FALLBACK_COLOR;
        },
    };
    let ext = match file_extension(entry.name.as_str()) {
        Some(x) => x,
        None => {
            return FALLBACK_COLOR;
        },
    };
    let key = ascii_lowercase(ext.as_str());
    let ghost ordered = index.ordered@.map_values(|s: String| s@);
    let mut i: usize = 0;
    while i < index.ordered.len()
        invariant
            0 <= i <= index.ordered@.len(),
            ordered == index.ordered@.map_values(|s: String| s@),
            key@ == lowered(ext@),
            tree_nodes(*tree).contains_key(node),
            path_extension(tree_nodes(*tree)[node].entry.name) == Some(ext@),
            forall|j: int| 0 <= j < i ==> lowered(#[trigger] ordered[j]) != key@,
        decreases index.ordered@.len() - i,
    {
        let candidate = ascii_lowercase(index.ordered[i].as_str());
        if candidate == key {
            proof {
                assert(is_first_match(ordered, key@, i as int));
                assert forall|k: int| #[trigger] is_first_match(ordered, key@, k) implies k == i by {
                    if k < i {
                        assert(lowered(ordered[k]) != key@);
                    } else if k > i {
                        assert(lowered(ordered[i as int]) != key@);
                    }
                }
            }
            if i < palette.len() {
                return palette[i];
            } else {
                return FALLBACK_COLOR;
            }
        }
        i = i + 1;
    }
    proof {
        assert forall|k: int| #[trigger] is_first_match(ordered, key@, k) implies false by {
            assert(lowered(ordered[k]) != key@);
        }
    }
    FALLBACK_COLOR
}

} // verus!
