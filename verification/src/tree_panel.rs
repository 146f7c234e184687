use vstd::prelude::*;
use std::collections::HashSet;
use crate::tree::{
    EntryView, Tree, TreeNode, entry_of, forest_depth, fuel_below, get_entry_or_panic, get_size_or_panic,
    is_directory, is_forest, lemma_child_fuel, lemma_depth_below_count, lemma_forest_depth,
    neighbors, tree_nodes,
};
use crate::order::{sort_by_key_desc, sort_desc};

verus! {

broadcast use vstd::std_specs::hash::group_hash_axioms;

/// One line of the tree panel.
#[derive(Debug)]
pub struct TreeItem {
    pub node: u32,
    /// The entry's name, as stored in the tree.
    pub name: String,
    pub size: u128,
    /// How many levels below the panel's top node the entry lies.
    pub depth: usize,
    pub is_dir: bool,
    pub is_expanded: bool,
    pub has_children: bool,
}

/// A line of the tree panel as a plain value.
pub struct RowView {
    pub node: u32,
    pub name: Seq<char>,
    pub size: u128,
    pub depth: nat,
    pub is_dir: bool,
    pub is_expanded: bool,
    pub has_children: bool,
}

impl View for TreeItem {
    type V = RowView;

    open spec fn view(&self) -> RowView {
        RowView {
            node: self.node,
            name: self.name@,
            size: self.size,
            depth: self.depth as nat,
            is_dir: self.is_dir,
            is_expanded: self.is_expanded,
            has_children: self.has_children,
        }
    }
}

/// The children of `n` in the order the panel shows them: by size,
/// largest first, children of equal size in the order of their edges.
pub open spec fn child_order(nodes: Map<u32, TreeNode>, n: u32) -> Seq<u32> {
    sort_desc(nodes[n].children.map_values(|c: u32| (c, nodes[c].entry.size))).map_values(
        |p: (u32, u128)| p.0,
    )
}

/// The tree panel lists the children of a node largest first: along
/// `child_order`, sizes never grow.
pub proof fn panel_children_largest_first(nodes: Map<u32, TreeNode>, n: u32)
    ensures
        forall|i: int, j: int|
            0 <= i < j < child_order(nodes, n).len() ==> nodes[child_order(nodes, n)[i]].entry.size
                >= nodes[child_order(nodes, n)[j]].entry.size,
{
    broadcast use vstd::seq_lib::group_to_multiset_ensures;

    let pairs = nodes[n].children.map_values(|c: u32| (c, nodes[c].entry.size));
    let sorted = sort_desc(pairs);
    crate::order::lemma_sort_desc(pairs);
    assert forall|k: int| 0 <= k < sorted.len() implies #[trigger] sorted[k].1 == nodes[sorted[k].0].entry.size by {
        assert(sorted.to_multiset().contains(sorted[k]));
        assert(pairs.to_multiset().contains(sorted[k]));
        vstd::seq_lib::to_multiset_contains(pairs, sorted[k]);
        let m = choose|m: int| 0 <= m < pairs.len() && pairs[m] == sorted[k];
        assert(pairs[m].1 == nodes[pairs[m].0].entry.size);
    }
    let order = child_order(nodes, n);
    assert forall|i: int, j: int| 0 <= i < j < order.len() implies nodes[order[i]].entry.size
        >= nodes[order[j]].entry.size by {
        assert(order[i] == sorted[i].0);
        assert(order[j] == sorted[j].0);
        assert(sorted[i].1 >= sorted[j].1);
    }
}

/// The line that shows node `n` at `depth`.
pub open spec fn row_of(nodes: Map<u32, TreeNode>, n: u32, depth: nat, expanded: Set<u32>) -> RowView {
    RowView {
        node: n,
        name: nodes[n].entry.name,
        size: nodes[n].entry.size,
        depth: depth,
        is_dir: is_directory(nodes[n].entry),
        is_expanded: expanded.contains(n),
        has_children: nodes[n].children.len() > 0,
    }
}

/// The lines that node `n` contributes: its own, then, when it is
/// expanded and has children, the lines of each child in `child_order`.
pub open spec fn rows_below(
    nodes: Map<u32, TreeNode>,
    n: u32,
    depth: nat,
    expanded: Set<u32>,
    fuel: nat,
) -> Seq<RowView>
    decreases fuel, 0nat,
{
    if !nodes.contains_key(n) {
        Seq::empty()
    } else if expanded.contains(n) && nodes[n].children.len() > 0 && fuel > 0 {
        seq![row_of(nodes, n, depth, expanded)] + rows_list(
            nodes,
            child_order(nodes, n),
            depth + 1,
            expanded,
            (fuel - 1) as nat,
        )
    } else {
        seq![row_of(nodes, n, depth, expanded)]
    }
}

/// `rows_below` of each node of `list`, one after the other.
pub open spec fn rows_list(
    nodes: Map<u32, TreeNode>,
    list: Seq<u32>,
    depth: nat,
    expanded: Set<u32>,
    fuel: nat,
) -> Seq<RowView>
    decreases fuel, list.len(),
{
    if list.len() == 0 {
        Seq::empty()
    } else {
        rows_below(nodes, list[0], depth, expanded, fuel) + rows_list(
            nodes,
            list.drop_first(),
            depth,
            expanded,
            fuel,
        )
    }
}

proof fn lemma_rows_list_push(
    nodes: Map<u32, TreeNode>,
    list: Seq<u32>,
    x: u32,
    depth: nat,
    expanded: Set<u32>,
    fuel: nat,
)
    ensures
        rows_list(nodes, list.push(x), depth, expanded, fuel) == rows_list(
            nodes,
            list,
            depth,
            expanded,
            fuel,
        ) + rows_below(nodes, x, depth, expanded, fuel),
    decreases list.len(),
{
    if list.len() == 0 {
        assert(list.push(x).drop_first() =~= Seq::<u32>::empty());
        assert(rows_list(nodes, Seq::<u32>::empty(), depth, expanded, fuel) == Seq::<RowView>::empty());
        assert(rows_list(nodes, list.push(x), depth, expanded, fuel) =~= rows_below(
            nodes,
            x,
            depth,
            expanded,
            fuel,
        ));
        assert(rows_list(nodes, list, depth, expanded, fuel) == Seq::<RowView>::empty());
        assert(Seq::<RowView>::empty() + rows_below(nodes, x, depth, expanded, fuel) =~= rows_below(
            nodes,
            x,
            depth,
            expanded,
            fuel,
        ));
    } else {
        lemma_rows_list_push(nodes, list.drop_first(), x, depth, expanded, fuel);
        assert(list.push(x).drop_first() =~= list.drop_first().push(x));
        assert(list.push(x)[0] == list[0]);
    }
}

/// The children of `n` in panel order are exactly its children.
proof fn lemma_child_order_members(nodes: Map<u32, TreeNode>, n: u32)
    ensures
        child_order(nodes, n).len() == nodes[n].children.len(),
        forall|j: int| 0 <= j < child_order(nodes, n).len() ==> nodes[n].children.contains(
            #[trigger] child_order(nodes, n)[j],
        ),
        forall|c: u32| #[trigger] nodes[n].children.contains(c) ==> child_order(nodes, n).contains(c),
{
    broadcast use vstd::seq_lib::group_to_multiset_ensures;

    let pairs = nodes[n].children.map_values(|c: u32| (c, nodes[c].entry.size));
    let sorted = sort_desc(pairs);
    let order = child_order(nodes, n);
    crate::order::lemma_sort_desc(pairs);
    assert forall|j: int| 0 <= j < order.len() implies nodes[n].children.contains(#[trigger] order[j]) by {
        assert(sorted.contains(sorted[j]));
        assert(pairs.to_multiset().count(sorted[j]) > 0);
        let m = choose|m: int| 0 <= m < pairs.len() && pairs[m] == sorted[j];
        assert(nodes[n].children[m] == order[j]);
    }
    assert forall|c: u32| #[trigger] nodes[n].children.contains(c) implies order.contains(c) by {
        let m = choose|m: int| 0 <= m < nodes[n].children.len() && nodes[n].children[m] == c;
        assert(pairs.contains(pairs[m]));
        assert(sorted.to_multiset().count(pairs[m]) > 0);
        let j = choose|j: int| 0 <= j < sorted.len() && sorted[j] == pairs[m];
        assert(order[j] == c);
    }
}

proof fn lemma_rows_below_shape(nodes: Map<u32, TreeNode>, x: u32, depth: nat, expanded: Set<u32>, fuel: nat)
    requires
        is_forest(nodes),
        nodes.contains_key(x),
    ensures
        rows_below(nodes, x, depth, expanded, fuel).len() >= 1,
        rows_below(nodes, x, depth, expanded, fuel)[0] == row_of(nodes, x, depth, expanded),
        forall|i: int|
            1 <= i < rows_below(nodes, x, depth, expanded, fuel).len() ==> {
                let r = #[trigger] rows_below(nodes, x, depth, expanded, fuel)[i];
                &&& r.depth > depth
                &&& r.depth == depth + 1 ==> nodes[x].children.contains(r.node)
            },
    decreases fuel, 0nat,
{
    if expanded.contains(x) && nodes[x].children.len() > 0 && fuel > 0 {
        let order = child_order(nodes, x);
        lemma_child_order_members(nodes, x);
        assert forall|j: int| 0 <= j < order.len() implies nodes.contains_key(#[trigger] order[j]) by {
            let k = choose|k: int| 0 <= k < nodes[x].children.len() && nodes[x].children[k] == order[j];
            lemma_child_fuel(nodes, x, k);
        }
        lemma_rows_list_shape(nodes, order, depth + 1, expanded, (fuel - 1) as nat);
        let rows = rows_below(nodes, x, depth, expanded, fuel);
        let tail = rows_list(nodes, order, depth + 1, expanded, (fuel - 1) as nat);
        assert forall|i: int| 1 <= i < rows.len() implies {
            let r = #[trigger] rows[i];
            &&& r.depth > depth
            &&& r.depth == depth + 1 ==> nodes[x].children.contains(r.node)
        } by {
            assert(rows[i] == tail[i - 1]);
            if tail[i - 1].depth == depth + 1 {
                let j = choose|j: int| 0 <= j < order.len() && order[j] == tail[i - 1].node;
            }
        }
    }
}

proof fn lemma_rows_list_shape(
    nodes: Map<u32, TreeNode>,
    list: Seq<u32>,
    depth: nat,
    expanded: Set<u32>,
    fuel: nat,
)
    requires
        is_forest(nodes),
        forall|j: int| 0 <= j < list.len() ==> nodes.contains_key(#[trigger] list[j]),
    ensures
        forall|i: int|
            0 <= i < rows_list(nodes, list, depth, expanded, fuel).len() ==> {
                let r = #[trigger] rows_list(nodes, list, depth, expanded, fuel)[i];
                &&& r.depth >= depth
                &&& r.depth == depth ==> list.contains(r.node)
            },
        forall|j: int|
            0 <= j < list.len() ==> exists|i: int|
                0 <= i < rows_list(nodes, list, depth, expanded, fuel).len() && rows_list(
                    nodes,
                    list,
                    depth,
                    expanded,
                    fuel,
                )[i] == row_of(nodes, #[trigger] list[j], depth, expanded),
    decreases fuel, list.len(),
{
    if list.len() > 0 {
        let rest = list.drop_first();
        assert forall|j: int| 0 <= j < rest.len() implies nodes.contains_key(#[trigger] rest[j]) by {
            assert(rest[j] == list[j + 1]);
        }
        assert(nodes.contains_key(list[0]));
        lemma_rows_below_shape(nodes, list[0], depth, expanded, fuel);
        lemma_rows_list_shape(nodes, rest, depth, expanded, fuel);
        let head = rows_below(nodes, list[0], depth, expanded, fuel);
        let tail = rows_list(nodes, rest, depth, expanded, fuel);
        let rows = rows_list(nodes, list, depth, expanded, fuel);
        assert(rows == head + tail);
        assert forall|i: int| 0 <= i < rows.len() implies {
            let r = #[trigger] rows[i];
            &&& r.depth >= depth
            &&& r.depth == depth ==> list.contains(r.node)
        } by {
            if i < head.len() {
                assert(rows[i] == head[i]);
                if i == 0 {
                    assert(list[0] == head[0].node);
                }
            } else {
                assert(rows[i] == tail[i - head.len()]);
                if tail[i - head.len()].depth == depth {
                    let k = choose|k: int| 0 <= k < rest.len() && rest[k] == tail[i - head.len()].node;
                    assert(list[k + 1] == rest[k]);
                }
            }
        }
        assert forall|j: int| 0 <= j < list.len() implies exists|i: int|
            0 <= i < rows.len() && rows[i] == row_of(nodes, #[trigger] list[j], depth, expanded) by {
            if j == 0 {
                assert(rows[0] == head[0]);
            } else {
                assert(list[j] == rest[j - 1]);
                let k = choose|k: int| 0 <= k < tail.len() && tail[k] == row_of(nodes, rest[j - 1], depth, expanded);
                assert(rows[head.len() + k] == tail[k]);
            }
        }
    }
}

/// What the tree panel shows of a node: first its own line, with its
/// name, size, depth, whether it is a directory, whether it is expanded,
/// and whether it has at least one entry; then, only when it is expanded
/// and has at least one entry, the lines below it, which all lie deeper,
/// hold a line at the next depth for each of its entries and for nothing
/// else at that depth.
pub proof fn panel_rows_of_a_node(nodes: Map<u32, TreeNode>, n: u32, depth: nat, expanded: Set<u32>)
    requires
        is_forest(nodes),
        nodes.contains_key(n),
    ensures
        ({
            let rows = rows_below(nodes, n, depth, expanded, fuel_below(nodes, n));
            &&& rows.len() >= 1
            &&& rows[0] == RowView {
                node: n,
                name: nodes[n].entry.name,
                size: nodes[n].entry.size,
                depth: depth,
                is_dir: nodes[n].entry.is_dir || nodes[n].entry.entry_count is Some,
                is_expanded: expanded.contains(n),
                has_children: nodes[n].children.len() >= 1,
            }
            &&& !(expanded.contains(n) && nodes[n].children.len() >= 1) ==> rows.len() == 1
            &&& forall|i: int| 1 <= i < rows.len() ==> #[trigger] rows[i].depth > depth
            &&& forall|i: int|
                1 <= i < rows.len() && #[trigger] rows[i].depth == depth + 1 ==> nodes[n].children.contains(
                    rows[i].node,
                )
            &&& expanded.contains(n) ==> forall|c: u32|
                #[trigger] nodes[n].children.contains(c) ==> exists|i: int|
                    1 <= i < rows.len() && rows[i].node == c && rows[i].depth == depth + 1
                        && rows[i].has_children == (nodes[c].children.len() >= 1)
        }),
{
    let fuel = fuel_below(nodes, n);
    let rows = rows_below(nodes, n, depth, expanded, fuel);
    lemma_rows_below_shape(nodes, n, depth, expanded, fuel);
    if expanded.contains(n) && nodes[n].children.len() >= 1 {
        lemma_child_fuel(nodes, n, 0);
        let order = child_order(nodes, n);
        let f = (fuel - 1) as nat;
        lemma_child_order_members(nodes, n);
        assert forall|j: int| 0 <= j < order.len() implies nodes.contains_key(#[trigger] order[j]) by {
            let k = choose|k: int| 0 <= k < nodes[n].children.len() && nodes[n].children[k] == order[j];
            lemma_child_fuel(nodes, n, k);
        }
        lemma_rows_list_shape(nodes, order, depth + 1, expanded, f);
        let tail = rows_list(nodes, order, depth + 1, expanded, f);
        assert(rows == seq![row_of(nodes, n, depth, expanded)] + tail);
        assert forall|c: u32| #[trigger] nodes[n].children.contains(c) implies exists|i: int|
            1 <= i < rows.len() && rows[i].node == c && rows[i].depth == depth + 1 && rows[i].has_children
                == (nodes[c].children.len() >= 1) by {
            let j = choose|j: int| 0 <= j < order.len() && order[j] == c;
            let k = choose|k: int| 0 <= k < tail.len() && tail[k] == row_of(nodes, #[trigger] order[j], depth + 1, expanded);
            assert(rows[k + 1] == tail[k]);
        }
    }
}

pub open spec fn items_view(items: Seq<TreeItem>) -> Seq<RowView> {
    items.map_values(|t: TreeItem| t@)
}

fn collect_tree_node(
    tree: &Tree,
    node: u32,
    depth: usize,
    expanded: &HashSet<u32>,
    items: &mut Vec<TreeItem>,
    Ghost(fuel): Ghost<nat>,
)
    requires
        is_forest(tree_nodes(*tree)),
        tree_nodes(*tree).contains_key(node) ==> fuel == fuel_below(tree_nodes(*tree), node),
        tree_nodes(*tree).contains_key(node) ==> depth <= forest_depth(tree_nodes(*tree))[node],
    ensures
        items_view(final(items)@) == items_view(old(items)@) + rows_below(
            tree_nodes(*tree),
            node,
            depth as nat,
            expanded@,
            fuel,
        ),
    decreases fuel,
{
    let ghost nodes = tree_nodes(*tree);
    let entry = match entry_of(tree, node) {
        Some(e) => e,
        None => {
            assert(items_view(items@) =~= items_view(items@) + Seq::<RowView>::empty());
            return ;
        },
    };
    let is_dir = entry.is_dir || entry.entry_count.is_some();
    let is_expanded = expanded.contains(&node);
    let children = neighbors(tree, node, true);
    let has_children = children.len() > 0;
    let item = TreeItem {
        node,
        name: entry.name.clone(),
        size: entry.size,
        depth,
        is_dir,
        is_expanded,
        has_children,
    };
    let ghost start = items_view(items@);
    items.push(item);
    proof {
        lemma_forest_depth(nodes);
        assert(items_view(items@) =~= start + seq![row_of(nodes, node, depth as nat, expanded@)]);
    }
    if is_expanded && has_children {
        let mut sizes: Vec<(u32, u128)> = Vec::new();
        let mut i: usize = 0;
        while i < children.len()
            invariant
                nodes == tree_nodes(*tree),
                is_forest(nodes),
                nodes.contains_key(node),
                children@ == nodes[node].children,
                0 <= i <= children@.len(),
                sizes@ == children@.take(i as int).map_values(|c: u32| (c, nodes[c].entry.size)),
            decreases children@.len() - i,
        {
            proof {
                lemma_child_fuel(nodes, node, i as int);
            }
            let size = get_size_or_panic(tree, children[i]);
            sizes.push((children[i], size));
            proof {
                assert(children@.take(i + 1) =~= children@.take(i as int).push(children@[i as int]));
                assert(sizes@ =~= children@.take(i + 1).map_values(
                    |c: u32| (c, nodes[c].entry.size),
                ));
            }
            i = i + 1;
        }
        proof {
            assert(children@.take(children@.len() as int) =~= children@);
        }
        let sorted = sort_by_key_desc(&sizes);
        let ghost order = child_order(nodes, node);
        proof {
            crate::order::lemma_sort_desc(sizes@);
            assert(order.len() == children@.len());
            assert forall|j: int| 0 <= j < order.len() implies nodes[node].children.contains(
                #[trigger] order[j],
            ) by {
                broadcast use vstd::seq_lib::group_to_multiset_ensures;

                vstd::seq_lib::to_multiset_contains(sorted@, sorted@[j]);
                vstd::seq_lib::to_multiset_contains(sizes@, sorted@[j]);
                let k = choose|k: int| 0 <= k < sizes@.len() && sizes@[k] == sorted@[j];
                assert(order[j] == children@[k]);
            }
            lemma_depth_below_count(nodes, node);
        }
        let ghost f = (fuel - 1) as nat;
        let mut j: usize = 0;
        while j < sorted.len()
            invariant
                nodes == tree_nodes(*tree),
                is_forest(nodes),
                nodes.contains_key(node),
                fuel == fuel_below(nodes, node),
                f == fuel - 1,
                fuel >= 1,
                depth <= forest_depth(nodes)[node],
                forest_depth(nodes)[node] < 0x1_0000_0000,
                order == child_order(nodes, node),
                sorted@.map_values(|p: (u32, u128)| p.0) == order,
                forall|k: int| 0 <= k < order.len() ==> nodes[node].children.contains(#[trigger] order[k]),
                0 <= j <= sorted@.len(),
                items_view(items@) == start + seq![row_of(nodes, node, depth as nat, expanded@)]
                    + rows_list(nodes, order.take(j as int), (depth + 1) as nat, expanded@, f),
            decreases sorted@.len() - j,
        {
            let (child, _) = sorted[j];
            proof {
                assert(order[j as int] == child);
                assert(nodes[node].children.contains(child));
                let k = choose|k: int| 0 <= k < nodes[node].children.len() && nodes[node].children[k] == child;
                lemma_child_fuel(nodes, node, k);
                lemma_forest_depth(nodes);
                assert(nodes[child].parents == seq![node]);
                assert(nodes[child].parents[0] == node);
                lemma_depth_below_count(nodes, child);
                assert(forest_depth(nodes)[child] == forest_depth(nodes)[node] + 1);
                assert(depth + 1 <= 0xffff_ffff);
                assert(usize::MAX >= 0xffff_ffff);
            }
            collect_tree_node(tree, child, depth + 1, expanded, items, Ghost(f));
            proof {
                assert(order.take(j + 1) =~= order.take(j as int).push(child));
                lemma_rows_list_push(nodes, order.take(j as int), child, (depth + 1) as nat, expanded@, f);
            }
            j = j + 1;
        }
        proof {
            assert(order.take(sorted@.len() as int) =~= order);
            assert(items_view(items@) =~= start + rows_below(nodes, node, depth as nat, expanded@, fuel));
        }
    } else {
        proof {
            assert(items_view(items@) =~= start + rows_below(nodes, node, depth as nat, expanded@, fuel));
        }
    }
}

/// The lines of the tree panel for the tree below `root`: each node with
/// its depth below `root`, expanded nodes followed by their children,
/// largest first.
pub fn collect_tree_data(tree: &Tree, root: u32, expanded: &HashSet<u32>) -> (items: Vec<TreeItem>)
    requires
        is_forest(tree_nodes(*tree)),
    ensures
        items_view(items@) == rows_below(
            tree_nodes(*tree),
            root,
            0,
            expanded@,
            fuel_below(tree_nodes(*tree), root),
        ),
        tree_nodes(*tree).contains_key(root) ==> items@.len() >= 1 && items@[0].node == root
            && items@[0].has_children == (tree_nodes(*tree)[root].children.len() >= 1),
        tree_nodes(*tree).contains_key(root) && expanded@.contains(root) ==> forall|c: u32|
            #[trigger] tree_nodes(*tree)[root].children.contains(c) ==> exists|i: int|
                1 <= i < items@.len() && items@[i].node == c && items@[i].depth == 1,
{
    proof {
        if tree_nodes(*tree).contains_key(root) {
            panel_rows_of_a_node(tree_nodes(*tree), root, 0, expanded@);
        }
    }
    let mut items: Vec<TreeItem> = Vec::new();
    collect_tree_node(tree, root, 0, expanded, &mut items, Ghost(fuel_below(tree_nodes(*tree), root)));
    proof {
        assert(items_view(Seq::<TreeItem>::empty()) =~= Seq::<RowView>::empty());
        assert(Seq::<RowView>::empty() + rows_below(
            tree_nodes(*tree),
            root,
            0,
            expanded@,
            fuel_below(tree_nodes(*tree), root),
        ) =~= rows_below(
            tree_nodes(*tree),
            root,
            0,
            expanded@,
            fuel_below(tree_nodes(*tree), root),
        ));
        let rows = rows_below(tree_nodes(*tree), root, 0, expanded@, fuel_below(tree_nodes(*tree), root));
        assert(items_view(items@) == rows);
        assert forall|i: int| 0 <= i < items@.len() implies #[trigger] items@[i]@ == rows[i] by {
            assert(items_view(items@)[i] == items@[i]@);
        }
        if tree_nodes(*tree).contains_key(root) && expanded@.contains(root) {
            assert forall|c: u32| #[trigger] tree_nodes(*tree)[root].children.contains(c) implies exists|i: int|
                1 <= i < items@.len() && items@[i].node == c && items@[i].depth == 1 by {
                let i = choose|i: int|
                    1 <= i < rows.len() && rows[i].node == c && rows[i].depth == 0 + 1 && rows[i].has_children
                        == (tree_nodes(*tree)[c].children.len() >= 1);
                assert(items@[i]@ == rows[i]);
            }
        }
    }
    items
}

} // verus!
