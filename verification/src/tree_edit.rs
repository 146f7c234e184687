use vstd::prelude::*;
use crate::tree::{
    EntryData, EntryView, Tree, TreeNode, ancestor_set, ancestors, entry_of, get_entry_or_panic,
    is_ancestor_chain, parent_of, set_entry, depths_valid, edges_consistent, forest_bound, forest_depth, fuel_below,
    is_forest, lemma_child_fuel, lemma_forest_depth, neighbors, remove_node, tree_edge_slots,
    tree_node_slots, tree_nodes, without_node, without_nodes, lemma_without_step, outside,
};

verus! {

/// `n` and every node below it, each node after the nodes below it and
/// siblings in the order of their parent's edges: the order in which a
/// subtree is taken down.
pub open spec fn post_order(nodes: Map<u32, TreeNode>, n: u32, fuel: nat) -> Seq<u32>
    decreases fuel, 0nat,
{
    if fuel == 0 {
        seq![n]
    } else {
        post_order_list(nodes, nodes[n].children, (fuel - 1) as nat).push(n)
    }
}

/// `post_order` of each node of `list`, one after the other.
pub open spec fn post_order_list(nodes: Map<u32, TreeNode>, list: Seq<u32>, fuel: nat) -> Seq<u32>
    decreases fuel, list.len(),
{
    if list.len() == 0 {
        Seq::empty()
    } else {
        post_order_list(nodes, list.drop_last(), fuel) + post_order(nodes, list.last(), fuel)
    }
}

/// The nodes of the subtree whose top is `n`.
pub open spec fn subtree(nodes: Map<u32, TreeNode>, n: u32) -> Set<u32> {
    post_order(nodes, n, fuel_below(nodes, n)).to_set()
}

/// Every child of a node of `set` is in `set` too.
pub open spec fn closed_below(nodes: Map<u32, TreeNode>, set: Set<u32>) -> bool {
    forall|n: u32, i: int|
        #![trigger set.contains(n), nodes[n].children[i]]
        nodes.contains_key(n) && set.contains(n) && 0 <= i < nodes[n].children.len()
            ==> set.contains(nodes[n].children[i])
}

pub proof fn lemma_filter_keeps_all<A>(s: Seq<A>, f: spec_fn(A) -> bool)
    requires
        forall|i: int| 0 <= i < s.len() ==> #[trigger] f(s[i]),
    ensures
        s.filter(f) == s,
    decreases s.len(),
{
    if s.len() == 0 {
        reveal(Seq::filter);
    } else {
        let t = s.drop_last();
        assert(s =~= t.push(s.last()));
        assert forall|i: int| 0 <= i < t.len() implies #[trigger] f(t[i]) by {
            assert(t[i] == s[i]);
        }
        lemma_filter_keeps_all(t, f);
        t.lemma_filter_push(s.last(), f);
    }
}

proof fn lemma_filter_no_duplicates<A>(s: Seq<A>, f: spec_fn(A) -> bool)
    requires
        s.no_duplicates(),
    ensures
        s.filter(f).no_duplicates(),
    decreases s.len(),
{
    if s.len() == 0 {
        reveal(Seq::filter);
    } else {
        let t = s.drop_last();
        let x = s.last();
        assert(s =~= t.push(x));
        assert(t.no_duplicates());
        lemma_filter_no_duplicates(t, f);
        t.lemma_filter_push(x, f);
        if f(x) {
            if t.filter(f).contains(x) {
                t.lemma_filter_contains_rev(f, x);
                let j = choose|j: int| 0 <= j < t.len() && t[j] == x;
                assert(s[j] == s[s.len() - 1]);
            }
        }
    }
}

pub proof fn lemma_post_order_list_contains(nodes: Map<u32, TreeNode>, list: Seq<u32>, fuel: nat, x: u32)
    ensures
        post_order_list(nodes, list, fuel).contains(x) <==> exists|j: int|
            0 <= j < list.len() && #[trigger] post_order(nodes, list[j], fuel).contains(x),
    decreases list.len(),
{
    broadcast use vstd::seq_lib::group_seq_properties;

    if list.len() > 0 {
        let rest = list.drop_last();
        lemma_post_order_list_contains(nodes, rest, fuel, x);
        if post_order_list(nodes, list, fuel).contains(x) {
            if !post_order(nodes, list.last(), fuel).contains(x) {
                let j = choose|j: int|
                    0 <= j < rest.len() && #[trigger] post_order(nodes, rest[j], fuel).contains(x);
                assert(list[j] == rest[j]);
            }
        }
        if exists|j: int| 0 <= j < list.len() && #[trigger] post_order(nodes, list[j], fuel).contains(x) {
            let j = choose|j: int|
                0 <= j < list.len() && #[trigger] post_order(nodes, list[j], fuel).contains(x);
            if j < list.len() - 1 {
                assert(rest[j] == list[j]);
            }
        }
    }
}

pub proof fn lemma_post_order_has_top(nodes: Map<u32, TreeNode>, n: u32, fuel: nat)
    ensures
        post_order(nodes, n, fuel).contains(n),
{
    let s = post_order(nodes, n, fuel);
    assert(s[s.len() - 1] == n);
}

/// Every node of a post-order walk lies in the forest, at the depth of
/// its top or below.
pub proof fn lemma_post_order_members(nodes: Map<u32, TreeNode>, n: u32, fuel: nat)
    requires
        is_forest(nodes),
        nodes.contains_key(n),
    ensures
        forall|x: u32|
            #[trigger] post_order(nodes, n, fuel).contains(x) ==> nodes.contains_key(x)
                && forest_depth(nodes)[x] >= forest_depth(nodes)[n],
    decreases fuel,
{
    lemma_forest_depth(nodes);
    assert forall|x: u32| #[trigger] post_order(nodes, n, fuel).contains(x) implies nodes.contains_key(x)
        && forest_depth(nodes)[x] >= forest_depth(nodes)[n] by {
        if fuel > 0 && x != n {
            let kids = nodes[n].children;
            let f = (fuel - 1) as nat;
            assert(post_order_list(nodes, kids, f).contains(x)) by {
                let s = post_order(nodes, n, fuel);
                let i = choose|i: int| 0 <= i < s.len() && s[i] == x;
                assert(post_order_list(nodes, kids, f)[i] == x);
            }
            lemma_post_order_list_contains(nodes, kids, f, x);
            let j = choose|j: int| 0 <= j < kids.len() && #[trigger] post_order(nodes, kids[j], f).contains(x);
            let c = kids[j];
            assert(nodes.contains_key(c) && nodes[c].parents == seq![n]);
            assert(nodes[c].parents[0] == n);
            lemma_post_order_members(nodes, c, f);
        } else if fuel == 0 {
            assert(post_order(nodes, n, fuel) =~= seq![n]);
            assert(seq![n][0] == n);
        }
    }
}

/// The nodes of a subtree include the children of each of its nodes.
proof fn lemma_post_order_closed(nodes: Map<u32, TreeNode>, n: u32, x: u32, i: int)
    requires
        is_forest(nodes),
        nodes.contains_key(n),
        post_order(nodes, n, fuel_below(nodes, n)).contains(x),
        0 <= i < nodes[x].children.len(),
    ensures
        post_order(nodes, n, fuel_below(nodes, n)).contains(nodes[x].children[i]),
    decreases fuel_below(nodes, n),
{
    lemma_forest_depth(nodes);
    let fuel = fuel_below(nodes, n);
    assert(fuel >= 1);
    let f = (fuel - 1) as nat;
    let kids = nodes[n].children;
    let whole = post_order(nodes, n, fuel);
    assert(whole == post_order_list(nodes, kids, f).push(n));
    let c = nodes[x].children[i];
    lemma_post_order_list_contains(nodes, kids, f, c);
    if x == n {
        lemma_child_fuel(nodes, n, i);
        lemma_post_order_has_top(nodes, c, f);
        assert(post_order(nodes, kids[i], f).contains(c));
    } else {
        assert(post_order_list(nodes, kids, f).contains(x)) by {
            let k = choose|k: int| 0 <= k < whole.len() && whole[k] == x;
            assert(post_order_list(nodes, kids, f)[k] == x);
        }
        lemma_post_order_list_contains(nodes, kids, f, x);
        let j = choose|j: int| 0 <= j < kids.len() && #[trigger] post_order(nodes, kids[j], f).contains(x);
        lemma_child_fuel(nodes, n, j);
        lemma_post_order_closed(nodes, kids[j], x, i);
        assert(post_order(nodes, kids[j], f).contains(c));
    }
    let k = choose|k: int| 0 <= k < post_order_list(nodes, kids, f).len() && post_order_list(nodes, kids, f)[k] == c;
    assert(whole[k] == c);
}

/// The nodes of a subtree: in the forest, closed under taking children.
pub proof fn lemma_subtree(nodes: Map<u32, TreeNode>, n: u32)
    requires
        is_forest(nodes),
        nodes.contains_key(n),
    ensures
        closed_below(nodes, subtree(nodes, n)),
        subtree(nodes, n).contains(n),
        forall|x: u32| #[trigger] subtree(nodes, n).contains(x) ==> nodes.contains_key(x)
            && forest_depth(nodes)[x] >= forest_depth(nodes)[n],
{
    let fuel = fuel_below(nodes, n);
    let s = post_order(nodes, n, fuel);
    lemma_post_order_members(nodes, n, fuel);
    lemma_post_order_has_top(nodes, n, fuel);
    assert forall|x: u32, i: int|
        #![trigger subtree(nodes, n).contains(x), nodes[x].children[i]]
        nodes.contains_key(x) && subtree(nodes, n).contains(x) && 0 <= i < nodes[x].children.len()
            implies subtree(nodes, n).contains(nodes[x].children[i]) by {
        lemma_post_order_closed(nodes, n, x, i);
    }
}

/// Taking away a set of nodes that holds the children of each of its
/// nodes leaves a forest, in which every remaining node keeps its parent.
pub proof fn lemma_without_closed_forest(nodes: Map<u32, TreeNode>, gone: Set<u32>)
    requires
        is_forest(nodes),
        closed_below(nodes, gone),
    ensures
        is_forest(without_nodes(nodes, gone)),
        forall|k: u32| #[trigger] without_nodes(nodes, gone).contains_key(k)
            ==> without_nodes(nodes, gone)[k].parents == nodes[k].parents,
{
    broadcast use vstd::seq_lib::group_filter_ensures;

    let w = without_nodes(nodes, gone);
    lemma_forest_depth(nodes);
    let depth = forest_depth(nodes);
    let bound = forest_bound(nodes);
    assert forall|k: u32| #[trigger] w.contains_key(k) implies w[k].parents == nodes[k].parents by {
        let ps = nodes[k].parents;
        if ps.len() == 1 {
            let p = ps[0];
            let i = choose|i: int| 0 <= i < nodes[p].children.len() && nodes[p].children[i] == k;
            assert(!gone.contains(p));
        }
        assert forall|i: int| 0 <= i < ps.len() implies #[trigger] outside(gone)(ps[i]) by {
            assert(i == 0);
            let i2 = choose|i2: int| 0 <= i2 < nodes[ps[0]].children.len() && nodes[ps[0]].children[i2] == k;
        }
        lemma_filter_keeps_all(ps, outside(gone));
    }
    assert(w.dom() =~= nodes.dom().difference(gone));
    assert forall|n: u32| #[trigger] w.contains_key(n) implies w[n].children.no_duplicates() by {
        lemma_filter_no_duplicates(nodes[n].children, outside(gone));
    }
    assert forall|n: u32, i: int|
        #![trigger w[n].children[i]]
        w.contains_key(n) && 0 <= i < w[n].children.len() implies {
        &&& w.contains_key(w[n].children[i])
        &&& w[w[n].children[i]].parents == seq![n]
    } by {
        let c = w[n].children[i];
        assert(outside(gone)(c));
        assert(w[n].children.contains(c));
        nodes[n].children.lemma_filter_contains_rev(outside(gone), c);
        let j = choose|j: int| 0 <= j < nodes[n].children.len() && nodes[n].children[j] == c;
        assert(nodes.contains_key(nodes[n].children[j]));
    }
    assert forall|n: u32|
        #[trigger] w.contains_key(n) && w[n].parents.len() == 1 implies {
        &&& w.contains_key(w[n].parents[0])
        &&& w[w[n].parents[0]].children.contains(n)
    } by {
        let p = nodes[n].parents[0];
        assert(nodes.contains_key(p));
        assert(nodes[p].children.contains(n));
        let i = choose|i: int| 0 <= i < nodes[p].children.len() && nodes[p].children[i] == n;
        assert(!gone.contains(p));
        nodes[p].children.lemma_filter_contains(outside(gone), i);
    }
    assert(edges_consistent(w));
    let d2 = depth.restrict(w.dom());
    assert(d2.dom() =~= w.dom());
    assert forall|n: u32| #[trigger] w.contains_key(n) && w[n].parents.len() == 1 implies d2[n] == d2[w[n].parents[0]] + 1 by {
        assert(nodes.contains_key(nodes[n].parents[0]));
    }
    assert(depths_valid(w, d2, bound));
}

fn collect_post_order(tree: &Tree, n: u32, order: &mut Vec<u32>, Ghost(fuel): Ghost<nat>)
    requires
        is_forest(tree_nodes(*tree)),
        tree_nodes(*tree).contains_key(n),
        fuel == fuel_below(tree_nodes(*tree), n),
    ensures
        final(order)@ == old(order)@ + post_order(tree_nodes(*tree), n, fuel),
    decreases fuel,
{
    let ghost nodes = tree_nodes(*tree);
    proof {
        lemma_forest_depth(nodes);
    }
    let children = neighbors(tree, n, true);
    let ghost f = (fuel - 1) as nat;
    let mut i: usize = 0;
    while i < children.len()
        invariant
            nodes == tree_nodes(*tree),
            is_forest(nodes),
            nodes.contains_key(n),
            fuel == fuel_below(nodes, n),
            fuel >= 1,
            f == fuel - 1,
            children@ == nodes[n].children,
            0 <= i <= children@.len(),
            order@ == old(order)@ + post_order_list(nodes, children@.take(i as int), f),
        decreases children@.len() - i,
    {
        proof {
            lemma_child_fuel(nodes, n, i as int);
        }
        let ghost before = order@;
        collect_post_order(tree, children[i], order, Ghost(f));
        proof {
            let t = children@.take(i + 1);
            assert(t.drop_last() =~= children@.take(i as int));
            assert(t.last() == children@[i as int]);
            assert(order@ =~= old(order)@ + post_order_list(nodes, t, f));
        }
        i = i + 1;
    }
    order.push(n);
    proof {
        assert(children@.take(children@.len() as int) =~= children@);
        assert(order@ =~= old(order)@ + post_order(nodes, n, fuel));
    }
}

/// The nodes of the subtree whose top is `node`, each after the nodes
/// below it: the order in which `remove_subtree` takes them away.
pub fn subtree_post_order(tree: &Tree, node: u32) -> (order: Vec<u32>)
    requires
        is_forest(tree_nodes(*tree)),
        tree_nodes(*tree).contains_key(node),
    ensures
        order@ == post_order(tree_nodes(*tree), node, fuel_below(tree_nodes(*tree), node)),
{
    let mut order: Vec<u32> = Vec::new();
    collect_post_order(tree, node, &mut order, Ghost(fuel_below(tree_nodes(*tree), node)));
    proof {
        assert(order@ =~= post_order(tree_nodes(*tree), node, fuel_below(tree_nodes(*tree), node)));
    }
    order
}

/// Takes away the first `count` nodes of `order`, one after the other.
fn remove_in_order(tree: &mut Tree, order: &Vec<u32>, count: usize)
    requires
        count <= order@.len(),
        forall|j: int| 0 <= j < count ==> tree_nodes(*old(tree)).contains_key(#[trigger] order@[j]),
    ensures
        tree_nodes(*final(tree)) == without_nodes(
            tree_nodes(*old(tree)),
            order@.take(count as int).to_set(),
        ),
        tree_node_slots(*final(tree)) == tree_node_slots(*old(tree)),
        tree_edge_slots(*final(tree)) == tree_edge_slots(*old(tree)),
{
    let ghost nodes = tree_nodes(*tree);
    proof {
        assert(without_nodes(nodes, Set::empty()) =~= nodes) by {
            assert forall|k: u32| nodes.contains_key(k) implies without_nodes(nodes, Set::empty())[k]
                == nodes[k] by {
                lemma_filter_keeps_all(nodes[k].children, outside(Set::empty()));
                lemma_filter_keeps_all(nodes[k].parents, outside(Set::empty()));
            }
        }
        assert(order@.take(0).to_set() =~= Set::empty());
    }
    let mut i: usize = 0;
    while i < count
        invariant
            count <= order@.len(),
            0 <= i <= count,
            forall|j: int| 0 <= j < count ==> nodes.contains_key(#[trigger] order@[j]),
            tree_nodes(*tree) == without_nodes(nodes, order@.take(i as int).to_set()),
            tree_node_slots(*tree) == tree_node_slots(*old(tree)),
            tree_edge_slots(*tree) == tree_edge_slots(*old(tree)),
        decreases count - i,
    {
        let ghost gone = order@.take(i as int).to_set();
        proof {
            assert(nodes.contains_key(order@[i as int]));
            lemma_without_step(nodes, gone, order@[i as int]);
            assert(order@.take(i + 1).to_set() =~= gone.insert(order@[i as int])) by {
                assert(order@.take(i + 1) =~= order@.take(i as int).push(order@[i as int]));
                order@.take(i as int).lemma_push_to_set_commute(order@[i as int]);
            }
        }
        remove_node(tree, order[i]);
        i = i + 1;
    }
}

/// Takes away the subtree whose top is `node`, each node after the nodes
/// below it; the rest of the forest stays as it was, less the edge to
/// `node`.
pub fn remove_subtree(tree: &mut Tree, node: u32)
    requires
        is_forest(tree_nodes(*old(tree))),
        tree_nodes(*old(tree)).contains_key(node),
    ensures
        tree_nodes(*final(tree)) == without_nodes(
            tree_nodes(*old(tree)),
            subtree(tree_nodes(*old(tree)), node),
        ),
        is_forest(tree_nodes(*final(tree))),
        tree_node_slots(*final(tree)) == tree_node_slots(*old(tree)),
        tree_edge_slots(*final(tree)) == tree_edge_slots(*old(tree)),
{
    let ghost nodes = tree_nodes(*tree);
    let order = subtree_post_order(tree, node);
    proof {
        lemma_subtree(nodes, node);
        assert forall|j: int| 0 <= j < order@.len() implies nodes.contains_key(#[trigger] order@[j]) by {
            assert(subtree(nodes, node).contains(order@[j]));
        }
        assert(order@.take(order@.len() as int) =~= order@);
        lemma_without_closed_forest(nodes, subtree(nodes, node));
    }
    remove_in_order(tree, &order, order.len());
}

/// The nodes strictly below `n`.
pub open spec fn below(nodes: Map<u32, TreeNode>, n: u32) -> Set<u32> {
    subtree(nodes, n).remove(n)
}

/// Takes away every node below `node`, the subtree of each of its
/// children in turn in the order of its edges, each node after the nodes
/// below it; `node` stays, with no edge down.
pub fn remove_below(tree: &mut Tree, node: u32)
    requires
        is_forest(tree_nodes(*old(tree))),
        tree_nodes(*old(tree)).contains_key(node),
    ensures
        tree_nodes(*final(tree)) == without_nodes(
            tree_nodes(*old(tree)),
            below(tree_nodes(*old(tree)), node),
        ),
        is_forest(tree_nodes(*final(tree))),
        tree_node_slots(*final(tree)) == tree_node_slots(*old(tree)),
        tree_edge_slots(*final(tree)) == tree_edge_slots(*old(tree)),
{
    let ghost nodes = tree_nodes(*tree);
    let order = subtree_post_order(tree, node);
    let ghost depth = forest_depth(nodes);
    proof {
        lemma_forest_depth(nodes);
        lemma_subtree(nodes, node);
        let fuel = fuel_below(nodes, node);
        let f = (fuel - 1) as nat;
        let kids = nodes[node].children;
        let rest = post_order_list(nodes, kids, f);
        assert(order@ == rest.push(node));
        assert forall|x: u32| rest.contains(x) implies depth[x] > depth[node] by {
            lemma_post_order_list_contains(nodes, kids, f, x);
            let j = choose|j: int| 0 <= j < kids.len() && #[trigger] post_order(nodes, kids[j], f).contains(x);
            assert(nodes[kids[j]].parents == seq![node]);
            assert(nodes[kids[j]].parents[0] == node);
            lemma_post_order_members(nodes, kids[j], f);
        }
        assert(order@.take(order@.len() - 1) =~= rest);
        assert(rest.to_set() =~= below(nodes, node)) by {
            assert forall|x: u32| rest.to_set().contains(x) implies below(nodes, node).contains(x) by {
                let k = choose|k: int| 0 <= k < rest.len() && rest[k] == x;
                assert(order@[k] == x);
            }
            assert forall|x: u32| below(nodes, node).contains(x) implies rest.to_set().contains(x) by {
                let k = choose|k: int| 0 <= k < order@.len() && order@[k] == x;
                assert(k != order@.len() - 1);
                assert(rest[k] == x);
            }
        }
        assert forall|j: int| 0 <= j < order@.len() - 1 implies nodes.contains_key(#[trigger] order@[j]) by {
            assert(subtree(nodes, node).contains(order@[j]));
        }
        assert forall|x: u32, i: int|
            #![trigger below(nodes, node).contains(x), nodes[x].children[i]]
            nodes.contains_key(x) && below(nodes, node).contains(x) && 0 <= i < nodes[x].children.len()
                implies below(nodes, node).contains(nodes[x].children[i]) by {
            let c = nodes[x].children[i];
            assert(subtree(nodes, node).contains(x));
            assert(nodes[c].parents == seq![x]);
            assert(nodes[c].parents[0] == x);
        }
        lemma_without_closed_forest(nodes, below(nodes, node));
    }
    remove_in_order(tree, &order, order.len() - 1);
}

/// An ancestor's entry once a subtree of `removed` bytes below it is
/// gone: its size drops by that much and its entry count by one, neither
/// below zero.
pub open spec fn shrunk(e: EntryView, removed: u128) -> EntryView {
    EntryView {
        size: if e.size >= removed {
            (e.size - removed) as u128
        } else {
            0
        },
        entry_count: match e.entry_count {
            Some(c) => Some(
                if c >= 1 {
                    (c - 1) as u64
                } else {
                    0u64
                },
            ),
            None => None,
        },
        ..e
    }
}

/// `nodes` with the entries of the nodes of `which` shrunk by `removed`
/// bytes.
pub open spec fn shrink_entries(nodes: Map<u32, TreeNode>, which: Set<u32>, removed: u128) -> Map<
    u32,
    TreeNode,
> {
    Map::new(
        |k: u32| nodes.contains_key(k),
        |k: u32|
            if which.contains(k) {
                TreeNode { entry: shrunk(nodes[k].entry, removed), ..nodes[k] }
            } else {
                nodes[k]
            },
    )
}

/// Two maps with the same nodes and edges are forests alike.
pub proof fn lemma_same_shape(a: Map<u32, TreeNode>, b: Map<u32, TreeNode>)
    requires
        is_forest(a),
        a.dom() == b.dom(),
        forall|k: u32| #[trigger] a.contains_key(k) ==> a[k].children == b[k].children
            && a[k].parents == b[k].parents,
    ensures
        is_forest(b),
{
    lemma_forest_depth(a);
    assert forall|n: u32, i: int|
        #![trigger b[n].children[i]]
        b.contains_key(n) && 0 <= i < b[n].children.len() implies {
        &&& b.contains_key(b[n].children[i])
        &&& b[b[n].children[i]].parents == seq![n]
    } by {
        assert(a[n].children[i] == b[n].children[i]);
    }
    assert forall|n: u32| #[trigger] b.contains_key(n) && b[n].parents.len() == 1 implies {
        &&& b.contains_key(b[n].parents[0])
        &&& b[b[n].parents[0]].children.contains(n)
    } by {
        assert(a.contains_key(a[n].parents[0]));
    }
    assert(edges_consistent(b));
    assert(depths_valid(b, forest_depth(a), forest_bound(a)));
}

/// The `i`-th ancestor of `node` lies `i + 1` levels above it.
pub proof fn lemma_chain_depth(nodes: Map<u32, TreeNode>, node: u32, chain: Seq<u32>, i: int)
    requires
        is_forest(nodes),
        nodes.contains_key(node),
        is_ancestor_chain(nodes, node, chain),
        0 <= i < chain.len(),
    ensures
        nodes.contains_key(chain[i]),
        forest_depth(nodes)[chain[i]] + i + 1 == forest_depth(nodes)[node],
    decreases i,
{
    lemma_forest_depth(nodes);
    if i == 0 {
        assert(nodes[node].parents.len() == 1);
    } else {
        lemma_chain_depth(nodes, node, chain, i - 1);
        assert(Some(chain[i]) == parent_of(nodes, chain[i - 1]));
        assert(nodes[chain[i - 1]].parents.len() == 1);
    }
}

/// Takes away the subtree whose top is `node`, then shrinks each ancestor
/// of `node` by the size of `node` and by one entry; nothing changes when
/// there is no such node.
pub fn remove_node_from_tree(tree: &mut Tree, node: u32)
    requires
        is_forest(tree_nodes(*old(tree))),
    ensures
        is_forest(tree_nodes(*final(tree))),
        !tree_nodes(*old(tree)).contains_key(node) ==> tree_nodes(*final(tree)) == tree_nodes(
            *old(tree),
        ),
        tree_nodes(*old(tree)).contains_key(node) ==> tree_nodes(*final(tree)) == shrink_entries(
            without_nodes(tree_nodes(*old(tree)), subtree(tree_nodes(*old(tree)), node)),
            ancestor_set(tree_nodes(*old(tree)), node),
            tree_nodes(*old(tree))[node].entry.size,
        ),
        tree_node_slots(*final(tree)) == tree_node_slots(*old(tree)),
        tree_edge_slots(*final(tree)) == tree_edge_slots(*old(tree)),
{
    let ghost nodes = tree_nodes(*tree);
    let size = match entry_of(tree, node) {
        Some(e) => e.size,
        None => {
            return;
        },
    };
    let chain = ancestors(tree, node);
    let ghost gone = subtree(nodes, node);
    proof {
        lemma_forest_depth(nodes);
        lemma_subtree(nodes, node);
        assert forall|i: int| 0 <= i < chain@.len() implies nodes.contains_key(#[trigger] chain@[i])
            && !gone.contains(chain@[i]) by {
            lemma_chain_depth(nodes, node, chain@, i);
        }
        assert forall|i: int, j: int| 0 <= i < j < chain@.len() implies chain@[i] != chain@[j] by {
            lemma_chain_depth(nodes, node, chain@, i);
            lemma_chain_depth(nodes, node, chain@, j);
        }
    }
    remove_subtree(tree, node);
    let ghost w = tree_nodes(*tree);
    proof {
        assert(shrink_entries(w, chain@.take(0).to_set(), size) =~= w);
    }
    let mut i: usize = 0;
    while i < chain.len()
        invariant
            0 <= i <= chain@.len(),
            w == without_nodes(nodes, gone),
            is_forest(w),
            forall|j: int| 0 <= j < chain@.len() ==> w.contains_key(#[trigger] chain@[j]),
            forall|j: int, k: int| 0 <= j < k < chain@.len() ==> chain@[j] != chain@[k],
            tree_nodes(*tree) == shrink_entries(w, chain@.take(i as int).to_set(), size),
            tree_node_slots(*tree) == tree_node_slots(*old(tree)),
            tree_edge_slots(*tree) == tree_edge_slots(*old(tree)),
        decreases chain@.len() - i,
    {
        let a = chain[i];
        let ghost done = chain@.take(i as int).to_set();
        proof {
            assert(!done.contains(a)) by {
                if done.contains(a) {
                    let j = choose|j: int| 0 <= j < i && chain@.take(i as int)[j] == a;
                    assert(chain@[j] == chain@[i as int]);
                }
            }
            assert(chain@.take(i + 1) =~= chain@.take(i as int).push(a));
            chain@.take(i as int).lemma_push_to_set_commute(a);
        }
        let e = get_entry_or_panic(tree, a);
        let count = match e.entry_count {
            Some(c) => Some(c.saturating_sub(1)),
            None => None,
        };
        let fresh = EntryData {
            name: e.name.clone(),
            size: e.size.saturating_sub(size),
            entry_count: count,
            is_dir: e.is_dir,
        };
        proof {
            assert(fresh@ == shrunk(w[a].entry, size));
        }
        set_entry(tree, a, fresh);
        proof {
            assert(tree_nodes(*tree) =~= shrink_entries(w, chain@.take(i + 1).to_set(), size));
        }
        i = i + 1;
    }
    proof {
        assert(chain@.take(chain@.len() as int) =~= chain@);
        lemma_same_shape(w, tree_nodes(*tree));
    }
}

} // verus!
