use vstd::prelude::*;
use std::collections::{HashMap, HashSet};
use crate::tree::{
    EntryData, EntryView, Tree, TreeNode, add_child, ancestor_chain, ancestor_set, ancestors, is_ancestor_chain, entry_of, outside, set_entry,
    without_nodes, forest_depth, fuel_below, get_entry_or_panic, is_forest, lemma_child_fuel,
    lemma_forest_depth, neighbors, tree_edge_slots, tree_node_slots, tree_nodes, with_edge,
};
use crate::tree_edit::{
    lemma_post_order_has_top, lemma_post_order_list_contains, lemma_post_order_members, lemma_subtree,
    below, lemma_chain_depth, lemma_same_shape, post_order, post_order_list, remove_below, subtree,
};

verus! {

broadcast use vstd::std_specs::hash::group_hash_axioms;

/// The node `k` levels above `x`, going up through first parents.
pub open spec fn up(nodes: Map<u32, TreeNode>, x: u32, k: nat) -> u32
    decreases k,
{
    if k == 0 {
        x
    } else {
        nodes[up(nodes, x, (k - 1) as nat)].parents[0]
    }
}

/// Every node of a post-order walk from `c` lies below `c`: going up from
/// it by the difference of their depths leads to `c`.
proof fn lemma_post_order_up(nodes: Map<u32, TreeNode>, c: u32, fuel: nat)
    requires
        is_forest(nodes),
        nodes.contains_key(c),
    ensures
        forall|x: u32| #[trigger] post_order(nodes, c, fuel).contains(x) ==> up(
            nodes,
            x,
            (forest_depth(nodes)[x] - forest_depth(nodes)[c]) as nat,
        ) == c,
    decreases fuel,
{
    lemma_forest_depth(nodes);
    lemma_post_order_members(nodes, c, fuel);
    let depth = forest_depth(nodes);
    assert forall|x: u32| #[trigger] post_order(nodes, c, fuel).contains(x) implies up(
        nodes,
        x,
        (depth[x] - depth[c]) as nat,
    ) == c by {
        if x == c {
            assert(up(nodes, x, 0) == x);
        } else if fuel == 0 {
            assert(post_order(nodes, c, fuel) =~= seq![c]);
            assert(seq![c][0] == c);
        } else {
            let kids = nodes[c].children;
            let f = (fuel - 1) as nat;
            assert(post_order_list(nodes, kids, f).contains(x)) by {
                let s = post_order(nodes, c, fuel);
                let i = choose|i: int| 0 <= i < s.len() && s[i] == x;
                assert(post_order_list(nodes, kids, f)[i] == x);
            }
            lemma_post_order_list_contains(nodes, kids, f, x);
            let j = choose|j: int| 0 <= j < kids.len() && #[trigger] post_order(nodes, kids[j], f).contains(x);
            let k = kids[j];
            assert(nodes.contains_key(k) && nodes[k].parents == seq![c]);
            assert(nodes[k].parents[0] == c);
            lemma_post_order_up(nodes, k, f);
            lemma_post_order_members(nodes, k, f);
            let m = (depth[x] - depth[k]) as nat;
            assert(depth[k] == depth[c] + 1);
            assert(up(nodes, x, m) == k);
            assert(up(nodes, x, m + 1) == nodes[up(nodes, x, m)].parents[0]);
            assert((depth[x] - depth[c]) as nat == m + 1);
        }
    }
}

/// A child's subtree lies inside its parent's, without the parent.
pub proof fn lemma_kid_subtree(nodes: Map<u32, TreeNode>, s: u32, i: int)
    requires
        is_forest(nodes),
        nodes.contains_key(s),
        0 <= i < nodes[s].children.len(),
    ensures
        fuel_below(nodes, s) >= 1,
        fuel_below(nodes, nodes[s].children[i]) == fuel_below(nodes, s) - 1,
        !subtree(nodes, nodes[s].children[i]).contains(s),
        forall|x: u32| #[trigger] subtree(nodes, nodes[s].children[i]).contains(x) ==> subtree(
            nodes,
            s,
        ).contains(x),
{
    lemma_forest_depth(nodes);
    lemma_child_fuel(nodes, s, i);
    let kids = nodes[s].children;
    let k = kids[i];
    let fuel = fuel_below(nodes, s);
    let f = (fuel - 1) as nat;
    lemma_post_order_members(nodes, k, f);
    assert(nodes[k].parents == seq![s]);
    assert(nodes[k].parents[0] == s);
    assert forall|x: u32| #[trigger] subtree(nodes, k).contains(x) implies subtree(nodes, s).contains(x) by {
        assert(post_order(nodes, k, f).contains(x));
        lemma_post_order_list_contains(nodes, kids, f, x);
        let whole = post_order(nodes, s, fuel);
        assert(whole == post_order_list(nodes, kids, f).push(s));
        let m = choose|m: int|
            0 <= m < post_order_list(nodes, kids, f).len() && post_order_list(nodes, kids, f)[m] == x;
        assert(whole[m] == x);
    }
}

/// The subtrees of two children of one node have no node in common.
proof fn lemma_siblings_apart(nodes: Map<u32, TreeNode>, s: u32, i: int, j: int, x: u32)
    requires
        is_forest(nodes),
        nodes.contains_key(s),
        0 <= i < nodes[s].children.len(),
        0 <= j < nodes[s].children.len(),
        i != j,
        subtree(nodes, nodes[s].children[i]).contains(x),
    ensures
        !subtree(nodes, nodes[s].children[j]).contains(x),
{
    lemma_forest_depth(nodes);
    let kids = nodes[s].children;
    let a = kids[i];
    let b = kids[j];
    let depth = forest_depth(nodes);
    assert(nodes[a].parents == seq![s]);
    assert(nodes[b].parents == seq![s]);
    assert(nodes[a].parents[0] == s);
    assert(nodes[b].parents[0] == s);
    assert(depth[a] == depth[b]);
    lemma_post_order_up(nodes, a, fuel_below(nodes, a));
    lemma_post_order_up(nodes, b, fuel_below(nodes, b));
    assert(kids.no_duplicates());
}

/// In a subtree, the parent of every node but the top is in the subtree
/// too.
pub proof fn lemma_subtree_parent(nodes: Map<u32, TreeNode>, c: u32, fuel: nat, x: u32)
    requires
        is_forest(nodes),
        nodes.contains_key(c),
        post_order(nodes, c, fuel).contains(x),
        x != c,
    ensures
        nodes[x].parents.len() == 1,
        post_order(nodes, c, fuel).contains(nodes[x].parents[0]),
    decreases fuel,
{
    lemma_forest_depth(nodes);
    if fuel == 0 {
        assert(post_order(nodes, c, fuel) =~= seq![c]);
        assert(seq![c][0] == c);
    } else {
        let kids = nodes[c].children;
        let f = (fuel - 1) as nat;
        let whole = post_order(nodes, c, fuel);
        assert(whole == post_order_list(nodes, kids, f).push(c));
        assert(post_order_list(nodes, kids, f).contains(x)) by {
            let i = choose|i: int| 0 <= i < whole.len() && whole[i] == x;
            assert(post_order_list(nodes, kids, f)[i] == x);
        }
        lemma_post_order_list_contains(nodes, kids, f, x);
        let j = choose|j: int| 0 <= j < kids.len() && #[trigger] post_order(nodes, kids[j], f).contains(x);
        let k = kids[j];
        assert(nodes.contains_key(k) && nodes[k].parents == seq![c]);
        if x == k {
            assert(nodes[x].parents[0] == c);
            lemma_post_order_has_top(nodes, c, fuel);
        } else {
            lemma_subtree_parent(nodes, k, f, x);
            let p = nodes[x].parents[0];
            lemma_post_order_list_contains(nodes, kids, f, p);
            let m = choose|m: int|
                0 <= m < post_order_list(nodes, kids, f).len() && post_order_list(nodes, kids, f)[m] == p;
            assert(whole[m] == p);
        }
    }
}

/// A walk over the first `i` nodes of a list is no longer than the walk
/// over the whole list.
proof fn lemma_post_order_prefix_len(nodes: Map<u32, TreeNode>, list: Seq<u32>, fuel: nat, i: int)
    requires
        0 <= i <= list.len(),
    ensures
        post_order_list(nodes, list.take(i), fuel).len() <= post_order_list(nodes, list, fuel).len(),
    decreases list.len() - i,
{
    if i == list.len() {
        assert(list.take(i) =~= list);
    } else {
        lemma_post_order_prefix_len(nodes, list, fuel, i + 1);
        assert(list.take(i + 1).drop_last() =~= list.take(i));
    }
}

proof fn lemma_to_set_concat(a: Seq<u32>, b: Seq<u32>)
    ensures
        (a + b).to_set() == a.to_set().union(b.to_set()),
{
    assert forall|x: u32| (a + b).to_set().contains(x) implies a.to_set().union(b.to_set()).contains(x) by {
        let k = choose|k: int| 0 <= k < (a + b).len() && (a + b)[k] == x;
        if k < a.len() {
            assert(a[k] == x);
        } else {
            assert(b[k - a.len()] == x);
        }
    }
    assert forall|x: u32| a.to_set().union(b.to_set()).contains(x) implies (a + b).to_set().contains(x) by {
        if a.to_set().contains(x) {
            let k = choose|k: int| 0 <= k < a.len() && a[k] == x;
            assert((a + b)[k] == x);
        } else {
            let k = choose|k: int| 0 <= k < b.len() && b[k] == x;
            assert((a + b)[k + a.len()] == x);
        }
    }
    assert((a + b).to_set() =~= a.to_set().union(b.to_set()));
}

/// `k` is the copy of some node of `set`.
pub open spec fn is_image(map: Map<u32, u32>, set: Set<u32>, k: u32) -> bool {
    exists|x: u32| set.contains(x) && map[x] == k
}

/// `dst` holds at node `map[x]` a copy of node `x` of `src`: the same
/// entry, an edge from `parent`, and edges to the copies of the children
/// of `x`, the child added last to `src` coming last.
pub open spec fn copy_of(
    src: Map<u32, TreeNode>,
    dst: Map<u32, TreeNode>,
    map: Map<u32, u32>,
    x: u32,
    parent: u32,
) -> bool {
    &&& dst.contains_key(map[x])
    &&& dst[map[x]].entry == src[x].entry
    &&& dst[map[x]].parents == seq![parent]
    &&& dst[map[x]].children == src[x].children.reverse().map_values(|c: u32| map[c])
}

/// `after` is `before` with a copy of the subtree of `src` whose top is
/// `top` hung below `parent`: `map` grows by the new node of each copied
/// node and keeps its other entries, the new nodes are fresh and distinct,
/// the edge to the copy of `top` comes first at `parent`, and no other
/// node of `before` changes.
pub open spec fn grafted(
    src: Map<u32, TreeNode>,
    top: u32,
    before: Map<u32, TreeNode>,
    after: Map<u32, TreeNode>,
    map_before: Map<u32, u32>,
    map_after: Map<u32, u32>,
    parent: u32,
) -> bool {
    let t = subtree(src, top);
    &&& map_after.dom() == map_before.dom().union(t)
    &&& forall|x: u32| #[trigger] map_before.contains_key(x) ==> map_after[x] == map_before[x]
    &&& forall|x: u32| #[trigger] t.contains(x) ==> !before.contains_key(map_after[x])
    &&& forall|x: u32, y: u32|
        #![trigger map_after[x], map_after[y]]
        t.contains(x) && t.contains(y) && x != y ==> map_after[x] != map_after[y]
    &&& forall|k: u32| #[trigger] after.contains_key(k) ==> before.contains_key(k) || is_image(map_after, t, k)
    &&& forall|k: u32| #[trigger] before.contains_key(k) ==> after.contains_key(k) && (k != parent ==> after[k] == before[k])
    &&& after[parent] == TreeNode { children: seq![map_after[top]] + before[parent].children, ..before[parent] }
    &&& copy_of(src, after, map_after, top, parent)
    &&& forall|x: u32| #[trigger] t.contains(x) && x != top ==> copy_of(src, after, map_after, x, map_after[src[x].parents[0]])
}

/// The parent that the copy of `x` hangs from: `d` for the children of
/// `s`, the copy of its parent for every other node.
pub open spec fn parent_copy(src: Map<u32, TreeNode>, map: Map<u32, u32>, s: u32, d: u32, x: u32) -> u32 {
    if src[x].parents[0] == s {
        d
    } else {
        map[src[x].parents[0]]
    }
}

/// The state of a copy of the children of `s` below node `d` once the
/// subtrees of the children in `done` are in place: `map` grows by the
/// new node of each copied node and keeps its other entries, the new nodes
/// are fresh and distinct, `d` gains an edge to each copied child, the
/// last one first, and no other node of `before` changes.
pub open spec fn children_progress(
    src: Map<u32, TreeNode>,
    s: u32,
    fuel: nat,
    done: Seq<u32>,
    before: Map<u32, TreeNode>,
    now: Map<u32, TreeNode>,
    map_before: Map<u32, u32>,
    map_now: Map<u32, u32>,
    d: u32,
) -> bool {
    let p = post_order_list(src, done, fuel).to_set();
    &&& map_now.dom() == map_before.dom().union(p)
    &&& forall|x: u32| #[trigger] map_before.contains_key(x) ==> map_now[x] == map_before[x]
    &&& forall|x: u32| #[trigger] p.contains(x) ==> !before.contains_key(map_now[x]) && now.contains_key(map_now[x])
    &&& forall|x: u32, y: u32|
        #![trigger map_now[x], map_now[y]]
        p.contains(x) && p.contains(y) && x != y ==> map_now[x] != map_now[y]
    &&& forall|k: u32| #[trigger] now.contains_key(k) ==> before.contains_key(k) || is_image(map_now, p, k)
    &&& forall|k: u32| #[trigger] before.contains_key(k) ==> now.contains_key(k) && (k != d ==> now[k] == before[k])
    &&& now[d] == TreeNode {
        children: done.reverse().map_values(|c: u32| map_now[c]) + before[d].children,
        ..before[d]
    }
    &&& forall|x: u32| #[trigger] p.contains(x) ==> copy_of(src, now, map_now, x, parent_copy(src, map_now, s, d, x))
}

/// A node of the walk over the first `i` children of `s` lies in the
/// subtree of one of them.
proof fn lemma_done_member(src: Map<u32, TreeNode>, s: u32, f: nat, i: int, x: u32) -> (j: int)
    requires
        is_forest(src),
        src.contains_key(s),
        f + 1 == fuel_below(src, s),
        0 <= i <= src[s].children.len(),
        post_order_list(src, src[s].children.take(i), f).contains(x),
    ensures
        0 <= j < i,
        subtree(src, src[s].children[j]).contains(x),
{
    let kids = src[s].children;
    lemma_post_order_list_contains(src, kids.take(i), f, x);
    let j = choose|j: int| 0 <= j < kids.take(i).len() && #[trigger] post_order(src, kids.take(i)[j], f).contains(x);
    assert(kids.take(i)[j] == kids[j]);
    lemma_kid_subtree(src, s, j);
    j
}

/// What a node of the walk over the first `i` children of `s` is like.
proof fn lemma_done_facts(src: Map<u32, TreeNode>, s: u32, f: nat, i: int, x: u32)
    requires
        is_forest(src),
        src.contains_key(s),
        f + 1 == fuel_below(src, s),
        0 <= i < src[s].children.len(),
        post_order_list(src, src[s].children.take(i), f).contains(x),
    ensures
        x != s,
        src.contains_key(x),
        subtree(src, s).contains(x),
        !subtree(src, src[s].children[i]).contains(x),
        src[x].parents.len() == 1,
        src[x].parents[0] == s || post_order_list(src, src[s].children.take(i), f).contains(
            src[x].parents[0],
        ),
        forall|m: int| 0 <= m < src[x].children.len() ==> post_order_list(src, src[s].children.take(i), f).contains(
            #[trigger] src[x].children[m],
        ),
{
    let kids = src[s].children;
    let j = lemma_done_member(src, s, f, i, x);
    let k = kids[j];
    lemma_kid_subtree(src, s, j);
    lemma_siblings_apart(src, s, j, i, x);
    lemma_subtree(src, k);
    assert(post_order(src, k, f).contains(x));
    let p = post_order_list(src, kids.take(i), f);
    assert(kids.take(i)[j] == k);
    lemma_forest_depth(src);
    assert(src[k].parents == seq![s]);
    if x == k {
        assert(src[x].parents[0] == s);
    } else {
        lemma_subtree_parent(src, k, f, x);
        lemma_post_order_list_contains(src, kids.take(i), f, src[x].parents[0]);
    }
    assert forall|m: int| 0 <= m < src[x].children.len() implies p.contains(#[trigger] src[x].children[m]) by {
        assert(subtree(src, k).contains(src[x].children[m]));
        lemma_post_order_list_contains(src, kids.take(i), f, src[x].children[m]);
    }
}

/// One more child's subtree in place keeps the copy's state as described.
#[verifier::rlimit(40)]
proof fn lemma_copy_step(
    src: Map<u32, TreeNode>,
    s: u32,
    f: nat,
    i: int,
    before: Map<u32, TreeNode>,
    now: Map<u32, TreeNode>,
    next: Map<u32, TreeNode>,
    m0: Map<u32, u32>,
    mi: Map<u32, u32>,
    mn: Map<u32, u32>,
    d: u32,
)
    requires
        is_forest(src),
        src.contains_key(s),
        f + 1 == fuel_below(src, s),
        0 <= i < src[s].children.len(),
        before.contains_key(d),
        children_progress(src, s, f, src[s].children.take(i), before, now, m0, mi, d),
        grafted(src, src[s].children[i], now, next, mi, mn, d),
    ensures
        children_progress(src, s, f, src[s].children.take(i + 1), before, next, m0, mn, d),
{
    let kids = src[s].children;
    let kid = kids[i];
    lemma_kid_subtree(src, s, i);
    lemma_forest_depth(src);
    lemma_subtree(src, kid);
    let p = post_order_list(src, kids.take(i), f);
    let p2 = post_order_list(src, kids.take(i + 1), f);
    assert(kids.take(i + 1).drop_last() =~= kids.take(i));
    assert(p2 == p + post_order(src, kid, f));
    lemma_to_set_concat(p, post_order(src, kid, f));
    let ps = p.to_set();
    let tk = subtree(src, kid);
    let t2 = p2.to_set();
    assert(t2 == ps.union(tk));
    assert(src[kid].parents == seq![s]);
    assert(src[kid].parents[0] == s);
    assert forall|x: u32| #[trigger] ps.contains(x) implies !tk.contains(x) && mi.contains_key(x) && now.contains_key(mi[x]) && mn[x] == mi[x] by {
        lemma_done_facts(src, s, f, i, x);
    }
    assert(mn.dom() =~= m0.dom().union(t2));
    assert forall|x: u32| #[trigger] m0.contains_key(x) implies mn[x] == m0[x] by {
        assert(mi.contains_key(x));
    }
    assert forall|x: u32| #[trigger] t2.contains(x) implies !before.contains_key(mn[x]) && next.contains_key(mn[x]) by {
        if ps.contains(x) {
            assert(now.contains_key(mi[x]));
        } else {
            assert(tk.contains(x));
            if x != kid {
                assert(copy_of(src, next, mn, x, mn[src[x].parents[0]]));
            }
        }
    }
    assert forall|x: u32, y: u32|
        #![trigger mn[x], mn[y]]
        t2.contains(x) && t2.contains(y) && x != y implies mn[x] != mn[y] by {
        if ps.contains(x) && ps.contains(y) {
            assert(mi[x] != mi[y]);
        } else if tk.contains(x) && tk.contains(y) {
        } else if ps.contains(x) {
            assert(now.contains_key(mi[x]));
        } else {
            assert(now.contains_key(mi[y]));
        }
    }
    assert forall|k: u32| #[trigger] next.contains_key(k) implies before.contains_key(k) || is_image(mn, t2, k) by {
        if now.contains_key(k) {
            if !before.contains_key(k) {
                let x = choose|x: u32| ps.contains(x) && mi[x] == k;
                assert(t2.contains(x) && mn[x] == k);
            }
        } else {
            let x = choose|x: u32| tk.contains(x) && mn[x] == k;
            assert(t2.contains(x));
        }
    }
    assert forall|k: u32| #[trigger] before.contains_key(k) implies next.contains_key(k) && (k != d ==> next[k] == before[k]) by {
        assert(now.contains_key(k));
        if k != d {
            assert(now[k] == before[k]);
        }
    }
    assert(next[d].children =~= kids.take(i + 1).reverse().map_values(|c: u32| mn[c]) + before[d].children) by {
        assert forall|m: int| 0 <= m < i implies #[trigger] kids.take(i)[m] == kids[m] && ps.contains(kids[m]) by {
            lemma_post_order_has_top(src, kids[m], f);
            lemma_post_order_list_contains(src, kids.take(i), f, kids[m]);
        }
    }
    assert forall|x: u32| #[trigger] t2.contains(x) implies copy_of(src, next, mn, x, parent_copy(src, mn, s, d, x)) by {
        if ps.contains(x) {
            lemma_done_facts(src, s, f, i, x);
            assert(copy_of(src, now, mi, x, parent_copy(src, mi, s, d, x)));
            assert(mi[x] != d);
            if src[x].parents[0] != s {
                assert(ps.contains(src[x].parents[0]));
            }
            assert(next[mn[x]].children =~= src[x].children.reverse().map_values(|c: u32| mn[c])) by {
                assert forall|m: int| 0 <= m < src[x].children.len() implies ps.contains(#[trigger] src[x].children[m]) by {
                }
            }
        } else {
            assert(tk.contains(x));
            if x != kid {
                assert(!tk.contains(s));
                assert(tk.contains(src[x].parents[0])) by {
                    lemma_subtree_parent(src, kid, f, x);
                }
            }
        }
    }
}

/// Before any child is copied.
proof fn lemma_copy_start(
    src: Map<u32, TreeNode>,
    s: u32,
    f: nat,
    before: Map<u32, TreeNode>,
    m0: Map<u32, u32>,
    d: u32,
)
    requires
        before.contains_key(d),
    ensures
        children_progress(src, s, f, src[s].children.take(0), before, before, m0, m0, d),
{
    let kids = src[s].children;
    let p = post_order_list(src, kids.take(0), f);
    assert(p =~= Seq::<u32>::empty());
    assert(p.to_set() =~= Set::<u32>::empty());
    assert(m0.dom() =~= m0.dom().union(p.to_set()));
    assert(before[d].children =~= kids.take(0).reverse().map_values(|c: u32| m0[c]) + before[d].children);
}

/// The nodes strictly below `s` are exactly those of the walk over its
/// children.
pub proof fn lemma_below_children(src: Map<u32, TreeNode>, s: u32)
    requires
        is_forest(src),
        src.contains_key(s),
    ensures
        fuel_below(src, s) >= 1,
        post_order_list(src, src[s].children, (fuel_below(src, s) - 1) as nat).to_set() == below(src, s),
        subtree(src, s) == below(src, s).insert(s),
{
    lemma_forest_depth(src);
    let fuel = fuel_below(src, s);
    let f = (fuel - 1) as nat;
    let kids = src[s].children;
    let p = post_order_list(src, kids, f);
    assert(post_order(src, s, fuel) == p.push(s));
    p.lemma_push_to_set_commute(s);
    assert(!p.contains(s)) by {
        if p.contains(s) {
            lemma_post_order_list_contains(src, kids, f, s);
            let j = choose|j: int| 0 <= j < kids.len() && #[trigger] post_order(src, kids[j], f).contains(s);
            assert(src[kids[j]].parents == seq![s]);
            assert(src[kids[j]].parents[0] == s);
            lemma_post_order_members(src, kids[j], f);
        }
    }
    assert(p.to_set() =~= below(src, s));
    assert(subtree(src, s) =~= below(src, s).insert(s));
}

/// The copy of `s` is complete once its children are copied below the new
/// node `d`.
#[verifier::rlimit(40)]
proof fn lemma_copy_finish(
    sn: Map<u32, TreeNode>,
    s: u32,
    before: Map<u32, TreeNode>,
    mid: Map<u32, TreeNode>,
    after: Map<u32, TreeNode>,
    m0: Map<u32, u32>,
    m1: Map<u32, u32>,
    mm: Map<u32, u32>,
    d: u32,
    dp: u32,
)
    requires
        is_forest(sn),
        sn.contains_key(s),
        before.contains_key(dp),
        !before.contains_key(d),
        forall|x: u32| #[trigger] subtree(sn, s).contains(x) ==> !m0.contains_key(x),
        m1 == m0.insert(s, d),
        mid == with_edge(
            before.insert(d, TreeNode { entry: sn[s].entry, children: Seq::empty(), parents: Seq::empty() }),
            dp,
            d,
        ),
        children_progress(sn, s, (fuel_below(sn, s) - 1) as nat, sn[s].children, mid, after, m1, mm, d),
    ensures
        grafted(sn, s, before, after, m0, mm, dp),
{
    lemma_below_children(sn, s);
    let kids = sn[s].children;
    let f = (fuel_below(sn, s) - 1) as nat;
    let p = post_order_list(sn, kids, f).to_set();
    let t = subtree(sn, s);
    assert(t == p.insert(s));
    assert(t.contains(s));
    assert(!m0.contains_key(s));
    assert(m1.contains_key(s));
    assert(mm[s] == d);
    assert(mm.dom() =~= m0.dom().union(t));
    assert forall|x: u32| #[trigger] m0.contains_key(x) implies mm[x] == m0[x] by {
        assert(x != s);
        assert(m1.contains_key(x));
    }
    assert forall|x: u32| #[trigger] t.contains(x) implies !before.contains_key(mm[x]) by {
        if x != s {
            assert(p.contains(x));
        }
    }
    assert forall|x: u32, y: u32|
        #![trigger mm[x], mm[y]]
        t.contains(x) && t.contains(y) && x != y implies mm[x] != mm[y] by {
        if x == s {
            assert(p.contains(y));
            assert(mid.contains_key(d));
        } else if y == s {
            assert(p.contains(x));
            assert(mid.contains_key(d));
        }
    }
    assert forall|k: u32| #[trigger] after.contains_key(k) implies before.contains_key(k) || is_image(mm, t, k) by {
        if mid.contains_key(k) {
            if k == d {
                assert(t.contains(s) && mm[s] == k);
            }
        } else {
            let x = choose|x: u32| p.contains(x) && mm[x] == k;
            assert(t.contains(x));
        }
    }
    assert forall|k: u32| #[trigger] before.contains_key(k) implies after.contains_key(k) && (k != dp ==> after[k] == before[k]) by {
        assert(mid.contains_key(k));
    }
    assert(mid.contains_key(d));
    assert(after[mm[s]].children =~= sn[s].children.reverse().map_values(|c: u32| mm[c]));
    assert forall|x: u32| #[trigger] t.contains(x) && x != s implies copy_of(sn, after, mm, x, mm[sn[x].parents[0]]) by {
        assert(p.contains(x));
    }
}

/// Copies the subtrees of the children of node `s` of `src` below node
/// `d` of `dst`, child by child in the order of the edges of `s`, and
/// records in `node_map` the new node of each copied node.
fn copy_children(src: &Tree, dst: &mut Tree, s: u32, d: u32, node_map: &mut HashMap<u32, u32>)
    requires
        is_forest(tree_nodes(*src)),
        tree_nodes(*src).contains_key(s),
        is_forest(tree_nodes(*old(dst))),
        tree_nodes(*old(dst)).contains_key(d),
        forall|x: u32| #[trigger] below(tree_nodes(*src), s).contains(x) ==> !old(node_map)@.contains_key(x),
        forall|x: u32| #[trigger] old(node_map)@.contains_key(x) ==> tree_nodes(*old(dst)).contains_key(
            old(node_map)@[x],
        ),
        tree_node_slots(*old(dst)) + post_order(tree_nodes(*src), s, fuel_below(tree_nodes(*src), s)).len()
            <= u32::MAX + 1,
        tree_edge_slots(*old(dst)) + post_order(tree_nodes(*src), s, fuel_below(tree_nodes(*src), s)).len()
            <= u32::MAX + 1,
    ensures
        is_forest(tree_nodes(*final(dst))),
        children_progress(
            tree_nodes(*src),
            s,
            (fuel_below(tree_nodes(*src), s) - 1) as nat,
            tree_nodes(*src)[s].children,
            tree_nodes(*old(dst)),
            tree_nodes(*final(dst)),
            old(node_map)@,
            final(node_map)@,
            d,
        ),
        tree_node_slots(*final(dst)) + 1 <= tree_node_slots(*old(dst)) + post_order(
            tree_nodes(*src),
            s,
            fuel_below(tree_nodes(*src), s),
        ).len(),
        tree_edge_slots(*final(dst)) + 1 <= tree_edge_slots(*old(dst)) + post_order(
            tree_nodes(*src),
            s,
            fuel_below(tree_nodes(*src), s),
        ).len(),
    decreases fuel_below(tree_nodes(*src), s), 0nat,
{
    let ghost sn = tree_nodes(*src);
    let ghost before = tree_nodes(*dst);
    let ghost m0 = node_map@;
    let ghost fuel = fuel_below(sn, s);
    let ghost node_slots = tree_node_slots(*dst);
    let ghost edge_slots = tree_edge_slots(*dst);
    proof {
        lemma_forest_depth(sn);
        lemma_below_children(sn, s);
    }
    let ghost f = (fuel - 1) as nat;
    proof {
        assert(post_order(sn, s, fuel) == post_order_list(sn, sn[s].children, f).push(s));
        lemma_copy_start(sn, s, f, before, m0, d);
    }
    let kids = neighbors(src, s, true);
    let mut i: usize = 0;
    while i < kids.len()
        invariant
            sn == tree_nodes(*src),
            is_forest(sn),
            sn.contains_key(s),
            fuel == fuel_below(sn, s),
            f + 1 == fuel,
            kids@ == sn[s].children,
            0 <= i <= kids@.len(),
            before.contains_key(d),
            forall|x: u32| #[trigger] below(sn, s).contains(x) ==> !m0.contains_key(x),
            forall|x: u32| #[trigger] m0.contains_key(x) ==> before.contains_key(m0[x]),
            post_order_list(sn, kids@, f).to_set() == below(sn, s),
            is_forest(tree_nodes(*dst)),
            children_progress(sn, s, f, kids@.take(i as int), before, tree_nodes(*dst), m0, node_map@, d),
            tree_node_slots(*dst) <= node_slots + post_order_list(sn, kids@.take(i as int), f).len(),
            tree_edge_slots(*dst) <= edge_slots + post_order_list(sn, kids@.take(i as int), f).len(),
            node_slots + post_order_list(sn, kids@, f).len() <= u32::MAX,
            edge_slots + post_order_list(sn, kids@, f).len() <= u32::MAX,
        decreases kids@.len() - i,
    {
        let ghost now = tree_nodes(*dst);
        let ghost mi = node_map@;
        let kid = kids[i];
        proof {
            lemma_kid_subtree(sn, s, i as int);
            assert forall|x: u32| #[trigger] subtree(sn, kid).contains(x) implies !mi.contains_key(x) by {
                if post_order_list(sn, kids@.take(i as int), f).contains(x) {
                    lemma_done_facts(sn, s, f, i as int, x);
                }
                assert(below(sn, s).contains(x));
            }
            assert forall|x: u32| #[trigger] mi.contains_key(x) implies now.contains_key(mi[x]) by {
                if m0.contains_key(x) {
                    assert(before.contains_key(m0[x]));
                }
            }
            lemma_post_order_prefix_len(sn, kids@, f, i + 1);
            assert(kids@.take(i + 1).drop_last() =~= kids@.take(i as int));
            assert(kids@.take(i + 1).last() == kid);
            assert(post_order_list(sn, kids@.take(i + 1), f) == post_order_list(sn, kids@.take(i as int), f)
                + post_order(sn, kid, f));
            assert(now.contains_key(d));
        }
        copy_subtree(src, dst, kid, d, node_map);
        proof {
            lemma_copy_step(sn, s, f, i as int, before, now, tree_nodes(*dst), m0, mi, node_map@, d);
        }
        i = i + 1;
    }
    proof {
        assert(kids@.take(kids@.len() as int) =~= kids@);
    }
}

/// Copies the subtree of `src` whose top is `s` below node `dp` of `dst`,
/// each node before the nodes below it and the children of each node in
/// the order of its edges, and records in `node_map` the new node of each
/// copied node.
fn copy_subtree(src: &Tree, dst: &mut Tree, s: u32, dp: u32, node_map: &mut HashMap<u32, u32>)
    requires
        is_forest(tree_nodes(*src)),
        tree_nodes(*src).contains_key(s),
        is_forest(tree_nodes(*old(dst))),
        tree_nodes(*old(dst)).contains_key(dp),
        forall|x: u32| #[trigger] subtree(tree_nodes(*src), s).contains(x) ==> !old(node_map)@.contains_key(x),
        forall|x: u32| #[trigger] old(node_map)@.contains_key(x) ==> tree_nodes(*old(dst)).contains_key(
            old(node_map)@[x],
        ),
        tree_node_slots(*old(dst)) + post_order(tree_nodes(*src), s, fuel_below(tree_nodes(*src), s)).len()
            <= u32::MAX,
        tree_edge_slots(*old(dst)) + post_order(tree_nodes(*src), s, fuel_below(tree_nodes(*src), s)).len()
            <= u32::MAX,
    ensures
        is_forest(tree_nodes(*final(dst))),
        grafted(
            tree_nodes(*src),
            s,
            tree_nodes(*old(dst)),
            tree_nodes(*final(dst)),
            old(node_map)@,
            final(node_map)@,
            dp,
        ),
        tree_node_slots(*final(dst)) <= tree_node_slots(*old(dst)) + post_order(
            tree_nodes(*src),
            s,
            fuel_below(tree_nodes(*src), s),
        ).len(),
        tree_edge_slots(*final(dst)) <= tree_edge_slots(*old(dst)) + post_order(
            tree_nodes(*src),
            s,
            fuel_below(tree_nodes(*src), s),
        ).len(),
    decreases fuel_below(tree_nodes(*src), s), 1nat,
{
    let ghost sn = tree_nodes(*src);
    let ghost before = tree_nodes(*dst);
    let ghost m0 = node_map@;
    proof {
        lemma_forest_depth(sn);
        lemma_below_children(sn, s);
    }
    let entry = get_entry_or_panic(src, s).clone();
    let d = add_child(dst, Some(dp), entry);
    node_map.insert(s, d);
    let ghost mid = tree_nodes(*dst);
    let ghost m1 = node_map@;
    proof {
        assert forall|x: u32| #[trigger] below(sn, s).contains(x) implies !m1.contains_key(x) by {
            assert(subtree(sn, s).contains(x));
        }
        assert forall|x: u32| #[trigger] m1.contains_key(x) implies mid.contains_key(m1[x]) by {
            if x != s {
                assert(before.contains_key(m0[x]));
            }
        }
        assert(mid.contains_key(d));
    }
    copy_children(src, dst, s, d, node_map);
    proof {
        lemma_copy_finish(sn, s, before, mid, tree_nodes(*dst), m0, m1, node_map@, d, dp);
    }
}

/// An ancestor's entry once the subtree below it grew by `diff` bytes (or
/// shrank, for a negative `diff`): its size moves by as much, not below
/// zero.
pub open spec fn resized(e: EntryView, diff: int) -> EntryView {
    EntryView {
        size: if e.size + diff >= 0 {
            (e.size + diff) as u128
        } else {
            0
        },
        ..e
    }
}

/// `nodes` with the entries of the nodes of `which` resized by `diff`.
pub open spec fn resize_entries(nodes: Map<u32, TreeNode>, which: Set<u32>, diff: int) -> Map<u32, TreeNode> {
    Map::new(
        |k: u32| nodes.contains_key(k),
        |k: u32|
            if which.contains(k) {
                TreeNode { entry: resized(nodes[k].entry, diff), ..nodes[k] }
            } else {
                nodes[k]
            },
    )
}

/// The size of node `n`, or 0 when there is no such node.
pub open spec fn size_or_zero(nodes: Map<u32, TreeNode>, n: u32) -> u128 {
    if nodes.contains_key(n) {
        nodes[n].entry.size
    } else {
        0
    }
}

/// The nodes below `root` in `partial`, none when there is no such node.
pub open spec fn copied_nodes(partial: Map<u32, TreeNode>, root: u32) -> Set<u32> {
    if partial.contains_key(root) {
        below(partial, root)
    } else {
        Set::empty()
    }
}

/// `after` is `main` with the nodes below `target` replaced by a copy of
/// the nodes below `root` in `partial`, `map` giving the new node of each
/// copied node: the children of `target` are the copies of the children
/// of `root`, the child added last to `partial` coming last; `target` takes
/// the size of `root`, and each ancestor of `target` moves by the change
/// in size; no other node changes.
#[verifier::opaque]
pub open spec fn merged(
    main: Map<u32, TreeNode>,
    target: u32,
    partial: Map<u32, TreeNode>,
    root: u32,
    map: Map<u32, u32>,
    after: Map<u32, TreeNode>,
) -> bool {
    let w = without_nodes(main, below(main, target));
    let copied = copied_nodes(partial, root);
    let kids = if partial.contains_key(root) {
        partial[root].children
    } else {
        Seq::empty()
    };
    let new_size = size_or_zero(partial, root);
    let diff = new_size - main[target].entry.size;
    &&& map.dom() == copied
    &&& forall|x: u32| #[trigger] copied.contains(x) ==> !w.contains_key(map[x]) && after.contains_key(map[x])
    &&& forall|x: u32, y: u32|
        #![trigger map[x], map[y]]
        copied.contains(x) && copied.contains(y) && x != y ==> map[x] != map[y]
    &&& forall|k: u32| #[trigger] after.contains_key(k) <==> w.contains_key(k) || is_image(map, copied, k)
    &&& forall|k: u32|
        #[trigger] w.contains_key(k) && k != target ==> after[k] == if ancestor_set(main, target).contains(k) {
            TreeNode { entry: resized(w[k].entry, diff), ..w[k] }
        } else {
            w[k]
        }
    &&& after[target] == TreeNode {
        entry: EntryView { size: new_size, ..w[target].entry },
        children: kids.reverse().map_values(|c: u32| map[c]),
        parents: w[target].parents,
    }
    &&& forall|x: u32| #[trigger] copied.contains(x) ==> copy_of(partial, after, map, x, parent_copy(partial, map, root, target, x))
}

proof fn lemma_filter_none<A>(s: Seq<A>, f: spec_fn(A) -> bool)
    requires
        forall|i: int| 0 <= i < s.len() ==> !#[trigger] f(s[i]),
    ensures
        s.filter(f) == Seq::<A>::empty(),
    decreases s.len(),
{
    if s.len() == 0 {
        reveal(Seq::filter);
        assert(s =~= Seq::<A>::empty());
    } else {
        let t = s.drop_last();
        assert(s =~= t.push(s.last()));
        assert forall|i: int| 0 <= i < t.len() implies !#[trigger] f(t[i]) by {
            assert(t[i] == s[i]);
        }
        lemma_filter_none(t, f);
        t.lemma_filter_push(s.last(), f);
    }
}

/// The tree after a merge, from the states along the way.
#[verifier::rlimit(40)]
proof fn lemma_merge_result(
    m: Map<u32, TreeNode>,
    target: u32,
    pn: Map<u32, TreeNode>,
    root: u32,
    w: Map<u32, TreeNode>,
    y: Map<u32, TreeNode>,
    x: Map<u32, TreeNode>,
    after: Map<u32, TreeNode>,
    g: Map<u32, u32>,
    chain: Seq<u32>,
    diff: int,
)
    requires
        m.contains_key(target),
        w == without_nodes(m, below(m, target)),
        w.contains_key(target),
        w[target].children == Seq::<u32>::empty(),
        pn.contains_key(root) ==> children_progress(
            pn,
            root,
            (fuel_below(pn, root) - 1) as nat,
            pn[root].children,
            w,
            y,
            Map::empty(),
            g,
            target,
        ),
        pn.contains_key(root) ==> post_order_list(pn, pn[root].children, (fuel_below(pn, root) - 1) as nat).to_set()
            == below(pn, root),
        !pn.contains_key(root) ==> y == w && g == Map::<u32, u32>::empty(),
        x == y.insert(target, TreeNode { entry: EntryView { size: size_or_zero(pn, root), ..y[target].entry }, ..y[target] }),
        chain == ancestor_chain(m, target),
        forall|j: int| 0 <= j < chain.len() ==> w.contains_key(#[trigger] chain[j]) && chain[j] != target,
        diff == size_or_zero(pn, root) - m[target].entry.size,
        after == resize_entries(x, chain.to_set(), diff),
    ensures
        merged(m, target, pn, root, g, after),
{
    reveal(merged);
    let copied = if pn.contains_key(root) {
        below(pn, root)
    } else {
        Set::empty()
    };
    let kids = if pn.contains_key(root) {
        pn[root].children
    } else {
        Seq::empty()
    };
    assert(chain.to_set() == ancestor_set(m, target));
    assert(g.dom() =~= copied);
    assert forall|k: u32| #[trigger] w.contains_key(k) implies y.contains_key(k) && (k != target ==> y[k] == w[k]) by {
    }
    assert forall|c: u32| #[trigger] copied.contains(c) implies !w.contains_key(g[c]) && y.contains_key(g[c]) && g[c] != target && !chain.to_set().contains(g[c]) by {
        if chain.to_set().contains(g[c]) {
            let j = choose|j: int| 0 <= j < chain.len() && chain[j] == g[c];
            assert(w.contains_key(chain[j]));
        }
    }
    assert forall|k: u32| #[trigger] after.contains_key(k) <==> w.contains_key(k) || is_image(g, copied, k) by {
        if is_image(g, copied, k) {
            let c = choose|c: u32| copied.contains(c) && g[c] == k;
            assert(y.contains_key(g[c]));
        }
    }
    assert(after[target].children =~= kids.reverse().map_values(|c: u32| g[c])) by {
        assert(!chain.to_set().contains(target)) by {
            if chain.to_set().contains(target) {
                let j = choose|j: int| 0 <= j < chain.len() && chain[j] == target;
            }
        }
        if !pn.contains_key(root) {
            assert(kids.reverse().map_values(|c: u32| g[c]) =~= Seq::<u32>::empty());
        }
    }
    assert forall|c: u32| #[trigger] copied.contains(c) implies copy_of(pn, after, g, c, parent_copy(pn, g, root, target, c)) by {
        assert(copy_of(pn, y, g, c, parent_copy(pn, g, root, target, c)));
    }
}

/// Once the nodes below `target` are gone, `target` has no edge down.
proof fn lemma_below_gone(m: Map<u32, TreeNode>, target: u32)
    requires
        is_forest(m),
        m.contains_key(target),
    ensures
        without_nodes(m, below(m, target)).contains_key(target),
        without_nodes(m, below(m, target))[target].children == Seq::<u32>::empty(),
{
    let gone = below(m, target);
    lemma_forest_depth(m);
    lemma_subtree(m, target);
    assert forall|i: int| 0 <= i < m[target].children.len() implies !#[trigger] outside(gone)(
        m[target].children[i],
    ) by {
        lemma_post_order_has_top(m, m[target].children[i], fuel_below(m, m[target].children[i]));
        lemma_kid_subtree(m, target, i);
        assert(m[m[target].children[i]].parents == seq![target]);
    }
    lemma_filter_none(m[target].children, outside(gone));
}

/// The ancestors of `target` stay when the nodes below it go, and none
/// comes twice.
proof fn lemma_ancestors_stay(m: Map<u32, TreeNode>, target: u32, chain: Seq<u32>)
    requires
        is_forest(m),
        m.contains_key(target),
        is_ancestor_chain(m, target, chain),
    ensures
        forall|i: int| 0 <= i < chain.len() ==> without_nodes(m, below(m, target)).contains_key(
            #[trigger] chain[i],
        ) && chain[i] != target,
        forall|i: int, j: int| 0 <= i < j < chain.len() ==> chain[i] != chain[j],
{
    lemma_forest_depth(m);
    lemma_subtree(m, target);
    assert forall|i: int| 0 <= i < chain.len() implies without_nodes(m, below(m, target)).contains_key(
        #[trigger] chain[i],
    ) && chain[i] != target by {
        lemma_chain_depth(m, target, chain, i);
    }
    assert forall|i: int, j: int| 0 <= i < j < chain.len() implies chain[i] != chain[j] by {
        lemma_chain_depth(m, target, chain, i);
        lemma_chain_depth(m, target, chain, j);
    }
}

/// Sets the size of node `node`, which is known to exist.
fn set_size(tree: &mut Tree, node: u32, size: u128)
    requires
        tree_nodes(*old(tree)).contains_key(node),
    ensures
        tree_nodes(*final(tree)) == tree_nodes(*old(tree)).insert(
            node,
            TreeNode {
                entry: EntryView { size: size, ..tree_nodes(*old(tree))[node].entry },
                ..tree_nodes(*old(tree))[node]
            },
        ),
        tree_node_slots(*final(tree)) == tree_node_slots(*old(tree)),
        tree_edge_slots(*final(tree)) == tree_edge_slots(*old(tree)),
{
    let e = get_entry_or_panic(tree, node);
    let fresh = EntryData { name: e.name.clone(), size: size, entry_count: e.entry_count, is_dir: e.is_dir };
    set_entry(tree, node, fresh);
}

/// Moves the size of each node of `chain` by `diff`, not below zero.
fn resize_chain(tree: &mut Tree, chain: &Vec<u32>, diff: i128)
    requires
        forall|j: int| 0 <= j < chain@.len() ==> tree_nodes(*old(tree)).contains_key(#[trigger] chain@[j]),
        forall|j: int, k: int| 0 <= j < k < chain@.len() ==> chain@[j] != chain@[k],
        forall|j: int|
            0 <= j < chain@.len() ==> tree_nodes(*old(tree))[#[trigger] chain@[j]].entry.size <= i128::MAX
                && tree_nodes(*old(tree))[chain@[j]].entry.size + diff <= i128::MAX,
        diff >= -i128::MAX,
    ensures
        tree_nodes(*final(tree)) == resize_entries(tree_nodes(*old(tree)), chain@.to_set(), diff as int),
        tree_node_slots(*final(tree)) == tree_node_slots(*old(tree)),
        tree_edge_slots(*final(tree)) == tree_edge_slots(*old(tree)),
{
    let ghost x = tree_nodes(*tree);
    proof {
        assert(resize_entries(x, chain@.take(0).to_set(), diff as int) =~= x) by {
            assert(chain@.take(0).to_set() =~= Set::<u32>::empty());
        }
    }
    let mut i: usize = 0;
    while i < chain.len()
        invariant
            0 <= i <= chain@.len(),
            forall|j: int| 0 <= j < chain@.len() ==> x.contains_key(#[trigger] chain@[j]),
            forall|j: int, k: int| 0 <= j < k < chain@.len() ==> chain@[j] != chain@[k],
            forall|j: int|
                0 <= j < chain@.len() ==> x[#[trigger] chain@[j]].entry.size <= i128::MAX && x[chain@[j]].entry.size
                    + diff <= i128::MAX,
            diff >= -i128::MAX,
            tree_nodes(*tree) == resize_entries(x, chain@.take(i as int).to_set(), diff as int),
            tree_node_slots(*tree) == tree_node_slots(*old(tree)),
            tree_edge_slots(*tree) == tree_edge_slots(*old(tree)),
        decreases chain@.len() - i,
    {
        let a = chain[i];
        let ghost done = chain@.take(i as int).to_set();
        proof {
            assert(!done.contains(a)) by {
                if done.contains(a) {
                    let j = choose|j: int| 0 <= j < i && chain@.take(i as int)[j] == a;
                    assert(chain@[j] == chain@[i as int]);
                }
            }
            assert(chain@.take(i + 1) =~= chain@.take(i as int).push(a));
            chain@.take(i as int).lemma_push_to_set_commute(a);
            assert(x.contains_key(a));
        }
        let e = get_entry_or_panic(tree, a);
        let grown: i128 = e.size as i128 + diff;
        let size: u128 = if grown >= 0 {
            grown as u128
        } else {
            0
        };
        let fresh = EntryData { name: e.name.clone(), size: size, entry_count: e.entry_count, is_dir: e.is_dir };
        proof {
            assert(fresh@ == resized(x[a].entry, diff as int));
        }
        set_entry(tree, a, fresh);
        proof {
            assert(tree_nodes(*tree) =~= resize_entries(x, chain@.take(i + 1).to_set(), diff as int));
        }
        i = i + 1;
    }
    proof {
        assert(chain@.take(chain@.len() as int) =~= chain@);
    }
}

/// What a merge gives the old nodes, when the rescan has its top node.
pub proof fn lemma_merged_old_facts(
    main: Map<u32, TreeNode>,
    target: u32,
    partial: Map<u32, TreeNode>,
    root: u32,
    map: Map<u32, u32>,
    after: Map<u32, TreeNode>,
)
    requires
        merged(main, target, partial, root, map, after),
        partial.contains_key(root),
    ensures
        forall|k: u32|
            #[trigger] without_nodes(main, below(main, target)).contains_key(k) && k != target ==> after[k] == if ancestor_set(main, target).contains(k) {
                TreeNode {
                    entry: resized(
                        without_nodes(main, below(main, target))[k].entry,
                        partial[root].entry.size - main[target].entry.size,
                    ),
                    ..without_nodes(main, below(main, target))[k]
                }
            } else {
                without_nodes(main, below(main, target))[k]
            },
        after[target].entry.size == partial[root].entry.size,
{
    reveal(merged);
}

/// What a merge gives the copied nodes and `target`, when the rescan has
/// its top node.
pub proof fn lemma_merged_facts(
    main: Map<u32, TreeNode>,
    target: u32,
    partial: Map<u32, TreeNode>,
    root: u32,
    map: Map<u32, u32>,
    after: Map<u32, TreeNode>,
)
    requires
        merged(main, target, partial, root, map, after),
        partial.contains_key(root),
    ensures
        map.dom() == below(partial, root),
        forall|k: u32| #[trigger] after.contains_key(k) <==> without_nodes(main, below(main, target)).contains_key(k)
            || is_image(map, below(partial, root), k),
        after[target].entry.size == partial[root].entry.size,
        after[target].children.len() == partial[root].children.len(),
        forall|i: int| 0 <= i < after[target].children.len() ==> #[trigger] after[target].children[i]
            == map[partial[root].children[partial[root].children.len() - 1 - i]],
        forall|x: u32| #[trigger] below(partial, root).contains(x) ==> {
            &&& after[map[x]].entry == partial[x].entry
            &&& after[map[x]].children.len() == partial[x].children.len()
            &&& forall|i: int| 0 <= i < after[map[x]].children.len() ==> #[trigger] after[map[x]].children[i]
                == map[partial[x].children[partial[x].children.len() - 1 - i]]
        },
{
    reveal(merged);
    let copied = below(partial, root);
    let chosen = copied_nodes(partial, root);
    assert(chosen == copied);
    assert forall|x: u32| #[trigger] copied.contains(x) implies {
        &&& after[map[x]].entry == partial[x].entry
        &&& after[map[x]].children.len() == partial[x].children.len()
        &&& forall|i: int| 0 <= i < after[map[x]].children.len() ==> #[trigger] after[map[x]].children[i]
            == map[partial[x].children[partial[x].children.len() - 1 - i]]
    } by {
        assert(chosen.contains(x));
        assert(copy_of(partial, after, map, x, parent_copy(partial, map, root, target, x)));
    }
}

/// Replaces the nodes below `target` in `main` by a copy of the nodes
/// below `partial_root` in `partial`, a fresh scan of the same directory:
/// the old subtrees go first, child by child, each node after the nodes
/// below it; then the subtree of each child of `partial_root` is copied,
/// each node before the nodes below it; `target` takes the size of
/// `partial_root`, each ancestor of `target` moves by the change in size
/// (not below zero), and `target` is marked as expanded. Returns the new
/// node of each copied node. Nothing but the mark changes when `main` has
/// no node `target`.
pub fn merge_partial_scan(
    main: &mut Tree,
    target: u32,
    partial: &Tree,
    partial_root: u32,
    expanded: &mut HashSet<u32>,
) -> (node_map: HashMap<u32, u32>)
    requires
        is_forest(tree_nodes(*old(main))),
        is_forest(tree_nodes(*partial)),
        tree_nodes(*partial).contains_key(partial_root) && tree_nodes(*partial)[partial_root].children.len()
            > 0 ==> tree_nodes(*old(main)).contains_key(target),
        tree_nodes(*partial).contains_key(partial_root) ==> tree_node_slots(*old(main)) + post_order(
            tree_nodes(*partial),
            partial_root,
            fuel_below(tree_nodes(*partial), partial_root),
        ).len() <= u32::MAX + 1,
        tree_nodes(*partial).contains_key(partial_root) ==> tree_edge_slots(*old(main)) + post_order(
            tree_nodes(*partial),
            partial_root,
            fuel_below(tree_nodes(*partial), partial_root),
        ).len() <= u32::MAX + 1,
        tree_nodes(*old(main)).contains_key(target) ==> tree_nodes(*old(main))[target].entry.size
            <= i128::MAX,
        size_or_zero(tree_nodes(*partial), partial_root) <= i128::MAX,
        forall|a: u32|
            #[trigger] ancestor_set(tree_nodes(*old(main)), target).contains(a) ==> tree_nodes(
                *old(main),
            )[a].entry.size <= i128::MAX && tree_nodes(*old(main))[a].entry.size + size_or_zero(
                tree_nodes(*partial),
                partial_root,
            ) - tree_nodes(*old(main))[target].entry.size <= i128::MAX,
    ensures
        is_forest(tree_nodes(*final(main))),
        final(expanded)@ == old(expanded)@.insert(target),
        !tree_nodes(*old(main)).contains_key(target) ==> tree_nodes(*final(main)) == tree_nodes(*old(main))
            && node_map@ == Map::<u32, u32>::empty(),
        tree_nodes(*old(main)).contains_key(target) ==> merged(
            tree_nodes(*old(main)),
            target,
            tree_nodes(*partial),
            partial_root,
            node_map@,
            tree_nodes(*final(main)),
        ),
{
    let ghost m = tree_nodes(*main);
    let ghost pn = tree_nodes(*partial);
    let mut node_map: HashMap<u32, u32> = HashMap::new();
    let old_size: u128 = match entry_of(main, target) {
        Some(e) => e.size,
        None => {
            expanded.insert(target);
            proof {
                assert(node_map@ =~= Map::<u32, u32>::empty());
            }
            return node_map;
        },
    };
    let chain = ancestors(main, target);
    let ghost w = without_nodes(m, below(m, target));
    proof {
        lemma_ancestors_stay(m, target, chain@);
        lemma_below_gone(m, target);
    }
    remove_below(main, target);
    let new_size: u128 = match entry_of(partial, partial_root) {
        Some(e) => e.size,
        None => 0,
    };
    let has_root = entry_of(partial, partial_root).is_some();
    if has_root {
        proof {
            lemma_below_children(pn, partial_root);
        }
        copy_children(partial, main, partial_root, target, &mut node_map);
    }
    let ghost y = tree_nodes(*main);
    let ghost g = node_map@;
    proof {
        if has_root {
            lemma_below_children(pn, partial_root);
        } else {
            assert(g =~= Map::<u32, u32>::empty());
        }
        assert(y.contains_key(target));
    }
    set_size(main, target, new_size);
    let ghost x = tree_nodes(*main);
    let diff: i128 = new_size as i128 - old_size as i128;
    proof {
        assert(x.dom() =~= y.dom());
        lemma_same_shape(y, x);
        assert forall|j: int| 0 <= j < chain@.len() implies x.contains_key(#[trigger] chain@[j])
            && x[chain@[j]].entry.size <= i128::MAX && x[chain@[j]].entry.size + diff <= i128::MAX by {
            assert(w.contains_key(chain@[j]));
            assert(ancestor_set(m, target).contains(chain@[j]));
        }
    }
    resize_chain(main, &chain, diff);
    expanded.insert(target);
    proof {
        let after = tree_nodes(*main);
        assert(after.dom() =~= x.dom());
        lemma_same_shape(x, after);
        lemma_merge_result(m, target, pn, partial_root, w, y, x, after, g, chain@, diff as int);
    }
    node_map
}

} // verus!
