use vstd::prelude::*;
use crate::tree::{
    TreeNode, ancestor_chain, ancestor_set, edges_consistent, forest_depth, is_ancestor_chain,
    is_directory, is_forest, lemma_forest_depth, outside, parent_of, without_nodes,
};
use crate::tree_edit::{below, lemma_chain_depth, lemma_subtree, shrink_entries, subtree};
use crate::graft::{merged, resized};

verus! {

/// The sum of the sizes of the nodes of `list`.
pub open spec fn total_size(nodes: Map<u32, TreeNode>, list: Seq<u32>) -> int
    decreases list.len(),
{
    if list.len() == 0 {
        0
    } else {
        total_size(nodes, list.drop_last()) + nodes[list.last()].entry.size
    }
}

/// The size of every directory, and of every node with entries below it,
/// is the sum of the sizes of its entries.
pub open spec fn sizes_add_up(nodes: Map<u32, TreeNode>) -> bool {
    forall|n: u32|
        #[trigger] nodes.contains_key(n) && (is_directory(nodes[n].entry) || nodes[n].children.len() > 0)
            ==> nodes[n].entry.size == total_size(nodes, nodes[n].children)
}

proof fn lemma_total_at_least(nodes: Map<u32, TreeNode>, list: Seq<u32>, j: int)
    requires
        0 <= j < list.len(),
    ensures
        total_size(nodes, list) >= nodes[list[j]].entry.size,
    decreases list.len(),
{
    lemma_total_nonneg(nodes, list.drop_last());
    if j < list.len() - 1 {
        lemma_total_at_least(nodes, list.drop_last(), j);
    }
}

proof fn lemma_total_nonneg(nodes: Map<u32, TreeNode>, list: Seq<u32>)
    ensures
        total_size(nodes, list) >= 0,
    decreases list.len(),
{
    if list.len() > 0 {
        lemma_total_nonneg(nodes, list.drop_last());
    }
}

/// Sums over the same list agree when the sizes of its nodes do.
proof fn lemma_total_same(a: Map<u32, TreeNode>, b: Map<u32, TreeNode>, list: Seq<u32>)
    requires
        forall|i: int| 0 <= i < list.len() ==> a[#[trigger] list[i]].entry.size == b[list[i]].entry.size,
    ensures
        total_size(a, list) == total_size(b, list),
    decreases list.len(),
{
    if list.len() > 0 {
        let rest = list.drop_last();
        assert forall|i: int| 0 <= i < rest.len() implies a[#[trigger] rest[i]].entry.size == b[rest[i]].entry.size by {
            assert(rest[i] == list[i]);
        }
        lemma_total_same(a, b, rest);
    }
}

/// When one node of a list moves by `d` and the others stay, the sum moves
/// by `d`.
proof fn lemma_total_shift(a: Map<u32, TreeNode>, b: Map<u32, TreeNode>, list: Seq<u32>, j: int, d: int)
    requires
        list.no_duplicates(),
        0 <= j < list.len(),
        b[list[j]].entry.size == a[list[j]].entry.size + d,
        forall|i: int| 0 <= i < list.len() && i != j ==> a[#[trigger] list[i]].entry.size == b[list[i]].entry.size,
    ensures
        total_size(b, list) == total_size(a, list) + d,
    decreases list.len(),
{
    let rest = list.drop_last();
    if j == list.len() - 1 {
        assert forall|i: int| 0 <= i < rest.len() implies a[#[trigger] rest[i]].entry.size == b[rest[i]].entry.size by {
            assert(rest[i] == list[i]);
        }
        lemma_total_same(a, b, rest);
    } else {
        assert(rest.no_duplicates());
        assert forall|i: int| 0 <= i < rest.len() && i != j implies a[#[trigger] rest[i]].entry.size == b[rest[i]].entry.size by {
            assert(rest[i] == list[i]);
        }
        assert(rest[j] == list[j]);
        lemma_total_shift(a, b, rest, j, d);
        assert(list.last() != list[j]);
    }
}

/// Filtering a list with a condition that holds of all its nodes but one
/// leaves the sum less that node's size, when the others keep theirs.
proof fn lemma_total_drop(
    a: Map<u32, TreeNode>,
    b: Map<u32, TreeNode>,
    list: Seq<u32>,
    p: spec_fn(u32) -> bool,
    j: int,
)
    requires
        list.no_duplicates(),
        0 <= j < list.len(),
        !p(list[j]),
        forall|i: int| 0 <= i < list.len() && i != j ==> #[trigger] p(list[i]),
        forall|i: int| 0 <= i < list.len() && i != j ==> a[#[trigger] list[i]].entry.size == b[list[i]].entry.size,
    ensures
        total_size(b, list.filter(p)) == total_size(a, list) - a[list[j]].entry.size,
    decreases list.len(),
{
    let rest = list.drop_last();
    assert(list =~= rest.push(list.last()));
    rest.lemma_filter_push(list.last(), p);
    if j == list.len() - 1 {
        assert forall|i: int| 0 <= i < rest.len() implies #[trigger] p(rest[i]) by {
            assert(rest[i] == list[i]);
        }
        crate::tree_edit::lemma_filter_keeps_all(rest, p);
        assert forall|i: int| 0 <= i < rest.len() implies a[#[trigger] rest[i]].entry.size == b[rest[i]].entry.size by {
            assert(rest[i] == list[i]);
        }
        lemma_total_same(a, b, rest);
    } else {
        assert(rest.no_duplicates());
        assert forall|i: int| 0 <= i < rest.len() && i != j implies #[trigger] p(rest[i]) by {
            assert(rest[i] == list[i]);
        }
        assert forall|i: int| 0 <= i < rest.len() && i != j implies a[#[trigger] rest[i]].entry.size == b[rest[i]].entry.size by {
            assert(rest[i] == list[i]);
        }
        assert(rest[j] == list[j]);
        lemma_total_drop(a, b, rest, p, j);
        assert(p(list[list.len() - 1]));
        let fr = rest.filter(p);
        assert(fr.push(list.last()).drop_last() =~= fr);
        assert(a[list[list.len() - 1]].entry.size == b[list[list.len() - 1]].entry.size);
    }
}

/// In a forest, the ancestors of a node form a chain.
#[verifier::rlimit(30)]
pub proof fn lemma_ancestor_chain_exists(nodes: Map<u32, TreeNode>, n: u32)
    requires
        is_forest(nodes),
        nodes.contains_key(n),
    ensures
        is_ancestor_chain(nodes, n, ancestor_chain(nodes, n)),
    decreases forest_depth(nodes)[n],
{
    lemma_forest_depth(nodes);
    if nodes[n].parents.len() == 0 {
        assert(is_ancestor_chain(nodes, n, Seq::<u32>::empty()));
    } else {
        let p = nodes[n].parents[0];
        assert(nodes.contains_key(p));
        lemma_ancestor_chain_exists(nodes, p);
        let up = ancestor_chain(nodes, p);
        let chain = seq![p] + up;
        assert(chain.len() > 0);
        assert(chain[0] == p);
        assert(Some(chain[0]) == parent_of(nodes, n));
        assert forall|i: int| 1 <= i < chain.len() implies Some(#[trigger] chain[i]) == parent_of(nodes, chain[i - 1]) by {
            if i == 1 {
                assert(chain[1] == up[0]);
            } else {
                assert(chain[i] == up[i - 1]);
                assert(chain[i - 1] == up[i - 2]);
            }
        }
        if up.len() > 0 {
            assert(chain.last() == up.last());
        } else {
            assert(chain.last() == p);
        }
        assert(parent_of(nodes, chain.last()) is None);
        assert(is_ancestor_chain(nodes, n, chain));
    }
}

/// Every ancestor of a node is at least as large as the node, when sizes
/// add up.
proof fn lemma_chain_sizes(nodes: Map<u32, TreeNode>, node: u32, chain: Seq<u32>, i: int)
    requires
        is_forest(nodes),
        sizes_add_up(nodes),
        nodes.contains_key(node),
        is_ancestor_chain(nodes, node, chain),
        0 <= i < chain.len(),
    ensures
        nodes[chain[i]].entry.size >= nodes[node].entry.size,
    decreases i,
{
    lemma_chain_depth(nodes, node, chain, i);
    let below = if i == 0 {
        node
    } else {
        chain[i - 1]
    };
    if i > 0 {
        lemma_chain_sizes(nodes, node, chain, i - 1);
        lemma_chain_depth(nodes, node, chain, i - 1);
        assert(Some(chain[i]) == parent_of(nodes, chain[i - 1]));
    }
    assert(nodes.contains_key(below));
    assert(nodes[below].parents.len() == 1 && nodes[below].parents[0] == chain[i]);
    assert(nodes[chain[i]].children.contains(below));
    let j = choose|j: int| 0 <= j < nodes[chain[i]].children.len() && nodes[chain[i]].children[j] == below;
    lemma_total_at_least(nodes, nodes[chain[i]].children, j);
}

/// The size of node `k` adds up once `node` and the nodes below it are
/// gone and its ancestors have shrunk.
#[verifier::rlimit(60)]
proof fn lemma_removal_sizes_at(nodes: Map<u32, TreeNode>, node: u32, k: u32)
    requires
        is_forest(nodes),
        sizes_add_up(nodes),
        nodes.contains_key(node),
        shrink_entries(
            without_nodes(nodes, subtree(nodes, node)),
            ancestor_set(nodes, node),
            nodes[node].entry.size,
        ).contains_key(k),
    ensures
        ({
            let r = shrink_entries(
                without_nodes(nodes, subtree(nodes, node)),
                ancestor_set(nodes, node),
                nodes[node].entry.size,
            );
            (is_directory(r[k].entry) || r[k].children.len() > 0) ==> r[k].entry.size == total_size(r, r[k].children)
        }),
{
    let s = nodes[node].entry.size;
    let gone = subtree(nodes, node);
    let w = without_nodes(nodes, gone);
    let chain = ancestor_chain(nodes, node);
    let anc = ancestor_set(nodes, node);
    let r = shrink_entries(w, anc, s);
    lemma_forest_depth(nodes);
    lemma_subtree(nodes, node);
    lemma_ancestor_chain_exists(nodes, node);
    assert(anc == chain.to_set());
    let kids = nodes[k].children;
    assert(kids.no_duplicates());
    assert(w.contains_key(k));
    assert(!gone.contains(k));
    // where the chain lies
    assert forall|m: int| 0 <= m < chain.len() implies nodes.contains_key(#[trigger] chain[m]) && !gone.contains(chain[m])
        && nodes[chain[m]].entry.size >= s by {
        lemma_chain_depth(nodes, node, chain, m);
        lemma_chain_sizes(nodes, node, chain, m);
    }
    assert forall|m1: int, m2: int| 0 <= m1 < m2 < chain.len() implies chain[m1] != chain[m2] by {
        lemma_chain_depth(nodes, node, chain, m1);
        lemma_chain_depth(nodes, node, chain, m2);
    }
    // the children of `k`
    assert forall|m: int| 0 <= m < kids.len() implies nodes.contains_key(#[trigger] kids[m])
        && nodes[kids[m]].parents == seq![k] && (gone.contains(kids[m]) ==> kids[m] == node) by {
        assert(nodes.contains_key(kids[m]));
        let c = kids[m];
        if gone.contains(c) && c != node {
            crate::graft::lemma_subtree_parent(nodes, node, crate::tree::fuel_below(nodes, node), c);
            assert(nodes[c].parents[0] == k);
        }
    }
    // a child of `k` on the chain, or `node` itself, makes `k` the next one up
    assert forall|m: int| 0 <= m < kids.len() && (kids[m] == node || anc.contains(kids[m])) implies (#[trigger] kids[m]
        == node && chain.len() > 0 && chain[0] == k) || (exists|c: int|
        0 <= c < chain.len() - 1 && #[trigger] chain[c] == kids[m] && chain[c + 1] == k) by {
        let c = kids[m];
        assert(nodes[c].parents == seq![k]);
        assert(parent_of(nodes, c) == Some(k));
        if c == node {
            assert(chain.len() > 0);
        } else {
            let ci = choose|ci: int| 0 <= ci < chain.len() && chain[ci] == c;
            if ci == chain.len() - 1 {
                assert(parent_of(nodes, chain.last()) is None);
            }
            assert(Some(chain[ci + 1]) == parent_of(nodes, chain[ci]));
        }
    }
    if is_directory(r[k].entry) || r[k].children.len() > 0 {
        assert(r[k].children == kids.filter(outside(gone)));
        if !anc.contains(k) {
            assert forall|m: int| 0 <= m < kids.len() implies #[trigger] outside(gone)(kids[m]) && !anc.contains(kids[m]) by {
                if kids[m] == node || anc.contains(kids[m]) {
                    if kids[m] == node {
                        assert(anc.contains(chain[0]));
                    } else {
                        let c = choose|c: int| 0 <= c < chain.len() - 1 && #[trigger] chain[c] == kids[m] && chain[c + 1] == k;
                        assert(anc.contains(chain[c + 1]));
                    }
                }
            }
            crate::tree_edit::lemma_filter_keeps_all(kids, outside(gone));
            assert(kids.len() > 0 || is_directory(nodes[k].entry));
            assert forall|m: int| 0 <= m < kids.len() implies nodes[#[trigger] kids[m]].entry.size == r[kids[m]].entry.size by {
                assert(w.contains_key(kids[m]));
            }
            lemma_total_same(nodes, r, kids);
        } else {
            let i = choose|i: int| 0 <= i < chain.len() && chain[i] == k;
            let next = if i == 0 {
                node
            } else {
                chain[i - 1]
            };
            assert(nodes.contains_key(next));
            if i > 0 {
                assert(Some(chain[i]) == parent_of(nodes, chain[i - 1]));
            }
            assert(parent_of(nodes, next) == Some(k));
            assert(nodes[next].parents.len() == 1);
            assert(nodes[k].children.contains(next));
            let j = choose|j: int| 0 <= j < kids.len() && kids[j] == next;
            // the other children are neither gone nor on the chain
            assert forall|m: int| 0 <= m < kids.len() && m != j implies #[trigger] outside(gone)(kids[m]) && !anc.contains(kids[m]) && kids[m] != node by {
                if kids[m] == node || anc.contains(kids[m]) {
                    if kids[m] == node {
                        assert(chain[0] == k);
                        assert(i == 0);
                    } else {
                        let c = choose|c: int| 0 <= c < chain.len() - 1 && #[trigger] chain[c] == kids[m] && chain[c + 1] == k;
                        assert(c + 1 == i);
                        assert(kids[m] == next);
                    }
                }
            }
            assert forall|m: int| 0 <= m < kids.len() && m != j implies nodes[#[trigger] kids[m]].entry.size == r[kids[m]].entry.size by {
                assert(w.contains_key(kids[m]));
            }
            assert(nodes[k].entry.size >= s);
            if i == 0 {
                lemma_total_drop(nodes, r, kids, outside(gone), j);
            } else {
                assert(!gone.contains(next));
                assert forall|m: int| 0 <= m < kids.len() implies #[trigger] outside(gone)(kids[m]) by {
                }
                crate::tree_edit::lemma_filter_keeps_all(kids, outside(gone));
                assert(anc.contains(next));
                assert(w.contains_key(next));
                assert(nodes[next].entry.size >= s);
                lemma_total_shift(nodes, r, kids, j, -s);
            }
        }
    }
}

/// Taking away a node and everything below it, as `remove_node_from_tree`
/// does, keeps every size the sum of its entries' sizes: the ancestors of
/// the node shrink by exactly its size.
pub proof fn removal_keeps_sizes(nodes: Map<u32, TreeNode>, node: u32)
    requires
        is_forest(nodes),
        sizes_add_up(nodes),
        nodes.contains_key(node),
    ensures
        sizes_add_up(
            shrink_entries(
                without_nodes(nodes, subtree(nodes, node)),
                ancestor_set(nodes, node),
                nodes[node].entry.size,
            ),
        ),
{
    let r = shrink_entries(
        without_nodes(nodes, subtree(nodes, node)),
        ancestor_set(nodes, node),
        nodes[node].entry.size,
    );
    assert forall|k: u32| #[trigger] r.contains_key(k) && (is_directory(r[k].entry) || r[k].children.len() > 0)
        implies r[k].entry.size == total_size(r, r[k].children) by {
        lemma_removal_sizes_at(nodes, node, k);
    }
}

proof fn lemma_total_concat(nodes: Map<u32, TreeNode>, a: Seq<u32>, b: Seq<u32>)
    ensures
        total_size(nodes, a + b) == total_size(nodes, a) + total_size(nodes, b),
    decreases b.len(),
{
    if b.len() == 0 {
        assert(a + b =~= a);
    } else {
        lemma_total_concat(nodes, a, b.drop_last());
        assert((a + b).drop_last() =~= a + b.drop_last());
        assert((a + b).last() == b.last());
    }
}

proof fn lemma_total_reverse(nodes: Map<u32, TreeNode>, list: Seq<u32>)
    ensures
        total_size(nodes, list.reverse()) == total_size(nodes, list),
    decreases list.len(),
{
    if list.len() > 0 {
        let rest = list.drop_last();
        lemma_total_reverse(nodes, rest);
        assert(list.reverse() =~= seq![list.last()] + rest.reverse());
        lemma_total_concat(nodes, seq![list.last()], rest.reverse());
        assert(seq![list.last()].drop_last() =~= Seq::<u32>::empty());
        assert(total_size(nodes, Seq::<u32>::empty()) == 0);
        assert(total_size(nodes, seq![list.last()]) == nodes[list.last()].entry.size);
    }
}

/// Two lists whose nodes have the same sizes, place by place, have the
/// same sum.
proof fn lemma_total_matched(a: Map<u32, TreeNode>, b: Map<u32, TreeNode>, la: Seq<u32>, lb: Seq<u32>)
    requires
        la.len() == lb.len(),
        forall|i: int| 0 <= i < la.len() ==> a[#[trigger] la[i]].entry.size == b[lb[i]].entry.size,
    ensures
        total_size(a, la) == total_size(b, lb),
    decreases la.len(),
{
    if la.len() > 0 {
        let ra = la.drop_last();
        let rb = lb.drop_last();
        assert forall|i: int| 0 <= i < ra.len() implies a[#[trigger] ra[i]].entry.size == b[rb[i]].entry.size by {
            assert(ra[i] == la[i]);
            assert(rb[i] == lb[i]);
        }
        lemma_total_matched(a, b, ra, rb);
        assert(a[la[la.len() - 1]].entry.size == b[lb[lb.len() - 1]].entry.size);
    }
}

/// The copies of a list of nodes of `partial`, in reverse order, have the
/// same sum as the list itself.
proof fn lemma_total_copies(
    partial: Map<u32, TreeNode>,
    after: Map<u32, TreeNode>,
    map: Map<u32, u32>,
    list: Seq<u32>,
    copies: Seq<u32>,
)
    requires
        copies.len() == list.len(),
        forall|i: int| 0 <= i < copies.len() ==> #[trigger] copies[i] == map[list[list.len() - 1 - i]],
        forall|i: int| 0 <= i < list.len() ==> after[map[#[trigger] list[i]]].entry.size == partial[list[i]].entry.size,
    ensures
        total_size(after, copies) == total_size(partial, list),
{
    let rev = list.reverse();
    assert forall|i: int| 0 <= i < rev.len() implies partial[#[trigger] rev[i]].entry.size == after[copies[i]].entry.size by {
        assert(rev[i] == list[list.len() - 1 - i]);
        assert(copies[i] == map[rev[i]]);
    }
    lemma_total_matched(partial, after, rev, copies);
    lemma_total_reverse(partial, list);
}

/// The children of every copied node, and of the top of the rescan, are
/// copied too.
proof fn lemma_copied_closed(pn: Map<u32, TreeNode>, root: u32)
    requires
        is_forest(pn),
        pn.contains_key(root),
    ensures
        forall|x: u32, i: int|
            #![trigger below(pn, root).contains(x), pn[x].children[i]]
            below(pn, root).contains(x) && 0 <= i < pn[x].children.len() ==> below(pn, root).contains(pn[x].children[i]),
        forall|i: int| 0 <= i < pn[root].children.len() ==> below(pn, root).contains(#[trigger] pn[root].children[i]),
{
    let copied = below(pn, root);
    lemma_forest_depth(pn);
    lemma_subtree(pn, root);
    crate::tree_edit::lemma_post_order_members(pn, root, crate::tree::fuel_below(pn, root));
    assert forall|x: u32, i: int|
        #![trigger copied.contains(x), pn[x].children[i]]
        copied.contains(x) && 0 <= i < pn[x].children.len() implies copied.contains(pn[x].children[i]) by {
        let c = pn[x].children[i];
        assert(subtree(pn, root).contains(x));
        assert(pn[c].parents == seq![x]);
        assert(pn[c].parents[0] == x);
        assert(subtree(pn, root).contains(c));
    }
    let kids = pn[root].children;
    assert forall|i: int| 0 <= i < kids.len() implies copied.contains(#[trigger] kids[i]) by {
        crate::graft::lemma_kid_subtree(pn, root, i);
        crate::tree_edit::lemma_post_order_has_top(pn, kids[i], crate::tree::fuel_below(pn, kids[i]));
        crate::graft::lemma_below_children(pn, root);
    }
}

/// The children of an old node `k` other than `target`: none is gone
/// when the nodes below `target` go, and at most one, the next node on the
/// way down to `target`, is `target` or one of its ancestors; all of them
/// are at least as large as `target`.
#[verifier::rlimit(60)]
proof fn lemma_old_children(m: Map<u32, TreeNode>, target: u32, k: u32) -> (r: (int, u32))
    requires
        is_forest(m),
        sizes_add_up(m),
        m.contains_key(target),
        without_nodes(m, below(m, target)).contains_key(k),
        k != target,
    ensures
        m[k].children.no_duplicates(),
        without_nodes(m, below(m, target))[k].children == m[k].children,
        forall|i: int| 0 <= i < m[k].children.len() ==> without_nodes(m, below(m, target)).contains_key(
            #[trigger] m[k].children[i],
        ),
        !ancestor_set(m, target).contains(k) ==> forall|i: int|
            0 <= i < m[k].children.len() ==> #[trigger] m[k].children[i] != target && !ancestor_set(
                m,
                target,
            ).contains(m[k].children[i]),
        ancestor_set(m, target).contains(k) ==> {
            &&& 0 <= r.0 < m[k].children.len()
            &&& m[k].children[r.0] == r.1
            &&& r.1 == target || ancestor_set(m, target).contains(r.1)
            &&& m[r.1].entry.size >= m[target].entry.size
            &&& m[k].entry.size >= m[target].entry.size
            &&& forall|i: int|
                0 <= i < m[k].children.len() && i != r.0 ==> #[trigger] m[k].children[i] != target
                    && !ancestor_set(m, target).contains(m[k].children[i])
        },
{
    let gone = below(m, target);
    let w = without_nodes(m, gone);
    let old_size = m[target].entry.size;
    let chain = ancestor_chain(m, target);
    let anc = ancestor_set(m, target);
    lemma_forest_depth(m);
    lemma_subtree(m, target);
    lemma_ancestor_chain_exists(m, target);
    assert(anc == chain.to_set());
    let kids = m[k].children;
    assert(kids.no_duplicates());
    assert(!subtree(m, target).contains(k));
    assert forall|i: int| 0 <= i < kids.len() implies m.contains_key(#[trigger] kids[i]) && m[kids[i]].parents
        == seq![k] && !gone.contains(kids[i]) && w.contains_key(kids[i]) by {
        let c = kids[i];
        assert(m.contains_key(c));
        if gone.contains(c) {
            crate::graft::lemma_subtree_parent(m, target, crate::tree::fuel_below(m, target), c);
            assert(m[c].parents[0] == k);
        }
    }
    assert forall|i: int| 0 <= i < kids.len() implies #[trigger] outside(gone)(kids[i]) by {
    }
    crate::tree_edit::lemma_filter_keeps_all(kids, outside(gone));
    assert(w[k].children == kids);
    assert forall|mm: int| 0 <= mm < chain.len() implies m.contains_key(#[trigger] chain[mm]) && chain[mm] != target
        && m[chain[mm]].entry.size >= old_size by {
        lemma_chain_depth(m, target, chain, mm);
        lemma_chain_sizes(m, target, chain, mm);
    }
    assert forall|m1: int, m2: int| 0 <= m1 < m2 < chain.len() implies chain[m1] != chain[m2] by {
        lemma_chain_depth(m, target, chain, m1);
        lemma_chain_depth(m, target, chain, m2);
    }
    assert forall|i: int| 0 <= i < kids.len() && (kids[i] == target || anc.contains(kids[i])) implies (#[trigger] kids[i]
        == target && chain.len() > 0 && chain[0] == k) || (exists|c: int|
        0 <= c < chain.len() - 1 && #[trigger] chain[c] == kids[i] && chain[c + 1] == k) by {
        let c = kids[i];
        assert(m[c].parents == seq![k]);
        assert(parent_of(m, c) == Some(k));
        if c == target {
            assert(chain.len() > 0);
        } else {
            let ci = choose|ci: int| 0 <= ci < chain.len() && chain[ci] == c;
            if ci == chain.len() - 1 {
                assert(parent_of(m, chain.last()) is None);
            }
            assert(Some(chain[ci + 1]) == parent_of(m, chain[ci]));
        }
    }
    if !anc.contains(k) {
        assert forall|i: int| 0 <= i < kids.len() implies #[trigger] kids[i] != target && !anc.contains(kids[i]) by {
            if kids[i] == target || anc.contains(kids[i]) {
                if kids[i] == target {
                    assert(anc.contains(chain[0]));
                } else {
                    let c = choose|c: int| 0 <= c < chain.len() - 1 && #[trigger] chain[c] == kids[i] && chain[c + 1] == k;
                    assert(anc.contains(chain[c + 1]));
                }
            }
        }
        (0, k)
    } else {
        let i = choose|i: int| 0 <= i < chain.len() && chain[i] == k;
        let next = if i == 0 {
            target
        } else {
            chain[i - 1]
        };
        assert(m.contains_key(next));
        if i > 0 {
            assert(Some(chain[i]) == parent_of(m, chain[i - 1]));
            assert(anc.contains(next));
        }
        assert(parent_of(m, next) == Some(k));
        assert(m[next].parents.len() == 1);
        assert(m[k].children.contains(next));
        let j = choose|j: int| 0 <= j < kids.len() && kids[j] == next;
        assert forall|mi: int| 0 <= mi < kids.len() && mi != j implies #[trigger] kids[mi] != target && !anc.contains(kids[mi]) by {
            if kids[mi] == target || anc.contains(kids[mi]) {
                if kids[mi] == target {
                    assert(chain[0] == k);
                    assert(i == 0);
                } else {
                    let c = choose|c: int| 0 <= c < chain.len() - 1 && #[trigger] chain[c] == kids[mi] && chain[c + 1] == k;
                    assert(c + 1 == i);
                }
            }
        }
        (j, next)
    }
}

/// The size of an old node `k` other than `target` adds up after a merge.
#[verifier::rlimit(60)]
proof fn lemma_merge_old_node(
    m: Map<u32, TreeNode>,
    target: u32,
    new_size: u128,
    after: Map<u32, TreeNode>,
    k: u32,
)
    requires
        is_forest(m),
        sizes_add_up(m),
        m.contains_key(target),
        forall|j: u32|
            #[trigger] without_nodes(m, below(m, target)).contains_key(j) && j != target ==> after[j] == if ancestor_set(m, target).contains(j) {
                TreeNode {
                    entry: resized(without_nodes(m, below(m, target))[j].entry, new_size - m[target].entry.size),
                    ..without_nodes(m, below(m, target))[j]
                }
            } else {
                without_nodes(m, below(m, target))[j]
            },
        after[target].entry.size == new_size,
        forall|a: u32| #[trigger] ancestor_set(m, target).contains(a) ==> m[a].entry.size + new_size - m[target].entry.size <= u128::MAX,
        without_nodes(m, below(m, target)).contains_key(k),
        k != target,
        is_directory(after[k].entry) || after[k].children.len() > 0,
    ensures
        after[k].entry.size == total_size(after, after[k].children),
{
    let w = without_nodes(m, below(m, target));
    let anc = ancestor_set(m, target);
    let diff = new_size - m[target].entry.size;
    let kids = m[k].children;
    let r = lemma_old_children(m, target, k);
    assert(w[k].entry == m[k].entry);
    if !anc.contains(k) {
        assert(after[k] == w[k]);
        assert forall|i: int| 0 <= i < kids.len() implies m[#[trigger] kids[i]].entry.size == after[kids[i]].entry.size by {
            assert(w.contains_key(kids[i]));
            assert(after[kids[i]] == w[kids[i]]);
        }
        lemma_total_same(m, after, kids);
    } else {
        let j = r.0;
        let next = r.1;
        assert forall|i: int| 0 <= i < kids.len() && i != j implies m[#[trigger] kids[i]].entry.size == after[kids[i]].entry.size by {
            assert(w.contains_key(kids[i]));
            assert(after[kids[i]] == w[kids[i]]);
        }
        if next != target {
            assert(anc.contains(next));
            assert(w.contains_key(next));
            assert(w[next].entry == m[next].entry);
            assert(after[next].entry == resized(w[next].entry, diff));
            assert(m[next].entry.size + diff >= 0);
            assert(m[next].entry.size + diff <= u128::MAX);
        }
        assert(after[next].entry.size == m[next].entry.size + diff);
        assert(after[k].entry == resized(w[k].entry, diff));
        assert(after[k].entry.size == m[k].entry.size + diff);
        lemma_total_shift(m, after, kids, j, diff);
    }
}

/// The size of node `k` adds up after a merge.
proof fn lemma_merge_sizes_at(
    m: Map<u32, TreeNode>,
    target: u32,
    pn: Map<u32, TreeNode>,
    root: u32,
    g: Map<u32, u32>,
    after: Map<u32, TreeNode>,
    k: u32,
)
    requires
        is_forest(m),
        sizes_add_up(m),
        m.contains_key(target),
        is_forest(pn),
        sizes_add_up(pn),
        pn.contains_key(root),
        is_directory(pn[root].entry),
        merged(m, target, pn, root, g, after),
        forall|a: u32| #[trigger] ancestor_set(m, target).contains(a) ==> m[a].entry.size + pn[root].entry.size - m[target].entry.size <= u128::MAX,
        after.contains_key(k),
        is_directory(after[k].entry) || after[k].children.len() > 0,
    ensures
        after[k].entry.size == total_size(after, after[k].children),
{
    let w = without_nodes(m, below(m, target));
    let copied = below(pn, root);
    crate::graft::lemma_merged_facts(m, target, pn, root, g, after);
    lemma_copied_closed(pn, root);
    lemma_subtree(m, target);
    lemma_subtree(pn, root);
    assert(w.contains_key(target));
    if k == target {
        let kids = pn[root].children;
        assert forall|i: int| 0 <= i < kids.len() implies after[g[#[trigger] kids[i]]].entry.size == pn[kids[i]].entry.size by {
            assert(copied.contains(kids[i]));
        }
        assert(pn[root].entry.size == total_size(pn, kids));
        lemma_total_copies(pn, after, g, kids, after[target].children);
    } else if w.contains_key(k) {
        crate::graft::lemma_merged_old_facts(m, target, pn, root, g, after);
        lemma_merge_old_node(m, target, pn[root].entry.size, after, k);
    } else {
        let x = choose|x: u32| copied.contains(x) && g[x] == k;
        assert(subtree(pn, root).contains(x));
        assert(pn.contains_key(x));
        assert(after[g[x]].entry == pn[x].entry);
        assert(is_directory(pn[x].entry) || pn[x].children.len() > 0);
        assert forall|i: int| 0 <= i < pn[x].children.len() implies after[g[#[trigger] pn[x].children[i]]].entry.size
            == pn[pn[x].children[i]].entry.size by {
            assert(copied.contains(pn[x].children[i]));
        }
        lemma_total_copies(pn, after, g, pn[x].children, after[k].children);
    }
}

/// Merging a rescan whose sizes add up into a tree whose sizes add up, as
/// `merge_partial_scan` does, keeps every size the sum of its entries'
/// sizes: the rescanned directory takes the size of the rescan, and each
/// of its ancestors moves by the change.
pub proof fn merge_keeps_sizes(
    main: Map<u32, TreeNode>,
    target: u32,
    partial: Map<u32, TreeNode>,
    root: u32,
    map: Map<u32, u32>,
    after: Map<u32, TreeNode>,
)
    requires
        is_forest(main),
        sizes_add_up(main),
        main.contains_key(target),
        is_forest(partial),
        sizes_add_up(partial),
        partial.contains_key(root),
        is_directory(partial[root].entry),
        forall|a: u32|
            #[trigger] ancestor_set(main, target).contains(a) ==> main[a].entry.size + partial[root].entry.size
                - main[target].entry.size <= u128::MAX,
        merged(main, target, partial, root, map, after),
    ensures
        sizes_add_up(after),
{
    assert forall|k: u32| #[trigger] after.contains_key(k) && (is_directory(after[k].entry) || after[k].children.len() > 0)
        implies after[k].entry.size == total_size(after, after[k].children) by {
        lemma_merge_sizes_at(main, target, partial, root, map, after, k);
    }
}

} // verus!
