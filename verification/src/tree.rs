use vstd::prelude::*;
use petgraph::stable_graph::{NodeIndex, StableGraph};
use petgraph::{Directed, Direction};

verus! {

#[verifier::external_type_specification]
#[verifier::external_body]
#[verifier::reject_recursive_types(N)]
#[verifier::reject_recursive_types(E)]
#[verifier::reject_recursive_types(Ty)]
#[verifier::reject_recursive_types(Ix)]
pub struct ExStableGraph<N, E, Ty, Ix>(StableGraph<N, E, Ty, Ix>);

#[verifier::external_type_specification]
#[verifier::external_body]
pub struct ExDirected(Directed);

/// One scanned file or directory.
#[derive(Debug)]
pub struct EntryData {
    /// The entry's file name (the full path for the root of a scan).
    pub name: String,
    /// Its size in bytes; for a directory, the sum of its entries.
    pub size: u128,
    /// For a directory, the number of entries below it.
    pub entry_count: Option<u64>,
    pub is_dir: bool,
}

/// An entry as a plain value.
pub struct EntryView {
    pub name: Seq<char>,
    pub size: u128,
    pub entry_count: Option<u64>,
    pub is_dir: bool,
}

impl View for EntryData {
    type V = EntryView;

    open spec fn view(&self) -> EntryView {
        EntryView {
            name: self.name@,
            size: self.size,
            entry_count: self.entry_count,
            is_dir: self.is_dir,
        }
    }
}

impl Clone for EntryData {
    fn clone(&self) -> (copy: Self)
        ensures
            copy@ == self@,
    {
        EntryData {
            name: self.name.clone(),
            size: self.size,
            entry_count: self.entry_count,
            is_dir: self.is_dir,
        }
    }
}

/// The scanned directory tree: each directory has an edge to each of its
/// entries.
pub type Tree = StableGraph<EntryData, (), Directed, u32>;

/// A node of the tree as a plain value: its entry, and the nodes its
/// edges lead to and come from, each list starting with the edge added
/// last.
pub struct TreeNode {
    pub entry: EntryView,
    pub children: Seq<u32>,
    pub parents: Seq<u32>,
}

/// The nodes of a tree, by index.
pub uninterp spec fn tree_nodes(tree: Tree) -> Map<u32, TreeNode>;

/// The number of node slots of a tree, vacant ones included: a new node
/// takes a vacant slot, or a new slot when there is none.
pub uninterp spec fn tree_node_slots(tree: Tree) -> nat;

/// The number of edge slots of a tree, vacant ones included.
pub uninterp spec fn tree_edge_slots(tree: Tree) -> nat;

/// `nodes` with one more edge from `a` to `b`, listed first among the
/// edges of each.
pub open spec fn with_edge(nodes: Map<u32, TreeNode>, a: u32, b: u32) -> Map<u32, TreeNode> {
    let na = nodes[a];
    let m = nodes.insert(a, TreeNode { children: seq![b].add(na.children), ..na });
    let nb = m[b];
    m.insert(b, TreeNode { parents: seq![a].add(nb.parents), ..nb })
}

/// `nodes` without the node `a` and without every edge that touches it.
pub open spec fn without_node(nodes: Map<u32, TreeNode>, a: u32) -> Map<u32, TreeNode> {
    without_nodes(nodes, set![a])
}

/// Holds of the nodes that are not in `gone`.
pub open spec fn outside(gone: Set<u32>) -> spec_fn(u32) -> bool {
    |c: u32| !gone.contains(c)
}

/// `nodes` without the nodes of `gone` and without every edge that
/// touches one of them.
pub open spec fn without_nodes(nodes: Map<u32, TreeNode>, gone: Set<u32>) -> Map<u32, TreeNode> {
    Map::new(
        |k: u32| nodes.contains_key(k) && !gone.contains(k),
        |k: u32|
            TreeNode {
                entry: nodes[k].entry,
                children: nodes[k].children.filter(outside(gone)),
                parents: nodes[k].parents.filter(outside(gone)),
            },
    )
}

/// Filtering twice is filtering once by both conditions.
pub proof fn lemma_filter_twice<A>(s: Seq<A>, f: spec_fn(A) -> bool, g: spec_fn(A) -> bool, h: spec_fn(A) -> bool)
    requires
        forall|x: A| #[trigger] h(x) == (f(x) && g(x)),
    ensures
        s.filter(f).filter(g) == s.filter(h),
    decreases s.len(),
{
    if s.len() == 0 {
        reveal(Seq::filter);
    } else {
        let t = s.drop_last();
        let x = s.last();
        assert(s =~= t.push(x));
        lemma_filter_twice(t, f, g, h);
        t.lemma_filter_push(x, f);
        t.lemma_filter_push(x, h);
        t.filter(f).lemma_filter_push(x, g);
    }
}

/// Taking one more node away, after the nodes of `gone`.
pub proof fn lemma_without_step(nodes: Map<u32, TreeNode>, gone: Set<u32>, a: u32)
    requires
        nodes.contains_key(a),
    ensures
        (if without_nodes(nodes, gone).contains_key(a) {
            without_node(without_nodes(nodes, gone), a)
        } else {
            without_nodes(nodes, gone)
        }) == without_nodes(nodes, gone.insert(a)),
{
    let w = without_nodes(nodes, gone);
    let more = gone.insert(a);
    if w.contains_key(a) {
        let left = without_node(w, a);
        let right = without_nodes(nodes, more);
        assert(left.dom() =~= right.dom());
        assert forall|k: u32| left.contains_key(k) implies left[k] == right[k] by {
            lemma_filter_twice(nodes[k].children, outside(gone), outside(set![a]), outside(more));
            lemma_filter_twice(nodes[k].parents, outside(gone), outside(set![a]), outside(more));
        }
        assert(left =~= right);
    } else {
        assert(more =~= gone);
    }
}

/// An empty tree (`StableGraph::new`).
#[verifier::external_body]
pub fn new_tree() -> (fresh: Tree)
    ensures
        tree_nodes(fresh) =~= Map::empty(),
        tree_node_slots(fresh) == 0,
        tree_edge_slots(fresh) == 0,
{
    StableGraph::new()
}

/// The entry of node `node`, if there is such a node
/// (`StableGraph::node_weight`).
#[verifier::external_body]
pub fn entry_of(tree: &Tree, node: u32) -> (entry: Option<&EntryData>)
    ensures
        entry.is_some() == tree_nodes(*tree).contains_key(node),
        entry matches Some(e) ==> e@ == tree_nodes(*tree)[node].entry,
{
    tree.node_weight(NodeIndex::new(node as usize))
}

/// The nodes that the edges of `node` lead to (`outgoing`) or come from,
/// the most recently added edge first; none when there is no such node
/// (`StableGraph::neighbors_directed`).
#[verifier::external_body]
pub fn neighbors(tree: &Tree, node: u32, outgoing: bool) -> (found: Vec<u32>)
    ensures
        found@ == if !tree_nodes(*tree).contains_key(node) {
            Seq::<u32>::empty()
        } else if outgoing {
            tree_nodes(*tree)[node].children
        } else {
            tree_nodes(*tree)[node].parents
        },
{
    let dir = if outgoing {
        Direction::Outgoing
    } else {
        Direction::Incoming
    };
    tree.neighbors_directed(NodeIndex::new(node as usize), dir).map(|n| n.index() as u32).collect()
}

/// Adds a node without edges and returns its index, which no live node had
/// (`StableGraph::add_node`; it panics only when no slot is left).
#[verifier::external_body]
pub fn add_node(tree: &mut Tree, entry: EntryData) -> (node: u32)
    requires
        tree_node_slots(*old(tree)) < u32::MAX,
    ensures
        !tree_nodes(*old(tree)).contains_key(node),
        tree_nodes(*final(tree)) == tree_nodes(*old(tree)).insert(
            node,
            TreeNode { entry: entry@, children: Seq::empty(), parents: Seq::empty() },
        ),
        tree_node_slots(*final(tree)) <= tree_node_slots(*old(tree)) + 1,
        tree_edge_slots(*final(tree)) == tree_edge_slots(*old(tree)),
{
    tree.add_node(entry).index() as u32
}

/// Adds an edge from `a` to `b` (`StableGraph::add_edge`; it panics when
/// a node is missing or no edge slot is left).
#[verifier::external_body]
pub fn add_edge(tree: &mut Tree, a: u32, b: u32)
    requires
        tree_nodes(*old(tree)).contains_key(a),
        tree_nodes(*old(tree)).contains_key(b),
        tree_edge_slots(*old(tree)) < u32::MAX,
    ensures
        tree_nodes(*final(tree)) == with_edge(tree_nodes(*old(tree)), a, b),
        tree_node_slots(*final(tree)) == tree_node_slots(*old(tree)),
        tree_edge_slots(*final(tree)) <= tree_edge_slots(*old(tree)) + 1,
{
    tree.add_edge(NodeIndex::new(a as usize), NodeIndex::new(b as usize), ());
}

/// Removes a node with all its edges and returns its entry; nothing
/// changes when there is no such node (`StableGraph::remove_node`).
#[verifier::external_body]
pub fn remove_node(tree: &mut Tree, node: u32) -> (removed: Option<EntryData>)
    ensures
        removed.is_some() == tree_nodes(*old(tree)).contains_key(node),
        removed matches Some(e) ==> e@ == tree_nodes(*old(tree))[node].entry,
        tree_nodes(*final(tree)) == if tree_nodes(*old(tree)).contains_key(node) {
            without_node(tree_nodes(*old(tree)), node)
        } else {
            tree_nodes(*old(tree))
        },
        tree_node_slots(*final(tree)) == tree_node_slots(*old(tree)),
        tree_edge_slots(*final(tree)) == tree_edge_slots(*old(tree)),
{
    tree.remove_node(NodeIndex::new(node as usize))
}

/// Replaces the entry of node `node`, if there is such a node, and tells
/// whether there was (`StableGraph::node_weight_mut`).
#[verifier::external_body]
pub fn set_entry(tree: &mut Tree, node: u32, entry: EntryData) -> (found: bool)
    ensures
        found == tree_nodes(*old(tree)).contains_key(node),
        tree_nodes(*final(tree)) == if found {
            tree_nodes(*old(tree)).insert(
                node,
                TreeNode { entry: entry@, ..tree_nodes(*old(tree))[node] },
            )
        } else {
            tree_nodes(*old(tree))
        },
        tree_node_slots(*final(tree)) == tree_node_slots(*old(tree)),
        tree_edge_slots(*final(tree)) == tree_edge_slots(*old(tree)),
{
    match tree.node_weight_mut(NodeIndex::new(node as usize)) {
        Some(slot) => {
            *slot = entry;
            true
        },
        None => false,
    }
}

} // verus!

verus! {

/// Every edge is recorded at both of its ends, no node lists a child
/// twice, and every node has at most one parent.
pub open spec fn edges_consistent(nodes: Map<u32, TreeNode>) -> bool {
    &&& nodes.dom().finite()
    &&& forall|n: u32| #[trigger] nodes.contains_key(n) ==> nodes[n].children.no_duplicates()
    &&& forall|n: u32| #[trigger] nodes.contains_key(n) ==> nodes[n].parents.len() <= 1
    &&& forall|n: u32, i: int|
        #![trigger nodes[n].children[i]]
        nodes.contains_key(n) && 0 <= i < nodes[n].children.len() ==> {
            &&& nodes.contains_key(nodes[n].children[i])
            &&& nodes[nodes[n].children[i]].parents == seq![n]
        }
    &&& forall|n: u32|
        #[trigger] nodes.contains_key(n) && nodes[n].parents.len() == 1 ==> {
            &&& nodes.contains_key(nodes[n].parents[0])
            &&& nodes[nodes[n].parents[0]].children.contains(n)
        }
}

/// `depth` gives every node without a parent depth 0 and every other node
/// one more than its parent, and stays below `bound`.
pub open spec fn depths_valid(nodes: Map<u32, TreeNode>, depth: Map<u32, nat>, bound: nat) -> bool {
    &&& depth.dom() == nodes.dom()
    &&& forall|n: u32| #[trigger] nodes.contains_key(n) ==> depth[n] < bound
    &&& forall|n: u32| #[trigger] nodes.contains_key(n) && nodes[n].parents.len() == 0 ==> depth[n] == 0
    &&& forall|n: u32|
        #[trigger] nodes.contains_key(n) && nodes[n].parents.len() == 1 ==> depth[n] == depth[nodes[n].parents[0]]
            + 1
}

/// The nodes form a forest: consistent edges and no cycle.
pub open spec fn is_forest(nodes: Map<u32, TreeNode>) -> bool {
    &&& edges_consistent(nodes)
    &&& exists|depth: Map<u32, nat>, bound: nat| depths_valid(nodes, depth, bound)
}

/// A depth function witnessing that a forest has no cycle.
pub open spec fn forest_depth(nodes: Map<u32, TreeNode>) -> Map<u32, nat>
    recommends
        is_forest(nodes),
{
    (choose|depth: Map<u32, nat>, bound: nat| depths_valid(nodes, depth, bound)).0
}

/// A bound of `forest_depth`.
pub open spec fn forest_bound(nodes: Map<u32, TreeNode>) -> nat
    recommends
        is_forest(nodes),
{
    (choose|depth: Map<u32, nat>, bound: nat| depths_valid(nodes, depth, bound)).1
}

pub proof fn lemma_forest_depth(nodes: Map<u32, TreeNode>)
    requires
        is_forest(nodes),
    ensures
        depths_valid(nodes, forest_depth(nodes), forest_bound(nodes)),
{
}

/// `n` and its ancestors.
spec fn lineage(nodes: Map<u32, TreeNode>, n: u32, fuel: nat) -> Set<u32>
    decreases fuel,
{
    if fuel == 0 || nodes[n].parents.len() == 0 {
        set![n]
    } else {
        lineage(nodes, nodes[n].parents[0], (fuel - 1) as nat).insert(n)
    }
}

proof fn lemma_lineage(nodes: Map<u32, TreeNode>, depth: Map<u32, nat>, bound: nat, n: u32)
    requires
        edges_consistent(nodes),
        depths_valid(nodes, depth, bound),
        nodes.contains_key(n),
    ensures
        lineage(nodes, n, depth[n]).finite(),
        lineage(nodes, n, depth[n]).len() == depth[n] + 1,
        lineage(nodes, n, depth[n]).subset_of(nodes.dom()),
        forall|m: u32| #[trigger] lineage(nodes, n, depth[n]).contains(m) ==> depth[m] <= depth[n],
    decreases depth[n],
{
    if nodes[n].parents.len() != 0 {
        let p = nodes[n].parents[0];
        lemma_lineage(nodes, depth, bound, p);
        assert(!lineage(nodes, p, depth[p]).contains(n));
        assert((depth[n] - 1) as nat == depth[p]);
    } else {
        assert(set![n].len() == 1) by {
            assert(set![n] =~= Set::<u32>::empty().insert(n));
        }
    }
}

/// In a forest, no node lies deeper than the number of nodes, which is at
/// most the number of `u32` values.
pub proof fn lemma_depth_below_count(nodes: Map<u32, TreeNode>, n: u32)
    requires
        is_forest(nodes),
        nodes.contains_key(n),
    ensures
        forest_depth(nodes)[n] < nodes.dom().len(),
        nodes.dom().len() <= 0x1_0000_0000,
{
    lemma_forest_depth(nodes);
    let depth = forest_depth(nodes);
    lemma_lineage(nodes, depth, forest_bound(nodes), n);
    vstd::set_lib::lemma_len_subset(lineage(nodes, n, depth[n]), nodes.dom());
    let f = |x: u32| x as int;
    let ints = nodes.dom().map(f);
    assert(vstd::relations::injective_on(f, nodes.dom()));
    vstd::set_lib::lemma_map_size(nodes.dom(), ints, f);
    vstd::set_lib::lemma_int_range(0, 0x1_0000_0000);
    assert(ints.subset_of(vstd::set_lib::set_int_range(0, 0x1_0000_0000)));
    vstd::set_lib::lemma_len_subset(ints, vstd::set_lib::set_int_range(0, 0x1_0000_0000));
}

/// The parent of `n`, when it has one.
pub open spec fn parent_of(nodes: Map<u32, TreeNode>, n: u32) -> Option<u32> {
    if nodes[n].parents.len() == 0 {
        None
    } else {
        Some(nodes[n].parents[0])
    }
}

/// `chain` lists the ancestors of `node`: its parent, that node's parent,
/// and so on up to a node without a parent.
pub open spec fn is_ancestor_chain(nodes: Map<u32, TreeNode>, node: u32, chain: Seq<u32>) -> bool {
    &&& chain.len() == 0 <==> parent_of(nodes, node) is None
    &&& chain.len() > 0 ==> Some(chain[0]) == parent_of(nodes, node)
    &&& forall|i: int| 1 <= i < chain.len() ==> Some(#[trigger] chain[i]) == parent_of(nodes, chain[i - 1])
    &&& chain.len() > 0 ==> parent_of(nodes, chain.last()) is None
}

/// The ancestors of `node`, nearest first.
pub open spec fn ancestor_chain(nodes: Map<u32, TreeNode>, node: u32) -> Seq<u32> {
    choose|chain: Seq<u32>| is_ancestor_chain(nodes, node, chain)
}

/// The ancestors of `node`.
pub open spec fn ancestor_set(nodes: Map<u32, TreeNode>, node: u32) -> Set<u32> {
    ancestor_chain(nodes, node).to_set()
}

/// A node has one ancestor chain only.
pub proof fn lemma_ancestor_chain_unique(nodes: Map<u32, TreeNode>, node: u32, chain: Seq<u32>)
    requires
        is_ancestor_chain(nodes, node, chain),
    ensures
        ancestor_chain(nodes, node) == chain,
{
    let other = ancestor_chain(nodes, node);
    assert(is_ancestor_chain(nodes, node, other));
    assert forall|i: int| 0 <= i < chain.len() && i < other.len() implies chain[i] == other[i] by {
        lemma_chains_agree(nodes, node, chain, other, i);
    }
    if chain.len() < other.len() {
        lemma_chains_agree(nodes, node, chain, other, chain.len() - 1);
        assert(Some(other[chain.len() as int]) == parent_of(nodes, other[chain.len() - 1]));
    } else if other.len() < chain.len() {
        lemma_chains_agree(nodes, node, chain, other, other.len() - 1);
        assert(Some(chain[other.len() as int]) == parent_of(nodes, chain[other.len() - 1]));
    }
    assert(chain =~= other);
}

proof fn lemma_chains_agree(nodes: Map<u32, TreeNode>, node: u32, a: Seq<u32>, b: Seq<u32>, i: int)
    requires
        is_ancestor_chain(nodes, node, a),
        is_ancestor_chain(nodes, node, b),
        0 <= i < a.len(),
        i < b.len(),
    ensures
        a[i] == b[i],
    decreases i,
{
    if i > 0 {
        lemma_chains_agree(nodes, node, a, b, i - 1);
        assert(Some(a[i]) == parent_of(nodes, a[i - 1]));
        assert(Some(b[i]) == parent_of(nodes, b[i - 1]));
    }
}

/// Returns the ancestors of `node`, nearest first.
pub fn ancestors(tree: &Tree, node: u32) -> (chain: Vec<u32>)
    requires
        is_forest(tree_nodes(*tree)),
        tree_nodes(*tree).contains_key(node),
    ensures
        is_ancestor_chain(tree_nodes(*tree), node, chain@),
        chain@ == ancestor_chain(tree_nodes(*tree), node),
        forall|i: int| 0 <= i < chain@.len() ==> tree_nodes(*tree).contains_key(#[trigger] chain@[i]),
{
    let ghost nodes = tree_nodes(*tree);
    let ghost depth = forest_depth(nodes);
    proof {
        lemma_forest_depth(nodes);
    }
    let mut chain: Vec<u32> = Vec::new();
    let mut current = node;
    loop
        invariant
            nodes == tree_nodes(*tree),
            is_forest(nodes),
            depths_valid(nodes, depth, forest_bound(nodes)),
            nodes.contains_key(current),
            chain@.len() == 0 ==> current == node,
            chain@.len() > 0 ==> current == chain@.last(),
            chain@.len() > 0 ==> Some(chain@[0]) == parent_of(nodes, node),
            forall|i: int|
                1 <= i < chain@.len() ==> Some(#[trigger] chain@[i]) == parent_of(
                    nodes,
                    chain@[i - 1],
                ),
            forall|i: int| 0 <= i < chain@.len() ==> nodes.contains_key(#[trigger] chain@[i]),
        ensures
            nodes[current].parents.len() == 0,
        decreases depth[current],
    {
        let parents = neighbors(tree, current, false);
        if parents.len() == 0 {
            break;
        }
        let parent = parents[0];
        proof {
            assert(nodes[current].parents.len() == 1);
        }
        chain.push(parent);
        current = parent;
    }
    proof {
        assert(parent_of(nodes, current) is None);
        if chain@.len() == 0 {
            assert(parent_of(nodes, node) is None);
        } else {
            assert(parent_of(nodes, node) is Some);
        }
        lemma_ancestor_chain_unique(nodes, node, chain@);
    }
    chain
}

/// Adds an entry below `parent` (or a new root when `parent` is `None`)
/// and returns its node.
pub fn add_child(tree: &mut Tree, parent: Option<u32>, entry: EntryData) -> (node: u32)
    requires
        is_forest(tree_nodes(*old(tree))),
        parent matches Some(p) ==> tree_nodes(*old(tree)).contains_key(p),
        tree_node_slots(*old(tree)) < u32::MAX,
        tree_edge_slots(*old(tree)) < u32::MAX,
    ensures
        is_forest(tree_nodes(*final(tree))),
        !tree_nodes(*old(tree)).contains_key(node),
        tree_nodes(*final(tree)) == match parent {
            Some(p) => with_edge(
                tree_nodes(*old(tree)).insert(
                    node,
                    TreeNode { entry: entry@, children: Seq::empty(), parents: Seq::empty() },
                ),
                p,
                node,
            ),
            None => tree_nodes(*old(tree)).insert(
                node,
                TreeNode { entry: entry@, children: Seq::empty(), parents: Seq::empty() },
            ),
        },
        tree_node_slots(*final(tree)) <= tree_node_slots(*old(tree)) + 1,
        tree_edge_slots(*final(tree)) <= tree_edge_slots(*old(tree)) + 1,
{
    let ghost old_nodes = tree_nodes(*tree);
    proof {
        lemma_forest_depth(old_nodes);
    }
    let ghost depth = forest_depth(old_nodes);
    let ghost bound = forest_bound(old_nodes);
    let node = add_node(tree, entry);
    match parent {
        Some(p) => {
            add_edge(tree, p, node);
            proof {
                let nodes = tree_nodes(*tree);
                assert(old_nodes[p].children.contains(node) == false) by {
                    if old_nodes[p].children.contains(node) {
                        let i = choose|i: int|
                            0 <= i < old_nodes[p].children.len() && old_nodes[p].children[i]
                                == node;
                        assert(old_nodes.contains_key(old_nodes[p].children[i]));
                    }
                }
                let d2 = depth.insert(node, depth[p] + 1);
                assert(d2.dom() =~= nodes.dom());
                assert forall|n: u32|
                    #[trigger] nodes.contains_key(n) && nodes[n].parents.len() == 1 implies d2[n]
                    == d2[nodes[n].parents[0]] + 1 by {
                    if n != node {
                        assert(nodes[n].parents == old_nodes[n].parents);
                        assert(old_nodes.contains_key(old_nodes[n].parents[0]));
                    }
                }
                assert(depths_valid(nodes, d2, bound + 1));
                assert forall|n: u32, i: int|
                    #![trigger nodes[n].children[i]]
                    nodes.contains_key(n) && 0 <= i < nodes[n].children.len() implies {
                    &&& nodes.contains_key(nodes[n].children[i])
                    &&& nodes[nodes[n].children[i]].parents == seq![n]
                } by {
                    if n == p && i > 0 {
                        assert(nodes[n].children[i] == old_nodes[p].children[i - 1]);
                    }
                }
                assert forall|n: u32|
                    #[trigger] nodes.contains_key(n) && nodes[n].parents.len() == 1 implies {
                    &&& nodes.contains_key(nodes[n].parents[0])
                    &&& nodes[nodes[n].parents[0]].children.contains(n)
                } by {
                    if n == node {
                        assert(nodes[p].children[0] == node);
                    } else {
                        let q = old_nodes[n].parents[0];
                        if q == p {
                            let j = choose|j: int|
                                0 <= j < old_nodes[p].children.len() && old_nodes[p].children[j]
                                    == n;
                            assert(nodes[p].children[j + 1] == n);
                        }
                    }
                }
                assert(edges_consistent(nodes));
            }
        },
        None => {
            proof {
                let nodes = tree_nodes(*tree);
                let d2 = depth.insert(node, 0);
                assert(d2.dom() =~= nodes.dom());
                assert(depths_valid(nodes, d2, bound + 1));
                assert forall|n: u32|
                    #[trigger] nodes.contains_key(n) && nodes[n].parents.len() == 1 implies {
                    &&& nodes.contains_key(nodes[n].parents[0])
                    &&& nodes[nodes[n].parents[0]].children.contains(n)
                } by {
                    let q = old_nodes[n].parents[0];
                    assert(nodes[q] == old_nodes[q]);
                }
                assert(edges_consistent(nodes));
            }
        },
    }
    node
}

} // verus!

verus! {

broadcast use vstd::std_specs::hash::group_hash_axioms;

/// The entry of a node that is known to exist.
pub fn get_entry_or_panic(tree: &Tree, node: u32) -> (entry: &EntryData)
    requires
        tree_nodes(*tree).contains_key(node),
    ensures
        entry@ == tree_nodes(*tree)[node].entry,
{
    entry_of(tree, node).unwrap()
}

/// The size of a node that is known to exist.
pub fn get_size_or_panic(tree: &Tree, node: u32) -> (size: u128)
    requires
        tree_nodes(*tree).contains_key(node),
    ensures
        size == tree_nodes(*tree)[node].entry.size,
{
    get_entry_or_panic(tree, node).size
}

/// Marks every ancestor of `node` as expanded, so that the node shows in
/// the tree panel.
pub fn expand_to_node(tree: &Tree, node: u32, expanded: &mut std::collections::HashSet<u32>)
    requires
        is_forest(tree_nodes(*tree)),
        tree_nodes(*tree).contains_key(node),
    ensures
        final(expanded)@ == old(expanded)@.union(
            ancestor_set(tree_nodes(*tree), node),
        ),
{
    let chain = ancestors(tree, node);
    let mut i: usize = 0;
    while i < chain.len()
        invariant
            0 <= i <= chain@.len(),
            expanded@ == old(expanded)@.union(
                Set::new(|x: u32| exists|j: int| 0 <= j < i && chain@[j] == x),
            ),
        decreases chain@.len() - i,
    {
        expanded.insert(chain[i]);
        proof {
            assert(expanded@ =~= old(expanded)@.union(
                Set::new(|x: u32| exists|j: int| 0 <= j < i + 1 && chain@[j] == x),
            ));
        }
        i = i + 1;
    }
    proof {
        assert(expanded@ =~= old(expanded)@.union(chain@.to_set()));
    }
}

/// The names from the top of `node`'s tree down to `node` itself: the
/// parts of its path.
pub open spec fn path_names(nodes: Map<u32, TreeNode>, node: u32) -> Seq<Seq<char>> {
    ancestor_chain(nodes, node).reverse().map_values(|a: u32| nodes[a].entry.name).push(
        nodes[node].entry.name,
    )
}

/// The parts of the path of `node`, from the top of its tree down to it;
/// `None` when there is no such node.
pub fn node_path_names(tree: &Tree, node: u32) -> (names: Option<Vec<String>>)
    requires
        is_forest(tree_nodes(*tree)),
    ensures
        names is None <==> !tree_nodes(*tree).contains_key(node),
        names matches Some(v) ==> v@.map_values(|s: String| s@) == path_names(
            tree_nodes(*tree),
            node,
        ),
{
    let entry = match entry_of(tree, node) {
        Some(e) => e,
        None => {
            return None;
        },
    };
    let ghost nodes = tree_nodes(*tree);
    let chain = ancestors(tree, node);
    let ghost rev = chain@.reverse();
    let mut names: Vec<String> = Vec::new();
    let mut i: usize = chain.len();
    while i > 0
        invariant
            0 <= i <= chain@.len(),
            nodes == tree_nodes(*tree),
            rev == chain@.reverse(),
            forall|j: int| 0 <= j < chain@.len() ==> nodes.contains_key(#[trigger] chain@[j]),
            names@.len() == chain@.len() - i,
            forall|j: int|
                0 <= j < names@.len() ==> #[trigger] names@[j]@ == nodes[rev[j]].entry.name,
        decreases i,
    {
        i = i - 1;
        let a = chain[i];
        let e = get_entry_or_panic(tree, a);
        names.push(e.name.clone());
    }
    names.push(entry.name.clone());
    proof {
        assert(names@.map_values(|s: String| s@) =~= path_names(nodes, node));
    }
    Some(names)
}

/// How many levels the forest extends below `n`, at most: enough steps
/// for any walk down from `n`.
pub open spec fn fuel_below(nodes: Map<u32, TreeNode>, n: u32) -> nat {
    (forest_bound(nodes) - forest_depth(nodes)[n]) as nat
}

/// A node stands for a directory when it is marked as one or carries an
/// entry count.
pub open spec fn is_directory(e: EntryView) -> bool {
    e.is_dir || e.entry_count is Some
}

/// The file entries reached from `n` by going down through directories,
/// each directory's entries in the order of its edges.
pub open spec fn files_below(nodes: Map<u32, TreeNode>, n: u32, fuel: nat) -> Seq<EntryView>
    decreases fuel, 0nat,
{
    if !nodes.contains_key(n) {
        Seq::empty()
    } else if is_directory(nodes[n].entry) {
        if fuel == 0 {
            Seq::empty()
        } else {
            files_below_list(nodes, nodes[n].children, (fuel - 1) as nat)
        }
    } else {
        seq![nodes[n].entry]
    }
}

/// `files_below` of each node of `list`, one after the other.
pub open spec fn files_below_list(nodes: Map<u32, TreeNode>, list: Seq<u32>, fuel: nat) -> Seq<
    EntryView,
>
    decreases fuel, list.len(),
{
    if list.len() == 0 {
        Seq::empty()
    } else {
        files_below(nodes, list[0], fuel) + files_below_list(nodes, list.drop_first(), fuel)
    }
}

/// In a forest, each child of `n` has one unit of fuel less than `n`.
pub proof fn lemma_child_fuel(nodes: Map<u32, TreeNode>, n: u32, i: int)
    requires
        is_forest(nodes),
        nodes.contains_key(n),
        0 <= i < nodes[n].children.len(),
    ensures
        nodes.contains_key(nodes[n].children[i]),
        fuel_below(nodes, n) >= 1,
        fuel_below(nodes, nodes[n].children[i]) + 1 == fuel_below(nodes, n),
{
    lemma_forest_depth(nodes);
    let c = nodes[n].children[i];
    assert(nodes[c].parents == seq![n]);
    assert(nodes[c].parents[0] == n);
}

} // verus!
