use vstd::prelude::*;
use crate::tree::{
    EntryData, EntryView, Tree, TreeNode, fuel_below, get_entry_or_panic, is_directory, is_forest,
    lemma_child_fuel, lemma_forest_depth, neighbors, set_entry, tree_edge_slots, tree_node_slots,
    tree_nodes,
};
use crate::tree_edit::{
    lemma_post_order_list_contains, lemma_same_shape, lemma_subtree,
    post_order, post_order_list, subtree,
};
use crate::sizes::{sizes_add_up, total_size};

verus! {

/// A node whose size is the sum of its entries' sizes: a directory, or any
/// node with entries below it.
pub open spec fn sums_entries(node: TreeNode) -> bool {
    is_directory(node.entry) || node.children.len() > 0
}

/// The size that node `n` adds up to: the sum over its entries for a node
/// that sums its entries, its own size otherwise.
pub open spec fn agg_size(nodes: Map<u32, TreeNode>, n: u32, fuel: nat) -> int
    decreases fuel, 0nat,
{
    if sums_entries(nodes[n]) {
        if fuel == 0 {
            0
        } else {
            agg_sizes(nodes, nodes[n].children, (fuel - 1) as nat)
        }
    } else {
        nodes[n].entry.size as int
    }
}

/// `agg_size` summed over `list`.
pub open spec fn agg_sizes(nodes: Map<u32, TreeNode>, list: Seq<u32>, fuel: nat) -> int
    decreases fuel, list.len(),
{
    if list.len() == 0 {
        0
    } else {
        agg_sizes(nodes, list.drop_last(), fuel) + agg_size(nodes, list.last(), fuel)
    }
}

/// The number of entries below node `n`.
pub open spec fn agg_count(nodes: Map<u32, TreeNode>, n: u32, fuel: nat) -> int
    decreases fuel, 0nat,
{
    if sums_entries(nodes[n]) {
        if fuel == 0 {
            0
        } else {
            agg_counts(nodes, nodes[n].children, (fuel - 1) as nat)
        }
    } else {
        0
    }
}

/// Each node of `list` and the entries below it, counted.
pub open spec fn agg_counts(nodes: Map<u32, TreeNode>, list: Seq<u32>, fuel: nat) -> int
    decreases fuel, list.len(),
{
    if list.len() == 0 {
        0
    } else {
        agg_counts(nodes, list.drop_last(), fuel) + agg_count(nodes, list.last(), fuel) + 1
    }
}

/// Every total in the subtree of `n` fits its counter: sizes in `u128`,
/// entry counts in `u64`.
pub open spec fn totals_fit_below(nodes: Map<u32, TreeNode>, n: u32, fuel: nat) -> bool
    decreases fuel, 0nat,
{
    if sums_entries(nodes[n]) {
        &&& fuel > 0
        &&& all_totals_fit(nodes, nodes[n].children, (fuel - 1) as nat)
        &&& agg_size(nodes, n, fuel) <= u128::MAX
        &&& agg_count(nodes, n, fuel) <= u64::MAX
    } else {
        true
    }
}

/// `totals_fit_below` of every node of `list`.
pub open spec fn all_totals_fit(nodes: Map<u32, TreeNode>, list: Seq<u32>, fuel: nat) -> bool
    decreases fuel, list.len(),
{
    if list.len() == 0 {
        true
    } else {
        all_totals_fit(nodes, list.drop_last(), fuel) && totals_fit_below(nodes, list.last(), fuel)
    }
}

/// The entry of node `n` once its size and, for a directory, its entry
/// count are recomputed from the entries below it.
pub open spec fn totaled_entry(nodes: Map<u32, TreeNode>, n: u32) -> EntryView {
    let e = nodes[n].entry;
    EntryView {
        size: agg_size(nodes, n, fuel_below(nodes, n)) as u128,
        entry_count: if is_directory(e) {
            Some(agg_count(nodes, n, fuel_below(nodes, n)) as u64)
        } else {
            e.entry_count
        },
        ..e
    }
}

/// `nodes` with the entries of the nodes of `done` recomputed.
pub open spec fn retotaled(nodes: Map<u32, TreeNode>, done: Set<u32>) -> Map<u32, TreeNode> {
    Map::new(
        |k: u32| nodes.contains_key(k),
        |k: u32|
            if done.contains(k) {
                TreeNode { entry: totaled_entry(nodes, k), ..nodes[k] }
            } else {
                nodes[k]
            },
    )
}

/// The nodes below `root`, `root` included, that sum their entries.
pub open spec fn summing_below(nodes: Map<u32, TreeNode>, root: u32) -> Set<u32> {
    subtree(nodes, root).filter(|k: u32| sums_entries(nodes[k]))
}

/// `nodes` with the size (and, for directories, the entry count) of every
/// node below `root` that sums its entries recomputed from its entries.
pub open spec fn totaled(nodes: Map<u32, TreeNode>, root: u32) -> Map<u32, TreeNode> {
    retotaled(nodes, summing_below(nodes, root))
}

proof fn lemma_agg_sizes_prefix(nodes: Map<u32, TreeNode>, list: Seq<u32>, fuel: nat, i: int)
    requires
        0 <= i <= list.len(),
        forall|j: int| 0 <= j < list.len() ==> agg_size(nodes, #[trigger] list[j], fuel) >= 0,
    ensures
        agg_sizes(nodes, list.take(i), fuel) <= agg_sizes(nodes, list, fuel),
        agg_counts(nodes, list.take(i), fuel) <= agg_counts(nodes, list, fuel),
    decreases list.len() - i,
{
    if i == list.len() {
        assert(list.take(i) =~= list);
    } else {
        lemma_agg_sizes_prefix(nodes, list, fuel, i + 1);
        assert(list.take(i + 1).drop_last() =~= list.take(i));
        assert(list.take(i + 1).last() == list[i]);
        lemma_agg_count_nonneg(nodes, list[i], fuel);
    }
}

proof fn lemma_agg_count_nonneg(nodes: Map<u32, TreeNode>, n: u32, fuel: nat)
    ensures
        agg_count(nodes, n, fuel) >= 0,
        agg_size(nodes, n, fuel) >= 0,
    decreases fuel, 0nat,
{
    if sums_entries(nodes[n]) && fuel > 0 {
        lemma_agg_counts_nonneg(nodes, nodes[n].children, (fuel - 1) as nat);
    }
}

proof fn lemma_agg_counts_nonneg(nodes: Map<u32, TreeNode>, list: Seq<u32>, fuel: nat)
    ensures
        agg_counts(nodes, list, fuel) >= 0,
        agg_sizes(nodes, list, fuel) >= 0,
    decreases fuel, list.len(),
{
    if list.len() > 0 {
        lemma_agg_counts_nonneg(nodes, list.drop_last(), fuel);
        lemma_agg_count_nonneg(nodes, list.last(), fuel);
    }
}

proof fn lemma_all_fit_each(nodes: Map<u32, TreeNode>, list: Seq<u32>, fuel: nat, i: int)
    requires
        all_totals_fit(nodes, list, fuel),
        0 <= i < list.len(),
    ensures
        totals_fit_below(nodes, list[i], fuel),
    decreases list.len(),
{
    if i < list.len() - 1 {
        lemma_all_fit_each(nodes, list.drop_last(), fuel, i);
    }
}

/// When the totals of a subtree fit, so do those of every subtree in it.
proof fn lemma_fits_below(nodes: Map<u32, TreeNode>, n: u32, x: u32)
    requires
        is_forest(nodes),
        nodes.contains_key(n),
        totals_fit_below(nodes, n, fuel_below(nodes, n)),
        post_order(nodes, n, fuel_below(nodes, n)).contains(x),
    ensures
        totals_fit_below(nodes, x, fuel_below(nodes, x)),
    decreases fuel_below(nodes, n),
{
    lemma_forest_depth(nodes);
    let fuel = fuel_below(nodes, n);
    let f = (fuel - 1) as nat;
    let kids = nodes[n].children;
    if x != n {
        let whole = post_order(nodes, n, fuel);
        assert(whole == post_order_list(nodes, kids, f).push(n));
        assert(post_order_list(nodes, kids, f).contains(x)) by {
            let i = choose|i: int| 0 <= i < whole.len() && whole[i] == x;
            assert(post_order_list(nodes, kids, f)[i] == x);
        }
        lemma_post_order_list_contains(nodes, kids, f, x);
        let j = choose|j: int| 0 <= j < kids.len() && #[trigger] post_order(nodes, kids[j], f).contains(x);
        lemma_child_fuel(nodes, n, j);
        assert(kids.len() > 0);
        assert(sums_entries(nodes[n]));
        lemma_all_fit_each(nodes, kids, f, j);
        lemma_fits_below(nodes, kids[j], x);
    }
}

/// `before` grew into `after` by one entry `(node, size, count)` for each
/// node of the walk from `n` that sums its entries, with its totals; the
/// entries already there stay.
pub open spec fn recorded(
    nodes: Map<u32, TreeNode>,
    before: Seq<(u32, u128, u64)>,
    after: Seq<(u32, u128, u64)>,
    walk: Set<u32>,
) -> bool {
    &&& after.len() >= before.len()
    &&& forall|j: int| 0 <= j < before.len() ==> #[trigger] after[j] == before[j]
    &&& forall|j: int|
        before.len() <= j < after.len() ==> {
            let t = #[trigger] after[j];
            &&& walk.contains(t.0)
            &&& sums_entries(nodes[t.0])
            &&& t.1 == agg_size(nodes, t.0, fuel_below(nodes, t.0))
            &&& t.2 == agg_count(nodes, t.0, fuel_below(nodes, t.0))
        }
    &&& forall|x: u32|
        #[trigger] walk.contains(x) && sums_entries(nodes[x]) ==> exists|j: int|
            before.len() <= j < after.len() && after[j].0 == x
}

/// Computes the totals of the subtree of `n`, appending to `out` the totals
/// of each node in it that sums its entries; `None` when a total does not
/// fit its counter.
fn gather(tree: &Tree, n: u32, out: &mut Vec<(u32, u128, u64)>, Ghost(fuel): Ghost<nat>) -> (total: Option<
    (u128, u64),
>)
    requires
        is_forest(tree_nodes(*tree)),
        tree_nodes(*tree).contains_key(n),
        fuel == fuel_below(tree_nodes(*tree), n),
    ensures
        total is Some <==> totals_fit_below(tree_nodes(*tree), n, fuel),
        total matches Some(t) ==> t.0 == agg_size(tree_nodes(*tree), n, fuel) && t.1 == agg_count(
            tree_nodes(*tree),
            n,
            fuel,
        ),
        total is Some ==> recorded(
            tree_nodes(*tree),
            old(out)@,
            final(out)@,
            post_order(tree_nodes(*tree), n, fuel).to_set(),
        ),
    decreases fuel,
{
    let ghost nodes = tree_nodes(*tree);
    proof {
        lemma_forest_depth(nodes);
    }
    let kids = neighbors(tree, n, true);
    let e = get_entry_or_panic(tree, n);
    if !(e.is_dir || e.entry_count.is_some() || kids.len() > 0) {
        proof {
            assert(!sums_entries(nodes[n]));
            assert(post_order(nodes, n, fuel).to_set().contains(n) ==> !sums_entries(nodes[n]));
            assert forall|x: u32| #[trigger] post_order(nodes, n, fuel).to_set().contains(x) && sums_entries(nodes[x])
                implies exists|j: int| old(out)@.len() <= j < out@.len() && out@[j].0 == x by {
                let whole = post_order(nodes, n, fuel);
                assert(whole == post_order_list(nodes, nodes[n].children, (fuel - 1) as nat).push(n));
                assert(post_order_list(nodes, nodes[n].children, (fuel - 1) as nat) =~= Seq::<u32>::empty());
                let i = choose|i: int| 0 <= i < whole.len() && whole[i] == x;
            }
        }
        return Some((e.size, 0));
    }
    let ghost f = (fuel - 1) as nat;
    let ghost start = out@;
    let mut size: u128 = 0;
    let mut count: u64 = 0;
    let mut i: usize = 0;
    proof {
        assert(kids@.take(0) =~= Seq::<u32>::empty());
        assert(post_order_list(nodes, kids@.take(0), f).to_set() =~= Set::<u32>::empty());
    }
    while i < kids.len()
        invariant
            nodes == tree_nodes(*tree),
            is_forest(nodes),
            nodes.contains_key(n),
            sums_entries(nodes[n]),
            fuel == fuel_below(nodes, n),
            fuel >= 1,
            f == fuel - 1,
            kids@ == nodes[n].children,
            0 <= i <= kids@.len(),
            size == agg_sizes(nodes, kids@.take(i as int), f),
            count == agg_counts(nodes, kids@.take(i as int), f),
            all_totals_fit(nodes, kids@.take(i as int), f),
            recorded(nodes, start, out@, post_order_list(nodes, kids@.take(i as int), f).to_set()),
            start == old(out)@,
        decreases kids@.len() - i,
    {
        proof {
            lemma_child_fuel(nodes, n, i as int);
        }
        let ghost before = out@;
        let ghost t = kids@.take(i + 1);
        let sub = gather(tree, kids[i], out, Ghost(f));
        proof {
            assert(t.drop_last() =~= kids@.take(i as int));
            assert(t.last() == kids@[i as int]);
            assert forall|j: int| 0 <= j < kids@.len() implies agg_size(nodes, #[trigger] kids@[j], f) >= 0 by {
                lemma_agg_count_nonneg(nodes, kids@[j], f);
            }
            lemma_agg_sizes_prefix(nodes, kids@, f, i + 1);
        }
        let (s, c) = match sub {
            Some(v) => v,
            None => {
                proof {
                    if all_totals_fit(nodes, kids@, f) {
                        lemma_all_fit_each(nodes, kids@, f, i as int);
                    }
                }
                return None;
            },
        };
        size = match size.checked_add(s) {
            Some(v) => v,
            None => {
                return None;
            },
        };
        let more = match c.checked_add(1) {
            Some(v) => v,
            None => {
                return None;
            },
        };
        count = match count.checked_add(more) {
            Some(v) => v,
            None => {
                return None;
            },
        };
        proof {
            let pt = post_order_list(nodes, kids@.take(i as int), f);
            let pk = post_order(nodes, kids@[i as int], f);
            assert(post_order_list(nodes, t, f) == pt + pk);
            assert forall|x: u32| #[trigger] post_order_list(nodes, t, f).to_set().contains(x) <==> pt.to_set().contains(
                x,
            ) || pk.to_set().contains(x) by {
                if post_order_list(nodes, t, f).to_set().contains(x) {
                    let k = choose|k: int| 0 <= k < (pt + pk).len() && (pt + pk)[k] == x;
                    if k < pt.len() {
                        assert(pt[k] == x);
                    } else {
                        assert(pk[k - pt.len()] == x);
                    }
                }
                if pt.to_set().contains(x) {
                    let k = choose|k: int| 0 <= k < pt.len() && pt[k] == x;
                    assert((pt + pk)[k] == x);
                }
                if pk.to_set().contains(x) {
                    let k = choose|k: int| 0 <= k < pk.len() && pk[k] == x;
                    assert((pt + pk)[k + pt.len()] == x);
                }
            }
            assert forall|x: u32|
                #[trigger] post_order_list(nodes, t, f).to_set().contains(x) && sums_entries(nodes[x]) implies exists|j: int|
                start.len() <= j < out@.len() && out@[j].0 == x by {
                if pt.to_set().contains(x) {
                    let j = choose|j: int| start.len() <= j < before.len() && before[j].0 == x;
                    assert(out@[j] == before[j]);
                } else {
                    let j = choose|j: int| before.len() <= j < out@.len() && out@[j].0 == x;
                }
            }
            assert forall|j: int| start.len() <= j < out@.len() implies post_order_list(nodes, t, f).to_set().contains(
                (#[trigger] out@[j]).0,
            ) by {
                if j < before.len() {
                    assert(out@[j] == before[j]);
                }
            }
            assert(recorded(nodes, start, out@, post_order_list(nodes, t, f).to_set()));
        }
        i = i + 1;
    }
    let ghost before = out@;
    out.push((n, size, count));
    proof {
        assert(kids@.take(kids@.len() as int) =~= kids@);
        let pl = post_order_list(nodes, kids@, f);
        let whole = post_order(nodes, n, fuel);
        assert(whole == pl.push(n));
        pl.lemma_push_to_set_commute(n);
        assert(out@[before.len() as int] == (n, size, count));
        assert forall|j: int| 0 <= j < start.len() implies #[trigger] out@[j] == start[j] by {
            assert(out@[j] == before[j]);
        }
        assert forall|j: int| start.len() <= j < out@.len() implies {
            let t = #[trigger] out@[j];
            &&& whole.to_set().contains(t.0)
            &&& sums_entries(nodes[t.0])
            &&& t.1 == agg_size(nodes, t.0, fuel_below(nodes, t.0))
            &&& t.2 == agg_count(nodes, t.0, fuel_below(nodes, t.0))
        } by {
            if j < before.len() {
                assert(out@[j] == before[j]);
            }
        }
        assert forall|x: u32| #[trigger] whole.to_set().contains(x) && sums_entries(nodes[x]) implies exists|j: int|
            start.len() <= j < out@.len() && out@[j].0 == x by {
            if x == n {
                assert(out@[before.len() as int].0 == x);
            } else {
                let j = choose|j: int| start.len() <= j < before.len() && before[j].0 == x;
                assert(out@[j] == before[j]);
            }
        }
    }
    Some((size, count))
}

/// The nodes named first in the entries of `list`.
pub open spec fn named(list: Seq<(u32, u128, u64)>) -> Set<u32> {
    Set::new(|k: u32| exists|j: int| 0 <= j < list.len() && #[trigger] list[j].0 == k)
}

proof fn lemma_named_step(list: Seq<(u32, u128, u64)>, j: int)
    requires
        0 <= j < list.len(),
    ensures
        named(list.take(j + 1)) == named(list.take(j)).insert(list[j].0),
{
    let a = named(list.take(j + 1));
    let b = named(list.take(j)).insert(list[j].0);
    assert forall|x: u32| a.contains(x) implies b.contains(x) by {
        let i = choose|i: int| 0 <= i < j + 1 && #[trigger] list.take(j + 1)[i].0 == x;
        if i < j {
            assert(list.take(j)[i].0 == x);
        }
    }
    assert forall|x: u32| b.contains(x) implies a.contains(x) by {
        if x == list[j].0 {
            assert(list.take(j + 1)[j].0 == x);
        } else {
            let i = choose|i: int| 0 <= i < j && #[trigger] list.take(j)[i].0 == x;
            assert(list.take(j + 1)[i].0 == x);
        }
    }
    assert(a =~= b);
}

proof fn lemma_retotal_step(nodes: Map<u32, TreeNode>, done: Set<u32>, k: u32)
    requires
        nodes.contains_key(k),
    ensures
        retotaled(nodes, done).insert(
            k,
            TreeNode { entry: totaled_entry(nodes, k), ..retotaled(nodes, done)[k] },
        ) == retotaled(nodes, done.insert(k)),
{
    assert(retotaled(nodes, done).insert(
        k,
        TreeNode { entry: totaled_entry(nodes, k), ..retotaled(nodes, done)[k] },
    ) =~= retotaled(nodes, done.insert(k)));
}

/// Sets the size of every directory below `root`, and of every node with
/// entries below it, to the sum of the sizes of its entries, and the entry
/// count of every directory below `root` to the number of entries below it.
/// When one of these totals does not fit its counter, nothing changes and
/// `false` comes back.
pub fn total_up(tree: &mut Tree, root: u32) -> (fits: bool)
    requires
        is_forest(tree_nodes(*old(tree))),
        tree_nodes(*old(tree)).contains_key(root),
    ensures
        fits == totals_fit_below(tree_nodes(*old(tree)), root, fuel_below(tree_nodes(*old(tree)), root)),
        tree_nodes(*final(tree)) == if fits {
            totaled(tree_nodes(*old(tree)), root)
        } else {
            tree_nodes(*old(tree))
        },
        is_forest(tree_nodes(*final(tree))),
        fits ==> forall|k: u32| #[trigger] summing_below(tree_nodes(*old(tree)), root).contains(k)
            ==> tree_nodes(*final(tree))[k].entry.size == total_size(
            tree_nodes(*final(tree)),
            tree_nodes(*final(tree))[k].children,
        ),
        fits && (forall|k: u32| #[trigger] tree_nodes(*old(tree)).contains_key(k) ==> subtree(
            tree_nodes(*old(tree)),
            root,
        ).contains(k)) ==> sizes_add_up(tree_nodes(*final(tree))),
        tree_node_slots(*final(tree)) == tree_node_slots(*old(tree)),
        tree_edge_slots(*final(tree)) == tree_edge_slots(*old(tree)),
{
    let ghost nodes = tree_nodes(*tree);
    let ghost fuel = fuel_below(nodes, root);
    let mut out: Vec<(u32, u128, u64)> = Vec::new();
    let total = gather(tree, root, &mut out, Ghost(fuel));
    if total.is_none() {
        return false;
    }
    let ghost walk = post_order(nodes, root, fuel).to_set();
    let mut j: usize = 0;
    proof {
        assert(out@.take(0) =~= Seq::<(u32, u128, u64)>::empty());
        assert(named(out@.take(0)) =~= Set::<u32>::empty());
        assert(retotaled(nodes, Set::<u32>::empty()) =~= nodes);
    }
    while j < out.len()
        invariant
            is_forest(nodes),
            nodes.contains_key(root),
            recorded(nodes, Seq::<(u32, u128, u64)>::empty(), out@, walk),
            walk == subtree(nodes, root),
            0 <= j <= out@.len(),
            tree_nodes(*tree) == retotaled(nodes, named(out@.take(j as int))),
            tree_node_slots(*tree) == tree_node_slots(*old(tree)),
            tree_edge_slots(*tree) == tree_edge_slots(*old(tree)),
            nodes == tree_nodes(*old(tree)),
        decreases out@.len() - j,
    {
        let (k, size, count) = out[j];
        proof {
            assert(walk.contains(k));
            lemma_subtree(nodes, root);
        }
        let e = get_entry_or_panic(tree, k);
        let directory = e.is_dir || e.entry_count.is_some();
        let fresh = EntryData {
            name: e.name.clone(),
            size: size,
            entry_count: if directory {
                Some(count)
            } else {
                e.entry_count
            },
            is_dir: e.is_dir,
        };
        let ghost cur = tree_nodes(*tree);
        proof {
            let done = named(out@.take(j as int));
            assert(fresh@ == totaled_entry(nodes, k)) by {
                assert(out@[j as int] == (k, size, count));
                assert(sums_entries(nodes[k]));
                assert(size == agg_size(nodes, k, fuel_below(nodes, k)));
                assert(count == agg_count(nodes, k, fuel_below(nodes, k)));
                assert(cur[k].entry.name == nodes[k].entry.name);
                assert(cur[k].entry.is_dir == nodes[k].entry.is_dir);
                assert(is_directory(cur[k].entry) == is_directory(nodes[k].entry));
                assert(!is_directory(nodes[k].entry) ==> cur[k].entry.entry_count == nodes[k].entry.entry_count);
            }
            lemma_named_step(out@, j as int);
            lemma_retotal_step(nodes, done, k);
        }
        set_entry(tree, k, fresh);
        j = j + 1;
    }
    proof {
        assert(out@.take(out@.len() as int) =~= out@);
        assert(named(out@) =~= summing_below(nodes, root)) by {
            assert forall|x: u32| named(out@).contains(x) implies summing_below(nodes, root).contains(x) by {
                let i = choose|i: int| 0 <= i < out@.len() && #[trigger] out@[i].0 == x;
            }
            assert forall|x: u32| summing_below(nodes, root).contains(x) implies named(out@).contains(x) by {
                assert(walk.contains(x) && sums_entries(nodes[x]));
                let i = choose|i: int| 0 <= i < out@.len() && out@[i].0 == x;
                assert(out@[i].0 == x);
            }
        }
        lemma_same_shape(nodes, tree_nodes(*tree));
        totaled_sizes_add_up(nodes, root);
    }
    true
}

/// The size that a node of `totaled(nodes, root)` holds is `agg_size` of it.
proof fn lemma_totaled_size(nodes: Map<u32, TreeNode>, root: u32, c: u32)
    requires
        is_forest(nodes),
        nodes.contains_key(root),
        totals_fit_below(nodes, root, fuel_below(nodes, root)),
        subtree(nodes, root).contains(c),
    ensures
        totaled(nodes, root)[c].entry.size == agg_size(nodes, c, fuel_below(nodes, c)),
        totaled(nodes, root)[c].children == nodes[c].children,
        is_directory(totaled(nodes, root)[c].entry) == is_directory(nodes[c].entry),
{
    lemma_subtree(nodes, root);
    lemma_agg_count_nonneg(nodes, c, fuel_below(nodes, c));
    if sums_entries(nodes[c]) {
        assert(summing_below(nodes, root).contains(c));
        lemma_fits_below(nodes, root, c);
    } else {
        assert(!summing_below(nodes, root).contains(c));
    }
}

/// The sizes of the nodes of `list`, once the totals below `root` are
/// recomputed, add up to `agg_sizes` of the list.
proof fn lemma_totaled_list(nodes: Map<u32, TreeNode>, root: u32, list: Seq<u32>, f: nat)
    requires
        is_forest(nodes),
        nodes.contains_key(root),
        totals_fit_below(nodes, root, fuel_below(nodes, root)),
        forall|i: int| 0 <= i < list.len() ==> subtree(nodes, root).contains(#[trigger] list[i]),
        forall|i: int| 0 <= i < list.len() ==> fuel_below(nodes, #[trigger] list[i]) == f,
    ensures
        total_size(totaled(nodes, root), list) == agg_sizes(nodes, list, f),
    decreases list.len(),
{
    if list.len() > 0 {
        let last = list.last();
        assert(list[list.len() - 1] == last);
        let rest = list.drop_last();
        assert forall|i: int| 0 <= i < rest.len() implies subtree(nodes, root).contains(#[trigger] rest[i])
            && fuel_below(nodes, rest[i]) == f by {
            assert(rest[i] == list[i]);
        }
        lemma_totaled_list(nodes, root, rest, f);
        lemma_totaled_size(nodes, root, last);
    }
}

/// Once `total_up` has recomputed the totals below `root`, the size of
/// every node below `root` that sums its entries (every directory, and
/// every node with entries below it) is the sum of the sizes of its
/// entries; where the whole tree lies below `root`, the sizes of the whole
/// tree add up.
pub proof fn totaled_sizes_add_up(nodes: Map<u32, TreeNode>, root: u32)
    requires
        is_forest(nodes),
        nodes.contains_key(root),
        totals_fit_below(nodes, root, fuel_below(nodes, root)),
    ensures
        forall|k: u32| #[trigger] summing_below(nodes, root).contains(k) ==> totaled(nodes, root)[k].entry.size
            == total_size(totaled(nodes, root), totaled(nodes, root)[k].children),
        (forall|k: u32| nodes.contains_key(k) ==> #[trigger] subtree(nodes, root).contains(k)) ==> sizes_add_up(
            totaled(nodes, root),
        ),
{
    let t = totaled(nodes, root);
    lemma_subtree(nodes, root);
    assert forall|k: u32| #[trigger] summing_below(nodes, root).contains(k) implies t[k].entry.size
        == total_size(t, t[k].children) by {
        assert(subtree(nodes, root).contains(k) && sums_entries(nodes[k]));
        lemma_fits_below(nodes, root, k);
        lemma_totaled_size(nodes, root, k);
        let kids = nodes[k].children;
        let fk = fuel_below(nodes, k);
        assert(fk > 0);
        assert forall|i: int| 0 <= i < kids.len() implies subtree(nodes, root).contains(#[trigger] kids[i])
            && fuel_below(nodes, kids[i]) == (fk - 1) as nat by {
            lemma_child_fuel(nodes, k, i);
            assert(subtree(nodes, root).contains(k) && nodes[k].children[i] == kids[i]);
        }
        lemma_totaled_list(nodes, root, kids, (fk - 1) as nat);
    }
    if forall|k: u32| nodes.contains_key(k) ==> #[trigger] subtree(nodes, root).contains(k) {
        assert forall|n: u32|
            #[trigger] t.contains_key(n) && (is_directory(t[n].entry) || t[n].children.len() > 0) implies t[n].entry.size
            == total_size(t, t[n].children) by {
            assert(subtree(nodes, root).contains(n));
            lemma_totaled_size(nodes, root, n);
            assert(summing_below(nodes, root).contains(n));
        }
    }
}

} // verus!
