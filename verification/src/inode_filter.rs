use vstd::prelude::*;
use std::collections::HashMap;
use vstd::arithmetic::div_mod::lemma_fundamental_div_mod_converse;

verus! {

broadcast use vstd::std_specs::hash::group_hash_axioms;

/// Two to the power 64: the device number fills the high half of a key.
pub open spec fn high_half() -> int {
    0x1_0000_0000_0000_0000
}

/// The key under which a `(device, inode)` pair is stored.
pub open spec fn inode_key(dev_inode: (u64, u64)) -> u128 {
    (dev_inode.0 as int * high_half() + dev_inode.1 as int) as u128
}

/// What one sighting of a file does to the table of hard-linked inodes
/// still expected: a file with at most one link is always counted; the
/// first sighting of an inode with `nlinks` links is counted and leaves
/// `nlinks - 1` sightings expected; every later sighting is not counted
/// and uses up one expected sighting, the last one removing the inode.
pub open spec fn add_model(expected: Map<(u64, u64), u64>, dev_inode: (u64, u64), nlinks: u64) -> (
    Map<(u64, u64), u64>,
    bool,
) {
    if nlinks <= 1 {
        (expected, true)
    } else if expected.contains_key(dev_inode) {
        if expected[dev_inode] == 1 {
            (expected.remove(dev_inode), false)
        } else {
            (expected.insert(dev_inode, (expected[dev_inode] - 1) as u64), false)
        }
    } else {
        (expected.insert(dev_inode, (nlinks - 1) as u64), true)
    }
}

/// The table and the answers after the same file has been seen `times`
/// times, starting from `expected`.
pub open spec fn sightings(
    expected: Map<(u64, u64), u64>,
    dev_inode: (u64, u64),
    nlinks: u64,
    times: nat,
) -> (Map<(u64, u64), u64>, Seq<bool>)
    decreases times,
{
    if times == 0 {
        (expected, Seq::empty())
    } else {
        let prev = sightings(expected, dev_inode, nlinks, (times - 1) as nat);
        let next = add_model(prev.0, dev_inode, nlinks);
        (next.0, prev.1.push(next.1))
    }
}

proof fn lemma_sightings_progress(
    expected: Map<(u64, u64), u64>,
    dev_inode: (u64, u64),
    nlinks: u64,
    t: nat,
)
    requires
        !expected.contains_key(dev_inode),
        nlinks >= 2,
        1 <= t < nlinks,
    ensures
        sightings(expected, dev_inode, nlinks, t).0 == expected.insert(
            dev_inode,
            (nlinks - t) as u64,
        ),
        sightings(expected, dev_inode, nlinks, t).1 == seq![true] + Seq::new(
            (t - 1) as nat,
            |i: int| false,
        ),
    decreases t,
{
    if t == 1 {
        assert(sightings(expected, dev_inode, nlinks, 0).1 == Seq::<bool>::empty());
        assert(sightings(expected, dev_inode, nlinks, 1).1 =~= seq![true] + Seq::new(
            0,
            |i: int| false,
        ));
    } else {
        lemma_sightings_progress(expected, dev_inode, nlinks, (t - 1) as nat);
        let prev = sightings(expected, dev_inode, nlinks, (t - 1) as nat);
        assert(prev.0.contains_key(dev_inode));
        assert(prev.0.insert(dev_inode, (nlinks - t) as u64) =~= expected.insert(
            dev_inode,
            (nlinks - t) as u64,
        ));
        assert(sightings(expected, dev_inode, nlinks, t).1 =~= seq![true] + Seq::new(
            (t - 1) as nat,
            |i: int| false,
        ));
    }
}

/// A file with `nlinks` links (at least one) that was not pending is
/// counted exactly once over its `nlinks` sightings, at the first one, and
/// once all of them have been seen the table is as it was before.
pub proof fn hard_links_counted_once(
    expected: Map<(u64, u64), u64>,
    dev_inode: (u64, u64),
    nlinks: u64,
)
    requires
        !expected.contains_key(dev_inode),
        nlinks >= 1,
    ensures
        sightings(expected, dev_inode, nlinks, nlinks as nat).0 == expected,
        sightings(expected, dev_inode, nlinks, nlinks as nat).1 == seq![true] + Seq::new(
            (nlinks - 1) as nat,
            |i: int| false,
        ),
{
    if nlinks == 1 {
        assert(sightings(expected, dev_inode, nlinks, 0).1 == Seq::<bool>::empty());
        assert(sightings(expected, dev_inode, nlinks, 1).1 =~= seq![true] + Seq::new(
            0,
            |i: int| false,
        ));
    } else {
        lemma_sightings_progress(expected, dev_inode, nlinks, (nlinks - 1) as nat);
        let prev = sightings(expected, dev_inode, nlinks, (nlinks - 1) as nat);
        assert(prev.0[dev_inode] == 1);
        assert(prev.0.remove(dev_inode) =~= expected);
        assert(sightings(expected, dev_inode, nlinks, nlinks as nat).1 =~= seq![true] + Seq::new(
            (nlinks - 1) as nat,
            |i: int| false,
        ));
    }
}

/// One sighting: a `(device, inode)` pair and its number of links.
pub type Sighting = ((u64, u64), u64);

/// The table and the answers after the sightings of `calls`, in order,
/// starting from `expected`.
pub open spec fn run(expected: Map<(u64, u64), u64>, calls: Seq<Sighting>) -> (Map<(u64, u64), u64>, Seq<bool>)
    decreases calls.len(),
{
    if calls.len() == 0 {
        (expected, Seq::empty())
    } else {
        let prev = run(expected, calls.drop_last());
        let next = add_model(prev.0, calls.last().0, calls.last().1);
        (next.0, prev.1.push(next.1))
    }
}

/// Holds of the sightings of the file `k`.
pub open spec fn same_file(k: (u64, u64)) -> spec_fn(Sighting) -> bool {
    |c: Sighting| c.0 == k
}

/// Holds of the sightings of every other file.
pub open spec fn other_file(k: (u64, u64)) -> spec_fn(Sighting) -> bool {
    |c: Sighting| c.0 != k
}

proof fn lemma_filter_prefix_len(s: Seq<Sighting>, f: spec_fn(Sighting) -> bool, i: int)
    requires
        0 <= i <= s.len(),
    ensures
        s.take(i).filter(f).len() <= s.filter(f).len(),
    decreases s.len() - i,
{
    if i < s.len() {
        lemma_filter_prefix_len(s, f, i + 1);
        assert(s.take(i + 1) =~= s.take(i).push(s[i]));
        s.take(i).lemma_filter_push(s[i], f);
    } else {
        assert(s.take(i) =~= s);
    }
}

/// The state after the first `i` sightings of `calls`, in which the file
/// `k` appears `n` times, first with `n` links and always with two or more.
#[verifier::rlimit(40)]
proof fn lemma_interleaved_prefix(
    expected: Map<(u64, u64), u64>,
    calls: Seq<Sighting>,
    k: (u64, u64),
    n: u64,
    i: int,
)
    requires
        !expected.contains_key(k),
        n >= 2,
        0 <= i <= calls.len(),
        calls.filter(same_file(k)).len() == n,
        forall|j: int| 0 <= j < calls.len() && calls[j].0 == k ==> calls[j].1 >= 2,
        forall|j: int|
            0 <= j < calls.len() && calls[j].0 == k && calls.take(j).filter(same_file(k)).len() == 0
                ==> calls[j].1 == n,
    ensures
        ({
            let p = calls.take(i);
            let r = run(expected, p);
            let q = run(expected, p.filter(other_file(k)));
            let seen = p.filter(same_file(k)).len();
            &&& r.1.len() == i
            &&& q.1.len() == p.filter(other_file(k)).len()
            &&& !q.0.contains_key(k)
            &&& r.0.remove(k) == q.0
            &&& seen <= n
            &&& (seen == 0 || seen == n) ==> !r.0.contains_key(k)
            &&& (1 <= seen < n) ==> r.0.contains_key(k) && r.0[k] == n - seen
            &&& forall|j: int|
                0 <= j < i && calls[j].0 == k ==> #[trigger] r.1[j] == (calls.take(j).filter(same_file(k)).len()
                    == 0)
            &&& forall|j: int|
                0 <= j < i && calls[j].0 != k ==> #[trigger] r.1[j] == q.1[calls.take(j).filter(
                    other_file(k),
                ).len() as int]
        }),
    decreases i,
{
    let p = calls.take(i);
    lemma_filter_prefix_len(calls, same_file(k), i);
    if i == 0 {
        reveal(Seq::filter);
        assert(p =~= Seq::<Sighting>::empty());
        assert(expected.remove(k) =~= expected);
    } else {
        lemma_interleaved_prefix(expected, calls, k, n, i - 1);
        let pp = calls.take(i - 1);
        let c = calls[i - 1];
        assert(p =~= pp.push(c));
        assert(p.drop_last() =~= pp);
        pp.lemma_filter_push(c, same_file(k));
        pp.lemma_filter_push(c, other_file(k));
        let rp = run(expected, pp);
        let qp = run(expected, pp.filter(other_file(k)));
        let r = run(expected, p);
        let q = run(expected, p.filter(other_file(k)));
        assert(r == (add_model(rp.0, c.0, c.1).0, rp.1.push(add_model(rp.0, c.0, c.1).1)));
        let seen_prev = pp.filter(same_file(k)).len();
        if c.0 == k {
            assert(p.filter(other_file(k)) == pp.filter(other_file(k)));
            assert(p.filter(same_file(k)).len() == seen_prev + 1);
            assert(c.1 >= 2);
            if seen_prev == 0 {
                assert(c.1 == n);
            }
            assert(r.0.remove(k) =~= rp.0.remove(k));
            assert forall|j: int| 0 <= j < i && calls[j].0 == k implies #[trigger] r.1[j] == (calls.take(j).filter(
                same_file(k),
            ).len() == 0) by {
                if j < i - 1 {
                    assert(r.1[j] == rp.1[j]);
                }
            }
            assert forall|j: int| 0 <= j < i && calls[j].0 != k implies #[trigger] r.1[j] == q.1[calls.take(j).filter(
                other_file(k),
            ).len() as int] by {
                assert(r.1[j] == rp.1[j]);
            }
        } else {
            let pf = pp.filter(other_file(k));
            assert(p.filter(other_file(k)) == pf.push(c));
            assert(pf.push(c).drop_last() =~= pf);
            assert(q == (add_model(qp.0, c.0, c.1).0, qp.1.push(add_model(qp.0, c.0, c.1).1)));
            assert(p.filter(same_file(k)) == pp.filter(same_file(k)));
            assert(rp.0.contains_key(c.0) == qp.0.contains_key(c.0)) by {
                assert(rp.0.remove(k).contains_key(c.0) == rp.0.contains_key(c.0));
            }
            if rp.0.contains_key(c.0) {
                assert(rp.0[c.0] == rp.0.remove(k)[c.0]);
            }
            assert(add_model(rp.0, c.0, c.1).1 == add_model(qp.0, c.0, c.1).1);
            assert(r.0.remove(k) =~= q.0);
            assert forall|j: int| 0 <= j < i && calls[j].0 == k implies #[trigger] r.1[j] == (calls.take(j).filter(
                same_file(k),
            ).len() == 0) by {
                assert(j < i - 1);
                assert(r.1[j] == rp.1[j]);
            }
            assert forall|j: int| 0 <= j < i && calls[j].0 != k implies #[trigger] r.1[j] == q.1[calls.take(j).filter(
                other_file(k),
            ).len() as int] by {
                if j < i - 1 {
                    assert(r.1[j] == rp.1[j]);
                    lemma_filter_prefix_len(pp, other_file(k), j + 1);
                    assert(pp.take(j) =~= calls.take(j));
                    assert(pp.take(j + 1) =~= pp.take(j).push(pp[j]));
                    pp.take(j).lemma_filter_push(pp[j], other_file(k));
                    assert(calls.take(j).filter(other_file(k)).len() < qp.1.len());
                    assert(q.1[calls.take(j).filter(other_file(k)).len() as int] == qp.1[calls.take(j).filter(
                        other_file(k),
                    ).len() as int]);
                } else {
                    assert(calls.take(j) =~= pp);
                }
            }
        }
    }
}

/// Hard links are counted once even among sightings of other files: when
/// the file `k`, not pending, is seen `n` times (`n >= 2`), first with `n`
/// links and always with two or more, while other files are seen in
/// between, its first sighting is counted and the later ones are not;
/// afterwards it is no longer pending, so a new sighting with two or more
/// links is counted again; and every other sighting gets the answer it
/// would get if the file `k` had never been seen, the table ending as it
/// would then.
pub proof fn hard_links_counted_once_interleaved(
    expected: Map<(u64, u64), u64>,
    calls: Seq<Sighting>,
    k: (u64, u64),
    n: u64,
)
    requires
        !expected.contains_key(k),
        n >= 2,
        calls.filter(same_file(k)).len() == n,
        forall|j: int| 0 <= j < calls.len() && calls[j].0 == k ==> calls[j].1 >= 2,
        forall|j: int|
            0 <= j < calls.len() && calls[j].0 == k && calls.take(j).filter(same_file(k)).len() == 0
                ==> calls[j].1 == n,
    ensures
        run(expected, calls).1.len() == calls.len(),
        forall|j: int|
            0 <= j < calls.len() && calls[j].0 == k ==> #[trigger] run(expected, calls).1[j] == (calls.take(
                j,
            ).filter(same_file(k)).len() == 0),
        !run(expected, calls).0.contains_key(k),
        forall|m: u64| m >= 2 ==> #[trigger] add_model(run(expected, calls).0, k, m).1,
        run(expected, calls).0 == run(expected, calls.filter(other_file(k))).0,
        forall|j: int|
            0 <= j < calls.len() && calls[j].0 != k ==> #[trigger] run(expected, calls).1[j] == run(
                expected,
                calls.filter(other_file(k)),
            ).1[calls.take(j).filter(other_file(k)).len() as int],
{
    lemma_interleaved_prefix(expected, calls, k, n, calls.len() as int);
    assert(calls.take(calls.len() as int) =~= calls);
    let r = run(expected, calls);
    assert(r.0.remove(k) =~= r.0);
}

/// Filters out repeated sightings of a hard-linked file, so that its size
/// is counted once per scan.
#[derive(Debug)]
pub struct InodeFilter {
    inner: HashMap<u128, u64>,
}

impl View for InodeFilter {
    /// For every inode seen with more than one link, the number of its
    /// links not yet seen.
    type V = Map<(u64, u64), u64>;

    closed spec fn view(&self) -> Map<(u64, u64), u64> {
        Map::new(
            |k: (u64, u64)| self.inner@.contains_key(inode_key(k)),
            |k: (u64, u64)| self.inner@[inode_key(k)],
        )
    }
}

proof fn lemma_inode_key(a: (u64, u64), b: (u64, u64))
    ensures
        inode_key(a) as int == a.0 as int * high_half() + a.1 as int,
        inode_key(a) == inode_key(b) ==> a == b,
{
    assert(0 <= a.0 as int * high_half() <= (high_half() - 1) * high_half()) by (nonlinear_arith)
        requires
            0 <= a.0 < high_half(),
            high_half() > 0,
    ;
    assert(0 <= b.0 as int * high_half()) by (nonlinear_arith)
        requires
            0 <= b.0,
            high_half() > 0,
    ;
    assert(b.0 as int * high_half() <= (high_half() - 1) * high_half()) by (nonlinear_arith)
        requires
            0 <= b.0 < high_half(),
            high_half() > 0,
    ;
    let ka = a.0 as int * high_half() + a.1 as int;
    let kb = b.0 as int * high_half() + b.1 as int;
    lemma_fundamental_div_mod_converse(ka, high_half(), a.0 as int, a.1 as int);
    lemma_fundamental_div_mod_converse(kb, high_half(), b.0 as int, b.1 as int);
}

impl InodeFilter {
    #[verifier::type_invariant]
    spec fn counts_positive(self) -> bool {
        forall|k: u128| #[trigger] self.inner@.contains_key(k) ==> self.inner@[k] >= 1
    }

    fn key_of(dev_inode: (u64, u64)) -> (key: u128)
        ensures
            key == inode_key(dev_inode),
    {
        proof {
            lemma_inode_key(dev_inode, dev_inode);
        }
        (dev_inode.0 as u128) * 0x1_0000_0000_0000_0000u128 + (dev_inode.1 as u128)
    }

    /// Records one sighting of the file `dev_inode` with `nlinks` hard
    /// links, and returns whether its size is to be counted.
    pub fn add_dev_inode(&mut self, dev_inode: (u64, u64), nlinks: u64) -> (counted: bool)
        ensures
            (final(self)@, counted) == add_model(old(self)@, dev_inode, nlinks),
    {
        proof {
            use_type_invariant(&*self);
        }
        if nlinks <= 1 {
            return true;
        }
        let key = Self::key_of(dev_inode);
        let ghost before = self.inner@;
        proof {
            assert forall|k: (u64, u64)| inode_key(k) == key implies k == dev_inode by {
                lemma_inode_key(k, dev_inode);
            }
        }
        let mut inner = HashMap::new();
        std::mem::swap(&mut inner, &mut self.inner);
        let counted = match inner.get(&key) {
            Some(count) => {
                let c = *count;
                if c == 1 {
                    inner.remove(&key);
                } else {
                    inner.insert(key, c - 1);
                }
                false
            },
            None => {
                inner.insert(key, nlinks - 1);
                true
            },
        };
        self.inner = inner;
        proof {
            assert(self@ =~= add_model(old(self)@, dev_inode, nlinks).0);
        }
        counted
    }

    /// The bytes that a file of `size` bytes adds to the totals of a scan:
    /// all of them when hard links are counted, or when this sighting is the
    /// one of its file that counts; none otherwise. The table moves on only
    /// when hard links are not counted.
    pub fn counted_size(&mut self, count_hard_links: bool, dev_inode: (u64, u64), nlinks: u64, size: u128) -> (counted: u128)
        ensures
            count_hard_links ==> final(self)@ == old(self)@ && counted == size,
            !count_hard_links ==> final(self)@ == add_model(old(self)@, dev_inode, nlinks).0 && counted == if add_model(
                old(self)@,
                dev_inode,
                nlinks,
            ).1 {
                size
            } else {
                0
            },
    {
        if count_hard_links || self.add_dev_inode(dev_inode, nlinks) {
            size
        } else {
            0
        }
    }
}

impl Clone for InodeFilter {
    fn clone(&self) -> (copy: Self)
        ensures
            copy@ == self@,
    {
        proof {
            use_type_invariant(self);
        }
        InodeFilter { inner: self.inner.clone() }
    }
}

impl Default for InodeFilter {
    fn default() -> (filter: Self)
        ensures
            filter@ == Map::<(u64, u64), u64>::empty(),
    {
        let filter = InodeFilter { inner: HashMap::new() };
        proof {
            assert(filter@ =~= Map::<(u64, u64), u64>::empty());
        }
        filter
    }
}

} // verus!
