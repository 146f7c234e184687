use vstd::prelude::*;

verus! {

/// The number of leading items of `s` whose key is at least `key`.
pub open spec fn leading_not_below<T>(s: Seq<(T, u128)>, key: u128) -> int
    decreases s.len(),
{
    if s.len() == 0 {
        0
    } else if s[0].1 < key {
        0
    } else {
        1 + leading_not_below(s.drop_first(), key)
    }
}

/// `s` ordered by key, largest first, items with equal keys keeping their
/// order: each item in turn is placed after every item already placed
/// whose key is at least its own.
pub open spec fn sort_desc<T>(s: Seq<(T, u128)>) -> Seq<(T, u128)>
    decreases s.len(),
{
    if s.len() == 0 {
        s
    } else {
        let t = sort_desc(s.drop_last());
        t.insert(leading_not_below(t, s.last().1), s.last())
    }
}

/// The keys of `s` do not increase.
pub open spec fn is_sorted_desc<T>(s: Seq<(T, u128)>) -> bool {
    forall|i: int, j: int| 0 <= i < j < s.len() ==> s[i].1 >= s[j].1
}

proof fn lemma_leading_not_below<T>(s: Seq<(T, u128)>, key: u128)
    requires
        is_sorted_desc(s),
    ensures
        0 <= leading_not_below(s, key) <= s.len(),
        forall|j: int| 0 <= j < leading_not_below(s, key) ==> s[j].1 >= key,
        forall|j: int| leading_not_below(s, key) <= j < s.len() ==> s[j].1 < key,
    decreases s.len(),
{
    if s.len() > 0 && s[0].1 >= key {
        lemma_leading_not_below(s.drop_first(), key);
        assert forall|j: int| 1 <= j < s.len() implies s[j] == s.drop_first()[j - 1] by {}
    }
}

/// `sort_desc` orders by key and keeps every item.
pub proof fn lemma_sort_desc<T>(s: Seq<(T, u128)>)
    ensures
        is_sorted_desc(sort_desc(s)),
        sort_desc(s).to_multiset() == s.to_multiset(),
        sort_desc(s).len() == s.len(),
    decreases s.len(),
{
    broadcast use vstd::seq_lib::group_to_multiset_ensures;

    if s.len() > 0 {
        let t = sort_desc(s.drop_last());
        lemma_sort_desc(s.drop_last());
        let x = s.last();
        let p = leading_not_below(t, x.1);
        lemma_leading_not_below(t, x.1);
        let r = t.insert(p, x);
        assert forall|i: int, j: int| 0 <= i < j < r.len() implies r[i].1 >= r[j].1 by {
            if j < p {
            } else if j == p {
            } else if i < p {
            } else if i == p {
            } else {
            }
        }
        vstd::seq_lib::to_multiset_insert(t, p, x);
        assert(s.drop_last().push(x) =~= s);
        vstd::seq_lib::to_multiset_build(s.drop_last(), x);
    }
}

/// Orders `items` by key, largest first, keeping the order of items with
/// equal keys.
pub fn sort_by_key_desc<T: Copy>(items: &Vec<(T, u128)>) -> (sorted: Vec<(T, u128)>)
    ensures
        sorted@ == sort_desc(items@),
        is_sorted_desc(sorted@),
        sorted@.to_multiset() == items@.to_multiset(),
{
    let mut out: Vec<(T, u128)> = Vec::new();
    let mut i: usize = 0;
    while i < items.len()
        invariant
            0 <= i <= items@.len(),
            out@ == sort_desc(items@.take(i as int)),
        decreases items@.len() - i,
    {
        let x = items[i];
        proof {
            lemma_sort_desc(items@.take(i as int));
            lemma_leading_not_below(out@, x.1);
        }
        let mut p: usize = 0;
        while p < out.len() && out[p].1 >= x.1
            invariant
                0 <= p <= out@.len(),
                is_sorted_desc(out@),
                forall|j: int| 0 <= j < p ==> out@[j].1 >= x.1,
                0 <= leading_not_below(out@, x.1) <= out@.len(),
                forall|j: int| leading_not_below(out@, x.1) <= j < out@.len() ==> out@[j].1 < x.1,
                forall|j: int| 0 <= j < leading_not_below(out@, x.1) ==> out@[j].1 >= x.1,
            decreases out@.len() - p,
        {
            p = p + 1;
        }
        proof {
            let q = leading_not_below(out@, x.1);
            if p < q {
                assert(out@[p as int].1 >= x.1);
                assert(out@[p as int].1 < x.1);
            }
            if q < p {
                assert(out@[q].1 >= x.1);
                assert(out@[q].1 < x.1);
            }
            assert(p == leading_not_below(out@, x.1));
            assert(items@.take(i + 1).drop_last() =~= items@.take(i as int));
        }
        out.insert(p, x);
        i = i + 1;
    }
    proof {
        assert(items@.take(items@.len() as int) =~= items@);
        lemma_sort_desc(items@);
    }
    out
}

} // verus!
