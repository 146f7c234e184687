use vstd::prelude::*;
use crate::tree::{
    EntryView, Tree, TreeNode, entry_of, files_below, files_below_list, fuel_below, is_directory,
    is_forest, lemma_child_fuel, neighbors, tree_nodes,
};
use crate::order::{is_sorted_desc, sort_by_key_desc};

verus! {

/// The extension of a file name as the standard library's
/// `Path::extension` reads it.
pub uninterp spec fn path_extension(name: Seq<char>) -> Option<Seq<char>>;

/// The index of the last `.` in `s`, if any.
pub open spec fn last_dot(s: Seq<char>) -> Option<int>
    decreases s.len(),
{
    if s.len() == 0 {
        None
    } else if s.last() == '.' {
        Some(s.len() - 1)
    } else {
        last_dot(s.drop_last())
    }
}

/// A name that is one ordinary path component: not empty, not `.` or
/// `..`, and free of separators and drive marks.
pub open spec fn is_plain_file_name(s: Seq<char>) -> bool {
    &&& s.len() > 0
    &&& s != seq!['.']
    &&& s != seq!['.', '.']
    &&& !s.contains('/')
    &&& !s.contains('\\')
    &&& !s.contains(':')
}

/// The extension of a plain file name, as the standard library documents
/// it: none without an embedded `.`, none when the only `.` starts the
/// name, and otherwise the part after the last `.`.
pub open spec fn documented_extension(s: Seq<char>) -> Option<Seq<char>> {
    match last_dot(s) {
        Some(i) => if i == 0 {
            None
        } else {
            Some(s.subrange(i + 1, s.len() as int))
        },
        None => None,
    }
}

/// The characters of an optional string.
pub open spec fn text_of(s: Option<String>) -> Option<Seq<char>> {
    match s {
        Some(t) => Some(t@),
        None => None,
    }
}

/// The extension of `name` (`std::path::Path::extension`, then converted
/// back to a string, which loses nothing since `name` is valid UTF-8).
/// Its value is named `path_extension`; for a plain file name it is the
/// one the standard library documents.
#[verifier::external_body]
pub(crate) fn file_extension(name: &str) -> (ext: Option<String>)
    ensures
        text_of(ext) == path_extension(name@),
        is_plain_file_name(name@) ==> text_of(ext) == documented_extension(name@),
{
    std::path::Path::new(name).extension().map(|e| e.to_string_lossy().into_owned())
}

/// `c` with an ASCII capital letter turned into its small letter.
pub open spec fn ascii_lower(c: char) -> char {
    if 'A' <= c && c <= 'Z' {
        ((c as int) + 32) as char
    } else {
        c
    }
}

/// A copy of `s` with every ASCII capital letter turned into its small
/// letter, other characters unchanged (`str::to_ascii_lowercase`).
#[verifier::external_body]
pub(crate) fn ascii_lowercase(s: &str) -> (lower: String)
    ensures
        lower@ == s@.map_values(|c: char| ascii_lower(c)),
{
    s.to_ascii_lowercase()
}

/// The key under which a file is counted: its extension in ASCII small
/// letters, or the empty string when it has none.
pub open spec fn extension_key(e: EntryView) -> Seq<char> {
    match path_extension(e.name) {
        Some(x) => x.map_values(|c: char| ascii_lower(c)),
        None => Seq::empty(),
    }
}

/// For each extension key, the total size and the number of the files in
/// `files` that have it.
pub open spec fn tally(files: Seq<EntryView>) -> Map<Seq<char>, (int, int)>
    decreases files.len(),
{
    if files.len() == 0 {
        Map::empty()
    } else {
        let m = tally(files.drop_last());
        let f = files.last();
        let k = extension_key(f);
        let prev = if m.contains_key(k) {
            m[k]
        } else {
            (0, 0)
        };
        m.insert(k, (prev.0 + f.size, prev.1 + 1))
    }
}

/// Every total of `m` fits the counters of an `ExtensionStat`.
pub open spec fn totals_fit(m: Map<Seq<char>, (int, int)>) -> bool {
    forall|k: Seq<char>| #[trigger] m.contains_key(k) ==> m[k].0 <= u128::MAX && m[k].1 <= u64::MAX
}

/// The files of the tree below `root`, going down through directories.
pub open spec fn files_of(nodes: Map<u32, TreeNode>, root: u32) -> Seq<EntryView> {
    files_below(nodes, root, fuel_below(nodes, root))
}

/// The totals of the files of one extension.
#[derive(Debug, Clone, Copy, PartialEq, Eq)]
pub struct ExtensionStat {
    pub total_bytes: u128,
    pub file_count: u64,
}

/// The statistics of every extension found in a tree, and the extensions
/// ordered by total size, largest first.
#[derive(Debug)]
pub struct ExtensionIndex {
    pub by_ext: Vec<(String, ExtensionStat)>,
    pub ordered: Vec<String>,
}

/// `keys` and `stats` list each key of `m` once, with its totals.
pub open spec fn stats_match(keys: Seq<String>, stats: Seq<ExtensionStat>, m: Map<Seq<char>, (int, int)>) -> bool {
    &&& keys.len() == stats.len()
    &&& forall|i: int, j: int| 0 <= i < j < keys.len() ==> keys[i]@ != keys[j]@
    &&& forall|i: int|
        0 <= i < keys.len() ==> {
            &&& m.contains_key(#[trigger] keys[i]@)
            &&& m[keys[i]@] == (stats[i].total_bytes as int, stats[i].file_count as int)
        }
    &&& forall|k: Seq<char>| #[trigger] m.contains_key(k) ==> exists|i: int| 0 <= i < keys.len() && keys[i]@ == k
}

/// `by_ext` lists each key of `m` once, with its totals.
pub open spec fn pairs_match(by_ext: Seq<(String, ExtensionStat)>, m: Map<Seq<char>, (int, int)>) -> bool {
    stats_match(by_ext.map_values(|p: (String, ExtensionStat)| p.0), by_ext.map_values(|p: (String, ExtensionStat)| p.1), m)
}

proof fn lemma_tally_grows(a: Seq<EntryView>, b: Seq<EntryView>)
    ensures
        forall|k: Seq<char>| #[trigger] tally(a).contains_key(k) ==> {
            &&& tally(a + b).contains_key(k)
            &&& tally(a)[k].0 <= tally(a + b)[k].0
            &&& tally(a)[k].1 <= tally(a + b)[k].1
        },
        forall|k: Seq<char>| #[trigger] tally(a + b).contains_key(k) ==> tally(a + b)[k].0 >= 0 && tally(a + b)[k].1 >= 1,
    decreases b.len(),
{
    if b.len() == 0 {
        assert(a + b =~= a);
        lemma_tally_nonneg(a);
    } else {
        lemma_tally_grows(a, b.drop_last());
        assert((a + b).drop_last() =~= a + b.drop_last());
        lemma_tally_nonneg(a + b);
    }
}

proof fn lemma_tally_nonneg(a: Seq<EntryView>)
    ensures
        forall|k: Seq<char>| #[trigger] tally(a).contains_key(k) ==> tally(a)[k].0 >= 0 && tally(a)[k].1 >= 1,
    decreases a.len(),
{
    if a.len() > 0 {
        lemma_tally_nonneg(a.drop_last());
        let m = tally(a.drop_last());
        let key = extension_key(a.last());
        assert forall|k: Seq<char>| #[trigger] tally(a).contains_key(k) implies tally(a)[k].0 >= 0
            && tally(a)[k].1 >= 1 by {
            if k != key {
                assert(m.contains_key(k));
            }
        }
    }
}

/// Counts one file into the running totals.
fn count_file(keys: &mut Vec<String>, stats: &mut Vec<ExtensionStat>, entry: &crate::tree::EntryData, Ghost(seen): Ghost<Seq<EntryView>>)
    requires
        stats_match(old(keys)@, old(stats)@, tally(seen)),
        tally(seen.push(entry@)).contains_key(extension_key(entry@)),
        tally(seen.push(entry@))[extension_key(entry@)].0 <= u128::MAX,
        tally(seen.push(entry@))[extension_key(entry@)].1 <= u64::MAX,
    ensures
        stats_match(final(keys)@, final(stats)@, tally(seen.push(entry@))),
{
    let key = match file_extension(entry.name.as_str()) {
        Some(ext) => ascii_lowercase(ext.as_str()),
        None => String::new(),
    };
    let ghost m = tally(seen);
    let ghost k = extension_key(entry@);
    assert(key@ == k);
    assert(seen.push(entry@).drop_last() =~= seen);
    let mut j: usize = 0;
    while j < keys.len()
        invariant
            0 <= j <= keys@.len(),
            keys@.len() == stats@.len(),
            forall|i: int| 0 <= i < j ==> keys@[i]@ != key@,
        ensures
            0 <= j <= keys@.len(),
            j < keys@.len() ==> keys@[j as int]@ == key@,
            forall|i: int| 0 <= i < j ==> keys@[i]@ != key@,
        decreases keys@.len() - j,
    {
        if keys[j] == key {
            break;
        }
        j = j + 1;
    }
    proof {
        lemma_tally_nonneg(seen);
    }
    if j < keys.len() {
        let old_stat = stats[j];
        assert(m.contains_key(k));
        let new_stat = ExtensionStat {
            total_bytes: old_stat.total_bytes + entry.size,
            file_count: old_stat.file_count + 1,
        };
        stats.set(j, new_stat);
        proof {
            let m2 = tally(seen.push(entry@));
            assert forall|k2: Seq<char>| #[trigger] m2.contains_key(k2) implies exists|i: int|
                0 <= i < keys@.len() && keys@[i]@ == k2 by {
                if k2 != k {
                    assert(m.contains_key(k2));
                }
            }
        }
    } else {
        assert(!m.contains_key(k));
        keys.push(key);
        stats.push(ExtensionStat { total_bytes: entry.size, file_count: 1 });
        proof {
            let m2 = tally(seen.push(entry@));
            assert forall|k2: Seq<char>| #[trigger] m2.contains_key(k2) implies exists|i: int|
                0 <= i < keys@.len() && keys@[i]@ == k2 by {
                if k2 != k {
                    assert(m.contains_key(k2));
                    let i = choose|i: int| 0 <= i < old(keys)@.len() && old(keys)@[i]@ == k2;
                    assert(keys@[i] == old(keys)@[i]);
                } else {
                    assert(keys@[keys@.len() - 1]@ == k2);
                }
            }
        }
    }
}

proof fn lemma_files_list_concat(nodes: Map<u32, TreeNode>, a: Seq<u32>, b: Seq<u32>, fuel: nat)
    ensures
        files_below_list(nodes, a + b, fuel) == files_below_list(nodes, a, fuel) + files_below_list(
            nodes,
            b,
            fuel,
        ),
    decreases a.len(),
{
    if a.len() == 0 {
        assert(a + b =~= b);
    } else {
        lemma_files_list_concat(nodes, a.drop_first(), b, fuel);
        assert((a + b).drop_first() =~= a.drop_first() + b);
        assert((a + b)[0] == a[0]);
    }
}

proof fn lemma_files_list_single(nodes: Map<u32, TreeNode>, x: u32, fuel: nat)
    ensures
        files_below_list(nodes, seq![x], fuel) == files_below(nodes, x, fuel),
{
    assert(seq![x].drop_first() =~= Seq::<u32>::empty());
    assert(files_below_list(nodes, Seq::<u32>::empty(), fuel) == Seq::<EntryView>::empty());
    assert(files_below(nodes, x, fuel) + Seq::<EntryView>::empty() =~= files_below(nodes, x, fuel));
    assert(files_below_list(nodes, seq![x], fuel) == files_below(nodes, seq![x][0], fuel)
        + files_below_list(nodes, seq![x].drop_first(), fuel));
}

/// Counts every file below `node` into the running totals, going down
/// through directories in the order of their edges.
fn collect_extensions(
    tree: &Tree,
    node: u32,
    keys: &mut Vec<String>,
    stats: &mut Vec<ExtensionStat>,
    Ghost(seen): Ghost<Seq<EntryView>>,
    Ghost(rest): Ghost<Seq<EntryView>>,
    Ghost(fuel): Ghost<nat>,
)
    requires
        is_forest(tree_nodes(*tree)),
        tree_nodes(*tree).contains_key(node) ==> fuel == fuel_below(tree_nodes(*tree), node),
        stats_match(old(keys)@, old(stats)@, tally(seen)),
        totals_fit(tally(seen + files_below(tree_nodes(*tree), node, fuel) + rest)),
    ensures
        stats_match(
            final(keys)@,
            final(stats)@,
            tally(seen + files_below(tree_nodes(*tree), node, fuel)),
        ),
    decreases fuel,
{
    let ghost nodes = tree_nodes(*tree);
    let entry = match entry_of(tree, node) {
        Some(e) => e,
        None => {
            assert(seen + files_below(nodes, node, fuel) =~= seen);
            return ;
        },
    };
    if entry.is_dir || entry.entry_count.is_some() {
        let children = neighbors(tree, node, true);
        proof {
            lemma_forest_fuel_positive(nodes, node);
        }
        let ghost f = (fuel - 1) as nat;
        let mut i: usize = 0;
        while i < children.len()
            invariant
                nodes == tree_nodes(*tree),
                is_forest(nodes),
                nodes.contains_key(node),
                fuel == fuel_below(nodes, node),
                fuel >= 1,
                f == fuel - 1,
                is_directory(nodes[node].entry),
                children@ == nodes[node].children,
                0 <= i <= children@.len(),
                stats_match(
                    keys@,
                    stats@,
                    tally(seen + files_below_list(nodes, children@.take(i as int), f)),
                ),
                totals_fit(tally(seen + files_below(nodes, node, fuel) + rest)),
            decreases children@.len() - i,
        {
            let child = children[i];
            let ghost before = children@.take(i as int);
            let ghost after = children@.skip(i + 1);
            proof {
                lemma_child_fuel(nodes, node, i as int);
                assert(children@ =~= before + seq![child] + after);
                lemma_files_list_concat(nodes, before + seq![child], after, f);
                lemma_files_list_concat(nodes, before, seq![child], f);
                lemma_files_list_single(nodes, child, f);
                assert(files_below(nodes, node, fuel) == files_below_list(nodes, children@, f));
                assert(seen + files_below(nodes, node, fuel) + rest =~= (seen
                    + files_below_list(nodes, before, f)) + files_below(nodes, child, f) + (
                files_below_list(nodes, after, f) + rest));
            }
            collect_extensions(
                tree,
                child,
                keys,
                stats,
                Ghost(seen + files_below_list(nodes, before, f)),
                Ghost(files_below_list(nodes, after, f) + rest),
                Ghost(f),
            );
            proof {
                assert(children@.take(i + 1) =~= before + seq![child]);
                assert(seen + files_below_list(nodes, before, f) + files_below(nodes, child, f)
                    =~= seen + files_below_list(nodes, children@.take(i + 1), f));
            }
            i = i + 1;
        }
        proof {
            assert(children@.take(children@.len() as int) =~= children@);
        }
    } else {
        proof {
            assert(files_below(nodes, node, fuel) == seq![entry@]);
            assert(seen + seq![entry@] =~= seen.push(entry@));
            assert(seen + files_below(nodes, node, fuel) + rest =~= seen.push(entry@) + rest);
            lemma_tally_grows(seen.push(entry@), rest);
            lemma_tally_nonneg(seen.push(entry@));
            assert(seen.push(entry@).drop_last() =~= seen);
            let k = extension_key(entry@);
            let small = tally(seen.push(entry@));
            let big = tally(seen.push(entry@) + rest);
            assert(small.contains_key(k));
            assert(big.contains_key(k));
            assert(small[k].0 <= big[k].0);
            assert(small[k].1 <= big[k].1);
            assert(big[k].0 <= u128::MAX);
        }
        count_file(keys, stats, entry, Ghost(seen));
    }
}

proof fn lemma_forest_fuel_positive(nodes: Map<u32, TreeNode>, n: u32)
    requires
        is_forest(nodes),
        nodes.contains_key(n),
    ensures
        fuel_below(nodes, n) >= 1,
{
    crate::tree::lemma_forest_depth(nodes);
}

/// The extensions in `ordered` are each key of `m` once, largest total
/// first.
pub open spec fn ordered_by_total(ordered: Seq<String>, m: Map<Seq<char>, (int, int)>) -> bool {
    &&& ordered.len() == m.dom().len()
    &&& forall|i: int, j: int| 0 <= i < j < ordered.len() ==> ordered[i]@ != ordered[j]@
    &&& forall|i: int| 0 <= i < ordered.len() ==> m.contains_key(#[trigger] ordered[i]@)
    &&& forall|i: int, j: int|
        0 <= i < j < ordered.len() ==> m[ordered[i]@].0 >= m[ordered[j]@].0
}

proof fn lemma_tally_finite(files: Seq<EntryView>)
    ensures
        tally(files).dom().finite(),
    decreases files.len(),
{
    if files.len() > 0 {
        lemma_tally_finite(files.drop_last());
    }
}

proof fn lemma_keys_cover_dom(keys: Seq<String>, stats: Seq<ExtensionStat>, m: Map<Seq<char>, (int, int)>)
    requires
        stats_match(keys, stats, m),
        m.dom().finite(),
    ensures
        m.dom().len() == keys.len(),
{
    let views = keys.map_values(|k: String| k@);
    assert(views.no_duplicates());
    assert(views.to_set() =~= m.dom()) by {
        assert forall|k: Seq<char>| m.contains_key(k) implies views.contains(k) by {
            let i = choose|i: int| 0 <= i < keys.len() && keys[i]@ == k;
            assert(views[i] == k);
        }
    }
    views.unique_seq_to_set();
}

/// Gathers the extension statistics of the files below `root`, and orders
/// the extensions by total size, largest first.
pub fn build_extension_index(tree: &Tree, root: u32) -> (index: ExtensionIndex)
    requires
        is_forest(tree_nodes(*tree)),
        totals_fit(tally(files_of(tree_nodes(*tree), root))),
    ensures
        pairs_match(index.by_ext@, tally(files_of(tree_nodes(*tree), root))),
        ordered_by_total(index.ordered@, tally(files_of(tree_nodes(*tree), root))),
{
    let ghost nodes = tree_nodes(*tree);
    let ghost m = tally(files_of(nodes, root));
    let mut keys: Vec<String> = Vec::new();
    let mut stats: Vec<ExtensionStat> = Vec::new();
    proof {
        assert(Seq::<EntryView>::empty() + files_of(nodes, root) + Seq::<EntryView>::empty()
            =~= files_of(nodes, root));
        assert(Seq::<EntryView>::empty() + files_of(nodes, root) =~= files_of(nodes, root));
        assert(tally(Seq::<EntryView>::empty()) =~= Map::empty());
    }
    collect_extensions(
        tree,
        root,
        &mut keys,
        &mut stats,
        Ghost(Seq::empty()),
        Ghost(Seq::empty()),
        Ghost(fuel_below(nodes, root)),
    );
    assert(stats_match(keys@, stats@, m));
    let mut totals: Vec<(usize, u128)> = Vec::new();
    let mut by_ext: Vec<(String, ExtensionStat)> = Vec::new();
    let mut i: usize = 0;
    while i < keys.len()
        invariant
            stats_match(keys@, stats@, m),
            0 <= i <= keys@.len(),
            totals@.len() == i,
            by_ext@.len() == i,
            forall|j: int| 0 <= j < i ==> #[trigger] totals@[j] == (j as usize, stats@[j].total_bytes),
            forall|j: int|
                #![trigger by_ext@[j]]
                0 <= j < i ==> by_ext@[j].0@ == keys@[j]@ && by_ext@[j].1 == stats@[j],
        decreases keys@.len() - i,
    {
        totals.push((i, stats[i].total_bytes));
        let name = keys[i].clone();
        assert(name@ == keys@[i as int]@);
        by_ext.push((name, stats[i]));
        i = i + 1;
    }
    let sorted = sort_by_key_desc(&totals);
    proof {
        broadcast use vstd::seq_lib::group_to_multiset_ensures;
        crate::order::lemma_sort_desc(totals@);
        assert(totals@.no_duplicates());
        totals@.lemma_multiset_has_no_duplicates();
        assert forall|x: (usize, u128)| sorted@.to_multiset().contains(x) implies sorted@.to_multiset().count(x) == 1 by {}
        sorted@.lemma_multiset_has_no_duplicates_conv();
        assert forall|j: int| 0 <= j < sorted@.len() implies ({
            let p = #[trigger] sorted@[j];
            p.0 < keys@.len() && p == totals@[p.0 as int]
        }) by {
            assert(sorted@.contains(sorted@[j]));
            vstd::seq_lib::to_multiset_contains(sorted@, sorted@[j]);
            vstd::seq_lib::to_multiset_contains(totals@, sorted@[j]);
            assert(totals@.contains(sorted@[j]));
        }
    }
    let mut ordered: Vec<String> = Vec::new();
    let mut j: usize = 0;
    while j < sorted.len()
        invariant
            stats_match(keys@, stats@, m),
            0 <= j <= sorted@.len(),
            sorted@.len() == totals@.len(),
            totals@.len() == keys@.len(),
            sorted@.no_duplicates(),
            is_sorted_desc(sorted@),
            forall|k: int| 0 <= k < keys@.len() ==> #[trigger] totals@[k] == (k as usize, stats@[k].total_bytes),
            forall|k: int|
                0 <= k < sorted@.len() ==> (#[trigger] sorted@[k]).0 < keys@.len() && sorted@[k]
                    == totals@[sorted@[k].0 as int],
            ordered@.len() == j,
            forall|k: int| 0 <= k < j ==> #[trigger] ordered@[k]@ == keys@[sorted@[k].0 as int]@,
        decreases sorted@.len() - j,
    {
        let (idx, _) = sorted[j];
        ordered.push(keys[idx].clone());
        j = j + 1;
    }
    proof {
        lemma_tally_finite(files_of(nodes, root));
        lemma_keys_cover_dom(keys@, stats@, m);
        assert forall|a: int, b: int| 0 <= a < b < ordered@.len() implies ordered@[a]@ != ordered@[b]@ by {
            assert(sorted@[a] != sorted@[b]);
        }
        assert(by_ext@.map_values(|p: (String, ExtensionStat)| p.0).len() == keys@.len());
        assert forall|a: int, b: int| 0 <= a < b < ordered@.len() implies m[ordered@[a]@].0 >= m[ordered@[b]@].0 by {
            assert(sorted@[a].1 >= sorted@[b].1);
        }
        let bk = by_ext@.map_values(|p: (String, ExtensionStat)| p.0);
        let bs = by_ext@.map_values(|p: (String, ExtensionStat)| p.1);
        assert forall|k: Seq<char>| #[trigger] m.contains_key(k) implies exists|a: int| 0 <= a < bk.len() && bk[a]@ == k by {
            let a = choose|a: int| 0 <= a < keys@.len() && keys@[a]@ == k;
            assert(bk[a]@ == k);
        }
        assert forall|a: int| 0 <= a < bk.len() implies m.contains_key(#[trigger] bk[a]@) && m[bk[a]@] == (bs[a].total_bytes as int, bs[a].file_count as int) by {
            assert(bk[a]@ == keys@[a]@);
        }
        assert(stats_match(bk, bs, m));
    }
    ExtensionIndex { by_ext, ordered }
}

impl ExtensionIndex {
    /// The statistics of the extension `ext`, if any file had it.
    pub fn stat_of(&self, ext: &String) -> (stat: Option<ExtensionStat>)
        ensures
            stat matches Some(st) ==> exists|i: int|
                0 <= i < self.by_ext@.len() && self.by_ext@[i].0@ == ext@ && self.by_ext@[i].1 == st,
            stat is None ==> forall|i: int| 0 <= i < self.by_ext@.len() ==> self.by_ext@[i].0@ != ext@,
    {
        let mut i: usize = 0;
        while i < self.by_ext.len()
            invariant
                0 <= i <= self.by_ext@.len(),
                forall|j: int| 0 <= j < i ==> self.by_ext@[j].0@ != ext@,
            decreases self.by_ext@.len() - i,
        {
            if self.by_ext[i].0 == *ext {
                return Some(self.by_ext[i].1);
            }
            i = i + 1;
        }
        None
    }
}

} // verus!
