//! The workspace tree model.
//!
//! A [`Workspace`] holds one filesystem entry per path: a directory, or a
//! file with its full content. Its abstract value is a map from paths to
//! nodes. The tree-shape invariant [`wf_map`] holds throughout: the root is
//! present as a directory and every non-root entry hangs directly below a
//! directory that is present.

use vstd::prelude::*;

use crate::errors::WsError;
use crate::paths::{
    path_clone, path_eq, path_parent, path_push, path_starts_with, path_valid, under_or_eq,
    valid_path, valid_seg,
};

verus! {

/// The abstract value of one entry: a directory, or a file with its content.
pub enum NodeV {
    Dir,
    File(Seq<char>),
}

enum EntryNode {
    Dir,
    File(String),
}

struct Entry {
    path: Vec<String>,
    node: EntryNode,
}

impl EntryNode {
    spec fn nv(&self) -> NodeV {
        match self {
            EntryNode::Dir => NodeV::Dir,
            EntryNode::File(c) => NodeV::File(c@),
        }
    }
}

impl Entry {
    spec fn key(&self) -> Seq<Seq<char>> {
        self.path.deep_view()
    }
}

spec fn has_key(s: Seq<Entry>, k: Seq<Seq<char>>) -> bool {
    exists|i: int| 0 <= i < s.len() && (#[trigger] s[i]).key() == k
}

spec fn idx_of(s: Seq<Entry>, k: Seq<Seq<char>>) -> int {
    choose|i: int| 0 <= i < s.len() && (#[trigger] s[i]).key() == k
}

spec fn entries_map(s: Seq<Entry>) -> Map<Seq<Seq<char>>, NodeV> {
    Map::new(
        |k: Seq<Seq<char>>| has_key(s, k),
        |k: Seq<Seq<char>>| s[idx_of(s, k)].node.nv(),
    )
}

spec fn distinct_keys(s: Seq<Entry>) -> bool {
    forall|i: int, j: int|
        0 <= i < j < s.len() ==> (#[trigger] s[i]).key() != (#[trigger] s[j]).key()
}

/// The tree-shape invariant of a workspace map: the root (the empty path) is
/// present as a directory, every key is a well-formed path, and every
/// non-root key hangs directly below a directory that is present.
pub open spec fn wf_map(m: Map<Seq<Seq<char>>, NodeV>) -> bool {
    &&& m.contains_key(Seq::empty())
    &&& m[Seq::empty()] is Dir
    &&& forall|k: Seq<Seq<char>>| #[trigger] m.contains_key(k) ==> valid_path(k)
    &&& forall|k: Seq<Seq<char>>|
        #[trigger] m.contains_key(k) && k.len() > 0 ==> m.contains_key(k.drop_last())
            && m[k.drop_last()] is Dir
}

proof fn lemma_idx(s: Seq<Entry>, k: Seq<Seq<char>>)
    requires
        has_key(s, k),
    ensures
        0 <= idx_of(s, k) < s.len(),
        s[idx_of(s, k)].key() == k,
{
}

proof fn lemma_entry_lookup(s: Seq<Entry>, i: int)
    requires
        distinct_keys(s),
        0 <= i < s.len(),
    ensures
        entries_map(s).contains_key(s[i].key()),
        entries_map(s)[s[i].key()] == s[i].node.nv(),
        idx_of(s, s[i].key()) == i,
{
    assert(has_key(s, s[i].key()));
    lemma_idx(s, s[i].key());
    let j = idx_of(s, s[i].key());
    if j != i {
        assert(s[i].key() != s[j].key());
    }
}

/// Updating the entry at `i` to one with the same key updates the map at that
/// key.
proof fn lemma_map_update(s: Seq<Entry>, i: int, e: Entry)
    requires
        distinct_keys(s),
        0 <= i < s.len(),
        e.key() == s[i].key(),
    ensures
        entries_map(s.update(i, e)) == entries_map(s).insert(e.key(), e.node.nv()),
        distinct_keys(s.update(i, e)),
{
    let s2 = s.update(i, e);
    assert(forall|j: int| 0 <= j < s.len() ==> (#[trigger] s2[j]).key() == s[j].key());
    let m1 = entries_map(s2);
    let m2 = entries_map(s).insert(e.key(), e.node.nv());
    assert forall|k: Seq<Seq<char>>| m1.contains_key(k) implies m2.contains_key(k) by {
        lemma_idx(s2, k);
        let j = idx_of(s2, k);
        assert(s[j].key() == k);
        assert(has_key(s, k));
    }
    assert forall|k: Seq<Seq<char>>| m2.contains_key(k) implies m1.contains_key(k) by {
        if k == e.key() {
            assert(s2[i].key() == k);
        } else {
            lemma_idx(s, k);
            let j = idx_of(s, k);
            assert(s2[j].key() == k);
        }
    }
    assert forall|k: Seq<Seq<char>>| m1.contains_key(k) implies m1[k] == m2[k] by {
        lemma_idx(s2, k);
        let j = idx_of(s2, k);
        if k == e.key() {
            if j != i {
                assert(s2[j].key() != s2[i].key());
            }
            assert(m1[k] == e.node.nv());
        } else {
            assert(j != i);
            assert(s[j].key() == k);
            assert(has_key(s, k));
            lemma_idx(s, k);
            let j0 = idx_of(s, k);
            if j0 != j {
                assert(s[j0].key() != s[j].key());
            }
            assert(m2[k] == s[j].node.nv());
        }
    }
    assert(m1 =~= m2);
}

/// Appending an entry with a fresh key inserts it into the map.
proof fn lemma_map_push(s: Seq<Entry>, e: Entry)
    requires
        distinct_keys(s),
        !has_key(s, e.key()),
    ensures
        entries_map(s.push(e)) == entries_map(s).insert(e.key(), e.node.nv()),
        distinct_keys(s.push(e)),
{
    let s2 = s.push(e);
    assert(forall|j: int| 0 <= j < s.len() ==> s2[j] == s[j]);
    assert(s2[s.len() as int] == e);
    let m1 = entries_map(s2);
    let m2 = entries_map(s).insert(e.key(), e.node.nv());
    assert forall|k: Seq<Seq<char>>| m1.contains_key(k) implies m2.contains_key(k) by {
        lemma_idx(s2, k);
        let j = idx_of(s2, k);
        if j < s.len() {
            assert(has_key(s, k));
        }
    }
    assert forall|k: Seq<Seq<char>>| m2.contains_key(k) implies m1.contains_key(k) by {
        if k == e.key() {
            assert(s2[s.len() as int].key() == k);
        } else {
            lemma_idx(s, k);
            let j = idx_of(s, k);
            assert(s2[j].key() == k);
        }
    }
    assert forall|k: Seq<Seq<char>>| m1.contains_key(k) implies m1[k] == m2[k] by {
        lemma_idx(s2, k);
        let j = idx_of(s2, k);
        if k == e.key() {
            if j < s.len() {
                assert(has_key(s, k));
            }
            assert(j == s.len() as int);
            assert(m1[k] == e.node.nv());
        } else {
            assert(j < s.len());
            assert(has_key(s, k));
            lemma_idx(s, k);
            let j0 = idx_of(s, k);
            if j0 != j {
                assert(s[j0].key() != s[j].key());
            }
            assert(m2[k] == s[j].node.nv());
        }
    }
    assert(m1 =~= m2);
}

/// Deleting at `p` is possible when an entry exists there and `p` is not the
/// root.
pub open spec fn can_delete(m: Map<Seq<Seq<char>>, NodeV>, p: Seq<Seq<char>>) -> bool {
    m.contains_key(p) && p.len() > 0
}

/// The map after deleting `p`: everything at or below `p` is gone, the rest
/// is unchanged.
pub open spec fn delete_map(m: Map<Seq<Seq<char>>, NodeV>, p: Seq<Seq<char>>) -> Map<
    Seq<Seq<char>>,
    NodeV,
> {
    Map::new(|k: Seq<Seq<char>>| m.contains_key(k) && !under_or_eq(k, p), |k: Seq<Seq<char>>| m[k])
}

/// Every element of a filtered sequence comes from the unfiltered one and satisfies
/// the predicate, and filtering keeps entry keys distinct.
proof fn lemma_filter_entries(s: Seq<Entry>, pred: spec_fn(Entry) -> bool)
    requires
        distinct_keys(s),
    ensures
        forall|j: int|
            0 <= j < s.filter(pred).len() ==> s.contains(#[trigger] s.filter(pred)[j]) && pred(
                s.filter(pred)[j],
            ),
        distinct_keys(s.filter(pred)),
    decreases s.len(),
{
    reveal(Seq::filter);
    if s.len() == 0 {
    } else {
        let dl = s.drop_last();
        assert(distinct_keys(dl)) by {
            assert(forall|i: int| 0 <= i < dl.len() ==> dl[i] == s[i]);
        }
        lemma_filter_entries(dl, pred);
        let f = s.filter(pred);
        let fdl = dl.filter(pred);
        assert(forall|j: int|
            0 <= j < dl.len() && dl.contains(dl[j]) ==> s.contains(#[trigger] s[j]));
        assert forall|j: int| 0 <= j < f.len() implies s.contains(#[trigger] f[j]) && pred(
            f[j],
        ) by {
            if j < fdl.len() {
                assert(f[j] == fdl[j]);
                assert(dl.contains(fdl[j]));
                let w = choose|w: int| 0 <= w < dl.len() && dl[w] == fdl[j];
                assert(s[w] == fdl[j]);
            } else {
                assert(pred(s.last()));
                assert(f[j] == s.last());
            }
        }
        assert forall|i: int, j: int| 0 <= i < j < f.len() implies (#[trigger] f[i]).key() != (
        #[trigger] f[j]).key() by {
            let wi = choose|w: int| 0 <= w < s.len() && s[w] == f[i];
            if j < fdl.len() {
            } else {
                // f[j] is s.last(); f[i] comes from dl, whose keys differ from
                // the last entry's key
                assert(f[j] == s.last());
                assert(dl.contains(f[i]));
                let w = choose|w: int| 0 <= w < dl.len() && dl[w] == f[i];
                assert(s[w] == f[i]);
                assert(s[w].key() != s[s.len() - 1].key());
            }
        }
    }
}

/// Two entry sequences that agree pointwise on keys and node values have the
/// same map.
proof fn lemma_entries_equiv(s1: Seq<Entry>, s2: Seq<Entry>)
    requires
        distinct_keys(s1),
        s1.len() == s2.len(),
        forall|i: int|
            0 <= i < s1.len() ==> (#[trigger] s2[i]).key() == s1[i].key() && s2[i].node.nv()
                == s1[i].node.nv(),
    ensures
        entries_map(s2) == entries_map(s1),
        distinct_keys(s2),
{
    let m1 = entries_map(s1);
    let m2 = entries_map(s2);
    assert forall|k: Seq<Seq<char>>| m1.contains_key(k) implies m2.contains_key(k) by {
        lemma_idx(s1, k);
        assert(s2[idx_of(s1, k)].key() == k);
    }
    assert forall|k: Seq<Seq<char>>| m2.contains_key(k) implies m1.contains_key(k) by {
        lemma_idx(s2, k);
        assert(s1[idx_of(s2, k)].key() == k);
    }
    assert forall|k: Seq<Seq<char>>| m2.contains_key(k) implies m2[k] == m1[k] by {
        lemma_idx(s2, k);
        let j2 = idx_of(s2, k);
        lemma_idx(s1, k);
        let j1 = idx_of(s1, k);
        if j1 != j2 {
            assert(s1[j1].key() != s1[j2].key());
            assert(s1[j2].key() == s2[j2].key());
        }
    }
    assert(m1 =~= m2);
}

/// Filtering the entries to those not at or below `p` yields exactly
/// [`delete_map`].
proof fn lemma_map_filter_delete(s: Seq<Entry>, p: Seq<Seq<char>>)
    requires
        distinct_keys(s),
    ensures
        entries_map(s.filter(|e: Entry| !under_or_eq(e.key(), p))) == delete_map(
            entries_map(s),
            p,
        ),
        distinct_keys(s.filter(|e: Entry| !under_or_eq(e.key(), p))),
{
    let pred = |e: Entry| !under_or_eq(e.key(), p);
    lemma_filter_entries(s, pred);
    let f = s.filter(pred);
    let m1 = entries_map(f);
    let m2 = delete_map(entries_map(s), p);
    assert forall|k: Seq<Seq<char>>| m1.contains_key(k) implies m2.contains_key(k) by {
        lemma_idx(f, k);
        let j = idx_of(f, k);
        assert(s.contains(f[j]) && pred(f[j]));
        let w = choose|w: int| 0 <= w < s.len() && s[w] == f[j];
        assert(has_key(s, k));
    }
    assert forall|k: Seq<Seq<char>>| m2.contains_key(k) implies m1.contains_key(k) by {
        lemma_idx(s, k);
        let j = idx_of(s, k);
        assert(pred(s[j]));
        s.lemma_filter_contains(pred, j);
        let w = choose|w: int| 0 <= w < f.len() && f[w] == s[j];
        assert(f[w].key() == k);
        assert(has_key(f, k));
    }
    assert forall|k: Seq<Seq<char>>| m1.contains_key(k) implies m1[k] == m2[k] by {
        lemma_idx(f, k);
        let j = idx_of(f, k);
        assert(s.contains(f[j]));
        let w = choose|w: int| 0 <= w < s.len() && s[w] == f[j];
        lemma_entry_lookup(s, w);
        assert(m2[k] == s[w].node.nv());
    }
    assert(m1 =~= m2);
}

proof fn lemma_delete_wf(m: Map<Seq<Seq<char>>, NodeV>, p: Seq<Seq<char>>)
    requires
        wf_map(m),
        p.len() > 0,
    ensures
        wf_map(delete_map(m, p)),
{
    let m2 = delete_map(m, p);
    assert(!under_or_eq(Seq::<Seq<char>>::empty(), p));
    assert(m2.contains_key(Seq::empty()) && m2[Seq::empty()] is Dir);
    assert forall|k: Seq<Seq<char>>| #[trigger] m2.contains_key(k) && k.len() > 0 implies m2.contains_key(
        k.drop_last(),
    ) && m2[k.drop_last()] is Dir by {
        assert(m.contains_key(k.drop_last()) && m[k.drop_last()] is Dir);
        if under_or_eq(k.drop_last(), p) {
            // then k would lie below p as well
            assert(p.len() <= k.drop_last().len());
            assert(k.take(p.len() as int) =~= k.drop_last().take(p.len() as int));
            assert(under_or_eq(k, p));
        }
    }
}

/// Creating a directory at `p` (with all missing ancestors) is possible when
/// `p` is well-formed and no prefix of `p` is present as a file.
pub open spec fn can_create_folder(m: Map<Seq<Seq<char>>, NodeV>, p: Seq<Seq<char>>) -> bool {
    &&& valid_path(p)
    &&& forall|j: int|
        0 <= j <= p.len() && m.contains_key(#[trigger] p.take(j)) ==> m[p.take(j)] is Dir
}

/// The map after creating a directory at `p`: every prefix of `p` that was
/// absent is now a directory, everything else is unchanged.
pub open spec fn create_folder_map(m: Map<Seq<Seq<char>>, NodeV>, p: Seq<Seq<char>>) -> Map<
    Seq<Seq<char>>,
    NodeV,
> {
    Map::new(
        |k: Seq<Seq<char>>| m.contains_key(k) || under_or_eq(p, k),
        |k: Seq<Seq<char>>| if m.contains_key(k) { m[k] } else { NodeV::Dir },
    )
}

/// [`create_folder_map`] cut off at prefixes of length at most `j`.
spec fn mkdirs_upto(m: Map<Seq<Seq<char>>, NodeV>, p: Seq<Seq<char>>, j: int) -> Map<
    Seq<Seq<char>>,
    NodeV,
> {
    Map::new(
        |k: Seq<Seq<char>>| m.contains_key(k) || (under_or_eq(p, k) && k.len() <= j),
        |k: Seq<Seq<char>>| if m.contains_key(k) { m[k] } else { NodeV::Dir },
    )
}

proof fn lemma_mkdirs_wf(m: Map<Seq<Seq<char>>, NodeV>, p: Seq<Seq<char>>)
    requires
        wf_map(m),
        can_create_folder(m, p),
    ensures
        wf_map(create_folder_map(m, p)),
{
    let m2 = create_folder_map(m, p);
    assert(m2.contains_key(Seq::empty()) && m2[Seq::empty()] is Dir);
    assert forall|k: Seq<Seq<char>>| #[trigger] m2.contains_key(k) implies valid_path(k) by {
        if !m.contains_key(k) {
            assert(k == p.take(k.len() as int));
            assert(forall|i: int| 0 <= i < k.len() ==> k[i] == p[i]);
        }
    }
    assert forall|k: Seq<Seq<char>>| #[trigger] m2.contains_key(k) && k.len() > 0 implies m2.contains_key(
        k.drop_last(),
    ) && m2[k.drop_last()] is Dir by {
        if m.contains_key(k) {
            assert(m.contains_key(k.drop_last()) && m[k.drop_last()] is Dir);
        } else {
            // k is a strictly new prefix of p; its parent is the next shorter
            // prefix
            assert(k == p.take(k.len() as int));
            assert(k.drop_last() =~= p.take(k.len() - 1));
            assert(under_or_eq(p, k.drop_last()));
            if m.contains_key(k.drop_last()) {
                assert(m[k.drop_last()] is Dir);
            }
        }
    }
}

/// Creating a directory is idempotent: doing it again succeeds and changes
/// nothing, and exactly one directory stands at `p` afterwards.
pub proof fn lemma_create_folder_idempotent(m: Map<Seq<Seq<char>>, NodeV>, p: Seq<Seq<char>>)
    requires
        can_create_folder(m, p),
    ensures
        can_create_folder(create_folder_map(m, p), p),
        create_folder_map(create_folder_map(m, p), p) == create_folder_map(m, p),
        create_folder_map(m, p).contains_key(p),
        create_folder_map(m, p)[p] is Dir,
{
    let m1 = create_folder_map(m, p);
    assert(p.take(p.len() as int) =~= p);
    assert(under_or_eq(p, p));
    assert(m1.contains_key(p));
    assert forall|j: int|
        0 <= j <= p.len() && m1.contains_key(#[trigger] p.take(j)) implies m1[p.take(j)] is Dir by {
        assert(under_or_eq(p, p.take(j)));
        if m.contains_key(p.take(j)) {
            assert(m[p.take(j)] is Dir);
        }
    }
    assert(m1[p] is Dir);
    assert forall|k: Seq<Seq<char>>|
        #[trigger] create_folder_map(m1, p).contains_key(k) implies m1.contains_key(k)
        && create_folder_map(m1, p)[k] == m1[k] by {
        if !m1.contains_key(k) {
            assert(under_or_eq(p, k));
        }
    }
    assert(create_folder_map(m1, p) =~= m1);
}

/// Renaming `o` to `n` is possible when an entry exists at `o`, `n` is a
/// well-formed non-root path that is absent, does not lie at or below `o`,
/// and whose parent is a directory that is present.
pub open spec fn can_rename(
    m: Map<Seq<Seq<char>>, NodeV>,
    o: Seq<Seq<char>>,
    n: Seq<Seq<char>>,
) -> bool {
    &&& m.contains_key(o)
    &&& o.len() > 0
    &&& valid_path(n)
    &&& n.len() > 0
    &&& !m.contains_key(n)
    &&& !under_or_eq(n, o)
    &&& m.contains_key(n.drop_last())
    &&& m[n.drop_last()] is Dir
}

/// Where one key goes under a rename of `o` to `n`: a key at or below `o` is
/// re-rooted below `n`, any other key stays.
pub open spec fn rename_aux(k: Seq<Seq<char>>, o: Seq<Seq<char>>, n: Seq<Seq<char>>) -> Seq<
    Seq<char>,
> {
    if under_or_eq(k, o) {
        n + k.skip(o.len() as int)
    } else {
        k
    }
}

/// The map after renaming `o` to `n`: everything at or below `o` reappears at
/// or below `n` with the same nodes, everything else is unchanged.
pub open spec fn rename_map(
    m: Map<Seq<Seq<char>>, NodeV>,
    o: Seq<Seq<char>>,
    n: Seq<Seq<char>>,
) -> Map<Seq<Seq<char>>, NodeV> {
    Map::new(
        |k: Seq<Seq<char>>|
            (m.contains_key(k) && !under_or_eq(k, o)) || (under_or_eq(k, n) && m.contains_key(
                o + k.skip(n.len() as int),
            )),
        |k: Seq<Seq<char>>|
            if under_or_eq(k, n) && m.contains_key(o + k.skip(n.len() as int)) {
                m[o + k.skip(n.len() as int)]
            } else {
                m[k]
            },
    )
}

/// In a well-formed map, no key lies at or below an absent path.
proof fn lemma_nothing_under_missing(
    m: Map<Seq<Seq<char>>, NodeV>,
    n: Seq<Seq<char>>,
    k: Seq<Seq<char>>,
)
    requires
        wf_map(m),
        !m.contains_key(n),
        m.contains_key(k),
        n.len() > 0,
    ensures
        !under_or_eq(k, n),
    decreases k.len(),
{
    if under_or_eq(k, n) {
        if k.len() == n.len() {
            assert(k.take(n.len() as int) =~= k);
            assert(false);
        } else {
            assert(m.contains_key(k.drop_last()));
            assert(k.drop_last().take(n.len() as int) =~= k.take(n.len() as int));
            lemma_nothing_under_missing(m, n, k.drop_last());
        }
    }
}

/// Rewriting every key through [`rename_aux`] turns the entry map into
/// [`rename_map`].
#[verifier::rlimit(100)]
#[verifier::spinoff_prover]
proof fn lemma_map_rename(s: Seq<Entry>, s2: Seq<Entry>, o: Seq<Seq<char>>, n: Seq<Seq<char>>)
    requires
        distinct_keys(s),
        wf_map(entries_map(s)),
        can_rename(entries_map(s), o, n),
        s2.len() == s.len(),
        forall|j: int|
            0 <= j < s.len() ==> (#[trigger] s2[j]).key() == rename_aux(s[j].key(), o, n)
                && s2[j].node.nv() == s[j].node.nv(),
    ensures
        entries_map(s2) == rename_map(entries_map(s), o, n),
        distinct_keys(s2),
{
    let m = entries_map(s);
    let ol = o.len() as int;
    let nl = n.len() as int;
    assert forall|j: int| 0 <= j < s.len() implies !under_or_eq((#[trigger] s[j]).key(), n) by {
        lemma_entry_lookup(s, j);
        lemma_nothing_under_missing(m, n, s[j].key());
    }
    // a re-rooted key lies at or below n, and its source is recovered by
    // swapping the prefix back
    assert forall|j: int|
        0 <= j < s.len() && under_or_eq((#[trigger] s[j]).key(), o) implies under_or_eq(
        s2[j].key(),
        n,
    ) && o + s2[j].key().skip(nl) =~= s[j].key() by {
        let k = s[j].key();
        let a = k.skip(ol);
        assert((n + a).take(nl) =~= n);
        assert((n + a).skip(nl) =~= a);
        assert(o + a =~= k);
    }
    // the rewrite is injective, so the new keys are distinct
    assert forall|j1: int, j2: int| 0 <= j1 < j2 < s.len() implies (#[trigger] s2[j1]).key() != (
    #[trigger] s2[j2]).key() by {
        let k1 = s[j1].key();
        let k2 = s[j2].key();
        if under_or_eq(k1, o) && under_or_eq(k2, o) {
            if s2[j1].key() == s2[j2].key() {
                let a = k1.skip(ol);
                let b = k2.skip(ol);
                assert(a =~= b) by {
                    assert((n + a).len() == (n + b).len());
                    assert forall|q: int| 0 <= q < a.len() implies a[q] == b[q] by {
                        assert((n + a)[nl + q] == a[q]);
                        assert((n + b)[nl + q] == b[q]);
                    }
                }
                assert(k1 =~= k2) by {
                    assert forall|q: int| 0 <= q < k1.len() implies k1[q] == k2[q] by {
                        if q < ol {
                            assert(k1.take(ol)[q] == k1[q]);
                            assert(k2.take(ol)[q] == k2[q]);
                        } else {
                            assert(a[q - ol] == k1[q]);
                            assert(b[q - ol] == k2[q]);
                        }
                    }
                }
                assert(false);
            }
        } else if under_or_eq(k1, o) {
            assert(!under_or_eq(k2, n));
        } else if under_or_eq(k2, o) {
            assert(!under_or_eq(k1, n));
        }
    }
    let m1 = entries_map(s2);
    let m2 = rename_map(m, o, n);
    assert forall|k: Seq<Seq<char>>| m1.contains_key(k) implies m2.contains_key(k) by {
        lemma_idx(s2, k);
        let j = idx_of(s2, k);
        lemma_entry_lookup(s, j);
        if under_or_eq(s[j].key(), o) {
            assert(m.contains_key(o + k.skip(nl)));
        }
    }
    assert forall|k: Seq<Seq<char>>| m2.contains_key(k) implies m1.contains_key(k) by {
        if m.contains_key(k) && !under_or_eq(k, o) {
            lemma_idx(s, k);
            let j = idx_of(s, k);
            assert(s2[j].key() == k);
        } else {
            let q = o + k.skip(nl);
            assert(m.contains_key(q));
            lemma_idx(s, q);
            let j = idx_of(s, q);
            assert(under_or_eq(q, o)) by {
                assert(q.take(ol) =~= o);
            }
            assert(s2[j].key() =~= k) by {
                assert(q.skip(ol) =~= k.skip(nl));
                assert(n + k.skip(nl) =~= k);
            }
            assert(s2[j].key() == k);
        }
    }
    assert forall|k: Seq<Seq<char>>| m1.contains_key(k) implies m1[k] == m2[k] by {
        lemma_idx(s2, k);
        let j = idx_of(s2, k);
        lemma_entry_lookup(s, j);
        assert(m1[k] == s2[j].node.nv());
        if under_or_eq(s[j].key(), o) {
            let q = o + k.skip(nl);
            assert(q =~= s[j].key());
            assert(m2[k] == m[s[j].key()]);
            lemma_idx(s, s[j].key());
            let j0 = idx_of(s, s[j].key());
            if j0 != j {
                assert(s[j0].key() != s[j].key());
            }
        } else {
            assert(k == s[j].key());
            assert(!under_or_eq(k, n));
            assert(m2[k] == m[k]);
            lemma_idx(s, k);
            let j0 = idx_of(s, k);
            if j0 != j {
                assert(s[j0].key() != s[j].key());
            }
        }
    }
    assert(m1 =~= m2);
}

#[verifier::rlimit(100)]
#[verifier::spinoff_prover]
proof fn lemma_rename_wf(m: Map<Seq<Seq<char>>, NodeV>, o: Seq<Seq<char>>, n: Seq<Seq<char>>)
    requires
        wf_map(m),
        can_rename(m, o, n),
    ensures
        wf_map(rename_map(m, o, n)),
{
    let m2 = rename_map(m, o, n);
    let ol = o.len() as int;
    let nl = n.len() as int;
    assert(!under_or_eq(Seq::<Seq<char>>::empty(), o));
    assert(!under_or_eq(Seq::<Seq<char>>::empty(), n));
    assert(m2.contains_key(Seq::empty()) && m2[Seq::empty()] is Dir);
    assert forall|k: Seq<Seq<char>>| #[trigger] m2.contains_key(k) implies valid_path(k) by {
        if m.contains_key(k) && !under_or_eq(k, o) {
        } else {
            let q = o + k.skip(nl);
            assert(m.contains_key(q));
            assert(valid_path(q));
            assert(k =~= n + q.skip(ol)) by {
                assert(q.skip(ol) =~= k.skip(nl));
                assert(n + k.skip(nl) =~= k);
            }
            assert forall|i: int| 0 <= i < k.len() implies valid_seg(#[trigger] k[i]) by {
                if i < nl {
                    assert(k[i] == n[i]);
                } else {
                    assert(k[i] == q.skip(ol)[i - nl]);
                    assert(q.skip(ol)[i - nl] == q[ol + i - nl]);
                }
            }
        }
    }
    assert forall|k: Seq<Seq<char>>| #[trigger] m2.contains_key(k) && k.len() > 0 implies m2.contains_key(
        k.drop_last(),
    ) && m2[k.drop_last()] is Dir by {
        if m.contains_key(k) && !under_or_eq(k, o) {
            let pk = k.drop_last();
            assert(m.contains_key(pk) && m[pk] is Dir);
            assert(!under_or_eq(pk, o)) by {
                if under_or_eq(pk, o) {
                    assert(k.take(ol) =~= pk.take(ol));
                }
            }
            lemma_nothing_under_missing(m, n, pk);
            assert(m2.contains_key(pk) && m2[pk] == m[pk]);
        } else {
            let q = o + k.skip(nl);
            assert(m.contains_key(q));
            if k.len() == n.len() {
                assert(k.take(nl) =~= k);
                assert(k == n);
                let pn = n.drop_last();
                assert(m.contains_key(pn) && m[pn] is Dir);
                assert(!under_or_eq(pn, o)) by {
                    if under_or_eq(pn, o) {
                        assert(n.take(ol) =~= pn.take(ol));
                    }
                }
                assert(!under_or_eq(pn, n));
                assert(m2.contains_key(pn) && m2[pn] == m[pn]);
            } else {
                let pk = k.drop_last();
                assert(q.len() > o.len());
                assert(m.contains_key(q.drop_last()) && m[q.drop_last()] is Dir);
                assert(under_or_eq(pk, n)) by {
                    assert(pk.take(nl) =~= k.take(nl));
                }
                assert(o + pk.skip(nl) =~= q.drop_last());
                assert(m2.contains_key(pk));
                assert(m2[pk] == m[q.drop_last()]);
            }
        }
    }
}

/// One node of a snapshot: the final path segment, the full path as the
/// node's identity, whether it is rendered as a directory, and the snapshots
/// of its direct children (empty for files).
#[derive(Debug)]
pub struct FileNode {
    pub name: String,
    pub path: Vec<String>,
    pub is_dir: bool,
    pub children: Vec<FileNode>,
}

/// The keys of the entries directly below `p`.
pub open spec fn child_keys(m: Map<Seq<Seq<char>>, NodeV>, p: Seq<Seq<char>>) -> Set<
    Seq<Seq<char>>,
> {
    Set::new(
        |k: Seq<Seq<char>>|
            m.contains_key(k) && k.len() == p.len() + 1 && k.take(p.len() as int) == p,
    )
}

/// A snapshot node faithfully renders `m` at its path: it exists there, it is
/// a directory exactly when the entry is one (or the node is the snapshot
/// root, which is always rendered as a directory), its name is the final path
/// segment, and its children are exactly the entries directly below it, each
/// rendered faithfully in turn. A file has no children, so a root-forced file
/// also renders with none.
#[verifier::opaque]
pub open spec fn node_ok(m: Map<Seq<Seq<char>>, NodeV>, n: FileNode, forced: bool) -> bool
    decreases n,
{
    let k = n.path.deep_view();
    &&& m.contains_key(k)
    &&& n.is_dir == (forced || m[k] is Dir)
    &&& n.name@ == if k.len() == 0 {
        Seq::<char>::empty()
    } else {
        k.last()
    }
    &&& if m[k] is Dir {
        &&& forall|i: int|
            0 <= i < n.children@.len() ==> child_keys(m, k).contains(
                (#[trigger] n.children@[i]).path.deep_view(),
            )
        &&& forall|ck: Seq<Seq<char>>|
            #[trigger] child_keys(m, k).contains(ck) ==> exists|i: int|
                0 <= i < n.children@.len() && (#[trigger] n.children@[i]).path.deep_view() == ck
        &&& forall|i: int, j: int|
            0 <= i < j < n.children@.len() ==> (#[trigger] n.children@[i]).path.deep_view() != (
            #[trigger] n.children@[j]).path.deep_view()
        &&& forall|i: int| 0 <= i < n.children@.len() ==> node_ok(m, #[trigger] n.children@[i], false)
    } else {
        n.children@.len() == 0
    }
}

/// A faithful directory node has exactly as many children as the map has
/// entries directly below it.
pub proof fn lemma_node_child_count(m: Map<Seq<Seq<char>>, NodeV>, n: FileNode, forced: bool)
    requires
        node_ok(m, n, forced),
        m[n.path.deep_view()] is Dir,
    ensures
        child_keys(m, n.path.deep_view()).finite(),
        n.children@.len() == child_keys(m, n.path.deep_view()).len(),
{
    reveal(node_ok);
    let k = n.path.deep_view();
    let ms = n.children@.map_values(|c: FileNode| c.path.deep_view());
    assert(ms.no_duplicates());
    assert forall|ck: Seq<Seq<char>>| #[trigger] ms.contains(ck) implies child_keys(m, k).contains(
        ck,
    ) by {
        let i = choose|i: int| 0 <= i < ms.len() && ms[i] == ck;
        assert(child_keys(m, k).contains(n.children@[i].path.deep_view()));
    }
    assert forall|ck: Seq<Seq<char>>| #[trigger] child_keys(m, k).contains(ck) implies ms.contains(
        ck,
    ) by {
        let i = choose|i: int|
            0 <= i < n.children@.len() && (#[trigger] n.children@[i]).path.deep_view() == ck;
        assert(ms[i] == ck);
    }
    assert(ms.to_set() =~= child_keys(m, k));
    ms.unique_seq_to_set();
    vstd::seq_lib::seq_to_set_is_finite(ms);
}

/// The greatest key length among the entries.
spec fn max_key_len(s: Seq<Entry>) -> int
    decreases s.len(),
{
    if s.len() == 0 {
        0
    } else {
        let rest = max_key_len(s.drop_last());
        if s.last().key().len() > rest {
            s.last().key().len() as int
        } else {
            rest
        }
    }
}

proof fn lemma_max_key_len(s: Seq<Entry>, i: int)
    requires
        0 <= i < s.len(),
    ensures
        s[i].key().len() <= max_key_len(s),
    decreases s.len(),
{
    if i == s.len() - 1 {
    } else {
        lemma_max_key_len(s.drop_last(), i);
    }
}

/// Writing content at a writable path and then reading that path gives back
/// exactly the written content.
pub proof fn lemma_write_read_round_trip(
    m: Map<Seq<Seq<char>>, NodeV>,
    p: Seq<Seq<char>>,
    c: Seq<char>,
)
    requires
        can_write(m, p),
    ensures
        write_map(m, p, c).contains_key(p),
        write_map(m, p, c)[p] is File,
        write_map(m, p, c)[p]->File_0 == c,
{
}

/// The workspace tree: one entry per path, its abstract value a map from
/// paths to nodes.
pub struct Workspace {
    entries: Vec<Entry>,
}

impl View for Workspace {
    type V = Map<Seq<Seq<char>>, NodeV>;

    closed spec fn view(&self) -> Map<Seq<Seq<char>>, NodeV> {
        entries_map(self.entries@)
    }
}

/// Writing `content` at `p` is possible when `p` is a well-formed non-root
/// path that either already holds a file, or is absent with its parent
/// present as a directory.
pub open spec fn can_write(m: Map<Seq<Seq<char>>, NodeV>, p: Seq<Seq<char>>) -> bool {
    &&& valid_path(p)
    &&& p.len() > 0
    &&& (m.contains_key(p) ==> m[p] is File)
    &&& (!m.contains_key(p) ==> m.contains_key(p.drop_last()) && m[p.drop_last()] is Dir)
}

/// The map after writing `content` at `p`.
pub open spec fn write_map(
    m: Map<Seq<Seq<char>>, NodeV>,
    p: Seq<Seq<char>>,
    content: Seq<char>,
) -> Map<Seq<Seq<char>>, NodeV> {
    m.insert(p, NodeV::File(content))
}

proof fn lemma_write_wf(m: Map<Seq<Seq<char>>, NodeV>, p: Seq<Seq<char>>, content: Seq<char>)
    requires
        wf_map(m),
        can_write(m, p),
    ensures
        wf_map(write_map(m, p, content)),
{
    let m2 = write_map(m, p, content);
    assert(m2.contains_key(Seq::empty()) && m2[Seq::empty()] is Dir);
    assert forall|k: Seq<Seq<char>>| #[trigger] m2.contains_key(k) && k.len() > 0 implies m2.contains_key(
        k.drop_last(),
    ) && m2[k.drop_last()] is Dir by {
        if k == p {
            if m.contains_key(p) {
                assert(m.contains_key(p.drop_last()) && m[p.drop_last()] is Dir);
            }
            assert(p.drop_last() != p);
        } else {
            assert(m.contains_key(k));
            assert(m.contains_key(k.drop_last()) && m[k.drop_last()] is Dir);
            if k.drop_last() == p {
                assert(false);
            }
        }
    }
}

impl Workspace {
    /// The representation invariant: entry keys are distinct and the map
    /// satisfies the tree-shape invariant.
    pub closed spec fn inv(&self) -> bool {
        distinct_keys(self.entries@) && wf_map(self@)
    }

    /// A workspace satisfying its invariant satisfies the tree-shape
    /// invariant of its map.
    pub proof fn lemma_inv_wf(&self)
        requires
            self.inv(),
        ensures
            wf_map(self@),
    {
    }

    /// An empty workspace: just the root directory.
    pub fn new() -> (r: Workspace)
        ensures
            r.inv(),
            r@ == Map::<Seq<Seq<char>>, NodeV>::empty().insert(Seq::empty(), NodeV::Dir),
    {
        let root = Entry { path: Vec::new(), node: EntryNode::Dir };
        let mut entries: Vec<Entry> = Vec::new();
        entries.push(root);
        let r = Workspace { entries };
        proof {
            assert(r.entries@[0].key() =~= Seq::<Seq<char>>::empty());
            lemma_entry_lookup(r.entries@, 0);
            assert(r@ =~= Map::<Seq<Seq<char>>, NodeV>::empty().insert(
                Seq::empty(),
                NodeV::Dir,
            ));
        }
        r
    }

    fn find(&self, p: &Vec<String>) -> (r: Option<usize>)
        ensures
            match r {
                Some(i) => i < self.entries@.len() && self.entries@[i as int].key()
                    == p.deep_view(),
                None => !has_key(self.entries@, p.deep_view()),
            },
    {
        let mut i: usize = 0;
        while i < self.entries.len()
            invariant
                0 <= i <= self.entries.len(),
                forall|j: int| 0 <= j < i ==> (#[trigger] self.entries@[j]).key() != p.deep_view(),
            decreases self.entries.len() - i,
        {
            if path_eq(&self.entries[i].path, p) {
                return Some(i);
            }
            i += 1;
        }
        None
    }

    /// Whether an entry exists at `p`.
    pub fn contains(&self, p: &Vec<String>) -> (r: bool)
        requires
            self.inv(),
        ensures
            r == self@.contains_key(p.deep_view()),
    {
        match self.find(p) {
            Some(i) => {
                proof {
                    lemma_entry_lookup(self.entries@, i as int);
                }
                true
            },
            None => false,
        }
    }

    /// Whether a directory exists at `p`.
    pub fn is_dir(&self, p: &Vec<String>) -> (r: bool)
        requires
            self.inv(),
        ensures
            r == (self@.contains_key(p.deep_view()) && self@[p.deep_view()] is Dir),
    {
        match self.find(p) {
            Some(i) => {
                proof {
                    lemma_entry_lookup(self.entries@, i as int);
                }
                match &self.entries[i].node {
                    EntryNode::Dir => true,
                    EntryNode::File(_) => false,
                }
            },
            None => false,
        }
    }

    /// The content of the file at `p`. Fails with `PathNotFound` exactly when
    /// no entry exists at `p`, and with `IoError` exactly when the entry is a
    /// directory.
    pub fn read_file(&self, p: &Vec<String>) -> (r: Result<String, WsError>)
        requires
            self.inv(),
        ensures
            r is Ok <==> (self@.contains_key(p.deep_view()) && self@[p.deep_view()] is File),
            r is Ok ==> r->Ok_0@ == self@[p.deep_view()]->File_0,
            !self@.contains_key(p.deep_view()) ==> (r matches Err(e) && e is PathNotFound),
            self@.contains_key(p.deep_view()) && self@[p.deep_view()] is Dir ==> (r matches Err(e)
                && e is IoError),
    {
        match self.find(p) {
            None => Err(WsError::PathNotFound),
            Some(i) => {
                proof {
                    lemma_entry_lookup(self.entries@, i as int);
                }
                match &self.entries[i].node {
                    EntryNode::Dir => Err(
                        WsError::IoError(String::from_str("path is a directory")),
                    ),
                    EntryNode::File(c) => Ok(c.clone()),
                }
            },
        }
    }

    /// Overwrite the file at `p` with `content`, creating the file if it is
    /// absent. Succeeds exactly on [`can_write`]; on success the new map is
    /// [`write_map`] of the old; on failure nothing changes.
    pub fn write_file(&mut self, p: &Vec<String>, content: String) -> (r: Result<(), WsError>)
        requires
            old(self).inv(),
        ensures
            final(self).inv(),
            r is Ok <==> can_write(old(self)@, p.deep_view()),
            r is Ok ==> final(self)@ == write_map(old(self)@, p.deep_view(), content@),
            r is Err ==> final(self)@ == old(self)@ && r->Err_0 is IoError,
    {
        if !path_valid(p) {
            return Err(WsError::IoError(String::from_str("path is not well-formed")));
        }
        if p.len() == 0 {
            return Err(WsError::IoError(String::from_str("path is a directory")));
        }
        match self.find(p) {
            Some(i) => {
                proof {
                    lemma_entry_lookup(self.entries@, i as int);
                }
                match &self.entries[i].node {
                    EntryNode::Dir => Err(WsError::IoError(String::from_str("path is a directory"))),
                    EntryNode::File(_) => {
                        let e = Entry { path: path_clone(p), node: EntryNode::File(content) };
                        proof {
                            lemma_map_update(self.entries@, i as int, e);
                            lemma_write_wf(self@, p.deep_view(), e.node->File_0@);
                        }
                        self.entries.set(i, e);
                        Ok(())
                    },
                }
            },
            None => {
                let parent = path_parent(p);
                match self.find(&parent) {
                    None => Err(WsError::IoError(String::from_str("parent directory is absent"))),
                    Some(j) => {
                        proof {
                            lemma_entry_lookup(self.entries@, j as int);
                        }
                        match &self.entries[j].node {
                            EntryNode::File(_) => Err(
                                WsError::IoError(String::from_str("parent is not a directory")),
                            ),
                            EntryNode::Dir => {
                                let e = Entry {
                                    path: path_clone(p),
                                    node: EntryNode::File(content),
                                };
                                proof {
                                    lemma_map_push(self.entries@, e);
                                    lemma_write_wf(self@, p.deep_view(), e.node->File_0@);
                                }
                                self.entries.push(e);
                                Ok(())
                            },
                        }
                    },
                }
            },
        }
    }

    /// Create an empty file at `p`; an existing file is truncated, so this is
    /// exactly a write of empty content. Fails when
    /// the parent directory is absent or the path holds a directory.
    pub fn create_file(&mut self, p: &Vec<String>) -> (r: Result<(), WsError>)
        requires
            old(self).inv(),
        ensures
            final(self).inv(),
            r is Ok <==> can_write(old(self)@, p.deep_view()),
            r is Ok ==> final(self)@ == write_map(old(self)@, p.deep_view(), Seq::empty()),
            r is Err ==> final(self)@ == old(self)@ && r->Err_0 is IoError,
    {
        self.write_file(p, String::new())
    }

    /// Create a directory at `p`, together with all missing ancestors.
    /// Succeeds (idempotently) if the directory already exists; fails with
    /// `IoError` when `p` is not well-formed or some prefix of it holds a
    /// file; on failure nothing changes.
    #[verifier::rlimit(100)]
    #[verifier::spinoff_prover]
    pub fn create_folder(&mut self, p: &Vec<String>) -> (r: Result<(), WsError>)
        requires
            old(self).inv(),
        ensures
            final(self).inv(),
            r is Ok <==> can_create_folder(old(self)@, p.deep_view()),
            r is Ok ==> final(self)@ == create_folder_map(old(self)@, p.deep_view()),
            r is Err ==> final(self)@ == old(self)@ && r->Err_0 is IoError,
    {
        let ghost pv = p.deep_view();
        let ghost m0 = self@;
        if !path_valid(p) {
            return Err(WsError::IoError(String::from_str("path is not well-formed")));
        }
        // First pass: no prefix of `p` may hold a file; nothing is changed
        // until that is known, so a failure leaves the tree as it was.
        let mut acc: Vec<String> = Vec::new();
        let mut j: usize = 0;
        proof {
            assert(pv.take(0) =~= Seq::<Seq<char>>::empty());
            assert(acc.deep_view() =~= pv.take(0));
        }
        while j < p.len()
            invariant
                self.inv(),
                0 <= j <= p.len(),
                pv == p.deep_view(),
                m0 == self@,
                acc.deep_view() == pv.take(j as int),
                forall|jj: int|
                    0 <= jj <= j && m0.contains_key(#[trigger] pv.take(jj)) ==> m0[pv.take(
                        jj,
                    )] is Dir,
            decreases p.len() - j,
        {
            path_push(&mut acc, &p[j]);
            proof {
                assert(acc.deep_view() =~= pv.take(j + 1 as int));
            }
            match self.find(&acc) {
                Some(i) => {
                    proof {
                        lemma_entry_lookup(self.entries@, i as int);
                    }
                    match &self.entries[i].node {
                        EntryNode::File(_) => {
                            assert(!can_create_folder(m0, pv));
                            return Err(
                                WsError::IoError(String::from_str("an ancestor is a file")),
                            );
                        },
                        EntryNode::Dir => {},
                    }
                },
                None => {},
            }
            j += 1;
        }
        assert(can_create_folder(m0, pv));
        // Second pass: insert every missing prefix, parents first.
        let mut acc2: Vec<String> = Vec::new();
        let mut i: usize = 0;
        proof {
            assert(pv.take(0) =~= Seq::<Seq<char>>::empty());
            assert(acc2.deep_view() =~= pv.take(0));
            assert(self@ =~= mkdirs_upto(m0, pv, 0)) by {
                assert forall|k: Seq<Seq<char>>|
                    #[trigger] mkdirs_upto(m0, pv, 0).contains_key(k) implies m0.contains_key(
                    k,
                ) by {
                    if !m0.contains_key(k) {
                        assert(k =~= Seq::<Seq<char>>::empty());
                    }
                }
            }
        }
        while i < p.len()
            invariant
                0 <= i <= p.len(),
                pv == p.deep_view(),
                can_create_folder(m0, pv),
                wf_map(m0),
                distinct_keys(self.entries@),
                acc2.deep_view() == pv.take(i as int),
                self@ == mkdirs_upto(m0, pv, i as int),
                forall|jj: int|
                    0 <= jj <= i ==> self@.contains_key(#[trigger] pv.take(jj)) && self@[pv.take(
                        jj,
                    )] is Dir,
            decreases p.len() - i,
        {
            path_push(&mut acc2, &p[i]);
            proof {
                assert(acc2.deep_view() =~= pv.take(i + 1 as int));
                assert(under_or_eq(pv, pv.take(i + 1)));
            }
            let ghost mcur = self@;
            match self.find(&acc2) {
                Some(_) => {
                    proof {
                        assert(mcur.contains_key(pv.take(i + 1))) by {
                            lemma_idx(self.entries@, pv.take(i + 1));
                        }
                        assert(mkdirs_upto(m0, pv, i + 1 as int) =~= mcur) by {
                            assert forall|k: Seq<Seq<char>>|
                                #[trigger] mkdirs_upto(m0, pv, i + 1 as int).contains_key(
                                    k,
                                ) implies mcur.contains_key(k) by {
                                if !m0.contains_key(k) && k.len() == i + 1 {
                                    assert(k =~= pv.take(i + 1));
                                }
                            }
                        }
                    }
                },
                None => {
                    let e = Entry { path: path_clone(&acc2), node: EntryNode::Dir };
                    proof {
                        lemma_map_push(self.entries@, e);
                        assert(mkdirs_upto(m0, pv, i + 1 as int) =~= mcur.insert(
                            pv.take(i + 1),
                            NodeV::Dir,
                        )) by {
                            assert(!mcur.contains_key(pv.take(i + 1)));
                            assert(!m0.contains_key(pv.take(i + 1)));
                            assert forall|k: Seq<Seq<char>>|
                                #[trigger] mkdirs_upto(m0, pv, i + 1 as int).contains_key(
                                    k,
                                ) implies mcur.insert(pv.take(i + 1), NodeV::Dir).contains_key(
                                k,
                            ) by {
                                if !m0.contains_key(k) && k.len() == i + 1 {
                                    assert(k =~= pv.take(i + 1));
                                }
                            }
                        }
                    }
                    self.entries.push(e);
                },
            }
            proof {
                assert(self@[pv.take(i + 1)] is Dir);
                assert forall|jj: int|
                    0 <= jj <= i + 1 implies self@.contains_key(#[trigger] pv.take(jj))
                    && self@[pv.take(jj)] is Dir by {
                    if jj <= i {
                        assert(mcur.contains_key(pv.take(jj)) && mcur[pv.take(jj)] is Dir);
                    }
                }
            }
            i += 1;
        }
        proof {
            assert(self@ =~= create_folder_map(m0, pv)) by {
                assert forall|k: Seq<Seq<char>>|
                    #[trigger] create_folder_map(m0, pv).contains_key(k) implies mkdirs_upto(
                    m0,
                    pv,
                    p.len() as int,
                ).contains_key(k) by {
                    if !m0.contains_key(k) {
                        assert(under_or_eq(pv, k));
                        assert(k.len() <= pv.len());
                    }
                }
            }
            lemma_mkdirs_wf(m0, pv);
        }
        Ok(())
    }

    /// A fresh snapshot of the subtree at `p`, for display: an owned tree
    /// that shares nothing with the workspace. The snapshot root is always
    /// rendered as a directory, whatever the entry is. Fails with
    /// `PathNotFound` exactly when no entry exists at `p`.
    pub fn snapshot(&self, p: &Vec<String>) -> (r: Result<FileNode, WsError>)
        requires
            self.inv(),
        ensures
            r is Ok <==> self@.contains_key(p.deep_view()),
            r is Err ==> r->Err_0 is PathNotFound,
            r is Ok ==> r->Ok_0.path.deep_view() == p.deep_view() && r->Ok_0.is_dir && node_ok(
                self@,
                r->Ok_0,
                true,
            ),
    {
        match self.find(p) {
            None => Err(WsError::PathNotFound),
            Some(i) => {
                proof {
                    lemma_entry_lookup(self.entries@, i as int);
                }
                Ok(self.build_node(p, true))
            },
        }
    }

    #[verifier::rlimit(100)]
    #[verifier::spinoff_prover]
    #[verifier::loop_isolation(false)]
    fn build_node(&self, p: &Vec<String>, forced: bool) -> (r: FileNode)
        requires
            self.inv(),
            self@.contains_key(p.deep_view()),
        ensures
            r.path.deep_view() == p.deep_view(),
            node_ok(self@, r, forced),
            forced ==> r.is_dir,
        decreases max_key_len(self.entries@) - p@.len(),
    {
        let ghost m = self@;
        let ghost pv = p.deep_view();
        let idx = match self.find(p) {
            Some(i) => i,
            None => {
                proof {
                    assert(false);
                }
                vstd::pervasive::unreached()
            },
        };
        proof {
            lemma_entry_lookup(self.entries@, idx as int);
        }
        let name: String = if p.len() == 0 {
            String::new()
        } else {
            p[p.len() - 1].clone()
        };
        let entry_is_dir = match &self.entries[idx].node {
            EntryNode::Dir => true,
            EntryNode::File(_) => false,
        };
        assert(entry_is_dir == (m[pv] is Dir));
        let is_dir = forced || entry_is_dir;
        let mut children: Vec<FileNode> = Vec::new();
        if entry_is_dir {
            // `srcs` records which entry each child was built from, so that
            // the children stay distinct and complete
            let ghost mut srcs: Seq<int> = Seq::empty();
            let mut i: usize = 0;
            while i < self.entries.len()
                invariant
                    0 <= i <= self.entries@.len(),
                    srcs.len() == children@.len(),
                    forall|q: int| 0 <= q < children@.len() ==> 0 <= #[trigger] srcs[q] < i,
                    forall|q: int|
                        0 <= q < children@.len() ==> (#[trigger] children@[q]).path.deep_view()
                            == self.entries@[srcs[q]].key(),
                    forall|q: int|
                        0 <= q < children@.len() ==> node_ok(m, #[trigger] children@[q], false),
                    forall|q: int|
                        0 <= q < children@.len() ==> child_keys(m, pv).contains(
                            (#[trigger] children@[q]).path.deep_view(),
                        ),
                    forall|q1: int, q2: int|
                        0 <= q1 < q2 < srcs.len() ==> #[trigger] srcs[q1] < #[trigger] srcs[q2],
                    forall|q1: int, q2: int|
                        0 <= q1 < q2 < children@.len() ==> (
                        #[trigger] children@[q1]).path.deep_view() != (
                        #[trigger] children@[q2]).path.deep_view(),
                    forall|w: int|
                        0 <= w < i && child_keys(m, pv).contains(
                            (#[trigger] self.entries@[w]).key(),
                        ) ==> exists|q: int|
                            0 <= q < children@.len() && (#[trigger] children@[q]).path.deep_view()
                                == self.entries@[w].key(),
                decreases self.entries@.len() - i,
            {
                proof {
                    assert(forall|q: int| 0 <= q < children@.len() ==> 0 <= #[trigger] srcs[q] < i);
                    assert(forall|q: int|
                        0 <= q < children@.len() ==> (#[trigger] children@[q]).path.deep_view()
                            == self.entries@[srcs[q]].key());
                }
                let ghost children0 = children@;
                let ghost srcs0 = srcs;
                let elen = self.entries[i].path.len();
                let is_child = elen >= 1 && elen - 1 == p.len() && path_starts_with(
                    &self.entries[i].path,
                    p,
                );
                if is_child {
                    proof {
                        lemma_entry_lookup(self.entries@, i as int);
                        lemma_max_key_len(self.entries@, i as int);
                        assert(child_keys(m, pv).contains(self.entries@[i as int].key()));
                    }
                    let cpath = path_clone(&self.entries[i].path);
                    let child = self.build_node(&cpath, false);
                    children.push(child);
                    proof {
                        srcs = srcs.push(i as int);
                    }
                }
                proof {
                    if is_child {
                        assert forall|q: int|
                            0 <= q < children@.len() implies 0 <= #[trigger] srcs[q] < i + 1 && (
                        children@[q]).path.deep_view() == self.entries@[srcs[q]].key() by {
                            if q < children0.len() {
                                assert(srcs[q] == srcs0[q]);
                                assert(children@[q] == children0[q]);
                            } else {
                                assert(srcs[q] == i as int);
                                assert(children@[q].path.deep_view() == self.entries@[
                                    i as int
                                ].key());
                            }
                        }
                        assert forall|q: int|
                            0 <= q < children@.len() implies child_keys(m, pv).contains(
                            (#[trigger] children@[q]).path.deep_view(),
                        ) by {
                            if q < children0.len() {
                                assert(children@[q] == children0[q]);
                            } else {
                                assert(children@[q].path.deep_view() == self.entries@[
                                    i as int
                                ].key());
                            }
                        }
                        assert forall|q1: int, q2: int|
                            0 <= q1 < q2 < srcs.len() implies #[trigger] srcs[q1]
                            < #[trigger] srcs[q2] by {
                            if q2 < srcs0.len() {
                                assert(srcs[q1] == srcs0[q1]);
                                assert(srcs[q2] == srcs0[q2]);
                            } else {
                                assert(srcs[q2] == i as int);
                                assert(srcs[q1] == srcs0[q1]);
                                assert(0 <= srcs0[q1] < i && children0[q1].path.deep_view()
                                    == self.entries@[srcs0[q1]].key());
                            }
                        }
                        assert forall|q1: int, q2: int|
                            0 <= q1 < q2 < children@.len() implies (
                        #[trigger] children@[q1]).path.deep_view() != (
                        #[trigger] children@[q2]).path.deep_view() by {
                            if q2 < children0.len() {
                                assert(children@[q1] == children0[q1]);
                                assert(children@[q2] == children0[q2]);
                            } else {
                                assert(children@[q2].path.deep_view() == self.entries@[
                                    i as int
                                ].key());
                                assert(children@[q1] == children0[q1]);
                                assert(0 <= srcs0[q1] < i && children0[q1].path.deep_view()
                                    == self.entries@[srcs0[q1]].key());
                                assert(self.entries@[srcs0[q1]].key() != self.entries@[
                                    i as int
                                ].key());
                            }
                        }
                    }
                    if !is_child {
                        if child_keys(m, pv).contains(self.entries@[i as int].key()) {
                            assert(under_or_eq(self.entries@[i as int].key(), pv));
                            assert(false);
                        }
                    }
                    assert forall|w: int|
                        0 <= w < i + 1 && child_keys(m, pv).contains(
                            (#[trigger] self.entries@[w]).key(),
                        ) implies exists|q: int|
                        0 <= q < children@.len() && (#[trigger] children@[q]).path.deep_view()
                            == self.entries@[w].key() by {
                        if w < i {
                            let q = choose|q: int|
                                0 <= q < children0.len() && (
                                #[trigger] children0[q]).path.deep_view() == self.entries@[
                                    w
                                ].key();
                            assert(children@[q].path.deep_view() == self.entries@[w].key());
                        } else {
                            let q = children@.len() - 1;
                            assert(children@[q].path.deep_view() == self.entries@[w].key());
                        }
                    }
                }
                i += 1;
            }
            proof {
                assert forall|ck: Seq<Seq<char>>|
                    #[trigger] child_keys(m, pv).contains(ck) implies exists|q: int|
                    0 <= q < children@.len() && (#[trigger] children@[q]).path.deep_view()
                        == ck by {
                    assert(m.contains_key(ck));
                    lemma_idx(self.entries@, ck);
                    let w = idx_of(self.entries@, ck);
                    assert(child_keys(m, pv).contains(self.entries@[w].key()));
                }
            }
        }
        let ghost cs = children@;
        let r = FileNode { name, path: path_clone(p), is_dir, children };
        proof {
            assert(r.children@ == cs);
            assert(r.path.deep_view() == pv);
            assert(m.contains_key(r.path.deep_view()));
            assert(r.is_dir == (forced || m[pv] is Dir));
            if pv.len() > 0 {
                assert(r.name@ == pv.last());
            } else {
                assert(r.name@ == Seq::<char>::empty());
            }
            if m[pv] is Dir {
                assert(forall|q: int|
                    0 <= q < r.children@.len() ==> child_keys(m, pv).contains(
                        (#[trigger] r.children@[q]).path.deep_view(),
                    ));
                assert(forall|q: int|
                    0 <= q < r.children@.len() ==> node_ok(m, #[trigger] r.children@[q], false));
            } else {
                assert(r.children@.len() == 0);
            }
            assert(node_ok(m, r, forced)) by {
                reveal(node_ok);
            }
        }
        r
    }

    /// Rename the entry at `oldp` to `newp`; a directory moves with
    /// everything below it. Fails with `PathNotFound` exactly when no entry
    /// exists at `oldp`, and with `IoError` when `newp` is ill-formed, the
    /// root, already present, inside the moved subtree, or without a parent
    /// directory; on failure nothing changes.
    pub fn rename_item(&mut self, oldp: &Vec<String>, newp: &Vec<String>) -> (r: Result<
        (),
        WsError,
    >)
        requires
            old(self).inv(),
        ensures
            final(self).inv(),
            r is Ok <==> can_rename(old(self)@, oldp.deep_view(), newp.deep_view()),
            r is Ok ==> final(self)@ == rename_map(
                old(self)@,
                oldp.deep_view(),
                newp.deep_view(),
            ),
            r is Err ==> final(self)@ == old(self)@,
            r is Err && !old(self)@.contains_key(oldp.deep_view()) ==> r->Err_0 is PathNotFound,
            r is Err && old(self)@.contains_key(oldp.deep_view()) ==> r->Err_0 is IoError,
    {
        let ghost ov = oldp.deep_view();
        let ghost tv = newp.deep_view();
        let ghost m0 = self@;
        match self.find(oldp) {
            None => {
                return Err(WsError::PathNotFound);
            },
            Some(i) => {
                proof {
                    lemma_entry_lookup(self.entries@, i as int);
                }
            },
        }
        if oldp.len() == 0 {
            return Err(WsError::IoError(String::from_str("cannot rename the root")));
        }
        if !path_valid(newp) {
            return Err(WsError::IoError(String::from_str("target path is not well-formed")));
        }
        if newp.len() == 0 {
            return Err(WsError::IoError(String::from_str("target path is the root")));
        }
        match self.find(newp) {
            Some(i) => {
                proof {
                    lemma_entry_lookup(self.entries@, i as int);
                }
                return Err(WsError::IoError(String::from_str("target path already exists")));
            },
            None => {},
        }
        if path_starts_with(newp, oldp) {
            return Err(WsError::IoError(String::from_str("target path lies inside the source")));
        }
        let tparent = path_parent(newp);
        match self.find(&tparent) {
            None => {
                return Err(WsError::IoError(String::from_str("target parent directory is absent")));
            },
            Some(j) => {
                proof {
                    lemma_entry_lookup(self.entries@, j as int);
                }
                match &self.entries[j].node {
                    EntryNode::File(_) => {
                        return Err(
                            WsError::IoError(String::from_str("target parent is not a directory")),
                        );
                    },
                    EntryNode::Dir => {},
                }
            },
        }
        assert(can_rename(m0, ov, tv));
        let ghost s = self.entries@;
        let mut out: Vec<Entry> = Vec::new();
        let mut j: usize = 0;
        while j < self.entries.len()
            invariant
                0 <= j <= self.entries.len(),
                s == self.entries@,
                ov == oldp.deep_view(),
                tv == newp.deep_view(),
                ov.len() > 0,
                out@.len() == j,
                forall|q: int|
                    0 <= q < j ==> (#[trigger] out@[q]).key() == rename_aux(s[q].key(), ov, tv)
                        && out@[q].node.nv() == s[q].node.nv(),
            decreases self.entries.len() - j,
        {
            let moved = path_starts_with(&self.entries[j].path, oldp);
            let new_path: Vec<String> = if moved {
                let mut np = path_clone(newp);
                proof {
                    assert(tv + s[j as int].key().subrange(ov.len() as int, ov.len() as int)
                        =~= tv);
                }
                let mut q: usize = oldp.len();
                while q < self.entries[j].path.len()
                    invariant
                        s == self.entries@,
                        0 <= j < s.len(),
                        tv == newp.deep_view(),
                        ov.len() <= q <= s[j as int].key().len(),
                        ov.len() == oldp.len(),
                        np.deep_view() == tv + s[j as int].key().subrange(
                            ov.len() as int,
                            q as int,
                        ),
                    decreases self.entries@[j as int].path.len() - q,
                {
                    path_push(&mut np, &self.entries[j].path[q]);
                    proof {
                        assert(np.deep_view() =~= tv + s[j as int].key().subrange(
                            ov.len() as int,
                            q + 1 as int,
                        ));
                    }
                    q += 1;
                }
                proof {
                    assert(np.deep_view() =~= tv + s[j as int].key().skip(ov.len() as int));
                }
                np
            } else {
                path_clone(&self.entries[j].path)
            };
            assert(new_path.deep_view() == rename_aux(s[j as int].key(), ov, tv));
            let e2 = Entry {
                path: new_path,
                node: match &self.entries[j].node {
                    EntryNode::Dir => EntryNode::Dir,
                    EntryNode::File(c) => EntryNode::File(c.clone()),
                },
            };
            out.push(e2);
            j += 1;
        }
        proof {
            lemma_map_rename(s, out@, ov, tv);
            lemma_rename_wf(m0, ov, tv);
        }
        self.entries = out;
        Ok(())
    }

    /// Delete the entry at `p`; a directory is deleted with everything below
    /// it. Fails with `PathNotFound` exactly when no entry exists at `p`, and
    /// with `IoError` on the root; on failure nothing changes.
    pub fn delete_item(&mut self, p: &Vec<String>) -> (r: Result<(), WsError>)
        requires
            old(self).inv(),
        ensures
            final(self).inv(),
            r is Ok <==> can_delete(old(self)@, p.deep_view()),
            r is Ok ==> final(self)@ == delete_map(old(self)@, p.deep_view()),
            r is Err ==> final(self)@ == old(self)@,
            r is Err && !old(self)@.contains_key(p.deep_view()) ==> r->Err_0 is PathNotFound,
            r is Err && old(self)@.contains_key(p.deep_view()) ==> r->Err_0 is IoError,
    {
        match self.find(p) {
            None => Err(WsError::PathNotFound),
            Some(i) => {
                proof {
                    lemma_entry_lookup(self.entries@, i as int);
                }
                if p.len() == 0 {
                    return Err(WsError::IoError(String::from_str("cannot delete the root")));
                }
                let ghost pv = p.deep_view();
                let ghost pred = |e: Entry| !under_or_eq(e.key(), pv);
                let ghost s = self.entries@;
                let mut kept: Vec<Entry> = Vec::new();
                let mut j: usize = 0;
                while j < self.entries.len()
                    invariant
                        0 <= j <= self.entries.len(),
                        s == self.entries@,
                        pv == p.deep_view(),
                        pred == (|e: Entry| !under_or_eq(e.key(), pv)),
                        kept@.len() == s.take(j as int).filter(pred).len(),
                        forall|q: int|
                            0 <= q < kept@.len() ==> (#[trigger] kept@[q]).key() == s.take(
                                j as int,
                            ).filter(pred)[q].key() && kept@[q].node.nv() == s.take(
                                j as int,
                            ).filter(pred)[q].node.nv(),
                    decreases self.entries.len() - j,
                {
                    let e = &self.entries[j];
                    proof {
                        reveal(Seq::filter);
                        assert(s.take(j + 1 as int).drop_last() =~= s.take(j as int));
                        assert(s.take(j + 1 as int).last() == s[j as int]);
                    }
                    if path_starts_with(&e.path, p) {
                        // at or below the deleted path: dropped
                        assert(!pred(s[j as int]));
                        assert(s.take(j + 1 as int).filter(pred) == s.take(j as int).filter(pred));
                    } else {
                        let kept_entry = Entry {
                            path: path_clone(&e.path),
                            node: match &e.node {
                                EntryNode::Dir => EntryNode::Dir,
                                EntryNode::File(c) => EntryNode::File(c.clone()),
                            },
                        };
                        proof {
                            assert(pred(s[j as int]));
                            assert(s.take(j + 1 as int).filter(pred) == s.take(j as int).filter(
                                pred,
                            ).push(s[j as int]));
                            assert(kept_entry.key() == s[j as int].key());
                            assert(kept_entry.node.nv() == s[j as int].node.nv());
                        }
                        kept.push(kept_entry);
                    }
                    j += 1;
                }
                proof {
                    assert(s.take(s.len() as int) =~= s);
                    lemma_map_filter_delete(s, pv);
                    lemma_entries_equiv(s.filter(pred), kept@);
                    lemma_delete_wf(entries_map(s), pv);
                }
                self.entries = kept;
                Ok(())
            },
        }
    }
}

} // verus!
