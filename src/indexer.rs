//! The incremental indexer's decisions: which files of a walk must be
//! chunked and embedded again, which indexed files are gone, and what a file
//! change event leads to.

use vstd::prelude::*;
use crate::scanner::{FileEntry, entries_view};
use crate::ranker::strings_view;
use crate::text::chars_of;
use crate::scanner::same_chars;

verus! {

/// The modification time of each path, a later entry for a path replacing an
/// earlier one.
pub open spec fn entries_map(es: Seq<(Seq<char>, u64)>) -> Map<Seq<char>, u64>
    decreases es.len(),
{
    if es.len() == 0 {
        Map::empty()
    } else {
        entries_map(es.drop_last()).insert(es.last().0, es.last().1)
    }
}

pub open spec fn paths_of(es: Seq<(Seq<char>, u64)>) -> Set<Seq<char>> {
    Set::new(|p: Seq<char>| exists|i: int| 0 <= i < es.len() && (#[trigger] es[i]).0 == p)
}

pub open spec fn distinct_paths(es: Seq<(Seq<char>, u64)>) -> bool {
    forall|i: int, j: int| 0 <= i < j < es.len() ==> (#[trigger] es[i]).0 != (#[trigger] es[j]).0
}

/// A walked file must be indexed again: it is not indexed, or it is indexed
/// with another modification time (later or earlier).
pub open spec fn is_stale(e: (Seq<char>, u64), indexed: Map<Seq<char>, u64>) -> bool {
    !indexed.contains_key(e.0) || indexed[e.0] != e.1
}

/// The walked files that are stale, in walk order.
pub open spec fn stale_entries(walk: Seq<(Seq<char>, u64)>, indexed: Map<Seq<char>, u64>) -> Seq<
    (Seq<char>, u64),
>
    decreases walk.len(),
{
    if walk.len() == 0 {
        seq![]
    } else if is_stale(walk.last(), indexed) {
        stale_entries(walk.drop_last(), indexed).push(walk.last())
    } else {
        stale_entries(walk.drop_last(), indexed)
    }
}

/// The indexed paths that the walk did not see, in index order.
pub open spec fn vanished_paths(indexed: Seq<(Seq<char>, u64)>, seen: Set<Seq<char>>) -> Seq<
    Seq<char>,
>
    decreases indexed.len(),
{
    if indexed.len() == 0 {
        seq![]
    } else if !seen.contains(indexed.last().0) {
        vanished_paths(indexed.drop_last(), seen).push(indexed.last().0)
    } else {
        vanished_paths(indexed.drop_last(), seen)
    }
}

/// The work of one reindex pass.
pub struct IndexPlan {
    /// Files to chunk, embed and store again, replacing their rows.
    pub reindex: Vec<FileEntry>,
    /// Files whose rows are to be deleted from both indexes.
    pub remove: Vec<String>,
}

fn lookup_mtime(indexed: &Vec<FileEntry>, path: &String) -> (r: Option<u64>)
    ensures
        match r {
            Some(t) => entries_map(entries_view(indexed@)).contains_key(path@) && entries_map(
                entries_view(indexed@),
            )[path@] == t,
            None => !entries_map(entries_view(indexed@)).contains_key(path@),
        },
{
    let ghost v = entries_view(indexed@);
    let mut found: Option<u64> = None;
    let mut i: usize = 0;
    while i < indexed.len()
        invariant
            i <= indexed.len(),
            v == entries_view(indexed@),
            match found {
                Some(t) => entries_map(v.subrange(0, i as int)).contains_key(path@)
                    && entries_map(v.subrange(0, i as int))[path@] == t,
                None => !entries_map(v.subrange(0, i as int)).contains_key(path@),
            },
        decreases indexed.len() - i,
    {
        assert(v.subrange(0, i + 1).drop_last() =~= v.subrange(0, i as int));
        assert(v.subrange(0, i + 1).last() == indexed@[i as int]@);
        if indexed[i].path == *path {
            found = Some(indexed[i].mtime);
        }
        i = i + 1;
    }
    assert(v.subrange(0, indexed.len() as int) =~= v);
    found
}

fn walk_has_path(walk: &Vec<FileEntry>, path: &String) -> (r: bool)
    ensures
        r == paths_of(entries_view(walk@)).contains(path@),
{
    let ghost v = entries_view(walk@);
    let mut i: usize = 0;
    while i < walk.len()
        invariant
            i <= walk.len(),
            v == entries_view(walk@),
            forall|k: int| 0 <= k < i ==> (#[trigger] v[k]).0 != path@,
        decreases walk.len() - i,
    {
        assert(v[i as int] == walk@[i as int]@);
        if walk[i].path == *path {
            assert(v[i as int].0 == path@);
            return true;
        }
        i = i + 1;
    }
    false
}

/// Compares a walk of the repository with the indexed files. Reindexes each
/// walked file that is not indexed or is indexed with another modification
/// time; removes each indexed path that the walk did not see.
pub fn plan_reindex(walk: &Vec<FileEntry>, indexed: &Vec<FileEntry>) -> (r: IndexPlan)
    ensures
        entries_view(r.reindex@) == stale_entries(
            entries_view(walk@),
            entries_map(entries_view(indexed@)),
        ),
        strings_view(r.remove@) == vanished_paths(
            entries_view(indexed@),
            paths_of(entries_view(walk@)),
        ),
{
    let ghost wv = entries_view(walk@);
    let ghost iv = entries_view(indexed@);
    let ghost m = entries_map(iv);
    let mut reindex: Vec<FileEntry> = Vec::new();
    let mut i: usize = 0;
    while i < walk.len()
        invariant
            i <= walk.len(),
            wv == entries_view(walk@),
            iv == entries_view(indexed@),
            m == entries_map(iv),
            entries_view(reindex@) == stale_entries(wv.subrange(0, i as int), m),
        decreases walk.len() - i,
    {
        let e = &walk[i];
        assert(wv.subrange(0, i + 1).drop_last() =~= wv.subrange(0, i as int));
        assert(wv.subrange(0, i + 1).last() == e@);
        let stale = match lookup_mtime(indexed, &e.path) {
            Some(t) => t != e.mtime,
            None => true,
        };
        if stale {
            let c = e.copy();
            reindex.push(c);
            assert(entries_view(reindex@) =~= entries_view(reindex@).drop_last().push(c@));
        }
        i = i + 1;
    }
    assert(wv.subrange(0, walk.len() as int) =~= wv);
    let ghost seen = paths_of(wv);
    let mut remove: Vec<String> = Vec::new();
    let mut j: usize = 0;
    while j < indexed.len()
        invariant
            j <= indexed.len(),
            wv == entries_view(walk@),
            iv == entries_view(indexed@),
            seen == paths_of(wv),
            strings_view(remove@) == vanished_paths(iv.subrange(0, j as int), seen),
        decreases indexed.len() - j,
    {
        let p = &indexed[j].path;
        assert(iv.subrange(0, j + 1).drop_last() =~= iv.subrange(0, j as int));
        assert(iv.subrange(0, j + 1).last() == indexed@[j as int]@);
        if !walk_has_path(walk, p) {
            let c = p.clone();
            remove.push(c);
            assert(strings_view(remove@) =~= strings_view(remove@).drop_last().push(c@));
        }
        j = j + 1;
    }
    assert(iv.subrange(0, indexed.len() as int) =~= iv);
    IndexPlan { reindex, remove }
}


/// The indexed metadata once a plan is carried out: the removed paths are
/// gone and each reindexed file is stored with its walked modification time
/// (each of them gave at least one chunk).
pub open spec fn after_plan(
    indexed: Map<Seq<char>, u64>,
    reindex: Seq<(Seq<char>, u64)>,
    remove: Seq<Seq<char>>,
) -> Map<Seq<char>, u64> {
    indexed.remove_keys(remove.to_set()).union_prefer_right(entries_map(reindex))
}

/// The paths of the full-text index once a plan is carried out: the removed
/// paths are deleted, and each reindexed file's documents are put back.
pub open spec fn text_paths_after(
    text_paths: Set<Seq<char>>,
    reindex: Seq<(Seq<char>, u64)>,
    remove: Seq<Seq<char>>,
) -> Set<Seq<char>> {
    text_paths.difference(remove.to_set()).union(paths_of(reindex))
}

pub proof fn lemma_entries_map_keys(es: Seq<(Seq<char>, u64)>)
    ensures
        entries_map(es).dom() =~= paths_of(es),
    decreases es.len(),
{
    if es.len() > 0 {
        lemma_entries_map_keys(es.drop_last());
        assert forall|p: Seq<char>| paths_of(es).contains(p) <==> entries_map(es).dom().contains(
            p,
        ) by {
            if paths_of(es).contains(p) && p != es.last().0 {
                let i = choose|i: int| 0 <= i < es.len() && (#[trigger] es[i]).0 == p;
                assert(es.drop_last()[i] == es[i]);
                assert(paths_of(es.drop_last()).contains(p));
            }
            if entries_map(es.drop_last()).dom().contains(p) {
                let i = choose|i: int|
                    0 <= i < es.drop_last().len() && (#[trigger] es.drop_last()[i]).0 == p;
                assert(es[i] == es.drop_last()[i]);
            }
            if p == es.last().0 {
                assert(es[es.len() - 1].0 == p);
            }
        }
    }
}

pub proof fn lemma_entries_map_value(es: Seq<(Seq<char>, u64)>, i: int)
    requires
        distinct_paths(es),
        0 <= i < es.len(),
    ensures
        entries_map(es).contains_key(es[i].0),
        entries_map(es)[es[i].0] == es[i].1,
    decreases es.len(),
{
    if i < es.len() - 1 {
        let front = es.drop_last();
        assert(front[i] == es[i]);
        assert(distinct_paths(front)) by {
            assert forall|a: int, b: int| 0 <= a < b < front.len() implies (#[trigger] front[a]).0
                != (#[trigger] front[b]).0 by {
                assert(front[a] == es[a] && front[b] == es[b]);
            }
        }
        lemma_entries_map_value(front, i);
        assert(es[i].0 != es[es.len() - 1].0);
    }
}

proof fn lemma_stale_members(walk: Seq<(Seq<char>, u64)>, m: Map<Seq<char>, u64>)
    ensures
        forall|x: (Seq<char>, u64)|
            #[trigger] stale_entries(walk, m).contains(x) <==> walk.contains(x) && is_stale(x, m),
    decreases walk.len(),
{
    if walk.len() > 0 {
        lemma_stale_members(walk.drop_last(), m);
        let prev = stale_entries(walk.drop_last(), m);
        assert forall|x: (Seq<char>, u64)|
            stale_entries(walk, m).contains(x) <==> walk.contains(x) && is_stale(x, m) by {
            if walk.contains(x) {
                let i = choose|i: int| 0 <= i < walk.len() && walk[i] == x;
                if i < walk.len() - 1 {
                    assert(walk.drop_last()[i] == x);
                }
            }
            if walk.drop_last().contains(x) {
                let i = choose|i: int| 0 <= i < walk.drop_last().len() && walk.drop_last()[i] == x;
                assert(walk[i] == x);
            }
            if is_stale(walk.last(), m) {
                assert(prev.push(walk.last()).contains(x) <==> prev.contains(x) || x
                    == walk.last()) by {
                    if prev.push(walk.last()).contains(x) && x != walk.last() {
                        let k = choose|k: int|
                            0 <= k < prev.push(walk.last()).len() && prev.push(walk.last())[k]
                                == x;
                        assert(prev[k] == x);
                    }
                    if prev.contains(x) {
                        let k = choose|k: int| 0 <= k < prev.len() && prev[k] == x;
                        assert(prev.push(walk.last())[k] == x);
                    }
                    if x == walk.last() {
                        assert(prev.push(walk.last())[prev.len() as int] == x);
                    }
                }
            }
        }
    }
}

pub proof fn lemma_push_contains<A>(s: Seq<A>, x: A, y: A)
    ensures
        s.push(x).contains(y) <==> s.contains(y) || y == x,
{
    if s.push(x).contains(y) && y != x {
        let k = choose|k: int| 0 <= k < s.push(x).len() && s.push(x)[k] == y;
        assert(s[k] == y);
    }
    if s.contains(y) {
        let k = choose|k: int| 0 <= k < s.len() && s[k] == y;
        assert(s.push(x)[k] == y);
    }
    if y == x {
        assert(s.push(x)[s.len() as int] == y);
    }
}

proof fn lemma_paths_of_last(es: Seq<(Seq<char>, u64)>)
    requires
        es.len() > 0,
    ensures
        paths_of(es) =~= paths_of(es.drop_last()).insert(es.last().0),
{
    let front = es.drop_last();
    assert forall|p: Seq<char>| paths_of(es).contains(p) <==> paths_of(front).insert(
        es.last().0,
    ).contains(p) by {
        if paths_of(es).contains(p) && p != es.last().0 {
            let i = choose|i: int| 0 <= i < es.len() && (#[trigger] es[i]).0 == p;
            assert(front[i] == es[i]);
        }
        if paths_of(front).contains(p) {
            let i = choose|i: int| 0 <= i < front.len() && (#[trigger] front[i]).0 == p;
            assert(es[i] == front[i]);
        }
        if p == es.last().0 {
            assert(es[es.len() - 1].0 == p);
        }
    }
}

proof fn lemma_vanished_members(iv: Seq<(Seq<char>, u64)>, seen: Set<Seq<char>>)
    ensures
        forall|p: Seq<char>|
            #[trigger] vanished_paths(iv, seen).contains(p) <==> paths_of(iv).contains(p)
                && !seen.contains(p),
    decreases iv.len(),
{
    if iv.len() > 0 {
        let front = iv.drop_last();
        lemma_vanished_members(front, seen);
        lemma_paths_of_last(iv);
        let prev = vanished_paths(front, seen);
        assert forall|p: Seq<char>| #[trigger]
            vanished_paths(iv, seen).contains(p) <==> paths_of(iv).contains(p) && !seen.contains(
                p,
            ) by {
            lemma_push_contains(prev, iv.last().0, p);
            assert(prev.contains(p) <==> paths_of(front).contains(p) && !seen.contains(p));
            assert(paths_of(iv).contains(p) <==> paths_of(front).contains(p) || p == iv.last().0);
            if seen.contains(iv.last().0) {
                assert(vanished_paths(iv, seen) == prev);
            } else {
                assert(vanished_paths(iv, seen) == prev.push(iv.last().0));
            }
        }
    } else {
        assert forall|p: Seq<char>| #[trigger]
            vanished_paths(iv, seen).contains(p) <==> paths_of(iv).contains(p) && !seen.contains(
                p,
            ) by {
            assert(vanished_paths(iv, seen) =~= Seq::<Seq<char>>::empty());
            if paths_of(iv).contains(p) {
                let i = choose|i: int| 0 <= i < iv.len() && (#[trigger] iv[i]).0 == p;
            }
        }
    }
}

proof fn lemma_stale_distinct(walk: Seq<(Seq<char>, u64)>, m: Map<Seq<char>, u64>)
    requires
        distinct_paths(walk),
    ensures
        distinct_paths(stale_entries(walk, m)),
    decreases walk.len(),
{
    if walk.len() > 0 {
        let front = walk.drop_last();
        assert(distinct_paths(front)) by {
            assert forall|a: int, b: int| 0 <= a < b < front.len() implies (#[trigger] front[a]).0
                != (#[trigger] front[b]).0 by {
                assert(front[a] == walk[a] && front[b] == walk[b]);
            }
        }
        lemma_stale_distinct(front, m);
        lemma_stale_members(front, m);
        let prev = stale_entries(front, m);
        if is_stale(walk.last(), m) {
            let s = prev.push(walk.last());
            assert forall|a: int, b: int| 0 <= a < b < s.len() implies (#[trigger] s[a]).0 != (
            #[trigger] s[b]).0 by {
                if b == s.len() - 1 {
                    assert(s[a] == prev[a]);
                    assert(prev.contains(prev[a]));
                    assert(front.contains(prev[a]));
                    let i = choose|i: int| 0 <= i < front.len() && front[i] == prev[a];
                    assert(walk[i] == front[i]);
                    assert(s[b] == walk[walk.len() - 1]);
                } else {
                    assert(s[a] == prev[a] && s[b] == prev[b]);
                }
            }
        }
    }
}

/// A file removed from disk leaves both indexes: the plan removes it when it
/// was indexed, and once the plan is carried out neither index holds it
/// (the full-text index holding the same paths as the store before).
pub proof fn lemma_removed_file_leaves(
    walk: Seq<(Seq<char>, u64)>,
    indexed: Seq<(Seq<char>, u64)>,
    text_paths: Set<Seq<char>>,
    p: Seq<char>,
)
    requires
        distinct_paths(walk),
        !paths_of(walk).contains(p),
        text_paths == paths_of(indexed),
    ensures
        paths_of(indexed).contains(p) ==> vanished_paths(indexed, paths_of(walk)).contains(p),
        !after_plan(
            entries_map(indexed),
            stale_entries(walk, entries_map(indexed)),
            vanished_paths(indexed, paths_of(walk)),
        ).contains_key(p),
        !text_paths_after(
            text_paths,
            stale_entries(walk, entries_map(indexed)),
            vanished_paths(indexed, paths_of(walk)),
        ).contains(p),
{
    lemma_plan_synchronizes(walk, indexed);
    lemma_entries_map_keys(walk);
    lemma_vanished_members(indexed, paths_of(walk));
    let stale = stale_entries(walk, entries_map(indexed));
    lemma_stale_members(walk, entries_map(indexed));
    if paths_of(stale).contains(p) {
        let k = choose|k: int| 0 <= k < stale.len() && (#[trigger] stale[k]).0 == p;
        assert(stale.contains(stale[k]));
        assert(walk.contains(stale[k]));
        let i = choose|i: int| 0 <= i < walk.len() && walk[i] == stale[k];
        assert(walk[i].0 == p);
    }
    if text_paths.contains(p) {
        assert(vanished_paths(indexed, paths_of(walk)).contains(p));
        assert(vanished_paths(indexed, paths_of(walk)).to_set().contains(p));
    }
}

/// When only one walked file's modification time differs from the index,
/// the plan reindexes that file alone and removes nothing.
pub proof fn lemma_only_changed_file_reindexed(
    walk: Seq<(Seq<char>, u64)>,
    indexed: Seq<(Seq<char>, u64)>,
    p: Seq<char>,
    t: u64,
)
    requires
        distinct_paths(walk),
        entries_map(walk).contains_key(p),
        entries_map(walk)[p] != t,
        entries_map(indexed) == entries_map(walk).insert(p, t),
    ensures
        stale_entries(walk, entries_map(indexed)) == seq![(p, entries_map(walk)[p])],
        vanished_paths(indexed, paths_of(walk)).len() == 0,
{
    let m = entries_map(indexed);
    let wm = entries_map(walk);
    let stale = stale_entries(walk, m);
    lemma_entries_map_keys(walk);
    lemma_entries_map_keys(indexed);
    lemma_stale_members(walk, m);
    lemma_stale_distinct(walk, m);
    let i = choose|i: int| 0 <= i < walk.len() && (#[trigger] walk[i]).0 == p;
    lemma_entries_map_value(walk, i);
    let x = walk[i];
    assert(walk.contains(x));
    assert(is_stale(x, m));
    assert(stale.contains(x));
    assert forall|k: int| 0 <= k < stale.len() implies (#[trigger] stale[k]) == x by {
        assert(stale.contains(stale[k]));
        assert(walk.contains(stale[k]));
        let j = choose|j: int| 0 <= j < walk.len() && walk[j] == stale[k];
        lemma_entries_map_value(walk, j);
        if walk[j].0 != p {
            assert(m[walk[j].0] == wm[walk[j].0]);
        } else if j != i {
            if j < i {
                assert(walk[j].0 != walk[i].0);
            } else {
                assert(walk[i].0 != walk[j].0);
            }
        }
    }
    let k0 = choose|k: int| 0 <= k < stale.len() && stale[k] == x;
    if stale.len() > 1 {
        let other = if k0 == 0 { 1int } else { 0int };
        assert(stale[other] == x && stale[k0] == x);
        if other < k0 {
            assert(stale[other].0 != stale[k0].0);
        } else {
            assert(stale[k0].0 != stale[other].0);
        }
    }
    assert(stale =~= seq![(p, wm[p])]);
    lemma_vanished_members(indexed, paths_of(walk));
    let gone = vanished_paths(indexed, paths_of(walk));
    if gone.len() > 0 {
        assert(gone.contains(gone[0]));
        assert(m.dom().contains(gone[0]));
    }
}

/// Carrying out the plan of a pass leaves the index holding exactly the
/// walked files, each with its walked modification time.
pub proof fn lemma_plan_synchronizes(walk: Seq<(Seq<char>, u64)>, indexed: Seq<(Seq<char>, u64)>)
    requires
        distinct_paths(walk),
    ensures
        after_plan(
            entries_map(indexed),
            stale_entries(walk, entries_map(indexed)),
            vanished_paths(indexed, paths_of(walk)),
        ) =~= entries_map(walk),
{
    let m = entries_map(indexed);
    let stale = stale_entries(walk, m);
    let gone = vanished_paths(indexed, paths_of(walk));
    let after = after_plan(m, stale, gone);
    lemma_entries_map_keys(indexed);
    lemma_entries_map_keys(walk);
    lemma_entries_map_keys(stale);
    lemma_stale_members(walk, m);
    lemma_vanished_members(indexed, paths_of(walk));
    lemma_stale_distinct(walk, m);
    assert forall|p: Seq<char>| after.contains_key(p) <==> entries_map(walk).contains_key(p) by {
        if entries_map(walk).contains_key(p) {
            let i = choose|i: int| 0 <= i < walk.len() && (#[trigger] walk[i]).0 == p;
            if is_stale(walk[i], m) {
                assert(walk.contains(walk[i]));
                assert(stale.contains(walk[i]));
                let k = choose|k: int| 0 <= k < stale.len() && stale[k] == walk[i];
                assert(paths_of(stale).contains(p));
            } else {
                assert(!gone.to_set().contains(p));
            }
        }
        if paths_of(stale).contains(p) {
            let k = choose|k: int| 0 <= k < stale.len() && (#[trigger] stale[k]).0 == p;
            assert(stale.contains(stale[k]));
            assert(walk.contains(stale[k]));
            let i = choose|i: int| 0 <= i < walk.len() && walk[i] == stale[k];
            assert(paths_of(walk).contains(p));
        }
        if m.contains_key(p) && !gone.to_set().contains(p) {
            assert(!gone.contains(p));
        }
    }
    assert forall|p: Seq<char>| after.contains_key(p) implies after[p] == entries_map(walk)[p] by {
        let i = choose|i: int| 0 <= i < walk.len() && (#[trigger] walk[i]).0 == p;
        lemma_entries_map_value(walk, i);
        if is_stale(walk[i], m) {
            assert(walk.contains(walk[i]));
            assert(stale.contains(walk[i]));
            let k = choose|k: int| 0 <= k < stale.len() && stale[k] == walk[i];
            lemma_entries_map_value(stale, k);
        } else {
            if paths_of(stale).contains(p) {
                let k = choose|k: int| 0 <= k < stale.len() && (#[trigger] stale[k]).0 == p;
                assert(stale.contains(stale[k]));
                assert(walk.contains(stale[k]));
                let j = choose|j: int| 0 <= j < walk.len() && walk[j] == stale[k];
                assert(walk[j].0 == walk[i].0);
                if i != j {
                    if i < j {
                        assert(walk[i].0 != walk[j].0);
                    } else {
                        assert(walk[j].0 != walk[i].0);
                    }
                }
            }
        }
    }
}

/// A reindex pass is idempotent: once a pass is carried out, a second pass
/// over the same walk finds nothing to reindex and nothing to remove, so it
/// embeds nothing and leaves the index as it is.
pub proof fn lemma_reindex_idempotent(
    walk: Seq<(Seq<char>, u64)>,
    indexed: Seq<(Seq<char>, u64)>,
    indexed_after: Seq<(Seq<char>, u64)>,
)
    requires
        distinct_paths(walk),
        entries_map(indexed_after) == after_plan(
            entries_map(indexed),
            stale_entries(walk, entries_map(indexed)),
            vanished_paths(indexed, paths_of(walk)),
        ),
    ensures
        stale_entries(walk, entries_map(indexed_after)).len() == 0,
        vanished_paths(indexed_after, paths_of(walk)).len() == 0,
{
    lemma_plan_synchronizes(walk, indexed);
    let m2 = entries_map(indexed_after);
    lemma_stale_members(walk, m2);
    let stale = stale_entries(walk, m2);
    if stale.len() > 0 {
        assert(stale.contains(stale[0]));
        assert(walk.contains(stale[0]));
        let i = choose|i: int| 0 <= i < walk.len() && walk[i] == stale[0];
        lemma_entries_map_value(walk, i);
    }
    lemma_vanished_members(indexed_after, paths_of(walk));
    lemma_entries_map_keys(indexed_after);
    lemma_entries_map_keys(walk);
    let gone = vanished_paths(indexed_after, paths_of(walk));
    if gone.len() > 0 {
        assert(gone.contains(gone[0]));
        assert(paths_of(indexed_after).contains(gone[0]));
        assert(m2.dom().contains(gone[0]));
        assert(entries_map(walk).dom().contains(gone[0]));
    }
}

/// After a pass the vector store and the full-text index hold the same
/// paths, and those are the walked paths, provided they held the same paths
/// before.
pub proof fn lemma_paths_consistent(
    walk: Seq<(Seq<char>, u64)>,
    indexed: Seq<(Seq<char>, u64)>,
    text_paths: Set<Seq<char>>,
)
    requires
        distinct_paths(walk),
        text_paths == paths_of(indexed),
    ensures
        after_plan(
            entries_map(indexed),
            stale_entries(walk, entries_map(indexed)),
            vanished_paths(indexed, paths_of(walk)),
        ).dom() == paths_of(walk),
        text_paths_after(
            text_paths,
            stale_entries(walk, entries_map(indexed)),
            vanished_paths(indexed, paths_of(walk)),
        ) == paths_of(walk),
{
    lemma_plan_synchronizes(walk, indexed);
    lemma_entries_map_keys(walk);
    let m = entries_map(indexed);
    let stale = stale_entries(walk, m);
    let gone = vanished_paths(indexed, paths_of(walk));
    lemma_entries_map_keys(indexed);
    lemma_entries_map_keys(stale);
    assert(text_paths_after(text_paths, stale, gone) =~= after_plan(m, stale, gone).dom());
}


/// `name` is one of the '/'-separated segments of `path`.
pub open spec fn has_segment(path: Seq<char>, name: Seq<char>) -> bool {
    exists|i: int, j: int|
        0 <= i <= j <= path.len() && (i == 0 || path[i - 1] == '/') && (j == path.len() || path[j]
            == '/') && (forall|k: int| i <= k < j ==> path[k] != '/') && #[trigger] path.subrange(
            i,
            j,
        ) == name
}

/// The directories that are never indexed.
pub open spec fn excluded_names() -> Seq<Seq<char>> {
    seq![
        seq!['t', 'a', 'r', 'g', 'e', 't'],
        seq!['.', 'g', 'i', 't'],
        seq!['n', 'o', 'd', 'e', '_', 'm', 'o', 'd', 'u', 'l', 'e', 's'],
    ]
}

pub open spec fn is_excluded(path: Seq<char>) -> bool {
    exists|k: int| 0 <= k < 3 && has_segment(path, #[trigger] excluded_names()[k])
}

/// The segment `[start, end)` of `cs` is one of the excluded names.
fn segment_excluded(cs: &Vec<char>, start: usize, end: usize) -> (r: bool)
    requires
        start <= end <= cs.len(),
    ensures
        r == exists|n: int| 0 <= n < 3 && cs@.subrange(start as int, end as int) == #[trigger] excluded_names()[n],
{
    let names = [
        vec!['t', 'a', 'r', 'g', 'e', 't'],
        vec!['.', 'g', 'i', 't'],
        vec!['n', 'o', 'd', 'e', '_', 'm', 'o', 'd', 'u', 'l', 'e', 's'],
    ];
    assert(names[0]@ =~= excluded_names()[0]);
    assert(names[1]@ =~= excluded_names()[1]);
    assert(names[2]@ =~= excluded_names()[2]);
    let mut seg: Vec<char> = Vec::new();
    let mut k: usize = start;
    while k < end
        invariant
            start <= k <= end <= cs.len(),
            seg@ == cs@.subrange(start as int, k as int),
        decreases end - k,
    {
        seg.push(cs[k]);
        assert(seg@ =~= cs@.subrange(start as int, k + 1));
        k = k + 1;
    }
    let mut n: usize = 0;
    while n < 3
        invariant
            n <= 3,
            seg@ == cs@.subrange(start as int, end as int),
            forall|m: int| 0 <= m < 3 ==> #[trigger] names@[m]@ == excluded_names()[m],
            forall|m: int| 0 <= m < n ==> seg@ != #[trigger] excluded_names()[m],
        decreases 3 - n,
    {
        if same_chars(&seg, &names[n]) {
            assert(seg@ == excluded_names()[n as int]);
            return true;
        }
        n = n + 1;
    }
    false
}

/// A path lies in a build output, version control or dependency directory:
/// one of its segments is `target`, `.git` or `node_modules`.
pub fn is_excluded_path(path: &str) -> (r: bool)
    ensures
        r == is_excluded(path@),
{
    let cs = chars_of(path);
    let mut start: usize = 0;
    let mut i: usize = 0;
    while i < cs.len()
        invariant
            start <= i <= cs.len(),
            cs@ == path@,
            start == 0 || cs@[start - 1] == '/',
            forall|k: int| start <= k < i ==> cs@[k] != '/',
            forall|a: int, b: int, n: int|
                0 <= a <= b < i && (a == 0 || cs@[a - 1] == '/') && cs@[b] == '/' && (forall|
                    k: int,
                | a <= k < b ==> cs@[k] != '/') && 0 <= n < 3 ==> #[trigger] cs@.subrange(a, b)
                    != #[trigger] excluded_names()[n],
        decreases cs.len() - i,
    {
        if cs[i] == '/' {
            if segment_excluded(&cs, start, i) {
                proof {
                    let n = choose|n: int|
                        0 <= n < 3 && cs@.subrange(start as int, i as int)
                            == #[trigger] excluded_names()[n];
                    assert(path@.subrange(start as int, i as int) == excluded_names()[n]);
                }
                return true;
            }
            proof {
                assert forall|a: int, b: int, m: int|
                    0 <= a <= b < i + 1 && (a == 0 || cs@[a - 1] == '/') && cs@[b] == '/' && (
                    forall|k: int| a <= k < b ==> cs@[k] != '/') && 0 <= m < 3 implies #[trigger] cs@.subrange(
                    a,
                    b,
                ) != #[trigger] excluded_names()[m] by {
                    if b == i {
                        if a < start {
                            assert(cs@[start - 1] == '/');
                        } else if a > start {
                            assert(cs@[a - 1] != '/');
                        }
                    }
                }
            }
            start = i + 1;
        }
        i = i + 1;
    }
    if segment_excluded(&cs, start, cs.len()) {
        proof {
            let n = choose|n: int|
                0 <= n < 3 && cs@.subrange(start as int, cs.len() as int)
                    == #[trigger] excluded_names()[n];
            assert(path@.subrange(start as int, cs.len() as int) == excluded_names()[n]);
        }
        return true;
    }
    assert forall|k: int| 0 <= k < 3 implies !has_segment(path@, #[trigger] excluded_names()[k]) by {
        if has_segment(path@, excluded_names()[k]) {
            let (a, b) = choose|a: int, b: int|
                0 <= a <= b <= path@.len() && (a == 0 || path@[a - 1] == '/') && (b == path@.len()
                    || path@[b] == '/') && (forall|j: int| a <= j < b ==> path@[j] != '/')
                    && #[trigger] path@.subrange(a, b) == excluded_names()[k];
            if b == cs.len() {
                if a < start {
                    assert(cs@[start - 1] == '/');
                } else if a > start {
                    assert(cs@[a - 1] != '/');
                }
            }
        }
    }
    false
}

/// What a file system event is about.
#[derive(Debug, Clone, Copy, PartialEq, Eq, Structural)]
pub enum WatchEventKind {
    Create,
    Modify,
    Remove,
    Other,
}

/// An event leads to an update of its path when it creates, modifies or
/// removes a file outside the excluded directories.
pub fn event_needs_update(kind: WatchEventKind, path: &str) -> (r: bool)
    ensures
        r == (kind != WatchEventKind::Other && !is_excluded(path@)),
{
    match kind {
        WatchEventKind::Other => false,
        _ => !is_excluded_path(path),
    }
}

/// What to do with one file's rows after a change.
#[derive(Debug, Clone, Copy, PartialEq, Eq, Structural)]
pub enum FileUpdate {
    /// Delete the file's rows from both indexes.
    Delete,
    /// Chunk the file again and replace its rows.
    Replace,
    /// Leave the file's rows as they are.
    Keep,
}

/// A changed path is deleted from the indexes when it no longer exists or is
/// not an indexed kind of file, and chunked again otherwise.
pub fn update_for_path(exists: bool, indexed_kind: bool) -> (r: FileUpdate)
    ensures
        r == if exists && indexed_kind {
            FileUpdate::Replace
        } else {
            FileUpdate::Delete
        },
{
    if exists && indexed_kind {
        FileUpdate::Replace
    } else {
        FileUpdate::Delete
    }
}

/// Once a file is chunked: an unreadable file keeps its rows, a file with no
/// chunks is deleted, and the chunks of any other replace its rows.
pub fn update_for_chunks(chunk_count: Option<usize>) -> (r: FileUpdate)
    ensures
        r == match chunk_count {
            None => FileUpdate::Keep,
            Some(0) => FileUpdate::Delete,
            Some(_) => FileUpdate::Replace,
        },
{
    match chunk_count {
        None => FileUpdate::Keep,
        Some(0) => FileUpdate::Delete,
        Some(_) => FileUpdate::Replace,
    }
}

} // verus!
