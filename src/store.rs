//! The vector store's own rules: how a distance becomes a score, how deleted
//! paths are named to the table, how stored rows give the indexed files, and
//! how many rows a query fetches and embeds at a time.

use vstd::prelude::*;
use crate::indexer::{
    distinct_paths, entries_map, lemma_entries_map_keys, lemma_entries_map_value, paths_of,
};
use crate::ranker::{FULL_SCORE, strings_view};
use crate::scanner::{FileEntry, entries_view};
use crate::text::push_char;

verus! {

/// The score of a stored vector at L2 distance `distance` from the query,
/// both in millionths: `max(0, 1 - distance / 2)`, which is the cosine
/// similarity of unit vectors.
pub open spec fn similarity(distance: int) -> int {
    if distance / 2 >= FULL_SCORE {
        0
    } else {
        FULL_SCORE - distance / 2
    }
}

/// The score of a search hit from its distance; it lies in [0, 1].
pub fn similarity_from_distance(distance: u64) -> (r: u64)
    ensures
        r as int == similarity(distance as int),
        r <= FULL_SCORE,
{
    let half = distance / 2;
    if half >= FULL_SCORE {
        0
    } else {
        FULL_SCORE - half
    }
}

/// How many nearest neighbours a query fetches: `max(3 * limit, 50)`.
pub fn vector_fetch_limit(limit: usize) -> (r: usize)
    requires
        limit <= usize::MAX / 3,
    ensures
        r == if 3 * limit >= 50 {
            3 * limit
        } else {
            50
        },
{
    if 3 * limit >= 50 {
        3 * limit
    } else {
        50
    }
}

/// How many texts the embedder takes at a time.
pub const EMBED_BATCH: usize = 32;

/// The batches of `total` texts: ranges of 32, the last one shorter.
pub open spec fn batch_ranges(total: int) -> Seq<(int, int)> {
    Seq::new(
        ((total + 31) / 32) as nat,
        |k: int|
            (
                32 * k,
                if 32 * k + 32 <= total {
                    32 * k + 32
                } else {
                    total
                },
            ),
    )
}

pub fn embedding_batches(total: usize) -> (r: Vec<(usize, usize)>)
    ensures
        r@.map_values(|p: (usize, usize)| (p.0 as int, p.1 as int)) == batch_ranges(total as int),
{
    let n: usize = total / EMBED_BATCH + if total % EMBED_BATCH > 0 {
        1
    } else {
        0
    };
    let ghost all = batch_ranges(total as int);
    assert(all.len() == n);
    let mut r: Vec<(usize, usize)> = Vec::new();
    let mut k: usize = 0;
    while k < n
        invariant
            k <= n,
            n == all.len(),
            n == total / 32 + if total % 32 > 0 {
                1int
            } else {
                0int
            },
            all == batch_ranges(total as int),
            r.len() == k,
            r@.map_values(|p: (usize, usize)| (p.0 as int, p.1 as int)) == all.subrange(
                0,
                k as int,
            ),
        decreases n - k,
    {
        assert(32 * k <= total) by (nonlinear_arith)
            requires
                k < n,
                n == total / 32 + if total % 32 > 0 {
                    1int
                } else {
                    0int
                },
        ;
        let start = EMBED_BATCH * k;
        let end = if total - start > EMBED_BATCH {
            start + EMBED_BATCH
        } else {
            total
        };
        r.push((start, end));
        assert(r@.map_values(|p: (usize, usize)| (p.0 as int, p.1 as int)) =~= all.subrange(
            0,
            k + 1,
        ));
        k = k + 1;
    }
    assert(all.subrange(0, n as int) =~= all);
    r
}

/// The indexed files from the stored rows: one entry per path, with the
/// modification time of the last row of that path.
pub fn metadata_from_rows(rows: &Vec<FileEntry>) -> (r: Vec<FileEntry>)
    ensures
        entries_map(entries_view(r@)) == entries_map(entries_view(rows@)),
        distinct_paths(entries_view(r@)),
{
    let ghost rv = entries_view(rows@);
    let mut out: Vec<FileEntry> = Vec::new();
    let mut i: usize = 0;
    while i < rows.len()
        invariant
            i <= rows.len(),
            rv == entries_view(rows@),
            distinct_paths(entries_view(out@)),
            entries_map(entries_view(out@)) == entries_map(rv.subrange(0, i as int)),
        decreases rows.len() - i,
    {
        let row = &rows[i];
        assert(rv.subrange(0, i + 1).drop_last() =~= rv.subrange(0, i as int));
        assert(rv.subrange(0, i + 1).last() == row@);
        let ghost ov = entries_view(out@);
        let mut j: usize = 0;
        while j < out.len() && out[j].path != row.path
            invariant
                j <= out.len(),
                ov == entries_view(out@),
                forall|k: int| 0 <= k < j ==> (#[trigger] ov[k]).0 != row.path@,
            decreases out.len() - j,
        {
            assert(ov[j as int] == out@[j as int]@);
            j = j + 1;
        }
        let fresh = FileEntry { path: row.path.clone(), mtime: row.mtime };
        if j < out.len() {
            assert(ov[j as int] == out@[j as int]@);
            out.set(j, fresh);
            proof {
                lemma_replace_entry(ov, j as int, fresh@);
                assert(entries_view(out@) =~= ov.update(j as int, fresh@));
            }
        } else {
            out.push(fresh);
            proof {
                assert(entries_view(out@) =~= ov.push(fresh@));
                assert(ov.push(fresh@).drop_last() =~= ov);
                assert forall|a: int, b: int|
                    0 <= a < b < ov.push(fresh@).len() implies (#[trigger] ov.push(fresh@)[a]).0
                    != (#[trigger] ov.push(fresh@)[b]).0 by {
                    if b == ov.len() {
                        assert(ov.push(fresh@)[a] == ov[a]);
                    } else {
                        assert(ov.push(fresh@)[a] == ov[a] && ov.push(fresh@)[b] == ov[b]);
                    }
                }
            }
        }
        i = i + 1;
    }
    assert(rv.subrange(0, rows.len() as int) =~= rv);
    out
}

/// Giving an entry of a list with distinct paths a new modification time is
/// setting that path's time in the map.
proof fn lemma_replace_entry(es: Seq<(Seq<char>, u64)>, j: int, e: (Seq<char>, u64))
    requires
        distinct_paths(es),
        0 <= j < es.len(),
        es[j].0 == e.0,
    ensures
        distinct_paths(es.update(j, e)),
        entries_map(es.update(j, e)) =~= entries_map(es).insert(e.0, e.1),
{
    let us = es.update(j, e);
    assert forall|a: int, b: int| 0 <= a < b < us.len() implies (#[trigger] us[a]).0 != (
    #[trigger] us[b]).0 by {
        assert(es[a].0 != es[b].0);
    }
    lemma_entries_map_keys(es);
    lemma_entries_map_keys(us);
    assert forall|p: Seq<char>| paths_of(us).contains(p) <==> paths_of(es).contains(p) by {
        if paths_of(us).contains(p) {
            let k = choose|k: int| 0 <= k < us.len() && (#[trigger] us[k]).0 == p;
            assert(es[k].0 == p);
        }
        if paths_of(es).contains(p) {
            let k = choose|k: int| 0 <= k < es.len() && (#[trigger] es[k]).0 == p;
            assert(us[k].0 == p);
        }
    }
    assert forall|p: Seq<char>| #[trigger] entries_map(us).contains_key(p) implies entries_map(
        us,
    )[p] == entries_map(es).insert(e.0, e.1)[p] by {
        let k = choose|k: int| 0 <= k < us.len() && (#[trigger] us[k]).0 == p;
        lemma_entries_map_value(us, k);
        if k != j {
            lemma_entries_map_value(es, k);
            assert(us[k] == es[k]);
        }
    }
}

/// The text of the store's filter that selects the rows of the given paths:
/// `file_path IN ('a', 'b')`, each `'` inside a path doubled.
pub open spec fn quoted(p: Seq<char>) -> Seq<char>
    decreases p.len(),
{
    if p.len() == 0 {
        seq![]
    } else if p.last() == '\'' {
        quoted(p.drop_last()) + seq!['\'', '\'']
    } else {
        quoted(p.drop_last()).push(p.last())
    }
}

pub open spec fn quoted_list(ps: Seq<Seq<char>>) -> Seq<char>
    decreases ps.len(),
{
    if ps.len() == 0 {
        seq![]
    } else if ps.len() == 1 {
        seq!['\''] + quoted(ps[0]) + seq!['\'']
    } else {
        quoted_list(ps.drop_last()) + seq![',', ' ', '\''] + quoted(ps.last()) + seq!['\'']
    }
}

pub open spec fn filter_head() -> Seq<char> {
    seq!['f', 'i', 'l', 'e', '_', 'p', 'a', 't', 'h', ' ', 'I', 'N', ' ', '(']
}

pub open spec fn path_filter(ps: Seq<Seq<char>>) -> Seq<char> {
    filter_head() + quoted_list(ps) + seq![')']
}

fn push_quoted(s: &mut String, p: &str)
    ensures
        final(s)@ == old(s)@ + seq!['\''] + quoted(p@) + seq!['\''],
{
    let cs = crate::text::chars_of(p);
    push_char(s, '\'');
    let ghost base = s@;
    let mut i: usize = 0;
    while i < cs.len()
        invariant
            i <= cs.len(),
            cs@ == p@,
            s@ == base + quoted(cs@.subrange(0, i as int)),
        decreases cs.len() - i,
    {
        assert(cs@.subrange(0, i + 1).drop_last() =~= cs@.subrange(0, i as int));
        assert(cs@.subrange(0, i + 1).last() == cs@[i as int]);
        if cs[i] == '\'' {
            push_char(s, '\'');
            push_char(s, '\'');
        } else {
            push_char(s, cs[i]);
        }
        assert(s@ =~= base + quoted(cs@.subrange(0, i + 1)));
        i = i + 1;
    }
    assert(cs@.subrange(0, cs.len() as int) =~= cs@);
    push_char(s, '\'');
    assert(s@ =~= old(s)@ + seq!['\''] + quoted(p@) + seq!['\'']);
}

/// The filter that selects the rows of `paths`; `None` when there are none.
pub fn delete_filter(paths: &Vec<String>) -> (r: Option<String>)
    ensures
        paths.len() == 0 <==> r is None,
        r matches Some(f) ==> f@ == path_filter(strings_view(paths@)),
{
    if paths.len() == 0 {
        return None;
    }
    let ghost pv = strings_view(paths@);
    let mut s = String::new();
    let head = vec!['f', 'i', 'l', 'e', '_', 'p', 'a', 't', 'h', ' ', 'I', 'N', ' ', '('];
    let mut h: usize = 0;
    while h < head.len()
        invariant
            h <= head.len(),
            head@ == filter_head(),
            s@ == head@.subrange(0, h as int),
        decreases head.len() - h,
    {
        push_char(&mut s, head[h]);
        assert(s@ =~= head@.subrange(0, h + 1));
        h = h + 1;
    }
    assert(head@ =~= filter_head());
    assert(s@ =~= filter_head());
    let mut i: usize = 0;
    while i < paths.len()
        invariant
            i <= paths.len(),
            paths.len() > 0,
            pv == strings_view(paths@),
            s@ == filter_head() + quoted_list(pv.subrange(0, i as int)),
        decreases paths.len() - i,
    {
        let ghost before = s@;
        assert(pv.subrange(0, i + 1).drop_last() =~= pv.subrange(0, i as int));
        assert(pv.subrange(0, i + 1).last() == paths@[i as int]@);
        if i > 0 {
            push_char(&mut s, ',');
            push_char(&mut s, ' ');
        }
        push_quoted(&mut s, paths[i].as_str());
        proof {
            if i > 0 {
                assert(s@ =~= filter_head() + quoted_list(pv.subrange(0, i + 1)));
            } else {
                assert(pv.subrange(0, 1)[0] == paths@[0]@);
                assert(s@ =~= filter_head() + quoted_list(pv.subrange(0, i + 1)));
            }
        }
        i = i + 1;
    }
    push_char(&mut s, ')');
    assert(pv.subrange(0, paths.len() as int) =~= pv);
    Some(s)
}

} // verus!
