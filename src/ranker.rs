//! Hybrid ranking: the chunks that the vector search found, boosted by the
//! rank of their file in the full-text search (reciprocal rank fusion) and by
//! a literal match of the query, then sorted, capped per file and truncated.
//!
//! Scores are whole millionths: a vector similarity in [0, 1] is a score in
//! [0, 1_000_000].

use vstd::prelude::*;
use crate::text::{chars_of, contains, contains_chars};

verus! {

/// A chunk returned by a search, with its score in millionths.
#[derive(Debug, Clone)]
pub struct SearchResult {
    pub file_path: String,
    pub chunk_index: usize,
    pub content: String,
    pub line_start: usize,
    pub line_end: usize,
    pub score: u64,
}

pub struct SearchResultView {
    pub file_path: Seq<char>,
    pub chunk_index: int,
    pub content: Seq<char>,
    pub line_start: int,
    pub line_end: int,
    pub score: int,
}

impl View for SearchResult {
    type V = SearchResultView;

    open spec fn view(&self) -> SearchResultView {
        SearchResultView {
            file_path: self.file_path@,
            chunk_index: self.chunk_index as int,
            content: self.content@,
            line_start: self.line_start as int,
            line_end: self.line_end as int,
            score: self.score as int,
        }
    }
}

pub open spec fn results_view(v: Seq<SearchResult>) -> Seq<SearchResultView> {
    v.map_values(|c: SearchResult| c@)
}

pub open spec fn strings_view(v: Seq<String>) -> Seq<Seq<char>> {
    v.map_values(|s: String| s@)
}

/// The constant `k` of reciprocal rank fusion.
pub const RRF_K: u64 = 60;

/// Ten times a reciprocal rank, in millionths: `10 * 1_000_000`.
pub const TEXT_BOOST_NUMERATOR: u64 = 10_000_000;

/// The bonus for a literal, case-insensitive match of the query: 0.1.
pub const MATCH_BOOST: u64 = 100_000;

/// Results must score above this to be kept: 0.01.
pub const MIN_SCORE: u64 = 10_000;

/// At most this many results come from one file.
pub const MAX_PER_FILE: usize = 3;

/// The highest similarity that a vector search reports: 1.
pub const FULL_SCORE: u64 = 1_000_000;

/// The position of the first `p` in `ts`, scanning from `i`.
pub open spec fn first_index_from(ts: Seq<Seq<char>>, p: Seq<char>, i: int) -> Option<int>
    decreases ts.len() - i,
{
    if i < 0 || i >= ts.len() {
        None
    } else if ts[i] == p {
        Some(i)
    } else {
        first_index_from(ts, p, i + 1)
    }
}

/// The rank of a path in the full-text results: its first position.
pub open spec fn text_rank(ts: Seq<Seq<char>>, p: Seq<char>) -> Option<int> {
    first_index_from(ts, p, 0)
}

/// What a full-text rank adds: `10 / (60 + rank)`, in millionths.
pub open spec fn text_boost(rank: Option<int>) -> int {
    match rank {
        Some(r) => TEXT_BOOST_NUMERATOR as int / (RRF_K as int + r),
        None => 0,
    }
}

pub open spec fn fused_score(c: SearchResultView, ts: Seq<Seq<char>>, matched: bool) -> int {
    c.score + text_boost(text_rank(ts, c.file_path)) + if matched {
        MATCH_BOOST as int
    } else {
        0
    }
}

pub open spec fn with_score(c: SearchResultView, score: int) -> SearchResultView {
    SearchResultView { score, ..c }
}

/// Each candidate with its fused score.
pub open spec fn fused(cs: Seq<SearchResultView>, ts: Seq<Seq<char>>, matched: Seq<bool>) -> Seq<
    SearchResultView,
> {
    Seq::new(cs.len(), |i: int| with_score(cs[i], fused_score(cs[i], ts, matched[i])))
}

/// The candidates that score above the threshold, in their order.
pub open spec fn above_threshold(cs: Seq<SearchResultView>) -> Seq<SearchResultView>
    decreases cs.len(),
{
    if cs.len() == 0 {
        seq![]
    } else if cs.last().score > MIN_SCORE as int {
        above_threshold(cs.drop_last()).push(cs.last())
    } else {
        above_threshold(cs.drop_last())
    }
}

/// Where `x` goes in `s`, which is sorted by falling score: after every
/// result that scores at least as high.
pub open spec fn insert_position(s: Seq<SearchResultView>, score: int, i: int) -> int
    decreases s.len() - i,
{
    if i >= s.len() {
        s.len() as int
    } else if s[i].score < score {
        i
    } else {
        insert_position(s, score, i + 1)
    }
}

pub open spec fn insert_by_score(s: Seq<SearchResultView>, x: SearchResultView) -> Seq<
    SearchResultView,
> {
    let p = insert_position(s, x.score, 0);
    s.subrange(0, p).push(x) + s.subrange(p, s.len() as int)
}

/// `cs` sorted by falling score; results with equal scores keep their order.
pub open spec fn sort_by_score(cs: Seq<SearchResultView>) -> Seq<SearchResultView>
    decreases cs.len(),
{
    if cs.len() == 0 {
        seq![]
    } else {
        insert_by_score(sort_by_score(cs.drop_last()), cs.last())
    }
}

/// How many results in `s` come from file `p`.
pub open spec fn path_count(s: Seq<SearchResultView>, p: Seq<char>) -> int
    decreases s.len(),
{
    if s.len() == 0 {
        0
    } else {
        path_count(s.drop_last(), p) + if s.last().file_path == p {
            1int
        } else {
            0int
        }
    }
}

/// Walking `cs` in order, the results kept: one is kept while fewer than
/// `limit` are kept and fewer than three of its file are.
pub open spec fn diverse(cs: Seq<SearchResultView>, limit: int) -> Seq<SearchResultView>
    decreases cs.len(),
{
    if cs.len() == 0 {
        seq![]
    } else {
        let prev = diverse(cs.drop_last(), limit);
        let c = cs.last();
        if prev.len() < limit && path_count(prev, c.file_path) < MAX_PER_FILE as int {
            prev.push(c)
        } else {
            prev
        }
    }
}

/// The ranked list: fused scores, threshold, sort, per-file cap, limit.
pub open spec fn ranked(cs: Seq<SearchResultView>, ts: Seq<Seq<char>>, matched: Seq<bool>, limit: int) -> Seq<
    SearchResultView,
> {
    diverse(sort_by_score(above_threshold(fused(cs, ts, matched))), limit)
}


impl SearchResult {
    /// The same result with another score.
    pub fn rescored(&self, score: u64) -> (r: SearchResult)
        ensures
            r@ == with_score(self@, score as int),
    {
        SearchResult {
            file_path: self.file_path.clone(),
            chunk_index: self.chunk_index,
            content: self.content.clone(),
            line_start: self.line_start,
            line_end: self.line_end,
            score,
        }
    }
}

/// The first position of `p` among the full-text result paths.
pub fn find_text_rank(ts: &Vec<String>, p: &String) -> (r: Option<usize>)
    ensures
        match r {
            Some(i) => text_rank(strings_view(ts@), p@) == Some(i as int),
            None => text_rank(strings_view(ts@), p@) is None,
        },
{
    let ghost tv = strings_view(ts@);
    let mut i: usize = 0;
    while i < ts.len()
        invariant
            i <= ts.len(),
            tv == strings_view(ts@),
            first_index_from(tv, p@, i as int) == text_rank(tv, p@),
        decreases ts.len() - i,
    {
        assert(tv[i as int] == ts@[i as int]@);
        if ts[i] == *p {
            return Some(i);
        }
        i = i + 1;
    }
    None
}

fn text_boost_of(rank: Option<usize>) -> (r: u64)
    ensures
        r as int == text_boost(
            match rank {
                Some(i) => Some(i as int),
                None => None,
            },
        ),
        r <= TEXT_BOOST_NUMERATOR / RRF_K,
{
    match rank {
        Some(i) => {
            if i as u64 > TEXT_BOOST_NUMERATOR || i > 20_000_000 {
                assert(TEXT_BOOST_NUMERATOR as int / (RRF_K as int + i) == 0) by (nonlinear_arith)
                    requires
                        i > TEXT_BOOST_NUMERATOR,
                ;
                0
            } else {
                let d: u64 = RRF_K + i as u64;
                assert(TEXT_BOOST_NUMERATOR as int / d as int <= TEXT_BOOST_NUMERATOR as int
                    / RRF_K as int) by (nonlinear_arith)
                    requires
                        d >= RRF_K,
                ;
                TEXT_BOOST_NUMERATOR / d
            }
        },
        None => 0,
    }
}

/// Every score is a similarity: at most `FULL_SCORE`.
pub open spec fn similarities(cs: Seq<SearchResult>) -> bool {
    forall|i: int| 0 <= i < cs.len() ==> (#[trigger] cs[i]).score <= FULL_SCORE
}

/// The candidates with their fused scores that score above the threshold.
fn fuse_and_filter(cands: &Vec<SearchResult>, ts: &Vec<String>, matched: &Vec<bool>) -> (r: Vec<
    SearchResult,
>)
    requires
        matched.len() == cands.len(),
        similarities(cands@),
    ensures
        results_view(r@) == above_threshold(
            fused(results_view(cands@), strings_view(ts@), matched@),
        ),
{
    let ghost all = fused(results_view(cands@), strings_view(ts@), matched@);
    let mut kept: Vec<SearchResult> = Vec::new();
    let mut i: usize = 0;
    while i < cands.len()
        invariant
            i <= cands.len() == matched.len(),
            similarities(cands@),
            all == fused(results_view(cands@), strings_view(ts@), matched@),
            results_view(kept@) == above_threshold(all.subrange(0, i as int)),
        decreases cands.len() - i,
    {
        let c = &cands[i];
        let rank = find_text_rank(ts, &c.file_path);
        let boost = text_boost_of(rank);
        let bonus: u64 = if matched[i] {
            MATCH_BOOST
        } else {
            0
        };
        let score = c.score + boost + bonus;
        proof {
            assert(all.subrange(0, i + 1).drop_last() =~= all.subrange(0, i as int));
            assert(all.subrange(0, i + 1).last() == all[i as int]);
            assert(results_view(cands@)[i as int] == cands@[i as int]@);
            assert(score as int == fused_score(
                cands@[i as int]@,
                strings_view(ts@),
                matched@[i as int],
            ));
        }
        if score > MIN_SCORE {
            let x = c.rescored(score);
            kept.push(x);
            assert(results_view(kept@) =~= results_view(kept@).drop_last().push(x@));
        }
        proof {
            assert(results_view(kept@) =~= above_threshold(all.subrange(0, i + 1)));
        }
        i = i + 1;
    }
    assert(all.subrange(0, cands.len() as int) =~= all);
    kept
}

/// `sorted` with `x` inserted after every result that scores at least as high.
fn insert_sorted(sorted: &mut Vec<SearchResult>, x: SearchResult)
    ensures
        results_view(final(sorted)@) == insert_by_score(results_view(old(sorted)@), x@),
{
    let ghost s = results_view(sorted@);
    let mut p: usize = 0;
    while p < sorted.len() && sorted[p].score >= x.score
        invariant
            p <= sorted.len(),
            s == results_view(sorted@),
            insert_position(s, x.score as int, p as int) == insert_position(
                s,
                x.score as int,
                0,
            ),
        decreases sorted.len() - p,
    {
        assert(s[p as int] == sorted@[p as int]@);
        p = p + 1;
    }
    proof {
        if p < sorted.len() {
            assert(s[p as int] == sorted@[p as int]@);
        }
    }
    let ghost xv = x@;
    sorted.insert(p, x);
    assert(results_view(sorted@) =~= s.subrange(0, p as int).push(xv) + s.subrange(
        p as int,
        s.len() as int,
    ));
}

/// Sorts by falling score; results with equal scores keep their order.
fn sort_results(cs: &Vec<SearchResult>) -> (r: Vec<SearchResult>)
    ensures
        results_view(r@) == sort_by_score(results_view(cs@)),
{
    let ghost v = results_view(cs@);
    let mut sorted: Vec<SearchResult> = Vec::new();
    let mut i: usize = 0;
    while i < cs.len()
        invariant
            i <= cs.len(),
            v == results_view(cs@),
            results_view(sorted@) == sort_by_score(v.subrange(0, i as int)),
        decreases cs.len() - i,
    {
        proof {
            assert(v.subrange(0, i + 1).drop_last() =~= v.subrange(0, i as int));
            assert(v.subrange(0, i + 1).last() == cs@[i as int]@);
        }
        insert_sorted(&mut sorted, cs[i].rescored(cs[i].score));
        assert(with_score(cs@[i as int]@, cs@[i as int].score as int) == cs@[i as int]@);
        i = i + 1;
    }
    assert(v.subrange(0, cs.len() as int) =~= v);
    sorted
}

fn count_path(kept: &Vec<SearchResult>, p: &String) -> (r: usize)
    ensures
        r as int == path_count(results_view(kept@), p@),
{
    let ghost v = results_view(kept@);
    let mut n: usize = 0;
    let mut i: usize = 0;
    while i < kept.len()
        invariant
            i <= kept.len(),
            n <= i,
            v == results_view(kept@),
            n as int == path_count(v.subrange(0, i as int), p@),
        decreases kept.len() - i,
    {
        assert(v.subrange(0, i + 1).drop_last() =~= v.subrange(0, i as int));
        assert(v.subrange(0, i + 1).last() == kept@[i as int]@);
        if kept[i].file_path == *p {
            n = n + 1;
        }
        i = i + 1;
    }
    assert(v.subrange(0, kept.len() as int) =~= v);
    n
}

/// Walks the sorted results and keeps at most three per file, up to `limit`.
fn cap_per_file(sorted: &Vec<SearchResult>, limit: usize) -> (r: Vec<SearchResult>)
    ensures
        results_view(r@) == diverse(results_view(sorted@), limit as int),
{
    let ghost v = results_view(sorted@);
    let mut kept: Vec<SearchResult> = Vec::new();
    let mut i: usize = 0;
    while i < sorted.len()
        invariant
            i <= sorted.len(),
            v == results_view(sorted@),
            results_view(kept@) == diverse(v.subrange(0, i as int), limit as int),
        decreases sorted.len() - i,
    {
        let c = &sorted[i];
        proof {
            assert(v.subrange(0, i + 1).drop_last() =~= v.subrange(0, i as int));
            assert(v.subrange(0, i + 1).last() == sorted@[i as int]@);
        }
        if kept.len() < limit && count_path(&kept, &c.file_path) < MAX_PER_FILE {
            let x = c.rescored(c.score);
            kept.push(x);
            assert(results_view(kept@) =~= results_view(kept@).drop_last().push(x@));
            assert(with_score(sorted@[i as int]@, sorted@[i as int].score as int)
                == sorted@[i as int]@);
        }
        i = i + 1;
    }
    assert(v.subrange(0, sorted.len() as int) =~= v);
    kept
}

/// Ranks the chunks that the vector search returned, given for each whether
/// it holds the query literally: each scores its similarity, plus
/// `10 / (60 + r)` where `r` is the first position of its file among the
/// full-text results, plus 0.1 when it matched. Those above 0.01 are sorted
/// by falling score (ties keep their order); walking them, at most three per
/// file are kept, and at most `limit`.
pub fn rank_with_matches(
    candidates: &Vec<SearchResult>,
    text_paths: &Vec<String>,
    matched: &Vec<bool>,
    limit: usize,
) -> (r: Vec<SearchResult>)
    requires
        matched.len() == candidates.len(),
        similarities(candidates@),
    ensures
        results_view(r@) == ranked(
            results_view(candidates@),
            strings_view(text_paths@),
            matched@,
            limit as int,
        ),
{
    let kept = fuse_and_filter(candidates, text_paths, matched);
    let sorted = sort_results(&kept);
    cap_per_file(&sorted, limit)
}


/// What `str::to_lowercase` makes of a text.
pub uninterp spec fn lower_of(s: Seq<char>) -> Seq<char>;

/// Relies on `str::to_lowercase`: the lowercase of a text depends on its
/// characters alone.
#[verifier::external_body]
fn lowercase(s: &str) -> (r: String)
    ensures
        r@ == lower_of(s@),
{
    s.to_lowercase()
}

/// For each candidate, whether its content holds the query, both lowercased.
pub open spec fn literal_matches(cs: Seq<SearchResultView>, query: Seq<char>) -> Seq<bool> {
    Seq::new(cs.len(), |i: int| contains(lower_of(cs[i].content), lower_of(query)))
}

/// Ranks the chunks that the vector search returned for `query` against the
/// files that the full-text search returned, in their order: see
/// `rank_with_matches`, where a chunk matches when its lowercased content
/// holds the lowercased query.
pub fn rank_candidates(
    candidates: &Vec<SearchResult>,
    text_paths: &Vec<String>,
    query: &str,
    limit: usize,
) -> (r: Vec<SearchResult>)
    requires
        similarities(candidates@),
    ensures
        results_view(r@) == ranked(
            results_view(candidates@),
            strings_view(text_paths@),
            literal_matches(results_view(candidates@), query@),
            limit as int,
        ),
{
    let q = lowercase(query);
    let qc = chars_of(q.as_str());
    let ghost cv = results_view(candidates@);
    let mut matched: Vec<bool> = Vec::new();
    let mut i: usize = 0;
    while i < candidates.len()
        invariant
            i <= candidates.len(),
            cv == results_view(candidates@),
            qc@ == lower_of(query@),
            matched@ == literal_matches(cv, query@).subrange(0, i as int),
        decreases candidates.len() - i,
    {
        let low = lowercase(candidates[i].content.as_str());
        let lc = chars_of(low.as_str());
        let m = contains_chars(&lc, &qc);
        assert(cv[i as int] == candidates@[i as int]@);
        matched.push(m);
        assert(matched@ =~= literal_matches(cv, query@).subrange(0, i + 1));
        i = i + 1;
    }
    assert(matched@ =~= literal_matches(cv, query@));
    rank_with_matches(candidates, text_paths, &matched, limit)
}

proof fn lemma_diverse_cap(cs: Seq<SearchResultView>, limit: int)
    requires
        0 <= limit,
    ensures
        diverse(cs, limit).len() <= limit,
        forall|p: Seq<char>| #[trigger] path_count(diverse(cs, limit), p) <= MAX_PER_FILE,
    decreases cs.len(),
{
    if cs.len() > 0 {
        let prev = diverse(cs.drop_last(), limit);
        lemma_diverse_cap(cs.drop_last(), limit);
        let c = cs.last();
        if prev.len() < limit && path_count(prev, c.file_path) < MAX_PER_FILE {
            assert forall|p: Seq<char>| #[trigger]
                path_count(prev.push(c), p) <= MAX_PER_FILE by {
                assert(prev.push(c).drop_last() =~= prev);
                assert(path_count(prev, p) <= MAX_PER_FILE);
                assert(path_count(prev.push(c), p) == path_count(prev, p) + if c.file_path == p {
                    1int
                } else {
                    0int
                });
            }
        }
    }
}

/// A ranked list holds at most `limit` results and at most three results
/// of any one file.
pub proof fn lemma_ranked_diversity(
    cs: Seq<SearchResultView>,
    ts: Seq<Seq<char>>,
    matched: Seq<bool>,
    limit: usize,
)
    ensures
        ranked(cs, ts, matched, limit as int).len() <= limit,
        forall|p: Seq<char>| #[trigger] path_count(ranked(cs, ts, matched, limit as int), p) <= 3,
{
    lemma_diverse_cap(sort_by_score(above_threshold(fused(cs, ts, matched))), limit as int);
}


/// Scores fall (or stay) along the list.
pub open spec fn sorted_by_falling_score(s: Seq<SearchResultView>) -> bool {
    forall|i: int, j: int| 0 <= i < j < s.len() ==> (#[trigger] s[i]).score >= (#[trigger] s[j]).score
}

proof fn lemma_insert_position(s: Seq<SearchResultView>, score: int, i: int)
    requires
        0 <= i <= s.len(),
    ensures
        i <= insert_position(s, score, i) <= s.len(),
        forall|k: int| i <= k < insert_position(s, score, i) ==> (#[trigger] s[k]).score >= score,
        insert_position(s, score, i) < s.len() ==> s[insert_position(s, score, i)].score < score,
    decreases s.len() - i,
{
    if i < s.len() && s[i].score >= score {
        lemma_insert_position(s, score, i + 1);
    }
}

proof fn lemma_insert_sorted(s: Seq<SearchResultView>, x: SearchResultView)
    requires
        sorted_by_falling_score(s),
    ensures
        sorted_by_falling_score(insert_by_score(s, x)),
        forall|e: SearchResultView| #[trigger]
            insert_by_score(s, x).contains(e) <==> s.contains(e) || e == x,
{
    let p = insert_position(s, x.score, 0);
    lemma_insert_position(s, x.score, 0);
    let r = insert_by_score(s, x);
    assert(r.len() == s.len() + 1);
    assert forall|k: int| 0 <= k < r.len() implies #[trigger] r[k] == if k < p {
        s[k]
    } else if k == p {
        x
    } else {
        s[k - 1]
    } by {}
    assert forall|i: int, j: int| 0 <= i < j < r.len() implies (#[trigger] r[i]).score >= (
    #[trigger] r[j]).score by {
        if j < p {
        } else if j == p {
        } else if i < p {
            assert(s[i].score >= s[j - 1].score);
        } else if i == p {
            if j - 1 > p {
                assert(s[p].score >= s[j - 1].score);
            }
        } else {
            assert(s[i - 1].score >= s[j - 1].score);
        }
    }
    assert forall|e: SearchResultView| #[trigger] r.contains(e) <==> s.contains(e) || e == x by {
        if r.contains(e) {
            let k = choose|k: int| 0 <= k < r.len() && r[k] == e;
            if k < p {
                assert(s[k] == e);
            } else if k > p {
                assert(s[k - 1] == e);
            }
        }
        if s.contains(e) {
            let k = choose|k: int| 0 <= k < s.len() && s[k] == e;
            if k < p {
                assert(r[k] == e);
            } else {
                assert(r[k + 1] == e);
            }
        }
        if e == x {
            assert(r[p] == e);
        }
    }
}

proof fn lemma_sort_sorted(cs: Seq<SearchResultView>)
    ensures
        sorted_by_falling_score(sort_by_score(cs)),
        forall|e: SearchResultView| #[trigger] sort_by_score(cs).contains(e) <==> cs.contains(e),
    decreases cs.len(),
{
    if cs.len() > 0 {
        let front = cs.drop_last();
        lemma_sort_sorted(front);
        lemma_insert_sorted(sort_by_score(front), cs.last());
        assert forall|e: SearchResultView| #[trigger]
            sort_by_score(cs).contains(e) <==> cs.contains(e) by {
            assert(sort_by_score(front).contains(e) <==> front.contains(e));
            if cs.contains(e) && e != cs.last() {
                let k = choose|k: int| 0 <= k < cs.len() && cs[k] == e;
                assert(front[k] == e);
            }
            if front.contains(e) {
                let k = choose|k: int| 0 <= k < front.len() && front[k] == e;
                assert(cs[k] == e);
            }
            if e == cs.last() {
                assert(cs[cs.len() - 1] == e);
            }
        }
    }
}

proof fn lemma_above_threshold(cs: Seq<SearchResultView>)
    ensures
        forall|e: SearchResultView| #[trigger]
            above_threshold(cs).contains(e) ==> cs.contains(e) && e.score > MIN_SCORE,
    decreases cs.len(),
{
    if cs.len() > 0 {
        let front = cs.drop_last();
        lemma_above_threshold(front);
        let prev = above_threshold(front);
        assert forall|e: SearchResultView| #[trigger]
            above_threshold(cs).contains(e) implies cs.contains(e) && e.score > MIN_SCORE by {
            if prev.contains(e) {
                let k = choose|k: int| 0 <= k < front.len() && front[k] == e;
                assert(cs[k] == e);
            } else {
                crate::indexer::lemma_push_contains(prev, cs.last(), e);
                assert(cs[cs.len() - 1] == e);
            }
        }
    }
}

proof fn lemma_diverse_sorted(cs: Seq<SearchResultView>, limit: int)
    requires
        sorted_by_falling_score(cs),
    ensures
        sorted_by_falling_score(diverse(cs, limit)),
        forall|e: SearchResultView| #[trigger] diverse(cs, limit).contains(e) ==> cs.contains(e),
    decreases cs.len(),
{
    if cs.len() > 0 {
        let front = cs.drop_last();
        assert(sorted_by_falling_score(front)) by {
            assert forall|i: int, j: int| 0 <= i < j < front.len() implies (#[trigger] front[i]).score
                >= (#[trigger] front[j]).score by {
                assert(front[i] == cs[i] && front[j] == cs[j]);
            }
        }
        lemma_diverse_sorted(front, limit);
        let prev = diverse(front, limit);
        let c = cs.last();
        assert forall|e: SearchResultView| #[trigger] diverse(cs, limit).contains(e) implies cs.contains(e) by {
            if prev.contains(e) {
                let k = choose|k: int| 0 <= k < front.len() && front[k] == e;
                assert(cs[k] == e);
            } else {
                crate::indexer::lemma_push_contains(prev, c, e);
                assert(cs[cs.len() - 1] == e);
            }
        }
        if prev.len() < limit && path_count(prev, c.file_path) < MAX_PER_FILE {
            let r = prev.push(c);
            assert forall|i: int, j: int| 0 <= i < j < r.len() implies (#[trigger] r[i]).score >= (
            #[trigger] r[j]).score by {
                if j == prev.len() {
                    assert(r[i] == prev[i]);
                    assert(prev.contains(prev[i]));
                    assert(front.contains(prev[i]));
                    let k = choose|k: int| 0 <= k < front.len() && front[k] == prev[i];
                    assert(cs[k] == front[k]);
                    assert(cs[k].score >= cs[cs.len() - 1].score);
                } else {
                    assert(r[i] == prev[i] && r[j] == prev[j]);
                }
            }
        }
    }
}

/// A ranked list is in falling score order, and each of its results scores
/// above the threshold.
pub proof fn lemma_ranked_sorted(
    cs: Seq<SearchResultView>,
    ts: Seq<Seq<char>>,
    matched: Seq<bool>,
    limit: usize,
)
    ensures
        sorted_by_falling_score(ranked(cs, ts, matched, limit as int)),
        forall|i: int|
            0 <= i < ranked(cs, ts, matched, limit as int).len() ==> (#[trigger] ranked(
                cs,
                ts,
                matched,
                limit as int,
            )[i]).score > MIN_SCORE,
{
    let kept = above_threshold(fused(cs, ts, matched));
    lemma_above_threshold(fused(cs, ts, matched));
    lemma_sort_sorted(kept);
    let sorted = sort_by_score(kept);
    lemma_diverse_sorted(sorted, limit as int);
    let r = ranked(cs, ts, matched, limit as int);
    assert forall|i: int| 0 <= i < r.len() implies (#[trigger] r[i]).score > MIN_SCORE by {
        assert(r.contains(r[i]));
        assert(sorted.contains(r[i]));
        assert(kept.contains(r[i]));
    }
}


/// A chunk that holds the query literally is ranked before one that does
/// not, when the other's similarity is less than 0.1 higher and both files
/// have the same full-text rank.
pub proof fn lemma_literal_match_ranks_higher(
    cs: Seq<SearchResultView>,
    ts: Seq<Seq<char>>,
    matched: Seq<bool>,
    limit: usize,
    a: int,
    b: int,
)
    requires
        matched.len() == cs.len(),
        0 <= a < cs.len(),
        0 <= b < cs.len(),
        matched[a],
        !matched[b],
        cs[b].score < cs[a].score + MATCH_BOOST,
        text_rank(ts, cs[a].file_path) == text_rank(ts, cs[b].file_path),
    ensures
        fused(cs, ts, matched)[a].score > fused(cs, ts, matched)[b].score,
        forall|i: int, j: int|
            0 <= i < ranked(cs, ts, matched, limit as int).len() && 0 <= j < ranked(
                cs,
                ts,
                matched,
                limit as int,
            ).len() && #[trigger] ranked(cs, ts, matched, limit as int)[i] == fused(
                cs,
                ts,
                matched,
            )[a] && #[trigger] ranked(cs, ts, matched, limit as int)[j] == fused(cs, ts, matched)[b]
                ==> i < j,
{
    lemma_ranked_sorted(cs, ts, matched, limit);
}

} // verus!
