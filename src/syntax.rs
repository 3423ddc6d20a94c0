//! The syntax-aware chunker: definitions that a grammar's query captures
//! become chunks, each with the comment block right above it; a definition
//! longer than the line limit is cut further by the heuristic chunker.

use vstd::prelude::*;
use vstd::slice::slice_subrange;
use vstd::string::StringSliceAdditionalSpecFns;
use crate::chunker::{chunk_with_heuristic, heuristic_chunks};
use crate::scanner::{ChunkView, FileChunk, chunks_view};

verus! {

/// A node that a query captured: its byte range, its 0-based first and last
/// rows, and whether the capture is a comment.
#[derive(Debug, Clone, Copy)]
pub struct SyntaxSpan {
    pub start_byte: usize,
    pub end_byte: usize,
    pub start_row: usize,
    pub end_row: usize,
    pub is_comment: bool,
}

/// A run of comments: where it starts and the row it ends on.
#[derive(Debug, Clone, Copy)]
pub struct CommentRun {
    pub start_row: usize,
    pub start_byte: usize,
    pub end_row: usize,
}

/// A definition, with its leading comments if any.
#[derive(Debug, Clone, Copy)]
pub struct Region {
    pub start_row: usize,
    pub end_row: usize,
    pub start_byte: usize,
    pub end_byte: usize,
}

/// Where `x` goes in `s`, which is sorted by start byte: after every span
/// that starts no later.
pub open spec fn span_insert_position(s: Seq<SyntaxSpan>, start: int, i: int) -> int
    decreases s.len() - i,
{
    if i >= s.len() {
        s.len() as int
    } else if s[i].start_byte > start {
        i
    } else {
        span_insert_position(s, start, i + 1)
    }
}

pub open spec fn insert_by_start(s: Seq<SyntaxSpan>, x: SyntaxSpan) -> Seq<SyntaxSpan> {
    let p = span_insert_position(s, x.start_byte as int, 0);
    s.subrange(0, p).push(x) + s.subrange(p, s.len() as int)
}

/// The spans sorted by start byte; spans that start together keep their order.
pub open spec fn sort_by_start(s: Seq<SyntaxSpan>) -> Seq<SyntaxSpan>
    decreases s.len(),
{
    if s.len() == 0 {
        seq![]
    } else {
        insert_by_start(sort_by_start(s.drop_last()), s.last())
    }
}

/// A span that starts on the row after the run ends, or earlier, follows it.
pub open spec fn follows_run(run: Option<CommentRun>, row: int) -> bool {
    match run {
        Some(c) => row <= c.end_row + 1,
        None => false,
    }
}

/// The comment run after a comment: the current one grown, or a new one.
pub open spec fn extend_run(run: Option<CommentRun>, sp: SyntaxSpan) -> CommentRun {
    if follows_run(run, sp.start_row as int) {
        CommentRun { start_row: run->0.start_row, start_byte: run->0.start_byte, end_row: sp.end_row }
    } else {
        CommentRun { start_row: sp.start_row, start_byte: sp.start_byte, end_row: sp.end_row }
    }
}

/// The region of a definition: it starts at the comment run that it follows.
pub open spec fn region_of(run: Option<CommentRun>, sp: SyntaxSpan) -> Region {
    if follows_run(run, sp.start_row as int) {
        Region {
            start_row: run->0.start_row,
            end_row: sp.end_row,
            start_byte: run->0.start_byte,
            end_byte: sp.end_byte,
        }
    } else {
        Region {
            start_row: sp.start_row,
            end_row: sp.end_row,
            start_byte: sp.start_byte,
            end_byte: sp.end_byte,
        }
    }
}

/// Walking the first `k` spans: the open comment run and the regions so far.
/// A definition ends the run.
pub open spec fn merge_upto(spans: Seq<SyntaxSpan>, k: int) -> (Option<CommentRun>, Seq<Region>)
    decreases k,
{
    if k <= 0 {
        (None, seq![])
    } else {
        let (run, out) = merge_upto(spans, k - 1);
        let sp = spans[k - 1];
        if sp.is_comment {
            (Some(extend_run(run, sp)), out)
        } else {
            (None, out.push(region_of(run, sp)))
        }
    }
}

pub open spec fn same_range(a: Region, b: Region) -> bool {
    a.start_byte == b.start_byte && a.end_byte == b.end_byte
}

/// Some region of `rs` has the byte range of `r`.
pub open spec fn range_seen(rs: Seq<Region>, r: Region) -> bool {
    exists|k: int| 0 <= k < rs.len() && same_range(#[trigger] rs[k], r)
}

/// The regions without repeats: a region with the byte range of an earlier
/// one is dropped.
pub open spec fn dedup_regions(rs: Seq<Region>) -> Seq<Region>
    decreases rs.len(),
{
    if rs.len() == 0 {
        seq![]
    } else {
        let prev = dedup_regions(rs.drop_last());
        if range_seen(prev, rs.last()) {
            prev
        } else {
            prev.push(rs.last())
        }
    }
}

/// The regions of a file's spans, in order.
pub open spec fn regions_of(spans: Seq<SyntaxSpan>) -> Seq<Region> {
    dedup_regions(merge_upto(sort_by_start(spans), sort_by_start(spans).len() as int).1)
}

/// What `String::from_utf8_lossy` makes of a byte string.
pub uninterp spec fn lossy_utf8(b: Seq<u8>) -> Seq<char>;

/// Relies on `String::from_utf8_lossy`: the text depends on the bytes alone.
#[verifier::external_body]
fn decode_lossy(b: &[u8]) -> (r: String)
    ensures
        r@ == lossy_utf8(b@),
{
    String::from_utf8_lossy(b).into_owned()
}

/// Sub-chunks moved down by `offset` lines and numbered from `first`; one
/// whose moved line numbers would not fit a `usize` is left out.
pub open spec fn rebased(cs: Seq<ChunkView>, offset: int, first: int) -> Seq<ChunkView>
    decreases cs.len(),
{
    if cs.len() == 0 {
        seq![]
    } else {
        let prev = rebased(cs.drop_last(), offset, first);
        let c = cs.last();
        if c.line_end + offset <= usize::MAX {
            prev.push(
                ChunkView {
                    chunk_index: first + prev.len(),
                    line_start: c.line_start + offset,
                    line_end: c.line_end + offset,
                    ..c
                },
            )
        } else {
            prev
        }
    }
}

/// A region can be cut out: its rows are ordered and fit line numbers, and
/// its bytes are ordered and inside the text.
pub open spec fn region_usable(bytes: Seq<u8>, r: Region) -> bool {
    r.start_row <= r.end_row && r.end_row < usize::MAX && r.start_byte <= r.end_byte
        && r.end_byte <= bytes.len()
}

/// The chunks of one region, numbered from `first`: the region as one chunk,
/// or, when it spans more than `max` lines, the heuristic chunks of its text
/// moved to its first line.
pub open spec fn region_chunks(
    bytes: Seq<u8>,
    r: Region,
    path: Seq<char>,
    mtime: u64,
    max: int,
    first: int,
) -> Seq<ChunkView> {
    if !region_usable(bytes, r) {
        seq![]
    } else {
        let text = lossy_utf8(bytes.subrange(r.start_byte as int, r.end_byte as int));
        let start_line = r.start_row + 1;
        let end_line = r.end_row + 1;
        if end_line - start_line + 1 > max {
            rebased(heuristic_chunks(text, path, mtime, max), start_line - 1, first)
        } else {
            seq![
                ChunkView {
                    file_path: path,
                    chunk_index: first,
                    content: text,
                    line_start: start_line,
                    line_end: end_line,
                    mtime,
                },
            ]
        }
    }
}

/// The chunks of the first `k` regions.
pub open spec fn regions_chunks_upto(
    bytes: Seq<u8>,
    rs: Seq<Region>,
    k: int,
    path: Seq<char>,
    mtime: u64,
    max: int,
) -> Seq<ChunkView>
    decreases k,
{
    if k <= 0 {
        seq![]
    } else {
        let prev = regions_chunks_upto(bytes, rs, k - 1, path, mtime, max);
        prev + region_chunks(bytes, rs[k - 1], path, mtime, max, prev.len() as int)
    }
}

/// The syntax-aware chunks of a text, given the spans its query captured.
pub open spec fn syntax_chunks(
    bytes: Seq<u8>,
    spans: Seq<SyntaxSpan>,
    path: Seq<char>,
    mtime: u64,
    max: int,
) -> Seq<ChunkView> {
    let rs = regions_of(spans);
    regions_chunks_upto(bytes, rs, rs.len() as int, path, mtime, max)
}


fn sort_spans(spans: &Vec<SyntaxSpan>) -> (r: Vec<SyntaxSpan>)
    ensures
        r@ == sort_by_start(spans@),
{
    let mut sorted: Vec<SyntaxSpan> = Vec::new();
    let mut i: usize = 0;
    while i < spans.len()
        invariant
            i <= spans.len(),
            sorted@ == sort_by_start(spans@.subrange(0, i as int)),
        decreases spans.len() - i,
    {
        let x = spans[i];
        proof {
            assert(spans@.subrange(0, i + 1).drop_last() =~= spans@.subrange(0, i as int));
            assert(spans@.subrange(0, i + 1).last() == x);
        }
        let ghost s = sorted@;
        let mut p: usize = 0;
        while p < sorted.len() && sorted[p].start_byte <= x.start_byte
            invariant
                p <= sorted.len(),
                s == sorted@,
                span_insert_position(s, x.start_byte as int, p as int) == span_insert_position(
                    s,
                    x.start_byte as int,
                    0,
                ),
            decreases sorted.len() - p,
        {
            p = p + 1;
        }
        sorted.insert(p, x);
        assert(sorted@ =~= s.subrange(0, p as int).push(x) + s.subrange(p as int, s.len() as int));
        i = i + 1;
    }
    assert(spans@.subrange(0, spans.len() as int) =~= spans@);
    sorted
}

fn follows(run: Option<CommentRun>, row: usize) -> (r: bool)
    ensures
        r == follows_run(run, row as int),
{
    match run {
        Some(c) => c.end_row >= row || c.end_row + 1 == row,
        None => false,
    }
}

fn merge_regions(spans: &Vec<SyntaxSpan>) -> (r: Vec<Region>)
    ensures
        r@ == merge_upto(spans@, spans.len() as int).1,
{
    let mut out: Vec<Region> = Vec::new();
    let mut run: Option<CommentRun> = None;
    let mut i: usize = 0;
    while i < spans.len()
        invariant
            i <= spans.len(),
            (run, out@) == merge_upto(spans@, i as int),
        decreases spans.len() - i,
    {
        let sp = spans[i];
        let f = follows(run, sp.start_row);
        if sp.is_comment {
            run = Some(
                if f {
                    CommentRun {
                        start_row: run.unwrap().start_row,
                        start_byte: run.unwrap().start_byte,
                        end_row: sp.end_row,
                    }
                } else {
                    CommentRun { start_row: sp.start_row, start_byte: sp.start_byte, end_row: sp.end_row }
                },
            );
        } else {
            let region = if f {
                Region {
                    start_row: run.unwrap().start_row,
                    end_row: sp.end_row,
                    start_byte: run.unwrap().start_byte,
                    end_byte: sp.end_byte,
                }
            } else {
                Region {
                    start_row: sp.start_row,
                    end_row: sp.end_row,
                    start_byte: sp.start_byte,
                    end_byte: sp.end_byte,
                }
            };
            out.push(region);
            run = None;
        }
        i = i + 1;
    }
    out
}

fn dedup(rs: &Vec<Region>) -> (r: Vec<Region>)
    ensures
        r@ == dedup_regions(rs@),
{
    let mut out: Vec<Region> = Vec::new();
    let mut i: usize = 0;
    while i < rs.len()
        invariant
            i <= rs.len(),
            out@ == dedup_regions(rs@.subrange(0, i as int)),
        decreases rs.len() - i,
    {
        let x = rs[i];
        proof {
            assert(rs@.subrange(0, i + 1).drop_last() =~= rs@.subrange(0, i as int));
            assert(rs@.subrange(0, i + 1).last() == x);
        }
        let mut k: usize = 0;
        while k < out.len() && !(out[k].start_byte == x.start_byte && out[k].end_byte == x.end_byte)
            invariant
                k <= out.len(),
                forall|m: int| 0 <= m < k ==> !same_range(#[trigger] out@[m], x),
            decreases out.len() - k,
        {
            k = k + 1;
        }
        if k == out.len() {
            out.push(x);
        }
        i = i + 1;
    }
    assert(rs@.subrange(0, rs.len() as int) =~= rs@);
    out
}

impl FileChunk {
    /// The same chunk moved down by `offset` lines, with another index.
    pub fn moved(&self, offset: usize, index: usize) -> (r: FileChunk)
        requires
            self.line_end + offset <= usize::MAX,
            self.line_start <= self.line_end,
        ensures
            r@ == (ChunkView {
                chunk_index: index as int,
                line_start: self.line_start + offset,
                line_end: self.line_end + offset,
                ..self@
            }),
    {
        FileChunk {
            file_path: self.file_path.clone(),
            chunk_index: index,
            content: self.content.clone(),
            line_start: self.line_start + offset,
            line_end: self.line_end + offset,
            mtime: self.mtime,
        }
    }
}

/// Appends the chunks of one region to `out`.
fn push_region_chunks(
    out: &mut Vec<FileChunk>,
    bytes: &[u8],
    r: Region,
    relative_path: &str,
    mtime: u64,
    max_lines: usize,
)
    ensures
        chunks_view(final(out)@) == chunks_view(old(out)@) + region_chunks(
            bytes@,
            r,
            relative_path@,
            mtime,
            max_lines as int,
            old(out)@.len() as int,
        ),
{
    let ghost before = chunks_view(out@);
    let ghost first = out@.len() as int;
    assert(before.len() == first);
    if !(r.start_row <= r.end_row && r.end_row < usize::MAX && r.start_byte <= r.end_byte
        && r.end_byte <= bytes.len()) {
        assert(chunks_view(out@) =~= before + seq![]);
        return ;
    }
    let text = decode_lossy(slice_subrange(bytes, r.start_byte, r.end_byte));
    let start_line = r.start_row + 1;
    let end_line = r.end_row + 1;
    if end_line - start_line + 1 > max_lines {
        let subs = chunk_with_heuristic(text.as_str(), relative_path, mtime, max_lines);
        proof {
            crate::chunker::lemma_heuristic_chunk_lines(text@, relative_path@, mtime, max_lines);
        }
        let ghost hv = chunks_view(subs@);
        let offset = start_line - 1;
        let mut k: usize = 0;
        while k < subs.len()
            invariant
                k <= subs.len(),
                hv == chunks_view(subs@),
                hv == heuristic_chunks(text@, relative_path@, mtime, max_lines as int),
                forall|c: int|
                    0 <= c < hv.len() ==> 1 <= (#[trigger] hv[c]).line_start <= hv[c].line_end,
                first == old(out)@.len(),
                before.len() == first,
                chunks_view(out@).len() == out@.len(),
                chunks_view(out@) == before + rebased(hv.subrange(0, k as int), offset as int, first),
            decreases subs.len() - k,
        {
            proof {
                assert(hv.subrange(0, k + 1).drop_last() =~= hv.subrange(0, k as int));
                assert(hv.subrange(0, k + 1).last() == subs@[k as int]@);
                assert(hv[k as int] == subs@[k as int]@);
            }
            let ghost prev = rebased(hv.subrange(0, k as int), offset as int, first);
            let ghost c = hv[k as int];
            assert(rebased(hv.subrange(0, k + 1), offset as int, first) == if c.line_end + offset
                <= usize::MAX {
                prev.push(
                    ChunkView {
                        chunk_index: first + prev.len(),
                        line_start: c.line_start + offset,
                        line_end: c.line_end + offset,
                        ..c
                    },
                )
            } else {
                prev
            });
            let sub = &subs[k];
            if sub.line_end <= usize::MAX - offset {
                let idx = out.len();
                assert(idx == first + prev.len());
                let m = sub.moved(offset, idx);
                out.push(m);
                assert(chunks_view(out@) =~= chunks_view(out@).drop_last().push(m@));
                assert(chunks_view(out@).drop_last() =~= before + prev);
            }
            assert(chunks_view(out@) =~= before + rebased(
                hv.subrange(0, k + 1),
                offset as int,
                first,
            ));
            k = k + 1;
        }
        assert(hv.subrange(0, subs.len() as int) =~= hv);
    } else {
        let idx = out.len();
        let c = FileChunk {
            file_path: relative_path.to_owned(),
            chunk_index: idx,
            content: text,
            line_start: start_line,
            line_end: end_line,
            mtime,
        };
        out.push(c);
        assert(chunks_view(out@) =~= before + region_chunks(
            bytes@,
            r,
            relative_path@,
            mtime,
            max_lines as int,
            first,
        ));
    }
}

/// Cuts a text into chunks from the spans that a syntax query captured on
/// it. The spans are sorted by start byte; a definition takes in the run of
/// comments that ends on the row before it or later (each comment of a run
/// starts at most one row after the previous one ends), and a region with
/// the byte range of an earlier one is dropped. Each remaining region
/// is one chunk of its bytes, or, when it spans more than `max_lines` lines,
/// the heuristic chunks of its text moved to its first line. A region with
/// unordered rows or bytes, or bytes past the text, gives nothing. Chunks are
/// numbered from 0 and their line numbers are 1-based and inclusive.
pub fn chunk_from_captures(
    content: &str,
    spans: &Vec<SyntaxSpan>,
    relative_path: &str,
    mtime: u64,
    max_lines: usize,
) -> (r: Vec<FileChunk>)
    ensures
        chunks_view(r@) == syntax_chunks(
            content.spec_bytes(),
            spans@,
            relative_path@,
            mtime,
            max_lines as int,
        ),
{
    let bytes = content.as_bytes();
    let sorted = sort_spans(spans);
    let merged = merge_regions(&sorted);
    let regions = dedup(&merged);
    let ghost rs = regions@;
    let mut out: Vec<FileChunk> = Vec::new();
    let mut i: usize = 0;
    while i < regions.len()
        invariant
            i <= regions.len(),
            rs == regions@,
            rs == regions_of(spans@),
            bytes@ == content.spec_bytes(),
            chunks_view(out@) == regions_chunks_upto(
                bytes@,
                rs,
                i as int,
                relative_path@,
                mtime,
                max_lines as int,
            ),
        decreases regions.len() - i,
    {
        push_region_chunks(&mut out, bytes, regions[i], relative_path, mtime, max_lines);
        i = i + 1;
    }
    out
}


/// Every chunk has 1-based line numbers with `line_start <= line_end`.
pub open spec fn lines_ordered(cs: Seq<ChunkView>) -> bool {
    forall|c: int| 0 <= c < cs.len() ==> 1 <= (#[trigger] cs[c]).line_start <= cs[c].line_end
}

proof fn lemma_rebased_ordered(cs: Seq<ChunkView>, offset: int, first: int)
    requires
        lines_ordered(cs),
        0 <= offset,
    ensures
        lines_ordered(rebased(cs, offset, first)),
    decreases cs.len(),
{
    if cs.len() > 0 {
        let front = cs.drop_last();
        assert(lines_ordered(front)) by {
            assert forall|c: int| 0 <= c < front.len() implies 1 <= (#[trigger] front[c]).line_start
                <= front[c].line_end by {
                assert(front[c] == cs[c]);
            }
        }
        lemma_rebased_ordered(front, offset, first);
        let prev = rebased(front, offset, first);
        assert(cs.last() == cs[cs.len() - 1]);
        let r = rebased(cs, offset, first);
        assert forall|c: int| 0 <= c < r.len() implies 1 <= (#[trigger] r[c]).line_start
            <= r[c].line_end by {
            if c < prev.len() {
                assert(r[c] == prev[c]);
            }
        }
    }
}

proof fn lemma_regions_chunks_ordered(
    bytes: Seq<u8>,
    rs: Seq<Region>,
    k: int,
    path: Seq<char>,
    mtime: u64,
    max: int,
)
    requires
        0 <= max,
    ensures
        lines_ordered(regions_chunks_upto(bytes, rs, k, path, mtime, max)),
    decreases k,
{
    if k > 0 {
        lemma_regions_chunks_ordered(bytes, rs, k - 1, path, mtime, max);
        let prev = regions_chunks_upto(bytes, rs, k - 1, path, mtime, max);
        let r = rs[k - 1];
        let here = region_chunks(bytes, r, path, mtime, max, prev.len() as int);
        if region_usable(bytes, r) {
            let text = lossy_utf8(bytes.subrange(r.start_byte as int, r.end_byte as int));
            if r.end_row + 1 - (r.start_row + 1) + 1 > max {
                crate::chunker::lemma_heuristic_chunk_lines(text, path, mtime, max as usize);
                let h = heuristic_chunks(text, path, mtime, max);
                assert(lines_ordered(h)) by {
                    assert forall|c: int| 0 <= c < h.len() implies 1 <= (#[trigger] h[c]).line_start
                        <= h[c].line_end by {
                        assert(1 <= h[c].line_start <= h[c].line_end);
                    }
                }
                lemma_rebased_ordered(h, r.start_row as int, prev.len() as int);
            }
        }
        let all = prev + here;
        assert forall|c: int| 0 <= c < all.len() implies 1 <= (#[trigger] all[c]).line_start
            <= all[c].line_end by {
            if c < prev.len() {
                assert(all[c] == prev[c]);
            } else {
                assert(all[c] == here[c - prev.len()]);
            }
        }
    }
}

/// Every syntax-aware chunk has 1-based line numbers with `line_start <=
/// line_end`, whatever the parser captured.
pub proof fn lemma_syntax_chunk_lines(
    bytes: Seq<u8>,
    spans: Seq<SyntaxSpan>,
    path: Seq<char>,
    mtime: u64,
    max_lines: usize,
)
    ensures
        lines_ordered(syntax_chunks(bytes, spans, path, mtime, max_lines as int)),
{
    let rs = regions_of(spans);
    lemma_regions_chunks_ordered(bytes, rs, rs.len() as int, path, mtime, max_lines as int);
}

} // verus!
