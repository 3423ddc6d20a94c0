//! Cutting a file into chunks: a sliding window over lines that prefers to
//! break where a definition starts, and a syntax-aware chunker built on it.

use vstd::prelude::*;
use crate::scanner::{ChunkView, FileChunk, chunks_view};
use crate::text::{
    lemma_line_count, lemma_newlines_concat, lemma_no_newlines, newlines_from,
    has_prefix_at, lemma_blank_push, lemma_line_spans_bounds, starts_with,
    chars_of, char_is_whitespace, is_blank, is_ws, line_spans, line_spans_of, line_spans_scan,
    lines_of,
    push_char, spans_view,
};

verus! {

/// A window never ends before this many lines, unless the text ends first.
pub const MIN_CHUNK_LINES: usize = 10;

/// The line limit of a chunk when the caller gives none.
pub const DEFAULT_MAX_LINES: usize = 60;

/// The line openings that mark the start of a definition, in any language.
pub open spec fn definition_prefixes() -> Seq<Seq<char>> {
    seq![
        seq!['f', 'n', ' '],
        seq!['p', 'u', 'b', ' ', 'f', 'n', ' '],
        seq!['a', 's', 'y', 'n', 'c', ' ', 'f', 'n', ' '],
        seq!['p', 'u', 'b', ' ', 'a', 's', 'y', 'n', 'c', ' ', 'f', 'n', ' '],
        seq!['i', 'm', 'p', 'l', ' '],
        seq!['s', 't', 'r', 'u', 'c', 't', ' '],
        seq!['e', 'n', 'u', 'm', ' '],
        seq!['m', 'o', 'd', ' '],
        seq!['t', 'y', 'p', 'e', ' '],
        seq!['t', 'r', 'a', 'i', 't', ' '],
        seq!['c', 'l', 'a', 's', 's', ' '],
        seq!['d', 'e', 'f', ' '],
        seq!['f', 'u', 'n', 'c', ' '],
    ]
}

fn definition_prefix(k: usize) -> (r: Vec<char>)
    requires
        k < 13,
    ensures
        r@ == definition_prefixes()[k as int],
{
    let r = match k {
        0 => vec!['f', 'n', ' '],
        1 => vec!['p', 'u', 'b', ' ', 'f', 'n', ' '],
        2 => vec!['a', 's', 'y', 'n', 'c', ' ', 'f', 'n', ' '],
        3 => vec!['p', 'u', 'b', ' ', 'a', 's', 'y', 'n', 'c', ' ', 'f', 'n', ' '],
        4 => vec!['i', 'm', 'p', 'l', ' '],
        5 => vec!['s', 't', 'r', 'u', 'c', 't', ' '],
        6 => vec!['e', 'n', 'u', 'm', ' '],
        7 => vec!['m', 'o', 'd', ' '],
        8 => vec!['t', 'y', 'p', 'e', ' '],
        9 => vec!['t', 'r', 'a', 'i', 't', ' '],
        10 => vec!['c', 'l', 'a', 's', 's', ' '],
        11 => vec!['d', 'e', 'f', ' '],
        _ => vec!['f', 'u', 'n', 'c', ' '],
    };
    assert(r@ =~= definition_prefixes()[k as int]);
    r
}


/// Position of the first character at or after `i` that is not white space.
pub open spec fn skip_ws(s: Seq<char>, i: int) -> int
    decreases s.len() - i,
{
    if i >= s.len() {
        s.len() as int
    } else if is_ws(s[i]) {
        skip_ws(s, i + 1)
    } else {
        i
    }
}

/// `s` without its leading white space (`str::trim_start`).
pub open spec fn trim_start(s: Seq<char>) -> Seq<char> {
    s.subrange(skip_ws(s, 0), s.len() as int)
}

/// A line whose text, past its indentation, opens with a definition keyword.
pub open spec fn is_definition_line(line: Seq<char>) -> bool {
    exists|k: int| 0 <= k < 13 && starts_with(trim_start(line), #[trigger] definition_prefixes()[k])
}

/// Whether the line at character range `[a, b)` of `cs` opens a definition.
fn is_definition_at(cs: &Vec<char>, a: usize, b: usize) -> (r: bool)
    requires
        a <= b <= cs.len(),
    ensures
        r == is_definition_line(cs@.subrange(a as int, b as int)),
{
    let ghost line = cs@.subrange(a as int, b as int);
    let mut p: usize = a;
    while p < b && char_is_whitespace(cs[p])
        invariant
            a <= p <= b <= cs.len(),
            line == cs@.subrange(a as int, b as int),
            skip_ws(line, p - a) == skip_ws(line, 0),
        decreases b - p,
    {
        p = p + 1;
    }
    assert(skip_ws(line, p - a) == p - a);
    assert(trim_start(line) =~= cs@.subrange(p as int, b as int));
    let mut found = false;
    let mut k: usize = 0;
    while k < 13
        invariant
            a <= p <= b <= cs.len(),
            k <= 13,
            trim_start(line) == cs@.subrange(p as int, b as int),
            found == exists|i: int|
                0 <= i < k && starts_with(trim_start(line), #[trigger] definition_prefixes()[i]),
        decreases 13 - k,
    {
        let pat = definition_prefix(k);
        let m = has_prefix_at(cs, p, b, &pat);
        found = found || m;
        k = k + 1;
    }
    found
}

/// Scanning from line `e`, where the window that starts at line `start`
/// ends (exclusive): at the end of the text, when it holds `max` lines, or at
/// a definition once it holds at least the minimum.
pub open spec fn scan_window_end(lines: Seq<Seq<char>>, start: int, e: int, max: int) -> int
    decreases lines.len() - e,
{
    if e >= lines.len() {
        e
    } else if e - start >= max {
        e
    } else if e - start >= MIN_CHUNK_LINES && is_definition_line(lines[e]) {
        e
    } else {
        scan_window_end(lines, start, e + 1, max)
    }
}

pub open spec fn window_end(lines: Seq<Seq<char>>, start: int, max: int) -> int {
    let first = if lines.len() - start > MIN_CHUNK_LINES {
        start + MIN_CHUNK_LINES
    } else {
        lines.len() as int
    };
    scan_window_end(lines, start, first, max)
}

/// The window was cut by its size limit rather than by a definition.
pub open spec fn hits_limit(lines: Seq<Seq<char>>, start: int, max: int) -> bool {
    window_end(lines, start, max) < lines.len() && window_end(lines, start, max) - start >= max
}

/// How many lines a window cut by its size limit shares with the next one.
pub open spec fn overlap_for(max: int) -> int {
    if max > 16 {
        8
    } else {
        max / 2
    }
}

pub open spec fn next_window_start(lines: Seq<Seq<char>>, start: int, max: int) -> int {
    let e = window_end(lines, start, max);
    if hits_limit(lines, start, max) {
        if start + 1 >= e - overlap_for(max) {
            start + 1
        } else {
            e - overlap_for(max)
        }
    } else {
        e
    }
}

/// The windows, as ranges `[start, end)` of 0-based line numbers, from the
/// window that starts at line `start` to the end of the text.
pub open spec fn windows_from(lines: Seq<Seq<char>>, start: int, max: int) -> Seq<(int, int)>
    decreases lines.len() - start,
{
    if start < 0 || start >= lines.len() {
        seq![]
    } else if next_window_start(lines, start, max) <= start || next_window_start(lines, start, max)
        > lines.len() {
        seq![(start, window_end(lines, start, max))]
    } else {
        seq![(start, window_end(lines, start, max))] + windows_from(
            lines,
            next_window_start(lines, start, max),
            max,
        )
    }
}

/// Lines joined by '\n' (`[&str]::join("\n")`).
pub open spec fn join_lines(ls: Seq<Seq<char>>) -> Seq<char>
    decreases ls.len(),
{
    if ls.len() == 0 {
        seq![]
    } else if ls.len() == 1 {
        ls[0]
    } else {
        join_lines(ls.drop_last()) + seq!['\n'] + ls.last()
    }
}

/// The chunks of a sequence of windows: each window that is not blank, in
/// order, numbered from 0, with 1-based inclusive line numbers.
pub open spec fn window_chunks(
    lines: Seq<Seq<char>>,
    ws: Seq<(int, int)>,
    path: Seq<char>,
    mtime: u64,
) -> Seq<ChunkView>
    decreases ws.len(),
{
    if ws.len() == 0 {
        seq![]
    } else {
        let prev = window_chunks(lines, ws.drop_last(), path, mtime);
        let w = ws.last();
        let text = join_lines(lines.subrange(w.0, w.1));
        if is_blank(text) {
            prev
        } else {
            prev.push(
                ChunkView {
                    file_path: path,
                    chunk_index: prev.len() as int,
                    content: text,
                    line_start: w.0 + 1,
                    line_end: w.1,
                    mtime,
                },
            )
        }
    }
}

/// The heuristic chunks of a text: its non-blank windows.
pub open spec fn heuristic_chunks(content: Seq<char>, path: Seq<char>, mtime: u64, max: int) -> Seq<
    ChunkView,
> {
    let lines = lines_of(content);
    window_chunks(lines, windows_from(lines, 0, max), path, mtime)
}

/// The spans cut `cs` into lines: each lies inside `cs`, and the `j`-th line
/// is the text of the `j`-th span.
pub open spec fn spans_cut_lines(cs: Seq<char>, spans: Seq<(usize, usize)>) -> bool {
    &&& spans_view(spans) == line_spans(cs)
    &&& spans.len() == lines_of(cs).len()
    &&& forall|j: int|
        0 <= j < spans.len() ==> {
            &&& (#[trigger] spans[j]).0 <= spans[j].1 <= cs.len()
            &&& lines_of(cs)[j] == cs.subrange(spans[j].0 as int, spans[j].1 as int)
        }
}

fn cut_lines(cs: &Vec<char>) -> (spans: Vec<(usize, usize)>)
    ensures
        spans_cut_lines(cs@, spans@),
{
    let spans = line_spans_of(cs);
    proof {
        lemma_line_spans_bounds(cs@);
        assert forall|j: int| 0 <= j < spans.len() implies {
            &&& (#[trigger] spans@[j]).0 <= spans@[j].1 <= cs.len()
            &&& lines_of(cs@)[j] == cs@.subrange(spans@[j].0 as int, spans@[j].1 as int)
        } by {
            assert(spans_view(spans@)[j] == line_spans(cs@)[j]);
        }
    }
    spans
}

/// The lines `[a, b)` joined by '\n', and whether that text is blank.
fn window_text(cs: &Vec<char>, spans: &Vec<(usize, usize)>, a: usize, b: usize) -> (r: (
    String,
    bool,
))
    requires
        a < b <= spans.len(),
        spans_cut_lines(cs@, spans@),
    ensures
        r.0@ == join_lines(lines_of(cs@).subrange(a as int, b as int)),
        r.1 == is_blank(r.0@),
{
    let ghost lines = lines_of(cs@);
    let mut text = String::new();
    let mut blank = true;
    let mut j: usize = a;
    while j < b
        invariant
            a <= j <= b <= spans.len(),
            spans_cut_lines(cs@, spans@),
            lines == lines_of(cs@),
            text@ == join_lines(lines.subrange(a as int, j as int)),
            blank == is_blank(text@),
        decreases b - j,
    {
        let ghost before = text@;
        if j > a {
            proof {
                lemma_blank_push(text@, '\n');
            }
            push_char(&mut text, '\n');
        }
        let ghost sep = text@;
        let (sa, sb) = spans[j];
        let mut k: usize = sa;
        while k < sb
            invariant
                sa <= k <= sb <= cs.len(),
                text@ == sep + cs@.subrange(sa as int, k as int),
                blank == is_blank(text@),
            decreases sb - k,
        {
            proof {
                lemma_blank_push(text@, cs@[k as int]);
                assert(cs@.subrange(sa as int, k + 1) =~= cs@.subrange(sa as int, k as int).push(
                    cs@[k as int],
                ));
            }
            blank = blank && char_is_whitespace(cs[k]);
            push_char(&mut text, cs[k]);
            k = k + 1;
        }
        proof {
            let next = lines.subrange(a as int, j + 1);
            assert(next.last() == lines[j as int]);
            if j > a {
                assert(next.drop_last() =~= lines.subrange(a as int, j as int));
                assert(text@ =~= before + seq!['\n'] + lines[j as int]);
            } else {
                assert(text@ =~= lines[j as int]);
            }
        }
        j = j + 1;
    }
    (text, blank)
}

/// Cuts a text into chunks by lines, with a sliding window: a window takes at
/// least ten lines, then grows line by line and ends before a line that opens
/// a definition, or when it holds `max_lines` lines; in that case the next
/// window starts `overlap` lines before its end (8, or `max_lines / 2` when
/// `max_lines` is at most 16), else right at its end. Blank windows are left
/// out; the chunks are numbered from 0 and their line numbers are 1-based and
/// inclusive.
pub fn chunk_with_heuristic(content: &str, relative_path: &str, mtime: u64, max_lines: usize) -> (r:
    Vec<FileChunk>)
    ensures
        chunks_view(r@) == heuristic_chunks(content@, relative_path@, mtime, max_lines as int),
{
    let cs = chars_of(content);
    let spans = cut_lines(&cs);
    let n = spans.len();
    let ghost lines = lines_of(cs@);
    let ghost path = relative_path@;
    let mut chunks: Vec<FileChunk> = Vec::new();
    let max = max_lines;
    let overlap: usize = if max > 16 {
        8
    } else {
        max / 2
    };
    let mut start: usize = 0;
    let ghost mut done: Seq<(int, int)> = seq![];
    assert(chunks_view(chunks@) =~= window_chunks(lines, done, path, mtime));
    while start < n
        invariant
            n == spans.len() == lines.len(),
            lines == lines_of(cs@),
            spans_cut_lines(cs@, spans@),
            path == relative_path@,
            max == max_lines,
            overlap == overlap_for(max as int),
            start <= n,
            done + windows_from(lines, start as int, max as int) == windows_from(lines, 0, max as int),
            chunks_view(chunks@) == window_chunks(lines, done, path, mtime),
        decreases n - start,
    {
        let mut end: usize = if n - start > MIN_CHUNK_LINES {
            start + MIN_CHUNK_LINES
        } else {
            n
        };
        let mut scanning = true;
        while scanning
            invariant
                n == spans.len() == lines.len(),
                lines == lines_of(cs@),
                spans_cut_lines(cs@, spans@),
                max == max_lines,
                start < end <= n,
                scan_window_end(lines, start as int, end as int, max as int) == window_end(
                    lines,
                    start as int,
                    max as int,
                ),
                !scanning ==> end == window_end(lines, start as int, max as int),
            decreases n - end + (if scanning {
                1int
            } else {
                0int
            }),
        {
            if end >= n || end - start >= max {
                scanning = false;
            } else if end - start >= MIN_CHUNK_LINES && is_definition_at(
                &cs,
                spans[end].0,
                spans[end].1,
            ) {
                scanning = false;
            } else {
                end = end + 1;
            }
        }
        let hit = end < n && end - start >= max;
        let (text, blank) = window_text(&cs, &spans, start, end);
        let ghost w = (start as int, end as int);
        proof {
            assert(done.push(w).drop_last() =~= done);
        }
        if !blank {
            let idx = chunks.len();
            chunks.push(
                FileChunk {
                    file_path: relative_path.to_owned(),
                    chunk_index: idx,
                    content: text,
                    line_start: start + 1,
                    line_end: end,
                    mtime,
                },
            );
        }
        let next: usize = if hit {
            if start + 1 >= end - overlap {
                start + 1
            } else {
                end - overlap
            }
        } else {
            end
        };
        proof {
            assert(chunks_view(chunks@) =~= window_chunks(lines, done.push(w), path, mtime));
            assert(next as int == next_window_start(lines, start as int, max as int));
            assert(windows_from(lines, start as int, max as int) == seq![w] + windows_from(
                lines,
                next as int,
                max as int,
            ));
            assert(done.push(w) + windows_from(lines, next as int, max as int) =~= done
                + windows_from(lines, start as int, max as int));
            done = done.push(w);
        }
        start = next;
    }
    assert(done =~= windows_from(lines, 0, max as int));
    chunks
}


proof fn lemma_scan_window_end_bounds(lines: Seq<Seq<char>>, start: int, e: int, max: int)
    requires
        e <= lines.len(),
    ensures
        e <= scan_window_end(lines, start, e, max) <= lines.len(),
    decreases lines.len() - e,
{
    if e < lines.len() && !(e - start >= max) && !(e - start >= MIN_CHUNK_LINES
        && is_definition_line(lines[e])) {
        lemma_scan_window_end_bounds(lines, start, e + 1, max);
    }
}

/// A window that starts inside the text ends after its start and inside the
/// text, and the next one starts after its start and no later than its end.
proof fn lemma_window_step(lines: Seq<Seq<char>>, start: int, max: int)
    requires
        0 <= start < lines.len(),
        0 <= max,
    ensures
        start < window_end(lines, start, max) <= lines.len(),
        start < next_window_start(lines, start, max) <= window_end(lines, start, max),
{
    let first = if lines.len() - start > MIN_CHUNK_LINES {
        start + MIN_CHUNK_LINES
    } else {
        lines.len() as int
    };
    lemma_scan_window_end_bounds(lines, start, first, max);
    if hits_limit(lines, start, max) {
        assert(overlap_for(max) <= max) by {
            if max <= 16 {
                assert(max / 2 <= max) by (nonlinear_arith)
                    requires
                        0 <= max,
                ;
            }
        }
    }
}

/// Some window holds line `j`.
pub open spec fn window_holds(ws: Seq<(int, int)>, j: int) -> bool {
    exists|k: int|
        0 <= k < ws.len() && {
            let w = #[trigger] ws[k];
            w.0 <= j < w.1
        }
}

/// The windows from `start` on lie inside the text, each starts before it
/// ends, and together they cover every line from `start` on.
proof fn lemma_windows_cover(lines: Seq<Seq<char>>, start: int, max: int)
    requires
        0 <= start,
        0 <= max,
    ensures
        forall|k: int|
            0 <= k < windows_from(lines, start, max).len() ==> {
                let w = #[trigger] windows_from(lines, start, max)[k];
                start <= w.0 < w.1 <= lines.len()
            },
        forall|j: int|
            start <= j < lines.len() ==> #[trigger] window_holds(windows_from(lines, start, max), j),
    decreases lines.len() - start,
{
    if start < lines.len() {
        lemma_window_step(lines, start, max);
        let next = next_window_start(lines, start, max);
        let w0 = (start, window_end(lines, start, max));
        lemma_windows_cover(lines, next, max);
        let rest = windows_from(lines, next, max);
        let all = windows_from(lines, start, max);
        assert(all == seq![w0] + rest);
        assert forall|k: int| 0 <= k < all.len() implies {
            let w = #[trigger] all[k];
            start <= w.0 < w.1 <= lines.len()
        } by {
            if k > 0 {
                assert(all[k] == rest[k - 1]);
            }
        }
        assert forall|j: int| start <= j < lines.len() implies #[trigger] window_holds(all, j) by {
            if j < w0.1 {
                assert(all[0] == w0);
            } else {
                assert(window_holds(rest, j));
                let k2 = choose|k2: int|
                    0 <= k2 < rest.len() && {
                        let w = #[trigger] rest[k2];
                        w.0 <= j < w.1
                    };
                assert(all[k2 + 1] == rest[k2]);
            }
        }
    }
}

proof fn lemma_blank_concat(a: Seq<char>, b: Seq<char>)
    ensures
        is_blank(a + b) ==> is_blank(a) && is_blank(b),
{
    if is_blank(a + b) {
        assert forall|i: int| 0 <= i < a.len() implies is_ws(#[trigger] a[i]) by {
            assert((a + b)[i] == a[i]);
        }
        assert forall|i: int| 0 <= i < b.len() implies is_ws(#[trigger] b[i]) by {
            assert((a + b)[a.len() + i] == b[i]);
        }
    }
}

/// Joining lines keeps the text of each of them.
proof fn lemma_join_keeps_non_blank(ls: Seq<Seq<char>>, k: int)
    requires
        0 <= k < ls.len(),
        !is_blank(ls[k]),
    ensures
        !is_blank(join_lines(ls)),
    decreases ls.len(),
{
    if ls.len() > 1 {
        let front = join_lines(ls.drop_last()) + seq!['\n'];
        lemma_blank_concat(front, ls.last());
        if k < ls.len() - 1 {
            assert(ls.drop_last()[k] == ls[k]);
            lemma_join_keeps_non_blank(ls.drop_last(), k);
            lemma_blank_concat(join_lines(ls.drop_last()), seq!['\n']);
        }
    }
}

/// Each window with text gives a chunk with its line range, and every chunk
/// is such a window's, with ordered 1-based line numbers.
proof fn lemma_window_chunks(
    lines: Seq<Seq<char>>,
    ws: Seq<(int, int)>,
    path: Seq<char>,
    mtime: u64,
)
    requires
        forall|k: int| 0 <= k < ws.len() ==> 0 <= (#[trigger] ws[k]).0 < ws[k].1 <= lines.len(),
    ensures
        forall|k: int|
            0 <= k < ws.len() && !is_blank(
                join_lines(lines.subrange((#[trigger] ws[k]).0, ws[k].1)),
            ) ==> exists|c: int|
                0 <= c < window_chunks(lines, ws, path, mtime).len() && (
                #[trigger] window_chunks(lines, ws, path, mtime)[c]).line_start == ws[k].0 + 1
                    && window_chunks(lines, ws, path, mtime)[c].line_end == ws[k].1,
        forall|c: int|
            0 <= c < window_chunks(lines, ws, path, mtime).len() ==> {
                let ch = #[trigger] window_chunks(lines, ws, path, mtime)[c];
                &&& 1 <= ch.line_start <= ch.line_end <= lines.len()
                &&& ch.content == join_lines(lines.subrange(ch.line_start - 1, ch.line_end))
            },
    decreases ws.len(),
{
    if ws.len() > 0 {
        let prev_ws = ws.drop_last();
        lemma_window_chunks(lines, prev_ws, path, mtime);
        let prev = window_chunks(lines, prev_ws, path, mtime);
        let all = window_chunks(lines, ws, path, mtime);
        assert forall|k: int|
            0 <= k < ws.len() && !is_blank(
                join_lines(lines.subrange((#[trigger] ws[k]).0, ws[k].1)),
            ) implies exists|c: int|
            0 <= c < all.len() && (#[trigger] all[c]).line_start == ws[k].0 + 1 && all[c].line_end
                == ws[k].1 by {
            if k < ws.len() - 1 {
                assert(prev_ws[k] == ws[k]);
                let c = choose|c: int|
                    0 <= c < prev.len() && (#[trigger] prev[c]).line_start == prev_ws[k].0 + 1
                        && prev[c].line_end == prev_ws[k].1;
                assert(all[c] == prev[c]);
            } else {
                assert(all[prev.len() as int].line_start == ws[k].0 + 1);
            }
        }
        assert forall|c: int| 0 <= c < all.len() implies {
            let ch = #[trigger] all[c];
            &&& 1 <= ch.line_start <= ch.line_end <= lines.len()
            &&& ch.content == join_lines(lines.subrange(ch.line_start - 1, ch.line_end))
        } by {
            if c < prev.len() {
                assert(all[c] == prev[c]);
            }
        }
    }
}

/// Every heuristic chunk has 1-based line numbers with `line_start <=
/// line_end`, inside the text, and its content is exactly those lines of the
/// text joined by '\n'.
pub proof fn lemma_heuristic_chunk_lines(content: Seq<char>, path: Seq<char>, mtime: u64, max_lines: usize)
    ensures
        forall|c: int|
            0 <= c < heuristic_chunks(content, path, mtime, max_lines as int).len() ==> {
                let ch = #[trigger] heuristic_chunks(content, path, mtime, max_lines as int)[c];
                &&& 1 <= ch.line_start <= ch.line_end <= lines_of(content).len()
                &&& ch.content == join_lines(
                    lines_of(content).subrange(ch.line_start - 1, ch.line_end),
                )
            },
{
    let lines = lines_of(content);
    lemma_windows_cover(lines, 0, max_lines as int);
    lemma_window_chunks(lines, windows_from(lines, 0, max_lines as int), path, mtime);
}

/// The heuristic chunks cover every line that is not blank: for each such
/// line there is a chunk whose line range holds it.
pub proof fn lemma_heuristic_chunks_cover(content: Seq<char>, path: Seq<char>, mtime: u64, max_lines: usize)
    ensures
        forall|j: int|
            0 <= j < lines_of(content).len() && !is_blank(#[trigger] lines_of(content)[j])
                ==> exists|c: int|
                0 <= c < heuristic_chunks(content, path, mtime, max_lines as int).len() && (
                #[trigger] heuristic_chunks(content, path, mtime, max_lines as int)[c]).line_start <= j + 1
                    <= heuristic_chunks(content, path, mtime, max_lines as int)[c].line_end,
{
    let lines = lines_of(content);
    let chunks = heuristic_chunks(content, path, mtime, max_lines as int);
    {
        let ws = windows_from(lines, 0, max_lines as int);
        lemma_windows_cover(lines, 0, max_lines as int);
        lemma_window_chunks(lines, ws, path, mtime);
        assert forall|j: int| 0 <= j < lines.len() && !is_blank(#[trigger] lines[j]) implies exists|
            c: int,
        | 0 <= c < chunks.len() && (#[trigger] chunks[c]).line_start <= j + 1
            <= chunks[c].line_end by {
            assert(window_holds(ws, j));
            let k = choose|k: int|
                0 <= k < ws.len() && {
                    let w = #[trigger] ws[k];
                    w.0 <= j < w.1
                };
            let w = ws[k];
            assert(lines.subrange(w.0, w.1)[j - w.0] == lines[j]);
            lemma_join_keeps_non_blank(lines.subrange(w.0, w.1), j - w.0);
            let c = choose|c: int|
                0 <= c < chunks.len() && (#[trigger] chunks[c]).line_start == ws[k].0 + 1
                    && chunks[c].line_end == ws[k].1;
        }
    }
}


/// Lines with no '\n' joined by '\n' hold one '\n' fewer than lines.
proof fn lemma_join_newlines(ls: Seq<Seq<char>>)
    requires
        ls.len() > 0,
        forall|k: int, j: int| 0 <= k < ls.len() && 0 <= j < ls[k].len() ==> (#[trigger] ls[k][j]) != '\n',
    ensures
        newlines_from(join_lines(ls), 0) == ls.len() - 1,
        join_lines(ls).len() > 0 ==> (join_lines(ls).last() == '\n' <==> ls.last().len() == 0),
        join_lines(ls).len() == 0 ==> ls.last().len() == 0,
    decreases ls.len(),
{
    let last = ls.last();
    assert forall|j: int| 0 <= j < last.len() implies last[j] != '\n' by {
        assert(ls[ls.len() - 1][j] == last[j]);
    }
    lemma_no_newlines(last, 0);
    if ls.len() > 1 {
        let front = ls.drop_last();
        assert forall|k: int, j: int| 0 <= k < front.len() && 0 <= j < front[k].len() implies (
        #[trigger] front[k][j]) != '\n' by {
            assert(front[k] == ls[k]);
        }
        lemma_join_newlines(front);
        let a = join_lines(front);
        lemma_newlines_concat(a, seq!['\n'], 0);
        lemma_newlines_concat(a + seq!['\n'], last, 0);
        assert(newlines_from(seq!['\n'], 0) == 1) by {
            assert(newlines_from(seq!['\n'], 1) == 0);
        }
        let j = join_lines(ls);
        assert(j == a + seq!['\n'] + last);
        if last.len() == 0 {
            assert(j =~= a + seq!['\n']);
        } else {
            assert(j.last() == last.last());
            assert(last.last() == last[last.len() - 1]);
        }
    } else {
        assert(join_lines(ls) == ls[0]);
        assert(ls[0] == last);
        if last.len() > 0 {
            assert(last.last() == last[last.len() - 1]);
        }
    }
}

/// A heuristic chunk has as many lines as its line range says, one fewer
/// when the last line of the range is empty (its text then ends with '\n',
/// or is empty).
pub proof fn lemma_heuristic_chunk_line_count(
    content: Seq<char>,
    path: Seq<char>,
    mtime: u64,
    max_lines: usize,
)
    ensures
        forall|c: int|
            0 <= c < heuristic_chunks(content, path, mtime, max_lines as int).len() ==> {
                let ch = #[trigger] heuristic_chunks(content, path, mtime, max_lines as int)[c];
                let n = ch.line_end - ch.line_start + 1;
                lines_of(ch.content).len() == n || (lines_of(ch.content).len() == n - 1 && lines_of(
                    content,
                )[ch.line_end - 1].len() == 0)
            },
{
    lemma_heuristic_chunk_lines(content, path, mtime, max_lines);
    let lines = lines_of(content);
    let chunks = heuristic_chunks(content, path, mtime, max_lines as int);
    lemma_line_spans_bounds(content);
    assert forall|k: int, j: int| 0 <= k < lines.len() && 0 <= j < lines[k].len() implies (
    #[trigger] lines[k][j]) != '\n' by {
        let p = line_spans(content)[k];
        assert(lines[k] == content.subrange(p.0, p.1));
        assert(lines[k][j] == content[p.0 + j]);
    }
    assert forall|c: int| 0 <= c < chunks.len() implies {
        let ch = #[trigger] chunks[c];
        let n = ch.line_end - ch.line_start + 1;
        lines_of(ch.content).len() == n || (lines_of(ch.content).len() == n - 1
            && lines[ch.line_end - 1].len() == 0)
    } by {
        let ch = chunks[c];
        lemma_line_count(ch.content);
        {
            lemma_windows_cover(lines, 0, max_lines as int);
            lemma_window_chunks(lines, windows_from(lines, 0, max_lines as int), path, mtime);
            let ls = lines.subrange(ch.line_start - 1, ch.line_end);
            assert(ch.content == join_lines(ls));
            assert forall|k: int, j: int| 0 <= k < ls.len() && 0 <= j < ls[k].len() implies (
            #[trigger] ls[k][j]) != '\n' by {
                assert(ls[k] == lines[ch.line_start - 1 + k]);
            }
            lemma_join_newlines(ls);
            assert(ls.last() == lines[ch.line_end - 1]);
        }
    }
}

} // verus!
