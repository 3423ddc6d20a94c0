//! Characters, lines and blank text.

use vstd::prelude::*;

verus! {

/// Unicode `White_Space`, the set that `char::is_whitespace` tests.
pub open spec fn is_ws(c: char) -> bool {
    ('\u{9}' <= c && c <= '\u{d}') || c == ' ' || c == '\u{85}' || c == '\u{a0}'
        || c == '\u{1680}' || ('\u{2000}' <= c && c <= '\u{200a}') || c == '\u{2028}'
        || c == '\u{2029}' || c == '\u{202f}' || c == '\u{205f}' || c == '\u{3000}'
}

/// Text made of white space only (the empty text included).
pub open spec fn is_blank(s: Seq<char>) -> bool {
    forall|i: int| 0 <= i < s.len() ==> is_ws(#[trigger] s[i])
}

pub fn char_is_whitespace(c: char) -> (r: bool)
    ensures
        r == is_ws(c),
{
    ('\u{9}' <= c && c <= '\u{d}') || c == ' ' || c == '\u{85}' || c == '\u{a0}'
        || c == '\u{1680}' || ('\u{2000}' <= c && c <= '\u{200a}') || c == '\u{2028}'
        || c == '\u{2029}' || c == '\u{202f}' || c == '\u{205f}' || c == '\u{3000}'
}

/// The characters of `s`, one by one.
pub fn chars_of(s: &str) -> (r: Vec<char>)
    ensures
        r@ == s@,
{
    let mut r: Vec<char> = Vec::new();
    for c in it: s.chars()
        invariant
            r@ == it.seq().subrange(0, it.index() as int),
    {
        r.push(c);
    }
    r
}


/// Relies on `String::push`: appends one character.
#[verifier::external_body]
pub(crate) fn push_char(s: &mut String, c: char)
    ensures
        final(s)@ == old(s)@.push(c),
{
    s.push(c)
}

/// The end of the text of a line whose terminating '\n' stands at `nl`: a
/// '\r' right before that '\n' belongs to the line ending, not to the line.
pub open spec fn line_text_end(s: Seq<char>, start: int, nl: int) -> int {
    if nl > start && s[nl - 1] == '\r' {
        nl - 1
    } else {
        nl
    }
}

/// The lines of `s` as `str::lines` cuts them, as ranges of character
/// positions, scanning from position `i` inside a line that began at `cur`.
/// A line ends at each '\n' (a "\r\n" pair is one line ending); the last line
/// needs no ending, and an ending at the very end starts no further line.
pub open spec fn line_spans_scan(s: Seq<char>, i: int, cur: int) -> Seq<(int, int)>
    decreases s.len() - i,
{
    if i >= s.len() {
        if cur < s.len() {
            seq![(cur, s.len() as int)]
        } else {
            seq![]
        }
    } else if s[i] == '\n' {
        seq![(cur, line_text_end(s, cur, i))] + line_spans_scan(s, i + 1, i + 1)
    } else {
        line_spans_scan(s, i + 1, cur)
    }
}

pub open spec fn line_spans(s: Seq<char>) -> Seq<(int, int)> {
    line_spans_scan(s, 0, 0)
}

/// The lines of `s`, without their line endings.
pub open spec fn lines_of(s: Seq<char>) -> Seq<Seq<char>> {
    line_spans(s).map_values(|p: (int, int)| s.subrange(p.0, p.1))
}

pub open spec fn spans_view(v: Seq<(usize, usize)>) -> Seq<(int, int)> {
    v.map_values(|p: (usize, usize)| (p.0 as int, p.1 as int))
}

proof fn lemma_line_spans_scan_bounds(s: Seq<char>, i: int, cur: int)
    requires
        0 <= cur <= i <= s.len(),
        forall|j: int| cur <= j < i ==> s[j] != '\n',
    ensures
        forall|k: int|
            0 <= k < line_spans_scan(s, i, cur).len() ==> {
                let p = #[trigger] line_spans_scan(s, i, cur)[k];
                &&& cur <= p.0 <= p.1 <= s.len()
                &&& forall|j: int| p.0 <= j < p.1 ==> s[j] != '\n'
            },
    decreases s.len() - i,
{
    if i < s.len() {
        if s[i] == '\n' {
            lemma_line_spans_scan_bounds(s, i + 1, i + 1);
            let head = seq![(cur, line_text_end(s, cur, i))];
            let tail = line_spans_scan(s, i + 1, i + 1);
            assert(line_spans_scan(s, i, cur) == head + tail);
            assert forall|k: int| 0 <= k < (head + tail).len() implies {
                let p = #[trigger] (head + tail)[k];
                &&& cur <= p.0 <= p.1 <= s.len()
                &&& forall|j: int| p.0 <= j < p.1 ==> s[j] != '\n'
            } by {
                if k > 0 {
                    assert((head + tail)[k] == tail[k - 1]);
                }
            }
        } else {
            lemma_line_spans_scan_bounds(s, i + 1, cur);
            assert(line_spans_scan(s, i, cur) == line_spans_scan(s, i + 1, cur));
        }
    } else if cur < s.len() {
        let only = seq![(cur, s.len() as int)];
        assert(line_spans_scan(s, i, cur) == only);
        assert forall|k: int| 0 <= k < only.len() implies {
            let p = #[trigger] only[k];
            &&& cur <= p.0 <= p.1 <= s.len()
            &&& forall|j: int| p.0 <= j < p.1 ==> s[j] != '\n'
        } by {
            assert(only[k] == (cur, s.len() as int));
        }
    }
}

/// The number of '\n' in `s` from position `i` on.
pub open spec fn newlines_from(s: Seq<char>, i: int) -> int
    decreases s.len() - i,
{
    if i < 0 || i >= s.len() {
        0
    } else {
        newlines_from(s, i + 1) + if s[i] == '\n' {
            1int
        } else {
            0int
        }
    }
}

/// Where the last line of `s` starts, scanning from `i` inside a line that
/// began at `cur`.
pub open spec fn last_line_start(s: Seq<char>, i: int, cur: int) -> int
    decreases s.len() - i,
{
    if i >= s.len() {
        cur
    } else if s[i] == '\n' {
        last_line_start(s, i + 1, i + 1)
    } else {
        last_line_start(s, i + 1, cur)
    }
}

proof fn lemma_scan_count(s: Seq<char>, i: int, cur: int)
    requires
        0 <= cur <= i <= s.len(),
    ensures
        line_spans_scan(s, i, cur).len() == newlines_from(s, i) + if last_line_start(s, i, cur)
            < s.len() {
            1int
        } else {
            0int
        },
        last_line_start(s, i, cur) < s.len() <==> if i < s.len() {
            s.last() != '\n'
        } else {
            cur < s.len()
        },
    decreases s.len() - i,
{
    if i < s.len() {
        if s[i] == '\n' {
            lemma_scan_count(s, i + 1, i + 1);
        } else {
            lemma_scan_count(s, i + 1, cur);
        }
    }
}

/// `s` has as many lines as '\n', plus one when it does not end with '\n'
/// and is not empty.
pub proof fn lemma_line_count(s: Seq<char>)
    ensures
        lines_of(s).len() == newlines_from(s, 0) + if s.len() > 0 && s.last() != '\n' {
            1int
        } else {
            0int
        },
{
    lemma_scan_count(s, 0, 0);
}

proof fn lemma_newlines_shift(x: Seq<char>, y: Seq<char>, j: int)
    requires
        0 <= j <= y.len(),
    ensures
        newlines_from(x + y, x.len() + j) == newlines_from(y, j),
    decreases y.len() - j,
{
    if j < y.len() {
        lemma_newlines_shift(x, y, j + 1);
        assert((x + y)[x.len() + j] == y[j]);
    }
}

/// Counting '\n' adds up over a concatenation.
pub proof fn lemma_newlines_concat(x: Seq<char>, y: Seq<char>, i: int)
    requires
        0 <= i <= x.len(),
    ensures
        newlines_from(x + y, i) == newlines_from(x, i) + newlines_from(y, 0),
    decreases x.len() - i,
{
    if i < x.len() {
        lemma_newlines_concat(x, y, i + 1);
        assert((x + y)[i] == x[i]);
    } else {
        lemma_newlines_shift(x, y, 0);
    }
}

/// Text without '\n' holds none.
pub proof fn lemma_no_newlines(x: Seq<char>, i: int)
    requires
        0 <= i <= x.len(),
        forall|k: int| 0 <= k < x.len() ==> x[k] != '\n',
    ensures
        newlines_from(x, i) == 0,
    decreases x.len() - i,
{
    if i < x.len() {
        lemma_no_newlines(x, i + 1);
    }
}

/// Each line span lies inside `s` and holds no '\n'.
pub proof fn lemma_line_spans_bounds(s: Seq<char>)
    ensures
        forall|k: int|
            0 <= k < line_spans(s).len() ==> {
                let p = #[trigger] line_spans(s)[k];
                &&& 0 <= p.0 <= p.1 <= s.len()
                &&& forall|j: int| p.0 <= j < p.1 ==> s[j] != '\n'
            },
{
    lemma_line_spans_scan_bounds(s, 0, 0);
}

pub proof fn lemma_blank_push(t: Seq<char>, c: char)
    ensures
        is_blank(t.push(c)) == (is_blank(t) && is_ws(c)),
{
    if is_blank(t) && is_ws(c) {
        assert forall|i: int| 0 <= i < t.push(c).len() implies is_ws(#[trigger] t.push(c)[i]) by {
            if i < t.len() {
                assert(t.push(c)[i] == t[i]);
            }
        }
    }
    if is_blank(t.push(c)) {
        assert(is_ws(t.push(c)[t.len() as int]));
        assert forall|i: int| 0 <= i < t.len() implies is_ws(#[trigger] t[i]) by {
            assert(t.push(c)[i] == t[i]);
        }
    }
}

/// Cuts `s` (given as its characters) into lines, as `str::lines` does.
pub fn line_spans_of(s: &Vec<char>) -> (r: Vec<(usize, usize)>)
    ensures
        spans_view(r@) == line_spans(s@),
{
    let mut r: Vec<(usize, usize)> = Vec::new();
    let mut cur: usize = 0;
    let mut i: usize = 0;
    while i < s.len()
        invariant
            cur <= i <= s.len(),
            spans_view(r@) + line_spans_scan(s@, i as int, cur as int) == line_spans(s@),
        decreases s.len() - i,
    {
        if s[i] == '\n' {
            let end: usize = if i > cur && s[i - 1] == '\r' {
                i - 1
            } else {
                i
            };
            proof {
                assert(spans_view(r@.push((cur, end))) =~= spans_view(r@).push(
                    (cur as int, end as int),
                ));
                assert(seq![(cur as int, end as int)] + line_spans_scan(s@, i + 1, i + 1)
                    == line_spans_scan(s@, i as int, cur as int));
                assert(spans_view(r@).push((cur as int, end as int)) + line_spans_scan(
                    s@,
                    i + 1,
                    i + 1,
                ) =~= spans_view(r@) + line_spans_scan(s@, i as int, cur as int));
            }
            r.push((cur, end));
            cur = i + 1;
        }
        i = i + 1;
    }
    if cur < s.len() {
        proof {
            assert(spans_view(r@.push((cur, s.len()))) =~= spans_view(r@) + line_spans_scan(
                s@,
                i as int,
                cur as int,
            ));
        }
        r.push((cur, s.len()));
    } else {
        assert(spans_view(r@) =~= spans_view(r@) + line_spans_scan(s@, i as int, cur as int));
    }
    r
}

pub open spec fn starts_with(s: Seq<char>, p: Seq<char>) -> bool {
    p.len() <= s.len() && s.subrange(0, p.len() as int) == p
}

/// Whether `pat` stands in `cs` at position `p`, before position `b`.
pub fn has_prefix_at(cs: &Vec<char>, p: usize, b: usize, pat: &Vec<char>) -> (r: bool)
    requires
        p <= b <= cs.len(),
    ensures
        r == starts_with(cs@.subrange(p as int, b as int), pat@),
{
    let ghost t = cs@.subrange(p as int, b as int);
    if pat.len() > b - p {
        return false;
    }
    let mut j: usize = 0;
    while j < pat.len()
        invariant
            p <= b <= cs.len(),
            pat.len() <= b - p,
            j <= pat.len(),
            t == cs@.subrange(p as int, b as int),
            t.subrange(0, j as int) == pat@.subrange(0, j as int),
        decreases pat.len() - j,
    {
        if cs[p + j] != pat[j] {
            assert(t.subrange(0, pat.len() as int)[j as int] != pat@[j as int]);
            return false;
        }
        assert(t.subrange(0, j + 1) =~= t.subrange(0, j as int).push(t[j as int]));
        assert(pat@.subrange(0, j + 1) =~= pat@.subrange(0, j as int).push(pat@[j as int]));
        j = j + 1;
    }
    assert(pat@.subrange(0, pat.len() as int) =~= pat@);
    true
}

/// `n` stands in `h` at position `i`.
pub open spec fn occurs_at(h: Seq<char>, n: Seq<char>, i: int) -> bool {
    0 <= i && i + n.len() <= h.len() && h.subrange(i, i + n.len()) == n
}

/// `n` stands somewhere in `h` (`str::contains`).
pub open spec fn contains(h: Seq<char>, n: Seq<char>) -> bool {
    exists|i: int| #[trigger] occurs_at(h, n, i)
}

pub fn contains_chars(h: &Vec<char>, n: &Vec<char>) -> (r: bool)
    ensures
        r == contains(h@, n@),
{
    if n.len() > h.len() {
        assert forall|i: int| !#[trigger] occurs_at(h@, n@, i) by {}
        return false;
    }
    let last = h.len() - n.len();
    let mut i: usize = 0;
    loop
        invariant
            n.len() <= h.len(),
            last == h.len() - n.len(),
            i <= last,
            forall|k: int| 0 <= k < i ==> !#[trigger] occurs_at(h@, n@, k),
        decreases last - i,
    {
        let m = has_prefix_at(h, i, h.len(), n);
        proof {
            let t = h@.subrange(i as int, h.len() as int);
            assert(t.subrange(0, n.len() as int) =~= h@.subrange(i as int, i + n.len()));
        }
        if m {
            assert(occurs_at(h@, n@, i as int));
            return true;
        }
        if i == last {
            assert forall|k: int| !#[trigger] occurs_at(h@, n@, k) by {
                if 0 <= k < i {
                }
            }
            return false;
        }
        i = i + 1;
    }
}

} // verus!
