//! The tool protocol's decisions: which calls are served, the error codes
//! of those that are not, the result limit, and the text of a response.

use vstd::prelude::*;
use crate::ranker::{SearchResult, SearchResultView, results_view};
use crate::text::{chars_of, push_char};

verus! {

/// The arguments of the `search` tool.
#[derive(Debug, Clone)]
pub struct SearchArgs {
    pub query: String,
    pub repository_path: Option<String>,
}

impl SearchArgs {
    /// The repository to search: the one given, else the current directory.
    pub fn repository_or_default(&self) -> (r: String)
        ensures
            r@ == match self.repository_path {
                Some(p) => p@,
                None => seq!['.'],
            },
    {
        match &self.repository_path {
            Some(p) => p.clone(),
            None => {
                let mut s = String::new();
                push_char(&mut s, '.');
                s
            },
        }
    }
}

/// Why a tool call fails.
#[derive(Debug, Clone, Copy, PartialEq, Eq, Structural)]
pub enum ToolError {
    /// No tool of that name.
    UnknownTool,
    /// The arguments are missing or malformed.
    InvalidArguments,
    /// The searcher could not start, or the search failed.
    SearchFailed,
}

impl ToolError {
    /// The JSON-RPC error code.
    pub fn code(self) -> (r: i32)
        ensures
            r == match self {
                ToolError::UnknownTool => -32601i32,
                ToolError::InvalidArguments => -32602i32,
                ToolError::SearchFailed => -32000i32,
            },
    {
        match self {
            ToolError::UnknownTool => -32601,
            ToolError::InvalidArguments => -32602,
            ToolError::SearchFailed => -32000,
        }
    }
}

pub open spec fn search_tool_name() -> Seq<char> {
    seq!['s', 'e', 'a', 'r', 'c', 'h']
}

/// A call is served when it names the `search` tool and carries arguments.
pub fn check_tool_call(name: &str, has_arguments: bool) -> (r: Result<(), ToolError>)
    ensures
        r == if name@ != search_tool_name() {
            Err::<(), ToolError>(ToolError::UnknownTool)
        } else if !has_arguments {
            Err(ToolError::InvalidArguments)
        } else {
            Ok(())
        },
{
    let cs = chars_of(name);
    let search = vec!['s', 'e', 'a', 'r', 'c', 'h'];
    assert(search@ =~= search_tool_name());
    if !crate::scanner::same_chars(&cs, &search) {
        Err(ToolError::UnknownTool)
    } else if !has_arguments {
        Err(ToolError::InvalidArguments)
    } else {
        Ok(())
    }
}

pub const DEFAULT_LIMIT: usize = 10;

/// The result limit: the one given on the command line, else the one of the
/// environment, else 10.
pub fn resolve_limit(given: Option<usize>, from_env: Option<usize>) -> (r: usize)
    ensures
        r == match given {
            Some(l) => l,
            None => match from_env {
                Some(l) => l,
                None => DEFAULT_LIMIT,
            },
        },
{
    match given {
        Some(l) => l,
        None => match from_env {
            Some(l) => l,
            None => DEFAULT_LIMIT,
        },
    }
}

pub open spec fn digit_chars() -> Seq<char> {
    seq!['0', '1', '2', '3', '4', '5', '6', '7', '8', '9']
}

/// The decimal digits of `n`.
pub open spec fn decimal(n: nat) -> Seq<char>
    decreases n,
{
    if n < 10 {
        seq![digit_chars()[n as int]]
    } else {
        decimal(n / 10).push(digit_chars()[(n % 10) as int])
    }
}

fn digit(d: u64) -> (c: char)
    requires
        d < 10,
    ensures
        c == digit_chars()[d as int],
{
    let c = match d {
        0 => '0',
        1 => '1',
        2 => '2',
        3 => '3',
        4 => '4',
        5 => '5',
        6 => '6',
        7 => '7',
        8 => '8',
        _ => '9',
    };
    c
}

fn push_decimal(s: &mut String, n: u64)
    ensures
        final(s)@ == old(s)@ + decimal(n as nat),
    decreases n,
{
    if n >= 10 {
        push_decimal(s, n / 10);
    }
    push_char(s, digit(n % 10));
    assert(final(s)@ =~= old(s)@ + decimal(n as nat));
}

fn push_str(s: &mut String, t: &str)
    ensures
        final(s)@ == old(s)@ + t@,
{
    let cs = chars_of(t);
    let ghost base = s@;
    let mut i: usize = 0;
    while i < cs.len()
        invariant
            i <= cs.len(),
            cs@ == t@,
            s@ == base + cs@.subrange(0, i as int),
        decreases cs.len() - i,
    {
        push_char(s, cs[i]);
        assert(s@ =~= base + cs@.subrange(0, i + 1));
        i = i + 1;
    }
    assert(cs@.subrange(0, cs.len() as int) =~= cs@);
}

fn push_chars(s: &mut String, cs: &Vec<char>)
    ensures
        final(s)@ == old(s)@ + cs@,
{
    let ghost base = s@;
    let mut i: usize = 0;
    while i < cs.len()
        invariant
            i <= cs.len(),
            s@ == base + cs@.subrange(0, i as int),
        decreases cs.len() - i,
    {
        push_char(s, cs[i]);
        assert(s@ =~= base + cs@.subrange(0, i + 1));
        i = i + 1;
    }
    assert(cs@.subrange(0, cs.len() as int) =~= cs@);
}

/// A score in millionths written with two decimals, rounded half up.
pub open spec fn score_text(score: int) -> Seq<char> {
    let h = (score + 5000) / 10000;
    decimal((h / 100) as nat) + seq!['.'] + seq![digit_chars()[(h % 100) / 10], digit_chars()[h % 10]]
}

pub open spec fn rule() -> Seq<char> {
    Seq::new(50, |i: int| '-')
}

/// One result of a response: `path:start:end (score: X.XX)`, a rule, the
/// content, a rule, and a blank line.
pub open spec fn result_text(r: SearchResultView) -> Seq<char> {
    r.file_path + seq![':'] + decimal(r.line_start as nat) + seq![':'] + decimal(r.line_end as nat)
        + seq![' ', '(', 's', 'c', 'o', 'r', 'e', ':', ' '] + score_text(r.score) + seq![')', '\n']
        + rule() + seq!['\n'] + r.content + seq!['\n'] + rule() + seq!['\n', '\n']
}

pub open spec fn results_text(rs: Seq<SearchResultView>) -> Seq<char>
    decreases rs.len(),
{
    if rs.len() == 0 {
        seq![]
    } else {
        results_text(rs.drop_last()) + result_text(rs.last())
    }
}

pub open spec fn no_results_text() -> Seq<char> {
    seq![
        'N', 'o', ' ', 'r', 'e', 's', 'u', 'l', 't', 's', ' ', 'f', 'o', 'u', 'n', 'd', '.'
    ]
}

/// The text of a search response.
pub open spec fn response_text(rs: Seq<SearchResultView>) -> Seq<char> {
    if rs.len() == 0 {
        no_results_text()
    } else {
        results_text(rs)
    }
}

fn push_score(s: &mut String, score: u64)
    ensures
        final(s)@ == old(s)@ + score_text(score as int),
{
    let h: u64 = if score > u64::MAX - 5000 {
        (score / 10000) + if score % 10000 + 5000 >= 10000 {
            1
        } else {
            0
        }
    } else {
        (score + 5000) / 10000
    };
    assert(h as int == (score + 5000) / 10000) by (nonlinear_arith)
        requires
            h == if score > u64::MAX - 5000 {
                (score / 10000) + if score % 10000 + 5000 >= 10000 {
                    1int
                } else {
                    0int
                }
            } else {
                (score + 5000) / 10000
            },
    ;
    push_decimal(s, h / 100);
    push_char(s, '.');
    push_char(s, digit((h % 100) / 10));
    push_char(s, digit(h % 10));
    assert(final(s)@ =~= old(s)@ + score_text(score as int));
}

fn push_result(s: &mut String, r: &SearchResult, head: &Vec<char>, rule_chars: &Vec<char>)
    requires
        rule_chars@ == rule(),
        head@ == seq![' ', '(', 's', 'c', 'o', 'r', 'e', ':', ' '],
    ensures
        final(s)@ == old(s)@ + result_text(r@),
{
    let ghost v = r@;
    let ghost a0 = s@;
    push_str(s, r.file_path.as_str());
    push_char(s, ':');
    let ghost a1 = s@;
    assert(a1 =~= a0 + (v.file_path + seq![':']));
    push_decimal(s, r.line_start as u64);
    push_char(s, ':');
    push_decimal(s, r.line_end as u64);
    let ghost lines_part = decimal(v.line_start as nat) + seq![':'] + decimal(v.line_end as nat);
    let ghost a2 = s@;
    assert(a2 =~= a1 + lines_part);
    push_chars(s, head);
    push_score(s, r.score);
    push_char(s, ')');
    push_char(s, '\n');
    let ghost score_part = seq![' ', '(', 's', 'c', 'o', 'r', 'e', ':', ' '] + score_text(v.score) + seq![
        ')',
        '\n',
    ];
    let ghost a3 = s@;
    assert(a3 =~= a2 + score_part);
    push_chars(s, rule_chars);
    push_char(s, '\n');
    push_str(s, r.content.as_str());
    push_char(s, '\n');
    let ghost body_part = rule() + seq!['\n'] + v.content + seq!['\n'];
    let ghost a4 = s@;
    assert(a4 =~= a3 + body_part);
    push_chars(s, rule_chars);
    push_char(s, '\n');
    push_char(s, '\n');
    let ghost end_part = rule() + seq!['\n', '\n'];
    assert(s@ =~= a4 + end_part);
    assert(result_text(v) =~= (v.file_path + seq![':']) + lines_part + score_part + body_part + end_part);
}

/// Writes the response to a search: "No results found." when there is no
/// result, else each result as `path:start:end (score: X.XX)`, a rule of 50
/// dashes, its content, a rule, and a blank line.
pub fn format_response(results: &Vec<SearchResult>) -> (r: String)
    ensures
        r@ == response_text(results_view(results@)),
{
    let mut s = String::new();
    if results.len() == 0 {
        let msg = vec![
            'N', 'o', ' ', 'r', 'e', 's', 'u', 'l', 't', 's', ' ', 'f', 'o', 'u', 'n', 'd', '.'
        ];
        push_chars(&mut s, &msg);
        assert(msg@ =~= no_results_text());
        assert(s@ =~= no_results_text());
        return s;
    }
    let mut rule_chars: Vec<char> = Vec::new();
    let mut k: usize = 0;
    while k < 50
        invariant
            k <= 50,
            rule_chars@ == Seq::new(k as nat, |i: int| '-'),
        decreases 50 - k,
    {
        rule_chars.push('-');
        assert(rule_chars@ =~= Seq::new((k + 1) as nat, |i: int| '-'));
        k = k + 1;
    }
    let head = vec![' ', '(', 's', 'c', 'o', 'r', 'e', ':', ' '];
    let ghost rv = results_view(results@);
    let mut i: usize = 0;
    while i < results.len()
        invariant
            i <= results.len(),
            rv == results_view(results@),
            rule_chars@ == rule(),
            head@ == seq![' ', '(', 's', 'c', 'o', 'r', 'e', ':', ' '],
            s@ == results_text(rv.subrange(0, i as int)),
        decreases results.len() - i,
    {
        let r = &results[i];
        push_result(&mut s, r, &head, &rule_chars);
        proof {
            assert(rv.subrange(0, i + 1).drop_last() =~= rv.subrange(0, i as int));
            assert(rv.subrange(0, i + 1).last() == r@);
        }
        i = i + 1;
    }
    assert(rv.subrange(0, results.len() as int) =~= rv);
    s
}

} // verus!
