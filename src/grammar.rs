//! The grammars of the syntax-aware chunker: which file extensions have
//! one, the query that captures each grammar's definitions and comments, and
//! running that query with tree-sitter.

use vstd::prelude::*;
use tree_sitter::{Language, Parser, Query, QueryCursor, StreamingIterator};
use tree_sitter_rust::LANGUAGE as RUST;
use tree_sitter_python::LANGUAGE as PYTHON;
use tree_sitter_go::LANGUAGE as GO;
use tree_sitter_javascript::LANGUAGE as JAVASCRIPT;
use tree_sitter_typescript::LANGUAGE_TYPESCRIPT as TYPESCRIPT;
use tree_sitter_typescript::LANGUAGE_TSX as TSX;
use tree_sitter_java::LANGUAGE as JAVA;
use tree_sitter_cpp::LANGUAGE as CPP;
use tree_sitter_php::LANGUAGE_PHP as PHP;
use tree_sitter_ruby::LANGUAGE as RUBY;
use tree_sitter_c_sharp::LANGUAGE as C_SHARP;
use crate::chunker::{chunk_with_heuristic, heuristic_chunks};
use crate::scanner::{FileChunk, chunks_view, extension_of, path_extension, same_chars};
use crate::syntax::{SyntaxSpan, chunk_from_captures, syntax_chunks};
use crate::text::chars_of;
use vstd::string::StringSliceAdditionalSpecFns;

verus! {

/// A language that the syntax-aware chunker parses.
#[derive(Debug, Clone, Copy, PartialEq, Eq, Structural)]
pub enum Grammar {
    Rust,
    Python,
    Go,
    JavaScript,
    TypeScript,
    Tsx,
    Java,
    Cpp,
    Php,
    Ruby,
    CSharp,
}

/// The grammar of a file extension, if it has one.
pub open spec fn grammar_for(ext: Seq<char>) -> Option<Grammar> {
    if ext == seq!['r', 's'] {
        Some(Grammar::Rust)
    }     else if ext == seq!['p', 'y'] {
        Some(Grammar::Python)
    }     else if ext == seq!['g', 'o'] {
        Some(Grammar::Go)
    }     else if ext == seq!['j', 's'] || ext == seq!['j', 's', 'x'] || ext == seq!['m', 'j', 's'] || ext == seq!['c', 'j', 's'] {
        Some(Grammar::JavaScript)
    }     else if ext == seq!['t', 's'] {
        Some(Grammar::TypeScript)
    }     else if ext == seq!['t', 's', 'x'] {
        Some(Grammar::Tsx)
    }     else if ext == seq!['j', 'a', 'v', 'a'] {
        Some(Grammar::Java)
    }     else if ext == seq!['c', 'p', 'p'] || ext == seq!['c', 'c'] || ext == seq!['c', 'x', 'x'] || ext == seq!['h'] || ext == seq!['h', 'p', 'p'] {
        Some(Grammar::Cpp)
    }     else if ext == seq!['p', 'h', 'p'] {
        Some(Grammar::Php)
    }     else if ext == seq!['r', 'b'] {
        Some(Grammar::Ruby)
    }     else if ext == seq!['c', 's'] {
        Some(Grammar::CSharp)
    } else {
        None
    }
}

/// The grammar of a file extension (see `grammar_for`).
pub fn grammar_for_extension(ext: &Vec<char>) -> (r: Option<Grammar>)
    ensures
        r == grammar_for(ext@),
{
    let e0 = vec!['r', 's'];
    assert(e0@ =~= seq!['r', 's']);
    let e1 = vec!['p', 'y'];
    assert(e1@ =~= seq!['p', 'y']);
    let e2 = vec!['g', 'o'];
    assert(e2@ =~= seq!['g', 'o']);
    let e3 = vec!['j', 's'];
    assert(e3@ =~= seq!['j', 's']);
    let e4 = vec!['j', 's', 'x'];
    assert(e4@ =~= seq!['j', 's', 'x']);
    let e5 = vec!['m', 'j', 's'];
    assert(e5@ =~= seq!['m', 'j', 's']);
    let e6 = vec!['c', 'j', 's'];
    assert(e6@ =~= seq!['c', 'j', 's']);
    let e7 = vec!['t', 's'];
    assert(e7@ =~= seq!['t', 's']);
    let e8 = vec!['t', 's', 'x'];
    assert(e8@ =~= seq!['t', 's', 'x']);
    let e9 = vec!['j', 'a', 'v', 'a'];
    assert(e9@ =~= seq!['j', 'a', 'v', 'a']);
    let e10 = vec!['c', 'p', 'p'];
    assert(e10@ =~= seq!['c', 'p', 'p']);
    let e11 = vec!['c', 'c'];
    assert(e11@ =~= seq!['c', 'c']);
    let e12 = vec!['c', 'x', 'x'];
    assert(e12@ =~= seq!['c', 'x', 'x']);
    let e13 = vec!['h'];
    assert(e13@ =~= seq!['h']);
    let e14 = vec!['h', 'p', 'p'];
    assert(e14@ =~= seq!['h', 'p', 'p']);
    let e15 = vec!['p', 'h', 'p'];
    assert(e15@ =~= seq!['p', 'h', 'p']);
    let e16 = vec!['r', 'b'];
    assert(e16@ =~= seq!['r', 'b']);
    let e17 = vec!['c', 's'];
    assert(e17@ =~= seq!['c', 's']);
    if same_chars(ext, &e0) {
        return Some(Grammar::Rust);
    }
    if same_chars(ext, &e1) {
        return Some(Grammar::Python);
    }
    if same_chars(ext, &e2) {
        return Some(Grammar::Go);
    }
    if same_chars(ext, &e3) || same_chars(ext, &e4) || same_chars(ext, &e5) || same_chars(ext, &e6) {
        return Some(Grammar::JavaScript);
    }
    if same_chars(ext, &e7) {
        return Some(Grammar::TypeScript);
    }
    if same_chars(ext, &e8) {
        return Some(Grammar::Tsx);
    }
    if same_chars(ext, &e9) {
        return Some(Grammar::Java);
    }
    if same_chars(ext, &e10) || same_chars(ext, &e11) || same_chars(ext, &e12) || same_chars(ext, &e13) || same_chars(ext, &e14) {
        return Some(Grammar::Cpp);
    }
    if same_chars(ext, &e15) {
        return Some(Grammar::Php);
    }
    if same_chars(ext, &e16) {
        return Some(Grammar::Ruby);
    }
    if same_chars(ext, &e17) {
        return Some(Grammar::CSharp);
    }
    None
}

/// The query of a grammar: it captures the grammar's definitions, and its
/// comments under the name `comment`.
pub open spec fn query_text(g: Grammar) -> Seq<char> {
    match g {
        Grammar::Rust => "(line_comment) @comment\n(block_comment) @comment\n(function_item) @func\n(type_item) @type\n(struct_item) @struct\n(enum_item) @enum\n(trait_item) @trait\n(mod_item) @mod\n(macro_definition) @macro"@,
        Grammar::Python => "(comment) @comment\n(function_definition) @func\n(class_definition) @class"@,
        Grammar::Go => "(comment) @comment\n(function_declaration) @func\n(method_declaration) @method\n(type_declaration) @type"@,
        Grammar::JavaScript => "(comment) @comment\n(function_declaration) @func\n(method_definition) @method\n(arrow_function) @arrow\n(class_declaration) @class"@,
        Grammar::TypeScript => "(comment) @comment\n(function_declaration) @func\n(method_definition) @method\n(arrow_function) @arrow\n(interface_declaration) @interface\n(class_declaration) @class\n(enum_declaration) @enum"@,
        Grammar::Tsx => "(comment) @comment\n(function_declaration) @func\n(method_definition) @method\n(arrow_function) @arrow\n(interface_declaration) @interface\n(class_declaration) @class\n(jsx_element) @jsx"@,
        Grammar::Java => "(line_comment) @comment\n(block_comment) @comment\n(method_declaration) @method\n(class_declaration) @class\n(interface_declaration) @interface"@,
        Grammar::Cpp => "(comment) @comment\n(function_definition) @func\n(class_specifier) @class"@,
        Grammar::Php => "(comment) @comment\n(function_definition) @func\n(method_declaration) @method\n(class_declaration) @class"@,
        Grammar::Ruby => "(comment) @comment\n(method) @method\n(class) @class\n(module) @module"@,
        Grammar::CSharp => "(comment) @comment\n(method_declaration) @method\n(class_declaration) @class\n(interface_declaration) @interface"@,
    }
}

impl Grammar {
    /// The grammar's query (see `query_text`).
    pub fn query_source(self) -> (r: &'static str)
        ensures
            r@ == query_text(self),
    {
        match self {
            Grammar::Rust => "(line_comment) @comment\n(block_comment) @comment\n(function_item) @func\n(type_item) @type\n(struct_item) @struct\n(enum_item) @enum\n(trait_item) @trait\n(mod_item) @mod\n(macro_definition) @macro",
            Grammar::Python => "(comment) @comment\n(function_definition) @func\n(class_definition) @class",
            Grammar::Go => "(comment) @comment\n(function_declaration) @func\n(method_declaration) @method\n(type_declaration) @type",
            Grammar::JavaScript => "(comment) @comment\n(function_declaration) @func\n(method_definition) @method\n(arrow_function) @arrow\n(class_declaration) @class",
            Grammar::TypeScript => "(comment) @comment\n(function_declaration) @func\n(method_definition) @method\n(arrow_function) @arrow\n(interface_declaration) @interface\n(class_declaration) @class\n(enum_declaration) @enum",
            Grammar::Tsx => "(comment) @comment\n(function_declaration) @func\n(method_definition) @method\n(arrow_function) @arrow\n(interface_declaration) @interface\n(class_declaration) @class\n(jsx_element) @jsx",
            Grammar::Java => "(line_comment) @comment\n(block_comment) @comment\n(method_declaration) @method\n(class_declaration) @class\n(interface_declaration) @interface",
            Grammar::Cpp => "(comment) @comment\n(function_definition) @func\n(class_specifier) @class",
            Grammar::Php => "(comment) @comment\n(function_definition) @func\n(method_declaration) @method\n(class_declaration) @class",
            Grammar::Ruby => "(comment) @comment\n(method) @method\n(class) @class\n(module) @module",
            Grammar::CSharp => "(comment) @comment\n(method_declaration) @method\n(class_declaration) @class\n(interface_declaration) @interface",
        }
    }
}

/// A node that a query captured: its start and end bytes and the name of
/// its capture.
pub type SyntaxCapture = (usize, usize, String);

pub open spec fn capture_view(c: SyntaxCapture) -> (usize, usize, Seq<char>) {
    (c.0, c.1, c.2@)
}

pub open spec fn captures_view(r: Option<Vec<SyntaxCapture>>) -> Option<Seq<(usize, usize, Seq<char>)>> {
    match r {
        Some(v) => Some(v@.map_values(|c: SyntaxCapture| capture_view(c))),
        None => None,
    }
}

/// What tree-sitter captures when the grammar parses `source` and `query`
/// runs over the tree: every capture of every match, in the order the
/// matches come, or `None` when the grammar, the text or the query is
/// refused.
pub uninterp spec fn captures_of(grammar: Grammar, query: Seq<char>, source: Seq<u8>) -> Option<
    Seq<(usize, usize, Seq<char>)>,
>;

/// Relies on the grammar crates' `LANGUAGE` tables (listed in the order of
/// the `Grammar` variants) and on tree-sitter's `Parser::parse`, `Query::new`
/// and `QueryCursor::matches`: the captures depend on the grammar, the query
/// and the text alone.
#[verifier::external_body]
fn query_captures(grammar: Grammar, query: &str, source: &[u8]) -> (r: Option<Vec<SyntaxCapture>>)
    ensures
        captures_view(r) == captures_of(grammar, query@, source@),
{
    let language = Language::new([RUST, PYTHON, GO, JAVASCRIPT, TYPESCRIPT, TSX, JAVA, CPP, PHP, RUBY, C_SHARP][grammar as usize]);
    let mut parser = Parser::new();
    parser.set_language(&language).ok()?;
    let tree = parser.parse(source, None)?;
    let query = Query::new(&language, query).ok()?;
    let mut cursor = QueryCursor::new();
    let mut matches = cursor.matches(&query, tree.root_node(), source);
    let mut out = vec![];
    while let Some(m) = matches.next() {
        for c in m.captures() {
            out.push((c.node.start_byte(), c.node.end_byte(), query.capture_names()[c.index as usize].to_string()));
        }
    }
    Some(out)
}

pub open spec fn comment_capture_name() -> Seq<char> {
    seq!['c', 'o', 'm', 'm', 'e', 'n', 't']
}

/// The 0-based row of byte position `i`: the number of '\n' bytes before it
/// (as tree-sitter counts rows).
pub open spec fn row_at(b: Seq<u8>, i: int) -> int
    decreases i,
{
    if i <= 0 || i > b.len() {
        0
    } else {
        row_at(b, i - 1) + if b[i - 1] == 10u8 {
            1int
        } else {
            0int
        }
    }
}

/// A position, moved back to the end of the text if it lies past it.
pub open spec fn clamp(b: Seq<u8>, i: int) -> int {
    if i > b.len() {
        b.len() as int
    } else {
        i
    }
}

/// The span of a capture in the text `b`: its rows are those of its (clamped)
/// start and end bytes, and a capture named `comment` is a comment.
pub open spec fn span_of_capture(b: Seq<u8>, c: (usize, usize, Seq<char>)) -> SyntaxSpan {
    SyntaxSpan {
        start_byte: c.0,
        end_byte: c.1,
        start_row: row_at(b, clamp(b, c.0 as int)) as usize,
        end_row: row_at(b, clamp(b, c.1 as int)) as usize,
        is_comment: c.2 == comment_capture_name(),
    }
}

pub open spec fn spans_of(b: Seq<u8>, cs: Seq<(usize, usize, Seq<char>)>) -> Seq<SyntaxSpan> {
    cs.map_values(|c: (usize, usize, Seq<char>)| span_of_capture(b, c))
}

/// The row of every byte position of `b`, from 0 to its length.
fn rows_of(b: &[u8]) -> (r: Vec<usize>)
    ensures
        r.len() == b@.len() + 1,
        forall|i: int| 0 <= i <= b@.len() ==> r@[i] as int == row_at(b@, i),
{
    let mut r: Vec<usize> = Vec::new();
    r.push(0);
    let mut i: usize = 0;
    while i < b.len()
        invariant
            i <= b@.len(),
            r.len() == i + 1,
            forall|k: int| 0 <= k <= i ==> r@[k] as int == row_at(b@, k),
            forall|k: int| 0 <= k <= i ==> r@[k] <= k,
        decreases b.len() - i,
    {
        let last = r[i];
        let next = if b[i] == 10u8 {
            last + 1
        } else {
            last
        };
        r.push(next);
        i = i + 1;
    }
    r
}

/// The spans of the captures in the text `b` (see `span_of_capture`).
pub fn spans_of_captures(b: &[u8], caps: &Vec<SyntaxCapture>) -> (r: Vec<SyntaxSpan>)
    ensures
        r@ == spans_of(b@, caps@.map_values(|c: SyntaxCapture| capture_view(c))),
{
    let ghost cv = caps@.map_values(|c: SyntaxCapture| capture_view(c));
    let rows = rows_of(b);
    let comment = vec!['c', 'o', 'm', 'm', 'e', 'n', 't'];
    assert(comment@ =~= comment_capture_name());
    let mut out: Vec<SyntaxSpan> = Vec::new();
    let mut i: usize = 0;
    while i < caps.len()
        invariant
            i <= caps.len(),
            cv == caps@.map_values(|c: SyntaxCapture| capture_view(c)),
            comment@ == comment_capture_name(),
            rows.len() == b@.len() + 1,
            forall|k: int| 0 <= k <= b@.len() ==> rows@[k] as int == row_at(b@, k),
            out@ == spans_of(b@, cv.subrange(0, i as int)),
        decreases caps.len() - i,
    {
        let c = &caps[i];
        let name = chars_of(c.2.as_str());
        let is_comment = same_chars(&name, &comment);
        let s = if c.0 > b.len() { b.len() } else { c.0 };
        let e = if c.1 > b.len() { b.len() } else { c.1 };
        out.push(
            SyntaxSpan {
                start_byte: c.0,
                end_byte: c.1,
                start_row: rows[s],
                end_row: rows[e],
                is_comment,
            },
        );
        assert(cv[i as int] == capture_view(caps@[i as int]));
        assert(out@ =~= spans_of(b@, cv.subrange(0, i + 1)));
        i = i + 1;
    }
    assert(cv.subrange(0, caps.len() as int) =~= cv);
    out
}

pub open spec fn grammar_of_path(path: Seq<char>) -> Option<Grammar> {
    match extension_of(path) {
        Some(e) => grammar_for(e),
        None => None,
    }
}

/// The syntax-aware chunks of a file: `None` when its extension has no
/// grammar or tree-sitter refuses it, else the chunks of what the grammar's
/// query captured.
pub open spec fn tree_sitter_chunks(path: Seq<char>, content: &str, mtime: u64, max: int) -> Option<
    Seq<crate::scanner::ChunkView>,
> {
    match grammar_of_path(path) {
        None => None,
        Some(g) => match captures_of(g, query_text(g), content.spec_bytes()) {
            None => None,
            Some(cs) => Some(
                syntax_chunks(
                    content.spec_bytes(),
                    spans_of(content.spec_bytes(), cs),
                    path,
                    mtime,
                    max,
                ),
            ),
        },
    }
}

/// Cuts a file into chunks along its syntax: `None` when its extension has
/// no grammar or tree-sitter refuses to parse or query it, else the chunks
/// of `chunk_from_captures` for what the grammar's query captured.
pub fn chunk_with_tree_sitter(relative_path: &str, content: &str, mtime: u64, max_lines: usize) -> (r:
    Option<Vec<FileChunk>>)
    ensures
        match tree_sitter_chunks(relative_path@, content, mtime, max_lines as int) {
            None => r is None,
            Some(cs) => r matches Some(v) && chunks_view(v@) == cs,
        },
{
    let ext = match path_extension(relative_path) {
        Some(e) => e,
        None => return None,
    };
    let grammar = match grammar_for_extension(&ext) {
        Some(g) => g,
        None => return None,
    };
    let bytes = content.as_bytes();
    let caps = match query_captures(grammar, grammar.query_source(), bytes) {
        Some(c) => c,
        None => return None,
    };
    let spans = spans_of_captures(bytes, &caps);
    Some(chunk_from_captures(content, &spans, relative_path, mtime, max_lines))
}

/// Cuts a file into chunks: along its syntax where its extension has a
/// grammar and tree-sitter parses it, else by the heuristic chunker.
pub fn process_file(relative_path: &str, content: &str, mtime: u64, max_lines: usize) -> (r: Vec<
    FileChunk,
>)
    ensures
        chunks_view(r@) == match tree_sitter_chunks(relative_path@, content, mtime, max_lines as int) {
            Some(cs) => cs,
            None => heuristic_chunks(content@, relative_path@, mtime, max_lines as int),
        },
{
    match chunk_with_tree_sitter(relative_path, content, mtime, max_lines) {
        Some(chunks) => chunks,
        None => chunk_with_heuristic(content, relative_path, mtime, max_lines),
    }
}

} // verus!
