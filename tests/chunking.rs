use code_search::chunker::chunk_with_heuristic;
use code_search::grammar::{chunk_with_tree_sitter, grammar_for_extension, process_file, Grammar};
use code_search::scanner::FileChunk;
use code_search::syntax::{chunk_from_captures, SyntaxSpan};

fn numbered_lines(n: usize, prefix: &str) -> String {
    let mut s = String::new();
    for i in 0..n {
        s.push_str(&format!("{}{}\n", prefix, i));
    }
    s
}

fn line_count(text: &str) -> usize {
    text.lines().count()
}

#[test]
fn two_python_functions_give_two_chunks() {
    let mut src = String::new();
    src.push_str("def first():\n");
    for i in 0..8 {
        src.push_str(&format!("    x{} = {}\n", i, i));
    }
    src.push_str("    return 1\n");
    src.push_str("\n");
    src.push_str("def second():\n");
    for i in 0..27 {
        src.push_str(&format!("    y{} = {}\n", i, i));
    }
    src.push_str("    return 2\n");
    let chunks = process_file("a.py", &src, 100, 60);
    assert_eq!(chunks.len(), 2);
    assert_eq!((chunks[0].line_start, chunks[0].line_end), (1, 10));
    assert_eq!((chunks[1].line_start, chunks[1].line_end), (12, 40));
    assert_eq!(chunks[0].chunk_index, 0);
    assert_eq!(chunks[1].chunk_index, 1);
    assert_eq!(chunks[0].file_path, "a.py");
    assert_eq!(chunks[1].mtime, 100);
    assert!(chunks[1].content.starts_with("def second():"));
}

#[test]
fn long_function_is_cut_into_windows_from_its_first_line() {
    let mut src = String::new();
    src.push_str("fn big() {\n");
    for i in 0..198 {
        src.push_str(&format!("    let v{} = {};\n", i, i));
    }
    src.push_str("}\n");
    let chunks = process_file("big.rs", &src, 5, 60);
    assert!(chunks.len() > 1);
    assert_eq!(chunks[0].line_start, 1);
    assert_eq!(chunks.last().unwrap().line_end, 200);
    for (i, c) in chunks.iter().enumerate() {
        assert_eq!(c.chunk_index, i);
        let len = c.line_end - c.line_start + 1;
        assert!(len <= 60);
        assert!(len >= 10);
    }
    for w in chunks.windows(2) {
        assert!(w[1].line_start <= w[0].line_end + 1);
        assert!(w[1].line_start > w[0].line_start);
    }
}

#[test]
fn comment_above_a_function_joins_its_chunk() {
    let src = "// adds two numbers\n// carefully\nfn add(a: i32, b: i32) -> i32 {\n    a + b\n}\n";
    let chunks = process_file("lib.rs", src, 1, 60);
    assert_eq!(chunks.len(), 1);
    assert_eq!((chunks[0].line_start, chunks[0].line_end), (1, 5));
    assert!(chunks[0].content.starts_with("// adds two numbers"));
}

#[test]
fn file_without_grammar_uses_the_heuristic() {
    let text = numbered_lines(5, "note ");
    assert!(chunk_with_tree_sitter("notes.md", &text, 1, 60).is_none());
    let chunks = process_file("notes.md", &text, 1, 60);
    assert_eq!(chunks.len(), 1);
    assert_eq!(chunks[0].content, text.trim_end_matches('\n'));
}

#[test]
fn each_grammar_parses_a_definition() {
    let cases = [
        ("a.rs", "fn main() {\n}\n"),
        ("a.py", "def main():\n    pass\n"),
        ("a.go", "package main\n\nfunc main() {\n}\n"),
        ("a.js", "function main() {\n}\n"),
        ("a.ts", "function main(): void {\n}\n"),
        ("a.tsx", "function main() {\n}\n"),
        ("A.java", "class A {\n}\n"),
        ("a.cpp", "int main() {\n  return 0;\n}\n"),
        ("a.php", "<?php\nfunction main() {\n}\n"),
        ("a.rb", "def main\nend\n"),
        ("a.cs", "class A {\n}\n"),
    ];
    for (path, src) in cases.iter() {
        let chunks = chunk_with_tree_sitter(path, src, 3, 60).expect(path);
        assert!(!chunks.is_empty(), "{}", path);
        assert!(chunks[0].line_start >= 1, "{}", path);
    }
}

#[test]
fn extensions_map_to_grammars() {
    let ext = |s: &str| s.chars().collect::<Vec<char>>();
    assert_eq!(grammar_for_extension(&ext("rs")), Some(Grammar::Rust));
    assert_eq!(grammar_for_extension(&ext("jsx")), Some(Grammar::JavaScript));
    assert_eq!(grammar_for_extension(&ext("hpp")), Some(Grammar::Cpp));
    assert_eq!(grammar_for_extension(&ext("tsx")), Some(Grammar::Tsx));
    assert_eq!(grammar_for_extension(&ext("c")), None);
    assert_eq!(grammar_for_extension(&ext("md")), None);
}

#[test]
fn short_text_is_one_chunk() {
    let chunks = chunk_with_heuristic("a\nb\nc\n", "notes.txt", 7, 60);
    assert_eq!(chunks.len(), 1);
    assert_eq!(chunks[0].line_start, 1);
    assert_eq!(chunks[0].line_end, 3);
    assert_eq!(chunks[0].content, "a\nb\nc");
}

#[test]
fn short_text_still_breaks_at_a_definition() {
    let mut text = numbered_lines(12, "x");
    text.push_str("def later():\n");
    text.push_str(&numbered_lines(5, "y"));
    let chunks = chunk_with_heuristic(&text, "s.txt", 1, 60);
    assert_eq!(chunks.len(), 2);
    assert_eq!((chunks[0].line_start, chunks[0].line_end), (1, 12));
    assert_eq!((chunks[1].line_start, chunks[1].line_end), (13, 18));
}

#[test]
fn repeated_range_after_another_span_gives_one_chunk() {
    let content = "fn a() {}\nfn b() {}\n";
    let spans = vec![
        SyntaxSpan { start_byte: 0, end_byte: 9, start_row: 0, end_row: 0, is_comment: false },
        SyntaxSpan { start_byte: 0, end_byte: 19, start_row: 0, end_row: 1, is_comment: false },
        SyntaxSpan { start_byte: 0, end_byte: 9, start_row: 0, end_row: 0, is_comment: false },
    ];
    let chunks = chunk_from_captures(content, &spans, "x.rs", 9, 60);
    assert_eq!(chunks.len(), 2);
    assert_eq!(chunks[0].content, "fn a() {}");
    assert_eq!(chunks[1].content, "fn a() {}\nfn b() {}");
}

#[test]
fn blank_and_empty_text_give_no_chunk() {
    assert!(chunk_with_heuristic("", "e.txt", 1, 60).is_empty());
    assert!(chunk_with_heuristic("  \n\t\n", "e.txt", 1, 60).is_empty());
    let blank = "\n".repeat(100);
    assert!(chunk_with_heuristic(&blank, "e.txt", 1, 60).is_empty());
}

#[test]
fn windows_break_at_definitions() {
    let mut text = numbered_lines(12, "x");
    text.push_str("fn second() {\n");
    text.push_str(&numbered_lines(20, "y"));
    let chunks = chunk_with_heuristic(&text, "w.txt", 1, 20);
    assert_eq!((chunks[0].line_start, chunks[0].line_end), (1, 12));
    assert_eq!(chunks[1].line_start, 13);
    assert!(chunks[1].content.starts_with("fn second() {"));
}

#[test]
fn forced_windows_overlap_by_eight_lines() {
    let text = numbered_lines(100, "line ");
    let chunks = chunk_with_heuristic(&text, "o.txt", 1, 30);
    assert_eq!((chunks[0].line_start, chunks[0].line_end), (1, 30));
    assert_eq!((chunks[1].line_start, chunks[1].line_end), (23, 52));
    assert_eq!((chunks[2].line_start, chunks[2].line_end), (45, 74));
    assert_eq!(chunks[0].content, (0..30).map(|i| format!("line {}", i)).collect::<Vec<_>>().join("\n"));
}

#[test]
fn small_limits_overlap_by_half() {
    let text = numbered_lines(40, "l");
    let chunks = chunk_with_heuristic(&text, "s.txt", 1, 12);
    assert_eq!((chunks[0].line_start, chunks[0].line_end), (1, 12));
    assert_eq!(chunks[1].line_start, 7);
}

#[test]
fn crlf_lines_are_counted_once() {
    let text = "a\r\nb\r\nc\r\n";
    let chunks = chunk_with_heuristic(text, "c.txt", 1, 60);
    assert_eq!(chunks[0].line_end, 3);
}

#[test]
fn heuristic_chunks_cover_non_blank_lines_and_keep_line_order() {
    let mut text = String::new();
    for i in 0..150 {
        if i % 7 == 0 {
            text.push_str("\n");
        } else if i % 23 == 0 {
            text.push_str("def f():\n");
        } else {
            text.push_str(&format!("value {}\n", i));
        }
    }
    let chunks: Vec<FileChunk> = chunk_with_heuristic(&text, "cov.txt", 1, 40);
    let lines: Vec<&str> = text.lines().collect();
    for (j, line) in lines.iter().enumerate() {
        if !line.trim().is_empty() {
            assert!(chunks.iter().any(|c| c.line_start <= j + 1 && j + 1 <= c.line_end));
        }
    }
    for c in &chunks {
        assert!(1 <= c.line_start && c.line_start <= c.line_end);
        let expected = c.line_end - c.line_start + 1;
        let trailing = if c.content.ends_with('\n') { 1 } else { 0 };
        assert_eq!(line_count(&c.content) + trailing, expected);
    }
}

#[test]
fn captures_with_bad_ranges_are_skipped() {
    let content = "abc\ndef\n";
    let spans = vec![
        SyntaxSpan { start_byte: 4, end_byte: 2, start_row: 1, end_row: 1, is_comment: false },
        SyntaxSpan { start_byte: 0, end_byte: 99, start_row: 0, end_row: 0, is_comment: false },
        SyntaxSpan { start_byte: 4, end_byte: 7, start_row: 1, end_row: 1, is_comment: false },
    ];
    let chunks = chunk_from_captures(content, &spans, "x.rs", 9, 60);
    assert_eq!(chunks.len(), 1);
    assert_eq!(chunks[0].content, "def");
    assert_eq!((chunks[0].line_start, chunks[0].line_end), (2, 2));
}

#[test]
fn repeated_capture_ranges_give_one_chunk() {
    let content = "// c\nfn a() {}\n";
    let spans = vec![
        SyntaxSpan { start_byte: 5, end_byte: 14, start_row: 1, end_row: 1, is_comment: false },
        SyntaxSpan { start_byte: 0, end_byte: 4, start_row: 0, end_row: 0, is_comment: true },
        SyntaxSpan { start_byte: 5, end_byte: 14, start_row: 1, end_row: 1, is_comment: false },
    ];
    let chunks = chunk_from_captures(content, &spans, "x.rs", 9, 60);
    assert_eq!(chunks.len(), 2);
    assert_eq!(chunks[0].content, "// c\nfn a() {}");
    assert_eq!((chunks[0].line_start, chunks[0].line_end), (1, 2));
    assert_eq!(chunks[1].content, "fn a() {}");
}

#[test]
fn invalid_utf8_bytes_are_replaced() {
    let content = "é\nfn a() {}\n";
    let spans = vec![SyntaxSpan { start_byte: 1, end_byte: 2, start_row: 0, end_row: 0, is_comment: false }];
    let chunks = chunk_from_captures(content, &spans, "x.rs", 9, 60);
    assert_eq!(chunks[0].content, "\u{fffd}");
}
