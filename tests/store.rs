use code_search::protocol::{check_tool_call, format_response, resolve_limit, SearchArgs, ToolError};
use code_search::ranker::SearchResult;
use code_search::store::{delete_filter, embedding_batches, similarity_from_distance, vector_fetch_limit};

#[test]
fn distance_becomes_bounded_similarity() {
    assert_eq!(similarity_from_distance(0), 1_000_000);
    assert_eq!(similarity_from_distance(500_000), 750_000);
    assert_eq!(similarity_from_distance(2_000_000), 0);
    assert_eq!(similarity_from_distance(4_000_000), 0);
    assert_eq!(similarity_from_distance(u64::MAX), 0);
}

#[test]
fn fetch_limit_is_three_times_or_fifty() {
    assert_eq!(vector_fetch_limit(10), 50);
    assert_eq!(vector_fetch_limit(17), 51);
    assert_eq!(vector_fetch_limit(0), 50);
}

#[test]
fn batches_of_thirty_two() {
    assert_eq!(embedding_batches(0), vec![]);
    assert_eq!(embedding_batches(32), vec![(0, 32)]);
    assert_eq!(embedding_batches(70), vec![(0, 32), (32, 64), (64, 70)]);
}

#[test]
fn filter_names_each_path_quoted() {
    assert_eq!(delete_filter(&vec![]), None);
    let f = delete_filter(&vec!["a.rs".to_string(), "it's.py".to_string()]).unwrap();
    assert_eq!(f, "file_path IN ('a.rs', 'it''s.py')");
}

#[test]
fn tool_calls_are_checked() {
    assert_eq!(check_tool_call("search", true), Ok(()));
    assert_eq!(check_tool_call("search", false), Err(ToolError::InvalidArguments));
    assert_eq!(check_tool_call("find", true), Err(ToolError::UnknownTool));
    assert_eq!(ToolError::UnknownTool.code(), -32601);
    assert_eq!(ToolError::InvalidArguments.code(), -32602);
    assert_eq!(ToolError::SearchFailed.code(), -32000);
}

#[test]
fn limit_prefers_given_then_environment() {
    assert_eq!(resolve_limit(Some(3), Some(7)), 3);
    assert_eq!(resolve_limit(None, Some(7)), 7);
    assert_eq!(resolve_limit(None, None), 10);
}

#[test]
fn repository_defaults_to_current_directory() {
    let args = SearchArgs { query: "q".to_string(), repository_path: None };
    assert_eq!(args.repository_or_default(), ".");
    let args = SearchArgs { query: "q".to_string(), repository_path: Some("/r".to_string()) };
    assert_eq!(args.repository_or_default(), "/r");
}

#[test]
fn response_text_lists_results() {
    assert_eq!(format_response(&vec![]), "No results found.");
    let r = SearchResult {
        file_path: "src/a.rs".to_string(),
        chunk_index: 0,
        content: "fn a() {}".to_string(),
        line_start: 3,
        line_end: 14,
        score: 1_234_567,
    };
    let rule = "-".repeat(50);
    let expected = format!("src/a.rs:3:14 (score: 1.23)\n{}\nfn a() {{}}\n{}\n\n", rule, rule);
    assert_eq!(format_response(&vec![r]), expected);
}

#[test]
fn scores_round_to_hundredths() {
    let r = |score: u64| SearchResult {
        file_path: "p".to_string(),
        chunk_index: 0,
        content: String::new(),
        line_start: 1,
        line_end: 1,
        score,
    };
    assert!(format_response(&vec![r(5_000)]).starts_with("p:1:1 (score: 0.01)"));
    assert!(format_response(&vec![r(4_999)]).starts_with("p:1:1 (score: 0.00)"));
    assert!(format_response(&vec![r(20_000_000)]).starts_with("p:1:1 (score: 20.00)"));
}
