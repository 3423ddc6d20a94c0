use code_search::ranker::{find_text_rank, rank_candidates, rank_with_matches, SearchResult};

fn hit(path: &str, index: usize, content: &str, score: u64) -> SearchResult {
    SearchResult {
        file_path: path.to_string(),
        chunk_index: index,
        content: content.to_string(),
        line_start: 1,
        line_end: 2,
        score,
    }
}

fn strings(v: &[&str]) -> Vec<String> {
    v.iter().map(|s| s.to_string()).collect()
}

#[test]
fn literal_match_outranks_higher_vector_score() {
    let cands = vec![
        hit("b.rs", 0, "something unrelated", 700_000),
        hit("a.rs", 0, "calls Foo Bar here", 650_000),
    ];
    let ranked = rank_candidates(&cands, &Vec::new(), "foo bar", 10);
    assert_eq!(ranked.len(), 2);
    assert_eq!(ranked[0].file_path, "a.rs");
    assert_eq!(ranked[0].score, 750_000);
    assert_eq!(ranked[1].score, 700_000);
}

#[test]
fn lowercasing_is_applied_to_query_and_content() {
    let cands = vec![hit("a.rs", 0, "ÄBC", 100_000)];
    let ranked = rank_candidates(&cands, &Vec::new(), "äbc", 10);
    assert_eq!(ranked[0].score, 200_000);
}

#[test]
fn text_rank_adds_reciprocal_boost() {
    let cands = vec![hit("a.rs", 0, "x", 500_000), hit("b.rs", 0, "y", 500_000)];
    let text = strings(&["b.rs", "a.rs", "b.rs"]);
    let ranked = rank_with_matches(&cands, &text, &vec![false, false], 10);
    assert_eq!(ranked[0].file_path, "b.rs");
    assert_eq!(ranked[0].score, 500_000 + 10_000_000 / 60);
    assert_eq!(ranked[1].score, 500_000 + 10_000_000 / 61);
}

#[test]
fn first_text_position_is_the_rank() {
    let text = strings(&["x", "y", "x"]);
    assert_eq!(find_text_rank(&text, &"x".to_string()), Some(0));
    assert_eq!(find_text_rank(&text, &"y".to_string()), Some(1));
    assert_eq!(find_text_rank(&text, &"z".to_string()), None);
}

#[test]
fn low_scores_are_dropped() {
    let cands = vec![hit("a.rs", 0, "x", 10_000), hit("b.rs", 0, "y", 10_001)];
    let ranked = rank_with_matches(&cands, &Vec::new(), &vec![false, false], 10);
    assert_eq!(ranked.len(), 1);
    assert_eq!(ranked[0].file_path, "b.rs");
}

#[test]
fn at_most_three_chunks_per_file() {
    let mut cands = Vec::new();
    for i in 0..6 {
        cands.push(hit("same.rs", i, "x", 900_000 - i as u64));
    }
    cands.push(hit("other.rs", 0, "x", 100_000));
    let ranked = rank_with_matches(&cands, &Vec::new(), &vec![false; 7], 10);
    assert_eq!(ranked.len(), 4);
    assert_eq!(ranked.iter().filter(|r| r.file_path == "same.rs").count(), 3);
    assert_eq!(ranked[3].file_path, "other.rs");
    assert_eq!(ranked[0].chunk_index, 0);
}

#[test]
fn limit_truncates_and_ties_keep_order() {
    let cands = vec![
        hit("a.rs", 0, "x", 300_000),
        hit("b.rs", 0, "x", 300_000),
        hit("c.rs", 0, "x", 300_000),
    ];
    let ranked = rank_with_matches(&cands, &Vec::new(), &vec![false; 3], 2);
    assert_eq!(ranked.len(), 2);
    assert_eq!(ranked[0].file_path, "a.rs");
    assert_eq!(ranked[1].file_path, "b.rs");
    let none = rank_with_matches(&cands, &Vec::new(), &vec![false; 3], 0);
    assert!(none.is_empty());
}

#[test]
fn no_candidates_rank_to_nothing() {
    let ranked = rank_candidates(&Vec::new(), &strings(&["a.rs"]), "anything", 10);
    assert!(ranked.is_empty());
}
