use pirs::graph::budget::{estimate_tokens, join_within_budget};
use pirs::graph::embed_plan::EmbedPlan;
use pirs::graph::lexical::{
    entry, hits_of, sanitize, search_request, LexError, LexicalIndex, Symbol, NAME_BOOST,
};
use pirs::graph::semantic_search::{
    rerank, RankedHit, SearchEvent, SearchStep, SemanticSearchTool,
};
use pirs::text::table::Table;

#[test]
fn empty_input_yields_empty_output() {
    assert_eq!(join_within_budget(&[], 100), "");
}

#[test]
fn everything_fits_when_well_under_budget() {
    let lines: Vec<String> = (0..5).map(|i| format!("line {i}")).collect();
    let out = join_within_budget(&lines, 1000);
    assert_eq!(out, lines.join("\n"));
}

#[test]
fn bisects_down_to_a_prefix_that_fits_and_notes_the_drop() {
    let lines: Vec<String> = (0..20).map(|i| format!("line number {i:02}")).collect();
    let budget = estimate_tokens(&lines[..3].join("\n"));
    let out = join_within_budget(&lines, budget);
    assert!(out.starts_with(&lines[..3].join("\n")), "{out}");
    assert!(out.contains("more result(s) omitted"), "should note the drop: {out}");
    assert!(!out.contains("line number 19"), "{out}");
}

#[test]
fn a_single_oversized_line_is_still_returned_not_dropped_to_nothing() {
    let huge = "x".repeat(10_000);
    let lines = vec![huge.clone()];
    let out = join_within_budget(&lines, 1);
    assert_eq!(out, huge, "one oversized item beats an empty result");
}

#[test]
fn result_never_exceeds_budget_by_more_than_the_first_line() {
    let lines: Vec<String> = (0..50).map(|i| format!("entry {i:03}")).collect();
    let out = join_within_budget(&lines, 10);
    let kept = out.split("\n… ").next().unwrap();
    assert!(
        estimate_tokens(kept) <= 10 || kept == lines[0],
        "kept text should respect the budget once more than one line is included: {kept}"
    );
}

#[test]
fn sanitize_strips_punctuation() {
    assert_eq!(
        sanitize("where do we refresh() the token?!"),
        "where do we refresh the token"
    );
    assert_eq!(sanitize("  "), "");
}

#[test]
fn sanitize_surfaces_the_words_of_a_term() {
    assert_eq!(sanitize("refreshStale"), "refreshStale refresh stale");
    assert_eq!(sanitize("refresh_stale"), "refresh_stale refresh stale");
    assert_eq!(sanitize("__init__"), "__init__");
    assert_eq!(sanitize("x2Y über-größe"), "x2Y x2 y über größe");
}

#[test]
fn words_of_the_query_language_are_written_small() {
    assert_eq!(sanitize("NOT a OR b AND c IN d"), "not a or b and c in d");
    assert_eq!(sanitize("NOTE TO ORDER Not"), "NOTE TO ORDER Not");
    let idx = sample_index();
    for query in ["NOT", "OR validate", "validate AND", "NOT validate", "x IN [validate]", "AND OR"] {
        let found = names(&idx, query, 5).contains(&"validate".to_string());
        assert_eq!(found, query.contains("validate"), "{query}");
    }
}

#[test]
fn what_tantivy_is_asked() {
    let request = search_request("where NOT is it?", 5, 3);
    assert_eq!(request.terms, "where not is it");
    assert_eq!((request.limit, request.boost), (3, NAME_BOOST));
    assert_eq!(search_request("x", 2, 3).limit, 2);
    assert_eq!(search_request("x", 2, 0).limit, 1);
    assert_eq!(search_request("x", 0, 3).limit, 1);
}

#[test]
fn hits_hold_what_was_found_in_that_order() {
    let found = vec![(9, 0, 1), (4, 0, 0)];
    let stored = vec![
        Ok((Some("b".to_string()), Some("b.rs".to_string()), Some(2))),
        Ok((None, None, None)),
    ];
    match hits_of(Ok(found.clone()), stored) {
        Ok(hits) => {
            assert_eq!(hits.len(), 2);
            assert_eq!((hits[0].name.as_str(), hits[0].file.as_str()), ("b", "b.rs"));
            assert_eq!((hits[0].line, hits[0].score_bits), (2, 9));
            assert_eq!((hits[1].name.as_str(), hits[1].file.as_str()), ("", ""));
            assert_eq!((hits[1].line, hits[1].score_bits), (0, 4));
        }
        Err(_) => panic!("nothing failed"),
    }
    let error = |e: &str| tantivy::TantivyError::InvalidArgument(e.to_string());
    match hits_of(Ok(found), vec![Err(error("first")), Err(error("second"))]) {
        Err(LexError::Index(tantivy::TantivyError::InvalidArgument(e))) => assert_eq!(e, "first"),
        _ => panic!("the error is lost"),
    }
    match hits_of(Err(error("none")), Vec::new()) {
        Err(LexError::Index(tantivy::TantivyError::InvalidArgument(e))) => assert_eq!(e, "none"),
        _ => panic!("the error is lost"),
    }
}

#[test]
fn a_match_in_the_name_weighs_more() {
    let one = |name: &str, kind: &str, line: usize| Symbol {
        name: name.into(),
        kind: kind.into(),
        file: "gone.rs".into(),
        line,
        start_byte: 0,
        end_byte: 0,
    };
    let symbols = vec![one("other", "parser", 1), one("parser", "other", 2)];
    let files: Table<String> = Table::new();
    match LexicalIndex::build(&symbols, &files).and_then(|i| i.search("parser", 2)) {
        Ok(hits) => {
            assert_eq!((hits[0].line, hits[1].line), (2, 1));
            assert!(f32::from_bits(hits[0].score_bits) > f32::from_bits(hits[1].score_bits));
        }
        Err(_) => panic!("search must work"),
    }
}

const SRC: &str = r#"
fn authenticate_token(token: String) -> bool { validate(token) }
fn validate(token: String) -> bool { true }
fn render_widget(w: Widget) -> String { draw(w) }
fn draw(w: Widget) -> String { String::new() }
struct Widget { width: i32 }
"#;

fn symbol(kind: &str, name: &str, line: usize) -> Symbol {
    let text = SRC.lines().nth(line - 1).unwrap();
    let start = SRC.find(text).unwrap();
    Symbol {
        name: name.into(),
        kind: kind.into(),
        file: "src.rs".into(),
        line,
        start_byte: start,
        end_byte: start + text.len(),
    }
}

fn sample_index() -> LexicalIndex {
    let symbols = vec![
        symbol("function", "authenticate_token", 2),
        symbol("function", "validate", 3),
        symbol("function", "render_widget", 4),
        symbol("function", "draw", 5),
        symbol("struct", "Widget", 6),
    ];
    let mut files: Table<String> = Table::new();
    files.insert("src.rs", SRC.to_string());
    match LexicalIndex::build(&symbols, &files) {
        Ok(index) => index,
        Err(_) => panic!("index must build"),
    }
}

fn names(index: &LexicalIndex, query: &str, k: usize) -> Vec<String> {
    match index.search(query, k) {
        Ok(hits) => {
            assert!(hits.windows(2).all(|w| w[0].score_bits >= w[1].score_bits));
            assert!(hits.iter().all(|h| h.file == "src.rs"));
            hits.into_iter().map(|h| h.name).collect()
        }
        Err(_) => panic!("search must work"),
    }
}

#[test]
fn bm25_ranks_exact_term_owner_first() {
    let idx = sample_index();
    let hits = names(&idx, "authenticate_token", 5);
    assert!(!hits.is_empty(), "expected hits");
    assert_eq!(hits[0], "authenticate_token", "term owner ranks first: {hits:?}");

    let hits = names(&idx, "render widget draw", 5);
    assert!(
        hits.contains(&"render_widget".to_string()) || hits.contains(&"draw".to_string()),
        "widget query should surface widget symbols: {hits:?}"
    );
    assert_ne!(hits.first().map(|h| h.as_str()), Some("validate"));
}

#[test]
fn punctuation_and_empty_queries_are_safe() {
    let idx = sample_index();
    let hits = names(&idx, "where do we validate() the token?!", 5);
    assert!(hits.iter().any(|h| h == "validate"), "punctuated NL query works");
    assert!(names(&idx, "?!.,;", 5).is_empty());
}

#[test]
fn a_search_shows_no_more_than_asked_and_all_where_there_are_fewer() {
    let idx = sample_index();
    assert_eq!(names(&idx, "string", 2).len(), 2);
    let mut all = names(&idx, "string", usize::MAX);
    all.sort();
    assert_eq!(all, vec!["authenticate_token", "draw", "render_widget", "validate"]);
    assert!(names(&idx, "nowhere", 9).is_empty());
    assert!(names(&idx, "!", 0).is_empty());
    match idx.search("width", 3) {
        Ok(hits) => {
            assert_eq!(hits.len(), 1);
            assert_eq!(hits[0].line, 6);
        }
        Err(_) => panic!("search must work"),
    }
}

#[test]
fn a_symbol_without_a_file_is_found_by_its_name() {
    let symbols = vec![Symbol {
        name: "lonely".into(),
        kind: "function".into(),
        file: "gone.rs".into(),
        line: 7,
        start_byte: 0,
        end_byte: 99,
    }];
    let files: Table<String> = Table::new();
    let index = match LexicalIndex::build(&symbols, &files) {
        Ok(index) => index,
        Err(_) => panic!("index must build"),
    };
    match index.search("lonely", 1) {
        Ok(hits) => assert_eq!((hits[0].file.as_str(), hits[0].line), ("gone.rs", 7)),
        Err(_) => panic!("search must work"),
    }
}

/// A service that refuses every request with a text of more than `limit` characters.
fn embed_all(texts: Vec<String>, limit: usize) -> (Vec<usize>, Vec<usize>, usize) {
    let mut plan: EmbedPlan<usize> = EmbedPlan::new(texts);
    let mut requests = 0;
    while let Some(texts) = plan.request() {
        requests += 1;
        let answer = if texts.iter().any(|t| t.chars().count() > limit) {
            None
        } else {
            Some(texts.iter().map(|t| t.chars().count()).collect())
        };
        plan = plan.answered(answer);
    }
    let (kept, vectors) = plan.finish();
    (kept, vectors, requests)
}

#[test]
fn oversized_chunk_is_truncated_not_fatal() {
    let small = "fn tiny() -> i32 { 1 }".to_string();
    let big: String = format!("fn huge() -> i32 {{ /* {} */ 2 }}", "x".repeat(2400))
        .chars()
        .take(2000)
        .collect();
    let (kept, vectors, requests) = embed_all(vec![small, big], 200);
    assert_eq!(kept, vec![0, 1]);
    assert_eq!(vectors, vec![22, 125]);
    assert_eq!(requests, 1 + 1 + 5);
}

#[test]
fn batches_hold_sixty_four_texts() {
    let texts: Vec<String> = (0..130).map(|i| format!("t{i}")).collect();
    let plan: EmbedPlan<usize> = EmbedPlan::new(texts.clone());
    assert_eq!(plan.request().unwrap().len(), 64);
    let (kept, vectors, requests) = embed_all(texts, 100);
    assert_eq!(kept, (0..130).collect::<Vec<usize>>());
    assert_eq!(vectors.len(), 130);
    assert_eq!(requests, 3);
}

#[test]
fn a_text_that_never_fits_is_passed_over() {
    let texts = vec!["a".repeat(64), "b".repeat(5), "c".repeat(65)];
    let (kept, vectors, _) = embed_all(texts, 30);
    assert_eq!(kept, vec![1]);
    assert_eq!(vectors, vec![5]);
    let (kept, vectors, _) = embed_all(vec!["c".repeat(65)], 32);
    assert_eq!(kept, vec![0]);
    assert_eq!(vectors, vec![32]);
}

#[test]
fn ranking_is_by_key_and_then_by_place() {
    assert_eq!(rerank(&[3, 9, 3, 7], 10), vec![1, 3, 0, 2]);
    assert_eq!(rerank(&[3, 9, 3, 7], 2), vec![1, 3]);
    assert_eq!(rerank(&[5, 5, 5], 2), vec![0, 1]);
    assert!(rerank(&[1, 2], 0).is_empty());
    assert!(rerank(&[], 4).is_empty());
}

fn reply(step: SearchStep) -> String {
    match step {
        SearchStep::Reply { output } => output.text,
        _ => panic!("expected a reply"),
    }
}

#[test]
fn a_search_degrades_to_a_note() {
    let tool = SemanticSearchTool::new("/repo".into(), None);
    assert_eq!(tool.max_chars, 2000);
    assert_eq!(tool.name(), "semantic_search");
    assert_eq!(
        reply(tool.execute(None, SearchEvent::QueryRefused { error: "boom".into() })),
        "semantic_search unavailable (embedding service error: boom). Fall back to grep or code_map for this query."
    );
    assert_eq!(
        reply(tool.execute(None, SearchEvent::QueryEmbedded { vectors: 0 })),
        "semantic_search: embedder returned no vector for the query."
    );
    assert_eq!(
        reply(tool.execute(None, SearchEvent::IndexRefused { error: "db".into() })),
        "semantic_search: indexing failed (db). Use grep or code_map instead."
    );
    assert_eq!(
        reply(tool.execute(None, SearchEvent::Found { count: 0, indexed: 3 })),
        "semantic_search: no embedded symbols matched (index has 0 vectors, 3 just embedded). The repo may have no supported source files."
    );
    assert_eq!(
        reply(tool.execute(None, SearchEvent::Found { count: 0, indexed: 0 })),
        "semantic_search: no embedded symbols matched (index has 0 vectors). The repo may have no supported source files."
    );
}

#[test]
fn a_search_asks_for_three_times_the_limit() {
    let tool = SemanticSearchTool::new("/repo".into(), Some(10));
    assert_eq!(tool.max_chars, 10);
    for (asked, limit) in [(None, 8), (Some(0), 1), (Some(5), 5), (Some(500), 50)] {
        match tool.execute(asked, SearchEvent::Indexed { count: 0 }) {
            SearchStep::Search { candidates } => assert_eq!(candidates, 3 * limit),
            _ => panic!("expected a search"),
        }
        match tool.execute(asked, SearchEvent::Found { count: 1, indexed: 0 }) {
            SearchStep::Rank { limit: n } => assert_eq!(n, limit),
            _ => panic!("expected a ranking"),
        }
    }
    assert!(matches!(
        tool.execute(None, SearchEvent::QueryEmbedded { vectors: 1 }),
        SearchStep::UpdateIndex
    ));
}

#[test]
fn results_are_shown_below_the_root() {
    let tool = SemanticSearchTool::new("/repo".into(), None);
    let hits = vec![
        RankedHit {
            name: "refresh".into(),
            file: "/repo/src/auth.rs".into(),
            line: 12,
            similarity: "0.91".into(),
            callers: 4,
        },
        RankedHit {
            name: "other".into(),
            file: "/elsewhere/x.rs".into(),
            line: 1,
            similarity: "0.50".into(),
            callers: 0,
        },
    ];
    assert_eq!(
        tool.report("auth token", 2, &hits).text,
        "(embedded 2 new symbols)\nTop 2 for \"auth token\":\n1. refresh (src/auth.rs:12)  [sim 0.91, 4 callers]\n2. other (/elsewhere/x.rs:1)  [sim 0.50, 0 callers]\n"
    );
    assert_eq!(tool.report("q", 0, &[]).text, "Top 0 for \"q\":\n");
    let plan: EmbedPlan<usize> = tool.embed_pending(vec!["t".to_string()]);
    assert_eq!(plan.request(), Some(vec!["t".to_string()]));
}

#[test]
fn lines_behind_an_oversized_first_line_are_not_dropped_in_silence() {
    let lines = vec!["x".repeat(100), "y".to_string(), "z".to_string()];
    let out = join_within_budget(&lines, 1);
    assert_eq!(
        out,
        format!(
            "{}\n… 2 more result(s) omitted to stay within the token budget",
            lines[0]
        )
    );
}

#[test]
fn an_entry_holds_kind_name_and_source() {
    let mut files: Table<String> = Table::new();
    files.insert("a.rs", "// é\nfn go() {}\n".to_string());
    let mut symbol = Symbol {
        name: "go".to_string(),
        kind: "function".to_string(),
        file: "a.rs".to_string(),
        line: 2,
        start_byte: 6,
        end_byte: 16,
    };
    assert_eq!(
        entry(&symbol, &files),
        (
            "go".to_string(),
            "function go fn go() {}".to_string(),
            "a.rs".to_string(),
            2
        )
    );
    symbol.start_byte = 4;
    assert_eq!(entry(&symbol, &files).1, "function go ");
    symbol.file = "b.rs".to_string();
    assert_eq!(entry(&symbol, &files).1, "function go ");
}

#[test]
fn an_error_of_the_index_is_handed_on() {
    let files: Table<String> = Table::new();
    let answer = Err(tantivy::TantivyError::InvalidArgument("too small".to_string()));
    match LexicalIndex::opened(answer, &[], &files) {
        Err(LexError::Index(tantivy::TantivyError::InvalidArgument(e))) => {
            assert_eq!(e, "too small")
        }
        _ => panic!("the error is lost"),
    }
}
