use retriever::docs::load_documents;
use retriever::eval::{evaluate, load_qrels, metrics_at_k, Qrel};
use retriever::index::InvertedIndex;
use retriever::score::{BM25Scorer, QueryResult, Scorer};
use retriever::search::search;
use retriever::tokenize::{token_count, tokenize, TokenizerConfig};
use retriever::{BuildError, CorpusError};

fn lines(v: &[&str]) -> Vec<String> {
    v.iter().map(|s| s.to_string()).collect()
}

fn plain_config() -> TokenizerConfig {
    TokenizerConfig {
        min_token_len: 1,
        stopwords: Vec::new(),
    }
}

fn bm25() -> Scorer {
    // k1 = 1.5, b = 0.75 in Q16.16.
    Scorer::Bm25(BM25Scorer {
        k1_q16: 98304,
        b_q16: 49152,
    })
}

fn small_index() -> InvertedIndex {
    let docs = load_documents(&lines(&[
        r#"{"title":"A","text":"the cat sat"}"#,
        r#"{"title":"B","text":"the dog sat"}"#,
    ]))
    .unwrap();
    InvertedIndex::new(docs, plain_config()).unwrap()
}

#[test]
fn tokenize_lowercases_and_splits_on_delimiters() {
    let cfg = plain_config();
    let toks = tokenize("The cat's HAT_42, again!", &cfg);
    assert_eq!(toks, vec!["the", "cat", "s", "hat_42", "again"]);
}

#[test]
fn tokenize_empty_input_yields_no_tokens() {
    let cfg = plain_config();
    assert!(tokenize("", &cfg).is_empty());
    assert!(tokenize("...!!!", &cfg).is_empty());
}

#[test]
fn tokenize_min_length_filter_drops_short_tokens() {
    let cfg = TokenizerConfig {
        min_token_len: 2,
        stopwords: Vec::new(),
    };
    let toks = tokenize("a cat s at", &cfg);
    assert_eq!(toks, vec!["cat", "at"]);
}

#[test]
fn tokenize_stopwords_dropped_after_folding() {
    let cfg = TokenizerConfig {
        min_token_len: 1,
        stopwords: vec!["the".to_string()],
    };
    let toks = tokenize("The THE cat", &cfg);
    assert_eq!(toks, vec!["cat"]);
}

#[test]
fn token_count_counts_and_keeps_first_seen_order() {
    let toks = tokenize("the cat the cat the", &plain_config());
    let counts = token_count(&toks);
    assert_eq!(counts.len(), 2);
    assert_eq!(counts[0].0, "the");
    assert_eq!(counts[0].1, 3);
    assert_eq!(counts[1].0, "cat");
    assert_eq!(counts[1].1, 2);
}

#[test]
fn load_documents_assigns_dense_ids_and_skips_blanks() {
    let docs = load_documents(&lines(&[
        r#"{"title":"A","text":"one"}"#,
        "   ",
        r#"{"title":"B","text":"two"}"#,
        "",
    ]))
    .unwrap();
    assert_eq!(docs.len(), 2);
    assert_eq!(docs[0].id, 0);
    assert_eq!(docs[0].title, "A");
    assert_eq!(docs[0].text, "one");
    assert_eq!(docs[1].id, 1);
    assert_eq!(docs[1].title, "B");
}

#[test]
fn load_documents_defaults_missing_fields_to_empty() {
    let docs = load_documents(&lines(&[r#"{"text":"only text"}"#])).unwrap();
    assert_eq!(docs[0].title, "");
    assert_eq!(docs[0].text, "only text");
}

#[test]
fn load_documents_reports_first_bad_line_number() {
    let r = load_documents(&lines(&[
        r#"{"title":"A","text":"ok"}"#,
        "",
        "not json at all",
    ]));
    match r {
        Err(CorpusError::RecordParse { line }) => assert_eq!(line, 3),
        _ => panic!("expected a parse error"),
    }
}

#[test]
fn empty_corpus_is_refused() {
    let r = InvertedIndex::new(Vec::new(), plain_config());
    assert!(matches!(r, Err(BuildError::EmptyCorpus)));
}

#[test]
fn index_counts_documents_and_tokens() {
    let ix = small_index();
    // total_docs == documents.len() and doc_lengths is per-document.
    assert_eq!(ix.total_docs, 2);
    assert_eq!(ix.documents.len(), 2);
    assert_eq!(ix.doc_lengths, vec![3, 3]);
    assert_eq!(ix.total_token_count, 6);
    // avg_doc_length is the mean of doc_lengths: 3.0 in Q16.16.
    assert_eq!(ix.avg_doc_len_q16(), 3 * 65536);
}

#[test]
fn vocabulary_is_dense_and_first_seen_ordered() {
    let ix = small_index();
    assert_eq!(ix.vocabulary, vec!["the", "cat", "sat", "dog"]);
    assert_eq!(ix.postings.len(), 4);
}

#[test]
fn postings_are_sorted_by_doc_id() {
    let ix = small_index();
    for pl in &ix.postings {
        assert!(!pl.is_empty());
        for w in pl.windows(2) {
            assert!(w[0].0 < w[1].0);
        }
    }
    // "the" appears once in each document.
    assert_eq!(ix.postings[0], vec![(0, 1), (1, 1)]);
    // "cat" appears only in document 0.
    assert_eq!(ix.postings[1], vec![(0, 1)]);
}

#[test]
fn query_cat_returns_exactly_doc_zero() {
    let ix = small_index();
    let r = search("cat", &ix, &bm25(), 10);
    assert_eq!(r.len(), 1);
    assert_eq!(r[0].doc_id, 0);
}

#[test]
fn query_the_returns_both_docs_with_equal_scores() {
    let ix = small_index();
    let r = search("the", &ix, &bm25(), 10);
    assert_eq!(r.len(), 2);
    // Ties are broken by ascending doc id.
    assert_eq!(r[0].doc_id, 0);
    assert_eq!(r[1].doc_id, 1);
    // df == N, so the idf is floored at zero: the scores are equal.
    assert_eq!(r[0].score, r[1].score);
}

#[test]
fn top_k_zero_returns_empty_for_any_query() {
    let ix = small_index();
    assert!(search("cat", &ix, &bm25(), 0).is_empty());
    assert!(search("the dog", &ix, &bm25(), 0).is_empty());
}

#[test]
fn out_of_vocabulary_query_returns_empty() {
    let ix = small_index();
    assert!(search("zebra", &ix, &bm25(), 10).is_empty());
    assert!(search("", &ix, &bm25(), 10).is_empty());
}

#[test]
fn score_query_ranks_matching_docs_only() {
    let ix = small_index();
    let scorer = BM25Scorer {
        k1_q16: 98304,
        b_q16: 49152,
    };
    let terms = vec!["dog".to_string()];
    let r = scorer.score_query(&terms, &ix);
    assert_eq!(r.len(), 1);
    assert_eq!(r[0].doc_id, 1);
    // With df = 1 and N = 2 the BM25 idf is ln(1.5/1.5) = 0: the matching
    // document is still ranked, at score 0.
    assert_eq!(r[0].score, 0);
}

#[test]
fn larger_k1_strictly_increases_repeated_term_score() {
    let docs = load_documents(&lines(&[
        r#"{"title":"A","text":"cat cat cat cat"}"#,
        r#"{"title":"B","text":"dog"}"#,
        r#"{"title":"C","text":"fish"}"#,
    ]))
    .unwrap();
    let ix = InvertedIndex::new(docs, plain_config()).unwrap();
    let low = Scorer::Bm25(BM25Scorer {
        k1_q16: 78643, // k1 = 1.2
        b_q16: 49152,
    });
    let high = Scorer::Bm25(BM25Scorer {
        k1_q16: 131072, // k1 = 2.0
        b_q16: 49152,
    });
    let r_low = search("cat", &ix, &low, 10);
    let r_high = search("cat", &ix, &high, 10);
    assert_eq!(r_low[0].doc_id, 0);
    assert_eq!(r_high[0].doc_id, 0);
    assert!(r_high[0].score > r_low[0].score);
}

#[test]
fn tfidf_scores_rank_matching_docs() {
    let ix = small_index();
    let r = search("cat", &ix, &Scorer::TfIdf, 10);
    assert_eq!(r.len(), 1);
    assert_eq!(r[0].doc_id, 0);
    assert!(r[0].score > 0);
}

#[test]
fn load_qrels_parses_records() {
    let qs = load_qrels(&lines(&[
        r#"{"query":"cat","doc_id":0,"relevance":2}"#,
        "",
        r#"{"query":"dog","doc_id":1,"relevance":0}"#,
    ]))
    .unwrap();
    assert_eq!(qs.len(), 2);
    assert_eq!(qs[0].query, "cat");
    assert_eq!(qs[0].doc_id, 0);
    assert_eq!(qs[0].relevance, 2);
}

#[test]
fn load_qrels_reports_bad_line() {
    let r = load_qrels(&lines(&[r#"{"query":"cat"}"#]));
    assert!(matches!(r, Err(CorpusError::RecordParse { line: 1 })));
}

#[test]
fn metrics_exact_values_for_known_ranking() {
    // Results ranked 7, 3; doc 3 is the only relevant one (rank 2).
    let results = vec![
        QueryResult {
            doc_id: 7,
            score: 100,
        },
        QueryResult {
            doc_id: 3,
            score: 50,
        },
    ];
    let judged = vec![(3u64, 1u64), (9u64, 0u64)];
    let (recall, mrr, ndcg) = metrics_at_k(&results, &judged, 10);
    // One of one relevant doc retrieved.
    assert_eq!(recall, 65536);
    // First relevant at rank 2: 1/2 in Q16.16.
    assert_eq!(mrr, 32768);
    // nDCG is positive and at most 1.
    assert!(ndcg > 0);
    assert!(ndcg <= 65536);
}

#[test]
fn ndcg_at_most_one_on_graded_judgments() {
    let docs = load_documents(&lines(&[
        r#"{"title":"A","text":"cat cat"}"#,
        r#"{"title":"B","text":"cat dog"}"#,
        r#"{"title":"C","text":"dog dog"}"#,
        r#"{"title":"D","text":"cat fish"}"#,
    ]))
    .unwrap();
    let ix = InvertedIndex::new(docs, plain_config()).unwrap();
    let qrels = vec![
        Qrel {
            query: "cat".to_string(),
            doc_id: 0,
            relevance: 3,
        },
        Qrel {
            query: "cat".to_string(),
            doc_id: 1,
            relevance: 1,
        },
        Qrel {
            query: "cat".to_string(),
            doc_id: 3,
            relevance: 2,
        },
        Qrel {
            query: "cat".to_string(),
            doc_id: 2,
            relevance: 0,
        },
    ];
    let m = evaluate(&ix, &bm25(), &qrels, 10);
    assert_eq!(m.evaluated, 1);
    assert_eq!(m.skipped, 0);
    assert!(m.mean_ndcg_q16 <= 65536);
    assert!(m.mean_ndcg_q16 > 0);
    assert!(m.mean_recall_q16 == 65536);
}

#[test]
fn query_with_no_relevant_docs_is_excluded_from_means() {
    let docs = load_documents(&lines(&[
        r#"{"title":"A","text":"cat"}"#,
        r#"{"title":"B","text":"dog"}"#,
    ]))
    .unwrap();
    let ix = InvertedIndex::new(docs, plain_config()).unwrap();
    let qrels = vec![
        Qrel {
            query: "cat".to_string(),
            doc_id: 0,
            relevance: 1,
        },
        Qrel {
            query: "dog".to_string(),
            doc_id: 1,
            relevance: 0,
        },
    ];
    let m = evaluate(&ix, &bm25(), &qrels, 10);
    // The zero-relevant query is skipped, not averaged in as 0.
    assert_eq!(m.evaluated, 1);
    assert_eq!(m.skipped, 1);
    assert_eq!(m.mean_recall_q16, 65536);
    assert_eq!(m.mean_mrr_q16, 65536);
}

#[test]
fn title_not_counted_in_document_length() {
    let docs = load_documents(&lines(&[
        r#"{"title":"very long title with words","text":"cat"}"#,
    ]))
    .unwrap();
    let ix = InvertedIndex::new(docs, plain_config()).unwrap();
    assert_eq!(ix.doc_lengths, vec![1]);
    assert!(search("title", &ix, &bm25(), 10).is_empty());
}
