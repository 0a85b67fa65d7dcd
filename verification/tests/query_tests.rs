use wikidex::codec::{decode_len_map, decode_lexicon};
use wikidex::common::{Article, IndexError};
use wikidex::index_builder::{IndexBuilder, SpillBatch};
use wikidex::lexicon::Lexicon;
use wikidex::postings::parse_postings;
use wikidex::query::{
    bm25_term_stats, get_article_snippet, query_term_freqs, query_token_ids, select_top_k,
    to_freq_map, TermStats,
};

const K1: f64 = 1.2;
const B: f64 = 0.75;
const K2: f64 = 100.0;

fn article(id: usize, title: &str, text: &str) -> Article {
    Article { id, title: title.to_string(), text: text.to_string() }
}

/// The ranking formula over the gathered integer inputs, as the caller
/// evaluates it.
fn bm25_score(stats: &[TermStats], article_length: usize, avgdl: f64, num_articles: usize) -> f64 {
    let mut score = 0.0;
    for st in stats {
        let f = st.doc_freq as f64;
        let qf = st.query_token_freq as f64;
        let n_t = st.postings_len as f64;
        let k = K1 * ((1.0 - B) + B * article_length as f64 / avgdl);
        let tf = (K1 + 1.0) * f / (k + f);
        let qfc = (K2 + 1.0) * qf / (K2 + qf);
        let idf = ((num_articles as f64 - n_t + 0.5) / (n_t + 0.5) + 1.0).ln();
        score += tf * qfc * idf;
    }
    score
}

/// Builds the index in memory and answers one query, mirroring the search
/// path: analyze, load postings, gather stats, score, rank, snippet.
fn search(
    articles: &Vec<Article>,
    query: &str,
    k: usize,
) -> Result<Vec<(usize, f64, String)>, IndexError> {
    let root = String::from("idx");
    let (b, batches) = IndexBuilder::build_from_articles(&root, articles);
    let lexicon = Lexicon::from_tokens(decode_lexicon(&b.lexicon_bytes()).unwrap());
    let lengths = decode_len_map(&b.article_lengths_bytes()).unwrap();

    let query_string = query.to_string();
    let ids = query_token_ids(&query_string, &lexicon);
    let qtf = query_term_freqs(&ids);

    // "load" each query term's postings file from the spilled batches
    let mut postings_lists: Vec<(usize, Vec<(usize, usize)>)> = Vec::new();
    for (tid, _) in &qtf {
        let mut file: Vec<u8> = Vec::new();
        let fbatches: Vec<&SpillBatch> =
            batches.iter().filter(|bt| bt.token_id == *tid).collect();
        for bt in fbatches {
            file.extend_from_slice(&bt.lines());
        }
        let entries = parse_postings(&file)?;
        postings_lists.push((*tid, to_freq_map(&entries)));
    }

    let num_articles = lengths.len();
    let total: usize = lengths.iter().map(|(_, l)| *l).sum();
    let avgdl = total as f64 / num_articles as f64;

    let mut scores: Vec<(usize, u64)> = Vec::new();
    let mut float_scores: Vec<(usize, f64)> = Vec::new();
    for (aid, len) in &lengths {
        let stats = bm25_term_stats(*aid, &qtf, &postings_lists)?;
        let s = bm25_score(&stats, *len, avgdl, num_articles);
        scores.push((*aid, s.to_bits()));
        float_scores.push((*aid, s));
    }
    let top = select_top_k(&scores, k);

    let mut results = Vec::new();
    for (aid, bits) in &top {
        let text = &articles.iter().find(|a| a.id == *aid).unwrap().text;
        match get_article_snippet(text, &qtf, &lexicon) {
            Ok(snippet) => {
                results.push((*aid, f64::from_bits(*bits), snippet));
            },
            Err(IndexError::NoSnippet) => {
                // result-local failure: drop this result
            },
            Err(e) => {
                return Err(e);
            },
        }
    }
    Ok(results)
}

#[test]
fn query_over_single_article() {
    let articles = vec![article(1, "Alpha", "Hello hello world")];
    let results = search(&articles, "world", 10).unwrap();
    assert_eq!(results.len(), 1);
    assert_eq!(results[0].0, 1);
    assert!(results[0].1 > 0.0);
    assert_eq!(results[0].2, "...hello hello world...".to_string());
}

#[test]
fn query_for_unknown_term() {
    let articles = vec![article(1, "Alpha", "Hello hello world")];
    let results = search(&articles, "nonexistent", 10).unwrap();
    assert_eq!(results.len(), 0);
}

#[test]
fn shorter_article_ranks_higher() {
    // both articles contain "dog"; the shorter one ranks above
    let articles = vec![article(1, "", "cat cat dog"), article(2, "", "dog")];
    let results = search(&articles, "dog", 10).unwrap();
    assert_eq!(results.len(), 2);
    assert_eq!(results[0].0, 2);
    assert_eq!(results[1].0, 1);
    assert!(results[0].1 > results[1].1);
}

#[test]
fn top_k_truncates() {
    let articles = vec![article(1, "", "dog"), article(2, "", "dog"), article(3, "", "dog")];
    let results = search(&articles, "dog", 2).unwrap();
    assert_eq!(results.len(), 2);
}

#[test]
fn top_k_larger_than_candidates() {
    let articles = vec![article(1, "", "dog")];
    let results = search(&articles, "dog", 10).unwrap();
    assert_eq!(results.len(), 1);
}

#[test]
fn equal_scores_tie_break_by_article_id() {
    let articles = vec![article(9, "", "dog"), article(4, "", "dog")];
    let results = search(&articles, "dog", 10).unwrap();
    assert_eq!(results.len(), 2);
    assert_eq!(results[0].0, 4);
    assert_eq!(results[1].0, 9);
}

#[test]
fn snippet_window_is_bounded() {
    let long = "a ".repeat(30) + "world";
    let articles = vec![article(1, "", long.as_str())];
    let results = search(&articles, "world", 10).unwrap();
    assert_eq!(results.len(), 1);
    let snippet = &results[0].2;
    // "a " * 30 is 60 bytes; "world" starts at 60; window is [10, 65)
    let expected = format!("...{}world...", "a ".repeat(25));
    assert_eq!(snippet, &expected);
}

#[test]
fn snippet_replaces_newlines() {
    let articles = vec![article(1, "", "hello\nworld")];
    let results = search(&articles, "world", 10).unwrap();
    assert_eq!(results.len(), 1);
    assert_eq!(results[0].2, "...hello world...".to_string());
}

#[test]
fn snippet_prefers_higher_token_id() {
    // both query terms occur, far enough apart that their windows differ;
    // the term with the higher token id anchors the snippet
    let text = format!("cat {}dog", "b ".repeat(30));
    let articles = vec![article(1, "", text.as_str())];
    let results = search(&articles, "cat dog", 10).unwrap();
    assert_eq!(results.len(), 1);
    // "dog" was allocated a higher id than "cat", so it anchors
    let expected = format!("...{}dog...", "b ".repeat(25));
    assert_eq!(results[0].2, expected);
}

#[test]
fn missing_postings_list_is_hard_error() {
    let lexicon = Lexicon::from_tokens(vec!["dog".to_string()]);
    let q = String::from("dog");
    let ids = query_token_ids(&q, &lexicon);
    let qtf = query_term_freqs(&ids);
    let empty_lists: Vec<(usize, Vec<(usize, usize)>)> = Vec::new();
    let r = bm25_term_stats(1, &qtf, &empty_lists);
    assert_eq!(r, Err(IndexError::MissingPostingsList { token_id: 0 }));
}

#[test]
fn term_stats_gather_counts() {
    let lexicon = Lexicon::from_tokens(vec!["cat".to_string(), "dog".to_string()]);
    let q = String::from("dog cat dog");
    let ids = query_token_ids(&q, &lexicon);
    assert_eq!(ids, vec![1usize, 0usize, 1usize]);
    let qtf = query_term_freqs(&ids);
    assert_eq!(qtf, vec![(0usize, 1usize), (1usize, 2usize)]);
    let lists = vec![
        (0usize, vec![(1usize, 2usize)]),
        (1usize, vec![(1usize, 1usize), (2usize, 1usize)]),
    ];
    let stats = bm25_term_stats(1, &qtf, &lists).unwrap();
    assert_eq!(
        stats,
        vec![
            TermStats { query_token_freq: 1, doc_freq: 2, postings_len: 1 },
            TermStats { query_token_freq: 2, doc_freq: 1, postings_len: 2 },
        ]
    );
    // an article absent from a term's postings contributes no entry for it
    let stats2 = bm25_term_stats(2, &qtf, &lists).unwrap();
    assert_eq!(stats2, vec![TermStats { query_token_freq: 2, doc_freq: 1, postings_len: 2 }]);
}

#[test]
fn scores_are_reproducible() {
    // fixed constants, identical inputs: bit-identical scores
    let articles = vec![article(1, "", "cat cat dog"), article(2, "", "dog bird")];
    let first = search(&articles, "dog cat", 10).unwrap();
    let second = search(&articles, "dog cat", 10).unwrap();
    assert_eq!(first.len(), second.len());
    for (a, b) in first.iter().zip(second.iter()) {
        assert_eq!(a.0, b.0);
        assert_eq!(a.1.to_bits(), b.1.to_bits());
        assert_eq!(a.2, b.2);
    }
}

#[test]
fn snippet_unavailable_when_no_term_occurs() {
    let lexicon = Lexicon::from_tokens(vec!["cat".to_string(), "dog".to_string()]);
    let text = String::from("only birds here");
    let qtf = vec![(0usize, 1usize), (1usize, 1usize)];
    let r = get_article_snippet(&text, &qtf, &lexicon);
    assert_eq!(r, Err(IndexError::NoSnippet));
}

#[test]
fn freq_map_last_write_wins() {
    let entries = vec![(1usize, 2usize), (2usize, 5usize), (1usize, 7usize)];
    let m = to_freq_map(&entries);
    assert_eq!(m, vec![(1usize, 7usize), (2usize, 5usize)]);
}
