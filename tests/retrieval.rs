use mini_retrieve::evaluation::{decimal_chars, relevance_set, relevant_ranks};
use mini_retrieve::indexer::{
    build_index, calculate_document_tf, extract_doc_id, extract_title_from_content, BuildError,
};
use mini_retrieve::score::{idf_fraction, score_terms, weight_fraction, ScoreTerm};
use mini_retrieve::splitter::{extract_queries, split_documents};
use mini_retrieve::tokenizer::{
    remove_affix, remove_double_letters, remove_plural, stem, tokenize, Stopwords,
};
use mini_retrieve::types::{InvertedIndex, Posting};

fn stop() -> Stopwords {
    Stopwords::from_text("the\n  A \n\nof\ndon't\n")
}

fn tok(term: &str) -> Option<String> {
    tokenize(term, &stop())
}

fn two_docs() -> Vec<(u32, String)> {
    vec![(1, "the cat sat".to_string()), (2, "dogs run fast".to_string())]
}

#[test]
fn tokenize_is_deterministic_and_case_insensitive() {
    assert_eq!(tok("Running"), tok("running"));
    assert_eq!(tok("running"), tok("running"));
    assert_eq!(tok("Running"), Some("run".to_string()));
}

#[test]
fn tokenize_stems_plurals() {
    assert_eq!(tok("cats"), Some("cat".to_string()));
    assert_eq!(tok("studies"), Some("study".to_string()));
    assert_eq!(tok("boxes"), Some("box".to_string()));
    assert_eq!(tok("ties"), Some("ti".to_string()));
    assert_eq!(tok("as"), Some("as".to_string()));
}

#[test]
fn tokenize_stems_affixes_and_doubles() {
    assert_eq!(tok("jumped"), Some("jump".to_string()));
    assert_eq!(tok("quickly"), Some("quick".to_string()));
    assert_eq!(tok("stopping"), Some("stop".to_string()));
    assert_eq!(tok("Hello,"), Some("hello".to_string()));
}

#[test]
fn tokenize_drops_stopwords_and_symbols() {
    assert_eq!(tok("the"), None);
    assert_eq!(tok("The"), None);
    assert_eq!(tok("a"), None);
    assert_eq!(tok("OF"), None);
    assert_eq!(tok("!!!"), None);
    assert_eq!(tok(""), None);
    assert_eq!(tok("--"), None);
}

#[test]
fn stopword_with_punctuation_survives_tokenizing() {
    // "don't" is listed, but the token checked against the list is "dont".
    assert_eq!(tok("don't"), Some("dont".to_string()));
}

#[test]
fn split_documents_by_record_markers() {
    let corpus = ".I 1\n.T\nexperimental study.\n.W\nbody\n.I 2\n.T\nsecond\n";
    let (records, malformed) = split_documents(corpus);
    assert_eq!(
        records,
        vec![
            (1, ".I 1\n.T\nexperimental study.\n.W\nbody".to_string()),
            (2, ".I 2\n.T\nsecond".to_string()),
        ]
    );
    assert!(malformed.is_empty());
}

#[test]
fn split_documents_without_markers_uses_id_zero() {
    let (records, _) = split_documents("hello\r\nworld");
    assert_eq!(records, vec![(0, "hello\nworld".to_string())]);
    let (records, _) = split_documents("");
    assert_eq!(records, vec![(0, String::new())]);
}

#[test]
fn split_documents_keeps_previous_id_on_malformed_marker() {
    let (records, malformed) = split_documents(".I 1\na\n.I x\nb");
    assert_eq!(records, vec![(1, ".I 1\na".to_string()), (1, ".I x\nb".to_string())]);
    assert_eq!(malformed, vec![2]);
}

#[test]
fn split_documents_consecutive_markers() {
    let (records, _) = split_documents(".I 1\n.I 2\nx");
    assert_eq!(records, vec![(1, ".I 1".to_string()), (2, ".I 2\nx".to_string())]);
}

#[test]
fn extract_queries_joins_text_lines() {
    let queries = extract_queries(".I 001\n.W\nwhat is flow\n.I 002\n.W\nshock waves\nin air \n");
    assert_eq!(queries.len(), 2);
    assert_eq!(queries.get(&1), Some(&"what is flow".to_string()));
    assert_eq!(queries.get(&2), Some(&"shock waves in air".to_string()));
}

#[test]
fn title_extraction() {
    let doc = ".I 1\n.T\nexperimental investigation.\n.A\nbrenckman";
    assert_eq!(extract_title_from_content(doc), "experimental investigation");
    assert_eq!(extract_title_from_content(".I 1\n.W\ntext"), "Title Missing");
    assert_eq!(extract_title_from_content(".T\n\n  Title here..  \n"), "Title here");
    assert_eq!(extract_title_from_content(".T\n   \n"), "Title Missing");
    assert_eq!(extract_title_from_content(" .T\nfoo"), "Title Missing");
    assert_eq!(extract_title_from_content(".TX\nfoo"), "Title Missing");
    assert_eq!(extract_title_from_content(".T\r\nfoo\r\n"), "foo");
}

#[test]
fn document_term_frequencies() {
    let (tf, len) = calculate_document_tf("The cat  the\tCAT dog");
    assert_eq!(len, 5);
    assert_eq!(
        tf,
        vec![("the".to_string(), 2), ("cat".to_string(), 2), ("dog".to_string(), 1)]
    );
    let (tf, len) = calculate_document_tf("   ");
    assert_eq!(len, 0);
    assert!(tf.is_empty());
}

#[test]
fn doc_ids_from_file_names() {
    assert_eq!(extract_doc_id("doc12"), Some(12));
    assert_eq!(extract_doc_id("doc+5"), Some(5));
    assert_eq!(extract_doc_id("doc"), None);
    assert_eq!(extract_doc_id("doc4294967295"), Some(u32::MAX));
    assert_eq!(extract_doc_id("doc4294967296"), None);
    assert_eq!(extract_doc_id("doc-1"), None);
    assert_eq!(extract_doc_id("readme"), None);
}

#[test]
fn build_index_counts_documents_and_lengths() {
    let ix = build_index(&two_docs(), &stop()).unwrap();
    assert_eq!(ix.n, 2);
    assert_eq!(ix.total_length, 6);
    assert_eq!(ix.doc_lengths.get(&1), Some(&3));
    assert_eq!(ix.doc_lengths.get(&2), Some(&3));
    assert_eq!(ix.doc_titles.get(&1), Some(&"Title Missing".to_string()));
    assert_eq!(ix.dictionary.len(), 5);
    for (_, postings) in ix.dictionary.iter() {
        for p in postings {
            assert!(ix.doc_lengths.contains_key(&p.doc_id));
            assert!(ix.doc_titles.contains_key(&p.doc_id));
        }
    }
    assert_eq!(ix.postings(&"dog".to_string()), Some(&vec![Posting::new(2, 1)]));
    assert_eq!(ix.postings(&"the".to_string()), None);
}

#[test]
fn build_index_sums_terms_with_one_stem() {
    let docs = vec![(7, "run running runs".to_string())];
    let ix = build_index(&docs, &stop()).unwrap();
    assert_eq!(ix.postings(&"run".to_string()), Some(&vec![Posting::new(7, 3)]));
}

#[test]
fn build_index_orders_postings_by_document() {
    let docs = vec![(5, "cat".to_string()), (2, "cat cat".to_string()), (9, "cats".to_string())];
    let ix = build_index(&docs, &stop()).unwrap();
    assert_eq!(
        ix.postings(&"cat".to_string()),
        Some(&vec![Posting::new(2, 2), Posting::new(5, 1), Posting::new(9, 1)])
    );
}

#[test]
fn build_index_errors() {
    assert!(matches!(build_index(&vec![], &stop()), Err(BuildError::NoDocuments)));
    let docs = vec![(1, "a".to_string()), (1, "b".to_string())];
    assert!(matches!(build_index(&docs, &stop()), Err(BuildError::DuplicateDocId(1))));
}

#[test]
fn add_posting_appends_in_insertion_order() {
    let mut ix = InvertedIndex::new();
    ix.add_posting("x".to_string(), Posting::new(4, 1));
    ix.add_posting("x".to_string(), Posting::new(2, 5));
    ix.add_posting("y".to_string(), Posting::new(3, 2));
    assert_eq!(ix.dictionary.len(), 2);
    assert_eq!(ix.dictionary[0].1, vec![Posting::new(4, 1), Posting::new(2, 5)]);
    assert_eq!(ix.dictionary[1].1, vec![Posting::new(3, 2)]);
}

#[test]
fn score_terms_for_shared_token() {
    let ix = build_index(&two_docs(), &stop()).unwrap();
    let terms = score_terms("Cat", &ix, &stop());
    assert_eq!(terms, vec![ScoreTerm { doc_id: 1, df: 1, tf: 1, doc_len: 3 }]);
    let terms = score_terms("cats cat", &ix, &stop());
    assert_eq!(terms.len(), 2);
}

#[test]
fn score_terms_for_disjoint_query_is_empty() {
    let ix = build_index(&two_docs(), &stop()).unwrap();
    assert!(score_terms("xyz", &ix, &stop()).is_empty());
    assert!(score_terms("the", &ix, &stop()).is_empty());
    assert!(score_terms("", &ix, &stop()).is_empty());
}

#[test]
fn idf_fraction_values() {
    assert_eq!(idf_fraction(1, 2), (3, 3));
    assert_eq!(idf_fraction(1, 10), (19, 3));
    assert_eq!(idf_fraction(5, 10), (11, 11));
    let (a, b) = idf_fraction(2, 10);
    let (c, d) = idf_fraction(3, 10);
    assert!(a * d > c * b);
}

#[test]
fn weight_fraction_values() {
    // tf 1 in a document of average length: 2.2 / 2.2.
    assert_eq!(weight_fraction(1, 3, 2, 6), (264, 264));
    // tf 2, dl 10, n 4, total 20 (avdl 5): 4.4 / (2 + 1.2 * (0.25 + 1.5)) = 4.4 / 4.1.
    let (num, den) = weight_fraction(2, 10, 4, 20);
    assert_eq!(num * 41, den * 44);
}

#[test]
fn relevance_set_keeps_grades_of_two_and_more() {
    let qrels = "1 5 2\n1 6 1\n1 5 3\n2 7 4\nbad line\n1 8 x\n1 9 +3\n";
    assert_eq!(relevance_set(qrels, 1), vec![5, 9]);
    assert_eq!(relevance_set(qrels, 2), vec![7]);
    assert!(relevance_set(qrels, 3).is_empty());
}

#[test]
fn relevant_ranks_stop_when_all_found() {
    assert_eq!(relevant_ranks(&vec![3, 5, 9, 7], &vec![9, 3]), vec![1, 3]);
    assert_eq!(relevant_ranks(&vec![4, 5], &vec![5, 6]), vec![2]);
    assert!(relevant_ranks(&vec![4, 5], &vec![]).is_empty());
}

#[test]
fn end_to_end_two_documents() {
    let sw = Stopwords::from_text("the\n");
    let ix = build_index(&two_docs(), &sw).unwrap();
    assert_eq!(ix.n, 2);
    let terms = score_terms("cat", &ix, &sw);
    assert_eq!(terms.len(), 1);
    assert_eq!(terms[0].doc_id, 1);
    let (inum, iden) = idf_fraction(terms[0].df, ix.n);
    let (wnum, wden) = weight_fraction(terms[0].tf, terms[0].doc_len, ix.n, ix.total_length);
    let score = (inum as f64 / iden as f64).ln() * (wnum as f64 / wden as f64);
    let expected = ((2.0f64 - 1.0 + 0.5) / (1.0 + 0.5)).ln()
        * (1.0 * 2.2 / (1.0 + 1.2 * (1.0 - 0.75 + 0.75 * 3.0 / 3.0)));
    assert!((score - expected).abs() < 1e-9);
    assert!(score_terms("xyz", &ix, &sw).is_empty());
    let relevant = relevance_set("1 1 3\n", 1);
    let ranks = relevant_ranks(&vec![1], &relevant);
    let ap: f64 = ranks.iter().enumerate().map(|(k, r)| (k + 1) as f64 / *r as f64).sum::<f64>()
        / relevant.len() as f64;
    assert_eq!(ap, 1.0);
}

#[test]
fn stopword_list_is_trimmed_and_lowercased() {
    let sw = Stopwords::from_text("  The \r\nAND\n\n");
    assert!(sw.contains(&vec!['t', 'h', 'e']));
    assert!(sw.contains(&vec!['a', 'n', 'd']));
    assert!(!sw.contains(&vec!['T', 'h', 'e']));
    assert!(!sw.contains(&vec![]));
}

#[test]
fn relevance_grades_with_signs() {
    let qrels = "4 10 -1\n4 11 2\n4 12 +2\n4 13 1\n";
    assert_eq!(relevance_set(qrels, 4), vec![11, 12]);
}

#[test]
fn relevance_query_id_is_matched_as_decimal_text() {
    let qrels = "01 5 3\n+1 6 3\n1 7 3\n10 8 3\n";
    assert_eq!(relevance_set(qrels, 1), vec![7]);
    assert_eq!(relevance_set(qrels, 10), vec![8]);
}

#[test]
fn decimal_text_of_ids() {
    assert_eq!(decimal_chars(0), vec!['0']);
    assert_eq!(decimal_chars(10), vec!['1', '0']);
    assert_eq!(decimal_chars(u32::MAX), "4294967295".chars().collect::<Vec<char>>());
}

fn chars(s: &str) -> Vec<char> {
    s.chars().collect()
}

#[test]
fn stemming_passes_on_given_words() {
    assert_eq!(stem(chars("running")), chars("run"));
    assert_eq!(stem(chars("studies")), chars("study"));
    assert_eq!(stem(chars("cats")), chars("cat"));
    assert_eq!(remove_plural(chars("ponies")), chars("pony"));
    assert_eq!(remove_plural(chars("ties")), chars("ti"));
    assert_eq!(remove_plural(chars("gas")), chars("ga"));
    assert_eq!(remove_plural(chars("is")), chars("is"));
    assert_eq!(remove_affix(chars("sing")), chars("s"));
    assert_eq!(remove_affix(chars("ing")), chars("ing"));
    assert_eq!(remove_affix(chars("used")), chars("us"));
    assert_eq!(remove_affix(chars("fly")), chars("f"));
    assert_eq!(remove_double_letters(chars("runn")), chars("run"));
    assert_eq!(remove_double_letters(chars("a")), chars("a"));
}
