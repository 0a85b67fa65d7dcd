use wikidex::codec::{decode_len_map, decode_lexicon};
use wikidex::common::Article;
use wikidex::index_builder::IndexBuilder;
use wikidex::postings::parse_postings;

fn article(id: usize, title: &str, text: &str) -> Article {
    Article { id, title: title.to_string(), text: text.to_string() }
}

#[test]
fn single_article_build() {
    // one article {id:1, title:"Alpha", text:"Hello hello world"}:
    // lexicon {0:"hello", 1:"world"}, lengths {1:3},
    // postings 0 -> "1 2", postings 1 -> "1 1"
    let root = String::from("idx");
    let mut b = IndexBuilder::new(&root);
    let a = article(1, "Alpha", "Hello hello world");
    let mid = b.build_index(&a);
    assert_eq!(mid.len(), 0); // nothing reaches the spill bound
    let batches = b.update_all_inv_index_files();

    let lex = decode_lexicon(&b.lexicon_bytes()).unwrap();
    assert_eq!(lex, vec!["hello".to_string(), "world".to_string()]);

    let lengths = decode_len_map(&b.article_lengths_bytes()).unwrap();
    assert_eq!(lengths, vec![(1usize, 3usize)]);

    assert_eq!(batches.len(), 2);
    assert_eq!(batches[0].token_id, 0);
    assert_eq!(batches[0].entries, vec![(1usize, 2usize)]);
    assert_eq!(batches[0].lines(), b"1 2\n".to_vec());
    assert_eq!(batches[1].token_id, 1);
    assert_eq!(batches[1].entries, vec![(1usize, 1usize)]);
    assert_eq!(batches[1].lines(), b"1 1\n".to_vec());
}

#[test]
fn token_ids_are_first_seen_ordered() {
    let root = String::from("idx");
    let mut b = IndexBuilder::new(&root);
    b.build_index(&article(1, "", "bird cat bird"));
    b.build_index(&article(2, "", "cat dog"));
    let lex = decode_lexicon(&b.lexicon_bytes()).unwrap();
    assert_eq!(lex, vec!["bird".to_string(), "cat".to_string(), "dog".to_string()]);
}

#[test]
fn two_article_postings() {
    let root = String::from("idx");
    let mut b = IndexBuilder::new(&root);
    b.build_index(&article(1, "", "cat cat dog"));
    b.build_index(&article(2, "", "dog"));
    let batches = b.update_all_inv_index_files();
    // cat has id 0, dog id 1
    assert_eq!(batches.len(), 2);
    assert_eq!(batches[0].token_id, 0);
    assert_eq!(batches[0].entries, vec![(1usize, 2usize)]);
    assert_eq!(batches[1].token_id, 1);
    assert_eq!(batches[1].entries, vec![(1usize, 1usize), (2usize, 1usize)]);

    let lengths = decode_len_map(&b.article_lengths_bytes()).unwrap();
    assert_eq!(lengths, vec![(1usize, 3usize), (2usize, 1usize)]);
}

#[test]
fn build_from_articles_matches_stepwise_build() {
    let root = String::from("idx");
    let articles = vec![article(1, "", "cat cat dog"), article(2, "", "dog")];
    let (b, batches) = IndexBuilder::build_from_articles(&root, &articles);
    let lex = decode_lexicon(&b.lexicon_bytes()).unwrap();
    assert_eq!(lex, vec!["cat".to_string(), "dog".to_string()]);
    assert_eq!(batches.len(), 2);
    assert_eq!(batches[1].entries, vec![(1usize, 1usize), (2usize, 1usize)]);
}

#[test]
fn buffer_spill_at_bound() {
    // one token more than the spill bound of distinct articles: the
    // postings accumulate across batches and the buffer drains
    let root = String::from("idx");
    let mut b = IndexBuilder::new(&root);
    let mut all_lines: Vec<u8> = Vec::new();
    let mut spill_batches = 0;
    for id in 0..10001usize {
        let batches = b.build_index(&article(id, "", "dog"));
        for batch in &batches {
            assert_eq!(batch.token_id, 0);
            all_lines.extend_from_slice(&batch.lines());
            spill_batches += 1;
        }
    }
    // the buffer reached the bound exactly once along the way
    assert_eq!(spill_batches, 1);
    assert_eq!(b.buffered_len(0), 1);
    let final_batches = b.update_all_inv_index_files();
    for batch in &final_batches {
        all_lines.extend_from_slice(&batch.lines());
    }
    assert_eq!(b.buffered_len(0), 0);

    let entries = parse_postings(&all_lines).unwrap();
    assert_eq!(entries.len(), 10001);
    for (i, e) in entries.iter().enumerate() {
        assert_eq!(*e, (i, 1usize));
    }
}

#[test]
fn reingesting_same_article_id_overwrites_length() {
    let root = String::from("idx");
    let mut b = IndexBuilder::new(&root);
    b.build_index(&article(7, "", "one two"));
    b.build_index(&article(7, "", "one two three"));
    let lengths = decode_len_map(&b.article_lengths_bytes()).unwrap();
    assert_eq!(lengths, vec![(7usize, 3usize)]);
}
