use wikidex::decimal::{parse_usize, usize_to_string};
use wikidex::layout::{
    article_dir_path, article_file_path, article_lengths_path, lexicon_path, postings_dir_path,
    postings_file_path,
};
use wikidex::lexicon::Lexicon;

#[test]
fn decimal_rendering() {
    assert_eq!(usize_to_string(0), "0".to_string());
    assert_eq!(usize_to_string(7), "7".to_string());
    assert_eq!(usize_to_string(12034), "12034".to_string());
}

#[test]
fn decimal_parsing() {
    assert_eq!(parse_usize(b"0"), Some(0));
    assert_eq!(parse_usize(b"12034"), Some(12034));
    assert_eq!(parse_usize(b""), None);
    assert_eq!(parse_usize(b"1a"), None);
    assert_eq!(parse_usize(b" 1"), None);
}

#[test]
fn on_disk_layout_paths() {
    let root = String::from("idx");
    assert_eq!(lexicon_path(&root), "idx/lexicon.bin".to_string());
    assert_eq!(article_lengths_path(&root), "idx/article_lengths.bin".to_string());
    assert_eq!(article_dir_path(&root, 2500), "idx/articles/2".to_string());
    assert_eq!(article_file_path(&root, 2500), "idx/articles/2/article_2500.json".to_string());
    assert_eq!(postings_dir_path(&root, 1234), "idx/inv_index/1".to_string());
    assert_eq!(postings_file_path(&root, 1234), "idx/inv_index/1/1234.txt".to_string());
    assert_eq!(postings_file_path(&root, 17), "idx/inv_index/0/17.txt".to_string());
}

#[test]
fn lexicon_allocates_dense_first_seen_ids() {
    let mut lex = Lexicon::new();
    assert_eq!(lex.len(), 0);
    let a = lex.get_or_insert(&"bird".to_string());
    let b = lex.get_or_insert(&"cat".to_string());
    let a2 = lex.get_or_insert(&"bird".to_string());
    assert_eq!(a, 0);
    assert_eq!(b, 1);
    assert_eq!(a2, 0);
    assert_eq!(lex.len(), 2);
    assert_eq!(lex.id_of(&"cat".to_string()), Some(1));
    assert_eq!(lex.id_of(&"dog".to_string()), None);
    assert_eq!(lex.token_of(0), Some(&"bird".to_string()));
    assert_eq!(lex.token_of(1), Some(&"cat".to_string()));
    assert_eq!(lex.token_of(2), None);
}
