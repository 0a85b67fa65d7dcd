use wikidex::codec::{decode_len_map, decode_lexicon, encode_len_map, encode_lexicon};
use wikidex::common::IndexError;
use wikidex::postings::{parse_postings, render_postings};

#[test]
fn len_map_round_trip() {
    let m = vec![(1usize, 3usize), (42usize, 7usize), (0usize, 0usize)];
    let bytes = encode_len_map(&m);
    assert_eq!(decode_len_map(&bytes).unwrap(), m);
}

#[test]
fn len_map_empty_round_trip() {
    let m: Vec<(usize, usize)> = Vec::new();
    let bytes = encode_len_map(&m);
    assert_eq!(bytes.len(), 8);
    assert_eq!(decode_len_map(&bytes).unwrap(), m);
}

#[test]
fn len_map_rejects_truncation() {
    let m = vec![(1usize, 3usize)];
    let mut bytes = encode_len_map(&m);
    bytes.pop();
    assert_eq!(decode_len_map(&bytes), Err(IndexError::MalformedBinaryMap));
}

#[test]
fn len_map_rejects_trailing_bytes() {
    let m = vec![(1usize, 3usize)];
    let mut bytes = encode_len_map(&m);
    bytes.push(0);
    assert_eq!(decode_len_map(&bytes), Err(IndexError::MalformedBinaryMap));
}

#[test]
fn len_map_rejects_empty_file() {
    let bytes: Vec<u8> = Vec::new();
    assert_eq!(decode_len_map(&bytes), Err(IndexError::MalformedBinaryMap));
}

#[test]
fn lexicon_round_trip() {
    // token ids are positions; tokens may hold any UTF-8
    let tokens = vec!["hello".to_string(), "world".to_string(), "caf\u{e9}".to_string()];
    let bytes = encode_lexicon(&tokens);
    assert_eq!(decode_lexicon(&bytes).unwrap(), tokens);
}

#[test]
fn lexicon_rejects_bad_utf8() {
    let tokens = vec!["a".to_string()];
    let mut bytes = encode_lexicon(&tokens);
    let n = bytes.len();
    bytes[n - 1] = 0xff;
    assert_eq!(decode_lexicon(&bytes), Err(IndexError::MalformedBinaryMap));
}

#[test]
fn postings_round_trip() {
    let entries = vec![(1usize, 2usize), (10usize, 1usize), (12345usize, 67890usize)];
    let bytes = render_postings(&entries);
    assert_eq!(bytes, b"1 2\n10 1\n12345 67890\n".to_vec());
    assert_eq!(parse_postings(&bytes).unwrap(), entries);
}

#[test]
fn postings_reader_ignores_blank_lines() {
    let bytes = b"1 2\n\n3 4\n\n".to_vec();
    assert_eq!(parse_postings(&bytes).unwrap(), vec![(1usize, 2usize), (3usize, 4usize)]);
}

#[test]
fn postings_reader_tolerates_missing_final_newline() {
    let bytes = b"1 2\n3 4".to_vec();
    assert_eq!(parse_postings(&bytes).unwrap(), vec![(1usize, 2usize), (3usize, 4usize)]);
}

#[test]
fn postings_reader_rejects_one_field() {
    let bytes = b"1\n".to_vec();
    assert_eq!(parse_postings(&bytes), Err(IndexError::MalformedPostingsLine));
}

#[test]
fn postings_reader_rejects_non_numeric() {
    let bytes = b"a b\n".to_vec();
    assert_eq!(parse_postings(&bytes), Err(IndexError::MalformedPostingsLine));
}

#[test]
fn postings_of_empty_file() {
    let bytes: Vec<u8> = Vec::new();
    assert_eq!(parse_postings(&bytes).unwrap(), Vec::<(usize, usize)>::new());
}
