//! The on-disk layout under the index root: where the lexicon, the
//! article-length table, each article record and each postings file live.

use vstd::prelude::*;
use crate::common::{MAX_ARTICLE_DIR_SIZE, MAX_POSTINGS_LIST_DIRECTORY_SIZE};
use crate::decimal::{dec_chars, usize_to_string};

verus! {

/// The lexicon file under the index root.
pub open spec fn lexicon_path_spec(root: Seq<char>) -> Seq<char> {
    root + "/lexicon.bin"@
}

/// The article-length table under the index root.
pub open spec fn article_lengths_path_spec(root: Seq<char>) -> Seq<char> {
    root + "/article_lengths.bin"@
}

/// The directory sharding the given article's record.
pub open spec fn article_dir_path_spec(root: Seq<char>, article_id: usize) -> Seq<char> {
    root + "/articles/"@ + dec_chars((article_id / MAX_ARTICLE_DIR_SIZE) as nat)
}

/// The given article's record file.
pub open spec fn article_file_path_spec(root: Seq<char>, article_id: usize) -> Seq<char> {
    article_dir_path_spec(root, article_id) + "/article_"@ + dec_chars(article_id as nat)
        + ".json"@
}

/// The directory sharding the given term's postings file.
pub open spec fn postings_dir_path_spec(root: Seq<char>, token_id: usize) -> Seq<char> {
    root + "/inv_index/"@ + dec_chars((token_id / MAX_POSTINGS_LIST_DIRECTORY_SIZE) as nat)
}

/// The given term's postings file.
pub open spec fn postings_file_path_spec(root: Seq<char>, token_id: usize) -> Seq<char> {
    postings_dir_path_spec(root, token_id) + "/"@ + dec_chars(token_id as nat) + ".txt"@
}

/// The lexicon file's path.
pub fn lexicon_path(index_path: &String) -> (p: String)
    ensures
        p@ == lexicon_path_spec(index_path@),
{
    let mut p = index_path.clone();
    p.append("/lexicon.bin");
    p
}

/// The article-length table's path.
pub fn article_lengths_path(index_path: &String) -> (p: String)
    ensures
        p@ == article_lengths_path_spec(index_path@),
{
    let mut p = index_path.clone();
    p.append("/article_lengths.bin");
    p
}

/// The path of the directory holding the given article's record.
pub fn article_dir_path(index_path: &String, article_id: usize) -> (p: String)
    ensures
        p@ == article_dir_path_spec(index_path@, article_id),
{
    let mut p = index_path.clone();
    p.append("/articles/");
    let shard = usize_to_string(article_id / MAX_ARTICLE_DIR_SIZE);
    p.append(shard.as_str());
    p
}

/// The path of the given article's record file.
pub fn article_file_path(index_path: &String, article_id: usize) -> (p: String)
    ensures
        p@ == article_file_path_spec(index_path@, article_id),
{
    let mut p = article_dir_path(index_path, article_id);
    p.append("/article_");
    let id = usize_to_string(article_id);
    p.append(id.as_str());
    p.append(".json");
    p
}

/// The path of the directory holding the given term's postings file.
pub fn postings_dir_path(index_path: &String, token_id: usize) -> (p: String)
    ensures
        p@ == postings_dir_path_spec(index_path@, token_id),
{
    let mut p = index_path.clone();
    p.append("/inv_index/");
    let shard = usize_to_string(token_id / MAX_POSTINGS_LIST_DIRECTORY_SIZE);
    p.append(shard.as_str());
    p
}

/// The path of the given term's postings file.
pub fn postings_file_path(index_path: &String, token_id: usize) -> (p: String)
    ensures
        p@ == postings_file_path_spec(index_path@, token_id),
{
    let mut p = postings_dir_path(index_path, token_id);
    p.append("/");
    let id = usize_to_string(token_id);
    p.append(id.as_str());
    p.append(".txt");
    p
}

} // verus!
