//! Shared constants and the article record.

use vstd::prelude::*;

verus! {

/// Articles are sharded on disk into directories of at most this many files.
pub const MAX_ARTICLE_DIR_SIZE: usize = 1000;

/// A term's in-memory postings buffer is spilled to disk once it holds this
/// many entries.
pub const MAX_POSTINGS_LIST_SIZE: usize = 10000;

/// Postings files are sharded into directories of at most this many terms.
pub const MAX_POSTINGS_LIST_DIRECTORY_SIZE: usize = 1000;

/// Snippets extend this many bytes to each side of the anchoring match.
pub const SNIPPET_OFFSET: usize = 50;

/// What went wrong inside the index core.  I/O errors stay with the caller
/// that performs the I/O; these cover the data-dependent failures.
#[derive(Debug, Clone, Copy, PartialEq, Eq, Structural)]
pub enum IndexError {
    /// A postings file holds a line that is not `<article_id> <term_frequency>`.
    MalformedPostingsLine,
    /// A binary map file does not decode under the on-disk scheme, or a
    /// decoded value does not fit the machine's word size.
    MalformedBinaryMap,
    /// A query term known to the lexicon has no loaded postings list: the
    /// index is inconsistent.
    MissingPostingsList { token_id: usize },
    /// No query term occurs in the article, so no snippet can be anchored.
    NoSnippet,
    /// An `<id>` element does not hold a machine-sized decimal number.
    MalformedId,
}

/// One document unit from the dump: the unit of ingestion, indexing,
/// retrieval and snippet display.
///
/// An article under construction carries the sentinel id `usize::MAX` until
/// its first `<id>` element is parsed.
#[derive(Debug)]
pub struct Article {
    pub id: usize,
    pub title: String,
    pub text: String,
}

impl Article {
    /// A fresh article with the unset-id sentinel and empty title and body.
    pub fn new() -> (a: Article)
        ensures
            a.id == usize::MAX,
            a.title@ == Seq::<char>::empty(),
            a.text@ == Seq::<char>::empty(),
    {
        Article { title: String::new(), id: usize::MAX, text: String::new() }
    }

    /// Whether an `<id>` element has been parsed for this article.
    pub fn parsed_id(&self) -> (b: bool)
        ensures
            b == (self.id != usize::MAX),
    {
        self.id != usize::MAX
    }
}

impl Clone for Article {
    fn clone(&self) -> (a: Article)
        ensures
            a.id == self.id,
            a.title@ == self.title@,
            a.text@ == self.text@,
    {
        Article { id: self.id, title: self.title.clone(), text: self.text.clone() }
    }
}

} // verus!
