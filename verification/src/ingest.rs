//! The ingestion driver's state machine: it consumes a stream of
//! XML-shaped events, assembles articles, and emits each article when its
//! `page` element closes, up to a build-wide article cap.
//!
//! The caller owns the event source (decompression and XML parsing) and
//! the handling of each completed article; the machine only decides.

use vstd::prelude::*;
use crate::common::{Article, IndexError};

verus! {

/// The number of articles after which a build stops.
pub const MAX_ARTICLES: usize = 10000;

/// An XML-shaped event, reduced to what ingestion reads: element
/// boundaries by local name, and character data.
pub enum DumpEvent {
    StartElement(String),
    EndElement(String),
    Characters(String),
    Other,
}

/// Which element's character data is currently accumulating.
#[derive(Debug, Clone, Copy, PartialEq, Eq, Structural)]
pub enum Tag {
    Title,
    Id,
    Text,
    Other,
}

/// The tag tracked after an element opens.
pub open spec fn tag_for_name(name: Seq<char>) -> Tag {
    if name == "title"@ {
        Tag::Title
    } else if name == "id"@ {
        Tag::Id
    } else if name == "text"@ {
        Tag::Text
    } else {
        Tag::Other
    }
}

/// Whether `c` is a decimal digit character.
pub open spec fn is_digit_char(c: char) -> bool {
    '0' <= c <= '9'
}

/// The value of a digit-character string, most significant first.
pub open spec fn char_digits_val(s: Seq<char>) -> int
    decreases s.len(),
{
    if s.len() == 0 {
        0
    } else {
        char_digits_val(s.drop_last()) * 10 + (s.last() as u32 - 48)
    }
}

/// The article id an `<id>` element's text denotes: a non-empty run of
/// digits whose value fits the machine, anything else being corrupt.
pub open spec fn id_value(s: Seq<char>) -> Option<usize> {
    if s.len() > 0 && (forall|i: int| 0 <= i < s.len() ==> is_digit_char(#[trigger] s[i]))
        && char_digits_val(s) <= usize::MAX {
        Some(char_digits_val(s) as usize)
    } else {
        None
    }
}

/// Digit-character string values are never negative.
proof fn lemma_char_digits_nonneg(s: Seq<char>)
    requires
        forall|i: int| 0 <= i < s.len() ==> is_digit_char(#[trigger] s[i]),
    ensures
        char_digits_val(s) >= 0,
    decreases s.len(),
{
    if s.len() > 0 {
        lemma_char_digits_nonneg(s.drop_last());
    }
}

/// A digit string's value does not drop as it is extended to the right.
proof fn lemma_char_digits_prefix_le(s: Seq<char>, i: int)
    requires
        forall|j: int| 0 <= j < s.len() ==> is_digit_char(#[trigger] s[j]),
        0 <= i <= s.len(),
    ensures
        char_digits_val(s.take(i)) <= char_digits_val(s),
    decreases s.len() - i,
{
    if i < s.len() {
        assert(s.take(i + 1).drop_last() =~= s.take(i));
        assert(s.take(i + 1).last() == s[i]);
        assert(forall|j: int| 0 <= j < i ==> is_digit_char(#[trigger] s.take(i)[j]));
        lemma_char_digits_nonneg(s.take(i));
        assert(char_digits_val(s.take(i)) <= char_digits_val(s.take(i + 1)));
        lemma_char_digits_prefix_le(s, i + 1);
    } else {
        assert(s.take(i) =~= s);
    }
}

/// Parses an `<id>` element's text.
pub fn parse_id(s: &String) -> (r: Option<usize>)
    ensures
        r == id_value(s@),
{
    let st = s.as_str();
    let n = st.unicode_len();
    if n == 0 {
        return None;
    }
    let mut acc: usize = 0;
    let mut i: usize = 0;
    proof {
        assert(st@.take(0) =~= Seq::<char>::empty());
    }
    while i < n
        invariant
            0 < n == st@.len(),
            st@ == s@,
            i <= n,
            forall|j: int| 0 <= j < i ==> is_digit_char(#[trigger] st@[j]),
            acc == char_digits_val(st@.take(i as int)),
        decreases n - i,
    {
        let c = st.get_char(i);
        if c < '0' || c > '9' {
            return None;
        }
        let d: usize = (c as u32 - 48) as usize;
        proof {
            assert(st@.take(i + 1).drop_last() =~= st@.take(i as int));
            assert(st@.take(i + 1).last() == st@[i as int]);
            assert(forall|j: int| 0 <= j < i + 1 ==> is_digit_char(#[trigger] st@.take(i + 1)[j]));
        }
        let next = match acc.checked_mul(10) {
            Some(t) => t.checked_add(d),
            None => None,
        };
        match next {
            Some(v) => {
                acc = v;
            },
            None => {
                proof {
                    if forall|j: int| 0 <= j < st@.len() ==> is_digit_char(#[trigger] st@[j]) {
                        lemma_char_digits_prefix_le(st@, i + 1);
                    }
                }
                return None;
            },
        }
        i = i + 1;
    }
    proof {
        assert(st@.take(n as int) =~= st@);
    }
    Some(acc)
}

/// What one step of the machine produced.
pub struct StepOutcome {
    /// The article completed by this event, if it closed a `page`.
    pub completed: Option<Article>,
    /// Whether the build-wide article cap is now reached and the caller
    /// should stop consuming events.
    pub done: bool,
}

/// The ingestion state machine.
pub struct DumpParser {
    cur_tag: Tag,
    cur_article: Article,
    article_count: usize,
}

impl DumpParser {
    /// Which element's character data is accumulating.
    pub closed spec fn tag(&self) -> Tag {
        self.cur_tag
    }

    /// The id of the article under construction (`usize::MAX` until its
    /// first `<id>` element is parsed).
    pub closed spec fn article_id(&self) -> usize {
        self.cur_article.id
    }

    /// The title of the article under construction.
    pub closed spec fn article_title(&self) -> Seq<char> {
        self.cur_article.title@
    }

    /// The body of the article under construction.
    pub closed spec fn article_text(&self) -> Seq<char> {
        self.cur_article.text@
    }

    /// How many articles have been completed.
    pub closed spec fn count(&self) -> usize {
        self.article_count
    }

    /// A fresh machine: no element open, an unset article, no articles
    /// completed.
    pub fn new() -> (p: DumpParser)
        ensures
            p.tag() == Tag::Other,
            p.article_id() == usize::MAX,
            p.article_title() == Seq::<char>::empty(),
            p.article_text() == Seq::<char>::empty(),
            p.count() == 0,
    {
        DumpParser { cur_tag: Tag::Other, cur_article: Article::new(), article_count: 0 }
    }

    /// The id of the article in progress, for error reporting.
    pub fn current_article_id(&self) -> (id: usize)
        ensures
            id == self.article_id(),
    {
        self.cur_article.id
    }

    /// Feeds one event to the machine.
    ///
    /// An element start tracks which of `title`, `id` or `text` is open;
    /// character data fills the tracked field, the first `<id>` alone
    /// setting the id; the end of a `page` completes the article, resets
    /// the working article, and reports whether the article cap is
    /// reached.  A corrupt `<id>` is an ingestion-fatal error.
    pub fn step(&mut self, event: DumpEvent) -> (r: Result<StepOutcome, IndexError>)
        requires
            old(self).count() < MAX_ARTICLES,
        ensures
            match event {
                DumpEvent::StartElement(name) => {
                    &&& r matches Ok(o) && o.completed is None && !o.done
                    &&& final(self).tag() == tag_for_name(name@)
                    &&& final(self).article_id() == old(self).article_id()
                    &&& final(self).article_title() == old(self).article_title()
                    &&& final(self).article_text() == old(self).article_text()
                    &&& final(self).count() == old(self).count()
                },
                DumpEvent::EndElement(name) => {
                    &&& final(self).tag() == Tag::Other
                    &&& if name@ == "page"@ {
                        &&& final(self).count() == old(self).count() + 1
                        &&& r matches Ok(o) && (o.completed matches Some(a) && a.id == old(
                            self,
                        ).article_id() && a.title@ == old(self).article_title() && a.text@ == old(
                            self,
                        ).article_text()) && o.done == (final(self).count() >= MAX_ARTICLES)
                        &&& final(self).article_id() == usize::MAX
                        &&& final(self).article_title() == Seq::<char>::empty()
                        &&& final(self).article_text() == Seq::<char>::empty()
                    } else {
                        &&& final(self).count() == old(self).count()
                        &&& r matches Ok(o) && o.completed is None && !o.done
                        &&& final(self).article_id() == old(self).article_id()
                        &&& final(self).article_title() == old(self).article_title()
                        &&& final(self).article_text() == old(self).article_text()
                    }
                },
                DumpEvent::Characters(chars) => {
                    &&& final(self).tag() == old(self).tag()
                    &&& final(self).count() == old(self).count()
                    &&& match old(self).tag() {
                        Tag::Title => {
                            &&& r matches Ok(o) && o.completed is None && !o.done
                            &&& final(self).article_title() == chars@
                            &&& final(self).article_id() == old(self).article_id()
                            &&& final(self).article_text() == old(self).article_text()
                        },
                        Tag::Id => {
                            if old(self).article_id() != usize::MAX {
                                &&& r matches Ok(o) && o.completed is None && !o.done
                                &&& final(self).article_id() == old(self).article_id()
                                &&& final(self).article_title() == old(self).article_title()
                                &&& final(self).article_text() == old(self).article_text()
                            } else {
                                match id_value(chars@) {
                                    Some(v) => {
                                        &&& r matches Ok(o) && o.completed is None && !o.done
                                        &&& final(self).article_id() == v
                                        &&& final(self).article_title() == old(
                                            self,
                                        ).article_title()
                                        &&& final(self).article_text() == old(self).article_text()
                                    },
                                    None => {
                                        r matches Err(e) && e == IndexError::MalformedId
                                    },
                                }
                            }
                        },
                        Tag::Text => {
                            &&& r matches Ok(o) && o.completed is None && !o.done
                            &&& final(self).article_text() == chars@
                            &&& final(self).article_id() == old(self).article_id()
                            &&& final(self).article_title() == old(self).article_title()
                        },
                        Tag::Other => {
                            &&& r matches Ok(o) && o.completed is None && !o.done
                            &&& final(self).article_id() == old(self).article_id()
                            &&& final(self).article_title() == old(self).article_title()
                            &&& final(self).article_text() == old(self).article_text()
                        },
                    }
                },
                DumpEvent::Other => {
                    &&& r matches Ok(o) && o.completed is None && !o.done
                    &&& *final(self) == *old(self)
                },
            },
    {
        match event {
            DumpEvent::StartElement(name) => {
                self.cur_tag = if name == String::from_str("title") {
                    Tag::Title
                } else if name == String::from_str("id") {
                    Tag::Id
                } else if name == String::from_str("text") {
                    Tag::Text
                } else {
                    Tag::Other
                };
                Ok(StepOutcome { completed: None, done: false })
            },
            DumpEvent::EndElement(name) => {
                self.cur_tag = Tag::Other;
                if name == String::from_str("page") {
                    self.article_count = self.article_count + 1;
                    let completed = self.cur_article.clone();
                    self.cur_article = Article::new();
                    Ok(
                        StepOutcome {
                            completed: Some(completed),
                            done: self.article_count >= MAX_ARTICLES,
                        },
                    )
                } else {
                    Ok(StepOutcome { completed: None, done: false })
                }
            },
            DumpEvent::Characters(chars) => {
                match self.cur_tag {
                    Tag::Title => {
                        self.cur_article.title = chars;
                        Ok(StepOutcome { completed: None, done: false })
                    },
                    Tag::Id => {
                        if self.cur_article.id != usize::MAX {
                            Ok(StepOutcome { completed: None, done: false })
                        } else {
                            match parse_id(&chars) {
                                Some(v) => {
                                    self.cur_article.id = v;
                                    Ok(StepOutcome { completed: None, done: false })
                                },
                                None => Err(IndexError::MalformedId),
                            }
                        }
                    },
                    Tag::Text => {
                        self.cur_article.text = chars;
                        Ok(StepOutcome { completed: None, done: false })
                    },
                    Tag::Other => Ok(StepOutcome { completed: None, done: false }),
                }
            },
            DumpEvent::Other => Ok(StepOutcome { completed: None, done: false }),
        }
    }
}

} // verus!
