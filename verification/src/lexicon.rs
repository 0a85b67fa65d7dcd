//! The lexicon: a bijection between tokens and dense token ids.  A token's
//! id is its position in the allocation order, so ids are exactly
//! `0 .. len`.

use vstd::prelude::*;
use crate::codec::{encode_lexicon, encode_lexicon_spec};

verus! {

/// Whether `tok` is one of the tokens of `lex`.
pub open spec fn lex_contains(lex: Seq<Seq<char>>, tok: Seq<char>) -> bool {
    exists|i: int| 0 <= i < lex.len() && lex[i] == tok
}

/// The first position of `tok` in `lex` (its token id).
pub open spec fn lex_index(lex: Seq<Seq<char>>, tok: Seq<char>) -> int
    decreases lex.len(),
{
    if lex.len() == 0 {
        0
    } else if lex[0] == tok {
        0
    } else {
        1 + lex_index(lex.drop_first(), tok)
    }
}

/// Whether no token appears twice.
pub open spec fn distinct_tokens(lex: Seq<Seq<char>>) -> bool {
    forall|i: int, j: int| 0 <= i < j < lex.len() ==> lex[i] != lex[j]
}

/// A contained token's id is in range and maps back to the token.
pub proof fn lemma_lex_index_correct(lex: Seq<Seq<char>>, tok: Seq<char>)
    requires
        lex_contains(lex, tok),
    ensures
        0 <= lex_index(lex, tok) < lex.len(),
        lex[lex_index(lex, tok)] == tok,
    decreases lex.len(),
{
    if lex[0] == tok {
    } else {
        let i = choose|i: int| 0 <= i < lex.len() && lex[i] == tok;
        assert(lex.drop_first()[i - 1] == tok);
        lemma_lex_index_correct(lex.drop_first(), tok);
    }
}

/// Under distinct tokens, the id of the token at position `i` is `i`.
pub proof fn lemma_lex_index_of_member(lex: Seq<Seq<char>>, i: int)
    requires
        distinct_tokens(lex),
        0 <= i < lex.len(),
    ensures
        lex_index(lex, lex[i]) == i,
    decreases lex.len(),
{
    if lex[0] == lex[i] {
        assert(i == 0);
    } else {
        assert(i > 0);
        assert(lex.drop_first()[i - 1] == lex[i]);
        assert forall|p: int, q: int| 0 <= p < q < lex.drop_first().len() implies lex.drop_first()[p]
            != lex.drop_first()[q] by {
            assert(lex.drop_first()[p] == lex[p + 1]);
            assert(lex.drop_first()[q] == lex[q + 1]);
        }
        lemma_lex_index_of_member(lex.drop_first(), i - 1);
    }
}

/// No earlier position matches than the id.
pub proof fn lemma_lex_index_min(lex: Seq<Seq<char>>, tok: Seq<char>)
    ensures
        forall|j: int| 0 <= j < lex_index(lex, tok) && j < lex.len() ==> lex[j] != tok,
    decreases lex.len(),
{
    if lex.len() > 0 && lex[0] != tok {
        lemma_lex_index_min(lex.drop_first(), tok);
        assert forall|j: int|
            0 <= j < lex_index(lex, tok) && j < lex.len() implies lex[j] != tok by {
            if j > 0 {
                assert(lex.drop_first()[j - 1] == lex[j]);
            }
        }
    }
}

/// The position of the first match is the id.
pub proof fn lemma_lex_index_first(lex: Seq<Seq<char>>, tok: Seq<char>, i: int)
    requires
        0 <= i < lex.len(),
        lex[i] == tok,
        forall|j: int| 0 <= j < i ==> lex[j] != tok,
    ensures
        lex_index(lex, tok) == i,
    decreases lex.len(),
{
    if lex[0] == tok {
    } else {
        assert(lex.drop_first()[i - 1] == tok);
        assert forall|j: int| 0 <= j < i - 1 implies lex.drop_first()[j] != tok by {
            assert(lex.drop_first()[j] == lex[j + 1]);
        }
        lemma_lex_index_first(lex.drop_first(), tok, i - 1);
    }
}

/// A token just appended gets the next id.
pub proof fn lemma_lex_index_append(lex: Seq<Seq<char>>, tok: Seq<char>)
    requires
        !lex_contains(lex, tok),
    ensures
        lex_index(lex.push(tok), tok) == lex.len(),
{
    assert(lex.push(tok)[lex.len() as int] == tok);
    assert forall|j: int| 0 <= j < lex.len() implies lex.push(tok)[j] != tok by {
        assert(lex.push(tok)[j] == lex[j]);
    }
    lemma_lex_index_first(lex.push(tok), tok, lex.len() as int);
}

/// The lexicon bijection: ids are exactly `0 .. len`; the id of the token
/// stored at a position is that position, and a contained token's id maps
/// back to the token.
pub proof fn lemma_lexicon_bijection(lex: Seq<Seq<char>>)
    requires
        distinct_tokens(lex),
    ensures
        forall|i: int|
            0 <= i < lex.len() ==> lex_contains(lex, #[trigger] lex[i]) && lex_index(lex, lex[i])
                == i,
        forall|tok: Seq<char>|
            #[trigger] lex_contains(lex, tok) ==> 0 <= lex_index(lex, tok) < lex.len()
                && lex[lex_index(lex, tok)] == tok,
{
    assert forall|i: int| 0 <= i < lex.len() implies lex_contains(lex, #[trigger] lex[i])
        && lex_index(lex, lex[i]) == i by {
        lemma_lex_index_of_member(lex, i);
    }
    assert forall|tok: Seq<char>| #[trigger] lex_contains(lex, tok) implies 0 <= lex_index(lex, tok)
        < lex.len() && lex[lex_index(lex, tok)] == tok by {
        lemma_lex_index_correct(lex, tok);
    }
}

/// The token-id side of the index: tokens in allocation order, a token's id
/// being its position.
pub struct Lexicon {
    tokens: Vec<String>,
}

impl View for Lexicon {
    type V = Seq<Seq<char>>;

    closed spec fn view(&self) -> Seq<Seq<char>> {
        self.tokens.deep_view()
    }
}

impl Lexicon {
    /// An empty lexicon.
    pub fn new() -> (lex: Lexicon)
        ensures
            lex@ == Seq::<Seq<char>>::empty(),
    {
        let lex = Lexicon { tokens: Vec::new() };
        proof {
            assert(lex@ =~= Seq::<Seq<char>>::empty());
        }
        lex
    }

    /// Wraps decoded tokens, ids being their positions.
    pub fn from_tokens(tokens: Vec<String>) -> (lex: Lexicon)
        ensures
            lex@ == tokens.deep_view(),
    {
        Lexicon { tokens }
    }

    /// The number of distinct tokens.
    pub fn len(&self) -> (n: usize)
        ensures
            n == self@.len(),
    {
        self.tokens.len()
    }

    /// The token with the given id, if the id is in range.
    pub fn token_of(&self, id: usize) -> (r: Option<&String>)
        ensures
            id < self@.len() ==> (r matches Some(t) && t@ == self@[id as int]),
            id >= self@.len() ==> r is None,
    {
        if id < self.tokens.len() {
            Some(&self.tokens[id])
        } else {
            None
        }
    }

    /// The lexicon's on-disk bytes.
    pub fn to_bytes(&self) -> (out: Vec<u8>)
        ensures
            out@ == encode_lexicon_spec(self@),
    {
        encode_lexicon(&self.tokens)
    }

    /// The id of the given token, if it is in the lexicon.
    pub fn id_of(&self, token: &String) -> (r: Option<usize>)
        ensures
            r matches Some(id) ==> (lex_contains(self@, token@) && id == lex_index(
                self@,
                token@,
            )),
            r is None <==> !lex_contains(self@, token@),
    {
        let n = self.tokens.len();
        let mut i: usize = 0;
        while i < n
            invariant
                i <= n,
                n == self@.len(),
                forall|j: int| 0 <= j < i ==> self@[j] != token@,
            decreases n - i,
        {
            if self.tokens[i] == *token {
                proof {
                    assert(self@[i as int] == token@);
                    lemma_lex_index_first(self@, token@, i as int);
                }
                return Some(i);
            }
            i = i + 1;
        }
        None
    }

    /// The id of the given token, allocating the next id for a token not
    /// yet seen.  Allocation order is first-seen order.
    pub fn get_or_insert(&mut self, token: &String) -> (id: usize)
        ensures
            lex_contains(old(self)@, token@) ==> final(self)@ == old(self)@,
            !lex_contains(old(self)@, token@) ==> final(self)@ == old(self)@.push(token@),
            id == lex_index(final(self)@, token@),
            id < final(self)@.len(),
            final(self)@[id as int] == token@,
    {
        match self.id_of(token) {
            Some(id) => {
                proof {
                    lemma_lex_index_correct(self@, token@);
                }
                id
            },
            None => {
                let id = self.tokens.len();
                proof {
                    lemma_lex_index_append(self@, token@);
                }
                self.tokens.push(token.clone());
                proof {
                    assert(self@ =~= old(self)@.push(token@));
                }
                id
            },
        }
    }
}

} // verus!
