//! The index builder: the in-memory lexicon, the buffered postings lists
//! with their bounded-memory spill discipline, and the article-length
//! table.
//!
//! The builder performs no I/O itself: spilling hands the caller batches of
//! entries to append to the postings files, and the two binary maps are
//! produced as byte vectors.  The builder's whole state is pinned, by its
//! well-formedness predicate, to a pure function of the ingestion history.

use vstd::prelude::*;
use crate::analyzer::{tokenize, tokens_of};
use crate::common::{Article, MAX_POSTINGS_LIST_SIZE};
use crate::lexicon::{distinct_tokens, lex_contains, lex_index, Lexicon};
use crate::postings::{render_postings, render_postings_spec};

verus! {

/// How many of the stream's entries are `x`.
pub open spec fn count_in(s: Seq<usize>, x: usize) -> nat
    decreases s.len(),
{
    if s.len() == 0 {
        0
    } else {
        count_in(s.drop_last(), x) + if s.last() == x {
            1nat
        } else {
            0nat
        }
    }
}

/// The distinct entries of the stream, in first-occurrence order.
pub open spec fn firsts(s: Seq<usize>) -> Seq<usize>
    decreases s.len(),
{
    if s.len() == 0 {
        seq![]
    } else {
        let rest = firsts(s.drop_last());
        if rest.contains(s.last()) {
            rest
        } else {
            rest.push(s.last())
        }
    }
}

/// How many tokens of the stream are `w`.
pub open spec fn count_tok(toks: Seq<Seq<char>>, w: Seq<char>) -> nat
    decreases toks.len(),
{
    if toks.len() == 0 {
        0
    } else {
        count_tok(toks.drop_last(), w) + if toks.last() == w {
            1nat
        } else {
            0nat
        }
    }
}

/// The lexicon after one more token: unchanged when the token is known,
/// extended by it when it is new.
pub open spec fn grow1(lex: Seq<Seq<char>>, tok: Seq<char>) -> Seq<Seq<char>> {
    if lex_contains(lex, tok) {
        lex
    } else {
        lex.push(tok)
    }
}

/// The lexicon after a stream of tokens, allocated in first-seen order.
pub open spec fn grow_lex(lex: Seq<Seq<char>>, toks: Seq<Seq<char>>) -> Seq<Seq<char>>
    decreases toks.len(),
{
    if toks.len() == 0 {
        lex
    } else {
        grow_lex(grow1(lex, toks[0]), toks.drop_first())
    }
}

/// The lexicon after ingesting a history of `(article id, text)` pairs, in
/// order.
pub open spec fn lex_of_history(h: Seq<(usize, Seq<char>)>) -> Seq<Seq<char>>
    decreases h.len(),
{
    if h.len() == 0 {
        seq![]
    } else {
        grow_lex(lex_of_history(h.drop_last()), tokens_of(h.last().1))
    }
}

/// The complete postings list of token `w` over a history: one
/// `(article id, term frequency)` entry per ingested article that contains
/// `w`, in ingestion order.
pub open spec fn postings_for(h: Seq<(usize, Seq<char>)>, w: Seq<char>) -> Seq<(usize, usize)>
    decreases h.len(),
{
    if h.len() == 0 {
        seq![]
    } else {
        let rest = postings_for(h.drop_last(), w);
        let c = count_tok(tokens_of(h.last().1), w);
        if c > 0 {
            rest.push((h.last().0, c as usize))
        } else {
            rest
        }
    }
}

/// The article-length table after recording `(aid, l)`: the first entry
/// under the same key is overwritten, a new key is appended.
pub open spec fn set_len(m: Seq<(usize, usize)>, aid: usize, l: usize) -> Seq<(usize, usize)>
    decreases m.len(),
{
    if m.len() == 0 {
        seq![(aid, l)]
    } else if m[0].0 == aid {
        seq![(aid, l)] + m.drop_first()
    } else {
        seq![m[0]] + set_len(m.drop_first(), aid, l)
    }
}

/// The article-length table over a history: each article's token count,
/// keyed by article id.
pub open spec fn lengths_of(h: Seq<(usize, Seq<char>)>) -> Seq<(usize, usize)>
    decreases h.len(),
{
    if h.len() == 0 {
        seq![]
    } else {
        set_len(
            lengths_of(h.drop_last()),
            h.last().0,
            tokens_of(h.last().1).len() as usize,
        )
    }
}

/// One spill: the buffered postings of one term, to be appended to that
/// term's on-disk postings file.
pub struct SpillBatch {
    pub token_id: usize,
    pub entries: Vec<(usize, usize)>,
}

impl SpillBatch {
    /// The file bytes of this batch, one entry per line.
    pub fn lines(&self) -> (out: Vec<u8>)
        ensures
            out@ == render_postings_spec(self.entries@),
    {
        render_postings(&self.entries)
    }
}

/// The entries that a run of batches appends to token `t`'s file.
pub open spec fn batch_entries(bs: Seq<SpillBatch>, t: usize) -> Seq<(usize, usize)>
    decreases bs.len(),
{
    if bs.len() == 0 {
        seq![]
    } else {
        batch_entries(bs.drop_last(), t) + if bs.last().token_id == t {
            bs.last().entries@
        } else {
            seq![]
        }
    }
}

/// The index builder's state.
pub struct IndexBuilder {
    index_path: String,
    lexicon: Lexicon,
    inv_index: Vec<Vec<(usize, usize)>>,
    article_lengths: Vec<(usize, usize)>,
    spilled: Ghost<Seq<Seq<(usize, usize)>>>,
    history: Ghost<Seq<(usize, Seq<char>)>>,
}

impl IndexBuilder {
    /// The ingestion history this builder has seen: each article's id and
    /// body text, in ingestion order.
    pub closed spec fn history(&self) -> Seq<(usize, Seq<char>)> {
        self.history@
    }

    /// The lexicon as allocated so far.
    pub closed spec fn lex(&self) -> Seq<Seq<char>> {
        self.lexicon@
    }

    /// The in-memory postings buffer of each term.
    pub closed spec fn buffers(&self) -> Seq<Seq<(usize, usize)>> {
        Seq::new(self.inv_index@.len(), |t: int| self.inv_index@[t]@)
    }

    /// The entries already handed out for spilling, per term, in order.
    pub closed spec fn spilled(&self) -> Seq<Seq<(usize, usize)>> {
        self.spilled@
    }

    /// The article-length table.
    pub closed spec fn lengths(&self) -> Seq<(usize, usize)> {
        self.article_lengths@
    }

    /// The root directory of the index being built.
    pub closed spec fn path(&self) -> Seq<char> {
        self.index_path@
    }

    /// Well-formedness: the whole state is the one determined by the
    /// ingestion history, and every buffer is strictly below the spill
    /// bound.
    pub open spec fn wf(&self) -> bool {
        &&& self.lex() == lex_of_history(self.history())
        &&& distinct_tokens(self.lex())
        &&& self.buffers().len() == self.lex().len()
        &&& self.spilled().len() == self.lex().len()
        &&& forall|t: int|
            0 <= t < self.lex().len() ==> #[trigger] self.spilled()[t] + self.buffers()[t]
                == postings_for(self.history(), self.lex()[t])
        &&& forall|t: int|
            0 <= t < self.lex().len() ==> #[trigger] self.buffers()[t].len()
                < MAX_POSTINGS_LIST_SIZE
        &&& self.lengths() == lengths_of(self.history())
    }

    /// A fresh builder for the given index root.
    pub fn new(index_path: &String) -> (b: IndexBuilder)
        ensures
            b.wf(),
            b.history() == Seq::<(usize, Seq<char>)>::empty(),
            b.path() == index_path@,
    {
        let b = IndexBuilder {
            index_path: index_path.clone(),
            lexicon: Lexicon::new(),
            inv_index: Vec::new(),
            article_lengths: Vec::new(),
            spilled: Ghost(Seq::empty()),
            history: Ghost(Seq::empty()),
        };
        proof {
            assert(b.buffers() =~= Seq::<Seq<(usize, usize)>>::empty());
            assert(b.lex() =~= Seq::<Seq<char>>::empty());
        }
        b
    }

    /// The term's id, allocating the next id (and an empty postings
    /// buffer) when the term is new.  Ids are dense and first-seen ordered.
    pub fn get_token_id(&mut self, token: &String) -> (id: usize)
        requires
            old(self).buffers().len() == old(self).lex().len(),
            old(self).spilled().len() == old(self).lex().len(),
        ensures
            final(self).lex() == grow1(old(self).lex(), token@),
            final(self).buffers().len() == final(self).lex().len(),
            final(self).spilled().len() == final(self).lex().len(),
            id == lex_index(final(self).lex(), token@),
            id < final(self).lex().len(),
            final(self).lex()[id as int] == token@,
            forall|t: int|
                0 <= t < old(self).lex().len() ==> #[trigger] final(self).buffers()[t] == old(self).buffers()[t] && final(self).spilled()[t] == old(self).spilled()[t],
            forall|t: int|
                old(self).lex().len() <= t < final(self).lex().len() ==> #[trigger] final(self).buffers()[t] == Seq::<(usize, usize)>::empty() && final(self).spilled()[t]
                    == Seq::<(usize, usize)>::empty(),
            final(self).lengths() == old(self).lengths(),
            final(self).history() == old(self).history(),
            final(self).path() == old(self).path(),
    {
        let id = self.lexicon.get_or_insert(token);
        if self.inv_index.len() <= id {
            self.inv_index.push(Vec::new());
            proof {
                self.spilled@ = self.spilled@.push(Seq::empty());
            }
        }
        proof {
            assert(final(self).buffers().len() == final(self).lex().len());
            assert forall|t: int| 0 <= t < old(self).lex().len() implies #[trigger] final(self).buffers()[t] == old(self).buffers()[t] && final(self).spilled()[t] == old(self).spilled()[t] by {
                assert(final(self).inv_index@[t] == old(self).inv_index@[t]);
            }
        }
        id
    }

    /// The id of each token of the stream, in order, allocating new ids as
    /// first occurrences appear.
    pub fn get_token_ids(&mut self, tokens: &Vec<String>) -> (ids: Vec<usize>)
        requires
            old(self).buffers().len() == old(self).lex().len(),
            old(self).spilled().len() == old(self).lex().len(),
        ensures
            final(self).lex() == grow_lex(old(self).lex(), tokens.deep_view()),
            final(self).buffers().len() == final(self).lex().len(),
            final(self).spilled().len() == final(self).lex().len(),
            ids@.len() == tokens@.len(),
            forall|k: int|
                0 <= k < ids@.len() ==> #[trigger] ids@[k] < final(self).lex().len() && final(self).lex()[ids@[k] as int] == tokens.deep_view()[k],
            forall|t: int|
                0 <= t < old(self).lex().len() ==> #[trigger] final(self).buffers()[t] == old(self).buffers()[t] && final(self).spilled()[t] == old(self).spilled()[t],
            forall|t: int|
                old(self).lex().len() <= t < final(self).lex().len() ==> #[trigger] final(self).buffers()[t] == Seq::<(usize, usize)>::empty() && final(self).spilled()[t]
                    == Seq::<(usize, usize)>::empty(),
            final(self).lengths() == old(self).lengths(),
            final(self).history() == old(self).history(),
            final(self).path() == old(self).path(),
    {
        let ghost lex0 = self.lex();
        let ghost tsv = tokens.deep_view();
        let n = tokens.len();
        let mut ids: Vec<usize> = Vec::new();
        let mut k: usize = 0;
        proof {
            assert(tsv.len() == n);
            assert(tsv.take(0) =~= Seq::<Seq<char>>::empty());
        }
        while k < n
            invariant
                k <= n,
                n == tokens@.len(),
                tsv == tokens.deep_view(),
                tsv.len() == n,
                self.lex() == grow_lex(lex0, tsv.take(k as int)),
                self.buffers().len() == self.lex().len(),
                self.spilled().len() == self.lex().len(),
                lex0.len() <= self.lex().len(),
                ids@.len() == k,
                forall|j: int|
                    0 <= j < k ==> #[trigger] ids@[j] < self.lex().len() && self.lex()[ids@[j] as int]
                        == tsv[j],
                forall|t: int|
                    0 <= t < lex0.len() ==> #[trigger] self.buffers()[t] == old(self).buffers()[t]
                        && self.spilled()[t] == old(self).spilled()[t],
                forall|t: int|
                    lex0.len() <= t < self.lex().len() ==> #[trigger] self.buffers()[t] == Seq::<
                        (usize, usize),
                    >::empty() && self.spilled()[t] == Seq::<(usize, usize)>::empty(),
                self.lengths() == old(self).lengths(),
                self.history() == old(self).history(),
                self.path() == old(self).path(),
            decreases n - k,
        {
            let ghost lex_before = self.lex();
            let id = self.get_token_id(&tokens[k]);
            proof {
                assert(tokens@[k as int]@ == tsv[k as int]);
                assert(tsv.take(k + 1).drop_last() =~= tsv.take(k as int));
                assert(tsv.take(k + 1).last() == tsv[k as int]);
                lemma_grow_lex_snoc(lex0, tsv.take(k + 1));
            }
            ids.push(id);
            k = k + 1;
        }
        proof {
            assert(tsv.take(n as int) =~= tsv);
        }
        ids
    }

    /// The number of occurrences of each distinct id of the stream, keyed
    /// by id in first-occurrence order.
    pub fn count_words(&self, token_ids: &Vec<usize>) -> (wc: Vec<(usize, usize)>)
        ensures
            wc@.len() == firsts(token_ids@).len(),
            forall|k: int| 0 <= k < wc@.len() ==> #[trigger] wc@[k].0 == firsts(token_ids@)[k],
            forall|k: int|
                0 <= k < wc@.len() ==> #[trigger] wc@[k].1 == count_in(token_ids@, wc@[k].0),
            forall|k: int, l: int| 0 <= k < l < wc@.len() ==> wc@[k].0 != wc@[l].0,
    {
        let ids = token_ids;
        let n = ids.len();
        let mut wc: Vec<(usize, usize)> = Vec::new();
        let mut i: usize = 0;
        proof {
            assert(ids@.take(0) =~= Seq::<usize>::empty());
        }
        while i < n
            invariant
                i <= n,
                n == ids@.len(),
                wc@.len() == firsts(ids@.take(i as int)).len(),
                forall|k: int|
                    0 <= k < wc@.len() ==> #[trigger] wc@[k].0 == firsts(ids@.take(i as int))[k],
                forall|k: int|
                    0 <= k < wc@.len() ==> #[trigger] wc@[k].1 == count_in(ids@, wc@[k].0),
            decreases n - i,
        {
            proof {
                assert(ids@.take(i + 1).drop_last() =~= ids@.take(i as int));
                assert(ids@.take(i + 1).last() == ids@[i as int]);
            }
            let tid = ids[i];
            let m = wc.len();
            let mut found = false;
            let mut k: usize = 0;
            while k < m
                invariant
                    k <= m,
                    m == wc@.len(),
                    i < n == ids@.len(),
                    tid == ids@[i as int],
                    found <==> exists|j: int| 0 <= j < k && #[trigger] wc@[j].0 == tid,
                decreases m - k,
            {
                if wc[k].0 == tid {
                    found = true;
                }
                k = k + 1;
            }
            if !found {
                // first occurrence of this id: count it across the stream
                let mut count: usize = 0;
                let mut j: usize = 0;
                proof {
                    assert(ids@.take(0) =~= Seq::<usize>::empty());
                }
                while j < n
                    invariant
                        j <= n,
                        n == ids@.len(),
                        tid == ids@[i as int],
                        i < n,
                        count == count_in(ids@.take(j as int), tid),
                        count <= j,
                    decreases n - j,
                {
                    proof {
                        assert(ids@.take(j + 1).drop_last() =~= ids@.take(j as int));
                        assert(ids@.take(j + 1).last() == ids@[j as int]);
                    }
                    if ids[j] == tid {
                        count = count + 1;
                    }
                    j = j + 1;
                }
                proof {
                    assert(ids@.take(n as int) =~= ids@);
                    assert(!firsts(ids@.take(i as int)).contains(tid)) by {
                        if firsts(ids@.take(i as int)).contains(tid) {
                            let q = choose|q: int|
                                0 <= q < firsts(ids@.take(i as int)).len() && firsts(
                                    ids@.take(i as int),
                                )[q] == tid;
                            assert(wc@[q].0 == tid);
                        }
                    }
                }
                let ghost old_wc = wc@;
                wc.push((tid, count));
                proof {
                    assert(firsts(ids@.take(i + 1)) =~= firsts(ids@.take(i as int)).push(tid));
                    assert forall|k2: int| 0 <= k2 < wc@.len() implies #[trigger] wc@[k2].0
                        == firsts(ids@.take(i + 1))[k2] by {
                        if k2 < wc@.len() - 1 {
                            assert(wc@[k2] == old_wc[k2]);
                        }
                    }
                }
            } else {
                proof {
                    let q = choose|j: int| 0 <= j < m && #[trigger] wc@[j].0 == tid;
                    assert(firsts(ids@.take(i as int))[q] == tid);
                    assert(firsts(ids@.take(i as int)).contains(tid));
                    assert(firsts(ids@.take(i + 1)) =~= firsts(ids@.take(i as int)));
                }
            }
            i = i + 1;
        }
        proof {
            assert(ids@.take(n as int) =~= ids@);
            lemma_firsts_distinct(ids@);
            assert forall|k: int, l: int| 0 <= k < l < wc@.len() implies wc@[k].0 != wc@[l].0 by {
                assert(wc@[k].0 == firsts(ids@)[k]);
                assert(wc@[l].0 == firsts(ids@)[l]);
            }
        }
        wc
    }
}

impl IndexBuilder {
    /// Appends this article's `(id, count)` entry to each counted term's
    /// postings buffer; a buffer that reaches the spill bound is handed
    /// back as a batch and cleared.
    pub fn update_inv_index(&mut self, article_id: usize, word_counts: &Vec<(usize, usize)>) -> (batches: Vec<SpillBatch>)
        requires
            forall|k: int|
                0 <= k < word_counts@.len() ==> (#[trigger] word_counts@[k].0) < old(self).buffers().len(),
            forall|k: int, l: int|
                0 <= k < l < word_counts@.len() ==> word_counts@[k].0 != word_counts@[l].0,
            old(self).spilled().len() == old(self).buffers().len(),
            forall|t: int|
                0 <= t < old(self).buffers().len() ==> (#[trigger] old(self).buffers()[t]).len()
                    < MAX_POSTINGS_LIST_SIZE,
        ensures
            final(self).buffers().len() == old(self).buffers().len(),
            final(self).spilled().len() == old(self).spilled().len(),
            final(self).lex() == old(self).lex(),
            final(self).lengths() == old(self).lengths(),
            final(self).history() == old(self).history(),
            final(self).path() == old(self).path(),
            forall|k: int|
                0 <= k < word_counts@.len() ==> {
                    let t = (#[trigger] word_counts@[k].0) as int;
                    let appended = old(self).buffers()[t].push((article_id, word_counts@[k].1));
                    if appended.len() >= MAX_POSTINGS_LIST_SIZE {
                        final(self).spilled()[t] == old(self).spilled()[t] + appended && final(self).buffers()[t] == Seq::<(usize, usize)>::empty()
                    } else {
                        final(self).spilled()[t] == old(self).spilled()[t] && final(self).buffers()[t] == appended
                    }
                },
            forall|t: int|
                #![trigger final(self).buffers()[t]]
                0 <= t < old(self).buffers().len() && (forall|k: int|
                    0 <= k < word_counts@.len() ==> (#[trigger] word_counts@[k].0) as int != t)
                    ==> final(self).buffers()[t] == old(self).buffers()[t] && final(self).spilled()[t] == old(self).spilled()[t],
            forall|t: int|
                0 <= t < old(self).buffers().len() ==> (#[trigger] final(self).buffers()[t]).len()
                    < MAX_POSTINGS_LIST_SIZE,
            forall|t: usize|
                t < old(self).buffers().len() ==> #[trigger] final(self).spilled()[t as int]
                    == old(self).spilled()[t as int] + batch_entries(batches@, t),
            forall|b: int|
                0 <= b < batches@.len() ==> (#[trigger] batches@[b].token_id) < old(self).buffers().len(),
    {
        let ghost l = old(self).buffers().len() as int;
        let n = word_counts.len();
        let mut batches: Vec<SpillBatch> = Vec::new();
        let mut k: usize = 0;
        proof {
            assert forall|t: usize| t < l implies #[trigger] self.spilled()[t as int] == old(self).spilled()[t as int] + batch_entries(batches@, t) by {
                assert(batch_entries(batches@, t) =~= Seq::<(usize, usize)>::empty());
                assert(old(self).spilled()[t as int] + batch_entries(batches@, t) =~= old(self).spilled()[t as int]);
            }
        }
        while k < n
            invariant
                k <= n,
                n == word_counts@.len(),
                l == old(self).buffers().len(),
                forall|k2: int|
                    0 <= k2 < n ==> (#[trigger] word_counts@[k2].0) < old(self).buffers().len(),
                forall|k2: int, l2: int|
                    0 <= k2 < l2 < n ==> word_counts@[k2].0 != word_counts@[l2].0,
                self.buffers().len() == l,
                self.spilled().len() == l,
                self.lex() == old(self).lex(),
                self.lengths() == old(self).lengths(),
                self.history() == old(self).history(),
                self.path() == old(self).path(),
                forall|k2: int|
                    0 <= k2 < k ==> {
                        let t = (#[trigger] word_counts@[k2].0) as int;
                        let appended = old(self).buffers()[t].push(
                            (article_id, word_counts@[k2].1),
                        );
                        if appended.len() >= MAX_POSTINGS_LIST_SIZE {
                            self.spilled()[t] == old(self).spilled()[t] + appended
                                && self.buffers()[t] == Seq::<(usize, usize)>::empty()
                        } else {
                            self.spilled()[t] == old(self).spilled()[t] && self.buffers()[t]
                                == appended
                        }
                    },
                forall|k2: int|
                    k <= k2 < n ==> {
                        let t = (#[trigger] word_counts@[k2].0) as int;
                        self.buffers()[t] == old(self).buffers()[t] && self.spilled()[t] == old(self).spilled()[t]
                    },
                forall|t: int|
                    #![trigger self.buffers()[t]]
                    0 <= t < l && (forall|k2: int|
                        0 <= k2 < n ==> (#[trigger] word_counts@[k2].0) as int != t)
                        ==> self.buffers()[t] == old(self).buffers()[t] && self.spilled()[t] == old(self).spilled()[t],
                forall|t: int|
                    0 <= t < l ==> (#[trigger] self.buffers()[t]).len() < MAX_POSTINGS_LIST_SIZE,
                forall|t: usize|
                    t < l ==> #[trigger] self.spilled()[t as int] == old(self).spilled()[t as int]
                        + batch_entries(batches@, t),
                forall|b: int|
                    0 <= b < batches@.len() ==> (#[trigger] batches@[b].token_id) < old(self).buffers().len(),
            decreases n - k,
        {
            let (tid, c) = word_counts[k];
            let ghost pre = *self;
            let ghost pre_batches = batches@;
            self.inv_index[tid].push((article_id, c));
            proof {
                assert(self.buffers() =~= pre.buffers().update(
                    tid as int,
                    pre.buffers()[tid as int].push((article_id, c)),
                ));
            }
            if self.inv_index[tid].len() >= MAX_POSTINGS_LIST_SIZE {
                let mut drained: Vec<(usize, usize)> = Vec::new();
                self.inv_index.set_and_swap(tid, &mut drained);
                proof {
                    assert(drained@ == pre.buffers()[tid as int].push((article_id, c)));
                    self.spilled@ = self.spilled@.update(
                        tid as int,
                        self.spilled@[tid as int] + drained@,
                    );
                    assert(self.buffers() =~= pre.buffers().update(
                        tid as int,
                        Seq::<(usize, usize)>::empty(),
                    ));
                }
                batches.push(SpillBatch { token_id: tid, entries: drained });
                proof {
                    assert forall|t: usize| t < l implies #[trigger] self.spilled()[t as int]
                        == old(self).spilled()[t as int] + batch_entries(batches@, t) by {
                        assert(batches@.drop_last() =~= pre_batches);
                        assert(batches@.last().token_id == tid);
                        if t == tid {
                            assert(batch_entries(batches@, t) == batch_entries(pre_batches, t)
                                + batches@.last().entries@);
                            assert(old(self).spilled()[t as int] + (batch_entries(pre_batches, t)
                                + batches@.last().entries@) =~= (old(self).spilled()[t as int]
                                + batch_entries(pre_batches, t)) + batches@.last().entries@);
                        } else {
                            assert(batch_entries(batches@, t) =~= batch_entries(pre_batches, t)
                                + Seq::<(usize, usize)>::empty());
                            assert(batch_entries(batches@, t) =~= batch_entries(pre_batches, t));
                        }
                    }
                }
            } else {
                proof {
                    assert forall|t: usize| t < l implies #[trigger] self.spilled()[t as int]
                        == old(self).spilled()[t as int] + batch_entries(batches@, t) by {
                    }
                }
            }
            k = k + 1;
        }
        batches
    }
}

/// The spilled entries of term `t`, empty when no buffer exists yet.
pub open spec fn spilled_at(sp: Seq<Seq<(usize, usize)>>, t: usize) -> Seq<(usize, usize)> {
    if t < sp.len() {
        sp[t as int]
    } else {
        seq![]
    }
}

impl IndexBuilder {
    /// Records one article's token count, overwriting any entry under the
    /// same article id.
    fn insert_length(&mut self, article_id: usize, length: usize)
        ensures
            final(self).lengths() == set_len(old(self).lengths(), article_id, length),
            final(self).lex() == old(self).lex(),
            final(self).buffers() == old(self).buffers(),
            final(self).spilled() == old(self).spilled(),
            final(self).history() == old(self).history(),
            final(self).path() == old(self).path(),
    {
        let n = self.article_lengths.len();
        let mut i: usize = 0;
        while i < n
            invariant
                i <= n,
                n == self.article_lengths@.len(),
                *self == *old(self),
                forall|j: int| 0 <= j < i ==> (#[trigger] self.article_lengths@[j]).0 != article_id,
            decreases n - i,
        {
            if self.article_lengths[i].0 == article_id {
                self.article_lengths.set(i, (article_id, length));
                proof {
                    lemma_set_len_found(
                        old(self).lengths(),
                        article_id,
                        length,
                        i as int,
                    );
                }
                return ;
            }
            i = i + 1;
        }
        self.article_lengths.push((article_id, length));
        proof {
            lemma_set_len_missing(old(self).lengths(), article_id, length);
        }
    }

    /// Ingests one article: analyzes its body, allocates token ids,
    /// appends this article's entry to each of its terms' postings
    /// buffers (spilling any buffer that reaches the bound), and records
    /// the article's token count.  The returned batches must be appended
    /// to their terms' postings files.
    pub fn build_index(&mut self, article: &Article) -> (batches: Vec<SpillBatch>)
        requires
            old(self).wf(),
        ensures
            final(self).wf(),
            final(self).history() == old(self).history().push((article.id, article.text@)),
            final(self).path() == old(self).path(),
            final(self).lex() == grow_lex(old(self).lex(), tokens_of(article.text@)),
            old(self).lex().len() <= final(self).lex().len(),
            forall|t: usize|
                t < final(self).lex().len() ==> #[trigger] final(self).spilled()[t as int]
                    == spilled_at(old(self).spilled(), t) + batch_entries(batches@, t),
            forall|b: int|
                0 <= b < batches@.len() ==> (#[trigger] batches@[b].token_id) < final(self).lex().len(),
    {
        let ghost h0 = old(self).history();
        let ghost lex0 = old(self).lex();
        let tokens = tokenize(&article.text);
        let ghost toks = tokens_of(article.text@);
        proof {
            assert(tokens.deep_view().len() == toks.len());
            assert forall|i: int| 0 <= i < toks.len() implies #[trigger] tokens.deep_view()[i]
                == toks[i] by {
                assert(tokens.deep_view()[i] == tokens@[i]@);
                assert(tokens@[i]@ == tokens_of(article.text@)[i]);
            }
            assert(tokens.deep_view() =~= toks);
        }
        let token_ids = self.get_token_ids(&tokens);
        let ghost m = *self;
        let ghost ids = token_ids@;
        let ghost lex_f = self.lex();
        let lex_len = self.lexicon.len();
        proof {
            assert(lex_len == lex_f.len());
            lemma_grow_lex_prefix(lex0, toks);
            lemma_grow_lex_distinct(lex0, toks);
        }
        let word_counts = self.count_words(&token_ids);
        let ghost wc = word_counts@;
        proof {
            assert forall|k: int| 0 <= k < wc.len() implies (#[trigger] wc[k].0)
                < m.buffers().len() by {
                assert(wc[k].0 == firsts(ids)[k]);
                assert(firsts(ids).contains(firsts(ids)[k]));
                lemma_firsts_contains(ids, wc[k].0);
                lemma_count_in_pos(ids, wc[k].0);
                let j = choose|j: int| 0 <= j < ids.len() && ids[j] == wc[k].0;
                assert(ids[j] < lex_f.len());
            }
            assert forall|t: int| 0 <= t < m.buffers().len() implies (#[trigger] m.buffers()[
                t
            ]).len() < MAX_POSTINGS_LIST_SIZE by {
                if t < lex0.len() {
                    assert(m.buffers()[t] == old(self).buffers()[t]);
                } else {
                    assert(m.buffers()[t] == Seq::<(usize, usize)>::empty());
                }
            }
        }
        let batches = self.update_inv_index(article.id, &word_counts);
        let length = tokens.len();
        self.insert_length(article.id, length);
        proof {
            self.history@ = self.history@.push((article.id, article.text@));
            let h_f = self.history();
            assert(h_f == h0.push((article.id, article.text@)));
            assert(h_f.drop_last() =~= h0);
            assert(h_f.last() == (article.id, article.text@));
            assert(lex_of_history(h_f) == grow_lex(lex_of_history(h0), tokens_of(h_f.last().1)));
            assert(self.lex() == lex_f);
            assert(lex_of_history(h_f) == lex_f);

            // the article-length table
            assert(lengths_of(h_f) == set_len(
                lengths_of(h0),
                article.id,
                tokens_of(h_f.last().1).len() as usize,
            ));
            assert(toks.len() == tokens@.len());
            assert(length == toks.len() as usize);
            assert(self.lengths() == lengths_of(h_f));

            // ids and tokens correspond position by position
            assert forall|t: int| 0 <= t < lex_f.len() implies #[trigger] self.spilled()[t]
                + self.buffers()[t] == postings_for(h_f, lex_f[t]) by {
                let w = lex_f[t];
                let c = count_tok(toks, w);
                assert(t <= usize::MAX) by {
                    assert(lex_f.len() == lex_len);
                }
                let tu = t as usize;
                assert(tu as int == t);

                // baseline at the mid state
                assert(m.spilled()[t] + m.buffers()[t] == postings_for(h0, w)) by {
                    if t < lex0.len() {
                        assert(lex_f[t] == lex0[t]);
                        assert(m.buffers()[t] == old(self).buffers()[t]);
                        assert(m.spilled()[t] == old(self).spilled()[t]);
                    } else {
                        assert(m.buffers()[t] == Seq::<(usize, usize)>::empty());
                        assert(m.spilled()[t] == Seq::<(usize, usize)>::empty());
                        assert(!lex_contains(lex0, w)) by {
                            if lex_contains(lex0, w) {
                                let i = choose|i: int| 0 <= i < lex0.len() && lex0[i] == w;
                                assert(lex_f[i] == lex0[i]);
                                assert(lex_f[i] == lex_f[t]);
                                assert(false);
                            }
                        }
                        lemma_no_postings(h0, w);
                        assert(m.spilled()[t] + m.buffers()[t] =~= Seq::<(usize, usize)>::empty());
                    }
                }

                assert forall|j: int| 0 <= j < ids.len() implies ((#[trigger] ids[j] == tu)
                    <==> toks[j] == w) by {
                    assert(ids[j] < lex_f.len());
                    assert(lex_f[ids[j] as int] == tokens.deep_view()[j]);
                    if ids[j] == tu {
                        assert(toks[j] == lex_f[t]);
                    }
                    if toks[j] == w {
                        assert(lex_f[ids[j] as int] == lex_f[t]);
                        if ids[j] as int != t {
                            assert(false);
                        }
                    }
                }
                assert(ids.len() == toks.len());
                lemma_count_in_eq(ids, toks, tu, w);
                assert(count_in(ids, tu) == c);

                if exists|k: int| 0 <= k < wc.len() && (#[trigger] wc[k].0) == tu {
                    let k = choose|k: int| 0 <= k < wc.len() && (#[trigger] wc[k].0) == tu;
                    let cw = wc[k].1;
                    assert(cw == count_in(ids, tu));
                    assert(firsts(ids)[k] == tu);
                    assert(firsts(ids).contains(tu));
                    lemma_firsts_contains(ids, tu);
                    assert(c > 0);
                    assert(cw == c as usize);
                    assert(postings_for(h_f, w) == postings_for(h0, w).push((article.id, cw)));
                    let appended = m.buffers()[t].push((article.id, cw));
                    if appended.len() >= MAX_POSTINGS_LIST_SIZE {
                        assert(self.spilled()[t] == m.spilled()[t] + appended);
                        assert(self.buffers()[t] == Seq::<(usize, usize)>::empty());
                        assert(m.spilled()[t] + appended + Seq::<(usize, usize)>::empty() =~= (
                        m.spilled()[t] + m.buffers()[t]).push((article.id, cw)));
                        assert(self.spilled()[t] + self.buffers()[t] =~= m.spilled()[t] + appended
                            + Seq::<(usize, usize)>::empty());
                    } else {
                        assert(self.spilled()[t] == m.spilled()[t]);
                        assert(self.buffers()[t] == appended);
                        assert(m.spilled()[t] + appended =~= (m.spilled()[t]
                            + m.buffers()[t]).push((article.id, cw)));
                    }
                } else {
                    assert(c == 0) by {
                        if c > 0 {
                            lemma_firsts_contains(ids, tu);
                            let q = choose|q: int|
                                0 <= q < firsts(ids).len() && firsts(ids)[q] == tu;
                            assert(wc[q].0 == tu);
                            assert(false);
                        }
                    }
                    assert(postings_for(h_f, w) == postings_for(h0, w));
                    assert forall|k: int| 0 <= k < wc.len() implies (#[trigger] wc[k].0) as int
                        != t by {
                        if wc[k].0 as int == t {
                            assert(wc[k].0 == tu);
                            assert(false);
                        }
                    }
                    assert(self.buffers()[t] == m.buffers()[t]);
                    assert(self.spilled()[t] == m.spilled()[t]);
                }
            }

            // spill accounting against the state before this call
            assert forall|t: usize| t < lex_f.len() implies #[trigger] self.spilled()[t as int]
                == spilled_at(old(self).spilled(), t) + batch_entries(batches@, t) by {
                assert(self.spilled()[t as int] == m.spilled()[t as int] + batch_entries(
                    batches@,
                    t,
                ));
                if t < lex0.len() {
                    assert(m.spilled()[t as int] == old(self).spilled()[t as int]);
                    assert(spilled_at(old(self).spilled(), t) == old(self).spilled()[t as int]);
                } else {
                    assert(m.spilled()[t as int] == Seq::<(usize, usize)>::empty());
                    assert(spilled_at(old(self).spilled(), t) =~= Seq::<(usize, usize)>::empty());
                }
            }
        }
        batches
    }
}

impl IndexBuilder {
    /// The bytes of `lexicon.bin`: the frozen token-id/token bijection.
    pub fn lexicon_bytes(&self) -> (out: Vec<u8>)
        ensures
            out@ == crate::codec::encode_lexicon_spec(self.lex()),
    {
        self.lexicon.to_bytes()
    }

    /// The bytes of `article_lengths.bin`: the article-length table.
    pub fn article_lengths_bytes(&self) -> (out: Vec<u8>)
        ensures
            out@ == crate::codec::encode_len_map_spec(self.lengths()),
    {
        crate::codec::encode_len_map(&self.article_lengths)
    }

    /// Flushes every non-empty postings buffer, in ascending token-id
    /// order.  Afterwards every buffer is empty and, for each term, the
    /// entries handed out over the whole build are exactly its complete
    /// postings list.  The returned batches must be appended to their
    /// terms' postings files.
    #[verifier::loop_isolation(false)]
    #[verifier::rlimit(60)]
    pub fn update_all_inv_index_files(&mut self) -> (batches: Vec<SpillBatch>)
        requires
            old(self).wf(),
        ensures
            final(self).wf(),
            final(self).history() == old(self).history(),
            final(self).lex() == old(self).lex(),
            final(self).lengths() == old(self).lengths(),
            final(self).path() == old(self).path(),
            forall|t: int|
                0 <= t < final(self).lex().len() ==> (#[trigger] final(self).buffers()[t]).len()
                    == 0,
            forall|t: int|
                0 <= t < final(self).lex().len() ==> #[trigger] final(self).spilled()[t]
                    == postings_for(final(self).history(), final(self).lex()[t]),
            forall|t: usize|
                t < final(self).lex().len() ==> #[trigger] final(self).spilled()[t as int] == old(self).spilled()[t as int] + batch_entries(batches@, t),
            forall|b: int|
                0 <= b < batches@.len() ==> (#[trigger] batches@[b].token_id) < final(self).lex().len(),
    {
        let ghost l = old(self).buffers().len() as int;
        let n = self.inv_index.len();
        let mut batches: Vec<SpillBatch> = Vec::new();
        let mut t: usize = 0;
        proof {
            assert forall|tu: usize| tu < l implies #[trigger] self.spilled()[tu as int] == old(self).spilled()[tu as int] + batch_entries(batches@, tu) by {
                assert(batch_entries(batches@, tu) =~= Seq::<(usize, usize)>::empty());
                assert(old(self).spilled()[tu as int] + batch_entries(batches@, tu) =~= old(self).spilled()[tu as int]);
            }
        }
        while t < n
            invariant
                t <= n,
                n == l,
                l == old(self).buffers().len(),
                old(self).spilled().len() == l,
                self.buffers().len() == l,
                self.spilled().len() == l,
                self.lex() == old(self).lex(),
                self.lengths() == old(self).lengths(),
                self.history() == old(self).history(),
                self.path() == old(self).path(),
                forall|u: int| 0 <= u < t ==> (#[trigger] self.buffers()[u]).len() == 0,
                forall|u: int|
                    #![trigger self.spilled()[u]]
                    0 <= u < t ==> self.spilled()[u] == old(self).spilled()[u] + old(
                        self,
                    ).buffers()[u],
                forall|u: int| t <= u < l ==> #[trigger] self.buffers()[u] == old(self).buffers()[u],
                forall|u: int|
                    #![trigger self.spilled()[u]]
                    t <= u < l ==> self.spilled()[u] == old(self).spilled()[u],
                forall|tu: usize|
                    tu < l ==> #[trigger] self.spilled()[tu as int] == old(self).spilled()[tu as int]
                        + batch_entries(batches@, tu),
                forall|b: int|
                    0 <= b < batches@.len() ==> (#[trigger] batches@[b].token_id) < l,
            decreases n - t,
        {
            let ghost pre = *self;
            let ghost pre_batches = batches@;
            if self.inv_index[t].len() > 0 {
                let mut drained: Vec<(usize, usize)> = Vec::new();
                self.inv_index.set_and_swap(t, &mut drained);
                proof {
                    assert(drained@ == pre.buffers()[t as int]);
                    self.spilled@ = self.spilled@.update(
                        t as int,
                        self.spilled@[t as int] + drained@,
                    );
                    assert(self.buffers() =~= pre.buffers().update(
                        t as int,
                        Seq::<(usize, usize)>::empty(),
                    ));
                }
                batches.push(SpillBatch { token_id: t, entries: drained });
                proof {
                    assert forall|tu: usize| tu < l implies #[trigger] self.spilled()[tu as int]
                        == old(self).spilled()[tu as int] + batch_entries(batches@, tu) by {
                        assert(batches@.drop_last() =~= pre_batches);
                        assert(batches@.last().token_id == t);
                        if tu == t {
                            assert(batch_entries(batches@, tu) == batch_entries(pre_batches, tu)
                                + batches@.last().entries@);
                            assert(old(self).spilled()[tu as int] + (batch_entries(
                                pre_batches,
                                tu,
                            ) + batches@.last().entries@) =~= (old(self).spilled()[tu as int]
                                + batch_entries(pre_batches, tu)) + batches@.last().entries@);
                        } else {
                            assert(batch_entries(batches@, tu) =~= batch_entries(pre_batches, tu)
                                + Seq::<(usize, usize)>::empty());
                            assert(batch_entries(batches@, tu) =~= batch_entries(
                                pre_batches,
                                tu,
                            ));
                        }
                    }
                    assert forall|u: int| 0 <= u < t + 1 implies (#[trigger] self.buffers()[
                        u
                    ]).len() == 0 by {
                        if u < t as int {
                            assert(pre.buffers()[u].len() == 0);
                            assert(self.buffers()[u] == pre.buffers()[u]);
                        } else {
                            assert(self.buffers()[u] == Seq::<(usize, usize)>::empty());
                        }
                    }
                    assert forall|u: int|
                        0 <= u < t + 1 implies #[trigger] self.spilled()[u] == old(
                        self,
                    ).spilled()[u] + old(self).buffers()[u] by {
                        if u < t as int {
                            assert(pre.spilled()[u] == old(self).spilled()[u] + old(self).buffers()[u]);
                            assert(self.spilled()[u] == pre.spilled()[u]);
                        } else {
                            assert(u == t as int);
                            assert(pre.buffers()[u] == old(self).buffers()[u]);
                            assert(pre.spilled()[u] == old(self).spilled()[u]);
                            assert(self.spilled()[u] == pre.spilled()[u] + pre.buffers()[u]);
                        }
                    }
                    assert forall|u: int| t + 1 <= u < l implies #[trigger] self.buffers()[u]
                        == old(self).buffers()[u] by {
                        assert(pre.buffers()[u] == old(self).buffers()[u]);
                        assert(self.buffers()[u] == pre.buffers()[u]);
                    }
                    assert forall|u: int| t + 1 <= u < l implies #[trigger] self.spilled()[u]
                        == old(self).spilled()[u] by {
                        assert(pre.spilled()[u] == old(self).spilled()[u]);
                        assert(self.spilled()[u] == pre.spilled()[u]);
                    }
                }
            } else {
                proof {
                    assert forall|u: int| 0 <= u < t + 1 implies (#[trigger] self.buffers()[
                        u
                    ]).len() == 0 by {
                        if u == t as int {
                            assert(self.buffers()[u] == old(self).buffers()[u]);
                        }
                    }
                    assert forall|u: int|
                        0 <= u < t + 1 implies #[trigger] self.spilled()[u] == old(
                        self,
                    ).spilled()[u] + old(self).buffers()[u] by {
                        if u == t as int {
                            assert(self.buffers()[u] == old(self).buffers()[u]);
                            assert(self.buffers()[u].len() == 0);
                            assert(self.spilled()[u] == old(self).spilled()[u]);
                            assert(old(self).buffers()[u] =~= Seq::<(usize, usize)>::empty());
                            assert(self.spilled()[u] =~= old(self).spilled()[u] + old(self).buffers()[u]);
                        }
                    }
                    assert forall|u: int| t + 1 <= u < l implies #[trigger] self.buffers()[u]
                        == old(self).buffers()[u] by {
                    }
                    assert forall|u: int| t + 1 <= u < l implies #[trigger] self.spilled()[u]
                        == old(self).spilled()[u] by {
                    }
                }
            }
            t = t + 1;
        }
        proof {
            assert forall|u: int| 0 <= u < l implies #[trigger] self.spilled()[u] == postings_for(
                self.history(),
                self.lex()[u],
            ) by {
                assert(self.buffers()[u].len() == 0);
                assert(self.spilled()[u] == old(self).spilled()[u] + old(self).buffers()[u]);
                assert(old(self).spilled()[u] + old(self).buffers()[u] == postings_for(
                    old(self).history(),
                    old(self).lex()[u],
                ));
            }
        }
        batches
    }
}

/// Batches append independently per term.
pub proof fn lemma_batch_entries_append(a: Seq<SpillBatch>, b: Seq<SpillBatch>, t: usize)
    ensures
        batch_entries(a + b, t) == batch_entries(a, t) + batch_entries(b, t),
    decreases b.len(),
{
    if b.len() == 0 {
        assert(a + b =~= a);
        assert(batch_entries(b, t) =~= Seq::<(usize, usize)>::empty());
        assert(batch_entries(a, t) + batch_entries(b, t) =~= batch_entries(a, t));
    } else {
        lemma_batch_entries_append(a, b.drop_last(), t);
        assert((a + b).drop_last() =~= a + b.drop_last());
        assert((a + b).last() == b.last());
        assert(batch_entries(a + b, t) == batch_entries(a + b.drop_last(), t) + if b.last().token_id
            == t {
            b.last().entries@
        } else {
            seq![]
        });
        assert((batch_entries(a, t) + batch_entries(b.drop_last(), t)) + (if b.last().token_id == t {
            b.last().entries@
        } else {
            seq![]
        }) =~= batch_entries(a, t) + (batch_entries(b.drop_last(), t) + (if b.last().token_id == t {
            b.last().entries@
        } else {
            seq![]
        })));
    }
}

/// Batches of other terms append nothing to this one.
pub proof fn lemma_batch_entries_absent(bs: Seq<SpillBatch>, t: usize)
    requires
        forall|j: int| 0 <= j < bs.len() ==> (#[trigger] bs[j]).token_id != t,
    ensures
        batch_entries(bs, t) == Seq::<(usize, usize)>::empty(),
    decreases bs.len(),
{
    if bs.len() > 0 {
        assert(forall|j: int| 0 <= j < bs.drop_last().len() ==> (#[trigger] bs.drop_last()[j])
            == bs[j]);
        lemma_batch_entries_absent(bs.drop_last(), t);
        assert(bs.last() == bs[bs.len() - 1]);
        assert(batch_entries(bs, t) =~= Seq::<(usize, usize)>::empty());
    }
}

/// The `(id, text)` history of a run of articles.
pub open spec fn history_of(articles: Seq<Article>) -> Seq<(usize, Seq<char>)> {
    articles.map_values(|a: Article| (a.id, a.text@))
}

impl IndexBuilder {
    /// How many entries a term's in-memory buffer holds.
    pub fn buffered_len(&self, token_id: usize) -> (n: usize)
        ensures
            token_id < self.buffers().len() ==> n == self.buffers()[token_id as int].len(),
            token_id >= self.buffers().len() ==> n == 0,
    {
        if token_id < self.inv_index.len() {
            self.inv_index[token_id].len()
        } else {
            0
        }
    }

    /// The lexicon as allocated so far.
    pub fn lexicon(&self) -> (lex: &Lexicon)
        ensures
            lex@ == self.lex(),
    {
        &self.lexicon
    }

    /// Builds an index over a run of articles: a fresh builder ingests
    /// each article in order and then flushes every buffer.  The returned
    /// batches, appended to their terms' postings files in order, give
    /// each term's file exactly its complete postings list.
    #[verifier::loop_isolation(false)]
    pub fn build_from_articles(index_path: &String, articles: &Vec<Article>) -> (r: (
        IndexBuilder,
        Vec<SpillBatch>,
    ))
        ensures
            r.0.wf(),
            r.0.history() == history_of(articles@),
            r.0.path() == index_path@,
            forall|t: int| 0 <= t < r.0.lex().len() ==> (#[trigger] r.0.buffers()[t]).len() == 0,
            forall|t: int|
                0 <= t < r.0.lex().len() ==> #[trigger] r.0.spilled()[t] == postings_for(
                    history_of(articles@),
                    r.0.lex()[t],
                ),
            forall|t: usize|
                t < r.0.lex().len() ==> #[trigger] r.0.spilled()[t as int] == batch_entries(
                    r.1@,
                    t,
                ),
            forall|b: int|
                0 <= b < r.1@.len() ==> (#[trigger] r.1@[b].token_id) < r.0.lex().len(),
    {
        let mut b = IndexBuilder::new(index_path);
        let mut batches: Vec<SpillBatch> = Vec::new();
        let n = articles.len();
        let mut i: usize = 0;
        proof {
            assert(history_of(articles@.take(0)) =~= Seq::<(usize, Seq<char>)>::empty());
        }
        while i < n
            invariant
                i <= n,
                n == articles@.len(),
                b.wf(),
                b.path() == index_path@,
                b.history() == history_of(articles@.take(i as int)),
                forall|t: usize|
                    t < b.lex().len() ==> #[trigger] b.spilled()[t as int] == batch_entries(
                        batches@,
                        t,
                    ),
                forall|j: int|
                    0 <= j < batches@.len() ==> (#[trigger] batches@[j].token_id) < b.lex().len(),
            decreases n - i,
        {
            let ghost pre = b;
            let ghost pre_batches = batches@;
            let mut more = b.build_index(&articles[i]);
            let ghost morev = more@;
            batches.append(&mut more);
            proof {
                assert(history_of(articles@.take(i + 1)) =~= history_of(
                    articles@.take(i as int),
                ).push((articles@[i as int].id, articles@[i as int].text@)));
                assert(batches@ =~= pre_batches + morev);
                assert forall|t: usize| t < b.lex().len() implies #[trigger] b.spilled()[t as int]
                    == batch_entries(batches@, t) by {
                    lemma_batch_entries_append(pre_batches, morev, t);
                    assert(b.spilled()[t as int] == spilled_at(pre.spilled(), t) + batch_entries(
                        morev,
                        t,
                    ));
                    if t < pre.lex().len() {
                        assert(spilled_at(pre.spilled(), t) == pre.spilled()[t as int]);
                        assert(pre.spilled()[t as int] == batch_entries(pre_batches, t));
                    } else {
                        assert forall|j: int| 0 <= j < pre_batches.len() implies (
                        #[trigger] pre_batches[j]).token_id != t by {
                            assert(pre_batches[j].token_id < pre.lex().len());
                        }
                        lemma_batch_entries_absent(pre_batches, t);
                        assert(spilled_at(pre.spilled(), t) =~= Seq::<(usize, usize)>::empty());
                        assert(spilled_at(pre.spilled(), t) =~= batch_entries(pre_batches, t));
                    }
                    assert(batch_entries(pre_batches, t) + batch_entries(morev, t)
                        == batch_entries(batches@, t));
                }
            }
            i = i + 1;
        }
        proof {
            assert(articles@.take(n as int) =~= articles@);
        }
        let ghost mid = b;
        let ghost mid_batches = batches@;
        let mut fin = b.update_all_inv_index_files();
        let ghost finv = fin@;
        batches.append(&mut fin);
        proof {
            assert(batches@ =~= mid_batches + finv);
            assert forall|t: usize| t < b.lex().len() implies #[trigger] b.spilled()[t as int]
                == batch_entries(batches@, t) by {
                lemma_batch_entries_append(mid_batches, finv, t);
                assert(b.spilled()[t as int] == mid.spilled()[t as int] + batch_entries(finv, t));
                assert(mid.spilled()[t as int] == batch_entries(mid_batches, t));
            }
        }
        (b, batches)
    }
}

/// Growing by one more token at the end of the stream.
pub proof fn lemma_grow_lex_snoc(lex: Seq<Seq<char>>, toks: Seq<Seq<char>>)
    requires
        toks.len() > 0,
    ensures
        grow_lex(lex, toks) == grow1(grow_lex(lex, toks.drop_last()), toks.last()),
    decreases toks.len(),
{
    if toks.len() == 1 {
        assert(toks.drop_last() =~= Seq::<Seq<char>>::empty());
        assert(toks.drop_last().len() == 0);
        assert(grow_lex(lex, toks.drop_last()) == lex);
        assert(toks[0] == toks.last());
        assert(toks.drop_first() =~= Seq::<Seq<char>>::empty());
        assert(grow_lex(lex, toks) == grow_lex(grow1(lex, toks[0]), toks.drop_first()));
    } else {
        lemma_grow_lex_snoc(grow1(lex, toks[0]), toks.drop_first());
        assert(toks.drop_first().drop_last() =~= toks.drop_last().drop_first());
        assert(toks.drop_first().last() == toks.last());
        assert(toks.drop_last()[0] == toks[0]);
        assert(grow_lex(lex, toks.drop_last()) == grow_lex(
            grow1(lex, toks[0]),
            toks.drop_last().drop_first(),
        ));
    }
}

/// Growing a lexicon only appends: existing ids keep their tokens.
pub proof fn lemma_grow_lex_prefix(lex: Seq<Seq<char>>, toks: Seq<Seq<char>>)
    ensures
        lex.len() <= grow_lex(lex, toks).len(),
        forall|i: int| 0 <= i < lex.len() ==> #[trigger] grow_lex(lex, toks)[i] == lex[i],
    decreases toks.len(),
{
    if toks.len() > 0 {
        lemma_grow_lex_prefix(grow1(lex, toks[0]), toks.drop_first());
        if !lex_contains(lex, toks[0]) {
            assert forall|i: int| 0 <= i < lex.len() implies #[trigger] grow_lex(lex, toks)[i]
                == lex[i] by {
                assert(grow1(lex, toks[0])[i] == lex[i]);
            }
        }
    }
}

/// Growing a lexicon preserves distinctness.
pub proof fn lemma_grow_lex_distinct(lex: Seq<Seq<char>>, toks: Seq<Seq<char>>)
    requires
        distinct_tokens(lex),
    ensures
        distinct_tokens(grow_lex(lex, toks)),
    decreases toks.len(),
{
    if toks.len() > 0 {
        if !lex_contains(lex, toks[0]) {
            assert forall|i: int, j: int| 0 <= i < j < grow1(lex, toks[0]).len() implies grow1(
                lex,
                toks[0],
            )[i] != grow1(lex, toks[0])[j] by {
                if j == grow1(lex, toks[0]).len() - 1 {
                    assert(grow1(lex, toks[0])[i] == lex[i]);
                    assert(grow1(lex, toks[0])[j] == toks[0]);
                }
            }
        }
        lemma_grow_lex_distinct(grow1(lex, toks[0]), toks.drop_first());
    }
}

/// Growing a lexicon loses no token and takes in every token grown by.
pub proof fn lemma_grow_lex_contains(lex: Seq<Seq<char>>, toks: Seq<Seq<char>>, w: Seq<char>)
    ensures
        lex_contains(lex, w) ==> lex_contains(grow_lex(lex, toks), w),
        (exists|k: int| 0 <= k < toks.len() && toks[k] == w) ==> lex_contains(
            grow_lex(lex, toks),
            w,
        ),
    decreases toks.len(),
{
    if toks.len() > 0 {
        lemma_grow_lex_contains(grow1(lex, toks[0]), toks.drop_first(), w);
        if lex_contains(lex, w) {
            let i = choose|i: int| 0 <= i < lex.len() && lex[i] == w;
            assert(grow1(lex, toks[0])[i] == w);
            assert(lex_contains(grow1(lex, toks[0]), w));
        }
        if exists|k: int| 0 <= k < toks.len() && toks[k] == w {
            let k = choose|k: int| 0 <= k < toks.len() && toks[k] == w;
            if k == 0 {
                if lex_contains(lex, w) {
                } else {
                    assert(grow1(lex, toks[0])[lex.len() as int] == w);
                    assert(lex_contains(grow1(lex, toks[0]), w));
                }
            } else {
                assert(toks.drop_first()[k - 1] == w);
            }
        }
    }
}

/// A token's count is positive exactly when it occurs.
pub proof fn lemma_count_tok_pos(toks: Seq<Seq<char>>, w: Seq<char>)
    ensures
        count_tok(toks, w) > 0 <==> exists|k: int| 0 <= k < toks.len() && toks[k] == w,
    decreases toks.len(),
{
    if toks.len() > 0 {
        lemma_count_tok_pos(toks.drop_last(), w);
        if toks.last() == w {
            assert(toks[toks.len() - 1] == w);
        } else {
            if exists|k: int| 0 <= k < toks.drop_last().len() && toks.drop_last()[k] == w {
                let k = choose|k: int|
                    0 <= k < toks.drop_last().len() && toks.drop_last()[k] == w;
                assert(toks[k] == w);
            }
            if exists|k: int| 0 <= k < toks.len() && toks[k] == w {
                let k = choose|k: int| 0 <= k < toks.len() && toks[k] == w;
                assert(k < toks.len() - 1);
                assert(toks.drop_last()[k] == w);
            }
        }
    }
}

/// An id's count is positive exactly when it occurs.
pub proof fn lemma_count_in_pos(s: Seq<usize>, x: usize)
    ensures
        count_in(s, x) > 0 <==> exists|k: int| 0 <= k < s.len() && s[k] == x,
    decreases s.len(),
{
    if s.len() > 0 {
        lemma_count_in_pos(s.drop_last(), x);
        if s.last() == x {
            assert(s[s.len() - 1] == x);
        } else {
            if exists|k: int| 0 <= k < s.drop_last().len() && s.drop_last()[k] == x {
                let k = choose|k: int| 0 <= k < s.drop_last().len() && s.drop_last()[k] == x;
                assert(s[k] == x);
            }
            if exists|k: int| 0 <= k < s.len() && s[k] == x {
                let k = choose|k: int| 0 <= k < s.len() && s[k] == x;
                assert(k < s.len() - 1);
                assert(s.drop_last()[k] == x);
            }
        }
    }
}

/// A token no lexicon of the history knows has no postings.
pub proof fn lemma_no_postings(h: Seq<(usize, Seq<char>)>, w: Seq<char>)
    requires
        !lex_contains(lex_of_history(h), w),
    ensures
        postings_for(h, w) == Seq::<(usize, usize)>::empty(),
    decreases h.len(),
{
    if h.len() > 0 {
        let toks = tokens_of(h.last().1);
        lemma_count_tok_pos(toks, w);
        if count_tok(toks, w) > 0 {
            lemma_grow_lex_contains(lex_of_history(h.drop_last()), toks, w);
            assert(false);
        }
        lemma_grow_lex_contains(lex_of_history(h.drop_last()), toks, w);
        lemma_no_postings(h.drop_last(), w);
    }
}

/// Counting by id agrees with counting by token when ids and tokens
/// correspond position by position.
pub proof fn lemma_count_in_eq(ids: Seq<usize>, toks: Seq<Seq<char>>, x: usize, w: Seq<char>)
    requires
        ids.len() == toks.len(),
        forall|k: int| 0 <= k < ids.len() ==> ((#[trigger] ids[k] == x) <==> toks[k] == w),
    ensures
        count_in(ids, x) == count_tok(toks, w),
    decreases ids.len(),
{
    if ids.len() > 0 {
        assert forall|k: int| 0 <= k < ids.drop_last().len() implies ((#[trigger] ids.drop_last()[k]
            == x) <==> toks.drop_last()[k] == w) by {
            assert(ids.drop_last()[k] == ids[k]);
            assert(toks.drop_last()[k] == toks[k]);
        }
        lemma_count_in_eq(ids.drop_last(), toks.drop_last(), x, w);
        assert(ids.last() == ids[ids.len() - 1]);
        assert(toks.last() == toks[ids.len() - 1]);
    }
}

/// An id is among the distinct ids exactly when it occurs.
pub proof fn lemma_firsts_contains(s: Seq<usize>, x: usize)
    ensures
        firsts(s).contains(x) <==> count_in(s, x) > 0,
    decreases s.len(),
{
    if s.len() > 0 {
        lemma_firsts_contains(s.drop_last(), x);
        let rest = firsts(s.drop_last());
        if s.last() == x {
            if !rest.contains(x) {
                assert(firsts(s).last() == x);
            }
        } else {
            if rest.contains(x) {
                let i = choose|i: int| 0 <= i < rest.len() && rest[i] == x;
                assert(firsts(s)[i] == x);
            } else {
                if firsts(s).contains(x) {
                    let i = choose|i: int| 0 <= i < firsts(s).len() && firsts(s)[i] == x;
                    if i < rest.len() {
                        assert(rest[i] == x);
                    }
                }
            }
        }
    }
}

/// Recording over the first entry under the key.
pub proof fn lemma_set_len_found(m: Seq<(usize, usize)>, aid: usize, l: usize, i: int)
    requires
        0 <= i < m.len(),
        m[i].0 == aid,
        forall|j: int| 0 <= j < i ==> m[j].0 != aid,
    ensures
        set_len(m, aid, l) == m.update(i, (aid, l)),
    decreases m.len(),
{
    if m[0].0 == aid {
        assert(i == 0);
        assert(set_len(m, aid, l) =~= m.update(0, (aid, l)));
    } else {
        assert(m.drop_first()[i - 1].0 == aid);
        assert forall|j: int| 0 <= j < i - 1 implies m.drop_first()[j].0 != aid by {
            assert(m.drop_first()[j] == m[j + 1]);
        }
        lemma_set_len_found(m.drop_first(), aid, l, i - 1);
        assert(set_len(m, aid, l) =~= m.update(i, (aid, l)));
    }
}

/// Recording a key not yet present appends.
pub proof fn lemma_set_len_missing(m: Seq<(usize, usize)>, aid: usize, l: usize)
    requires
        forall|j: int| 0 <= j < m.len() ==> (#[trigger] m[j]).0 != aid,
    ensures
        set_len(m, aid, l) == m.push((aid, l)),
    decreases m.len(),
{
    if m.len() == 0 {
        assert(set_len(m, aid, l) =~= m.push((aid, l)));
    } else {
        assert forall|j: int| 0 <= j < m.drop_first().len() implies (#[trigger] m.drop_first()[j]).0
            != aid by {
            assert(m.drop_first()[j] == m[j + 1]);
        }
        lemma_set_len_missing(m.drop_first(), aid, l);
        assert(set_len(m, aid, l) =~= m.push((aid, l)));
    }
}

/// The distinct entries of a stream carry no repetition.
pub proof fn lemma_firsts_distinct(s: Seq<usize>)
    ensures
        forall|i: int, j: int| 0 <= i < j < firsts(s).len() ==> firsts(s)[i] != firsts(s)[j],
    decreases s.len(),
{
    if s.len() > 0 {
        lemma_firsts_distinct(s.drop_last());
        let rest = firsts(s.drop_last());
        if !rest.contains(s.last()) {
            assert forall|i: int, j: int| 0 <= i < j < firsts(s).len() implies firsts(s)[i]
                != firsts(s)[j] by {
                if j == firsts(s).len() - 1 {
                    assert(firsts(s)[i] == rest[i]);
                    assert(!rest.contains(firsts(s)[j]));
                }
            }
        }
    }
}

/// Recording a key makes it read back as recorded.
proof fn lemma_lookup_set_len_same(m: Seq<(usize, usize)>, aid: usize, l: usize)
    ensures
        crate::query::assoc_lookup(set_len(m, aid, l), aid) == Some(l),
    decreases m.len(),
{
    if m.len() == 0 {
    } else if m[0].0 == aid {
        assert(set_len(m, aid, l)[0] == (aid, l));
        assert(set_len(m, aid, l).len() > 0);
    } else {
        lemma_lookup_set_len_same(m.drop_first(), aid, l);
        assert(set_len(m, aid, l)[0] == m[0]);
        assert(set_len(m, aid, l).drop_first() =~= set_len(m.drop_first(), aid, l));
    }
}

/// Recording one key leaves every other key's reading alone.
proof fn lemma_lookup_set_len_other(m: Seq<(usize, usize)>, aid: usize, l: usize, k: usize)
    requires
        k != aid,
    ensures
        crate::query::assoc_lookup(set_len(m, aid, l), k) == crate::query::assoc_lookup(m, k),
    decreases m.len(),
{
    let r = set_len(m, aid, l);
    if m.len() == 0 {
        assert(r =~= seq![(aid, l)]);
        assert(r[0] == (aid, l));
        assert(r.len() == 1);
        assert(r.drop_first() =~= Seq::<(usize, usize)>::empty());
        assert(crate::query::assoc_lookup(r, k) == crate::query::assoc_lookup(
            r.drop_first(),
            k,
        ));
        assert(crate::query::assoc_lookup(r.drop_first(), k) is None);
        assert(crate::query::assoc_lookup(m, k) is None);
    } else if m[0].0 == aid {
        assert(r[0] == (aid, l));
        assert(r.len() > 0);
        assert(r.drop_first() =~= m.drop_first());
        assert(crate::query::assoc_lookup(r, k) == crate::query::assoc_lookup(
            r.drop_first(),
            k,
        ));
        assert(crate::query::assoc_lookup(m, k) == crate::query::assoc_lookup(
            m.drop_first(),
            k,
        ));
    } else {
        lemma_lookup_set_len_other(m.drop_first(), aid, l, k);
        assert(r[0] == m[0]);
        assert(r.len() > 0);
        assert(r.drop_first() =~= set_len(m.drop_first(), aid, l));
        if m[0].0 == k {
            assert(crate::query::assoc_lookup(r, k) == Some(m[0].1));
            assert(crate::query::assoc_lookup(m, k) == Some(m[0].1));
        } else {
            assert(crate::query::assoc_lookup(r, k) == crate::query::assoc_lookup(
                r.drop_first(),
                k,
            ));
            assert(crate::query::assoc_lookup(m, k) == crate::query::assoc_lookup(
                m.drop_first(),
                k,
            ));
        }
    }
}

/// Article-length correctness: for a history of distinct article ids, the
/// article-length table maps each article's id to the length of the token
/// stream its body analyzes into.
pub proof fn lemma_article_length_correct(h: Seq<(usize, Seq<char>)>, k: int)
    requires
        forall|i: int, j: int| 0 <= i < j < h.len() ==> (#[trigger] h[i]).0 != (#[trigger] h[j]).0,
        0 <= k < h.len(),
    ensures
        crate::query::assoc_lookup(lengths_of(h), h[k].0) == Some(
            tokens_of(h[k].1).len() as usize,
        ),
    decreases h.len(),
{
    let h0 = h.drop_last();
    if k == h.len() - 1 {
        lemma_lookup_set_len_same(
            lengths_of(h0),
            h.last().0,
            tokens_of(h.last().1).len() as usize,
        );
        assert(h[k] == h.last());
    } else {
        assert forall|i: int, j: int|
            0 <= i < j < h0.len() implies (#[trigger] h0[i]).0 != (#[trigger] h0[j]).0 by {
            assert(h0[i] == h[i]);
            assert(h0[j] == h[j]);
        }
        lemma_article_length_correct(h0, k);
        assert(h0[k] == h[k]);
        assert(h[k].0 != h.last().0);
        lemma_lookup_set_len_other(
            lengths_of(h0),
            h.last().0,
            tokens_of(h.last().1).len() as usize,
            h[k].0,
        );
    }
}

/// Postings completeness: over a history of distinct article ids, a
/// token's postings list carries exactly one entry per article that
/// contains the token, and that entry pairs the article's id with the
/// token's number of occurrences in it.
pub proof fn lemma_postings_complete(h: Seq<(usize, Seq<char>)>, w: Seq<char>)
    requires
        forall|i: int, j: int| 0 <= i < j < h.len() ==> (#[trigger] h[i]).0 != (#[trigger] h[j]).0,
    ensures
        forall|k: int|
            0 <= k < h.len() && count_tok(tokens_of(h[k].1), w) > 0 ==> postings_for(
                h,
                w,
            ).contains(((#[trigger] h[k]).0, count_tok(tokens_of(h[k].1), w) as usize)),
        forall|j: int|
            #![trigger postings_for(h, w)[j]]
            0 <= j < postings_for(h, w).len() ==> exists|k: int|
                0 <= k < h.len() && (#[trigger] h[k]).0 == postings_for(h, w)[j].0 && count_tok(
                    tokens_of(h[k].1),
                    w,
                ) as usize == postings_for(h, w)[j].1 && count_tok(tokens_of(h[k].1), w) > 0,
        forall|i: int, j: int|
            0 <= i < j < postings_for(h, w).len() ==> (#[trigger] postings_for(h, w)[i]).0 != (
            #[trigger] postings_for(h, w)[j]).0,
    decreases h.len(),
{
    if h.len() > 0 {
        let h0 = h.drop_last();
        assert forall|i: int, j: int|
            0 <= i < j < h0.len() implies (#[trigger] h0[i]).0 != (#[trigger] h0[j]).0 by {
            assert(h0[i] == h[i]);
            assert(h0[j] == h[j]);
        }
        lemma_postings_complete(h0, w);
        let ps0 = postings_for(h0, w);
        let ps = postings_for(h, w);
        let c = count_tok(tokens_of(h.last().1), w);

        assert forall|k: int|
            0 <= k < h.len() && count_tok(tokens_of(h[k].1), w) > 0 implies ps.contains(
            ((#[trigger] h[k]).0, count_tok(tokens_of(h[k].1), w) as usize)) by {
            if k < h.len() - 1 {
                assert(h0[k] == h[k]);
                assert(ps0.contains((h[k].0, count_tok(tokens_of(h[k].1), w) as usize)));
                let q = choose|q: int|
                    0 <= q < ps0.len() && ps0[q] == (h[k].0, count_tok(tokens_of(h[k].1), w) as usize);
                assert(ps[q] == ps0[q]);
                assert(ps.contains((h[k].0, count_tok(tokens_of(h[k].1), w) as usize))) by {
                    assert(0 <= q < ps.len() && ps[q] == (h[k].0, count_tok(
                        tokens_of(h[k].1),
                        w,
                    ) as usize));
                }
            } else {
                assert(h[k] == h.last());
                assert(c > 0);
                assert(ps[ps.len() - 1] == (h.last().0, c as usize));
                assert(ps.contains((h[k].0, count_tok(tokens_of(h[k].1), w) as usize))) by {
                    assert(0 <= ps.len() - 1 < ps.len() && ps[ps.len() - 1] == (h[k].0, count_tok(
                        tokens_of(h[k].1),
                        w,
                    ) as usize));
                }
            }
        }

        assert forall|j: int| #![trigger ps[j]] 0 <= j < ps.len() implies exists|k: int|
            0 <= k < h.len() && (#[trigger] h[k]).0 == ps[j].0 && count_tok(tokens_of(h[k].1), w) as usize
                == ps[j].1 && count_tok(tokens_of(h[k].1), w) > 0 by {
            if j < ps0.len() {
                let k = choose|k: int|
                    0 <= k < h0.len() && h0[k].0 == ps0[j].0 && count_tok(tokens_of(h0[k].1), w) as usize
                        == ps0[j].1 && count_tok(tokens_of(h0[k].1), w) > 0;
                assert(h[k] == h0[k]);
                assert(ps[j] == ps0[j]);
                assert(0 <= k < h.len() && h[k].0 == ps[j].0 && count_tok(tokens_of(h[k].1), w) as usize
                    == ps[j].1 && count_tok(tokens_of(h[k].1), w) > 0);
            } else {
                assert(c > 0);
                assert(ps[j] == (h.last().0, c as usize));
                let k = h.len() - 1;
                assert(0 <= k < h.len() && h[k].0 == ps[j].0 && count_tok(tokens_of(h[k].1), w) as usize
                    == ps[j].1 && count_tok(tokens_of(h[k].1), w) > 0);
            }
        }

        assert forall|i: int, j: int|
            0 <= i < j < ps.len() implies (#[trigger] ps[i]).0 != (#[trigger] ps[j]).0 by {
            if j < ps0.len() {
                assert(ps[i] == ps0[i]);
                assert(ps[j] == ps0[j]);
            } else {
                assert(c > 0);
                assert(ps[i] == ps0[i]);
                assert(ps[j] == (h.last().0, c as usize));
                let k = choose|k: int|
                    0 <= k < h0.len() && h0[k].0 == ps0[i].0 && count_tok(tokens_of(h0[k].1), w) as usize
                        == ps0[i].1 && count_tok(tokens_of(h0[k].1), w) > 0;
                assert(h[k] == h0[k]);
                assert(h[k].0 != h.last().0);
            }
        }
    }
}

/// A grown lexicon holds only what it held before and the stream's tokens.
proof fn lemma_grow_lex_only_stream(lex: Seq<Seq<char>>, ts: Seq<Seq<char>>, w: Seq<char>)
    ensures
        lex_contains(grow_lex(lex, ts), w) ==> lex_contains(lex, w) || exists|k: int|
            0 <= k < ts.len() && ts[k] == w,
    decreases ts.len(),
{
    if ts.len() > 0 {
        lemma_grow_lex_only_stream(grow1(lex, ts[0]), ts.drop_first(), w);
        if lex_contains(grow_lex(lex, ts), w) {
            if lex_contains(grow1(lex, ts[0]), w) {
                if !lex_contains(lex, w) {
                    let i = choose|i: int|
                        0 <= i < grow1(lex, ts[0]).len() && grow1(lex, ts[0])[i] == w;
                    assert(i == lex.len());
                    assert(ts[0] == w);
                }
            } else {
                let k = choose|k: int|
                    0 <= k < ts.drop_first().len() && ts.drop_first()[k] == w;
                assert(ts[k + 1] == w);
            }
        }
    }
}

/// Growing with a concatenated stream grows with its parts in turn.
proof fn lemma_grow_lex_concat(lex: Seq<Seq<char>>, a: Seq<Seq<char>>, b: Seq<Seq<char>>)
    ensures
        grow_lex(lex, a + b) == grow_lex(grow_lex(lex, a), b),
    decreases a.len(),
{
    if a.len() == 0 {
        assert(a + b =~= b);
    } else {
        assert((a + b)[0] == a[0]);
        assert((a + b).drop_first() =~= a.drop_first() + b);
        lemma_grow_lex_concat(grow1(lex, a[0]), a.drop_first(), b);
    }
}

/// A token already known keeps its id as the lexicon grows.
proof fn lemma_lex_index_stable(lex: Seq<Seq<char>>, ts: Seq<Seq<char>>, w: Seq<char>)
    requires
        lex_contains(lex, w),
    ensures
        lex_index(grow_lex(lex, ts), w) == lex_index(lex, w),
    decreases ts.len(),
{
    if ts.len() > 0 {
        if lex_contains(lex, ts[0]) {
            lemma_lex_index_stable(lex, ts.drop_first(), w);
        } else {
            assert(grow1(lex, ts[0]) == lex.push(ts[0]));
            let i = crate::lexicon::lex_index(lex, w);
            crate::lexicon::lemma_lex_index_correct(lex, w);
            crate::lexicon::lemma_lex_index_min(lex, w);
            assert(lex.push(ts[0])[i] == w);
            assert forall|j: int| 0 <= j < i implies lex.push(ts[0])[j] != w by {
                assert(lex.push(ts[0])[j] == lex[j]);
            }
            crate::lexicon::lemma_lex_index_first(lex.push(ts[0]), w, i);
            assert(lex_contains(lex.push(ts[0]), w)) by {
                assert(lex.push(ts[0])[i] == w);
            }
            lemma_lex_index_stable(lex.push(ts[0]), ts.drop_first(), w);
        }
    }
}

/// Token-id monotonicity: over a token stream ingested from an empty
/// lexicon, the id assigned at a token's first occurrence equals the
/// number of distinct tokens seen strictly before it — its 0-based
/// first-seen index.
pub proof fn lemma_token_id_monotone(ts: Seq<Seq<char>>, i: int)
    requires
        0 <= i < ts.len(),
        forall|j: int| 0 <= j < i ==> ts[j] != ts[i],
    ensures
        lex_index(grow_lex(Seq::empty(), ts), ts[i]) == grow_lex(Seq::empty(), ts.take(i)).len(),
    decreases ts.len(),
{
    let empty = Seq::<Seq<char>>::empty();
    let lex_i = grow_lex(empty, ts.take(i));
    assert(!lex_contains(lex_i, ts[i])) by {
        lemma_grow_lex_only_stream(empty, ts.take(i), ts[i]);
        if lex_contains(lex_i, ts[i]) {
            let k = choose|k: int| 0 <= k < ts.take(i).len() && ts.take(i)[k] == ts[i];
            assert(ts[k] == ts[i]);
        }
    }
    assert(ts.take(i + 1).drop_last() =~= ts.take(i));
    assert(ts.take(i + 1).last() == ts[i]);
    assert(ts.take(i + 1).len() > 0);
    lemma_grow_lex_snoc(empty, ts.take(i + 1));
    assert(grow_lex(empty, ts.take(i + 1)) == lex_i.push(ts[i]));
    crate::lexicon::lemma_lex_index_append(lex_i, ts[i]);
    assert(lex_contains(lex_i.push(ts[i]), ts[i])) by {
        assert(lex_i.push(ts[i])[lex_i.len() as int] == ts[i]);
    }
    lemma_lex_index_stable(lex_i.push(ts[i]), ts.skip(i + 1), ts[i]);
    assert(ts.take(i + 1) + ts.skip(i + 1) =~= ts);
    lemma_grow_lex_concat(empty, ts.take(i + 1), ts.skip(i + 1));
}

} // verus!
