//! The query evaluator's verified core: mapping query text to token ids,
//! folding postings lists into per-article frequency maps, gathering the
//! integer inputs of the ranking formula, ordering candidates, and
//! extracting snippets.
//!
//! The caller owns all file I/O (loading the two binary maps and the
//! postings files) and the floating-point evaluation of the ranking
//! formula itself; everything here works on plain values.

use vstd::prelude::*;
use crate::analyzer::{clean_of, clean_text, lemma_clean_ascii, lemma_first_keys_complete};
use crate::analyzer::{first_keys, lemma_positions_of_valid, offsets_view, positions_of};
use crate::analyzer::{stemmed_runs_of, tokenize, tokenize_with_positions, tokens_of};
use crate::common::{IndexError, SNIPPET_OFFSET};
use crate::index_builder::{count_in, set_len};
use crate::lexicon::{lex_contains, lex_index, Lexicon};
use crate::strbytes::{all_ascii, ascii_chars_of, ascii_to_string};

verus! {

/// The integer inputs that one query term contributes to one article's
/// score: the term's frequency in the query, its frequency in the
/// article, and the number of distinct articles in its postings list.
#[derive(Debug, Clone, Copy, PartialEq, Eq, Structural)]
pub struct TermStats {
    pub query_token_freq: usize,
    pub doc_freq: usize,
    pub postings_len: usize,
}

/// The per-token frequency-map views of loaded postings lists.
pub open spec fn pls_view(s: Seq<(usize, Vec<(usize, usize)>)>) -> Seq<(usize, Seq<(usize, usize)>)> {
    s.map_values(|e: (usize, Vec<(usize, usize)>)| (e.0, e.1@))
}

/// The frequency map loaded for a token, first match first.
pub open spec fn pls_lookup(pls: Seq<(usize, Seq<(usize, usize)>)>, key: usize) -> Option<
    Seq<(usize, usize)>,
>
    decreases pls.len(),
{
    if pls.len() == 0 {
        None
    } else if pls[0].0 == key {
        Some(pls[0].1)
    } else {
        pls_lookup(pls.drop_first(), key)
    }
}

/// The score inputs of one article, term by term in query-map order: a
/// term whose postings list is missing is an inconsistency (`None`); a
/// term without an entry for this article contributes nothing.
pub open spec fn stats_for(
    article_id: usize,
    qtf: Seq<(usize, usize)>,
    pls: Seq<(usize, Seq<(usize, usize)>)>,
) -> Option<Seq<TermStats>>
    decreases qtf.len(),
{
    if qtf.len() == 0 {
        Some(seq![])
    } else {
        match stats_for(article_id, qtf.drop_last(), pls) {
            Option::None => None,
            Option::Some(st) => {
                match pls_lookup(pls, qtf.last().0) {
                    Option::None => None,
                    Option::Some(pl) => {
                        match assoc_lookup(pl, article_id) {
                            Option::None => Some(st),
                            Option::Some(f) => Some(
                                st.push(
                                    TermStats {
                                        query_token_freq: qtf.last().1,
                                        doc_freq: f,
                                        postings_len: pl.len() as usize,
                                    },
                                ),
                            ),
                        }
                    },
                }
            },
        }
    }
}

/// The value under the first entry with the given key.
pub open spec fn assoc_lookup(m: Seq<(usize, usize)>, key: usize) -> Option<usize>
    decreases m.len(),
{
    if m.len() == 0 {
        None
    } else if m[0].0 == key {
        Some(m[0].1)
    } else {
        assoc_lookup(m.drop_first(), key)
    }
}

/// Looks a key up in an association list, first match first.
pub fn assoc_get(m: &Vec<(usize, usize)>, key: usize) -> (r: Option<usize>)
    ensures
        r == assoc_lookup(m@, key),
{
    let n = m.len();
    let mut i: usize = 0;
    proof {
        assert(m@.skip(0) =~= m@);
    }
    while i < n
        invariant
            i <= n,
            n == m@.len(),
            assoc_lookup(m@, key) == assoc_lookup(m@.skip(i as int), key),
        decreases n - i,
    {
        proof {
            assert(m@.skip(i as int).drop_first() =~= m@.skip(i + 1));
            assert(m@.skip(i as int)[0] == m@[i as int]);
        }
        if m[i].0 == key {
            return Some(m[i].1);
        }
        i = i + 1;
    }
    proof {
        assert(m@.skip(n as int) =~= Seq::<(usize, usize)>::empty());
    }
    None
}

/// The frequency map of raw postings entries: later entries under the same
/// key overwrite earlier ones, and each key keeps its first position.
pub open spec fn freq_map_of(es: Seq<(usize, usize)>) -> Seq<(usize, usize)>
    decreases es.len(),
{
    if es.len() == 0 {
        seq![]
    } else {
        set_len(freq_map_of(es.drop_last()), es.last().0, es.last().1)
    }
}

/// Sets one key of an association list, overwriting the first entry under
/// it or appending a new one.
fn assoc_set(m: &mut Vec<(usize, usize)>, key: usize, val: usize)
    ensures
        final(m)@ == set_len(old(m)@, key, val),
{
    let n = m.len();
    let mut i: usize = 0;
    while i < n
        invariant
            i <= n,
            n == m@.len(),
            *m == *old(m),
            forall|j: int| 0 <= j < i ==> (#[trigger] m@[j]).0 != key,
        decreases n - i,
    {
        if m[i].0 == key {
            m.set(i, (key, val));
            proof {
                crate::index_builder::lemma_set_len_found(old(m)@, key, val, i as int);
            }
            return ;
        }
        i = i + 1;
    }
    m.push((key, val));
    proof {
        crate::index_builder::lemma_set_len_missing(old(m)@, key, val);
    }
}

/// Folds a parsed postings list into its `article id -> term frequency`
/// map, later duplicates overwriting earlier ones.  Its length is the
/// number of distinct articles in the list.
pub fn to_freq_map(entries: &Vec<(usize, usize)>) -> (m: Vec<(usize, usize)>)
    ensures
        m@ == freq_map_of(entries@),
{
    let n = entries.len();
    let mut m: Vec<(usize, usize)> = Vec::new();
    let mut i: usize = 0;
    proof {
        assert(entries@.take(0) =~= Seq::<(usize, usize)>::empty());
    }
    while i < n
        invariant
            i <= n,
            n == entries@.len(),
            m@ == freq_map_of(entries@.take(i as int)),
        decreases n - i,
    {
        proof {
            assert(entries@.take(i + 1).drop_last() =~= entries@.take(i as int));
            assert(entries@.take(i + 1).last() == entries@[i as int]);
        }
        let (k, v) = entries[i];
        assoc_set(&mut m, k, v);
        i = i + 1;
    }
    proof {
        assert(entries@.take(n as int) =~= entries@);
    }
    m
}

/// The ids of the query's tokens that the lexicon knows, in token order,
/// unknown tokens dropped.
pub open spec fn known_ids(toks: Seq<Seq<char>>, lex: Seq<Seq<char>>) -> Seq<int>
    decreases toks.len(),
{
    if toks.len() == 0 {
        seq![]
    } else {
        let rest = known_ids(toks.drop_first(), lex);
        if lex_contains(lex, toks[0]) {
            seq![lex_index(lex, toks[0])] + rest
        } else {
            rest
        }
    }
}

/// Analyzes the query text and maps each token to its id, dropping tokens
/// the lexicon does not know.
pub fn query_token_ids(query: &String, lexicon: &Lexicon) -> (ids: Vec<usize>)
    ensures
        crate::analyzer::offsets_view(ids@) == known_ids(tokens_of(query@), lexicon@),
{
    let tokens = tokenize(query);
    let ghost toks = tokens_of(query@);
    let n = tokens.len();
    let mut ids: Vec<usize> = Vec::new();
    let mut i: usize = 0;
    proof {
        assert(toks.skip(0) =~= toks);
        assert(crate::analyzer::offsets_view(ids@) + known_ids(toks, lexicon@) =~= known_ids(
            toks,
            lexicon@,
        ));
    }
    while i < n
        invariant
            i <= n,
            n == tokens@.len(),
            toks == tokens_of(query@),
            n == toks.len(),
            forall|j: int| 0 <= j < n ==> #[trigger] tokens@[j]@ == toks[j],
            known_ids(toks, lexicon@) == crate::analyzer::offsets_view(ids@) + known_ids(
                toks.skip(i as int),
                lexicon@,
            ),
        decreases n - i,
    {
        proof {
            assert(toks.skip(i as int).drop_first() =~= toks.skip(i + 1));
            assert(toks.skip(i as int)[0] == toks[i as int]);
        }
        let ghost prev = ids@;
        match lexicon.id_of(&tokens[i]) {
            Some(id) => {
                ids.push(id);
                proof {
                    assert(crate::analyzer::offsets_view(ids@) =~= crate::analyzer::offsets_view(
                        prev,
                    ).push(id as int));
                    assert(crate::analyzer::offsets_view(prev) + (seq![lex_index(
                        lexicon@,
                        toks[i as int],
                    )] + known_ids(toks.skip(i + 1), lexicon@)) =~= crate::analyzer::offsets_view(
                        ids@,
                    ) + known_ids(toks.skip(i + 1), lexicon@));
                }
            },
            None => {
            },
        }
        i = i + 1;
    }
    proof {
        assert(toks.skip(n as int) =~= Seq::<Seq<char>>::empty());
        assert(crate::analyzer::offsets_view(ids@) + known_ids(
            toks.skip(n as int),
            lexicon@,
        ) =~= crate::analyzer::offsets_view(ids@));
    }
    ids
}

/// The query's term-frequency map: each distinct token id of the query
/// with its number of occurrences, in ascending id order.
pub fn query_term_freqs(token_ids: &Vec<usize>) -> (m: Vec<(usize, usize)>)
    ensures
        forall|k: int, l: int| 0 <= k < l < m@.len() ==> (#[trigger] m@[k]).0 < (#[trigger] m@[l]).0,
        forall|k: int|
            0 <= k < m@.len() ==> (#[trigger] m@[k]).1 == count_in(token_ids@, m@[k].0) && count_in(
                token_ids@,
                m@[k].0,
            ) > 0,
        forall|x: usize|
            count_in(token_ids@, x) > 0 ==> exists|k: int|
                0 <= k < m@.len() && (#[trigger] m@[k]).0 == x,
{
    let ids = token_ids;
    let n = ids.len();
    let mut m: Vec<(usize, usize)> = Vec::new();
    let mut i: usize = 0;
    proof {
        assert(ids@.take(0) =~= Seq::<usize>::empty());
    }
    while i < n
        invariant
            i <= n,
            n == ids@.len(),
            forall|k: int, l: int|
                0 <= k < l < m@.len() ==> (#[trigger] m@[k]).0 < (#[trigger] m@[l]).0,
            forall|k: int|
                0 <= k < m@.len() ==> (#[trigger] m@[k]).1 == count_in(ids@, m@[k].0) && count_in(
                    ids@.take(i as int),
                    m@[k].0,
                ) > 0,
            forall|x: usize|
                count_in(ids@.take(i as int), x) > 0 ==> exists|k: int|
                    0 <= k < m@.len() && (#[trigger] m@[k]).0 == x,
        decreases n - i,
    {
        proof {
            assert(ids@.take(i + 1).drop_last() =~= ids@.take(i as int));
            assert(ids@.take(i + 1).last() == ids@[i as int]);
        }
        let tid = ids[i];
        let len0 = m.len();
        let mut present = false;
        let mut q: usize = 0;
        while q < len0
            invariant
                q <= len0,
                len0 == m@.len(),
                present <==> exists|k: int| 0 <= k < q && (#[trigger] m@[k]).0 == tid,
            decreases len0 - q,
        {
            if m[q].0 == tid {
                present = true;
            }
            q = q + 1;
        }
        if !present {
            let mut pos: usize = 0;
            while pos < len0 && m[pos].0 < tid
                invariant
                    pos <= len0,
                    len0 == m@.len(),
                    forall|k: int| 0 <= k < pos ==> (#[trigger] m@[k]).0 < tid,
                decreases len0 - pos,
            {
                pos = pos + 1;
            }
            proof {
                if pos < len0 {
                    assert(m@[pos as int].0 != tid);
                    assert(m@[pos as int].0 > tid);
                }
            }
            // count this id across the whole query
            let mut count: usize = 0;
            let mut j: usize = 0;
            proof {
                assert(ids@.take(0) =~= Seq::<usize>::empty());
            }
            while j < n
                invariant
                    j <= n,
                    n == ids@.len(),
                    tid == ids@[i as int],
                    i < n,
                    count == count_in(ids@.take(j as int), tid),
                    count <= j,
                decreases n - j,
            {
                proof {
                    assert(ids@.take(j + 1).drop_last() =~= ids@.take(j as int));
                    assert(ids@.take(j + 1).last() == ids@[j as int]);
                }
                if ids[j] == tid {
                    count = count + 1;
                }
                j = j + 1;
            }
            proof {
                assert(ids@.take(n as int) =~= ids@);
            }
            let ghost prev = m@;
            m.insert(pos, (tid, count));
            proof {
                assert forall|k: int, l: int|
                    0 <= k < l < m@.len() implies (#[trigger] m@[k]).0 < (#[trigger] m@[l]).0 by {
                    if l < pos {
                        assert(m@[k] == prev[k]);
                        assert(m@[l] == prev[l]);
                    } else if k < pos && l == pos {
                        assert(m@[k] == prev[k]);
                        assert(prev[k].0 < tid);
                    } else if k < pos && l > pos {
                        assert(m@[k] == prev[k]);
                        assert(m@[l] == prev[l - 1]);
                        if l - 1 == pos {
                            assert(prev[k].0 < tid);
                            assert(m@[l] == prev[pos as int]);
                        }
                    } else if k == pos && l > pos {
                        assert(m@[l] == prev[l - 1]);
                        if l - 1 > pos {
                            assert(prev[pos as int].0 < prev[l - 1].0);
                        }
                    } else {
                        assert(m@[k] == prev[k - 1]);
                        assert(m@[l] == prev[l - 1]);
                    }
                }
                assert forall|k: int|
                    0 <= k < m@.len() implies (#[trigger] m@[k]).1 == count_in(ids@, m@[k].0)
                        && count_in(ids@.take(i + 1), m@[k].0) > 0 by {
                    assert(count_in(ids@.take(i + 1), m@[k].0) == count_in(
                        ids@.take(i as int),
                        m@[k].0,
                    ) + if ids@[i as int] == m@[k].0 {
                        1nat
                    } else {
                        0nat
                    });
                    if k < pos {
                        assert(m@[k] == prev[k]);
                    } else if k == pos {
                        assert(m@[k] == (tid, count));
                    } else {
                        assert(m@[k] == prev[k - 1]);
                    }
                }
                assert forall|x: usize| #![trigger count_in(ids@.take(i + 1), x)] count_in(
                    ids@.take(i + 1),
                    x,
                ) > 0 implies exists|k: int| 0 <= k < m@.len() && (#[trigger] m@[k]).0 == x by {
                    assert(count_in(ids@.take(i + 1), x) == count_in(ids@.take(i as int), x)
                        + if ids@[i as int] == x {
                        1nat
                    } else {
                        0nat
                    });
                    if ids@[i as int] == x {
                        assert(m@[pos as int].0 == x);
                    } else {
                        let k0 = choose|k: int|
                            0 <= k < prev.len() && (#[trigger] prev[k]).0 == x;
                        if k0 < pos {
                            assert(m@[k0].0 == x);
                        } else {
                            assert(m@[k0 + 1] == prev[k0]);
                            assert(m@[k0 + 1].0 == x);
                        }
                    }
                }
            }
        } else {
            proof {
                let q = choose|k: int| 0 <= k < m@.len() && (#[trigger] m@[k]).0 == tid;
                assert(count_in(ids@.take(i as int), m@[q].0) > 0);
                assert forall|k: int|
                    0 <= k < m@.len() implies (#[trigger] m@[k]).1 == count_in(ids@, m@[k].0)
                        && count_in(ids@.take(i + 1), m@[k].0) > 0 by {
                    assert(count_in(ids@.take(i + 1), m@[k].0) == count_in(
                        ids@.take(i as int),
                        m@[k].0,
                    ) + if ids@[i as int] == m@[k].0 {
                        1nat
                    } else {
                        0nat
                    });
                }
                assert forall|x: usize| #![trigger count_in(ids@.take(i + 1), x)] count_in(
                    ids@.take(i + 1),
                    x,
                ) > 0 implies exists|k: int| 0 <= k < m@.len() && (#[trigger] m@[k]).0 == x by {
                    assert(count_in(ids@.take(i + 1), x) == count_in(ids@.take(i as int), x)
                        + if ids@[i as int] == x {
                        1nat
                    } else {
                        0nat
                    });
                    if ids@[i as int] == x {
                        assert(m@[q].0 == x);
                    }
                }
            }
        }
        i = i + 1;
    }
    proof {
        assert(ids@.take(n as int) =~= ids@);
    }
    m
}

/// Once gathering fails on a prefix of the query terms, it fails for the
/// whole query.
proof fn lemma_stats_none_prefix(
    article_id: usize,
    qtf: Seq<(usize, usize)>,
    pls: Seq<(usize, Seq<(usize, usize)>)>,
    j: int,
)
    requires
        0 <= j <= qtf.len(),
        stats_for(article_id, qtf.take(j), pls) is None,
    ensures
        stats_for(article_id, qtf, pls) is None,
    decreases qtf.len() - j,
{
    if j < qtf.len() {
        assert(qtf.take(j + 1).drop_last() =~= qtf.take(j));
        assert(stats_for(article_id, qtf.take(j + 1), pls) is None);
        lemma_stats_none_prefix(article_id, qtf, pls, j + 1);
    } else {
        assert(qtf.take(j) =~= qtf);
    }
}

/// Finds the loaded frequency map of a token.
fn pls_get<'a>(pls: &'a Vec<(usize, Vec<(usize, usize)>)>, key: usize) -> (r: Option<
    &'a Vec<(usize, usize)>,
>)
    ensures
        r matches Some(pl) ==> pls_lookup(pls_view(pls@), key) == Some(pl@),
        r is None <==> pls_lookup(pls_view(pls@), key) is None,
{
    let n = pls.len();
    let mut i: usize = 0;
    proof {
        assert(pls_view(pls@).skip(0) =~= pls_view(pls@));
    }
    while i < n
        invariant
            i <= n,
            n == pls@.len(),
            pls_lookup(pls_view(pls@), key) == pls_lookup(pls_view(pls@).skip(i as int), key),
        decreases n - i,
    {
        proof {
            assert(pls_view(pls@).skip(i as int).drop_first() =~= pls_view(pls@).skip(i + 1));
            assert(pls_view(pls@).skip(i as int)[0] == pls_view(pls@)[i as int]);
            assert(pls_view(pls@)[i as int] == (pls@[i as int].0, pls@[i as int].1@));
        }
        if pls[i].0 == key {
            return Some(&pls[i].1);
        }
        i = i + 1;
    }
    proof {
        assert(pls_view(pls@).skip(n as int) =~= Seq::<(usize, Seq<(usize, usize)>)>::empty());
    }
    None
}

/// Gathers the ranking formula's integer inputs for one article: for each
/// query term in ascending id order, its query frequency, its frequency in
/// this article, and its postings-list size.  A query term whose postings
/// list was not loaded is a hard error: the index is inconsistent.
pub fn bm25_term_stats(
    article_id: usize,
    query_term_freqs: &Vec<(usize, usize)>,
    postings_lists: &Vec<(usize, Vec<(usize, usize)>)>,
) -> (r: Result<Vec<TermStats>, IndexError>)
    ensures
        r matches Ok(st) ==> stats_for(article_id, query_term_freqs@, pls_view(postings_lists@))
            == Some(st@),
        r is Err <==> stats_for(article_id, query_term_freqs@, pls_view(postings_lists@)) is None,
        r matches Err(e) ==> (e matches IndexError::MissingPostingsList { token_id: _ }),
{
    let ghost qtf = query_term_freqs@;
    let ghost pls = pls_view(postings_lists@);
    let n = query_term_freqs.len();
    let mut st: Vec<TermStats> = Vec::new();
    let mut k: usize = 0;
    proof {
        assert(qtf.take(0) =~= Seq::<(usize, usize)>::empty());
    }
    while k < n
        invariant
            k <= n,
            n == qtf.len(),
            qtf == query_term_freqs@,
            pls == pls_view(postings_lists@),
            stats_for(article_id, qtf.take(k as int), pls) == Some(st@),
        decreases n - k,
    {
        proof {
            assert(qtf.take(k + 1).drop_last() =~= qtf.take(k as int));
            assert(qtf.take(k + 1).last() == qtf[k as int]);
        }
        let (tid, qf) = query_term_freqs[k];
        match pls_get(postings_lists, tid) {
            None => {
                proof {
                    assert(stats_for(article_id, qtf.take(k + 1), pls) is None);
                    lemma_stats_none_prefix(article_id, qtf, pls, k + 1);
                }
                return Err(IndexError::MissingPostingsList { token_id: tid });
            },
            Some(pl) => {
                match assoc_get(pl, article_id) {
                    Some(f) => {
                        st.push(
                            TermStats {
                                query_token_freq: qf,
                                doc_freq: f,
                                postings_len: pl.len(),
                            },
                        );
                    },
                    None => {
                    },
                }
            },
        }
        k = k + 1;
    }
    proof {
        assert(qtf.take(n as int) =~= qtf);
    }
    Ok(st)
}

/// Whether candidate `a` ranks at least as high as `b`: strictly larger
/// score key first, ties broken by ascending article id.
pub open spec fn ranked(a: (usize, u64), b: (usize, u64)) -> bool {
    a.1 > b.1 || (a.1 == b.1 && a.0 <= b.0)
}

/// Sorts scored candidates by descending score key, breaking ties by
/// ascending article id.  The score key is an order-preserving encoding of
/// the score, so larger keys mean higher scores.
pub fn rank_candidates(scores: &Vec<(usize, u64)>) -> (r: Vec<(usize, u64)>)
    ensures
        r@.len() == scores@.len(),
        r@.to_multiset() == scores@.to_multiset(),
        forall|i: int, j: int| 0 <= i < j < r@.len() ==> ranked(#[trigger] r@[i], #[trigger] r@[j]),
{
    broadcast use vstd::seq_lib::group_to_multiset_ensures;

    let n = scores.len();
    let mut r: Vec<(usize, u64)> = Vec::new();
    let mut i: usize = 0;
    proof {
        assert(scores@.take(0) =~= Seq::<(usize, u64)>::empty());
        assert(r@.to_multiset() =~= scores@.take(0).to_multiset());
    }
    while i < n
        invariant
            i <= n,
            n == scores@.len(),
            r@.len() == i,
            r@.to_multiset() == scores@.take(i as int).to_multiset(),
            forall|p: int, q: int|
                0 <= p < q < r@.len() ==> ranked(#[trigger] r@[p], #[trigger] r@[q]),
        decreases n - i,
    {
        let s = scores[i];
        let len0 = r.len();
        let mut pos: usize = 0;
        while pos < len0 && (r[pos].1 > s.1 || (r[pos].1 == s.1 && r[pos].0 <= s.0))
            invariant
                pos <= len0,
                len0 == r@.len(),
                forall|p: int| 0 <= p < pos ==> ranked(#[trigger] r@[p], s),
            decreases len0 - pos,
        {
            pos = pos + 1;
        }
        proof {
            if pos < len0 {
                assert(!ranked(r@[pos as int], s));
                assert(ranked(s, r@[pos as int]));
            }
        }
        let ghost prev = r@;
        r.insert(pos, s);
        proof {
            assert forall|p: int, q: int|
                0 <= p < q < r@.len() implies ranked(#[trigger] r@[p], #[trigger] r@[q]) by {
                if q < pos {
                    assert(r@[p] == prev[p]);
                    assert(r@[q] == prev[q]);
                } else if p < pos && q == pos {
                    assert(r@[p] == prev[p]);
                } else if p < pos && q > pos {
                    assert(r@[p] == prev[p]);
                    assert(r@[q] == prev[q - 1]);
                    if q - 1 == pos {
                        assert(ranked(r@[p], s));
                        assert(ranked(s, prev[pos as int]));
                    }
                } else if p == pos && q > pos {
                    assert(r@[q] == prev[q - 1]);
                    if q - 1 > pos {
                        assert(ranked(prev[pos as int], prev[q - 1]));
                    }
                } else {
                    assert(r@[p] == prev[p - 1]);
                    assert(r@[q] == prev[q - 1]);
                }
            }
            // multiset accounting for the insertion
            r@.to_multiset_ensures();
            prev.to_multiset_ensures();
            scores@.take(i as int).to_multiset_ensures();
            assert(r@.remove(pos as int) =~= prev);
            assert(0 <= pos < r@.len());
            assert(r@[pos as int] == s);
            assert(r@.remove(pos as int).to_multiset() =~= r@.to_multiset().remove(s));
            assert(r@.to_multiset().contains(s)) by {
                assert(r@.contains(s));
            }
            assert(r@.to_multiset() =~= prev.to_multiset().insert(s));
            assert(scores@.take(i + 1).drop_last() =~= scores@.take(i as int));
            assert(scores@.take(i + 1) =~= scores@.take(i as int).push(scores@[i as int]));
            assert(scores@.take(i + 1).to_multiset() =~= scores@.take(
                i as int,
            ).to_multiset().insert(scores@[i as int]));
        }
        i = i + 1;
    }
    proof {
        assert(scores@.take(n as int) =~= scores@);
    }
    r
}

/// The top `k` candidates: the ranking truncated to `k`, or to all
/// candidates when fewer exist.
pub fn select_top_k(scores: &Vec<(usize, u64)>, k: usize) -> (r: Vec<(usize, u64)>)
    ensures
        r@.len() == if k < scores@.len() {
            k as int
        } else {
            scores@.len() as int
        },
        exists|full: Seq<(usize, u64)>|
            #![trigger full.to_multiset()]
            full.to_multiset() == scores@.to_multiset() && (forall|i: int, j: int|
                0 <= i < j < full.len() ==> ranked(#[trigger] full[i], #[trigger] full[j]))
                && r@ == full.take(r@.len() as int),
{
    let mut full = rank_candidates(scores);
    let ghost full0 = full@;
    let m = if k < full.len() {
        k
    } else {
        full.len()
    };
    full.truncate(m);
    proof {
        assert(full@ == full0.take(m as int));
        assert(full0.to_multiset() == scores@.to_multiset());
    }
    full
}

/// A newline byte shown as a space inside a snippet window.
pub open spec fn soft_byte(b: u8) -> u8 {
    if b == 10 {
        32
    } else {
        b
    }
}

/// The snippet window around position `p` of the cleaned text: up to
/// `SNIPPET_OFFSET` bytes to each side, newlines shown as spaces.
pub open spec fn window_of(clean: Seq<u8>, p: int) -> Seq<u8> {
    let start = if p > SNIPPET_OFFSET {
        p - SNIPPET_OFFSET
    } else {
        0
    };
    let end = if p + SNIPPET_OFFSET > clean.len() {
        clean.len() as int
    } else {
        p + SNIPPET_OFFSET
    };
    clean.subrange(start, end).map_values(|b: u8| soft_byte(b))
}

/// The snippet anchored at position `p`: the window in ellipses.
pub open spec fn snippet_text(clean: Seq<u8>, p: int) -> Seq<char> {
    "..."@ + ascii_chars_of(window_of(clean, p)) + "..."@
}

/// The anchor position for a snippet: query token ids are tried in
/// descending order, and the first one whose stemmed form occurs in the
/// cleaned text anchors at its first occurrence.
pub open spec fn anchor_of(qtf: Seq<(usize, usize)>, lex: Seq<Seq<char>>, clean: Seq<u8>) -> Option<
    int,
>
    decreases qtf.len(),
{
    if qtf.len() == 0 {
        None
    } else {
        let t = qtf.last().0;
        if t < lex.len() && positions_of(clean, lex[t as int]).len() > 0 {
            Some(positions_of(clean, lex[t as int])[0])
        } else {
            anchor_of(qtf.drop_last(), lex, clean)
        }
    }
}

/// Extracts a snippet for one result: the query's terms are tried in
/// descending token-id order, and the first one that occurs in the
/// article's cleaned text anchors a fixed-width window around its first
/// occurrence.  When no query term occurs, the result carries no snippet
/// and is dropped by the caller.
#[verifier::loop_isolation(false)]
pub fn get_article_snippet(
    article_text: &String,
    query_token_freqs: &Vec<(usize, usize)>,
    lexicon: &Lexicon,
) -> (r: Result<String, IndexError>)
    ensures
        r matches Ok(s) ==> (anchor_of(query_token_freqs@, lexicon@, clean_of(article_text@))
            matches Some(p) && s@ == snippet_text(clean_of(article_text@), p)),
        r is Err <==> anchor_of(query_token_freqs@, lexicon@, clean_of(article_text@)) is None,
        r matches Err(e) ==> e == IndexError::NoSnippet,
{
    let twp = tokenize_with_positions(article_text);
    let cleaned = clean_text(article_text.as_str());
    let ghost clean = clean_of(article_text@);
    let ghost qtf = query_token_freqs@;
    let n = query_token_freqs.len();
    let mut k = n;
    proof {
        assert(qtf.take(n as int) =~= qtf);
    }
    while k > 0
        invariant
            k <= n,
            anchor_of(qtf, lexicon@, clean) == anchor_of(qtf.take(k as int), lexicon@, clean),
        decreases k,
    {
        k = k - 1;
        proof {
            assert(qtf.take(k + 1).drop_last() =~= qtf.take(k as int));
            assert(qtf.take(k + 1).last() == qtf[k as int]);
        }
        let tid = query_token_freqs[k].0;
        match lexicon.token_of(tid) {
            None => {
                proof {
                    assert(tid >= lexicon@.len());
                }
            },
            Some(token) => {
                let ghost w = lexicon@[tid as int];
                let m = twp.len();
                let mut j: usize = 0;
                while j < m
                    invariant
                        j <= m,
                        forall|q: int| 0 <= q < j ==> (#[trigger] twp@[q]).0@ != token@,
                    decreases m - j,
                {
                    if twp[j].0 == *token {
                        // this term occurs: anchor at its first occurrence
                        let positions = &twp[j].1;
                        proof {
                            assert(twp@[j as int].0@ == w);
                            assert(offsets_view(positions@) == positions_of(clean, w));
                            lemma_first_keys_complete(stemmed_runs_of(clean), w);
                            assert(first_keys(stemmed_runs_of(clean)).contains(w)) by {
                                assert(first_keys(stemmed_runs_of(clean))[j as int] == w);
                            }
                            assert(positions_of(clean, w).len() > 0);
                            assert(positions@.len() > 0);
                            lemma_positions_of_valid(clean, w);
                            assert(offsets_view(positions@)[0] == positions@[0] as int);
                            assert(0 <= positions@[0] < clean.len());
                        }
                        let p = positions[0];
                        let len = cleaned.len();
                        let start = if p > SNIPPET_OFFSET {
                            p - SNIPPET_OFFSET
                        } else {
                            0
                        };
                        let end = if len - p > SNIPPET_OFFSET {
                            p + SNIPPET_OFFSET
                        } else {
                            len
                        };
                        let mut out: Vec<u8> = Vec::new();
                        out.push(46);
                        out.push(46);
                        out.push(46);
                        let mut q = start;
                        proof {
                            assert(out@ =~= seq![46u8, 46u8, 46u8]);
                        }
                        while q < end
                            invariant
                                start <= q <= end,
                                out@ == seq![46u8, 46u8, 46u8] + clean.subrange(
                                    start as int,
                                    q as int,
                                ).map_values(|b: u8| soft_byte(b)),
                            decreases end - q,
                        {
                            let b = cleaned[q];
                            let sb = if b == 10 {
                                32
                            } else {
                                b
                            };
                            out.push(sb);
                            proof {
                                assert(clean.subrange(start as int, q + 1).drop_last()
                                    =~= clean.subrange(start as int, q as int));
                                assert(clean.subrange(start as int, q + 1).last()
                                    == clean[q as int]);
                                assert(clean.subrange(start as int, q + 1).map_values(
                                    |b2: u8| soft_byte(b2),
                                ) =~= clean.subrange(start as int, q as int).map_values(
                                    |b2: u8| soft_byte(b2),
                                ).push(soft_byte(clean[q as int])));
                                assert(out@ =~= seq![46u8, 46u8, 46u8] + clean.subrange(
                                    start as int,
                                    q + 1,
                                ).map_values(|b2: u8| soft_byte(b2)));
                            }
                            q = q + 1;
                        }
                        out.push(46);
                        out.push(46);
                        out.push(46);
                        proof {
                            lemma_clean_ascii(article_text@);
                            assert(all_ascii(out@)) by {
                                assert forall|z: int| 0 <= z < out@.len() implies out@[z]
                                    < 128 by {
                                    if 3 <= z < out@.len() - 3 {
                                        let wseq = clean.subrange(start as int, end as int);
                                        assert(out@[z] == soft_byte(wseq[z - 3]));
                                        assert(wseq[z - 3] == clean[start + z - 3]);
                                    }
                                }
                            }
                        }
                        let snippet = ascii_to_string(&out);
                        proof {
                            let p_int = positions@[0] as int;
                            assert(window_of(clean, p_int) =~= clean.subrange(
                                start as int,
                                end as int,
                            ).map_values(|b2: u8| soft_byte(b2)));
                            reveal_strlit("...");
                            assert("..."@ =~= ascii_chars_of(seq![46u8, 46u8, 46u8])) by {
                                assert("..."@.len() == 3);
                                assert("..."@[0] == '.');
                                assert('.' as u8 == 46);
                                assert(ascii_chars_of(seq![46u8, 46u8, 46u8])[0] == (
                                46u8 as char));
                                assert(('.' as u32) == 46);
                                assert((46u8 as char) as u32 == 46);
                                vstd::utf8::char_u32_cast('.', 46);
                            }
                            assert(out@ =~= seq![46u8, 46u8, 46u8] + clean.subrange(
                                start as int,
                                end as int,
                            ).map_values(|b2: u8| soft_byte(b2)) + seq![46u8, 46u8, 46u8]);
                            assert(snippet@ =~= snippet_text(clean, p_int));
                            assert(anchor_of(qtf.take(k + 1), lexicon@, clean) == Some(p_int));
                        }
                        return Ok(snippet);
                    }
                    j = j + 1;
                }
                // this term does not occur in the article
                proof {
                    lemma_first_keys_complete(stemmed_runs_of(clean), w);
                    assert(!first_keys(stemmed_runs_of(clean)).contains(w)) by {
                        if first_keys(stemmed_runs_of(clean)).contains(w) {
                            let q = choose|q: int|
                                0 <= q < first_keys(stemmed_runs_of(clean)).len() && first_keys(
                                    stemmed_runs_of(clean),
                                )[q] == w;
                            assert(twp@[q].0@ == w);
                        }
                    }
                    assert(positions_of(clean, w).len() == 0);
                }
            },
        }
    }
    proof {
        assert(qtf.take(0) =~= Seq::<(usize, usize)>::empty());
    }
    Err(IndexError::NoSnippet)
}

} // verus!
