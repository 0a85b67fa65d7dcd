//! The analyzer: folds text to lowercase ASCII, segments it on
//! non-alphanumeric characters, and stems each segment.
//!
//! Analysis is ASCII-only by design: non-ASCII characters are removed before
//! segmentation, so all downstream offsets are byte offsets into the cleaned
//! text.

use vstd::prelude::*;
use vstd::string::StrSliceExecFns;
use crate::strbytes::ascii_chars_of;

verus! {

/// Folds an ASCII uppercase letter to lowercase; leaves other bytes alone.
pub open spec fn fold_byte(b: u8) -> u8 {
    if 65 <= b <= 90 {
        (b + 32) as u8
    } else {
        b
    }
}

/// The cleaned form of a text: non-ASCII characters removed, ASCII letters
/// folded to lowercase, as a byte sequence.
pub open spec fn clean_of(s: Seq<char>) -> Seq<u8>
    decreases s.len(),
{
    if s.len() == 0 {
        Seq::empty()
    } else {
        let rest = clean_of(s.drop_last());
        if (s.last() as u32) < 128 {
            rest.push(fold_byte((s.last() as u32) as u8))
        } else {
            rest
        }
    }
}

/// Cleaned text is ASCII byte for byte.
pub proof fn lemma_clean_ascii(s: Seq<char>)
    ensures
        crate::strbytes::all_ascii(clean_of(s)),
    decreases s.len(),
{
    if s.len() > 0 {
        lemma_clean_ascii(s.drop_last());
        let rest = clean_of(s.drop_last());
        if (s.last() as u32) < 128 {
            assert forall|i: int| 0 <= i < clean_of(s).len() implies clean_of(s)[i] < 128 by {
                if i < rest.len() {
                    assert(clean_of(s)[i] == rest[i]);
                } else {
                    assert((s.last() as u32) < 128);
                    assert(((s.last() as u32) as u8) < 128);
                    assert(clean_of(s)[i] == fold_byte((s.last() as u32) as u8));
                }
            }
        }
    }
}

/// Whether a cleaned byte is alphanumeric (lowercase letter or digit).
pub open spec fn is_alnum(b: u8) -> bool {
    (97 <= b <= 122) || (48 <= b <= 57)
}

/// The maximal alphanumeric segments of `s` from position `pos` on, paired
/// with their start offsets, given that the segment `cur` beginning at
/// `cur_start` is still open.
pub open spec fn runs_from(s: Seq<u8>, pos: int, cur: Seq<u8>, cur_start: int) -> Seq<
    (Seq<u8>, int),
>
    decreases s.len(),
{
    if s.len() == 0 {
        if cur.len() == 0 {
            seq![]
        } else {
            seq![(cur, cur_start)]
        }
    } else if is_alnum(s[0]) {
        let start = if cur.len() == 0 {
            pos
        } else {
            cur_start
        };
        runs_from(s.drop_first(), pos + 1, cur.push(s[0]), start)
    } else if cur.len() == 0 {
        runs_from(s.drop_first(), pos + 1, seq![], 0)
    } else {
        seq![(cur, cur_start)] + runs_from(s.drop_first(), pos + 1, seq![], 0)
    }
}

/// The maximal alphanumeric segments of a cleaned text, with start offsets.
pub open spec fn runs_of(s: Seq<u8>) -> Seq<(Seq<u8>, int)> {
    runs_from(s, 0, seq![], 0)
}

/// What the English stemmer returns for one alphanumeric segment.
pub uninterp spec fn stem_of(run: Seq<u8>) -> Seq<char>;

/// The segments of a cleaned text after stemming, with their start offsets.
pub open spec fn stemmed_runs_of(s: Seq<u8>) -> Seq<(Seq<char>, int)> {
    runs_of(s).map_values(|r: (Seq<u8>, int)| (stem_of(r.0), r.1))
}

/// The token stream of a text: each alphanumeric segment of the cleaned
/// text, stemmed, in occurrence order.
pub open spec fn tokens_of(s: Seq<char>) -> Seq<Seq<char>> {
    runs_of(clean_of(s)).map_values(|r: (Seq<u8>, int)| stem_of(r.0))
}

/// A sequence of machine offsets, as mathematical integers.
pub open spec fn offsets_view(v: Seq<usize>) -> Seq<int> {
    v.map_values(|p: usize| p as int)
}

/// The start offsets of the segments among `prs` whose stemmed form is
/// `tok`, in segment order.
pub open spec fn poss(prs: Seq<(Seq<char>, int)>, tok: Seq<char>) -> Seq<int>
    decreases prs.len(),
{
    if prs.len() == 0 {
        seq![]
    } else {
        let rest = poss(prs.drop_last(), tok);
        if prs.last().0 == tok {
            rest.push(prs.last().1)
        } else {
            rest
        }
    }
}

/// The start offsets, in the cleaned text `s`, of the segments that stem to
/// `tok`.
pub open spec fn positions_of(s: Seq<u8>, tok: Seq<char>) -> Seq<int> {
    poss(stemmed_runs_of(s), tok)
}

/// The distinct stemmed tokens of `prs`, in first-occurrence order.
pub open spec fn first_keys(prs: Seq<(Seq<char>, int)>) -> Seq<Seq<char>>
    decreases prs.len(),
{
    if prs.len() == 0 {
        seq![]
    } else {
        let rest = first_keys(prs.drop_last());
        if rest.contains(prs.last().0) {
            rest
        } else {
            rest.push(prs.last().0)
        }
    }
}

/// A token is among the distinct tokens exactly when it occurs somewhere.
pub proof fn lemma_first_keys_complete(prs: Seq<(Seq<char>, int)>, tok: Seq<char>)
    ensures
        first_keys(prs).contains(tok) <==> poss(prs, tok).len() > 0,
    decreases prs.len(),
{
    if prs.len() > 0 {
        lemma_first_keys_complete(prs.drop_last(), tok);
        if prs.last().0 == tok {
            if !first_keys(prs.drop_last()).contains(tok) {
                assert(first_keys(prs).last() == tok);
            }
        } else {
            if first_keys(prs.drop_last()).contains(tok) {
                let i = choose|i: int|
                    0 <= i < first_keys(prs.drop_last()).len() && first_keys(prs.drop_last())[i]
                        == tok;
                assert(first_keys(prs)[i] == tok);
            } else {
                if first_keys(prs).contains(tok) {
                    let i = choose|i: int|
                        0 <= i < first_keys(prs).len() && first_keys(prs)[i] == tok;
                    if i < first_keys(prs.drop_last()).len() {
                        assert(first_keys(prs.drop_last())[i] == tok);
                    }
                }
            }
        }
    }
}

/// The distinct tokens carry no repetition.
pub proof fn lemma_first_keys_distinct(prs: Seq<(Seq<char>, int)>)
    ensures
        forall|i: int, j: int|
            0 <= i < j < first_keys(prs).len() ==> first_keys(prs)[i] != first_keys(prs)[j],
    decreases prs.len(),
{
    if prs.len() > 0 {
        lemma_first_keys_distinct(prs.drop_last());
        let rest = first_keys(prs.drop_last());
        if !rest.contains(prs.last().0) {
            assert forall|i: int, j: int|
                0 <= i < j < first_keys(prs).len() implies first_keys(prs)[i] != first_keys(
                prs,
            )[j] by {
                if j == first_keys(prs).len() - 1 {
                    assert(first_keys(prs)[i] == rest[i]);
                    assert(!rest.contains(first_keys(prs)[j]));
                }
            }
        }
    }
}

/// The smallest start offset a segment produced by `runs_from` can carry.
pub open spec fn min_start(pos: int, cur: Seq<u8>, cur_start: int) -> int {
    if cur.len() == 0 {
        pos
    } else {
        cur_start
    }
}

/// Segments are non-empty, lie inside the text, and do not overlap.
pub proof fn lemma_runs_from_range(s: Seq<u8>, pos: int, cur: Seq<u8>, cur_start: int)
    requires
        pos >= 0,
        cur.len() > 0 ==> cur_start >= 0 && cur_start + cur.len() == pos,
    ensures
        forall|i: int|
            0 <= i < runs_from(s, pos, cur, cur_start).len() ==> {
                let r = #[trigger] runs_from(s, pos, cur, cur_start)[i];
                r.0.len() > 0 && r.1 >= min_start(pos, cur, cur_start) && r.1 + r.0.len() <= pos
                    + s.len()
            },
        forall|i: int, j: int|
            0 <= i < j < runs_from(s, pos, cur, cur_start).len()
                ==> #[trigger] runs_from(s, pos, cur, cur_start)[i].1 + runs_from(
                s,
                pos,
                cur,
                cur_start,
            )[i].0.len() <= #[trigger] runs_from(s, pos, cur, cur_start)[j].1,
    decreases s.len(),
{
    if s.len() == 0 {
    } else if is_alnum(s[0]) {
        let start = if cur.len() == 0 {
            pos
        } else {
            cur_start
        };
        lemma_runs_from_range(s.drop_first(), pos + 1, cur.push(s[0]), start);
        assert(runs_from(s, pos, cur, cur_start) == runs_from(
            s.drop_first(),
            pos + 1,
            cur.push(s[0]),
            start,
        ));
    } else if cur.len() == 0 {
        lemma_runs_from_range(s.drop_first(), pos + 1, seq![], 0);
        assert(runs_from(s, pos, cur, cur_start) == runs_from(s.drop_first(), pos + 1, seq![], 0));
    } else {
        lemma_runs_from_range(s.drop_first(), pos + 1, seq![], 0);
        let rest = runs_from(s.drop_first(), pos + 1, seq![], 0);
        let whole = runs_from(s, pos, cur, cur_start);
        assert forall|i: int| 0 <= i < whole.len() implies {
            let r = #[trigger] whole[i];
            r.0.len() > 0 && r.1 >= min_start(pos, cur, cur_start) && r.1 + r.0.len() <= pos
                + s.len()
        } by {
            if i > 0 {
                assert(whole[i] == rest[i - 1]);
            }
        }
        assert forall|i: int, j: int| 0 <= i < j < whole.len() implies #[trigger] whole[i].1
            + whole[i].0.len() <= #[trigger] whole[j].1 by {
            if i > 0 {
                assert(whole[i] == rest[i - 1]);
            }
            assert(whole[j] == rest[j - 1]);
        }
    }
}

/// The segments of a cleaned text are non-empty, lie inside the text, and
/// appear in strictly increasing position order.
pub proof fn lemma_runs_of_range(s: Seq<u8>)
    ensures
        forall|i: int|
            0 <= i < runs_of(s).len() ==> {
                let r = #[trigger] runs_of(s)[i];
                r.0.len() > 0 && r.1 >= 0 && r.1 + r.0.len() <= s.len()
            },
        forall|i: int, j: int|
            0 <= i < j < runs_of(s).len() ==> #[trigger] runs_of(s)[i].1 < #[trigger] runs_of(
                s,
            )[j].1,
{
    lemma_runs_from_range(s, 0, seq![], 0);
}

/// Occurrence positions of one token come in strictly increasing order, and
/// each is the position of a segment bearing that token.
proof fn lemma_poss_sorted(prs: Seq<(Seq<char>, int)>, tok: Seq<char>)
    requires
        forall|i: int, j: int| 0 <= i < j < prs.len() ==> #[trigger] prs[i].1 < #[trigger] prs[j].1,
    ensures
        forall|k: int, l: int|
            0 <= k < l < poss(prs, tok).len() ==> #[trigger] poss(prs, tok)[k]
                < #[trigger] poss(prs, tok)[l],
        forall|k: int|
            0 <= k < poss(prs, tok).len() ==> exists|i: int|
                0 <= i < prs.len() && #[trigger] poss(prs, tok)[k] == prs[i].1 && prs[i].0 == tok,
        poss(prs, tok).len() > 0 && prs.len() > 0 ==> poss(prs, tok).last() <= prs.last().1,
    decreases prs.len(),
{
    if prs.len() > 0 {
        let rest = prs.drop_last();
        lemma_poss_sorted(rest, tok);
        assert forall|k: int| 0 <= k < poss(prs, tok).len() implies exists|i: int|
            0 <= i < prs.len() && #[trigger] poss(prs, tok)[k] == prs[i].1 && prs[i].0
                == tok by {
            if k < poss(rest, tok).len() {
                let i = choose|i: int|
                    0 <= i < rest.len() && poss(rest, tok)[k] == prs[i].1 && rest[i].0 == tok;
                assert(0 <= i < prs.len() && poss(prs, tok)[k] == prs[i].1 && prs[i].0 == tok);
            } else {
                let i = prs.len() - 1;
                assert(0 <= i < prs.len() && poss(prs, tok)[k] == prs[i].1 && prs[i].0 == tok);
            }
        }
    }
}

/// The positions reported for any token are strictly increasing and index
/// into the cleaned text.
pub proof fn lemma_positions_of_valid(s: Seq<u8>, tok: Seq<char>)
    ensures
        forall|k: int, l: int|
            0 <= k < l < positions_of(s, tok).len() ==> #[trigger] positions_of(s, tok)[k]
                < #[trigger] positions_of(s, tok)[l],
        forall|k: int|
            0 <= k < positions_of(s, tok).len() ==> 0 <= #[trigger] positions_of(s, tok)[k]
                < s.len(),
{
    lemma_runs_of_range(s);
    let prs = stemmed_runs_of(s);
    assert forall|i: int, j: int| 0 <= i < j < prs.len() implies #[trigger] prs[i].1
        < #[trigger] prs[j].1 by {
        assert(prs[i].1 == runs_of(s)[i].1);
        assert(prs[j].1 == runs_of(s)[j].1);
    }
    lemma_poss_sorted(prs, tok);
    assert forall|k: int| 0 <= k < positions_of(s, tok).len() implies 0 <= #[trigger] positions_of(
        s,
        tok,
    )[k] < s.len() by {
        let i = choose|i: int|
            0 <= i < prs.len() && poss(prs, tok)[k] == prs[i].1 && prs[i].0 == tok;
        assert(prs[i].1 == runs_of(s)[i].1);
        assert(runs_of(s)[i].0.len() > 0);
        assert(runs_of(s)[i].1 + runs_of(s)[i].0.len() <= s.len());
    }
}

/// Relies on `rust_stemmers`: `Stemmer::create(Algorithm::English)` selects
/// the English Snowball algorithm, a function pointer applied to the input
/// alone, so `stem` is a pure function of the segment's bytes.
#[verifier::external_body]
fn stem_word(run: &Vec<u8>) -> (r: String)
    ensures
        r@ == stem_of(run@),
{
    let word = String::from_utf8_lossy(run).into_owned();
    let stemmer = rust_stemmers::Stemmer::create(rust_stemmers::Algorithm::English);
    stemmer.stem(&word).into_owned()
}

/// Cleans a text: drops non-ASCII characters and folds the rest to
/// lowercase.
pub fn clean_text(text: &str) -> (out: Vec<u8>)
    ensures
        out@ == clean_of(text@),
{
    let n = text.unicode_len();
    let mut out: Vec<u8> = Vec::new();
    let mut i: usize = 0;
    proof {
        assert(text@.take(0) =~= Seq::<char>::empty());
    }
    while i < n
        invariant
            i <= n,
            n == text@.len(),
            out@ == clean_of(text@.take(i as int)),
        decreases n - i,
    {
        let c = text.get_char(i);
        proof {
            assert(text@.take(i + 1).drop_last() =~= text@.take(i as int));
            assert(text@.take(i + 1).last() == text@[i as int]);
        }
        let u = c as u32;
        if u < 128 {
            let b = u as u8;
            let f = if 65 <= b && b <= 90 {
                b + 32
            } else {
                b
            };
            out.push(f);
        }
        i = i + 1;
    }
    proof {
        assert(text@.take(n as int) =~= text@);
    }
    out
}

/// Scans a cleaned text into its stemmed segments, each with the byte
/// offset at which its source segment begins.
pub fn scan_runs(cleaned: &Vec<u8>) -> (out: Vec<(String, usize)>)
    ensures
        out@.len() == runs_of(cleaned@).len(),
        forall|i: int|
            0 <= i < out@.len() ==> out@[i].0@ == #[trigger] stemmed_runs_of(cleaned@)[i].0
                && out@[i].1 as int == stemmed_runs_of(cleaned@)[i].1,
{
    let n = cleaned.len();
    let mut out: Vec<(String, usize)> = Vec::new();
    let ghost mut emitted: Seq<(Seq<u8>, int)> = Seq::empty();
    let mut cur: Vec<u8> = Vec::new();
    let mut cur_start: usize = 0;
    let mut i: usize = 0;
    proof {
        assert(cleaned@.skip(0) =~= cleaned@);
        assert(emitted + runs_from(cleaned@, 0, cur@, 0) =~= runs_of(cleaned@));
    }
    while i < n
        invariant
            i <= n,
            n == cleaned@.len(),
            runs_of(cleaned@) == emitted + runs_from(
                cleaned@.skip(i as int),
                i as int,
                cur@,
                cur_start as int,
            ),
            cur@.len() == 0 ==> cur_start == 0,
            cur@.len() > 0 ==> cur_start + cur@.len() == i,
            out@.len() == emitted.len(),
            forall|j: int|
                0 <= j < out@.len() ==> out@[j].0@ == stem_of(#[trigger] emitted[j].0)
                    && out@[j].1 as int == emitted[j].1,
        decreases n - i,
    {
        let b = cleaned[i];
        proof {
            assert(cleaned@.skip(i as int).drop_first() =~= cleaned@.skip(i + 1));
            assert(cleaned@.skip(i as int)[0] == cleaned@[i as int]);
        }
        if (97 <= b && b <= 122) || (48 <= b && b <= 57) {
            if cur.len() == 0 {
                cur_start = i;
            }
            cur.push(b);
            proof {
                assert(runs_of(cleaned@) =~= emitted + runs_from(
                    cleaned@.skip(i + 1),
                    i + 1,
                    cur@,
                    cur_start as int,
                ));
            }
        } else {
            if cur.len() == 0 {
                proof {
                    assert(cur@ =~= Seq::<u8>::empty());
                    assert(runs_of(cleaned@) =~= emitted + runs_from(
                        cleaned@.skip(i + 1),
                        i + 1,
                        cur@,
                        cur_start as int,
                    ));
                }
            }
            if cur.len() > 0 {
                let stemmed = stem_word(&cur);
                proof {
                    emitted = emitted + seq![(cur@, cur_start as int)];
                }
                out.push((stemmed, cur_start));
                cur = Vec::new();
                cur_start = 0;
                proof {
                    assert(runs_of(cleaned@) =~= emitted + runs_from(
                        cleaned@.skip(i + 1),
                        i + 1,
                        cur@,
                        0,
                    ));
                }
            }
        }
        i = i + 1;
    }
    proof {
        assert(cleaned@.skip(n as int) =~= Seq::<u8>::empty());
    }
    if cur.len() > 0 {
        let stemmed = stem_word(&cur);
        proof {
            emitted = emitted + seq![(cur@, cur_start as int)];
        }
        out.push((stemmed, cur_start));
    }
    proof {
        assert(runs_of(cleaned@) =~= emitted);
        assert forall|j: int| 0 <= j < out@.len() implies out@[j].0@
            == #[trigger] stemmed_runs_of(cleaned@)[j].0 && out@[j].1 as int == stemmed_runs_of(
            cleaned@,
        )[j].1 by {
            assert(stemmed_runs_of(cleaned@)[j].0 == stem_of(runs_of(cleaned@)[j].0));
            assert(stemmed_runs_of(cleaned@)[j].1 == runs_of(cleaned@)[j].1);
        }
    }
    out
}

/// Analyzes a text into its token stream: lowercases, strips non-ASCII,
/// splits on non-alphanumerics, and stems each segment, in occurrence
/// order.  The stream's length is the text's token count.
pub fn tokenize(text: &String) -> (tokens: Vec<String>)
    ensures
        tokens@.len() == tokens_of(text@).len(),
        forall|i: int| 0 <= i < tokens@.len() ==> tokens@[i]@ == #[trigger] tokens_of(text@)[i],
{
    let cleaned = clean_text(text.as_str());
    let runs = scan_runs(&cleaned);
    let mut tokens: Vec<String> = Vec::new();
    let mut i: usize = 0;
    let n = runs.len();
    while i < n
        invariant
            i <= n,
            n == runs@.len(),
            tokens@.len() == i,
            forall|j: int|
                0 <= j < i ==> tokens@[j]@ == #[trigger] runs@[j].0@,
        decreases n - i,
    {
        tokens.push(runs[i].0.clone());
        i = i + 1;
    }
    proof {
        assert forall|j: int| 0 <= j < tokens@.len() implies tokens@[j]@ == #[trigger] tokens_of(
            text@,
        )[j] by {
            assert(runs@[j].0@ == stemmed_runs_of(cleaned@)[j].0);
            assert(stemmed_runs_of(cleaned@)[j].0 == stem_of(runs_of(cleaned@)[j].0));
            assert(tokens_of(text@)[j] == stem_of(runs_of(clean_of(text@))[j].0));
        }
    }
    tokens
}

/// Analyzes a text as [`tokenize`] does, but returns each distinct token
/// (in first-occurrence order) with the start offsets, in the cleaned text,
/// of the segments it was stemmed from.
pub fn tokenize_with_positions(text: &String) -> (out: Vec<(String, Vec<usize>)>)
    ensures
        out@.len() == first_keys(stemmed_runs_of(clean_of(text@))).len(),
        forall|j: int|
            0 <= j < out@.len() ==> #[trigger] out@[j].0@ == first_keys(
                stemmed_runs_of(clean_of(text@)),
            )[j],
        forall|j: int|
            0 <= j < out@.len() ==> #[trigger] offsets_view(out@[j].1@) == positions_of(
                clean_of(text@),
                out@[j].0@,
            ),
        forall|j: int, k: int, l: int|
            #![trigger out@[j].1@[k], out@[j].1@[l]]
            0 <= j < out@.len() && 0 <= k < l < out@[j].1@.len() ==> out@[j].1@[k]
                < out@[j].1@[l],
        forall|j: int, l: int| 0 <= j < l < out@.len() ==> out@[j].0@ != out@[l].0@,
{
    let cleaned = clean_text(text.as_str());
    let runs = scan_runs(&cleaned);
    let ghost prs = stemmed_runs_of(cleaned@);
    let n = runs.len();
    let mut out: Vec<(String, Vec<usize>)> = Vec::new();
    let mut i: usize = 0;
    proof {
        assert(prs.take(0) =~= Seq::<(Seq<char>, int)>::empty());
    }
    while i < n
        invariant
            i <= n,
            n == runs@.len(),
            prs == stemmed_runs_of(cleaned@),
            n == prs.len(),
            forall|j: int|
                0 <= j < n ==> #[trigger] runs@[j].0@ == prs[j].0 && runs@[j].1 as int
                    == prs[j].1,
            out@.len() == first_keys(prs.take(i as int)).len(),
            forall|j: int|
                0 <= j < out@.len() ==> #[trigger] out@[j].0@ == first_keys(
                    prs.take(i as int),
                )[j],
            forall|j: int|
                0 <= j < out@.len() ==> #[trigger] offsets_view(out@[j].1@) == poss(
                    prs,
                    out@[j].0@,
                ),
        decreases n - i,
    {
        proof {
            assert(prs.take(i + 1).drop_last() =~= prs.take(i as int));
            assert(prs.take(i + 1).last() == prs[i as int]);
        }
        let m = out.len();
        let mut found = false;
        let mut k: usize = 0;
        while k < m
            invariant
                k <= m,
                m == out@.len(),
                i < n == runs@.len(),
                found <==> exists|j: int| 0 <= j < k && #[trigger] out@[j].0@ == runs@[i as int].0@,
            decreases m - k,
        {
            if out[k].0 == runs[i].0 {
                found = true;
            }
            k = k + 1;
        }
        if !found {
            // first occurrence of this token: gather all its positions
            let mut ps: Vec<usize> = Vec::new();
            let mut j: usize = 0;
            proof {
                assert(prs.take(0) =~= Seq::<(Seq<char>, int)>::empty());
                assert(offsets_view(ps@) =~= poss(prs.take(0), prs[i as int].0));
            }
            while j < n
                invariant
                    j <= n,
                    i < n == runs@.len(),
                    n == prs.len(),
                    forall|q: int|
                        0 <= q < n ==> #[trigger] runs@[q].0@ == prs[q].0 && runs@[q].1 as int
                            == prs[q].1,
                    offsets_view(ps@) == poss(prs.take(j as int), prs[i as int].0),
                decreases n - j,
            {
                proof {
                    assert(prs.take(j + 1).drop_last() =~= prs.take(j as int));
                    assert(prs.take(j + 1).last() == prs[j as int]);
                }
                if runs[j].0 == runs[i].0 {
                    ps.push(runs[j].1);
                    proof {
                        assert(offsets_view(ps@) =~= offsets_view(ps@.drop_last()).push(
                            ps@.last() as int,
                        ));
                    }
                }
                j = j + 1;
            }
            proof {
                assert(prs.take(n as int) =~= prs);
            }
            proof {
                assert(!first_keys(prs.take(i as int)).contains(prs[i as int].0)) by {
                    if first_keys(prs.take(i as int)).contains(prs[i as int].0) {
                        let q = choose|q: int|
                            0 <= q < first_keys(prs.take(i as int)).len() && first_keys(
                                prs.take(i as int),
                            )[q] == prs[i as int].0;
                        assert(out@[q].0@ == first_keys(prs.take(i as int))[q]);
                        assert(out@[q].0@ == runs@[i as int].0@);
                    }
                }
            }
            let ghost old_out = out@;
            out.push((runs[i].0.clone(), ps));
            proof {
                assert(first_keys(prs.take(i + 1)) =~= first_keys(prs.take(i as int)).push(
                    prs[i as int].0,
                ));
                assert forall|j: int| 0 <= j < out@.len() implies #[trigger] out@[j].0@
                    == first_keys(prs.take(i + 1))[j] by {
                    if j == out@.len() - 1 {
                        assert(out@[j].0@ == runs@[i as int].0@);
                    } else {
                        assert(out@[j] == old_out[j]);
                        assert(old_out[j].0@ == first_keys(prs.take(i as int))[j]);
                    }
                }
            }
        } else {
            proof {
                let q = choose|j: int| 0 <= j < m && #[trigger] out@[j].0@ == runs@[i as int].0@;
                assert(first_keys(prs.take(i as int))[q] == prs[i as int].0);
                assert(first_keys(prs.take(i as int)).contains(prs[i as int].0));
                assert(first_keys(prs.take(i + 1)) =~= first_keys(prs.take(i as int)));
            }
        }
        i = i + 1;
    }
    proof {
        assert(prs.take(n as int) =~= prs);
        lemma_first_keys_distinct(prs);
        assert forall|j: int, k: int, l: int|
            0 <= j < out@.len() && 0 <= k < l < out@[j].1@.len() implies #[trigger] out@[j].1@[k]
            < #[trigger] out@[j].1@[l] by {
            lemma_positions_of_valid(cleaned@, out@[j].0@);
            assert(offsets_view(out@[j].1@)[k] == out@[j].1@[k] as int);
            assert(offsets_view(out@[j].1@)[l] == out@[j].1@[l] as int);
            assert(positions_of(cleaned@, out@[j].0@)[k] < positions_of(cleaned@, out@[j].0@)[l]);
        }
    }
    out
}

/// The words of a cleaned text: its segments, without their positions.
pub open spec fn words_of(s: Seq<u8>) -> Seq<Seq<u8>> {
    runs_of(s).map_values(|r: (Seq<u8>, int)| r.0)
}

/// Words joined by single spaces.
pub open spec fn join_words(ws: Seq<Seq<u8>>) -> Seq<u8>
    decreases ws.len(),
{
    if ws.len() == 0 {
        seq![]
    } else if ws.len() == 1 {
        ws[0]
    } else {
        ws[0] + seq![32u8] + join_words(ws.drop_first())
    }
}

/// A leading run of alphanumerics extends the open segment whole.
proof fn lemma_runs_absorb(w: Seq<u8>, rest: Seq<u8>, pos: int, cur: Seq<u8>, cur_start: int)
    requires
        w.len() > 0,
        forall|i: int| 0 <= i < w.len() ==> is_alnum(#[trigger] w[i]),
    ensures
        runs_from(w + rest, pos, cur, cur_start) == runs_from(
            rest,
            pos + w.len(),
            cur + w,
            if cur.len() == 0 {
                pos
            } else {
                cur_start
            },
        ),
    decreases w.len(),
{
    let s = w + rest;
    assert(s[0] == w[0]);
    assert(is_alnum(s[0]));
    assert(s.drop_first() =~= w.drop_first() + rest);
    let start = if cur.len() == 0 {
        pos
    } else {
        cur_start
    };
    if w.len() == 1 {
        assert(w.drop_first() + rest =~= rest);
        assert(cur.push(w[0]) =~= cur + w);
    } else {
        assert(forall|i: int|
            0 <= i < w.drop_first().len() ==> is_alnum(#[trigger] w.drop_first()[i]));
        lemma_runs_absorb(w.drop_first(), rest, pos + 1, cur.push(w[0]), start);
        assert(cur.push(w[0]) + w.drop_first() =~= cur + w);
    }
}

/// A space closes the open segment.
proof fn lemma_runs_sep(rest: Seq<u8>, pos: int, cur: Seq<u8>, cur_start: int)
    requires
        cur.len() > 0,
    ensures
        runs_from(seq![32u8] + rest, pos, cur, cur_start) == seq![(cur, cur_start)] + runs_from(
            rest,
            pos + 1,
            seq![],
            0,
        ),
{
    let s = seq![32u8] + rest;
    assert(s[0] == 32);
    assert(!is_alnum(32));
    assert(s.drop_first() =~= rest);
}

/// Joined clean words segment back into exactly those words.
proof fn lemma_words_join(ws: Seq<Seq<u8>>, pos: int)
    requires
        forall|k: int|
            0 <= k < ws.len() ==> (#[trigger] ws[k]).len() > 0 && (forall|i: int|
                0 <= i < ws[k].len() ==> is_alnum(#[trigger] ws[k][i])),
    ensures
        runs_from(join_words(ws), pos, seq![], 0).map_values(|r: (Seq<u8>, int)| r.0) == ws,
    decreases ws.len(),
{
    if ws.len() == 0 {
        assert(runs_from(join_words(ws), pos, seq![], 0).map_values(|r: (Seq<u8>, int)| r.0)
            =~= ws);
    } else if ws.len() == 1 {
        assert(join_words(ws) == ws[0]);
        assert(ws[0] + Seq::<u8>::empty() =~= ws[0]);
        assert(ws[0].len() > 0);
        lemma_runs_absorb(ws[0], Seq::<u8>::empty(), pos, seq![], 0);
        assert(Seq::<u8>::empty() + ws[0] =~= ws[0]);
        assert(runs_from(Seq::<u8>::empty(), pos + ws[0].len(), ws[0], pos) =~= seq![
            (ws[0], pos),
        ]);
        assert(runs_from(join_words(ws), pos, seq![], 0).map_values(|r: (Seq<u8>, int)| r.0)
            =~= ws);
    } else {
        let rest_ws = ws.drop_first();
        assert(forall|k: int|
            0 <= k < rest_ws.len() ==> (#[trigger] rest_ws[k]) == ws[k + 1]);
        let tail = seq![32u8] + join_words(rest_ws);
        assert(join_words(ws) == ws[0] + seq![32u8] + join_words(rest_ws));
        assert(ws[0] + seq![32u8] + join_words(rest_ws) =~= ws[0] + tail);
        assert(ws[0].len() > 0);
        lemma_runs_absorb(ws[0], tail, pos, seq![], 0);
        assert(Seq::<u8>::empty() + ws[0] =~= ws[0]);
        lemma_runs_sep(join_words(rest_ws), pos + ws[0].len(), ws[0], pos);
        lemma_words_join(rest_ws, pos + ws[0].len() + 1);
        assert(runs_from(join_words(ws), pos, seq![], 0) == runs_from(ws[0] + tail, pos, seq![], 0));
        assert(runs_from(ws[0] + tail, pos, seq![], 0) == runs_from(
            tail,
            pos + ws[0].len(),
            Seq::<u8>::empty() + ws[0],
            pos,
        ));
        assert(runs_from(tail, pos + ws[0].len(), Seq::<u8>::empty() + ws[0], pos) == runs_from(
            tail,
            pos + ws[0].len(),
            ws[0],
            pos,
        ));
        assert(runs_from(tail, pos + ws[0].len(), ws[0], pos) == seq![(ws[0], pos)] + runs_from(
            join_words(rest_ws),
            pos + ws[0].len() + 1,
            seq![],
            0,
        ));
        assert(runs_from(join_words(ws), pos, seq![], 0) == seq![(ws[0], pos)] + runs_from(
            join_words(rest_ws),
            pos + ws[0].len() + 1,
            seq![],
            0,
        ));
        let combined = seq![(ws[0], pos)] + runs_from(
            join_words(rest_ws),
            pos + ws[0].len() + 1,
            seq![],
            0,
        );
        let rest_runs = runs_from(join_words(rest_ws), pos + ws[0].len() + 1, seq![], 0);
        assert(rest_runs.map_values(|r: (Seq<u8>, int)| r.0) == rest_ws);
        assert forall|k: int|
            0 <= k < combined.len() implies combined.map_values(|r: (Seq<u8>, int)| r.0)[k]
                == #[trigger] ws[k] by {
            if k == 0 {
                assert(combined[0] == (ws[0], pos));
            } else {
                assert(combined[k] == rest_runs[k - 1]);
                assert(rest_runs.map_values(|r: (Seq<u8>, int)| r.0)[k - 1] == rest_ws[k - 1]);
                assert(rest_ws[k - 1] == ws[k]);
            }
        }
        assert(combined.map_values(|r: (Seq<u8>, int)| r.0) =~= ws);
        assert(runs_from(join_words(ws), pos, seq![], 0).map_values(|r: (Seq<u8>, int)| r.0)
            =~= ws);
    }
}

/// Every byte of joined clean words is clean: ASCII and not uppercase.
proof fn lemma_join_bytes(ws: Seq<Seq<u8>>)
    requires
        forall|k: int|
            0 <= k < ws.len() ==> (#[trigger] ws[k]).len() > 0 && (forall|i: int|
                0 <= i < ws[k].len() ==> is_alnum(#[trigger] ws[k][i])),
    ensures
        forall|i: int|
            0 <= i < join_words(ws).len() ==> (#[trigger] join_words(ws)[i]) < 128 && !(65
                <= join_words(ws)[i] <= 90),
    decreases ws.len(),
{
    if ws.len() == 0 {
    } else if ws.len() == 1 {
        assert forall|i: int|
            0 <= i < join_words(ws).len() implies (#[trigger] join_words(ws)[i]) < 128 && !(65
                <= join_words(ws)[i] <= 90) by {
            assert(join_words(ws)[i] == ws[0][i]);
            assert(is_alnum(ws[0][i]));
        }
    } else {
        let rest_ws = ws.drop_first();
        assert(forall|k: int|
            0 <= k < rest_ws.len() ==> (#[trigger] rest_ws[k]) == ws[k + 1]);
        lemma_join_bytes(rest_ws);
        let j = join_words(ws);
        let l0 = ws[0].len() as int;
        assert forall|i: int| 0 <= i < j.len() implies (#[trigger] j[i]) < 128 && !(65 <= j[i]
            <= 90) by {
            if i < l0 {
                assert(j[i] == ws[0][i]);
                assert(is_alnum(ws[0][i]));
            } else if i == l0 {
                assert(j[i] == 32);
            } else {
                assert(j[i] == join_words(rest_ws)[i - l0 - 1]);
            }
        }
    }
}

/// Cleaning is a fixed point on bytes that are already clean.
pub proof fn lemma_clean_fixed(s: Seq<u8>)
    requires
        forall|i: int| 0 <= i < s.len() ==> (#[trigger] s[i]) < 128 && !(65 <= s[i] <= 90),
    ensures
        clean_of(ascii_chars_of(s)) == s,
    decreases s.len(),
{
    if s.len() > 0 {
        lemma_clean_fixed(s.drop_last());
        let cs = ascii_chars_of(s);
        assert(cs.drop_last() =~= ascii_chars_of(s.drop_last()));
        assert(cs.last() == (s.last() as char));
        assert(((s.last() as char) as u32) == s.last());
        assert((((s.last() as char) as u32) as u8) == s.last());
        assert(fold_byte((((s.last() as char) as u32) as u8)) == s.last());
        assert(clean_of(cs) =~= s);
    }
}

/// Idempotent analysis, up to stemming: a text that is already a
/// space-joined sequence of clean alphanumeric words re-analyzes into
/// exactly those words, each stemmed once.  Cleaning and segmentation
/// reach a fixed point after one application; whether the stemmer maps
/// its own output to itself is a property of the stemmer alone and is
/// not stated here.
pub proof fn lemma_analysis_idempotent(ws: Seq<Seq<u8>>)
    requires
        forall|k: int|
            0 <= k < ws.len() ==> (#[trigger] ws[k]).len() > 0 && (forall|i: int|
                0 <= i < ws[k].len() ==> is_alnum(#[trigger] ws[k][i])),
    ensures
        words_of(join_words(ws)) == ws,
        tokens_of(ascii_chars_of(join_words(ws))) == ws.map_values(|w: Seq<u8>| stem_of(w)),
{
    lemma_join_bytes(ws);
    lemma_clean_fixed(join_words(ws));
    lemma_words_join(ws, 0);
    assert(words_of(join_words(ws)) == ws);
    assert forall|k: int|
        0 <= k < ws.len() implies #[trigger] tokens_of(ascii_chars_of(join_words(ws)))[k]
            == ws.map_values(|w: Seq<u8>| stem_of(w))[k] by {
        assert(tokens_of(ascii_chars_of(join_words(ws)))[k] == stem_of(
            runs_of(join_words(ws))[k].0,
        ));
        assert(words_of(join_words(ws))[k] == runs_of(join_words(ws))[k].0);
    }
    assert(tokens_of(ascii_chars_of(join_words(ws))) =~= ws.map_values(|w: Seq<u8>| stem_of(w)));
}

} // verus!
