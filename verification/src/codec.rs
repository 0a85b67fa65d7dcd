//! The binary on-disk maps: `article_lengths.bin` (integer keys to integer
//! values) and `lexicon.bin` (dense token ids to tokens).  Both are
//! length-prefixed little-endian records; the scheme is a private contract
//! between the writer and the reader of one index.

use vstd::prelude::*;
use vstd::bytes::{spec_u64_from_le_bytes, spec_u64_to_le_bytes, u64_from_le_bytes, u64_to_le_bytes};
use vstd::bytes::lemma_auto_spec_u64_to_from_le_bytes;
use vstd::slice::{slice_subrange, slice_to_vec};
use vstd::utf8::{decode_utf8, encode_utf8, valid_utf8};
use crate::common::IndexError;
use crate::strbytes::string_from_utf8;

verus! {

/// The encoded pairs of an integer map, in entry order.
pub open spec fn encode_pairs(ps: Seq<(usize, usize)>) -> Seq<u8>
    decreases ps.len(),
{
    if ps.len() == 0 {
        seq![]
    } else {
        spec_u64_to_le_bytes(ps[0].0 as u64) + spec_u64_to_le_bytes(ps[0].1 as u64) + encode_pairs(
            ps.drop_first(),
        )
    }
}

/// The encoded form of an integer map: entry count, then the entries.
pub open spec fn encode_len_map_spec(ps: Seq<(usize, usize)>) -> Seq<u8> {
    spec_u64_to_le_bytes(ps.len() as u64) + encode_pairs(ps)
}

/// Decodes `n` pairs from `s`, refusing truncated input, oversized values
/// and trailing bytes.
pub open spec fn decode_pairs(s: Seq<u8>, n: nat, acc: Seq<(usize, usize)>) -> Option<
    Seq<(usize, usize)>,
>
    decreases n,
{
    if n == 0 {
        if s.len() == 0 {
            Some(acc)
        } else {
            None
        }
    } else if s.len() < 16 {
        None
    } else {
        let k = spec_u64_from_le_bytes(s.subrange(0, 8));
        let v = spec_u64_from_le_bytes(s.subrange(8, 16));
        if k <= usize::MAX && v <= usize::MAX {
            decode_pairs(s.skip(16), (n - 1) as nat, acc.push((k as usize, v as usize)))
        } else {
            None
        }
    }
}

/// The integer map held by encoded bytes, or `None` when they are not an
/// encoding.
pub open spec fn decode_len_map_spec(s: Seq<u8>) -> Option<Seq<(usize, usize)>> {
    if s.len() < 8 {
        None
    } else {
        decode_pairs(s.skip(8), spec_u64_from_le_bytes(s.subrange(0, 8)) as nat, seq![])
    }
}

/// Decoding an encoded integer map gives back its entries.
proof fn lemma_decode_encode_pairs(ps: Seq<(usize, usize)>, acc: Seq<(usize, usize)>)
    ensures
        decode_pairs(encode_pairs(ps), ps.len(), acc) == Some(acc + ps),
    decreases ps.len(),
{
    lemma_auto_spec_u64_to_from_le_bytes();
    let s = encode_pairs(ps);
    if ps.len() == 0 {
        assert(s.len() == 0);
        assert(acc + ps =~= acc);
    } else {
        let k = spec_u64_to_le_bytes(ps[0].0 as u64);
        let v = spec_u64_to_le_bytes(ps[0].1 as u64);
        let rest = encode_pairs(ps.drop_first());
        assert(s =~= k + v + rest);
        assert(s.subrange(0, 8) =~= k);
        assert(s.subrange(8, 16) =~= v);
        assert(s.skip(16) =~= rest);
        assert(ps[0].0 as u64 <= usize::MAX);
        assert(ps[0].1 as u64 <= usize::MAX);
        lemma_decode_encode_pairs(ps.drop_first(), acc.push(ps[0]));
        assert((ps[0].0 as u64 as usize, ps[0].1 as u64 as usize) == ps[0]);
        assert(acc.push(ps[0]) + ps.drop_first() =~= acc + ps);
    }
}

/// Round trip for the integer-map scheme: the reader recovers exactly what
/// the writer recorded, entry for entry.
pub proof fn lemma_len_map_roundtrip(ps: Seq<(usize, usize)>)
    requires
        ps.len() <= usize::MAX,
    ensures
        decode_len_map_spec(encode_len_map_spec(ps)) == Some(ps),
{
    lemma_auto_spec_u64_to_from_le_bytes();
    let s = encode_len_map_spec(ps);
    assert(s.subrange(0, 8) =~= spec_u64_to_le_bytes(ps.len() as u64));
    assert(s.skip(8) =~= encode_pairs(ps));
    lemma_decode_encode_pairs(ps, seq![]);
    assert(Seq::<(usize, usize)>::empty() + ps =~= ps);
}

/// Encodes an integer map into file bytes.
pub fn encode_len_map(ps: &Vec<(usize, usize)>) -> (out: Vec<u8>)
    ensures
        out@ == encode_len_map_spec(ps@),
{
    let n = ps.len();
    let mut out: Vec<u8> = u64_to_le_bytes(n as u64);
    let mut i: usize = 0;
    proof {
        assert(ps@.skip(0) =~= ps@);
        assert(out@ + encode_pairs(ps@) =~= encode_len_map_spec(ps@));
    }
    while i < n
        invariant
            i <= n,
            n == ps@.len(),
            encode_len_map_spec(ps@) == out@ + encode_pairs(ps@.skip(i as int)),
        decreases n - i,
    {
        proof {
            assert(ps@.skip(i as int).drop_first() =~= ps@.skip(i + 1));
            assert(ps@.skip(i as int)[0] == ps@[i as int]);
        }
        let ghost prev = out@;
        let (k, v) = ps[i];
        let mut kb = u64_to_le_bytes(k as u64);
        out.append(&mut kb);
        let mut vb = u64_to_le_bytes(v as u64);
        out.append(&mut vb);
        proof {
            assert(out@ =~= prev + spec_u64_to_le_bytes(ps@[i as int].0 as u64)
                + spec_u64_to_le_bytes(ps@[i as int].1 as u64));
            assert(prev + spec_u64_to_le_bytes(ps@[i as int].0 as u64) + spec_u64_to_le_bytes(
                ps@[i as int].1 as u64,
            ) + encode_pairs(ps@.skip(i + 1)) =~= prev + (spec_u64_to_le_bytes(
                ps@[i as int].0 as u64,
            ) + spec_u64_to_le_bytes(ps@[i as int].1 as u64) + encode_pairs(ps@.skip(i + 1))));
        }
        i = i + 1;
    }
    proof {
        assert(ps@.skip(n as int) =~= Seq::<(usize, usize)>::empty());
        assert(out@ =~= encode_len_map_spec(ps@));
    }
    out
}

/// Decodes an integer map from file bytes; refuses anything the scheme
/// would not have written.
pub fn decode_len_map(content: &[u8]) -> (r: Result<Vec<(usize, usize)>, IndexError>)
    ensures
        r matches Ok(ps) ==> decode_len_map_spec(content@) == Some(ps@),
        r is Err ==> decode_len_map_spec(content@) is None,
{
    proof {
        lemma_auto_spec_u64_to_from_le_bytes();
    }
    let len = content.len();
    if len < 8 {
        return Err(IndexError::MalformedBinaryMap);
    }
    let header = slice_subrange(content, 0, 8);
    let n64 = u64_from_le_bytes(header);
    proof {
        assert(header@ =~= content@.subrange(0, 8));
    }
    let mut entries: Vec<(usize, usize)> = Vec::new();
    let mut off: usize = 8;
    let mut remaining: u64 = n64;
    proof {
        assert(content@.skip(8) =~= content@.skip(off as int));
    }
    while remaining > 0
        invariant
            8 <= off <= len,
            len == content@.len(),
            decode_len_map_spec(content@) == decode_pairs(
                content@.skip(off as int),
                remaining as nat,
                entries@,
            ),
        decreases remaining,
    {
        if len - off < 16 {
            proof {
                assert(content@.skip(off as int).len() < 16);
            }
            return Err(IndexError::MalformedBinaryMap);
        }
        let kb = slice_subrange(content, off, off + 8);
        let vb = slice_subrange(content, off + 8, off + 16);
        let k64 = u64_from_le_bytes(kb);
        let v64 = u64_from_le_bytes(vb);
        proof {
            let tail = content@.skip(off as int);
            assert(kb@ =~= tail.subrange(0, 8));
            assert(vb@ =~= tail.subrange(8, 16));
            assert(tail.skip(16) =~= content@.skip(off + 16));
        }
        if k64 > usize::MAX as u64 || v64 > usize::MAX as u64 {
            return Err(IndexError::MalformedBinaryMap);
        }
        entries.push((k64 as usize, v64 as usize));
        off = off + 16;
        remaining = remaining - 1;
    }
    if off != len {
        proof {
            assert(content@.skip(off as int).len() > 0);
        }
        return Err(IndexError::MalformedBinaryMap);
    }
    proof {
        assert(content@.skip(off as int) =~= Seq::<u8>::empty());
    }
    Ok(entries)
}

/// The encoded tokens of a lexicon, in token-id order: each token's UTF-8
/// byte length, then its bytes.
pub open spec fn encode_tokens(ts: Seq<Seq<char>>) -> Seq<u8>
    decreases ts.len(),
{
    if ts.len() == 0 {
        seq![]
    } else {
        spec_u64_to_le_bytes(encode_utf8(ts[0]).len() as u64) + encode_utf8(ts[0]) + encode_tokens(
            ts.drop_first(),
        )
    }
}

/// The encoded form of a lexicon: token count, then the tokens.  A token's
/// id is its position.
pub open spec fn encode_lexicon_spec(ts: Seq<Seq<char>>) -> Seq<u8> {
    spec_u64_to_le_bytes(ts.len() as u64) + encode_tokens(ts)
}

/// Decodes `n` tokens from `s`, refusing truncated input, byte runs that
/// are not UTF-8, and trailing bytes.
pub open spec fn decode_tokens(s: Seq<u8>, n: nat, acc: Seq<Seq<char>>) -> Option<Seq<Seq<char>>>
    decreases n,
{
    if n == 0 {
        if s.len() == 0 {
            Some(acc)
        } else {
            None
        }
    } else if s.len() < 8 {
        None
    } else {
        let l = spec_u64_from_le_bytes(s.subrange(0, 8));
        if 8 + l <= s.len() {
            let bs = s.subrange(8, 8 + l);
            if valid_utf8(bs) {
                decode_tokens(s.skip(8 + l), (n - 1) as nat, acc.push(decode_utf8(bs)))
            } else {
                None
            }
        } else {
            None
        }
    }
}

/// The lexicon held by encoded bytes, or `None` when they are not an
/// encoding.
pub open spec fn decode_lexicon_spec(s: Seq<u8>) -> Option<Seq<Seq<char>>> {
    if s.len() < 8 {
        None
    } else {
        decode_tokens(s.skip(8), spec_u64_from_le_bytes(s.subrange(0, 8)) as nat, seq![])
    }
}

/// Decoding encoded tokens gives back exactly those tokens.
proof fn lemma_decode_encode_tokens(ts: Seq<Seq<char>>, acc: Seq<Seq<char>>)
    requires
        forall|i: int| 0 <= i < ts.len() ==> #[trigger] encode_utf8(ts[i]).len() <= usize::MAX,
    ensures
        decode_tokens(encode_tokens(ts), ts.len(), acc) == Some(acc + ts),
    decreases ts.len(),
{
    lemma_auto_spec_u64_to_from_le_bytes();
    broadcast use vstd::utf8::group_utf8_lib;

    let s = encode_tokens(ts);
    if ts.len() == 0 {
        assert(s.len() == 0);
        assert(acc + ts =~= acc);
    } else {
        let bs = encode_utf8(ts[0]);
        let lb = spec_u64_to_le_bytes(bs.len() as u64);
        let rest = encode_tokens(ts.drop_first());
        assert(encode_utf8(ts[0]).len() <= usize::MAX);
        assert(s =~= lb + bs + rest);
        assert(s.subrange(0, 8) =~= lb);
        assert(spec_u64_from_le_bytes(lb) == bs.len());
        assert(s.subrange(8, 8 + bs.len() as int) =~= bs);
        assert(s.skip(8 + bs.len() as int) =~= rest);
        assert(valid_utf8(bs));
        assert(decode_utf8(bs) == ts[0]);
        assert forall|i: int| 0 <= i < ts.drop_first().len() implies #[trigger] encode_utf8(
            ts.drop_first()[i],
        ).len() <= usize::MAX by {
            assert(ts.drop_first()[i] == ts[i + 1]);
        }
        lemma_decode_encode_tokens(ts.drop_first(), acc.push(ts[0]));
        assert(acc.push(ts[0]) + ts.drop_first() =~= acc + ts);
    }
}

/// Round trip for the lexicon scheme: the reader recovers every token
/// under its original id.
pub proof fn lemma_lexicon_roundtrip(ts: Seq<Seq<char>>)
    requires
        ts.len() <= usize::MAX,
        forall|i: int| 0 <= i < ts.len() ==> #[trigger] encode_utf8(ts[i]).len() <= usize::MAX,
    ensures
        decode_lexicon_spec(encode_lexicon_spec(ts)) == Some(ts),
{
    lemma_auto_spec_u64_to_from_le_bytes();
    let s = encode_lexicon_spec(ts);
    assert(s.subrange(0, 8) =~= spec_u64_to_le_bytes(ts.len() as u64));
    assert(s.skip(8) =~= encode_tokens(ts));
    lemma_decode_encode_tokens(ts, seq![]);
    assert(Seq::<Seq<char>>::empty() + ts =~= ts);
}

/// Encodes a lexicon's tokens into file bytes, in token-id order.
pub fn encode_lexicon(ts: &Vec<String>) -> (out: Vec<u8>)
    ensures
        out@ == encode_lexicon_spec(ts.deep_view()),
{
    let n = ts.len();
    let ghost tsv = ts.deep_view();
    let mut out: Vec<u8> = u64_to_le_bytes(n as u64);
    let mut i: usize = 0;
    proof {
        assert(tsv.len() == n);
        assert(tsv.skip(0) =~= tsv);
        assert(out@ + encode_tokens(tsv) =~= encode_lexicon_spec(tsv));
    }
    while i < n
        invariant
            i <= n,
            n == ts@.len(),
            tsv == ts.deep_view(),
            tsv.len() == n,
            forall|j: int| 0 <= j < n ==> #[trigger] ts@[j]@ == tsv[j],
            encode_lexicon_spec(tsv) == out@ + encode_tokens(tsv.skip(i as int)),
        decreases n - i,
    {
        proof {
            assert(tsv.skip(i as int).drop_first() =~= tsv.skip(i + 1));
            assert(tsv.skip(i as int)[0] == tsv[i as int]);
        }
        let ghost prev = out@;
        let bytes = ts[i].as_str().as_bytes();
        proof {
            broadcast use vstd::utf8::group_utf8_lib;

            assert(bytes@ == encode_utf8(tsv[i as int]));
        }
        let mut lb = u64_to_le_bytes(bytes.len() as u64);
        out.append(&mut lb);
        out.extend_from_slice(bytes);
        proof {
            assert(out@ =~= prev + spec_u64_to_le_bytes(encode_utf8(tsv[i as int]).len() as u64)
                + encode_utf8(tsv[i as int]));
            assert(prev + spec_u64_to_le_bytes(encode_utf8(tsv[i as int]).len() as u64)
                + encode_utf8(tsv[i as int]) + encode_tokens(tsv.skip(i + 1)) =~= prev + (
            spec_u64_to_le_bytes(encode_utf8(tsv[i as int]).len() as u64) + encode_utf8(
                tsv[i as int],
            ) + encode_tokens(tsv.skip(i + 1))));
        }
        i = i + 1;
    }
    proof {
        assert(tsv.skip(n as int) =~= Seq::<Seq<char>>::empty());
        assert(out@ =~= encode_lexicon_spec(tsv));
    }
    out
}

/// Decodes a lexicon from file bytes; refuses anything the scheme would
/// not have written.
pub fn decode_lexicon(content: &[u8]) -> (r: Result<Vec<String>, IndexError>)
    ensures
        r matches Ok(ts) ==> decode_lexicon_spec(content@) == Some(ts.deep_view()),
        r is Err ==> decode_lexicon_spec(content@) is None,
{
    proof {
        lemma_auto_spec_u64_to_from_le_bytes();
    }
    let len = content.len();
    if len < 8 {
        return Err(IndexError::MalformedBinaryMap);
    }
    let header = slice_subrange(content, 0, 8);
    let n64 = u64_from_le_bytes(header);
    proof {
        assert(header@ =~= content@.subrange(0, 8));
    }
    let mut tokens: Vec<String> = Vec::new();
    let mut off: usize = 8;
    let mut remaining: u64 = n64;
    proof {
        assert(content@.skip(8) =~= content@.skip(off as int));
        assert(tokens.deep_view() =~= Seq::<Seq<char>>::empty());
    }
    while remaining > 0
        invariant
            8 <= off <= len,
            len == content@.len(),
            decode_lexicon_spec(content@) == decode_tokens(
                content@.skip(off as int),
                remaining as nat,
                tokens.deep_view(),
            ),
        decreases remaining,
    {
        if len - off < 8 {
            proof {
                assert(content@.skip(off as int).len() < 8);
            }
            return Err(IndexError::MalformedBinaryMap);
        }
        let lb = slice_subrange(content, off, off + 8);
        let l64 = u64_from_le_bytes(lb);
        proof {
            let tail = content@.skip(off as int);
            assert(lb@ =~= tail.subrange(0, 8));
        }
        if l64 > (len - off - 8) as u64 {
            proof {
                let tail = content@.skip(off as int);
                assert(8 + spec_u64_from_le_bytes(tail.subrange(0, 8)) > tail.len());
            }
            return Err(IndexError::MalformedBinaryMap);
        }
        let l = l64 as usize;
        let chunk = slice_subrange(content, off + 8, off + 8 + l);
        let chunk_vec = slice_to_vec(chunk);
        proof {
            let tail = content@.skip(off as int);
            assert(chunk_vec@ =~= tail.subrange(8, 8 + l64 as int));
            assert(tail.skip(8 + l64 as int) =~= content@.skip(off + 8 + l64 as int));
        }
        let ghost prev = tokens.deep_view();
        match string_from_utf8(&chunk_vec) {
            Some(tok) => {
                tokens.push(tok);
                proof {
                    assert(tokens.deep_view() =~= prev.push(decode_utf8(chunk_vec@)));
                }
            },
            None => {
                return Err(IndexError::MalformedBinaryMap);
            },
        }
        off = off + 8 + l;
        remaining = remaining - 1;
    }
    if off != len {
        proof {
            assert(content@.skip(off as int).len() > 0);
        }
        return Err(IndexError::MalformedBinaryMap);
    }
    proof {
        assert(content@.skip(off as int) =~= Seq::<u8>::empty());
    }
    Ok(tokens)
}

} // verus!
