//! The textual postings-file format: one `<article_id> <term_frequency>`
//! entry per newline-terminated line.  A file may hold several spill batches
//! concatenated; readers tolerate a trailing newline and ignore blank lines.

use vstd::prelude::*;
use crate::common::IndexError;
use crate::decimal::{all_digits, dec_bytes, digits_val, format_usize, parse_usize};
use crate::decimal::{lemma_dec_bytes_digits, lemma_dec_bytes_val};

verus! {

/// One rendered entry: the two numbers, a space between, a newline after.
pub open spec fn render_entry(e: (usize, usize)) -> Seq<u8> {
    dec_bytes(e.0 as nat) + seq![32u8] + dec_bytes(e.1 as nat) + seq![10u8]
}

/// The rendered form of a postings batch, in entry order.
pub open spec fn render_postings_spec(entries: Seq<(usize, usize)>) -> Seq<u8>
    decreases entries.len(),
{
    if entries.len() == 0 {
        seq![]
    } else {
        render_entry(entries[0]) + render_postings_spec(entries.drop_first())
    }
}

/// Rendering a concatenation renders the parts one after the other, so a
/// postings file written in batches reads as one batch.
pub proof fn lemma_render_append(a: Seq<(usize, usize)>, b: Seq<(usize, usize)>)
    ensures
        render_postings_spec(a + b) == render_postings_spec(a) + render_postings_spec(b),
    decreases a.len(),
{
    if a.len() == 0 {
        assert(a + b =~= b);
        assert(render_postings_spec(a) + render_postings_spec(b) =~= render_postings_spec(b));
    } else {
        lemma_render_append(a.drop_first(), b);
        assert((a + b).drop_first() =~= a.drop_first() + b);
        assert((a + b)[0] == a[0]);
        assert(render_entry(a[0]) + (render_postings_spec(a.drop_first()) + render_postings_spec(b))
            =~= (render_entry(a[0]) + render_postings_spec(a.drop_first()))
            + render_postings_spec(b));
    }
}

/// The lines of a byte text, split on newline bytes, with `cur` the line
/// still open.  A trailing newline opens no further line.
pub open spec fn lines_from(s: Seq<u8>, cur: Seq<u8>) -> Seq<Seq<u8>>
    decreases s.len(),
{
    if s.len() == 0 {
        if cur.len() == 0 {
            seq![]
        } else {
            seq![cur]
        }
    } else if s[0] == 10 {
        seq![cur] + lines_from(s.drop_first(), seq![])
    } else {
        lines_from(s.drop_first(), cur.push(s[0]))
    }
}

/// The lines of a byte text.
pub open spec fn lines_of(s: Seq<u8>) -> Seq<Seq<u8>> {
    lines_from(s, seq![])
}

/// Whether a byte separates fields within a line.
pub open spec fn is_space(b: u8) -> bool {
    b == 32 || b == 9 || b == 13
}

/// The whitespace-separated fields of a line, with `cur` the field still
/// open.
pub open spec fn fields_from(s: Seq<u8>, cur: Seq<u8>) -> Seq<Seq<u8>>
    decreases s.len(),
{
    if s.len() == 0 {
        if cur.len() == 0 {
            seq![]
        } else {
            seq![cur]
        }
    } else if is_space(s[0]) {
        if cur.len() == 0 {
            fields_from(s.drop_first(), seq![])
        } else {
            seq![cur] + fields_from(s.drop_first(), seq![])
        }
    } else {
        fields_from(s.drop_first(), cur.push(s[0]))
    }
}

/// The whitespace-separated fields of a line.
pub open spec fn fields_of(s: Seq<u8>) -> Seq<Seq<u8>> {
    fields_from(s, seq![])
}

/// What one line contributes: `None` for a malformed line, `Some(None)` for
/// a blank line, and `Some(Some(entry))` for a well-formed entry line.
pub open spec fn parse_line(line: Seq<u8>) -> Option<Option<(usize, usize)>> {
    let fs = fields_of(line);
    if fs.len() == 0 {
        Some(None)
    } else if fs.len() >= 2 && all_digits(fs[0]) && digits_val(fs[0]) <= usize::MAX && all_digits(
        fs[1],
    ) && digits_val(fs[1]) <= usize::MAX {
        Some(Some((digits_val(fs[0]) as usize, digits_val(fs[1]) as usize)))
    } else {
        None
    }
}

/// The entries of the given lines appended to `acc`, or `None` on the first
/// malformed line.
pub open spec fn collect_from(acc: Seq<(usize, usize)>, ls: Seq<Seq<u8>>) -> Option<
    Seq<(usize, usize)>,
>
    decreases ls.len(),
{
    if ls.len() == 0 {
        Some(acc)
    } else {
        match parse_line(ls[0]) {
            Option::None => None,
            Option::Some(Option::None) => collect_from(acc, ls.drop_first()),
            Option::Some(Option::Some(e)) => collect_from(acc.push(e), ls.drop_first()),
        }
    }
}

/// The entries held by a postings file's content, or `None` when some line
/// is malformed.
pub open spec fn parse_postings_spec(s: Seq<u8>) -> Option<Seq<(usize, usize)>> {
    collect_from(seq![], lines_of(s))
}

/// The byte-sequence views of a vector of byte vectors.
pub open spec fn lines_view(v: Seq<Vec<u8>>) -> Seq<Seq<u8>> {
    v.map_values(|l: Vec<u8>| l@)
}

/// Renders a postings batch into file bytes, one entry per line.
pub fn render_postings(entries: &Vec<(usize, usize)>) -> (out: Vec<u8>)
    ensures
        out@ == render_postings_spec(entries@),
{
    let n = entries.len();
    let mut out: Vec<u8> = Vec::new();
    let mut i: usize = 0;
    proof {
        assert(entries@.skip(0) =~= entries@);
        assert(out@ + render_postings_spec(entries@) =~= render_postings_spec(entries@));
    }
    while i < n
        invariant
            i <= n,
            n == entries@.len(),
            render_postings_spec(entries@) == out@ + render_postings_spec(
                entries@.skip(i as int),
            ),
        decreases n - i,
    {
        proof {
            assert(entries@.skip(i as int).drop_first() =~= entries@.skip(i + 1));
            assert(entries@.skip(i as int)[0] == entries@[i as int]);
        }
        let ghost prev = out@;
        let (aid, tf) = entries[i];
        let mut piece = format_usize(aid);
        out.append(&mut piece);
        out.push(32);
        let mut piece2 = format_usize(tf);
        out.append(&mut piece2);
        out.push(10);
        proof {
            assert(out@ =~= prev + render_entry(entries@[i as int]));
            assert(prev + render_entry(entries@[i as int]) + render_postings_spec(
                entries@.skip(i + 1),
            ) =~= prev + (render_entry(entries@[i as int]) + render_postings_spec(
                entries@.skip(i + 1),
            )));
        }
        i = i + 1;
    }
    proof {
        assert(entries@.skip(n as int) =~= Seq::<(usize, usize)>::empty());
        assert(out@ =~= render_postings_spec(entries@));
    }
    out
}

/// Splits file content into lines on newline bytes.
fn split_lines(content: &Vec<u8>) -> (lines: Vec<Vec<u8>>)
    ensures
        lines_view(lines@) == lines_of(content@),
{
    let n = content.len();
    let mut lines: Vec<Vec<u8>> = Vec::new();
    let mut cur: Vec<u8> = Vec::new();
    let mut i: usize = 0;
    proof {
        assert(content@.skip(0) =~= content@);
        assert(lines_view(lines@) + lines_from(content@, cur@) =~= lines_of(content@));
    }
    while i < n
        invariant
            i <= n,
            n == content@.len(),
            lines_of(content@) == lines_view(lines@) + lines_from(
                content@.skip(i as int),
                cur@,
            ),
        decreases n - i,
    {
        proof {
            assert(content@.skip(i as int).drop_first() =~= content@.skip(i + 1));
            assert(content@.skip(i as int)[0] == content@[i as int]);
        }
        let b = content[i];
        if b == 10 {
            let ghost prev = lines_view(lines@);
            let ghost curv = cur@;
            lines.push(cur);
            cur = Vec::new();
            proof {
                assert(lines_view(lines@) =~= prev.push(curv));
                assert(lines_view(lines@) + lines_from(content@.skip(i + 1), cur@) =~= prev + (
                seq![curv] + lines_from(content@.skip(i + 1), seq![])));
            }
        } else {
            cur.push(b);
        }
        i = i + 1;
    }
    proof {
        assert(content@.skip(n as int) =~= Seq::<u8>::empty());
    }
    if cur.len() > 0 {
        let ghost prev = lines_view(lines@);
        let ghost curv = cur@;
        lines.push(cur);
        proof {
            assert(lines_view(lines@) =~= prev.push(curv));
            assert(lines_view(lines@) =~= prev + seq![curv]);
        }
    }
    proof {
        assert(lines_view(lines@) =~= lines_of(content@));
    }
    lines
}

/// Splits a line into its whitespace-separated fields.
fn split_fields(line: &Vec<u8>) -> (fs: Vec<Vec<u8>>)
    ensures
        lines_view(fs@) == fields_of(line@),
{
    let n = line.len();
    let mut fs: Vec<Vec<u8>> = Vec::new();
    let mut cur: Vec<u8> = Vec::new();
    let mut i: usize = 0;
    proof {
        assert(line@.skip(0) =~= line@);
        assert(lines_view(fs@) + fields_from(line@, cur@) =~= fields_of(line@));
    }
    while i < n
        invariant
            i <= n,
            n == line@.len(),
            fields_of(line@) == lines_view(fs@) + fields_from(line@.skip(i as int), cur@),
        decreases n - i,
    {
        proof {
            assert(line@.skip(i as int).drop_first() =~= line@.skip(i + 1));
            assert(line@.skip(i as int)[0] == line@[i as int]);
        }
        let b = line[i];
        if b == 32 || b == 9 || b == 13 {
            if cur.len() > 0 {
                let ghost prev = lines_view(fs@);
                let ghost curv = cur@;
                fs.push(cur);
                cur = Vec::new();
                proof {
                    assert(lines_view(fs@) =~= prev.push(curv));
                    assert(lines_view(fs@) + fields_from(line@.skip(i + 1), cur@) =~= prev + (
                    seq![curv] + fields_from(line@.skip(i + 1), seq![])));
                }
            } else {
                proof {
                    assert(cur@ =~= Seq::<u8>::empty());
                }
            }
        } else {
            cur.push(b);
        }
        i = i + 1;
    }
    proof {
        assert(line@.skip(n as int) =~= Seq::<u8>::empty());
    }
    if cur.len() > 0 {
        let ghost prev = lines_view(fs@);
        let ghost curv = cur@;
        fs.push(cur);
        proof {
            assert(lines_view(fs@) =~= prev.push(curv));
            assert(lines_view(fs@) =~= prev + seq![curv]);
        }
    }
    proof {
        assert(lines_view(fs@) =~= fields_of(line@));
    }
    fs
}

/// Every field a line splits into is non-empty.
proof fn lemma_fields_nonempty(s: Seq<u8>, cur: Seq<u8>)
    ensures
        forall|i: int|
            0 <= i < fields_from(s, cur).len() ==> #[trigger] fields_from(s, cur)[i].len() > 0,
    decreases s.len(),
{
    if s.len() == 0 {
        if cur.len() > 0 {
            assert(fields_from(s, cur) =~= seq![cur]);
        }
    } else if is_space(s[0]) {
        lemma_fields_nonempty(s.drop_first(), seq![]);
        if cur.len() == 0 {
            assert(fields_from(s, cur) == fields_from(s.drop_first(), seq![]));
        }
        if cur.len() > 0 {
            let whole = fields_from(s, cur);
            let rest = fields_from(s.drop_first(), seq![]);
            assert forall|i: int| 0 <= i < whole.len() implies #[trigger] whole[i].len() > 0 by {
                if i > 0 {
                    assert(whole[i] == rest[i - 1]);
                }
            }
        }
    } else {
        lemma_fields_nonempty(s.drop_first(), cur.push(s[0]));
        assert(fields_from(s, cur) == fields_from(s.drop_first(), cur.push(s[0])));
    }
}

/// Parses a postings file's content into its entries, in file order.
/// Blank lines are ignored; a line that is not two decimal numbers (or
/// whose numbers do not fit) is an error.
pub fn parse_postings(content: &Vec<u8>) -> (r: Result<Vec<(usize, usize)>, IndexError>)
    ensures
        r matches Ok(es) ==> parse_postings_spec(content@) == Some(es@),
        r is Err ==> parse_postings_spec(content@) is None,
        r matches Err(e) ==> e == IndexError::MalformedPostingsLine,
{
    let lines = split_lines(content);
    let ghost ls = lines_of(content@);
    proof {
        assert forall|j: int| 0 <= j < lines@.len() implies #[trigger] lines@[j]@ == ls[j] by {
            assert(lines_view(lines@)[j] == lines@[j]@);
        }
    }
    let n = lines.len();
    let mut entries: Vec<(usize, usize)> = Vec::new();
    let mut i: usize = 0;
    proof {
        assert(ls.skip(0) =~= ls);
    }
    while i < n
        invariant
            i <= n,
            n == lines@.len(),
            ls == lines_of(content@),
            n == ls.len(),
            forall|j: int| 0 <= j < n ==> #[trigger] lines@[j]@ == ls[j],
            parse_postings_spec(content@) == collect_from(entries@, ls.skip(i as int)),
        decreases n - i,
    {
        proof {
            assert(ls.skip(i as int).drop_first() =~= ls.skip(i + 1));
            assert(ls.skip(i as int)[0] == ls[i as int]);
        }
        let fs = split_fields(&lines[i]);
        proof {
            lemma_fields_nonempty(ls[i as int], Seq::<u8>::empty());
        }
        if fs.len() == 0 {
            // blank line: ignored
        } else if fs.len() >= 2 {
            let a = parse_usize(fs[0].as_slice());
            let f = parse_usize(fs[1].as_slice());
            proof {
                assert(fs@[0]@ == fields_of(ls[i as int])[0]);
                assert(fs@[1]@ == fields_of(ls[i as int])[1]);
            }
            match (a, f) {
                (Some(aid), Some(tf)) => {
                    entries.push((aid, tf));
                },
                _ => {
                    return Err(IndexError::MalformedPostingsLine);
                },
            }
        } else {
            proof {
                assert(fs@[0]@ == fields_of(ls[i as int])[0]);
            }
            return Err(IndexError::MalformedPostingsLine);
        }
        i = i + 1;
    }
    proof {
        assert(ls.skip(n as int) =~= Seq::<Seq<u8>>::empty());
    }
    Ok(entries)
}

/// Splitting on newlines takes a terminated line off the front whole.
proof fn lemma_lines_terminated(line: Seq<u8>, rest: Seq<u8>, cur: Seq<u8>)
    requires
        forall|i: int| 0 <= i < line.len() ==> line[i] != 10,
    ensures
        lines_from(line + seq![10u8] + rest, cur) == seq![cur + line] + lines_from(rest, seq![]),
    decreases line.len(),
{
    let s = line + seq![10u8] + rest;
    if line.len() == 0 {
        assert(s =~= seq![10u8] + rest);
        assert(s[0] == 10);
        assert(s.drop_first() =~= rest);
        assert(cur + line =~= cur);
    } else {
        assert(s[0] == line[0]);
        assert(s.drop_first() =~= line.drop_first() + seq![10u8] + rest);
        lemma_lines_terminated(line.drop_first(), rest, cur.push(line[0]));
        assert(cur.push(line[0]) + line.drop_first() =~= cur + line);
    }
}

/// Field-splitting absorbs a run of non-space bytes into the open field.
proof fn lemma_fields_absorb(w: Seq<u8>, rest: Seq<u8>, cur: Seq<u8>)
    requires
        forall|i: int| 0 <= i < w.len() ==> !is_space(#[trigger] w[i]),
    ensures
        fields_from(w + rest, cur) == fields_from(rest, cur + w),
    decreases w.len(),
{
    let s = w + rest;
    if w.len() == 0 {
        assert(s =~= rest);
        assert(cur + w =~= cur);
    } else {
        assert(s[0] == w[0]);
        assert(s.drop_first() =~= w.drop_first() + rest);
        lemma_fields_absorb(w.drop_first(), rest, cur.push(w[0]));
        assert(cur.push(w[0]) + w.drop_first() =~= cur + w);
    }
}

/// An entry line splits into exactly its two digit fields.
proof fn lemma_fields_entry(d1: Seq<u8>, d2: Seq<u8>)
    requires
        d1.len() > 0,
        all_digits(d1),
        d2.len() > 0,
        all_digits(d2),
    ensures
        fields_of(d1 + seq![32u8] + d2) == seq![d1, d2],
{
    let body = d1 + seq![32u8] + d2;
    let s2 = seq![32u8] + d2;
    assert(body =~= d1 + s2);
    assert forall|i: int| 0 <= i < d1.len() implies !is_space(#[trigger] d1[i]) by {
        assert(crate::decimal::is_digit(d1[i]));
    }
    assert forall|i: int| 0 <= i < d2.len() implies !is_space(#[trigger] d2[i]) by {
        assert(crate::decimal::is_digit(d2[i]));
    }
    lemma_fields_absorb(d1, s2, seq![]);
    assert(Seq::<u8>::empty() + d1 =~= d1);
    assert(s2[0] == 32);
    assert(s2.drop_first() =~= d2);
    assert(fields_from(s2, d1) == seq![d1] + fields_from(d2, seq![]));
    lemma_fields_absorb(d2, seq![], seq![]);
    assert(d2 + Seq::<u8>::empty() =~= d2);
    assert(Seq::<u8>::empty() + d2 =~= d2);
    assert(fields_from(d2, seq![]) == fields_from(Seq::<u8>::empty(), d2));
    assert(fields_of(body) =~= seq![d1, d2]);
}

/// Collecting the lines of a rendered batch appends exactly its entries.
proof fn lemma_collect_render(acc: Seq<(usize, usize)>, es: Seq<(usize, usize)>)
    ensures
        collect_from(acc, lines_of(render_postings_spec(es))) == Some(acc + es),
    decreases es.len(),
{
    if es.len() == 0 {
        assert(lines_of(render_postings_spec(es)) =~= Seq::<Seq<u8>>::empty());
        assert(acc + es =~= acc);
    } else {
        let e = es[0];
        let d1 = dec_bytes(e.0 as nat);
        let d2 = dec_bytes(e.1 as nat);
        let body = d1 + seq![32u8] + d2;
        let tail = render_postings_spec(es.drop_first());
        lemma_dec_bytes_digits(e.0 as nat);
        lemma_dec_bytes_digits(e.1 as nat);
        lemma_dec_bytes_val(e.0 as nat);
        lemma_dec_bytes_val(e.1 as nat);
        assert(render_postings_spec(es) =~= body + seq![10u8] + tail);
        assert forall|i: int| 0 <= i < body.len() implies body[i] != 10 by {
            if i < d1.len() {
                assert(body[i] == d1[i]);
                assert(crate::decimal::is_digit(d1[i]));
            } else if i == d1.len() {
                assert(body[i] == 32);
            } else {
                assert(body[i] == d2[i - d1.len() - 1]);
                assert(crate::decimal::is_digit(d2[i - d1.len() - 1]));
            }
        }
        lemma_lines_terminated(body, tail, seq![]);
        assert(Seq::<u8>::empty() + body =~= body);
        let ls = lines_of(render_postings_spec(es));
        assert(ls == seq![body] + lines_of(tail));
        lemma_fields_entry(d1, d2);
        assert(fields_of(body).len() == 2);
        assert(fields_of(body)[0] == d1);
        assert(fields_of(body)[1] == d2);
        assert(parse_line(body) == Some(Some((e.0, e.1))));
        assert(ls.len() > 0);
        assert(ls[0] == body);
        assert(ls.drop_first() =~= lines_of(tail));
        lemma_collect_render(acc.push(e), es.drop_first());
        assert(acc.push(e) + es.drop_first() =~= acc + es);
    }
}

/// Parsing a rendered batch gives back exactly its entries: what the
/// builder spills is what the query evaluator reads.
pub proof fn lemma_postings_roundtrip(es: Seq<(usize, usize)>)
    ensures
        parse_postings_spec(render_postings_spec(es)) == Some(es),
{
    lemma_collect_render(seq![], es);
    assert(Seq::<(usize, usize)>::empty() + es =~= es);
}

} // verus!
