//! Decimal rendering and parsing of unsigned integers, used by the textual
//! postings-file format and by the on-disk path layout.

use vstd::prelude::*;
use crate::strbytes::{ascii_chars_of, ascii_to_string};

verus! {

/// The decimal digits of `n`, as characters.
pub open spec fn dec_chars(n: nat) -> Seq<char> {
    ascii_chars_of(dec_bytes(n))
}

/// The ASCII digit for a value below ten.
pub open spec fn digit_byte(d: nat) -> u8
    recommends
        d < 10,
{
    (48 + d) as u8
}

/// The decimal digits of `n` as ASCII bytes, most significant first.
pub open spec fn dec_bytes(n: nat) -> Seq<u8>
    decreases n,
{
    if n < 10 {
        seq![digit_byte(n)]
    } else {
        dec_bytes(n / 10).push(digit_byte(n % 10))
    }
}

/// Whether `b` is an ASCII decimal digit.
pub open spec fn is_digit(b: u8) -> bool {
    48 <= b <= 57
}

/// Whether every byte of `s` is an ASCII decimal digit.
pub open spec fn all_digits(s: Seq<u8>) -> bool {
    forall|i: int| 0 <= i < s.len() ==> is_digit(#[trigger] s[i])
}

/// The value of a digit string, most significant digit first.
pub open spec fn digits_val(s: Seq<u8>) -> int
    recommends
        all_digits(s),
    decreases s.len(),
{
    if s.len() == 0 {
        0
    } else {
        digits_val(s.drop_last()) * 10 + (s.last() - 48)
    }
}

/// Rendering produces digits only, at least one of them.
pub proof fn lemma_dec_bytes_digits(n: nat)
    ensures
        dec_bytes(n).len() >= 1,
        all_digits(dec_bytes(n)),
    decreases n,
{
    if n >= 10 {
        lemma_dec_bytes_digits(n / 10);
    }
}

/// Parsing the rendering of `n` gives back `n`.
pub proof fn lemma_dec_bytes_val(n: nat)
    ensures
        digits_val(dec_bytes(n)) == n,
    decreases n,
{
    let s = dec_bytes(n);
    if n < 10 {
        assert(s.drop_last() =~= Seq::<u8>::empty());
        assert(s.last() == digit_byte(n));
        assert(digit_byte(n) == 48 + n);
        assert(digits_val(s) == digits_val(s.drop_last()) * 10 + (s.last() - 48));
        assert(digits_val(Seq::<u8>::empty()) == 0);
    } else {
        lemma_dec_bytes_val(n / 10);
        assert(s == dec_bytes(n / 10).push(digit_byte((n % 10) as nat)));
        assert(s.drop_last() =~= dec_bytes(n / 10));
        assert(s.last() == digit_byte((n % 10) as nat));
        vstd::arithmetic::div_mod::lemma_fundamental_div_mod(n as int, 10);
        assert(0 <= n % 10 < 10);
        assert(digit_byte((n % 10) as nat) == 48 + n % 10);
        assert(s.len() > 0);
        assert(digits_val(s) == digits_val(s.drop_last()) * 10 + (s.last() - 48));
    }
}

/// A digit string's value does not drop as it is extended to the right.
proof fn lemma_digits_val_prefix_le(s: Seq<u8>, i: int)
    requires
        all_digits(s),
        0 <= i <= s.len(),
    ensures
        digits_val(s.take(i)) <= digits_val(s),
    decreases s.len() - i,
{
    if i < s.len() {
        assert(s.take(i + 1).drop_last() =~= s.take(i));
        assert(s.take(i + 1).last() == s[i]);
        assert(all_digits(s.take(i)));
        lemma_digits_val_nonneg(s.take(i));
        assert(digits_val(s.take(i)) <= digits_val(s.take(i + 1)));
        lemma_digits_val_prefix_le(s, i + 1);
    } else {
        assert(s.take(i) =~= s);
    }
}

/// Digit-string values are never negative.
pub proof fn lemma_digits_val_nonneg(s: Seq<u8>)
    requires
        all_digits(s),
    ensures
        digits_val(s) >= 0,
    decreases s.len(),
{
    if s.len() > 0 {
        lemma_digits_val_nonneg(s.drop_last());
    }
}

/// Renders `n` as its decimal digits.
pub fn format_usize(n: usize) -> (out: Vec<u8>)
    ensures
        out@ == dec_bytes(n as nat),
{
    let mut rev: Vec<u8> = Vec::new();
    let mut m: usize = n;
    proof {
        assert(dec_bytes(n as nat) =~= dec_bytes(n as nat) + rev@.reverse());
    }
    while m >= 10
        invariant
            dec_bytes(n as nat) == dec_bytes(m as nat) + rev@.reverse(),
        decreases m,
    {
        let d: u8 = (m % 10) as u8 + 48;
        rev.push(d);
        proof {
            assert((rev@).reverse() =~= seq![d] + rev@.drop_last().reverse());
            assert(dec_bytes((m / 10) as nat) + (rev@).reverse() =~= dec_bytes(m as nat)
                + rev@.drop_last().reverse());
        }
        m = m / 10;
    }
    let d: u8 = m as u8 + 48;
    rev.push(d);
    proof {
        assert((rev@).reverse() =~= seq![d] + rev@.drop_last().reverse());
        assert((rev@).reverse() =~= dec_bytes(n as nat));
    }
    reversed(&rev)
}

/// Renders `n` as a decimal string.
pub fn usize_to_string(n: usize) -> (s: String)
    ensures
        s@ == dec_chars(n as nat),
{
    let digits = format_usize(n);
    proof {
        lemma_dec_bytes_digits(n as nat);
        assert forall|i: int| 0 <= i < digits@.len() implies digits@[i] < 128 by {
            assert(is_digit(digits@[i]));
        }
    }
    ascii_to_string(&digits)
}

/// Copies `v` in reverse order.
fn reversed(v: &Vec<u8>) -> (r: Vec<u8>)
    ensures
        r@ == v@.reverse(),
{
    let n = v.len();
    let mut r: Vec<u8> = Vec::new();
    let mut i: usize = 0;
    while i < n
        invariant
            i <= n,
            n == v@.len(),
            r@.len() == i,
            forall|j: int| 0 <= j < i ==> r@[j] == v@[n - 1 - j],
        decreases n - i,
    {
        r.push(v[n - 1 - i]);
        i = i + 1;
    }
    proof {
        assert(r@ =~= v@.reverse());
    }
    r
}

/// Parses a digit string into a machine integer.
///
/// Returns the string's value when it is a non-empty run of digits whose
/// value fits; returns nothing exactly otherwise.
pub fn parse_usize(s: &[u8]) -> (r: Option<usize>)
    ensures
        r matches Some(v) ==> v == digits_val(s@),
        r is Some <==> s@.len() > 0 && all_digits(s@) && digits_val(s@) <= usize::MAX,
{
    let n = s.len();
    if n == 0 {
        return None;
    }
    let mut acc: usize = 0;
    let mut i: usize = 0;
    while i < n
        invariant
            0 < n == s@.len(),
            i <= n,
            all_digits(s@.take(i as int)),
            acc == digits_val(s@.take(i as int)),
        decreases n - i,
    {
        let b = s[i];
        if b < 48 || b > 57 {
            return None;
        }
        let d: usize = (b - 48) as usize;
        proof {
            assert(s@.take(i + 1).drop_last() =~= s@.take(i as int));
            assert(s@.take(i + 1).last() == s@[i as int]);
        }
        let next = match acc.checked_mul(10) {
            Some(t) => t.checked_add(d),
            None => None,
        };
        match next {
            Some(v) => {
                acc = v;
            },
            None => {
                proof {
                    if all_digits(s@) {
                        lemma_digits_val_prefix_le(s@, i + 1);
                    }
                }
                return None;
            },
        }
        i = i + 1;
    }
    proof {
        assert(s@.take(n as int) =~= s@);
    }
    Some(acc)
}

} // verus!
