//! Decimal formatting and parsing of object sizes, verified as inverses.

use vstd::prelude::*;
use vstd::arithmetic::div_mod::{
    lemma_fundamental_div_mod, lemma_div_is_ordered, lemma_div_decreases,
};

verus! {

/// The decimal digit character for a value below ten.
pub open spec fn dec_digit(n: nat) -> char
    recommends
        n < 10,
{
    ((48 + n) as u8) as char
}

/// The canonical decimal text of a natural number, without sign, leading
/// zeros, or separators.
pub open spec fn dec_str_of(n: nat) -> Seq<char>
    decreases n,
{
    if n < 10 {
        seq![dec_digit(n)]
    } else {
        dec_str_of(n / 10).push(dec_digit(n % 10))
    }
}

pub open spec fn is_dec_digit_byte(b: u8) -> bool {
    48 <= b <= 57
}

pub open spec fn all_dec_digits(s: Seq<u8>) -> bool {
    forall|i: int| 0 <= i < s.len() ==> is_dec_digit_byte(#[trigger] s[i])
}

/// The value denoted by a sequence of ASCII decimal digit bytes.
pub open spec fn dec_val(s: Seq<u8>) -> nat
    recommends
        all_dec_digits(s),
    decreases s.len(),
{
    if s.len() == 0 {
        0
    } else {
        dec_val(s.drop_last()) * 10 + (if is_dec_digit_byte(s.last()) {
            (s.last() - 48) as nat
        } else {
            0
        })
    }
}

/// The canonical decimal text of a natural number, as ASCII bytes.
pub open spec fn dec_bytes_of(n: nat) -> Seq<u8> {
    Seq::new(dec_str_of(n).len(), |i: int| dec_str_of(n)[i] as u8)
}

/// A prefix of a digit string denotes no more than the whole string.
pub proof fn lemma_dec_val_take_le(s: Seq<u8>, j: int)
    requires
        0 <= j <= s.len(),
    ensures
        dec_val(s.take(j)) <= dec_val(s),
    decreases s.len() - j,
{
    if j == s.len() {
        assert(s.take(j) =~= s);
    } else {
        lemma_dec_val_take_le(s, j + 1);
        let t = s.take(j + 1);
        assert(t.drop_last() =~= s.take(j));
        assert(dec_val(s.take(j)) <= dec_val(t));
    }
}

/// The decimal text of a value consists of digit characters and its byte
/// form parses back to the value.
pub proof fn lemma_dec_roundtrip(n: nat)
    ensures
        dec_str_of(n).len() >= 1,
        dec_bytes_of(n).len() == dec_str_of(n).len(),
        forall|i: int| 0 <= i < dec_str_of(n).len() ==> 48 <= #[trigger] dec_str_of(n)[i] as int
            <= 57,
        all_dec_digits(dec_bytes_of(n)),
        dec_val(dec_bytes_of(n)) == n,
    decreases n,
{
    let s = dec_str_of(n);
    let b = dec_bytes_of(n);
    if n < 10 {
        assert(dec_digit(n) as u8 == (48 + n) as u8);
        assert(dec_digit(n) as int == 48 + n);
        assert(b =~= seq![(48 + n) as u8]);
        assert(b.drop_last() =~= Seq::<u8>::empty());
        assert(b.last() == (48 + n) as u8);
        assert(is_dec_digit_byte(b.last()));
        assert(dec_val(b) == dec_val(b.drop_last()) * 10 + (b.last() - 48));
        assert(dec_val(b.drop_last()) == 0);
    } else {
        lemma_dec_roundtrip(n / 10);
        lemma_fundamental_div_mod(n as int, 10);
        assert(dec_digit(n % 10) as u8 == (48 + n % 10) as u8);
        assert(dec_digit(n % 10) as int == 48 + n % 10);
        let bq = dec_bytes_of(n / 10);
        assert(b.drop_last() =~= bq);
        assert(b.last() == dec_digit(n % 10) as u8);
        assert(dec_val(b) == dec_val(bq) * 10 + (n % 10));
    }
}

/// Append the canonical decimal text of a value to a string.
pub fn push_decimal(out: &mut String, n: u64)
    ensures
        final(out)@ == old(out)@ + dec_str_of(n as nat),
    decreases n,
{
    if n >= 10 {
        proof {
            lemma_div_decreases(n as int, 10);
        }
        push_decimal(out, n / 10);
    }
    let d: u8 = 48 + (n % 10) as u8;
    out.push(d as char);
    proof {
        if n < 10 {
            assert(old(out)@ + dec_str_of(n as nat) =~= old(out)@.push(dec_digit(n as nat)));
        } else {
            assert(old(out)@ + dec_str_of(n as nat) =~= (old(out)@ + dec_str_of(
                (n / 10) as nat,
            )).push(dec_digit((n % 10) as nat)));
        }
    }
}

/// The canonical decimal text of a value.
pub fn format_u64(n: u64) -> (r: String)
    ensures
        r@ == dec_str_of(n as nat),
{
    let mut out = String::new();
    push_decimal(&mut out, n);
    proof {
        assert(Seq::<char>::empty() + dec_str_of(n as nat) =~= dec_str_of(n as nat));
    }
    out
}

/// Parse an unsigned decimal value from ASCII bytes: at least one digit, all
/// digits, value within range.
pub fn parse_u64(s: &[u8]) -> (r: Option<u64>)
    ensures
        r is Some <==> s@.len() >= 1 && all_dec_digits(s@) && dec_val(s@) <= u64::MAX,
        r matches Some(v) ==> v as nat == dec_val(s@),
{
    if s.len() == 0 {
        return None;
    }
    let mut acc: u64 = 0;
    let mut i: usize = 0;
    while i < s.len()
        invariant
            1 <= s@.len(),
            i <= s@.len(),
            all_dec_digits(s@.take(i as int)),
            acc as nat == dec_val(s@.take(i as int)),
        decreases s@.len() - i,
    {
        let b = s[i];
        if b < 48 || b > 57 {
            return None;
        }
        let d: u64 = (b - 48) as u64;
        if acc > (u64::MAX - d) / 10 {
            proof {
                lemma_fundamental_div_mod((u64::MAX - d) as int, 10);
                let t = s@.take(i as int + 1);
                assert(t.drop_last() =~= s@.take(i as int));
                assert(t.last() == b);
                assert(dec_val(t) == dec_val(s@.take(i as int)) * 10 + d);
                assert(dec_val(t) > u64::MAX);
                lemma_dec_val_take_le(s@, i as int + 1);
            }
            return None;
        }
        proof {
            lemma_fundamental_div_mod((u64::MAX - d) as int, 10);
            let t = s@.take(i as int + 1);
            assert(t.drop_last() =~= s@.take(i as int));
            assert(t.last() == b);
            assert(dec_val(t) == dec_val(s@.take(i as int)) * 10 + d);
        }
        acc = acc * 10 + d;
        i = i + 1;
    }
    proof {
        assert(s@.take(s@.len() as int) =~= s@);
    }
    Some(acc)
}

} // verus!
