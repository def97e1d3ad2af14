//! Lowercase hexadecimal encoding and decoding of byte sequences, verified
//! against the spec-level codec `hex_of_bytes` / `bytes_of_hex`.

use vstd::prelude::*;
use vstd::arithmetic::div_mod::lemma_fundamental_div_mod;

verus! {

/// A hexadecimal digit character, either case.
pub open spec fn is_hex_char(c: char) -> bool {
    ||| 48 <= c as int && c as int <= 57  // '0'..='9'
    ||| 97 <= c as int && c as int <= 102  // 'a'..='f'
    ||| 65 <= c as int && c as int <= 70  // 'A'..='F'
}

/// The value of a hexadecimal digit character.
pub open spec fn hex_char_val(c: char) -> nat
    recommends
        is_hex_char(c),
{
    if 48 <= c as int && c as int <= 57 {
        (c as int - 48) as nat
    } else if 97 <= c as int && c as int <= 102 {
        (c as int - 87) as nat
    } else {
        (c as int - 55) as nat
    }
}

/// The lowercase hexadecimal digit character for a nibble.
pub open spec fn hex_digit(n: nat) -> char
    recommends
        n < 16,
{
    if n < 10 {
        ((48 + n) as u8) as char
    } else {
        ((87 + n) as u8) as char
    }
}

/// Canonical lowercase hexadecimal text of a byte sequence: two digits per
/// byte, high nibble first.
pub open spec fn hex_of_bytes(s: Seq<u8>) -> Seq<char> {
    Seq::new(
        s.len() * 2,
        |i: int|
            if i % 2 == 0 {
                hex_digit((s[i / 2] / 16) as nat)
            } else {
                hex_digit((s[i / 2] % 16) as nat)
            },
    )
}

pub open spec fn all_hex(s: Seq<char>) -> bool {
    forall|i: int| 0 <= i < s.len() ==> is_hex_char(#[trigger] s[i])
}

/// The bytes denoted by an even-length hexadecimal character sequence.
pub open spec fn bytes_of_hex(s: Seq<char>) -> Seq<u8>
    recommends
        s.len() % 2 == 0,
        all_hex(s),
{
    Seq::new(
        s.len() / 2,
        |i: int| (hex_char_val(s[2 * i]) * 16 + hex_char_val(s[2 * i + 1])) as u8,
    )
}

/// Relies on String::push: appends the given char to the end of the String.
pub assume_specification[ String::push ](s: &mut String, c: char)
    ensures
        final(s)@ == old(s)@.push(c),
;

fn hex_digit_char(n: u8) -> (c: char)
    requires
        n < 16,
    ensures
        c == hex_digit(n as nat),
        is_hex_char(c),
        hex_char_val(c) == n as nat,
{
    if n < 10 {
        (48 + n) as char
    } else {
        (87 + n) as char
    }
}

/// Encode bytes as lowercase hexadecimal text.
pub fn encode_hex(bytes: &[u8]) -> (r: String)
    ensures
        r@ == hex_of_bytes(bytes@),
{
    let mut out = String::new();
    let mut i: usize = 0;
    while i < bytes.len()
        invariant
            i <= bytes@.len(),
            out@ =~= hex_of_bytes(bytes@.take(i as int)),
        decreases bytes@.len() - i,
    {
        let b = bytes[i];
        proof {
            lemma_fundamental_div_mod(b as int, 16);
        }
        out.push(hex_digit_char(b / 16));
        out.push(hex_digit_char(b % 16));
        i = i + 1;
        proof {
            assert(out@ =~= hex_of_bytes(bytes@.take(i as int)));
        }
    }
    proof {
        assert(bytes@.take(bytes@.len() as int) =~= bytes@);
    }
    out
}

fn hex_val_of(c: char) -> (r: Option<u8>)
    ensures
        r is Some <==> is_hex_char(c),
        r is Some ==> r->Some_0 as nat == hex_char_val(c) && r->Some_0 < 16,
{
    let n = c as u32;
    if 48 <= n && n <= 57 {
        Some((n - 48) as u8)
    } else if 97 <= n && n <= 102 {
        Some((n - 87) as u8)
    } else if 65 <= n && n <= 70 {
        Some((n - 55) as u8)
    } else {
        None
    }
}

/// Decode hexadecimal text (either case) into bytes; `None` unless the text
/// has even length and consists of hexadecimal digits only.
pub fn decode_hex(s: &str) -> (r: Option<Vec<u8>>)
    ensures
        r is Some <==> s@.len() % 2 == 0 && all_hex(s@),
        r is Some ==> r->Some_0@ == bytes_of_hex(s@),
{
    let len = s.unicode_len();
    if len % 2 != 0 {
        return None;
    }
    let mut out: Vec<u8> = Vec::new();
    let mut i: usize = 0;
    while i < len / 2
        invariant
            len == s@.len(),
            len % 2 == 0,
            i <= len / 2,
            forall|j: int| 0 <= j < 2 * i ==> is_hex_char(#[trigger] s@[j]),
            out@ =~= bytes_of_hex(s@.take(2 * i as int)),
        decreases len / 2 - i,
    {
        let c0 = s.get_char(2 * i);
        let c1 = s.get_char(2 * i + 1);
        let v0 = match hex_val_of(c0) {
            Some(v) => v,
            None => {
                return None;
            },
        };
        let v1 = match hex_val_of(c1) {
            Some(v) => v,
            None => {
                return None;
            },
        };
        out.push(v0 * 16 + v1);
        i = i + 1;
        proof {
            assert(out@ =~= bytes_of_hex(s@.take(2 * i as int)));
        }
    }
    proof {
        assert(s@.take(2 * (len / 2) as int) =~= s@);
    }
    Some(out)
}

/// Decoding inverts encoding: the canonical hexadecimal text of a byte
/// sequence is all hex digits, has even length, and denotes those bytes.
pub proof fn lemma_hex_roundtrip(b: Seq<u8>)
    ensures
        hex_of_bytes(b).len() == b.len() * 2,
        all_hex(hex_of_bytes(b)),
        bytes_of_hex(hex_of_bytes(b)) =~= b,
{
    let h = hex_of_bytes(b);
    assert forall|i: int| 0 <= i < h.len() implies is_hex_char(#[trigger] h[i]) by {
        let bi = b[i / 2];
        lemma_fundamental_div_mod(bi as int, 16);
    }
    assert forall|i: int| 0 <= i < b.len() implies bytes_of_hex(h)[i] == b[i] by {
        let bi = b[i];
        lemma_fundamental_div_mod(bi as int, 16);
        assert(h[2 * i] == hex_digit((bi / 16) as nat));
        assert(h[2 * i + 1] == hex_digit((bi % 16) as nat));
    }
}

/// The characters an ASCII byte sequence spells.
pub open spec fn chars_of_ascii(s: Seq<u8>) -> Seq<char> {
    Seq::new(s.len(), |i: int| s[i] as char)
}

/// Decode hexadecimal ASCII bytes (either case) into bytes; `None` unless
/// the text has even length and consists of hexadecimal digits only.
pub fn decode_hex_ascii(s: &[u8]) -> (r: Option<Vec<u8>>)
    ensures
        r is Some <==> s@.len() % 2 == 0 && all_hex(chars_of_ascii(s@)),
        r matches Some(v) ==> v@ == bytes_of_hex(chars_of_ascii(s@)),
{
    let ghost cs = chars_of_ascii(s@);
    let len = s.len();
    if len % 2 != 0 {
        return None;
    }
    let mut out: Vec<u8> = Vec::new();
    let mut i: usize = 0;
    while i < len / 2
        invariant
            len == s@.len(),
            len % 2 == 0,
            i <= len / 2,
            cs == chars_of_ascii(s@),
            forall|j: int| 0 <= j < 2 * i ==> is_hex_char(#[trigger] cs[j]),
            out@ =~= bytes_of_hex(cs.take(2 * i as int)),
        decreases len / 2 - i,
    {
        let c0 = s[2 * i] as char;
        let c1 = s[2 * i + 1] as char;
        proof {
            assert(cs[2 * i as int] == c0);
            assert(cs[2 * i as int + 1] == c1);
        }
        let v0 = match hex_val_of(c0) {
            Some(v) => v,
            None => {
                proof {
                    assert(!is_hex_char(cs[2 * i as int]));
                }
                return None;
            },
        };
        let v1 = match hex_val_of(c1) {
            Some(v) => v,
            None => {
                proof {
                    assert(!is_hex_char(cs[2 * i as int + 1]));
                }
                return None;
            },
        };
        out.push(v0 * 16 + v1);
        i = i + 1;
        proof {
            assert(out@ =~= bytes_of_hex(cs.take(2 * i as int)));
        }
    }
    proof {
        assert(cs.take(2 * (len / 2) as int) =~= cs);
    }
    Some(out)
}

/// Hexadecimal digit characters are ASCII.
pub proof fn lemma_hex_chars_ascii(s: Seq<char>)
    requires
        all_hex(s),
    ensures
        vstd::utf8::is_ascii_chars(s),
{
    assert forall|i: int| 0 <= i < s.len() implies '\0' <= #[trigger] s[i] <= '\u{7f}' by {
        assert(is_hex_char(s[i]));
    }
}

/// Encoding is injective: distinct byte sequences have distinct hexadecimal
/// texts.
pub proof fn lemma_hex_injective(a: Seq<u8>, b: Seq<u8>)
    requires
        hex_of_bytes(a) == hex_of_bytes(b),
    ensures
        a =~= b,
{
    lemma_hex_roundtrip(a);
    lemma_hex_roundtrip(b);
}

} // verus!
