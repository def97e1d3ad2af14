//! The canonical object encoding: every stored object is `prefix || body`
//! with `prefix = "<keyword> <decimal body length>\0"`, and its hash is the
//! SHA-512 digest of exactly those bytes.

use vstd::prelude::*;
use vstd::slice::slice_subrange;
use vstd::string::*;
use crate::decimal::{
    all_dec_digits, dec_bytes_of, dec_str_of, dec_val, lemma_dec_roundtrip, parse_u64,
    push_decimal,
};
use crate::digest::{hasher_input, sha512_of, Sha512Hasher};
use crate::objects::{
    lemma_type_key_ascii, type_key, type_key_bytes, ObjectType,
};

verus! {

/// The canonical prefix of an object, as characters.
pub open spec fn prefix_chars(t: ObjectType, size: nat) -> Seq<char> {
    type_key(t) + seq![' '] + dec_str_of(size) + seq!['\u{0}']
}

/// The canonical prefix of an object, as bytes.
pub open spec fn prefix_bytes(t: ObjectType, size: nat) -> Seq<u8> {
    type_key_bytes(t) + seq![32u8] + dec_bytes_of(size) + seq![0u8]
}

/// The full encoding of an object: its prefix followed by its body.
pub open spec fn object_encoding(t: ObjectType, body: Seq<u8>) -> Seq<u8> {
    prefix_bytes(t, body.len()) + body
}

/// The content hash of an object: the digest of its full encoding.
pub open spec fn object_hash(t: ObjectType, body: Seq<u8>) -> Seq<u8> {
    sha512_of(object_encoding(t, body))
}

/// The prefix characters are ASCII and read byte-for-byte as `prefix_bytes`.
pub proof fn lemma_prefix_ascii(t: ObjectType, size: nat)
    ensures
        vstd::utf8::is_ascii_chars(prefix_chars(t, size)),
        prefix_bytes(t, size) =~= Seq::new(
            prefix_chars(t, size).len(),
            |i: int| prefix_chars(t, size)[i] as u8,
        ),
{
    lemma_type_key_ascii(t);
    lemma_dec_roundtrip(size);
}

/// The index of the first occurrence of a byte, if any.
pub open spec fn find_byte(s: Seq<u8>, b: u8) -> Option<int>
    decreases s.len(),
{
    if s.len() == 0 {
        None
    } else if s[0] == b {
        Some(0)
    } else {
        match find_byte(s.drop_first(), b) {
            Some(i) => Some(i + 1),
            None => None,
        }
    }
}

/// What `find_byte` returns: the first position holding the byte, or `None`
/// when the byte does not occur.
pub proof fn lemma_find_byte(s: Seq<u8>, b: u8)
    ensures
        match find_byte(s, b) {
            Some(i) => 0 <= i < s.len() && s[i] == b && (forall|j: int| 0 <= j < i ==> s[j] != b),
            None => forall|j: int| 0 <= j < s.len() ==> s[j] != b,
        },
    decreases s.len(),
{
    if s.len() == 0 {
    } else if s[0] == b {
    } else {
        let t = s.drop_first();
        lemma_find_byte(t, b);
        assert(forall|j: int| 0 <= j < t.len() ==> t[j] == s[j + 1]);
        match find_byte(t, b) {
            Some(i) => {
                assert(s[i + 1] == b);
                assert forall|j: int| 0 <= j < i + 1 implies s[j] != b by {
                    if j > 0 {
                        assert(t[j - 1] != b);
                    }
                }
            },
            None => {
                assert forall|j: int| 0 <= j < s.len() implies s[j] != b by {
                    if j > 0 {
                        assert(t[j - 1] != b);
                    }
                }
            },
        }
    }
}

/// A position that holds the byte, with none before it, is what `find_byte`
/// returns.
pub proof fn lemma_find_byte_at(s: Seq<u8>, b: u8, i: int)
    requires
        0 <= i < s.len(),
        s[i] == b,
        forall|j: int| 0 <= j < i ==> s[j] != b,
    ensures
        find_byte(s, b) == Some(i),
{
    lemma_find_byte(s, b);
    match find_byte(s, b) {
        Some(k) => {
            if k < i {
            } else if k > i {
            }
        },
        None => {},
    }
}

/// Parse the text of an object header (the bytes before the NUL terminator):
/// `"<keyword> <decimal size>"`, with the keyword before the first space.
pub open spec fn parse_header(s: Seq<u8>) -> Option<(ObjectType, u64)> {
    match find_byte(s, 32u8) {
        None => None,
        Some(i) => {
            let kind = s.take(i);
            let size_text = s.skip(i + 1);
            let t = if kind == type_key_bytes(ObjectType::Blob) {
                Some(ObjectType::Blob)
            } else if kind == type_key_bytes(ObjectType::Tree) {
                Some(ObjectType::Tree)
            } else if kind == type_key_bytes(ObjectType::Index) {
                Some(ObjectType::Index)
            } else {
                None
            };
            match t {
                None => None,
                Some(t) => if size_text.len() >= 1 && all_dec_digits(size_text) && dec_val(
                    size_text,
                ) <= u64::MAX {
                    Some((t, dec_val(size_text) as u64))
                } else {
                    None
                },
            }
        },
    }
}

/// The first position of a byte in a slice.
pub fn find_byte_in(s: &[u8], b: u8) -> (r: Option<usize>)
    ensures
        match r {
            Some(i) => find_byte(s@, b) == Some(i as int),
            None => find_byte(s@, b) is None,
        },
{
    let mut i: usize = 0;
    while i < s.len()
        invariant
            i <= s@.len(),
            forall|j: int| 0 <= j < i ==> s@[j] != b,
        decreases s@.len() - i,
    {
        if s[i] == b {
            proof {
                lemma_find_byte_at(s@, b, i as int);
            }
            return Some(i);
        }
        i = i + 1;
    }
    proof {
        lemma_find_byte(s@, b);
        match find_byte(s@, b) {
            Some(k) => {
                assert(s@[k] != b);
            },
            None => {},
        }
    }
    None
}

/// The object kind whose keyword the bytes spell, if any.
pub fn type_from_bytes(s: &[u8]) -> (r: Option<ObjectType>)
    ensures
        r matches Some(t) ==> s@ == type_key_bytes(t),
        r is None ==> forall|t: ObjectType| s@ != type_key_bytes(t),
{
    if s.len() == 4 && s[0] == 98 && s[1] == 108 && s[2] == 111 && s[3] == 98 {
        proof {
            assert(s@ =~= type_key_bytes(ObjectType::Blob));
        }
        Some(ObjectType::Blob)
    } else if s.len() == 4 && s[0] == 116 && s[1] == 114 && s[2] == 101 && s[3] == 101 {
        proof {
            assert(s@ =~= type_key_bytes(ObjectType::Tree));
        }
        Some(ObjectType::Tree)
    } else if s.len() == 5 && s[0] == 105 && s[1] == 110 && s[2] == 100 && s[3] == 101 && s[4]
        == 120 {
        proof {
            assert(s@ =~= type_key_bytes(ObjectType::Index));
        }
        Some(ObjectType::Index)
    } else {
        proof {
            assert forall|t: ObjectType| s@ != type_key_bytes(t) by {
                match t {
                    ObjectType::Blob => {
                        if s@ == type_key_bytes(ObjectType::Blob) {
                            assert(s@.len() == 4 && s@[0] == 98 && s@[1] == 108 && s@[2] == 111
                                && s@[3] == 98);
                        }
                    },
                    ObjectType::Tree => {
                        if s@ == type_key_bytes(ObjectType::Tree) {
                            assert(s@.len() == 4 && s@[0] == 116 && s@[1] == 114 && s@[2] == 101
                                && s@[3] == 101);
                        }
                    },
                    ObjectType::Index => {
                        if s@ == type_key_bytes(ObjectType::Index) {
                            assert(s@.len() == 5 && s@[0] == 105 && s@[1] == 110 && s@[2] == 100
                                && s@[3] == 101 && s@[4] == 120);
                        }
                    },
                }
            }
        }
        None
    }
}

/// Interpret the bytes before a header's NUL terminator as
/// `"<keyword> <decimal size>"`.
pub fn read_header_from_slice(slice: &[u8]) -> (r: Option<(ObjectType, u64)>)
    ensures
        r == parse_header(slice@),
{
    let space = match find_byte_in(slice, 32) {
        Some(i) => i,
        None => {
            return None;
        },
    };
    proof {
        lemma_find_byte(slice@, 32);
        assert(space < slice@.len());
    }
    let kind_bytes = slice_subrange(slice, 0, space);
    let t = match type_from_bytes(kind_bytes) {
        Some(t) => t,
        None => {
            proof {
                assert(slice@.subrange(0, space as int) =~= slice@.take(space as int));
            }
            return None;
        },
    };
    let n = slice.len();
    let size_bytes = slice_subrange(slice, space + 1, n);
    proof {
        assert(slice@.subrange(0, space as int) =~= slice@.take(space as int));
        assert(slice@.subrange(space as int + 1, slice@.len() as int) =~= slice@.skip(
            space as int + 1,
        ));
        crate::objects::lemma_type_keys_distinct();
    }
    match parse_u64(size_bytes) {
        Some(v) => Some((t, v)),
        None => None,
    }
}

/// The canonical prefix text of an object: keyword, space, decimal size, NUL.
pub fn get_object_prefix(object_type: ObjectType, object_size: u64) -> (r: String)
    ensures
        r@ == prefix_chars(object_type, object_size as nat),
{
    let mut out = String::from_str(object_type.to_str());
    out.push(' ');
    push_decimal(&mut out, object_size);
    out.push(0u8 as char);
    proof {
        assert(out@ =~= prefix_chars(object_type, object_size as nat));
    }
    out
}

/// The canonical prefix of an object, as bytes.
pub fn get_object_prefix_bytes(object_type: ObjectType, object_size: u64) -> (r: Vec<u8>)
    ensures
        r@ == prefix_bytes(object_type, object_size as nat),
{
    let s = get_object_prefix(object_type, object_size);
    let sref = s.as_str();
    proof {
        lemma_prefix_ascii(object_type, object_size as nat);
        vstd::string::is_ascii_spec_bytes(sref);
    }
    let r = sref.as_bytes_vec();
    proof {
        assert(r@ =~= prefix_bytes(object_type, object_size as nat));
    }
    r
}

/// Parsing a canonical header text yields the kind and size it was built
/// from: the header round-trips.
pub proof fn lemma_header_roundtrip(t: ObjectType, size: u64)
    ensures
        prefix_bytes(t, size as nat).last() == 0,
        find_byte(prefix_bytes(t, size as nat), 0u8) == Some(
            prefix_bytes(t, size as nat).len() - 1,
        ),
        parse_header(prefix_bytes(t, size as nat).drop_last()) == Some((t, size)),
{
    let p = prefix_bytes(t, size as nat);
    let klen = type_key_bytes(t).len() as int;
    let header = p.drop_last();
    lemma_type_key_ascii(t);
    lemma_dec_roundtrip(size as nat);
    assert(header =~= type_key_bytes(t) + seq![32u8] + dec_bytes_of(size as nat));
    // the NUL terminator is the last byte and occurs nowhere else
    assert forall|j: int| 0 <= j < p.len() - 1 implies p[j] != 0 by {
        if j < klen {
        } else if j == klen {
        } else {
            assert(p[j] == dec_bytes_of(size as nat)[j - klen - 1]);
        }
    }
    lemma_find_byte_at(p, 0u8, p.len() - 1);
    // the separating space is the first space in the header
    assert(header[klen] == 32);
    assert forall|j: int| 0 <= j < klen implies header[j] != 32 by {
        assert(header[j] == type_key_bytes(t)[j]);
    }
    lemma_find_byte_at(header, 32u8, klen);
    assert(header.take(klen) =~= type_key_bytes(t));
    assert(header.skip(klen + 1) =~= dec_bytes_of(size as nat));
    crate::objects::lemma_type_keys_distinct();
}

/// The hash of an object: the digest of its canonical prefix followed by its
/// body bytes, computed in one streamed pass.
pub fn hash_object(object_type: ObjectType, body: &[u8]) -> (r: crate::hash::Hash)
    ensures
        r.wf(),
        r@ == object_hash(object_type, body@),
{
    let prefix = get_object_prefix_bytes(object_type, body.len() as u64);
    let mut h = Sha512Hasher::new();
    h.update(prefix.as_slice());
    h.update(body);
    proof {
        assert(hasher_input(h) =~= object_encoding(object_type, body@));
    }
    crate::hash::Hash::from_bytes(h.finish())
}

} // verus!
