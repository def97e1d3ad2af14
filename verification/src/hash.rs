//! The content hash: 64 raw SHA-512 digest bytes paired with their canonical
//! 128-character lowercase hexadecimal form, and the sharded cache path
//! derived from it.

use vstd::prelude::*;
use vstd::string::*;
use crate::hexcode::{
    all_hex, bytes_of_hex, hex_of_bytes, decode_hex, encode_hex, lemma_hex_chars_ascii,
    lemma_hex_roundtrip,
};

verus! {

/// A content hash. The raw digest bytes and their canonical lowercase
/// hexadecimal text are kept together and never diverge.
#[derive(Debug, Clone)]
pub struct Hash {
    /// The 64 raw digest bytes.
    pub hash: Vec<u8>,
    /// The canonical 128-character lowercase hexadecimal form.
    pub hash_string: String,
}

/// The first-two-hex-characters shard directory name for a digest.
pub open spec fn shard_dir(digest: Seq<u8>) -> Seq<char> {
    hex_of_bytes(digest).subrange(0, 2)
}

/// The remaining-126-hex-characters file name for a digest.
pub open spec fn shard_file(digest: Seq<u8>) -> Seq<char> {
    hex_of_bytes(digest).subrange(2, hex_of_bytes(digest).len() as int)
}

/// The full cache path of an object: `<cache>/<first 2 hex>/<remaining hex>`.
pub open spec fn object_path(cache_dir: Seq<char>, digest: Seq<u8>) -> Seq<char> {
    cache_dir + seq!['/'] + shard_dir(digest) + seq!['/'] + shard_file(digest)
}

impl View for Hash {
    type V = Seq<u8>;

    open spec fn view(&self) -> Seq<u8> {
        self.hash@
    }
}

impl Hash {
    /// The raw digest is 64 bytes and the text is its canonical lowercase
    /// hexadecimal form.
    pub open spec fn wf(&self) -> bool {
        &&& self.hash@.len() == 64
        &&& self.hash_string@ == hex_of_bytes(self.hash@)
    }

    /// The canonical hexadecimal text of this hash.
    pub open spec fn text(&self) -> Seq<char> {
        self.hash_string@
    }

    /// Wrap 64 raw digest bytes, deriving the canonical text.
    pub fn from_bytes(bytes: Vec<u8>) -> (r: Hash)
        requires
            bytes@.len() == 64,
        ensures
            r.wf(),
            r@ == bytes@,
    {
        let hash_string = encode_hex(bytes.as_slice());
        Hash { hash: bytes, hash_string }
    }

    /// Parse a hash from text: exactly 128 hexadecimal characters (either
    /// case), decoding to 64 bytes. The stored text is the canonical
    /// lowercase form.
    pub fn from_string(value: &String) -> (r: Option<Hash>)
        ensures
            r is Some <==> value@.len() == 128 && all_hex(value@),
            r matches Some(h) ==> h.wf() && h@ == bytes_of_hex(value@),
    {
        let s = value.as_str();
        if s.unicode_len() != 128 {
            return None;
        }
        match decode_hex(s) {
            Some(bytes) => Some(Hash::from_bytes(bytes)),
            None => None,
        }
    }

    /// The shard directory name (first 2 hex characters) and file name
    /// (remaining 126) of this hash.
    pub fn get_parts(&self) -> (r: (&str, &str))
        requires
            self.wf(),
        ensures
            r.0@ == shard_dir(self@),
            r.1@ == shard_file(self@),
    {
        proof {
            lemma_hex_roundtrip(self.hash@);
            lemma_hex_chars_ascii(self.hash_string@);
        }
        let s = self.hash_string.as_str();
        (s.substring_ascii(0, 2), s.substring_ascii(2, 128))
    }

    /// The on-disk path of this object under the given cache directory.
    pub fn get_path(&self, cache_dir: &str) -> (r: String)
        requires
            self.wf(),
        ensures
            r@ == object_path(cache_dir@, self@),
    {
        let (dir, file) = self.get_parts();
        let mut out = String::from_str(cache_dir);
        out.push('/');
        out.append(dir);
        out.push('/');
        out.append(file);
        proof {
            assert(out@ =~= object_path(cache_dir@, self@));
        }
        out
    }

    /// Reconstruct a hash from a shard directory name and a file name:
    /// exactly 2 + 126 hexadecimal characters.
    pub fn from_path(directory: &str, filename: &str) -> (r: Option<Hash>)
        ensures
            r is Some <==> directory@.len() == 2 && filename@.len() == 126 && all_hex(
                directory@ + filename@,
            ),
            r matches Some(h) ==> h.wf() && h@ == bytes_of_hex(directory@ + filename@),
    {
        if directory.unicode_len() != 2 {
            return None;
        }
        if filename.unicode_len() != 126 {
            return None;
        }
        let mut combined = String::from_str(directory);
        combined.append(filename);
        Hash::from_string(&combined)
    }

    /// A copy of this hash.
    pub fn duplicate(&self) -> (r: Hash)
        ensures
            r@ == self@,
            r.text() == self.text(),
            self.wf() ==> r.wf(),
    {
        let bytes = self.hash.clone();
        proof {
            assert forall|i: int| 0 <= i < self.hash@.len() implies bytes@[i] == self.hash@[i] by {
                assert(vstd::pervasive::cloned::<u8>(self.hash@[i], bytes@[i]));
            }
            assert(bytes@ =~= self.hash@);
        }
        Hash { hash: bytes, hash_string: self.hash_string.clone() }
    }

    /// Whether the given bytes equal this hash's raw digest bytes.
    pub fn matches_bytes(&self, other: &[u8]) -> (r: bool)
        ensures
            r == (self@ == other@),
    {
        crate::bytes_eq(self.hash.as_slice(), other)
    }
}

impl PartialEq for Hash {
    fn eq(&self, other: &Self) -> (r: bool) {
        crate::bytes_eq(self.hash.as_slice(), other.hash.as_slice())
    }
}

impl Eq for Hash {}

impl vstd::std_specs::cmp::PartialEqSpecImpl for Hash {
    open spec fn obeys_eq_spec() -> bool {
        true
    }

    open spec fn eq_spec(&self, other: &Self) -> bool {
        self.hash@ == other.hash@
    }
}

} // verus!
