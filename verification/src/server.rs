//! The remote object store protocol: streaming upload verification, the
//! download request decision, the header-stripping download decoder, and the
//! kind-indexed presence sets built from a cache scan at startup.

use vstd::prelude::*;
use crate::decimal::{all_dec_digits, dec_val, parse_u64};
use crate::digest::{hasher_input, Sha512Hasher};
use crate::encoding::{
    find_byte, find_byte_in, get_object_prefix_bytes, object_encoding, object_hash, parse_header,
    prefix_bytes, read_header_from_slice,
};
use crate::errors::StoreError;
use crate::hexcode::{all_hex, bytes_of_hex};
use crate::objects::{type_key, ObjectType};

verus! {

/// A syntactically valid hash text: exactly 128 hexadecimal characters.
pub open spec fn valid_hash_text(s: Seq<char>) -> bool {
    s.len() == 128 && all_hex(s)
}

/// The declared size a header value denotes, if it is a decimal number in
/// range (judged over the value's UTF-8 bytes).
pub open spec fn spec_parse_size(s: Seq<char>) -> Option<u64> {
    let b = vstd::utf8::encode_utf8(s);
    if b.len() >= 1 && all_dec_digits(b) && dec_val(b) <= u64::MAX {
        Some(dec_val(b) as u64)
    } else {
        None
    }
}

/// The object kind a header value names, if any.
pub open spec fn spec_parse_type(s: Seq<char>) -> Option<ObjectType> {
    if s == type_key(ObjectType::Blob) {
        Some(ObjectType::Blob)
    } else if s == type_key(ObjectType::Tree) {
        Some(ObjectType::Tree)
    } else if s == type_key(ObjectType::Index) {
        Some(ObjectType::Index)
    } else {
        None
    }
}

/// The text of an optional header value.
pub open spec fn opt_text(o: Option<&String>) -> Option<Seq<char>> {
    match o {
        Some(s) => Some(s@),
        None => None,
    }
}

/// Both upload headers are present and parsable.
pub open spec fn upload_headers_ok(ot: Option<Seq<char>>, os: Option<Seq<char>>) -> bool {
    &&& ot matches Some(ts) && spec_parse_type(ts) is Some
    &&& os matches Some(ss) && spec_parse_size(ss) is Some
}

/// A running upload: the canonical prefix has been fed to the digest, body
/// chunks follow, and the outcome is decided only when the stream ends.
pub struct UploadSession {
    expected: crate::hash::Hash,
    object_type: ObjectType,
    declared_size: u64,
    received: u64,
    hasher: Sha512Hasher,
    body: Ghost<Seq<u8>>,
}

/// How a finished upload is answered.
#[derive(Copy, Clone, Debug, PartialEq, Eq, Structural)]
pub enum UploadOutcome {
    /// The body matched its declared size and its hash: the object now exists.
    Created,
    /// The counted body length differed from the declared size.
    LengthMismatch,
    /// The computed digest differed from the hash the upload was addressed to.
    HashMismatch,
}

impl UploadSession {
    /// The digest has consumed exactly the prefix for the declared kind and
    /// size followed by the body so far, and the running length counts it.
    pub closed spec fn wf(&self) -> bool {
        &&& self.expected.wf()
        &&& hasher_input(self.hasher) == prefix_bytes(
            self.object_type,
            self.declared_size as nat,
        ) + self.body@
        &&& self.received == self.body@.len()
    }

    /// The body bytes received so far.
    pub closed spec fn body(&self) -> Seq<u8> {
        self.body@
    }

    /// The kind the upload declared.
    pub closed spec fn declared_kind(&self) -> ObjectType {
        self.object_type
    }

    /// The size the upload declared.
    pub closed spec fn declared_size(&self) -> u64 {
        self.declared_size
    }

    /// The digest the upload was addressed to.
    pub closed spec fn expected_digest(&self) -> Seq<u8> {
        self.expected@
    }

    /// Start an upload addressed to `expected`. Returns the session and the
    /// canonical prefix bytes, which the caller must write to the destination
    /// before the body.
    pub fn start(expected: crate::hash::Hash, object_type: ObjectType, declared_size: u64) -> (r: (
        UploadSession,
        Vec<u8>,
    ))
        requires
            expected.wf(),
        ensures
            r.0.wf(),
            r.0.body() == Seq::<u8>::empty(),
            r.0.declared_kind() == object_type,
            r.0.declared_size() == declared_size,
            r.0.expected_digest() == expected@,
            r.1@ == prefix_bytes(object_type, declared_size as nat),
    {
        let prefix = get_object_prefix_bytes(object_type, declared_size);
        let mut hasher = Sha512Hasher::new();
        hasher.update(prefix.as_slice());
        proof {
            assert(hasher_input(hasher) =~= prefix_bytes(object_type, declared_size as nat)
                + Seq::<u8>::empty());
        }
        let session = UploadSession {
            expected,
            object_type,
            declared_size,
            received: 0,
            hasher,
            body: Ghost(Seq::empty()),
        };
        (session, prefix)
    }

    /// Feed one body chunk: it is counted and fed to the digest. Returns
    /// false, changing nothing, only when the running total would no longer
    /// fit in a length counter.
    pub fn push_chunk(&mut self, chunk: &[u8]) -> (ok: bool)
        requires
            old(self).wf(),
        ensures
            final(self).wf(),
            final(self).declared_kind() == old(self).declared_kind(),
            final(self).declared_size() == old(self).declared_size(),
            final(self).expected_digest() == old(self).expected_digest(),
            ok ==> final(self).body() == old(self).body() + chunk@,
            !ok ==> final(self).body() == old(self).body() && old(self).body().len() + chunk@.len()
                > u64::MAX,
    {
        let len = chunk.len() as u64;
        if len > u64::MAX - self.received {
            return false;
        }
        self.hasher.update(chunk);
        self.received = self.received + len;
        proof {
            self.body@ = self.body@ + chunk@;
            assert(hasher_input(self.hasher) =~= prefix_bytes(
                self.object_type,
                self.declared_size as nat,
            ) + self.body@);
        }
        true
    }

    /// Decide the upload: reject when the counted length differs from the
    /// declared size, else when the digest of prefix and body differs from
    /// the hash the upload was addressed to; otherwise the object is created.
    pub fn finish(self) -> (r: UploadOutcome)
        requires
            self.wf(),
        ensures
            r == UploadOutcome::LengthMismatch <==> self.body().len() != self.declared_size(),
            r == UploadOutcome::HashMismatch <==> self.body().len() == self.declared_size()
                && object_hash(self.declared_kind(), self.body()) != self.expected_digest(),
            r == UploadOutcome::Created <==> self.body().len() == self.declared_size()
                && object_hash(self.declared_kind(), self.body()) == self.expected_digest(),
    {
        if self.received != self.declared_size {
            return UploadOutcome::LengthMismatch;
        }
        let digest = self.hasher.finish();
        proof {
            assert(hasher_input(self.hasher) =~= object_encoding(self.object_type, self.body@));
        }
        if self.expected.matches_bytes(digest.as_slice()) {
            UploadOutcome::Created
        } else {
            UploadOutcome::HashMismatch
        }
    }
}

/// How an upload request is answered before any body byte is read.
pub enum UploadRequestCheck {
    /// The path did not hold a valid hash text.
    InvalidHash,
    /// An object with this hash already exists: a successful no-op.
    Duplicate(crate::hash::Hash),
    /// The kind or size header is missing or unparsable.
    MissingOrInvalidHeader,
    /// All checks passed: stream the body through the session, after writing
    /// the returned prefix bytes to the destination.
    Proceed(UploadSession, Vec<u8>),
}

/// Validate an upload request: the path's hash text, the duplicate check,
/// and the two object headers, in that order, before any stream consumption.
pub fn check_upload_request(
    object_id: &String,
    exists: bool,
    object_type: Option<&String>,
    object_size: Option<&String>,
) -> (r: UploadRequestCheck)
    ensures
        r is InvalidHash <==> !valid_hash_text(object_id@),
        r is Duplicate <==> valid_hash_text(object_id@) && exists,
        r matches UploadRequestCheck::Duplicate(h) ==> h.wf() && h@ == bytes_of_hex(object_id@),
        r is MissingOrInvalidHeader <==> valid_hash_text(object_id@) && !exists
            && !upload_headers_ok(opt_text(object_type), opt_text(object_size)),
        r is Proceed <==> valid_hash_text(object_id@) && !exists && upload_headers_ok(
            opt_text(object_type),
            opt_text(object_size),
        ),
        r matches UploadRequestCheck::Proceed(sess, prefix) ==> {
            &&& sess.wf()
            &&& sess.body() == Seq::<u8>::empty()
            &&& sess.expected_digest() == bytes_of_hex(object_id@)
            &&& Some(sess.declared_kind()) == spec_parse_type(opt_text(object_type)->Some_0)
            &&& Some(sess.declared_size()) == spec_parse_size(opt_text(object_size)->Some_0)
            &&& prefix@ == prefix_bytes(sess.declared_kind(), sess.declared_size() as nat)
        },
{
    let h = match crate::hash::Hash::from_string(object_id) {
        Some(h) => h,
        None => {
            return UploadRequestCheck::InvalidHash;
        },
    };
    if exists {
        return UploadRequestCheck::Duplicate(h);
    }
    let t = match object_type {
        Some(s) => match ObjectType::from_str(s.as_str()) {
            Some(t) => t,
            None => {
                return UploadRequestCheck::MissingOrInvalidHeader;
            },
        },
        None => {
            return UploadRequestCheck::MissingOrInvalidHeader;
        },
    };
    proof {
        crate::objects::lemma_type_keys_chars_distinct();
    }
    let size = match object_size {
        Some(s) => match parse_u64(s.as_str().as_bytes()) {
            Some(v) => v,
            None => {
                return UploadRequestCheck::MissingOrInvalidHeader;
            },
        },
        None => {
            return UploadRequestCheck::MissingOrInvalidHeader;
        },
    };
    let (sess, prefix) = UploadSession::start(h, t, size);
    UploadRequestCheck::Proceed(sess, prefix)
}

/// How a download request is answered before the stored file is opened.
pub enum DownloadDecision {
    /// The path did not hold a valid hash text.
    InvalidHash,
    /// No object with this hash exists: the distinguished "absent" outcome,
    /// with no body.
    Absent,
    /// The object exists: stream its file through the download decoder.
    Proceed(crate::hash::Hash),
}

/// Validate a download request: the path's hash text, then presence.
pub fn check_download_request(object_id: &String, exists: bool) -> (r: DownloadDecision)
    ensures
        r is InvalidHash <==> !valid_hash_text(object_id@),
        r is Absent <==> valid_hash_text(object_id@) && !exists,
        r is Proceed <==> valid_hash_text(object_id@) && exists,
        r matches DownloadDecision::Proceed(h) ==> h.wf() && h@ == bytes_of_hex(object_id@),
{
    match crate::hash::Hash::from_string(object_id) {
        Some(h) => {
            if exists {
                DownloadDecision::Proceed(h)
            } else {
                DownloadDecision::Absent
            }
        },
        None => DownloadDecision::InvalidHash,
    }
}

/// The two-phase download decoder: while no header has been seen it buffers
/// until the NUL terminator, parses `(kind, size)` out of the prefix, and
/// from then on forwards every byte unchanged as body.
pub struct TestCodec(pub Option<(ObjectType, u64)>);

impl TestCodec {
    /// A decoder that has not yet seen the header.
    pub fn new() -> (r: TestCodec)
        ensures
            r.0 is None,
    {
        TestCodec(None)
    }

    /// One decode step over the accumulated buffer: before the header, wait
    /// for the NUL terminator, then parse the prefix and emit whatever
    /// follows it; after the header, emit the whole buffer as body bytes.
    /// `Ok(None)` asks for more input; the buffer keeps only unconsumed
    /// bytes.
    pub fn decode(&mut self, buf: &mut Vec<u8>) -> (r: Result<Option<Vec<u8>>, StoreError>)
        ensures
            old(self).0 matches Some(h) ==> {
                &&& final(self).0 == old(self).0
                &&& if old(buf)@.len() == 0 {
                    r matches Ok(o) && o is None && final(buf)@ == old(buf)@
                } else {
                    r matches Ok(o) && o matches Some(v) && v@ == old(buf)@ && final(buf)@.len()
                        == 0
                }
            },
            old(self).0 is None ==> match find_byte(old(buf)@, 0u8) {
                None => r matches Ok(o) && o is None && final(self).0 is None && final(buf)@ == old(
                    buf,
                )@,
                Some(i) => match parse_header(old(buf)@.take(i)) {
                    None => r matches Err(e) && e == StoreError::CorruptObject && final(self).0
                        is None && final(buf)@ == old(buf)@,
                    Some(h) => {
                        &&& final(self).0 == Some(h)
                        &&& final(buf)@.len() == 0
                        &&& if old(buf)@.skip(i + 1).len() == 0 {
                            r matches Ok(o) && o is None
                        } else {
                            r matches Ok(o) && o matches Some(v) && v@ == old(buf)@.skip(i + 1)
                        }
                    },
                },
            },
    {
        if self.0.is_some() {
            if buf.len() == 0 {
                return Ok(None);
            }
            let out = buf.split_off(0);
            proof {
                assert(out@ =~= old(buf)@);
                assert(buf@ =~= Seq::<u8>::empty());
            }
            return Ok(Some(out));
        }
        let blen = buf.len();
        let nul = match find_byte_in(buf.as_slice(), 0) {
            Some(i) => i,
            None => {
                return Ok(None);
            },
        };
        proof {
            crate::encoding::lemma_find_byte(buf@, 0u8);
            assert(nul < blen);
        }
        let header_bytes = vstd::slice::slice_subrange(buf.as_slice(), 0, nul);
        proof {
            assert(header_bytes@ =~= old(buf)@.take(nul as int));
        }
        let header = match read_header_from_slice(header_bytes) {
            Some(h) => h,
            None => {
                return Err(StoreError::CorruptObject);
            },
        };
        self.0 = Some(header);
        let rest = buf.split_off(nul + 1);
        buf.clear();
        proof {
            assert(rest@ =~= old(buf)@.skip(nul as int + 1));
        }
        if rest.len() == 0 {
            Ok(None)
        } else {
            Ok(Some(rest))
        }
    }
}

/// Protocol symmetry: a stored object's bytes are the canonical encoding of
/// what its upload declared, and the download decoder sees exactly that
/// back — the first NUL ends the prefix, the prefix text parses to the
/// declared kind and size, and everything after the NUL is the body
/// unchanged. What is declared on an upload is what a download reports.
pub proof fn lemma_download_reports_upload(t: ObjectType, body: Seq<u8>)
    requires
        body.len() <= u64::MAX,
    ensures
        ({
            let data = crate::encoding::object_encoding(t, body);
            match find_byte(data, 0u8) {
                Some(i) => parse_header(data.take(i)) == Some((t, body.len() as u64))
                    && data.skip(i + 1) == body,
                None => false,
            }
        }),
{
    crate::store::lemma_encoding_file_parts(t, body);
}

/// The kind-indexed presence sets a server builds by scanning the shard
/// layout once at startup, with the aggregate declared size.
pub struct PresenceSets {
    pub blobs: Vec<crate::hash::Hash>,
    pub trees: Vec<crate::hash::Hash>,
    pub indexes: Vec<crate::hash::Hash>,
    pub total_size: u128,
}

impl PresenceSets {
    pub open spec fn wf(&self) -> bool {
        &&& forall|i: int| 0 <= i < self.blobs@.len() ==> (#[trigger] self.blobs@[i]).wf()
        &&& forall|i: int| 0 <= i < self.trees@.len() ==> (#[trigger] self.trees@[i]).wf()
        &&& forall|i: int| 0 <= i < self.indexes@.len() ==> (#[trigger] self.indexes@[i]).wf()
    }

    /// Empty presence sets.
    pub fn new() -> (r: PresenceSets)
        ensures
            r.wf(),
            r.blobs@.len() == 0,
            r.trees@.len() == 0,
            r.indexes@.len() == 0,
            r.total_size == 0,
    {
        PresenceSets { blobs: Vec::new(), trees: Vec::new(), indexes: Vec::new(), total_size: 0 }
    }

    /// Record one stored file found during the startup scan: its hash is
    /// reconstructed from the shard directory and file names, its header text
    /// (the bytes before the NUL) classifies it, and its declared size is
    /// added to the total.
    pub fn record_object(&mut self, directory: &str, filename: &str, header: &[u8]) -> (r: Result<
        (ObjectType, u64),
        StoreError,
    >)
        requires
            old(self).wf(),
        ensures
            final(self).wf(),
            r matches Err(e) ==> *final(self) == *old(self) && ((e == StoreError::InvalidHash
                && !(directory@.len() == 2 && filename@.len() == 126 && all_hex(
                directory@ + filename@,
            ))) || (e == StoreError::CorruptObject && parse_header(header@) is None)),
            r matches Ok(v) ==> {
                &&& parse_header(header@) == Some(v)
                &&& final(self).total_size == if old(self).total_size + v.1 <= u128::MAX {
                    old(self).total_size + v.1
                } else {
                    u128::MAX as int
                }
                &&& match v.0 {
                    ObjectType::Blob => final(self).blobs@.len() == old(self).blobs@.len() + 1
                        && final(self).blobs@.last()@ == bytes_of_hex(directory@ + filename@)
                        && final(self).blobs@.take(old(self).blobs@.len() as int) == old(
                        self,
                    ).blobs@ && final(self).trees == old(self).trees && final(self).indexes == old(
                        self,
                    ).indexes,
                    ObjectType::Tree => final(self).trees@.len() == old(self).trees@.len() + 1
                        && final(self).trees@.last()@ == bytes_of_hex(directory@ + filename@)
                        && final(self).trees@.take(old(self).trees@.len() as int) == old(
                        self,
                    ).trees@ && final(self).blobs == old(self).blobs && final(self).indexes == old(
                        self,
                    ).indexes,
                    ObjectType::Index => final(self).indexes@.len() == old(self).indexes@.len() + 1
                        && final(self).indexes@.last()@ == bytes_of_hex(directory@ + filename@)
                        && final(self).indexes@.take(old(self).indexes@.len() as int) == old(
                        self,
                    ).indexes@ && final(self).blobs == old(self).blobs && final(self).trees == old(
                        self,
                    ).trees,
                }
            },
    {
        let h = match crate::hash::Hash::from_path(directory, filename) {
            Some(h) => h,
            None => {
                return Err(StoreError::InvalidHash);
            },
        };
        let (object_type, size) = match read_header_from_slice(header) {
            Some(v) => v,
            None => {
                return Err(StoreError::CorruptObject);
            },
        };
        if self.total_size <= u128::MAX - size as u128 {
            self.total_size = self.total_size + size as u128;
        } else {
            self.total_size = u128::MAX;
        }
        let ghost old_blobs = self.blobs@;
        let ghost old_trees = self.trees@;
        let ghost old_indexes = self.indexes@;
        match object_type {
            ObjectType::Blob => {
                self.blobs.push(h);
                proof {
                    assert(self.blobs@.take(old_blobs.len() as int) =~= old_blobs);
                }
            },
            ObjectType::Tree => {
                self.trees.push(h);
                proof {
                    assert(self.trees@.take(old_trees.len() as int) =~= old_trees);
                }
            },
            ObjectType::Index => {
                self.indexes.push(h);
                proof {
                    assert(self.indexes@.take(old_indexes.len() as int) =~= old_indexes);
                }
            },
        }
        Ok((object_type, size))
    }
}

} // verus!
