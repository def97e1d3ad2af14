//! The content-addressable store: objects keyed by their hash, written at
//! most once per hash (a second write of the same hash is a dedup no-op),
//! read back as `prefix || body` and reinterpreted through the header.
//!
//! This is the store's logic over in-memory contents; persisting each entry
//! as the file `<cache>/<shard>/<rest>` is plain I/O around it.

use vstd::prelude::*;
use vstd::slice::{slice_subrange, slice_to_vec};
use crate::encoding::{find_byte, find_byte_in, parse_header, read_header_from_slice};
use crate::errors::StoreError;
use crate::objects::ObjectType;

verus! {

/// The first entry bearing the digest, if any.
pub open spec fn spec_lookup(objs: Seq<(crate::hash::Hash, Vec<u8>)>, d: Seq<u8>) -> Option<
    Seq<u8>,
>
    decreases objs.len(),
{
    if objs.len() == 0 {
        None
    } else if objs[0].0@ == d {
        Some(objs[0].1@)
    } else {
        spec_lookup(objs.drop_first(), d)
    }
}

/// A lookup finds nothing exactly when no entry bears the digest.
pub proof fn lemma_lookup_none(objs: Seq<(crate::hash::Hash, Vec<u8>)>, d: Seq<u8>)
    ensures
        spec_lookup(objs, d) is None <==> (forall|i: int|
            0 <= i < objs.len() ==> (#[trigger] objs[i]).0@ != d),
    decreases objs.len(),
{
    if objs.len() > 0 {
        let t = objs.drop_first();
        lemma_lookup_none(t, d);
        if objs[0].0@ == d {
            assert(0 <= 0 < objs.len() && objs[0].0@ == d);
        } else {
            if spec_lookup(t, d) is None {
                assert forall|i: int| 0 <= i < objs.len() implies (#[trigger] objs[i]).0@ != d by {
                    if i > 0 {
                        assert(t[i - 1] == objs[i]);
                        assert(t[i - 1].0@ != d);
                    }
                }
            } else {
                assert(exists|i: int| 0 <= i < t.len() && (#[trigger] t[i]).0@ == d);
                let i = choose|i: int| 0 <= i < t.len() && (#[trigger] t[i]).0@ == d;
                assert(objs[i + 1] == t[i]);
                assert(objs[i + 1].0@ == d);
            }
        }
    }
}

/// A first match is what the lookup returns.
pub proof fn lemma_lookup_at(objs: Seq<(crate::hash::Hash, Vec<u8>)>, d: Seq<u8>, i: int)
    requires
        0 <= i < objs.len(),
        objs[i].0@ == d,
        forall|j: int| 0 <= j < i ==> (#[trigger] objs[j]).0@ != d,
    ensures
        spec_lookup(objs, d) == Some(objs[i].1@),
    decreases i,
{
    if i > 0 {
        assert(objs.drop_first()[i - 1] == objs[i]);
        assert forall|j: int| 0 <= j < i - 1 implies (#[trigger] objs.drop_first()[j]).0@ != d by {
            assert(objs.drop_first()[j] == objs[j + 1]);
        }
        lemma_lookup_at(objs.drop_first(), d, i - 1);
    }
}

/// Appending an entry changes only lookups that found nothing before.
pub proof fn lemma_lookup_push(
    objs: Seq<(crate::hash::Hash, Vec<u8>)>,
    p: (crate::hash::Hash, Vec<u8>),
    d: Seq<u8>,
)
    ensures
        spec_lookup(objs.push(p), d) == if spec_lookup(objs, d) is Some {
            spec_lookup(objs, d)
        } else if p.0@ == d {
            Some(p.1@)
        } else {
            None
        },
    decreases objs.len(),
{
    if objs.len() == 0 {
        assert(objs.push(p)[0] == p);
        assert(objs.push(p).drop_first() =~= Seq::<(crate::hash::Hash, Vec<u8>)>::empty());
        assert(spec_lookup(objs, d) is None);
        if p.0@ == d {
            assert(spec_lookup(objs.push(p), d) == Some(p.1@));
        } else {
            assert(spec_lookup(objs.push(p), d) == spec_lookup(
                Seq::<(crate::hash::Hash, Vec<u8>)>::empty(),
                d,
            ));
            assert(spec_lookup(objs.push(p), d) is None);
        }
    } else {
        assert(objs.push(p)[0] == objs[0]);
        assert(objs.push(p).drop_first() =~= objs.drop_first().push(p));
        lemma_lookup_push(objs.drop_first(), p, d);
        if objs[0].0@ == d {
            assert(spec_lookup(objs.push(p), d) == Some(objs[0].1@));
            assert(spec_lookup(objs, d) == Some(objs[0].1@));
        } else {
            assert(spec_lookup(objs.push(p), d) == spec_lookup(objs.drop_first().push(p), d));
            assert(spec_lookup(objs, d) == spec_lookup(objs.drop_first(), d));
        }
    }
}

/// The header a stored file declares: the text before its first NUL byte,
/// read as `"<keyword> <decimal size>"`.
pub open spec fn spec_file_header(data: Seq<u8>) -> Option<(ObjectType, u64)> {
    match find_byte(data, 0u8) {
        None => None,
        Some(i) => parse_header(data.take(i)),
    }
}

/// The body of a stored file: everything after its first NUL byte.
pub open spec fn spec_file_body(data: Seq<u8>) -> Seq<u8> {
    match find_byte(data, 0u8) {
        None => Seq::empty(),
        Some(i) => data.skip(i + 1),
    }
}

/// A canonical encoding's file parts: its header parses back to the kind
/// and size it was built from, and its body follows the NUL terminator.
pub proof fn lemma_encoding_file_parts(t: ObjectType, body: Seq<u8>)
    requires
        body.len() <= u64::MAX,
    ensures
        spec_file_header(crate::encoding::object_encoding(t, body)) == Some(
            (t, body.len() as u64),
        ),
        spec_file_body(crate::encoding::object_encoding(t, body)) =~= body,
{
    let sz = body.len() as u64;
    crate::encoding::lemma_header_roundtrip(t, sz);
    let p = crate::encoding::prefix_bytes(t, sz as nat);
    let data = crate::encoding::object_encoding(t, body);
    assert(data =~= p + body);
    crate::encoding::lemma_find_byte(p, 0u8);
    assert forall|j: int| 0 <= j < p.len() - 1 implies data[j] != 0 by {
        assert(data[j] == p[j]);
    }
    assert(data[p.len() - 1] == 0);
    crate::encoding::lemma_find_byte_at(data, 0u8, p.len() - 1);
    assert(data.take(p.len() - 1) =~= p.drop_last());
    assert(data.skip(p.len() - 1 + 1) =~= body);
}

/// The canonical encoding is injective: distinct kinds or distinct bodies
/// give distinct digest inputs. Whatever separates two objects separates
/// the byte streams their hashes are computed over.
pub proof fn lemma_object_encoding_injective(
    t1: ObjectType,
    b1: Seq<u8>,
    t2: ObjectType,
    b2: Seq<u8>,
)
    requires
        b1.len() <= u64::MAX,
        b2.len() <= u64::MAX,
        crate::encoding::object_encoding(t1, b1) == crate::encoding::object_encoding(t2, b2),
    ensures
        t1 == t2,
        b1 =~= b2,
{
    lemma_encoding_file_parts(t1, b1);
    lemma_encoding_file_parts(t2, b2);
}

/// A content-addressable store held in memory: hash-keyed entries whose data
/// is the full `prefix || body` encoding.
pub struct Store {
    pub objects: Vec<(crate::hash::Hash, Vec<u8>)>,
}

impl Store {
    /// Every key is well formed, and no digest appears twice.
    pub open spec fn wf(&self) -> bool {
        &&& forall|i: int| 0 <= i < self.objects@.len() ==> (#[trigger] self.objects@[i]).0.wf()
        &&& forall|i: int, j: int|
            0 <= i < j < self.objects@.len() ==> self.objects@[i].0@ != self.objects@[j].0@
    }

    pub open spec fn contains_digest(&self, d: Seq<u8>) -> bool {
        exists|i: int| 0 <= i < self.objects@.len() && (#[trigger] self.objects@[i]).0@ == d
    }

    pub open spec fn lookup(&self, d: Seq<u8>) -> Option<Seq<u8>> {
        spec_lookup(self.objects@, d)
    }

    /// An empty store.
    pub fn new() -> (r: Store)
        ensures
            r.wf(),
            r.objects@.len() == 0,
            forall|d: Seq<u8>| !(#[trigger] r.contains_digest(d)),
    {
        Store { objects: Vec::new() }
    }

    /// How many objects the store holds.
    pub fn object_count(&self) -> (r: usize)
        ensures
            r == self.objects@.len(),
    {
        self.objects.len()
    }

    /// Whether an object with this hash exists.
    pub fn contains(&self, h: &crate::hash::Hash) -> (r: bool)
        ensures
            r == self.contains_digest(h@),
    {
        let mut i: usize = 0;
        while i < self.objects.len()
            invariant
                i <= self.objects@.len(),
                forall|j: int| 0 <= j < i ==> (#[trigger] self.objects@[j]).0@ != h@,
            decreases self.objects@.len() - i,
        {
            if crate::bytes_eq(self.objects[i].0.hash.as_slice(), h.hash.as_slice()) {
                return true;
            }
            i = i + 1;
        }
        false
    }

    /// Write an object: a no-op when an object with this hash already
    /// exists, else the data is stored under the hash.
    pub fn write(&mut self, hash: &crate::hash::Hash, data: Vec<u8>) -> (added: bool)
        requires
            old(self).wf(),
            hash.wf(),
        ensures
            final(self).wf(),
            added == !old(self).contains_digest(hash@),
            !added ==> *final(self) == *old(self),
            added ==> final(self).objects@.len() == old(self).objects@.len() + 1
                && final(self).objects@.take(old(self).objects@.len() as int)
                    == old(self).objects@
                && final(self).objects@.last().0@ == hash@
                && final(self).objects@.last().1@ == data@,
            forall|d: Seq<u8>|
                #[trigger] final(self).contains_digest(d) <==> old(self).contains_digest(d) || d
                    == hash@,
            final(self).contains_digest(hash@),
            forall|d: Seq<u8>| d != hash@ ==> final(self).lookup(d) == old(self).lookup(d),
            final(self).lookup(hash@) == if old(self).contains_digest(hash@) {
                old(self).lookup(hash@)
            } else {
                Some(data@)
            },
    {
        if self.contains(hash) {
            return false;
        }
        let ghost old_objs = self.objects@;
        let p = (hash.duplicate(), data);
        self.objects.push(p);
        proof {
            assert(self.objects@.take(old_objs.len() as int) =~= old_objs);
            assert(self.objects@.last().0@ == hash@);
            lemma_lookup_none(old_objs, hash@);
            assert forall|d: Seq<u8>| #[trigger] self.contains_digest(d) implies old(self).contains_digest(d) || d == hash@ by {
                let i = choose|i: int|
                    0 <= i < self.objects@.len() && (#[trigger] self.objects@[i]).0@ == d;
                if i < old_objs.len() {
                    assert(old_objs[i].0@ == d);
                }
            }
            assert forall|d: Seq<u8>| old(self).contains_digest(d) || d == hash@ implies #[trigger] self.contains_digest(d) by {
                if old(self).contains_digest(d) {
                    let i = choose|i: int| 0 <= i < old_objs.len() && (#[trigger] old_objs[i]).0@ == d;
                    assert(self.objects@[i].0@ == d);
                } else {
                    assert(self.objects@.last().0@ == d);
                }
            }
            assert forall|d: Seq<u8>| true implies #[trigger] spec_lookup(self.objects@, d)
                == spec_lookup(old_objs.push((self.objects@.last().0, self.objects@.last().1)), d) by {
                assert(self.objects@ =~= old_objs.push(self.objects@.last()));
            }
            assert forall|d: Seq<u8>| d != hash@ implies #[trigger] self.lookup(d) == old(self).lookup(d) by {
                lemma_lookup_push(old_objs, self.objects@.last(), d);
            }
            lemma_lookup_push(old_objs, self.objects@.last(), hash@);
        }
        true
    }

    /// The stored data of an object, if present.
    pub fn get(&self, h: &crate::hash::Hash) -> (r: Option<&Vec<u8>>)
        ensures
            match r {
                Some(v) => self.lookup(h@) == Some(v@) && self.contains_digest(h@),
                None => self.lookup(h@) is None && !self.contains_digest(h@),
            },
    {
        let mut i: usize = 0;
        while i < self.objects.len()
            invariant
                i <= self.objects@.len(),
                forall|j: int| 0 <= j < i ==> (#[trigger] self.objects@[j]).0@ != h@,
            decreases self.objects@.len() - i,
        {
            if crate::bytes_eq(self.objects[i].0.hash.as_slice(), h.hash.as_slice()) {
                proof {
                    lemma_lookup_at(self.objects@, h@, i as int);
                }
                return Some(&self.objects[i].1);
            }
            i = i + 1;
        }
        proof {
            lemma_lookup_none(self.objects@, h@);
        }
        None
    }

    /// Read an object's header: its kind and declared size.
    pub fn read_header(&self, h: &crate::hash::Hash) -> (r: Result<(ObjectType, u64), StoreError>)
        ensures
            match self.lookup(h@) {
                None => r == Err::<(ObjectType, u64), StoreError>(StoreError::NotFound),
                Some(data) => match spec_file_header(data) {
                    None => r == Err::<(ObjectType, u64), StoreError>(StoreError::CorruptObject),
                    Some(v) => r == Ok::<(ObjectType, u64), StoreError>(v),
                },
            },
    {
        let data = match self.get(h) {
            Some(v) => v,
            None => {
                return Err(StoreError::NotFound);
            },
        };
        let nul = match find_byte_in(data.as_slice(), 0) {
            Some(i) => i,
            None => {
                return Err(StoreError::CorruptObject);
            },
        };
        proof {
            crate::encoding::lemma_find_byte(data@, 0u8);
        }
        let header = slice_subrange(data.as_slice(), 0, nul);
        proof {
            assert(header@ =~= data@.take(nul as int));
        }
        match read_header_from_slice(header) {
            Some(v) => Ok(v),
            None => Err(StoreError::CorruptObject),
        }
    }

    /// The raw body bytes of an object, its header stripped, whatever its
    /// kind: the debugging passthrough.
    pub fn cat(&self, h: &crate::hash::Hash) -> (r: Result<Vec<u8>, StoreError>)
        ensures
            match self.lookup(h@) {
                None => r == Err::<Vec<u8>, StoreError>(StoreError::NotFound),
                Some(data) => match spec_file_header(data) {
                    None => r == Err::<Vec<u8>, StoreError>(StoreError::CorruptObject),
                    Some(v) => r matches Ok(b) && b@ == spec_file_body(data),
                },
            },
    {
        let data = match self.get(h) {
            Some(v) => v,
            None => {
                return Err(StoreError::NotFound);
            },
        };
        let nul = match find_byte_in(data.as_slice(), 0) {
            Some(i) => i,
            None => {
                return Err(StoreError::CorruptObject);
            },
        };
        proof {
            crate::encoding::lemma_find_byte(data@, 0u8);
        }
        let header = slice_subrange(data.as_slice(), 0, nul);
        proof {
            assert(header@ =~= data@.take(nul as int));
        }
        if read_header_from_slice(header).is_none() {
            return Err(StoreError::CorruptObject);
        }
        let n = data.len();
        let body = slice_to_vec(slice_subrange(data.as_slice(), nul + 1, n));
        proof {
            assert(body@ =~= data@.skip(nul as int + 1));
        }
        Ok(body)
    }
}

} // verus!
