//! The tree and index body grammars, with parsing proved inverse to
//! encoding.
//!
//! A tree body is the concatenation, in entry order, of
//! `"<mode-code> <name>\0"` followed by the entry's 64 raw hash bytes. An
//! index body is the UTF-8 text `"timestamp: <RFC3339>\ntree: <128 hex>"`.

use vstd::prelude::*;
use vstd::slice::slice_subrange;
use vstd::string::*;
use crate::encoding::{find_byte, find_byte_in, lemma_find_byte, lemma_find_byte_at};
use crate::hexcode::{
    all_hex, bytes_of_hex, hex_of_bytes, lemma_hex_chars_ascii, lemma_hex_roundtrip,
};
use crate::objects::{lemma_mode_code_ascii, mode_code_bytes, Mode};
use crate::push_bytes;

verus! {

/// One tree entry for encoding purposes: its mode, its name bytes, and its
/// child's 64 raw hash bytes.
pub open spec fn entry_bytes(m: Mode, name: Seq<u8>, child: Seq<u8>) -> Seq<u8> {
    mode_code_bytes(m) + seq![32u8] + name + seq![0u8] + child
}

/// An encodable entry: the name holds no NUL byte and the child hash is 64
/// bytes.
pub open spec fn valid_entry(e: (Mode, Seq<u8>, Seq<u8>)) -> bool {
    &&& forall|i: int| 0 <= i < e.1.len() ==> e.1[i] != 0
    &&& e.2.len() == 64
}

pub open spec fn valid_entries(es: Seq<(Mode, Seq<u8>, Seq<u8>)>) -> bool {
    forall|i: int| 0 <= i < es.len() ==> valid_entry(#[trigger] es[i])
}

/// The body of a tree object: its entries' encodings, in order.
pub open spec fn tree_body(es: Seq<(Mode, Seq<u8>, Seq<u8>)>) -> Seq<u8>
    decreases es.len(),
{
    if es.len() == 0 {
        Seq::empty()
    } else {
        entry_bytes(es[0].0, es[0].1, es[0].2) + tree_body(es.drop_first())
    }
}

/// Appending one entry appends its encoding.
pub proof fn lemma_tree_body_push(es: Seq<(Mode, Seq<u8>, Seq<u8>)>, e: (Mode, Seq<u8>, Seq<u8>))
    ensures
        tree_body(es.push(e)) =~= tree_body(es) + entry_bytes(e.0, e.1, e.2),
    decreases es.len(),
{
    if es.len() == 0 {
        assert(es.push(e).drop_first() =~= Seq::<(Mode, Seq<u8>, Seq<u8>)>::empty());
        assert(es.push(e)[0] == e);
        assert(tree_body(es.push(e)) == entry_bytes(e.0, e.1, e.2) + tree_body(
            Seq::<(Mode, Seq<u8>, Seq<u8>)>::empty(),
        ));
        assert(tree_body(es) == Seq::<u8>::empty());
    } else {
        assert(es.push(e).drop_first() =~= es.drop_first().push(e));
        lemma_tree_body_push(es.drop_first(), e);
        assert(es.push(e)[0] == es[0]);
        assert(tree_body(es.push(e)) == entry_bytes(es[0].0, es[0].1, es[0].2) + tree_body(
            es.drop_first().push(e),
        ));
        assert(tree_body(es) == entry_bytes(es[0].0, es[0].1, es[0].2) + tree_body(
            es.drop_first(),
        ));
    }
}

/// The mode whose code the bytes spell, if any.
pub open spec fn mode_of_bytes(s: Seq<u8>) -> Option<Mode> {
    if s == mode_code_bytes(Mode::Tree) {
        Some(Mode::Tree)
    } else if s == mode_code_bytes(Mode::Normal) {
        Some(Mode::Normal)
    } else if s == mode_code_bytes(Mode::Executable) {
        Some(Mode::Executable)
    } else if s == mode_code_bytes(Mode::SymbolicLink) {
        Some(Mode::SymbolicLink)
    } else {
        None
    }
}

/// The four mode codes are pairwise distinct.
pub proof fn lemma_mode_codes_distinct()
    ensures
        forall|a: Mode, b: Mode| mode_code_bytes(a) == mode_code_bytes(b) ==> a == b,
{
    assert forall|a: Mode, b: Mode| mode_code_bytes(a) == mode_code_bytes(b) implies a == b by {
        if a != b {
            assert(mode_code_bytes(Mode::Tree)[0] == 48);
            assert(mode_code_bytes(Mode::Normal)[1] == 48);
            assert(mode_code_bytes(Mode::Normal)[3] == 54);
            assert(mode_code_bytes(Mode::Executable)[3] == 55);
            assert(mode_code_bytes(Mode::SymbolicLink)[1] == 50);
            match a {
                Mode::Tree => {},
                Mode::Normal => {},
                Mode::Executable => {},
                Mode::SymbolicLink => {},
            }
            match b {
                Mode::Tree => {},
                Mode::Normal => {},
                Mode::Executable => {},
                Mode::SymbolicLink => {},
            }
        }
    }
}

/// Parse a tree body: entries one after another until the body is exhausted.
pub open spec fn parse_tree_body(s: Seq<u8>) -> Option<Seq<(Mode, Seq<u8>, Seq<u8>)>>
    decreases s.len(),
    via parse_tree_body_dec
{
    if s.len() == 0 {
        Some(Seq::empty())
    } else if s.len() < 7 {
        None
    } else {
        match mode_of_bytes(s.take(6)) {
            None => None,
            Some(m) => if s[6] != 32 {
                None
            } else {
                match find_byte(s.skip(7), 0u8) {
                    None => None,
                    Some(k) => {
                        let name = s.skip(7).take(k);
                        let after = s.skip(7 + k + 1);
                        if after.len() < 64 {
                            None
                        } else {
                            match parse_tree_body(after.skip(64)) {
                                None => None,
                                Some(es) => Some(seq![(m, name, after.take(64))] + es),
                            }
                        }
                    },
                }
            },
        }
    }
}

#[via_fn]
proof fn parse_tree_body_dec(s: Seq<u8>) {
    if s.len() >= 7 {
        lemma_find_byte(s.skip(7), 0u8);
    }
}

/// Parsing a tree body inverts encoding it, for encodable entries.
pub proof fn lemma_tree_body_roundtrip(es: Seq<(Mode, Seq<u8>, Seq<u8>)>)
    requires
        valid_entries(es),
    ensures
        parse_tree_body(tree_body(es)) == Some(es),
    decreases es.len(),
{
    lemma_mode_codes_distinct();
    if es.len() == 0 {
        assert(parse_tree_body(tree_body(es)) == Some(Seq::<(Mode, Seq<u8>, Seq<u8>)>::empty()));
        assert(Seq::<(Mode, Seq<u8>, Seq<u8>)>::empty() =~= es);
    } else {
        let e = es[0];
        assert(valid_entry(e));
        lemma_mode_code_ascii(e.0);
        let rest = tree_body(es.drop_first());
        let s = tree_body(es);
        assert(s == entry_bytes(e.0, e.1, e.2) + rest);
        let nlen = e.1.len() as int;
        assert(s.len() == 6 + 1 + nlen + 1 + 64 + rest.len());
        assert(s.take(6) =~= mode_code_bytes(e.0));
        assert(mode_of_bytes(s.take(6)) == Some(e.0));
        assert(s[6] == 32);
        let tail = s.skip(7);
        assert(tail =~= e.1 + seq![0u8] + e.2 + rest);
        assert(tail[nlen] == 0);
        assert forall|j: int| 0 <= j < nlen implies tail[j] != 0 by {
            assert(tail[j] == e.1[j]);
        }
        lemma_find_byte_at(tail, 0u8, nlen);
        assert(tail.take(nlen) =~= e.1);
        let after = s.skip(7 + nlen + 1);
        assert(after =~= e.2 + rest);
        assert(after.take(64) =~= e.2);
        assert(after.skip(64) =~= rest);
        assert(valid_entries(es.drop_first())) by {
            assert forall|i: int| 0 <= i < es.drop_first().len() implies valid_entry(
                #[trigger] es.drop_first()[i],
            ) by {
                assert(es.drop_first()[i] == es[i + 1]);
            }
        }
        lemma_tree_body_roundtrip(es.drop_first());
        assert(parse_tree_body(s) == Some(seq![(e.0, e.1, e.2)] + es.drop_first()));
        assert(seq![(e.0, e.1, e.2)] + es.drop_first() =~= es);
    }
}

/// The tree body is injective on its entries: any change to an entry's
/// mode, name, or child hash changes the encoded body.
pub proof fn lemma_tree_body_injective(
    e1: Seq<(Mode, Seq<u8>, Seq<u8>)>,
    e2: Seq<(Mode, Seq<u8>, Seq<u8>)>,
)
    requires
        valid_entries(e1),
        valid_entries(e2),
        tree_body(e1) == tree_body(e2),
    ensures
        e1 == e2,
{
    lemma_tree_body_roundtrip(e1);
    lemma_tree_body_roundtrip(e2);
}

/// One rehydrated tree entry: the mode, the name bytes, and the child hash.
pub struct TreeEntry {
    pub mode: Mode,
    pub name: Vec<u8>,
    pub hash: crate::hash::Hash,
}

impl TreeEntry {
    pub open spec fn wf(&self) -> bool {
        &&& self.hash.wf()
        &&& valid_entry(self.view())
    }

    pub open spec fn view(&self) -> (Mode, Seq<u8>, Seq<u8>) {
        (self.mode, self.name@, self.hash@)
    }
}

pub open spec fn entries_of(es: Seq<TreeEntry>) -> Seq<(Mode, Seq<u8>, Seq<u8>)> {
    Seq::new(es.len(), |i: int| es[i].view())
}

/// Encode tree entries into a tree body.
pub fn encode_tree_body(entries: &Vec<TreeEntry>) -> (r: Vec<u8>)
    requires
        forall|i: int| 0 <= i < entries@.len() ==> (#[trigger] entries@[i]).wf(),
    ensures
        r@ == tree_body(entries_of(entries@)),
{
    let mut out: Vec<u8> = Vec::new();
    let mut i: usize = 0;
    proof {
        assert(out@ =~= tree_body(entries_of(entries@).take(0)));
    }
    while i < entries.len()
        invariant
            i <= entries@.len(),
            forall|k: int| 0 <= k < entries@.len() ==> (#[trigger] entries@[k]).wf(),
            out@ == tree_body(entries_of(entries@).take(i as int)),
        decreases entries@.len() - i,
    {
        let e = &entries[i];
        let code = e.mode.to_str();
        proof {
            lemma_mode_code_ascii(e.mode);
            vstd::string::is_ascii_spec_bytes(code);
        }
        push_bytes(&mut out, code.as_bytes());
        out.push(32);
        push_bytes(&mut out, e.name.as_slice());
        out.push(0);
        push_bytes(&mut out, e.hash.hash.as_slice());
        proof {
            lemma_tree_body_push(entries_of(entries@).take(i as int), entries@[i as int].view());
            assert(entries_of(entries@).take(i + 1) =~= entries_of(entries@).take(i as int).push(
                entries@[i as int].view(),
            ));
            assert(out@ =~= tree_body(entries_of(entries@).take(i as int)) + entry_bytes(
                entries@[i as int].mode,
                entries@[i as int].name@,
                entries@[i as int].hash@,
            ));
        }
        i = i + 1;
    }
    proof {
        assert(entries_of(entries@).take(entries@.len() as int) =~= entries_of(entries@));
    }
    out
}

/// Parse a tree body into its entries.
pub fn parse_tree_entries(body: &[u8]) -> (r: Option<Vec<TreeEntry>>)
    ensures
        r matches Some(v) ==> parse_tree_body(body@) == Some(entries_of(v@)) && (forall|i: int|
            0 <= i < v@.len() ==> (#[trigger] v@[i]).wf()),
        r is None ==> parse_tree_body(body@) is None,
{
    let mut out: Vec<TreeEntry> = Vec::new();
    let mut off: usize = 0;
    let n = body.len();
    proof {
        assert(body@.skip(0) =~= body@);
        match parse_tree_body(body@) {
            Some(es) => {
                assert(entries_of(out@) + es =~= es);
            },
            None => {},
        }
    }
    while off < n
        invariant
            off <= n,
            n == body@.len(),
            forall|i: int| 0 <= i < out@.len() ==> (#[trigger] out@[i]).wf(),
            parse_tree_body(body@) == match parse_tree_body(body@.skip(off as int)) {
                Some(es) => Some(entries_of(out@) + es),
                None => None::<Seq<(Mode, Seq<u8>, Seq<u8>)>>,
            },
        decreases n - off,
    {
        let ghost rem = body@.skip(off as int);
        if n - off < 7 {
            return None;
        }
        let code = slice_subrange(body, off, off + 6);
        proof {
            assert(code@ =~= rem.take(6));
        }
        let mode = match mode_from_bytes(code) {
            Some(m) => m,
            None => {
                return None;
            },
        };
        if body[off + 6] != 32 {
            proof {
                assert(rem[6] == body@[off + 6]);
            }
            return None;
        }
        proof {
            assert(rem[6] == body@[off + 6]);
        }
        let tail = slice_subrange(body, off + 7, n);
        proof {
            assert(tail@ =~= rem.skip(7));
        }
        let k = match find_byte_in(tail, 0) {
            Some(k) => k,
            None => {
                return None;
            },
        };
        proof {
            lemma_find_byte(tail@, 0u8);
        }
        let name_slice = slice_subrange(body, off + 7, off + 7 + k);
        proof {
            assert(name_slice@ =~= rem.skip(7).take(k as int));
        }
        let ghost after = rem.skip(7 + k + 1);
        proof {
            assert(after.len() == n - off - 7 - k - 1);
        }
        if n - off - 7 - k - 1 < 64 {
            return None;
        }
        let hash_slice = slice_subrange(body, off + 7 + k + 1, off + 7 + k + 1 + 64);
        proof {
            assert(hash_slice@ =~= after.take(64));
        }
        let mut name: Vec<u8> = Vec::new();
        push_bytes(&mut name, name_slice);
        let mut hash_bytes: Vec<u8> = Vec::new();
        push_bytes(&mut hash_bytes, hash_slice);
        proof {
            assert(name@ =~= name_slice@);
            assert(hash_bytes@ =~= hash_slice@);
        }
        let entry = TreeEntry { mode, name, hash: crate::hash::Hash::from_bytes(hash_bytes) };
        let ghost old_out = out@;
        out.push(entry);
        let old_off = off;
        off = off + 7 + k + 1 + 64;
        proof {
            let e = (mode, rem.skip(7).take(k as int), after.take(64));
            assert(parse_tree_body(rem) == match parse_tree_body(after.skip(64)) {
                Some(es) => Some(seq![e] + es),
                None => None::<Seq<(Mode, Seq<u8>, Seq<u8>)>>,
            });
            assert(after.skip(64) =~= body@.skip(off as int));
            assert(entries_of(out@) =~= entries_of(old_out).push(entry.view()));
            match parse_tree_body(body@.skip(off as int)) {
                Some(es) => {
                    assert(entries_of(old_out) + (seq![e] + es) =~= entries_of(out@) + es);
                },
                None => {},
            }
        }
    }
    proof {
        assert(body@.skip(off as int) =~= Seq::<u8>::empty());
        assert(parse_tree_body(body@.skip(off as int)) == Some(
            Seq::<(Mode, Seq<u8>, Seq<u8>)>::empty(),
        ));
        assert(entries_of(out@) + Seq::<(Mode, Seq<u8>, Seq<u8>)>::empty() =~= entries_of(out@));
    }
    Some(out)
}

/// The bytes an ASCII character sequence spells.
pub open spec fn ascii_bytes(s: Seq<char>) -> Seq<u8> {
    Seq::new(s.len(), |i: int| s[i] as u8)
}

/// The fixed `"timestamp: "` line label, as ASCII bytes.
pub open spec fn timestamp_label() -> Seq<u8> {
    seq![116u8, 105u8, 109u8, 101u8, 115u8, 116u8, 97u8, 109u8, 112u8, 58u8, 32u8]
}

/// The fixed `"tree: "` line label, as ASCII bytes.
pub open spec fn tree_label() -> Seq<u8> {
    seq![116u8, 114u8, 101u8, 101u8, 58u8, 32u8]
}

/// A usable timestamp text: ASCII with no newline, as RFC3339 text is.
pub open spec fn valid_timestamp(ts: Seq<char>) -> bool {
    &&& vstd::utf8::is_ascii_chars(ts)
    &&& forall|i: int| 0 <= i < ts.len() ==> ts[i] != '\n'
}

/// The body of an index object: the timestamp line, then the root tree's
/// hash in hexadecimal. This is the one place a hash is stored hex-encoded.
pub open spec fn index_body_bytes(ts: Seq<char>, tree_digest: Seq<u8>) -> Seq<u8> {
    timestamp_label() + ascii_bytes(ts) + seq![10u8] + tree_label() + ascii_bytes(
        hex_of_bytes(tree_digest),
    )
}

/// Parse an index body: the timestamp text of the first line, and the root
/// tree digest decoded from the second.
pub open spec fn parse_index_body(s: Seq<u8>) -> Option<(Seq<char>, Seq<u8>)> {
    match find_byte(s, 10u8) {
        None => None,
        Some(i) => {
            let line1 = s.take(i);
            let line2 = s.skip(i + 1);
            if line1.len() < 11 || line1.take(11) != timestamp_label() {
                None
            } else if exists|j: int| 0 <= j < line1.len() - 11 && line1.skip(11)[j] >= 128 {
                None
            } else if line2.len() != 134 || line2.take(6) != tree_label() {
                None
            } else {
                let hexc = crate::hexcode::chars_of_ascii(line2.skip(6));
                if all_hex(hexc) {
                    Some((crate::hexcode::chars_of_ascii(line1.skip(11)), bytes_of_hex(hexc)))
                } else {
                    None
                }
            }
        },
    }
}

/// Encode an index body from a timestamp and the root tree's hash.
pub fn encode_index_body(timestamp: &str, tree_hash: &crate::hash::Hash) -> (r: Vec<u8>)
    requires
        valid_timestamp(timestamp@),
        tree_hash.wf(),
    ensures
        r@ == index_body_bytes(timestamp@, tree_hash@),
{
    let mut s = String::from_str("timestamp: ");
    s.append(timestamp);
    s.push('\n');
    s.append("tree: ");
    s.append(tree_hash.hash_string.as_str());
    let sref = s.as_str();
    proof {
        reveal_strlit("timestamp: ");
        reveal_strlit("tree: ");
        lemma_hex_roundtrip(tree_hash.hash@);
        lemma_hex_chars_ascii(tree_hash.hash_string@);
        assert(vstd::utf8::is_ascii_chars(sref@));
        vstd::string::is_ascii_spec_bytes(sref);
    }
    let r = sref.as_bytes_vec();
    proof {
        assert(r@ =~= index_body_bytes(timestamp@, tree_hash@));
    }
    r
}

/// Parse an index body into its timestamp text and root tree hash.
pub fn parse_index_slice(body: &[u8]) -> (r: Option<(String, crate::hash::Hash)>)
    ensures
        r matches Some(p) ==> parse_index_body(body@) matches Some(q) && p.0@ == q.0 && p.1.wf()
            && p.1@ == q.1,
        r is None ==> parse_index_body(body@) is None,
{
    let nl = match find_byte_in(body, 10) {
        Some(i) => i,
        None => {
            return None;
        },
    };
    proof {
        lemma_find_byte(body@, 10u8);
    }
    let ghost line1 = body@.take(nl as int);
    let ghost line2 = body@.skip(nl as int + 1);
    if nl < 11 {
        return None;
    }
    let label1: Vec<u8> = vec![116u8, 105u8, 109u8, 101u8, 115u8, 116u8, 97u8, 109u8, 112u8, 58u8, 32u8];
    proof {
        assert(label1@ =~= timestamp_label());
    }
    if !crate::bytes_eq(slice_subrange(body, 0, 11), label1.as_slice()) {
        proof {
            assert(body@.subrange(0, 11) =~= line1.take(11));
        }
        return None;
    }
    proof {
        assert(body@.subrange(0, 11) =~= line1.take(11));
    }
    let mut ts = String::new();
    let mut j: usize = 11;
    while j < nl
        invariant
            11 <= j <= nl,
            nl < body@.len(),
            find_byte(body@, 10u8) == Some(nl as int),
            line1 == body@.take(nl as int),
            line1.take(11) == timestamp_label(),
            forall|i: int| 0 <= i < j - 11 ==> line1.skip(11)[i] < 128,
            ts@ =~= crate::hexcode::chars_of_ascii(line1.skip(11).take(j - 11)),
        decreases nl - j,
    {
        let b = body[j];
        if b >= 128 {
            proof {
                assert(line1.skip(11)[j - 11] == body@[j as int]);
                assert(0 <= j - 11 < line1.len() - 11 && line1.skip(11)[j - 11] >= 128);
                assert(exists|q: int| 0 <= q < line1.len() - 11 && line1.skip(11)[q] >= 128);
            }
            return None;
        }
        ts.push(b as char);
        j = j + 1;
        proof {
            assert(line1.skip(11)[j - 12] == body@[j - 1]);
            assert(ts@ =~= crate::hexcode::chars_of_ascii(line1.skip(11).take(j - 11)));
        }
    }
    proof {
        assert(line1.skip(11).take(nl - 11) =~= line1.skip(11));
    }
    let n = body.len();
    if n - nl - 1 != 134 {
        return None;
    }
    let label2: Vec<u8> = vec![116u8, 114u8, 101u8, 101u8, 58u8, 32u8];
    proof {
        assert(label2@ =~= tree_label());
    }
    if !crate::bytes_eq(slice_subrange(body, nl + 1, nl + 1 + 6), label2.as_slice()) {
        proof {
            assert(body@.subrange(nl as int + 1, nl as int + 7) =~= line2.take(6));
        }
        return None;
    }
    proof {
        assert(body@.subrange(nl as int + 1, nl as int + 7) =~= line2.take(6));
    }
    let hex_part = slice_subrange(body, nl + 1 + 6, n);
    proof {
        assert(hex_part@ =~= line2.skip(6));
    }
    let digest = match crate::hexcode::decode_hex_ascii(hex_part) {
        Some(v) => v,
        None => {
            return None;
        },
    };
    let h = crate::hash::Hash::from_bytes(digest);
    Some((ts, h))
}

/// Parsing an index body inverts encoding it.
#[verifier::rlimit(50)]
pub proof fn lemma_index_body_roundtrip(ts: Seq<char>, d: Seq<u8>)
    requires
        valid_timestamp(ts),
        d.len() == 64,
    ensures
        parse_index_body(index_body_bytes(ts, d)) == Some((ts, d)),
{
    let s = index_body_bytes(ts, d);
    lemma_hex_roundtrip(d);
    lemma_hex_chars_ascii(hex_of_bytes(d));
    let nl = 11 + ts.len() as int;
    assert(s[nl] == 10);
    assert forall|j: int| 0 <= j < nl implies s[j] != 10 by {
        if j >= 11 {
            assert(s[j] == ascii_bytes(ts)[j - 11]);
            assert(ts[j - 11] != '\n' && '\0' <= ts[j - 11] <= '\u{7f}');
        }
    }
    lemma_find_byte_at(s, 10u8, nl);
    let line1 = s.take(nl);
    let line2 = s.skip(nl + 1);
    assert(line1.take(11) =~= timestamp_label());
    assert(line1.skip(11) =~= ascii_bytes(ts));
    assert forall|j: int| 0 <= j < line1.len() - 11 implies line1.skip(11)[j] < 128 by {
        assert(line1.skip(11)[j] == ts[j] as u8);
        assert('\0' <= ts[j] <= '\u{7f}');
    }
    assert(line2 =~= tree_label() + ascii_bytes(hex_of_bytes(d)));
    assert(line2.len() == 134);
    assert(line2.take(6) =~= tree_label());
    assert(line2.skip(6) =~= ascii_bytes(hex_of_bytes(d)));
    assert(crate::hexcode::chars_of_ascii(ascii_bytes(hex_of_bytes(d))) =~= hex_of_bytes(d));
    assert(crate::hexcode::chars_of_ascii(ascii_bytes(ts)) =~= ts);
}

/// The mode whose 6-byte code the slice spells.
pub fn mode_from_bytes(s: &[u8]) -> (r: Option<Mode>)
    ensures
        r == mode_of_bytes(s@),
{
    proof {
        lemma_mode_codes_distinct();
    }
    if s.len() != 6 {
        proof {
            assert forall|m: Mode| s@ != mode_code_bytes(m) by {
                lemma_mode_code_ascii(m);
            }
        }
        return None;
    }
    if s[0] == 48 && s[1] == 52 && s[2] == 48 && s[3] == 48 && s[4] == 48 && s[5] == 48 {
        proof {
            assert(s@ =~= mode_code_bytes(Mode::Tree));
        }
        Some(Mode::Tree)
    } else if s[0] == 49 && s[1] == 48 && s[2] == 48 && s[3] == 54 && s[4] == 52 && s[5] == 52 {
        proof {
            assert(s@ =~= mode_code_bytes(Mode::Normal));
        }
        Some(Mode::Normal)
    } else if s[0] == 49 && s[1] == 48 && s[2] == 48 && s[3] == 55 && s[4] == 53 && s[5] == 53 {
        proof {
            assert(s@ =~= mode_code_bytes(Mode::Executable));
        }
        Some(Mode::Executable)
    } else if s[0] == 49 && s[1] == 50 && s[2] == 48 && s[3] == 48 && s[4] == 48 && s[5] == 48 {
        proof {
            assert(s@ =~= mode_code_bytes(Mode::SymbolicLink));
        }
        Some(Mode::SymbolicLink)
    } else {
        proof {
            assert forall|m: Mode| s@ != mode_code_bytes(m) by {
                lemma_mode_code_ascii(m);
                if s@ == mode_code_bytes(m) {
                    match m {
                        Mode::Tree => {},
                        Mode::Normal => {},
                        Mode::Executable => {},
                        Mode::SymbolicLink => {},
                    }
                }
            }
        }
        None
    }
}

} // verus!
