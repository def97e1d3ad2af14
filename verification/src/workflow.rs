//! The client workflows: committing a directory tree into the store, and
//! restoring a committed tree back out of it.
//!
//! A directory tree is modelled by `FsNode`: file contents and entry names
//! as plain bytes, in discovery order. Commit builds the object graph bottom
//! up — every node's hash is the digest of its canonical encoding, so the
//! index hash depends on every descendant — and persists each object through
//! the store's idempotent write. Restore rehydrates the graph by repeated
//! lookups and is proved to invert commit.

use vstd::prelude::*;
use crate::bodies::{
    entries_of, encode_index_body, index_body_bytes, lemma_index_body_roundtrip,
    lemma_tree_body_push, lemma_tree_body_roundtrip, parse_index_body, parse_index_slice,
    parse_tree_body, parse_tree_entries, tree_body, valid_entry, valid_timestamp,
};
use crate::encoding::{
    get_object_prefix_bytes, hash_object, object_encoding, object_hash, prefix_bytes,
};
use crate::errors::StoreError;
use crate::objects::{Mode, ObjectType};
use crate::store::{spec_file_body, spec_file_header, spec_lookup, Store};
use crate::push_bytes;

verus! {

/// One named entry of a directory, in discovery order.
pub struct DirEntry {
    pub name: Vec<u8>,
    pub node: FsNode,
}

/// An in-memory directory tree: a file with its content bytes, or a
/// directory with its named children.
pub enum FsNode {
    File { content: Vec<u8> },
    Dir { entries: Vec<DirEntry> },
}

/// The tree-entry mode a node is recorded under.
pub open spec fn node_mode(n: FsNode) -> Mode {
    match n {
        FsNode::File { .. } => Mode::Normal,
        FsNode::Dir { .. } => Mode::Tree,
    }
}

/// The object kind a node is stored as.
pub open spec fn node_kind(n: FsNode) -> ObjectType {
    match n {
        FsNode::File { .. } => ObjectType::Blob,
        FsNode::Dir { .. } => ObjectType::Tree,
    }
}

/// Every entry name in the tree is free of NUL bytes.
pub open spec fn node_wf(n: FsNode) -> bool
    decreases n, 1int,
{
    match n {
        FsNode::File { .. } => true,
        FsNode::Dir { entries } => forall|i: int|
            0 <= i < entries@.len() ==> entry_wf(#[trigger] entries@[i]),
    }
}

pub open spec fn entry_wf(e: DirEntry) -> bool
    decreases e, 2int,
{
    &&& forall|i: int| 0 <= i < e.name@.len() ==> e.name@[i] != 0
    &&& node_wf(e.node)
}

/// The body bytes of a node's object.
pub open spec fn node_body(n: FsNode) -> Seq<u8>
    decreases n, 3int,
{
    match n {
        FsNode::File { content } => content@,
        FsNode::Dir { entries } => tree_body(entries_enc(entries@)),
    }
}

/// The encoded tree entries of a directory: mode, name, child digest.
pub open spec fn entries_enc(es: Seq<DirEntry>) -> Seq<(Mode, Seq<u8>, Seq<u8>)>
    decreases es, 5int,
{
    if es.len() == 0 {
        Seq::empty()
    } else {
        seq![(node_mode(es[0].node), es[0].name@, node_digest(es[0].node))] + entries_enc(
            es.drop_first(),
        )
    }
}

/// The content digest of a node: the hash of its full encoding. A tree's
/// digest depends on every entry's mode, name, and child digest, so on every
/// descendant: the graph is a Merkle tree.
pub open spec fn node_digest(n: FsNode) -> Seq<u8>
    decreases n, 4int,
{
    object_hash(node_kind(n), node_body(n))
}

/// Every digest in the tree is 64 bytes long.
pub open spec fn node_digests_ok(n: FsNode) -> bool
    decreases n, 7int,
{
    &&& node_digest(n).len() == 64
    &&& match n {
        FsNode::File { .. } => true,
        FsNode::Dir { entries } => forall|i: int|
            0 <= i < entries@.len() ==> node_digests_ok(#[trigger] entries@[i].node),
    }
}

/// The aggregate uncompressed size: the sum of all file sizes in the tree.
pub open spec fn node_size(n: FsNode) -> nat
    decreases n, 1int,
{
    match n {
        FsNode::File { content } => content@.len(),
        FsNode::Dir { entries } => entries_size(entries@),
    }
}

pub open spec fn entries_size(es: Seq<DirEntry>) -> nat
    decreases es, 2int,
{
    if es.len() == 0 {
        0nat
    } else {
        node_size(es[0].node) + entries_size(es.drop_first())
    }
}

/// The objects a commit of the node persists: children before their parent,
/// each as (digest, kind, full encoding).
pub open spec fn node_records(n: FsNode) -> Seq<(Seq<u8>, ObjectType, Seq<u8>)>
    decreases n, 6int,
{
    match n {
        FsNode::File { content } => seq![
            (node_digest(n), ObjectType::Blob, object_encoding(ObjectType::Blob, content@)),
        ],
        FsNode::Dir { .. } => entries_records(n->Dir_entries@) + seq![
            (node_digest(n), ObjectType::Tree, object_encoding(ObjectType::Tree, node_body(n))),
        ],
    }
}

pub open spec fn entries_records(es: Seq<DirEntry>) -> Seq<(Seq<u8>, ObjectType, Seq<u8>)>
    decreases es, 8int,
{
    if es.len() == 0 {
        Seq::empty()
    } else {
        node_records(es[0].node) + entries_records(es.drop_first())
    }
}

/// Whether some record bears the digest.
pub open spec fn records_contain(rs: Seq<(Seq<u8>, ObjectType, Seq<u8>)>, d: Seq<u8>) -> bool {
    exists|i: int| 0 <= i < rs.len() && (#[trigger] rs[i]).0 == d
}

/// Whether some record bears the digest with exactly this encoding.
pub open spec fn record_with(
    rs: Seq<(Seq<u8>, ObjectType, Seq<u8>)>,
    d: Seq<u8>,
    v: Seq<u8>,
) -> bool {
    exists|i: int| 0 <= i < rs.len() && (#[trigger] rs[i]).0 == d && rs[i].2 == v
}

/// No two records collide: records bearing the same digest hold the same
/// encoding.
pub open spec fn records_consistent(rs: Seq<(Seq<u8>, ObjectType, Seq<u8>)>) -> bool {
    forall|i: int, j: int|
        0 <= i < rs.len() && 0 <= j < rs.len() && (#[trigger] rs[i]).0 == (#[trigger] rs[j]).0
            ==> rs[i].2 == rs[j].2
}

/// Membership in a concatenation of record lists.
pub proof fn lemma_records_concat(
    a: Seq<(Seq<u8>, ObjectType, Seq<u8>)>,
    b: Seq<(Seq<u8>, ObjectType, Seq<u8>)>,
    d: Seq<u8>,
    v: Seq<u8>,
)
    ensures
        records_contain(a + b, d) <==> records_contain(a, d) || records_contain(b, d),
        record_with(a + b, d, v) <==> record_with(a, d, v) || record_with(b, d, v),
{
    let c = a + b;
    if records_contain(c, d) {
        let i = choose|i: int| 0 <= i < c.len() && (#[trigger] c[i]).0 == d;
        if i < a.len() {
            assert(a[i] == c[i]);
        } else {
            assert(b[i - a.len()] == c[i]);
        }
    }
    if records_contain(a, d) {
        let i = choose|i: int| 0 <= i < a.len() && (#[trigger] a[i]).0 == d;
        assert(c[i] == a[i]);
    }
    if records_contain(b, d) {
        let i = choose|i: int| 0 <= i < b.len() && (#[trigger] b[i]).0 == d;
        assert(c[a.len() + i] == b[i]);
    }
    if record_with(c, d, v) {
        let i = choose|i: int| 0 <= i < c.len() && (#[trigger] c[i]).0 == d && c[i].2 == v;
        if i < a.len() {
            assert(a[i] == c[i]);
        } else {
            assert(b[i - a.len()] == c[i]);
        }
    }
    if record_with(a, d, v) {
        let i = choose|i: int| 0 <= i < a.len() && (#[trigger] a[i]).0 == d && a[i].2 == v;
        assert(c[i] == a[i]);
    }
    if record_with(b, d, v) {
        let i = choose|i: int| 0 <= i < b.len() && (#[trigger] b[i]).0 == d && b[i].2 == v;
        assert(c[a.len() + i] == b[i]);
    }
}

/// Appending an entry appends its encoded form.
pub proof fn lemma_entries_enc_push(es: Seq<DirEntry>, e: DirEntry)
    ensures
        entries_enc(es.push(e)) =~= entries_enc(es) + seq![
            (node_mode(e.node), e.name@, node_digest(e.node)),
        ],
    decreases es.len(),
{
    if es.len() == 0 {
        assert(es.push(e)[0] == e);
        assert(es.push(e).drop_first() =~= Seq::<DirEntry>::empty());
        assert(entries_enc(es.push(e)) == seq![(node_mode(e.node), e.name@, node_digest(e.node))]
            + entries_enc(Seq::<DirEntry>::empty()));
        assert(entries_enc(es) == Seq::<(Mode, Seq<u8>, Seq<u8>)>::empty());
    } else {
        assert(es.push(e)[0] == es[0]);
        assert(es.push(e).drop_first() =~= es.drop_first().push(e));
        lemma_entries_enc_push(es.drop_first(), e);
        assert(entries_enc(es.push(e)) == seq![
            (node_mode(es[0].node), es[0].name@, node_digest(es[0].node)),
        ] + entries_enc(es.drop_first().push(e)));
        assert(entries_enc(es) == seq![
            (node_mode(es[0].node), es[0].name@, node_digest(es[0].node)),
        ] + entries_enc(es.drop_first()));
    }
}

/// Appending an entry appends its records.
pub proof fn lemma_entries_records_push(es: Seq<DirEntry>, e: DirEntry)
    ensures
        entries_records(es.push(e)) =~= entries_records(es) + node_records(e.node),
    decreases es.len(),
{
    if es.len() == 0 {
        assert(es.push(e)[0] == e);
        assert(es.push(e).drop_first() =~= Seq::<DirEntry>::empty());
        assert(entries_records(es.push(e)) == node_records(e.node) + entries_records(
            Seq::<DirEntry>::empty(),
        ));
    } else {
        assert(es.push(e)[0] == es[0]);
        assert(es.push(e).drop_first() =~= es.drop_first().push(e));
        lemma_entries_records_push(es.drop_first(), e);
    }
}

/// Appending an entry adds its size.
pub proof fn lemma_entries_size_push(es: Seq<DirEntry>, e: DirEntry)
    ensures
        entries_size(es.push(e)) == entries_size(es) + node_size(e.node),
    decreases es.len(),
{
    if es.len() == 0 {
        assert(es.push(e)[0] == e);
        assert(es.push(e).drop_first() =~= Seq::<DirEntry>::empty());
        assert(entries_size(es.push(e)) == node_size(e.node) + entries_size(
            Seq::<DirEntry>::empty(),
        ));
        assert(entries_size(es) == 0);
    } else {
        assert(es.push(e)[0] == es[0]);
        assert(es.push(e).drop_first() =~= es.drop_first().push(e));
        lemma_entries_size_push(es.drop_first(), e);
        assert(entries_size(es.push(e)) == node_size(es[0].node) + entries_size(
            es.drop_first().push(e),
        ));
        assert(entries_size(es) == node_size(es[0].node) + entries_size(es.drop_first()));
    }
}

/// Every object body in the tree fits a 64-bit size, as anything built from
/// in-memory vectors does.
pub open spec fn node_fits(n: FsNode) -> bool
    decreases n, 9int,
{
    &&& node_body(n).len() <= u64::MAX
    &&& match n {
        FsNode::File { .. } => true,
        FsNode::Dir { entries } => forall|i: int|
            0 <= i < entries@.len() ==> node_fits(#[trigger] entries@[i].node),
    }
}

/// Commit one node and, bottom-up, all its descendants into the store.
/// Returns the node's hash and the aggregate file size (saturating).
pub fn commit_node(node: &FsNode, store: &mut Store) -> (r: (crate::hash::Hash, u128))
    requires
        old(store).wf(),
        node_wf(*node),
    ensures
        final(store).wf(),
        r.0.wf(),
        r.0@ == node_digest(*node),
        node_digests_ok(*node),
        node_fits(*node),
        r.1 as nat == if node_size(*node) <= u128::MAX {
            node_size(*node)
        } else {
            u128::MAX as nat
        },
        forall|d: Seq<u8>|
            #[trigger] final(store).contains_digest(d) <==> old(store).contains_digest(d)
                || records_contain(node_records(*node), d),
        forall|d: Seq<u8>|
            old(store).contains_digest(d) ==> final(store).lookup(d) == old(store).lookup(d),
        forall|d: Seq<u8>|
            !old(store).contains_digest(d) && #[trigger] records_contain(node_records(*node), d)
                ==> (final(store).lookup(d) matches Some(v) && record_with(
                node_records(*node),
                d,
                v,
            )),
        (forall|d: Seq<u8>|
            #[trigger] records_contain(node_records(*node), d) ==> old(store).contains_digest(d))
            ==> *final(store) == *old(store),
    decreases *node,
{
    match node {
        FsNode::File { content } => {
            let h = hash_object(ObjectType::Blob, content.as_slice());
            let mut data = get_object_prefix_bytes(ObjectType::Blob, content.len() as u64);
            push_bytes(&mut data, content.as_slice());
            proof {
                assert(data@ =~= object_encoding(ObjectType::Blob, content@));
                let rs = node_records(*node);
                assert(rs[0] == (
                    node_digest(*node),
                    ObjectType::Blob,
                    object_encoding(ObjectType::Blob, content@),
                ));
                assert forall|d: Seq<u8>| #[trigger] records_contain(rs, d) implies d
                    == node_digest(*node) by {
                    let i = choose|i: int| 0 <= i < rs.len() && (#[trigger] rs[i]).0 == d;
                }
                assert(records_contain(rs, node_digest(*node)));
            }
            store.write(&h, data);
            proof {
                let rs = node_records(*node);
                if !old(store).contains_digest(node_digest(*node)) {
                    assert(record_with(rs, node_digest(*node), rs[0].2));
                }
            }
            proof {
                assert(node_digests_ok(*node));
                assert(node_fits(*node));
            }
            (h, content.len() as u128)
        },
        FsNode::Dir { entries } => {
            let ghost es = entries@;
            let mut body: Vec<u8> = Vec::new();
            let mut total: u128 = 0;
            let mut j: usize = 0;
            proof {
                assert(es.take(0) =~= Seq::<DirEntry>::empty());
                assert(body@ =~= tree_body(entries_enc(es.take(0))));
            }
            while j < entries.len()
                invariant
                    store.wf(),
                    node_wf(*node),
                    *node == (FsNode::Dir { entries: *entries }),
                    es == entries@,
                    j <= es.len(),
                    body@ == tree_body(entries_enc(es.take(j as int))),
                    total as nat == if entries_size(es.take(j as int)) <= u128::MAX {
                        entries_size(es.take(j as int))
                    } else {
                        u128::MAX as nat
                    },
                    forall|i: int| 0 <= i < j ==> node_digests_ok(#[trigger] es[i].node),
                    forall|i: int| 0 <= i < j ==> node_fits(#[trigger] es[i].node),
                    forall|d: Seq<u8>|
                        #[trigger] store.contains_digest(d) <==> old(store).contains_digest(d)
                            || records_contain(entries_records(es.take(j as int)), d),
                    forall|d: Seq<u8>|
                        old(store).contains_digest(d) ==> store.lookup(d) == old(store).lookup(d),
                    forall|d: Seq<u8>|
                        !old(store).contains_digest(d) && #[trigger] records_contain(
                            entries_records(es.take(j as int)),
                            d,
                        ) ==> (store.lookup(d) matches Some(v) && record_with(
                            entries_records(es.take(j as int)),
                            d,
                            v,
                        )),
                    (forall|d: Seq<u8>|
                        #[trigger] records_contain(entries_records(es.take(j as int)), d) ==> old(
                            store,
                        ).contains_digest(d)) ==> *store == *old(store),
                decreases es.len() - j,
            {
                let ghost pre = *store;
                let ghost recs_j = entries_records(es.take(j as int));
                let e = &entries[j];
                proof {
                    assert(decreases_to!(*node => node->Dir_entries));
                    assert(node->Dir_entries == *entries);
                    assert(decreases_to!(*entries => entries@));
                    assert(decreases_to!(entries@ => entries@[j as int]));
                    assert(decreases_to!(entries@[j as int] => entries@[j as int].node));
                    assert(entry_wf(es[j as int]));
                }
                let (h, sz) = commit_node(&e.node, store);
                let m = match &e.node {
                    FsNode::File { .. } => Mode::Normal,
                    FsNode::Dir { .. } => Mode::Tree,
                };
                let code = m.to_str();
                let cb = code.as_bytes();
                proof {
                    crate::objects::lemma_mode_code_ascii(m);
                    vstd::string::is_ascii_spec_bytes(code);
                    assert(m == node_mode(es[j as int].node));
                    assert(cb@ =~= crate::objects::mode_code_bytes(m));
                }
                push_bytes(&mut body, cb);
                body.push(32);
                push_bytes(&mut body, e.name.as_slice());
                body.push(0);
                push_bytes(&mut body, h.hash.as_slice());
                total = if total <= u128::MAX - sz {
                    total + sz
                } else {
                    u128::MAX
                };
                proof {
                    let ghost child = es[j as int].node;
                    let ghost crecs = node_records(child);
                    let ghost recs_j1 = entries_records(es.take(j + 1));
                    assert(es.take(j + 1) =~= es.take(j as int).push(es[j as int]));
                    lemma_entries_records_push(es.take(j as int), es[j as int]);
                    assert(recs_j1 =~= recs_j + crecs);
                    lemma_entries_enc_push(es.take(j as int), es[j as int]);
                    lemma_tree_body_push(
                        entries_enc(es.take(j as int)),
                        (node_mode(child), es[j as int].name@, node_digest(child)),
                    );
                    assert(entries_enc(es.take(j + 1)) =~= entries_enc(es.take(j as int)).push(
                        (node_mode(child), es[j as int].name@, node_digest(child)),
                    ));
                    assert(body@ =~= tree_body(entries_enc(es.take(j + 1))));
                    lemma_entries_size_push(es.take(j as int), es[j as int]);
                    // membership in the grown record list
                    assert forall|d: Seq<u8>|
                        #[trigger] store.contains_digest(d) <==> old(store).contains_digest(d)
                            || records_contain(recs_j1, d) by {
                        lemma_records_concat(recs_j, crecs, d, Seq::<u8>::empty());
                    }
                    assert forall|d: Seq<u8>|
                        !old(store).contains_digest(d) && #[trigger] records_contain(recs_j1, d)
                            implies store.lookup(d) matches Some(v) && record_with(
                            recs_j1,
                            d,
                            v,
                        ) by {
                        lemma_records_concat(recs_j, crecs, d, Seq::<u8>::empty());
                        if records_contain(recs_j, d) {
                            // already present before this child: value kept
                            assert(pre.lookup(d) matches Some(v) && record_with(recs_j, d, v));
                            assert(pre.contains_digest(d));
                            let v = choose|v: Seq<u8>|
                                pre.lookup(d) == Some(v) && record_with(recs_j, d, v);
                            assert(store.lookup(d) == pre.lookup(d));
                            lemma_records_concat(recs_j, crecs, d, v);
                        } else {
                            assert(records_contain(crecs, d));
                            assert(!pre.contains_digest(d));
                            let v = choose|v: Seq<u8>|
                                store.lookup(d) == Some(v) && record_with(crecs, d, v);
                            lemma_records_concat(recs_j, crecs, d, v);
                        }
                    }
                    if forall|d: Seq<u8>|
                        #[trigger] records_contain(recs_j1, d) ==> old(store).contains_digest(d) {
                        assert forall|d: Seq<u8>|
                            #[trigger] records_contain(recs_j, d) implies old(
                            store,
                        ).contains_digest(d) by {
                            lemma_records_concat(recs_j, crecs, d, Seq::<u8>::empty());
                        }
                        assert(pre == *old(store));
                        assert forall|d: Seq<u8>|
                            #[trigger] records_contain(crecs, d) implies pre.contains_digest(
                            d,
                        ) by {
                            lemma_records_concat(recs_j, crecs, d, Seq::<u8>::empty());
                        }
                        assert(*store == pre);
                    }
                }
                j = j + 1;
            }
            proof {
                assert(es.take(es.len() as int) =~= es);
                assert(node_body(*node) == tree_body(entries_enc(es)));
            }
            let hash = hash_object(ObjectType::Tree, body.as_slice());
            let mut data = get_object_prefix_bytes(ObjectType::Tree, body.len() as u64);
            push_bytes(&mut data, body.as_slice());
            proof {
                assert(data@ =~= object_encoding(ObjectType::Tree, node_body(*node)));
            }
            let ghost pre = *store;
            let ghost own = (
                node_digest(*node),
                ObjectType::Tree,
                object_encoding(ObjectType::Tree, node_body(*node)),
            );
            store.write(&hash, data);
            proof {
                let rs = node_records(*node);
                assert(rs =~= entries_records(es) + seq![own]);
                assert(seq![own][0] == own);
                assert forall|d: Seq<u8>|
                    #[trigger] store.contains_digest(d) <==> old(store).contains_digest(d)
                        || records_contain(rs, d) by {
                    lemma_records_concat(entries_records(es), seq![own], d, Seq::<u8>::empty());
                    if d == own.0 {
                        assert(records_contain(seq![own], d));
                    }
                    if records_contain(seq![own], d) {
                        assert(d == own.0);
                    }
                }
                assert forall|d: Seq<u8>|
                    !old(store).contains_digest(d) && #[trigger] records_contain(rs, d)
                        implies store.lookup(d) matches Some(v) && record_with(rs, d, v) by {
                    lemma_records_concat(entries_records(es), seq![own], d, Seq::<u8>::empty());
                    if records_contain(entries_records(es), d) {
                        assert(pre.lookup(d) matches Some(v) && record_with(
                            entries_records(es),
                            d,
                            v,
                        ));
                        let v = choose|v: Seq<u8>|
                            pre.lookup(d) == Some(v) && record_with(entries_records(es), d, v);
                        assert(pre.contains_digest(d));
                        assert(store.lookup(d) == pre.lookup(d));
                        lemma_records_concat(entries_records(es), seq![own], d, v);
                    } else {
                        assert(records_contain(seq![own], d));
                        assert(d == own.0);
                        if pre.contains_digest(d) {
                            assert(records_contain(entries_records(es), d));
                        } else {
                            assert(store.lookup(d) == Some(own.2));
                            assert(record_with(seq![own], d, own.2));
                            lemma_records_concat(entries_records(es), seq![own], d, own.2);
                        }
                    }
                }
                if forall|d: Seq<u8>|
                    #[trigger] records_contain(rs, d) ==> old(store).contains_digest(d) {
                    assert forall|d: Seq<u8>|
                        #[trigger] records_contain(entries_records(es), d) implies old(
                        store,
                    ).contains_digest(d) by {
                        lemma_records_concat(entries_records(es), seq![own], d, Seq::<u8>::empty());
                    }
                    assert(pre == *old(store));
                    assert(records_contain(seq![own], own.0));
                    lemma_records_concat(entries_records(es), seq![own], own.0, Seq::<u8>::empty());
                    assert(records_contain(rs, own.0));
                    assert(pre.contains_digest(own.0));
                    assert(*store == pre);
                }
                assert(node_digests_ok(*node));
                assert(node_fits(*node));
            }
            (hash, total)
        },
    }
}


/// The digest of the index object a commit writes.
pub open spec fn commit_digest(root: FsNode, ts: Seq<char>) -> Seq<u8> {
    object_hash(ObjectType::Index, index_body_bytes(ts, node_digest(root)))
}

/// Everything a commit persists: the tree's objects, then the index.
pub open spec fn commit_records(root: FsNode, ts: Seq<char>) -> Seq<
    (Seq<u8>, ObjectType, Seq<u8>),
> {
    node_records(root) + seq![
        (
            commit_digest(root, ts),
            ObjectType::Index,
            object_encoding(ObjectType::Index, index_body_bytes(ts, node_digest(root))),
        ),
    ]
}

/// Commit a directory tree: hash and persist every node bottom-up, wrap the
/// root tree's hash in an index carrying the given timestamp, and return the
/// index hash and the aggregate file size. The index hash is a pure function
/// of the tree and the timestamp, and a commit whose objects are all present
/// already leaves the store untouched: committing twice writes nothing new.
pub fn commit(root: &FsNode, timestamp: &String, store: &mut Store) -> (r: Result<
    (crate::hash::Hash, u128),
    StoreError,
>)
    requires
        old(store).wf(),
        node_wf(*root),
        valid_timestamp(timestamp@),
    ensures
        final(store).wf(),
        r is Err <==> !(*root is Dir),
        r matches Err(e) ==> e == StoreError::NotADirectory && *final(store) == *old(store),
        r matches Ok(p) ==> {
            &&& p.0.wf()
            &&& p.0@ == commit_digest(*root, timestamp@)
            &&& node_digests_ok(*root)
            &&& node_fits(*root)
            &&& p.1 as nat == if node_size(*root) <= u128::MAX {
                node_size(*root)
            } else {
                u128::MAX as nat
            }
            &&& forall|d: Seq<u8>|
                #[trigger] final(store).contains_digest(d) <==> old(store).contains_digest(d)
                    || records_contain(commit_records(*root, timestamp@), d)
            &&& forall|d: Seq<u8>|
                old(store).contains_digest(d) ==> final(store).lookup(d) == old(store).lookup(d)
            &&& forall|d: Seq<u8>|
                !old(store).contains_digest(d) && #[trigger] records_contain(
                    commit_records(*root, timestamp@),
                    d,
                ) ==> (final(store).lookup(d) matches Some(v) && record_with(
                    commit_records(*root, timestamp@),
                    d,
                    v,
                ))
            &&& ((forall|d: Seq<u8>|
                #[trigger] records_contain(commit_records(*root, timestamp@), d) ==> old(
                    store,
                ).contains_digest(d)) ==> *final(store) == *old(store))
        },
{
    if let FsNode::File { .. } = root {
        return Err(StoreError::NotADirectory);
    }
    let (tree_hash, total) = commit_node(root, store);
    let body = encode_index_body(timestamp.as_str(), &tree_hash);
    let index_hash = hash_object(ObjectType::Index, body.as_slice());
    let mut data = get_object_prefix_bytes(ObjectType::Index, body.len() as u64);
    push_bytes(&mut data, body.as_slice());
    proof {
        assert(data@ =~= object_encoding(ObjectType::Index, index_body_bytes(
            timestamp@,
            node_digest(*root),
        )));
    }
    let ghost pre = *store;
    let ghost own = (
        commit_digest(*root, timestamp@),
        ObjectType::Index,
        object_encoding(ObjectType::Index, index_body_bytes(timestamp@, node_digest(*root))),
    );
    store.write(&index_hash, data);
    proof {
        let rs = commit_records(*root, timestamp@);
        let nrs = node_records(*root);
        assert(rs =~= nrs + seq![own]);
        assert(seq![own][0] == own);
        assert forall|d: Seq<u8>|
            #[trigger] store.contains_digest(d) <==> old(store).contains_digest(d)
                || records_contain(rs, d) by {
            lemma_records_concat(nrs, seq![own], d, Seq::<u8>::empty());
            if d == own.0 {
                assert(records_contain(seq![own], d));
            }
            if records_contain(seq![own], d) {
                assert(d == own.0);
            }
        }
        assert forall|d: Seq<u8>|
            !old(store).contains_digest(d) && #[trigger] records_contain(rs, d)
                implies store.lookup(d) matches Some(v) && record_with(rs, d, v) by {
            lemma_records_concat(nrs, seq![own], d, Seq::<u8>::empty());
            if records_contain(nrs, d) {
                assert(pre.lookup(d) matches Some(v) && record_with(nrs, d, v));
                let v = choose|v: Seq<u8>| pre.lookup(d) == Some(v) && record_with(nrs, d, v);
                assert(pre.contains_digest(d));
                assert(store.lookup(d) == pre.lookup(d));
                lemma_records_concat(nrs, seq![own], d, v);
            } else {
                assert(records_contain(seq![own], d));
                assert(d == own.0);
                if pre.contains_digest(d) {
                    assert(records_contain(nrs, d));
                } else {
                    assert(store.lookup(d) == Some(own.2));
                    assert(record_with(seq![own], d, own.2));
                    lemma_records_concat(nrs, seq![own], d, own.2);
                }
            }
        }
        if forall|d: Seq<u8>| #[trigger] records_contain(rs, d) ==> old(store).contains_digest(d) {
            assert forall|d: Seq<u8>| #[trigger] records_contain(nrs, d) implies old(
                store,
            ).contains_digest(d) by {
                lemma_records_concat(nrs, seq![own], d, Seq::<u8>::empty());
            }
            assert(pre == *old(store));
            assert(records_contain(seq![own], own.0));
            lemma_records_concat(nrs, seq![own], own.0, Seq::<u8>::empty());
            assert(records_contain(rs, own.0));
            assert(pre.contains_digest(own.0));
            assert(*store == pre);
        }
    }
    Ok((index_hash, total))
}

/// Idempotence. The index hash a commit returns is `commit_digest(root, ts)`
/// in every store, so committing the same directory twice with the same
/// timestamp yields an identical index hash. And after a first commit — whose
/// contract says the store now holds every digest in `commit_records` — the
/// hypothesis below holds, under which a second commit of the same tree and
/// timestamp satisfies the antecedent of commit's no-op clause: it leaves the
/// store exactly as it was, writing zero new objects.
pub proof fn lemma_commit_idempotent(pre: Store, post: Store, root: FsNode, ts: Seq<char>)
    requires
        forall|d: Seq<u8>|
            #[trigger] post.contains_digest(d) <==> pre.contains_digest(d) || records_contain(
                commit_records(root, ts),
                d,
            ),
    ensures
        forall|d: Seq<u8>|
            #[trigger] records_contain(commit_records(root, ts), d) ==> post.contains_digest(d),
{
}

/// The nesting depth of a tree: one for a file, one more than the deepest
/// child for a directory.
pub open spec fn node_height(n: FsNode) -> nat
    decreases n, 11int,
{
    match n {
        FsNode::File { .. } => 1nat,
        FsNode::Dir { entries } => 1 + entries_height(entries@),
    }
}

pub open spec fn entries_height(es: Seq<DirEntry>) -> nat
    decreases es, 12int,
{
    if es.len() == 0 {
        0nat
    } else {
        let h = node_height(es[0].node);
        let r = entries_height(es.drop_first());
        if h > r {
            h
        } else {
            r
        }
    }
}

/// Every tree is at least one level deep.
pub proof fn lemma_node_height_pos(n: FsNode)
    ensures
        node_height(n) >= 1,
{
}

/// A child is nested strictly deeper than its directory.
pub proof fn lemma_entries_height_bound(es: Seq<DirEntry>, i: int)
    requires
        0 <= i < es.len(),
    ensures
        node_height(es[i].node) <= entries_height(es),
    decreases i,
{
    if i > 0 {
        lemma_entries_height_bound(es.drop_first(), i - 1);
        assert(es.drop_first()[i - 1] == es[i]);
    }
}

/// Whether a node is exactly what rehydrating the digest from these store
/// contents yields: the digest resolves to a stored file whose header kind
/// matches the node's shape, a file's content is the stored body verbatim,
/// and a directory's entries match the parsed tree body, child by child.
pub open spec fn rebuilt_from(
    objs: Seq<(crate::hash::Hash, Vec<u8>)>,
    n: FsNode,
    d: Seq<u8>,
) -> bool
    decreases n, 10int,
{
    match spec_lookup(objs, d) {
        None => false,
        Some(data) => match spec_file_header(data) {
            None => false,
            Some(h) => if n is File {
                h.0 == ObjectType::Blob && n->File_content@ == spec_file_body(data)
            } else {
                h.0 == ObjectType::Tree && match parse_tree_body(spec_file_body(data)) {
                    None => false,
                    Some(pes) => {
                        &&& pes.len() == n->Dir_entries@.len()
                        &&& forall|i: int|
                            0 <= i < pes.len() ==> {
                                &&& (#[trigger] pes[i]).0 == node_mode(n->Dir_entries@[i].node)
                                &&& pes[i].1 == n->Dir_entries@[i].name@
                                &&& rebuilt_from(objs, n->Dir_entries@[i].node, pes[i].2)
                            }
                    },
                }
            },
        },
    }
}

/// Rehydrate the object graph under a hash: a blob becomes a file holding
/// the stored body, a tree is parsed and its children rehydrated in turn,
/// their kinds checked against each entry's mode. The fuel bounds recursion
/// depth; a corrupt store that cycles exhausts it.
pub fn restore_node(store: &Store, h: &crate::hash::Hash, fuel: usize) -> (r: Result<
    FsNode,
    StoreError,
>)
    ensures
        r matches Ok(n) ==> rebuilt_from(store.objects@, n, h@) && node_wf(n),
        r is Err ==> (forall|n: FsNode|
            #[trigger] rebuilt_from(store.objects@, n, h@) ==> node_height(n) > fuel),
    decreases fuel,
{
    if fuel == 0 {
        proof {
            assert forall|n: FsNode| #[trigger] rebuilt_from(store.objects@, n, h@)
                implies node_height(n) > fuel by {
                lemma_node_height_pos(n);
            }
        }
        return Err(StoreError::CorruptObject);
    }
    let header = match store.read_header(h) {
        Ok(v) => v,
        Err(e) => {
            proof {
                assert forall|n: FsNode| #[trigger] rebuilt_from(store.objects@, n, h@)
                    implies node_height(n) > fuel by {
                    match spec_lookup(store.objects@, h@) {
                        None => {},
                        Some(data) => {
                            assert(spec_file_header(data) is None);
                        },
                    }
                }
            }
            return Err(e);
        },
    };
    match header.0 {
        ObjectType::Blob => {
            let body = match store.cat(h) {
                Ok(v) => v,
                Err(e) => {
                    proof {
                        assert(false);
                    }
                    return Err(e);
                },
            };
            Ok(FsNode::File { content: body })
        },
        ObjectType::Tree => {
            let body = match store.cat(h) {
                Ok(v) => v,
                Err(e) => {
                    proof {
                        assert(false);
                    }
                    return Err(e);
                },
            };
            let ghost data = store.lookup(h@)->Some_0;
            let parsed = match parse_tree_entries(body.as_slice()) {
                Some(v) => v,
                None => {
                    proof {
                        assert forall|n: FsNode| #[trigger] rebuilt_from(store.objects@, n, h@)
                            implies node_height(n) > fuel by {
                            assert(spec_file_header(data) == Some((ObjectType::Tree, header.1)));
                            if n is Dir {
                                assert(parse_tree_body(spec_file_body(data)) is None);
                            }
                        }
                    }
                    return Err(StoreError::CorruptObject);
                },
            };
            let ghost pes = entries_of(parsed@);
            let mut out: Vec<DirEntry> = Vec::new();
            let mut k: usize = 0;
            while k < parsed.len()
                invariant
                    fuel >= 1,
                    k <= parsed@.len(),
                    out@.len() == k,
                    store.lookup(h@) == Some(data),
                    spec_file_header(data) matches Some(hh) && hh.0 == ObjectType::Tree,
                    parse_tree_body(spec_file_body(data)) == Some(pes),
                    pes == entries_of(parsed@),
                    forall|i: int| 0 <= i < parsed@.len() ==> (#[trigger] parsed@[i]).wf(),
                    forall|i: int|
                        0 <= i < k ==> {
                            &&& node_mode((#[trigger] out@[i]).node) == parsed@[i].mode
                            &&& out@[i].name@ == parsed@[i].name@
                            &&& rebuilt_from(store.objects@, out@[i].node, parsed@[i].hash@)
                            &&& entry_wf(out@[i])
                        },
                decreases parsed@.len() - k,
            {
                let pe = &parsed[k];
                proof {
                    assert(pes[k as int] == parsed@[k as int].view());
                }
                match pe.mode {
                    Mode::Normal => {},
                    Mode::Tree => {},
                    Mode::Executable => {
                        proof {
                            restore_no_rebuilt_for_bad_mode(store, h, fuel, data, pes, k as int);
                        }
                        return Err(StoreError::KindMismatch);
                    },
                    Mode::SymbolicLink => {
                        proof {
                            restore_no_rebuilt_for_bad_mode(store, h, fuel, data, pes, k as int);
                        }
                        return Err(StoreError::KindMismatch);
                    },
                }
                let child = match restore_node(store, &pe.hash, fuel - 1) {
                    Ok(v) => v,
                    Err(e) => {
                        proof {
                            assert forall|n: FsNode| #[trigger] rebuilt_from(
                                store.objects@,
                                n,
                                h@,
                            ) implies node_height(n) > fuel by {
                                assert(n is Dir);
                                let child_n = n->Dir_entries@[k as int].node;
                                assert(rebuilt_from(store.objects@, child_n, pes[k as int].2));
                                assert(node_height(child_n) > fuel - 1);
                                lemma_entries_height_bound(n->Dir_entries@, k as int);
                            }
                        }
                        return Err(e);
                    },
                };
                let shape_ok = match (&pe.mode, &child) {
                    (Mode::Normal, FsNode::File { .. }) => true,
                    (Mode::Tree, FsNode::Dir { .. }) => true,
                    _ => false,
                };
                if !shape_ok {
                    proof {
                        assert forall|n: FsNode| #[trigger] rebuilt_from(store.objects@, n, h@)
                            implies node_height(n) > fuel by {
                            assert(n is Dir);
                            let child_n = n->Dir_entries@[k as int].node;
                            assert(rebuilt_from(store.objects@, child_n, pes[k as int].2));
                            assert(node_mode(child_n) == pes[k as int].0);
                            assert(rebuilt_from(store.objects@, child, pes[k as int].2));
                            let cdata = spec_lookup(store.objects@, pes[k as int].2)->Some_0;
                            let ch = spec_file_header(cdata)->Some_0;
                            if pes[k as int].0 == Mode::Normal {
                                assert(child_n is File);
                                assert(ch.0 == ObjectType::Blob);
                                assert(child is Dir);
                                assert(ch.0 == ObjectType::Tree);
                            } else {
                                assert(pes[k as int].0 == Mode::Tree);
                                assert(child_n is Dir);
                                assert(ch.0 == ObjectType::Tree);
                                assert(child is File);
                                assert(ch.0 == ObjectType::Blob);
                            }
                        }
                    }
                    return Err(StoreError::KindMismatch);
                }
                let name = vstd::slice::slice_to_vec(pe.name.as_slice());
                let ghost old_out = out@;
                out.push(DirEntry { name, node: child });
                proof {
                    assert(out@[k as int].name@ == parsed@[k as int].name@);
                    assert(node_mode(out@[k as int].node) == parsed@[k as int].mode);
                    assert(rebuilt_from(store.objects@, out@[k as int].node, parsed@[k as int].hash@));
                    assert(valid_entry(parsed@[k as int].view()));
                    assert forall|i: int| 0 <= i < out@[k as int].name@.len() implies out@[
                        k as int
                    ].name@[i] != 0 by {
                        assert(parsed@[k as int].view().1[i] != 0);
                    }
                    assert(entry_wf(out@[k as int]));
                    assert(forall|i: int| 0 <= i < k ==> out@[i] == old_out[i]);
                }
                k = k + 1;
            }
            let node = FsNode::Dir { entries: out };
            proof {
                assert(parse_tree_body(spec_file_body(data)) == Some(pes));
                assert(node->Dir_entries@.len() == pes.len());
                assert forall|i: int| 0 <= i < pes.len() implies {
                    &&& (#[trigger] pes[i]).0 == node_mode(node->Dir_entries@[i].node)
                    &&& pes[i].1 == node->Dir_entries@[i].name@
                    &&& rebuilt_from(store.objects@, node->Dir_entries@[i].node, pes[i].2)
                } by {
                    assert(pes[i] == parsed@[i].view());
                }
                assert(rebuilt_from(store.objects@, node, h@));
                assert forall|i: int| 0 <= i < node->Dir_entries@.len() implies entry_wf(
                    #[trigger] node->Dir_entries@[i],
                ) by {}
                assert(node_wf(node));
            }
            Ok(node)
        },
        ObjectType::Index => {
            proof {
                assert forall|n: FsNode| #[trigger] rebuilt_from(store.objects@, n, h@)
                    implies node_height(n) > fuel by {
                    let data2 = spec_lookup(store.objects@, h@)->Some_0;
                    assert(spec_file_header(data2) == Some(header));
                }
            }
            Err(StoreError::KindMismatch)
        },
    }
}

/// No tree rehydrates from a body one of whose entries carries a mode the
/// directory model never produces.
proof fn restore_no_rebuilt_for_bad_mode(
    store: &Store,
    h: &crate::hash::Hash,
    fuel: usize,
    data: Seq<u8>,
    pes: Seq<(Mode, Seq<u8>, Seq<u8>)>,
    k: int,
)
    requires
        store.lookup(h@) == Some(data),
        spec_file_header(data) matches Some(hh) && hh.0 == ObjectType::Tree,
        parse_tree_body(spec_file_body(data)) == Some(pes),
        0 <= k < pes.len(),
        pes[k].0 == Mode::Executable || pes[k].0 == Mode::SymbolicLink,
    ensures
        forall|n: FsNode| #[trigger] rebuilt_from(store.objects@, n, h@) ==> node_height(n) > fuel,
{
    assert forall|n: FsNode| #[trigger] rebuilt_from(store.objects@, n, h@) implies node_height(
        n,
    ) > fuel by {
        assert(n is Dir);
        let child_n = n->Dir_entries@[k].node;
        assert(pes[k].0 == node_mode(child_n));
        match child_n {
            FsNode::File { .. } => {},
            FsNode::Dir { .. } => {},
        }
    }
}

/// Whether a tree and timestamp are exactly what rehydrating the index at
/// the digest yields.
pub open spec fn index_rebuilt(
    objs: Seq<(crate::hash::Hash, Vec<u8>)>,
    n: FsNode,
    ts: Seq<char>,
    d: Seq<u8>,
) -> bool {
    match spec_lookup(objs, d) {
        None => false,
        Some(data) => match spec_file_header(data) {
            None => false,
            Some(h) => h.0 == ObjectType::Index && match parse_index_body(spec_file_body(data)) {
                None => false,
                Some(q) => ts == q.0 && n is Dir && rebuilt_from(objs, n, q.1),
            },
        },
    }
}

/// The rehydration depth a restore allows: one more than the number of
/// stored objects, which bounds any acyclic chain of lookups.
pub open spec fn restore_fuel(count: nat) -> nat {
    if count < usize::MAX {
        count + 1
    } else {
        count
    }
}

/// Restore a committed tree: rehydrate the index by hash, then the root
/// tree it references, rebuilding the whole directory structure. Failure is
/// owed only when no tree nested within the fuel bound rehydrates from this
/// index together with some timestamp.
pub fn restore(store: &Store, index_hash: &crate::hash::Hash) -> (r: Result<
    (FsNode, String),
    StoreError,
>)
    ensures
        r matches Ok(p) ==> index_rebuilt(store.objects@, p.0, p.1@, index_hash@) && node_wf(p.0),
        r is Err ==> (forall|n: FsNode, ts2: Seq<char>|
            #[trigger] index_rebuilt(store.objects@, n, ts2, index_hash@) ==> node_height(n)
                > restore_fuel(store.objects@.len())),
{
    let header = match store.read_header(index_hash) {
        Ok(v) => v,
        Err(e) => {
            proof {
                assert forall|n: FsNode, ts2: Seq<char>|
                    #[trigger] index_rebuilt(store.objects@, n, ts2, index_hash@)
                    implies node_height(n) > restore_fuel(store.objects@.len()) by {
                    match spec_lookup(store.objects@, index_hash@) {
                        None => {},
                        Some(data) => {
                            assert(spec_file_header(data) is None);
                        },
                    }
                }
            }
            return Err(e);
        },
    };
    match header.0 {
        ObjectType::Index => {},
        _ => {
            proof {
                assert forall|n: FsNode, ts2: Seq<char>|
                    #[trigger] index_rebuilt(store.objects@, n, ts2, index_hash@)
                    implies node_height(n) > restore_fuel(store.objects@.len()) by {
                    let data = spec_lookup(store.objects@, index_hash@)->Some_0;
                    assert(spec_file_header(data) == Some(header));
                }
            }
            return Err(StoreError::KindMismatch);
        },
    }
    let body = match store.cat(index_hash) {
        Ok(v) => v,
        Err(e) => {
            proof {
                assert(false);
            }
            return Err(e);
        },
    };
    let ghost idata = store.lookup(index_hash@)->Some_0;
    let (ts, tree_hash) = match parse_index_slice(body.as_slice()) {
        Some(v) => v,
        None => {
            proof {
                assert forall|n: FsNode, ts2: Seq<char>|
                    #[trigger] index_rebuilt(store.objects@, n, ts2, index_hash@)
                    implies node_height(n) > restore_fuel(store.objects@.len()) by {
                    assert(parse_index_body(spec_file_body(idata)) is None);
                }
            }
            return Err(StoreError::CorruptObject);
        },
    };
    let count = store.object_count();
    let fuel = if count < usize::MAX {
        count + 1
    } else {
        count
    };
    let node = match restore_node(store, &tree_hash, fuel) {
        Ok(v) => v,
        Err(e) => {
            proof {
                assert forall|n: FsNode, ts2: Seq<char>|
                    #[trigger] index_rebuilt(store.objects@, n, ts2, index_hash@)
                    implies node_height(n) > restore_fuel(store.objects@.len()) by {
                    let q = parse_index_body(spec_file_body(idata))->Some_0;
                    assert(q.1 == tree_hash@);
                    assert(rebuilt_from(store.objects@, n, q.1));
                }
            }
            return Err(e);
        },
    };
    match &node {
        FsNode::Dir { .. } => {},
        _ => {
            proof {
                assert forall|n: FsNode, ts2: Seq<char>|
                    #[trigger] index_rebuilt(store.objects@, n, ts2, index_hash@)
                    implies node_height(n) > restore_fuel(store.objects@.len()) by {
                    let q = parse_index_body(spec_file_body(idata))->Some_0;
                    assert(rebuilt_from(store.objects@, n, q.1));
                    assert(rebuilt_from(store.objects@, node, q.1));
                    let cdata = spec_lookup(store.objects@, q.1)->Some_0;
                    let ch = spec_file_header(cdata)->Some_0;
                    assert(n is Dir);
                    assert(ch.0 == ObjectType::Tree);
                    assert(node is File);
                    assert(ch.0 == ObjectType::Blob);
                }
            }
            return Err(StoreError::KindMismatch);
        },
    }
    Ok((node, ts))
}

/// Two trees with the same shape, the same entry names in the same order,
/// and byte-identical file contents.
pub open spec fn node_like(a: FsNode, b: FsNode) -> bool
    decreases a, 0int,
{
    if a is File && b is File {
        a->File_content@ == b->File_content@
    } else if a is Dir && b is Dir {
        &&& a->Dir_entries@.len() == b->Dir_entries@.len()
        &&& forall|i: int|
            0 <= i < a->Dir_entries@.len() ==> {
                &&& (#[trigger] a->Dir_entries@[i]).name@ == b->Dir_entries@[i].name@
                &&& node_like(a->Dir_entries@[i].node, b->Dir_entries@[i].node)
            }
    } else {
        false
    }
}


/// Whether a record occurs in a list.
pub open spec fn record_in(
    rs: Seq<(Seq<u8>, ObjectType, Seq<u8>)>,
    r: (Seq<u8>, ObjectType, Seq<u8>),
) -> bool {
    exists|i: int| 0 <= i < rs.len() && rs[i] == r
}

/// Every record of `a` occurs in `b`.
pub open spec fn records_subset(
    a: Seq<(Seq<u8>, ObjectType, Seq<u8>)>,
    b: Seq<(Seq<u8>, ObjectType, Seq<u8>)>,
) -> bool {
    forall|i: int| 0 <= i < a.len() ==> record_in(b, #[trigger] a[i])
}

pub proof fn lemma_subset_concat(
    a: Seq<(Seq<u8>, ObjectType, Seq<u8>)>,
    b: Seq<(Seq<u8>, ObjectType, Seq<u8>)>,
)
    ensures
        records_subset(a, a + b),
        records_subset(b, a + b),
{
    assert forall|i: int| 0 <= i < a.len() implies record_in(a + b, #[trigger] a[i]) by {
        assert((a + b)[i] == a[i]);
    }
    assert forall|i: int| 0 <= i < b.len() implies record_in(a + b, #[trigger] b[i]) by {
        assert((a + b)[a.len() + i] == b[i]);
    }
}

pub proof fn lemma_subset_trans(
    a: Seq<(Seq<u8>, ObjectType, Seq<u8>)>,
    b: Seq<(Seq<u8>, ObjectType, Seq<u8>)>,
    c: Seq<(Seq<u8>, ObjectType, Seq<u8>)>,
)
    requires
        records_subset(a, b),
        records_subset(b, c),
    ensures
        records_subset(a, c),
{
    assert forall|i: int| 0 <= i < a.len() implies record_in(c, #[trigger] a[i]) by {
        assert(record_in(b, a[i]));
        let j = choose|j: int| 0 <= j < b.len() && b[j] == a[i];
        assert(record_in(c, b[j]));
    }
}

pub proof fn lemma_subset_contain(
    a: Seq<(Seq<u8>, ObjectType, Seq<u8>)>,
    b: Seq<(Seq<u8>, ObjectType, Seq<u8>)>,
    d: Seq<u8>,
)
    requires
        records_subset(a, b),
        records_contain(a, d),
    ensures
        records_contain(b, d),
{
    let i = choose|i: int| 0 <= i < a.len() && (#[trigger] a[i]).0 == d;
    assert(record_in(b, a[i]));
    let j = choose|j: int| 0 <= j < b.len() && b[j] == a[i];
    assert(b[j].0 == d);
}

/// Each child's records stand among the entry list's records.
pub proof fn lemma_entries_records_member(es: Seq<DirEntry>, k: int)
    requires
        0 <= k < es.len(),
    ensures
        records_subset(node_records(es[k].node), entries_records(es)),
    decreases k,
{
    lemma_subset_concat(node_records(es[0].node), entries_records(es.drop_first()));
    if k == 0 {
    } else {
        lemma_entries_records_member(es.drop_first(), k - 1);
        assert(es.drop_first()[k - 1] == es[k]);
        lemma_subset_trans(
            node_records(es[k].node),
            entries_records(es.drop_first()),
            entries_records(es),
        );
    }
}

/// The encoded entry list, element by element.
pub proof fn lemma_entries_enc_index(es: Seq<DirEntry>)
    ensures
        entries_enc(es).len() == es.len(),
        forall|i: int|
            0 <= i < es.len() ==> #[trigger] entries_enc(es)[i] == (
                node_mode(es[i].node),
                es[i].name@,
                node_digest(es[i].node),
            ),
    decreases es.len(),
{
    if es.len() > 0 {
        lemma_entries_enc_index(es.drop_first());
        assert forall|i: int|
            0 <= i < es.len() implies #[trigger] entries_enc(es)[i] == (
            node_mode(es[i].node),
            es[i].name@,
            node_digest(es[i].node),
        ) by {
            if i > 0 {
                assert(entries_enc(es)[i] == entries_enc(es.drop_first())[i - 1]);
                assert(es.drop_first()[i - 1] == es[i]);
            }
        }
    }
}

/// A committed tree rehydrates from its own digest: the store holds every
/// object the commit wrote, so looking the digests up and parsing the bodies
/// rebuilds exactly the committed structure — provided no two distinct
/// objects of the commit share a digest.
pub proof fn lemma_commit_rebuilds(
    objs: Seq<(crate::hash::Hash, Vec<u8>)>,
    n: FsNode,
    all: Seq<(Seq<u8>, ObjectType, Seq<u8>)>,
)
    requires
        node_wf(n),
        node_digests_ok(n),
        node_fits(n),
        records_consistent(all),
        records_subset(node_records(n), all),
        forall|d: Seq<u8>|
            #[trigger] records_contain(node_records(n), d) ==> (spec_lookup(objs, d) matches Some(
                v,
            ) && record_with(all, d, v)),
    ensures
        rebuilt_from(objs, n, node_digest(n)),
    decreases n,
{
    let dg = node_digest(n);
    let enc = object_encoding(node_kind(n), node_body(n));
    let rs = node_records(n);
    let own = (dg, node_kind(n), enc);
    if n is File {
        assert(rs[0] == own);
    } else {
        assert(rs == entries_records(n->Dir_entries@) + seq![own]);
        assert(rs[rs.len() - 1] == own);
    }
    assert(records_contain(rs, dg));
    let v = choose|v: Seq<u8>| spec_lookup(objs, dg) == Some(v) && record_with(all, dg, v);
    assert(record_in(all, own)) by {
        if n is File {
            assert(rs[0] == own);
        } else {
            assert(rs[rs.len() - 1] == own);
        }
    }
    let j = choose|j: int| 0 <= j < all.len() && all[j] == own;
    let j2 = choose|j2: int| 0 <= j2 < all.len() && (#[trigger] all[j2]).0 == dg && all[j2].2 == v;
    assert(all[j].2 == all[j2].2);
    assert(v == enc);
    crate::store::lemma_encoding_file_parts(node_kind(n), node_body(n));
    assert(spec_file_body(enc) == node_body(n));
    if n is File {
        assert(rebuilt_from(objs, n, dg));
    } else {
        let es = n->Dir_entries@;
        lemma_entries_enc_index(es);
        assert forall|i: int|
            0 <= i < entries_enc(es).len() implies valid_entry(#[trigger] entries_enc(es)[i]) by {
            assert(entry_wf(es[i]));
            assert(node_digests_ok(es[i].node));
        }
        lemma_tree_body_roundtrip(entries_enc(es));
        assert(parse_tree_body(node_body(n)) == Some(entries_enc(es)));
        let pes = entries_enc(es);
        assert forall|i: int|
            0 <= i < pes.len() implies {
            &&& (#[trigger] pes[i]).0 == node_mode(es[i].node)
            &&& pes[i].1 == es[i].name@
            &&& rebuilt_from(objs, es[i].node, pes[i].2)
        } by {
            let child = es[i].node;
            assert(decreases_to!(n => n->Dir_entries));
            assert(entry_wf(es[i]));
            assert(node_digests_ok(child));
            assert(node_fits(child));
            lemma_entries_records_member(es, i);
            lemma_subset_concat(entries_records(es), seq![own]);
            lemma_subset_trans(node_records(child), entries_records(es), rs);
            lemma_subset_trans(node_records(child), rs, all);
            assert forall|d: Seq<u8>|
                #[trigger] records_contain(node_records(child), d) implies (spec_lookup(
                objs,
                d,
            ) matches Some(v2) && record_with(all, d, v2)) by {
                lemma_subset_contain(node_records(child), rs, d);
            }
            lemma_commit_rebuilds(objs, child, all);
            assert(pes[i].2 == node_digest(child));
        }
        assert(rebuilt_from(objs, n, dg));
    }
}

/// Two trees rehydrated from the same digest out of the same store contents
/// are alike: same shape, names, and file contents.
pub proof fn lemma_rebuilt_like(
    objs: Seq<(crate::hash::Hash, Vec<u8>)>,
    a: FsNode,
    b: FsNode,
    d: Seq<u8>,
)
    requires
        rebuilt_from(objs, a, d),
        rebuilt_from(objs, b, d),
    ensures
        node_like(a, b),
    decreases a,
{
    let data = spec_lookup(objs, d)->Some_0;
    let h = spec_file_header(data)->Some_0;
    if a is File {
        assert(h.0 == ObjectType::Blob);
        assert(b is File);
        assert(a->File_content@ == spec_file_body(data));
        assert(b->File_content@ == spec_file_body(data));
    } else {
        assert(h.0 == ObjectType::Tree);
        assert(b is Dir);
        let pes = parse_tree_body(spec_file_body(data))->Some_0;
        assert(a->Dir_entries@.len() == pes.len());
        assert(b->Dir_entries@.len() == pes.len());
        assert forall|i: int|
            0 <= i < a->Dir_entries@.len() implies {
            &&& (#[trigger] a->Dir_entries@[i]).name@ == b->Dir_entries@[i].name@
            &&& node_like(a->Dir_entries@[i].node, b->Dir_entries@[i].node)
        } by {
            assert(decreases_to!(a => a->Dir_entries));
            assert(pes[i].1 == a->Dir_entries@[i].name@);
            assert(pes[i].1 == b->Dir_entries@[i].name@);
            assert(rebuilt_from(objs, a->Dir_entries@[i].node, pes[i].2));
            assert(rebuilt_from(objs, b->Dir_entries@[i].node, pes[i].2));
            lemma_rebuilt_like(objs, a->Dir_entries@[i].node, b->Dir_entries@[i].node, pes[i].2);
        }
        assert(node_like(a, b));
    }
}

/// Round trip: a tree restored from the index digest that committing `root`
/// with timestamp `ts` produced is `root` itself — the same directory
/// nesting, the same entry names in the same order, and byte-identical file
/// contents — and the restored timestamp is `ts`. The store hypotheses are
/// exactly what `commit` ensures on a store that did not already hold the
/// commit's digests; the consistency hypothesis excludes a commit in which
/// two distinct objects collide in their digest.
pub proof fn lemma_commit_restore_roundtrip(
    store: Store,
    root: FsNode,
    ts: Seq<char>,
    m: FsNode,
    ts2: Seq<char>,
)
    requires
        node_wf(root),
        node_digests_ok(root),
        node_fits(root),
        valid_timestamp(ts),
        ts.len() + 146 <= u64::MAX,
        records_consistent(commit_records(root, ts)),
        forall|d: Seq<u8>|
            #[trigger] records_contain(commit_records(root, ts), d) ==> (spec_lookup(
                store.objects@,
                d,
            ) matches Some(v) && record_with(commit_records(root, ts), d, v)),
        index_rebuilt(store.objects@, m, ts2, commit_digest(root, ts)),
    ensures
        ts2 == ts,
        node_like(m, root),
{
    let objs = store.objects@;
    let crs = commit_records(root, ts);
    let nrs = node_records(root);
    let dg = commit_digest(root, ts);
    let ibody = index_body_bytes(ts, node_digest(root));
    let own = (dg, ObjectType::Index, object_encoding(ObjectType::Index, ibody));
    assert(crs == nrs + seq![own]);
    assert(crs[crs.len() - 1] == own);
    assert(records_contain(crs, dg));
    let v = choose|v: Seq<u8>| spec_lookup(objs, dg) == Some(v) && record_with(crs, dg, v);
    let j2 = choose|j2: int| 0 <= j2 < crs.len() && (#[trigger] crs[j2]).0 == dg && crs[j2].2 == v;
    assert(crs[crs.len() - 1].2 == crs[j2].2);
    assert(v == own.2);
    assert(ibody.len() == 146 + ts.len());
    crate::store::lemma_encoding_file_parts(ObjectType::Index, ibody);
    lemma_index_body_roundtrip(ts, node_digest(root));
    assert(parse_index_body(spec_file_body(own.2)) == Some((ts, node_digest(root))));
    assert(ts2 == ts);
    assert(rebuilt_from(objs, m, node_digest(root)));
    lemma_subset_concat(nrs, seq![own]);
    assert forall|d: Seq<u8>|
        #[trigger] records_contain(nrs, d) implies (spec_lookup(objs, d) matches Some(v2)
        && record_with(crs, d, v2)) by {
        lemma_subset_contain(nrs, crs, d);
    }
    lemma_commit_rebuilds(objs, root, crs);
    lemma_rebuilt_like(objs, m, root, node_digest(root));
}

/// Hash sensitivity for file contents: changing any byte of a blob's
/// content changes the byte stream its hash is computed over.
pub proof fn lemma_content_changes_blob_encoding(c1: Seq<u8>, c2: Seq<u8>)
    requires
        c1 != c2,
        c1.len() <= u64::MAX,
        c2.len() <= u64::MAX,
    ensures
        object_encoding(ObjectType::Blob, c1) != object_encoding(ObjectType::Blob, c2),
{
    if object_encoding(ObjectType::Blob, c1) == object_encoding(ObjectType::Blob, c2) {
        crate::store::lemma_object_encoding_injective(
            ObjectType::Blob,
            c1,
            ObjectType::Blob,
            c2,
        );
    }
}

/// Hash sensitivity for names: renaming one entry leaves the renamed
/// child's own digest unchanged — a node's digest depends on its content
/// alone, never on the name it is filed under — while the enclosing tree's
/// digest input changes.
pub proof fn lemma_rename_changes_tree_encoding(a: FsNode, b: FsNode, k: int)
    requires
        a is Dir,
        b is Dir,
        node_wf(a),
        node_wf(b),
        node_digests_ok(a),
        node_digests_ok(b),
        node_fits(a),
        node_fits(b),
        a->Dir_entries@.len() == b->Dir_entries@.len(),
        0 <= k < a->Dir_entries@.len(),
        forall|i: int|
            0 <= i < a->Dir_entries@.len() ==> (#[trigger] a->Dir_entries@[i]).node
                == b->Dir_entries@[i].node,
        a->Dir_entries@[k].name@ != b->Dir_entries@[k].name@,
    ensures
        node_digest(a->Dir_entries@[k].node) == node_digest(b->Dir_entries@[k].node),
        node_body(a) != node_body(b),
        object_encoding(ObjectType::Tree, node_body(a)) != object_encoding(
            ObjectType::Tree,
            node_body(b),
        ),
{
    let ea = a->Dir_entries@;
    let eb = b->Dir_entries@;
    lemma_entries_enc_index(ea);
    lemma_entries_enc_index(eb);
    assert forall|i: int|
        0 <= i < entries_enc(ea).len() implies valid_entry(#[trigger] entries_enc(ea)[i]) by {
        assert(entry_wf(ea[i]));
        assert(node_digests_ok(ea[i].node));
    }
    assert forall|i: int|
        0 <= i < entries_enc(eb).len() implies valid_entry(#[trigger] entries_enc(eb)[i]) by {
        assert(entry_wf(eb[i]));
        assert(node_digests_ok(eb[i].node));
    }
    if node_body(a) == node_body(b) {
        crate::bodies::lemma_tree_body_injective(entries_enc(ea), entries_enc(eb));
        assert(entries_enc(ea)[k] == entries_enc(eb)[k]);
        assert(entries_enc(ea)[k].1 == ea[k].name@);
        assert(entries_enc(eb)[k].1 == eb[k].name@);
        assert(false);
    }
    if object_encoding(ObjectType::Tree, node_body(a)) == object_encoding(
        ObjectType::Tree,
        node_body(b),
    ) {
        crate::store::lemma_object_encoding_injective(
            ObjectType::Tree,
            node_body(a),
            ObjectType::Tree,
            node_body(b),
        );
    }
}

} // verus!
