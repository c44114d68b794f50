//! The canonical object codec.  Each variant has exactly one byte encoding:
//! a type tag, a little-endian payload length, and the payload.  Tree
//! entries are sorted by name as part of encoding, so identical directory
//! contents always serialize identically.  `decode_obj` inverts `encode_obj`
//! on well-formed objects, which the round-trip lemmas at the end prove.

use vstd::prelude::*;
use crate::bytes::{u64_le, le_to_u64, bytes_le, lemma_u64_le_roundtrip, lemma_bytes_le_total,
    lemma_bytes_le_trans, bytes_le_exec, copy_bytes, copy_range, push_u64_le, push_all,
    read_u64_le};
use crate::object::{DIGEST_LEN, ObjKind, TreeEntry, TreeEntryV, Identity, IdentityV, GitObject,
    ObjectV, wf_entry, wf_ident, wf_object, entries_sorted, obj_sorted, lemma_deep_view_index};
use crate::digest::sha1_of;

verus! {

pub const TAG_BLOB: u8 = 1;

pub const TAG_TREE: u8 = 2;

pub const TAG_COMMIT: u8 = 3;

pub const KIND_BLOB: u8 = 1;

pub const KIND_TREE: u8 = 2;

// ---------------------------------------------------------------------------
// Canonical entry order
// ---------------------------------------------------------------------------

/// `e` inserted into `s` before the first entry whose name is not below
/// `e`'s.
pub open spec fn insert_entry(e: TreeEntryV, s: Seq<TreeEntryV>) -> Seq<TreeEntryV>
    decreases s.len(),
{
    if s.len() == 0 {
        seq![e]
    } else if bytes_le(e.name, s[0].name) {
        seq![e] + s
    } else {
        seq![s[0]] + insert_entry(e, s.skip(1))
    }
}

/// Insertion sort of tree entries by name.
pub open spec fn sort_entries(s: Seq<TreeEntryV>) -> Seq<TreeEntryV>
    decreases s.len(),
{
    if s.len() == 0 {
        Seq::empty()
    } else {
        insert_entry(s[0], sort_entries(s.skip(1)))
    }
}

/// The object with its entries in canonical order.
pub open spec fn canon(o: ObjectV) -> ObjectV {
    match o {
        ObjectV::Tree { entries } => ObjectV::Tree { entries: sort_entries(entries) },
        _ => o,
    }
}

pub proof fn lemma_insert_entry_len(e: TreeEntryV, s: Seq<TreeEntryV>)
    ensures
        insert_entry(e, s).len() == s.len() + 1,
    decreases s.len(),
{
    if s.len() > 0 && !bytes_le(e.name, s[0].name) {
        lemma_insert_entry_len(e, s.skip(1));
    }
}

pub proof fn lemma_sort_entries_len(s: Seq<TreeEntryV>)
    ensures
        sort_entries(s).len() == s.len(),
    decreases s.len(),
{
    if s.len() > 0 {
        lemma_sort_entries_len(s.skip(1));
        lemma_insert_entry_len(s[0], sort_entries(s.skip(1)));
    }
}

/// A lower bound on every name survives insertion.
proof fn lemma_insert_entry_le_all(e: TreeEntryV, s: Seq<TreeEntryV>, x: Seq<u8>)
    requires
        bytes_le(x, e.name),
        forall|i: int| 0 <= i < s.len() ==> bytes_le(x, s[i].name),
    ensures
        forall|i: int|
            0 <= i < insert_entry(e, s).len() ==> bytes_le(x, insert_entry(e, s)[i].name),
    decreases s.len(),
{
    if s.len() == 0 {
    } else if bytes_le(e.name, s[0].name) {
        assert forall|i: int| 0 <= i < insert_entry(e, s).len() implies bytes_le(
            x,
            insert_entry(e, s)[i].name,
        ) by {
            if i > 0 {
                assert(insert_entry(e, s)[i] == s[i - 1]);
            }
        }
    } else {
        lemma_insert_entry_le_all(e, s.skip(1), x);
        assert forall|i: int| 0 <= i < insert_entry(e, s).len() implies bytes_le(
            x,
            insert_entry(e, s)[i].name,
        ) by {
            if i > 0 {
                assert(insert_entry(e, s)[i] == insert_entry(e, s.skip(1))[i - 1]);
            }
        }
    }
}

pub proof fn lemma_insert_entry_sorted(e: TreeEntryV, s: Seq<TreeEntryV>)
    requires
        entries_sorted(s),
    ensures
        entries_sorted(insert_entry(e, s)),
    decreases s.len(),
{
    if s.len() == 0 {
    } else if bytes_le(e.name, s[0].name) {
        let r = seq![e] + s;
        assert forall|i: int, j: int| 0 <= i < j < r.len() implies bytes_le(
            r[i].name,
            r[j].name,
        ) by {
            if i == 0 {
                assert(r[j] == s[j - 1]);
                if j > 1 {
                    lemma_bytes_le_trans(e.name, s[0].name, s[j - 1].name);
                }
            } else {
                assert(r[i] == s[i - 1] && r[j] == s[j - 1]);
            }
        }
    } else {
        lemma_bytes_le_total(e.name, s[0].name);
        assert forall|i: int| 0 <= i < s.skip(1).len() implies bytes_le(
            s[0].name,
            s.skip(1)[i].name,
        ) by {
            assert(s.skip(1)[i] == s[i + 1]);
        }
        assert(entries_sorted(s.skip(1))) by {
            assert forall|i: int, j: int| 0 <= i < j < s.skip(1).len() implies bytes_le(
                s.skip(1)[i].name,
                s.skip(1)[j].name,
            ) by {
                assert(s.skip(1)[i] == s[i + 1] && s.skip(1)[j] == s[j + 1]);
            }
        }
        lemma_insert_entry_sorted(e, s.skip(1));
        lemma_insert_entry_le_all(e, s.skip(1), s[0].name);
        let t = insert_entry(e, s.skip(1));
        let r = seq![s[0]] + t;
        assert forall|i: int, j: int| 0 <= i < j < r.len() implies bytes_le(
            r[i].name,
            r[j].name,
        ) by {
            if i == 0 {
                assert(r[j] == t[j - 1]);
            } else {
                assert(r[i] == t[i - 1] && r[j] == t[j - 1]);
            }
        }
    }
}

pub proof fn lemma_sort_entries_sorted(s: Seq<TreeEntryV>)
    ensures
        entries_sorted(sort_entries(s)),
    decreases s.len(),
{
    if s.len() > 0 {
        lemma_sort_entries_sorted(s.skip(1));
        lemma_insert_entry_sorted(s[0], sort_entries(s.skip(1)));
    }
}

/// Sorting entries that are already in order changes nothing.
pub proof fn lemma_sort_entries_id(s: Seq<TreeEntryV>)
    requires
        entries_sorted(s),
    ensures
        sort_entries(s) == s,
    decreases s.len(),
{
    if s.len() > 0 {
        assert(entries_sorted(s.skip(1))) by {
            assert forall|i: int, j: int| 0 <= i < j < s.skip(1).len() implies bytes_le(
                s.skip(1)[i].name,
                s.skip(1)[j].name,
            ) by {
                assert(s.skip(1)[i] == s[i + 1] && s.skip(1)[j] == s[j + 1]);
            }
        }
        lemma_sort_entries_id(s.skip(1));
        if s.len() == 1 {
            assert(insert_entry(s[0], s.skip(1)) =~= s);
        } else {
            assert(s.skip(1)[0] == s[1]);
            assert(bytes_le(s[0].name, s[1].name));
            assert(insert_entry(s[0], s.skip(1)) =~= s);
        }
    }
}

/// Insertion keeps every entry well formed.
proof fn lemma_insert_entry_wf(e: TreeEntryV, s: Seq<TreeEntryV>)
    requires
        wf_entry(e),
        forall|i: int| 0 <= i < s.len() ==> wf_entry(#[trigger] s[i]),
    ensures
        forall|i: int|
            0 <= i < insert_entry(e, s).len() ==> wf_entry(#[trigger] insert_entry(e, s)[i]),
    decreases s.len(),
{
    if s.len() == 0 {
    } else if bytes_le(e.name, s[0].name) {
        assert forall|i: int| 0 <= i < insert_entry(e, s).len() implies wf_entry(
            insert_entry(e, s)[i],
        ) by {
            if i > 0 {
                assert(insert_entry(e, s)[i] == s[i - 1]);
            }
        }
    } else {
        assert forall|i: int| 0 <= i < s.skip(1).len() implies wf_entry(#[trigger] s.skip(1)[i]) by {
            assert(s.skip(1)[i] == s[i + 1]);
        }
        lemma_insert_entry_wf(e, s.skip(1));
        assert forall|i: int| 0 <= i < insert_entry(e, s).len() implies wf_entry(
            insert_entry(e, s)[i],
        ) by {
            if i > 0 {
                assert(insert_entry(e, s)[i] == insert_entry(e, s.skip(1))[i - 1]);
            }
        }
    }
}

/// Canonicalizing keeps an object well formed, leaves it sorted, and is
/// idempotent.
pub proof fn lemma_canon_wf(o: ObjectV)
    requires
        wf_object(o),
    ensures
        wf_object(canon(o)),
        obj_sorted(canon(o)),
        canon(canon(o)) == canon(o),
    decreases (match o {
        ObjectV::Tree { entries } => entries.len(),
        _ => 0,
    }),
{
    match o {
        ObjectV::Tree { entries } => {
            lemma_sort_entries_wf(entries);
            lemma_sort_entries_sorted(entries);
            lemma_sort_entries_len(entries);
            lemma_sort_entries_id(sort_entries(entries));
        },
        _ => {},
    }
}

proof fn lemma_sort_entries_wf(s: Seq<TreeEntryV>)
    requires
        forall|i: int| 0 <= i < s.len() ==> wf_entry(#[trigger] s[i]),
    ensures
        forall|i: int| 0 <= i < sort_entries(s).len() ==> wf_entry(#[trigger] sort_entries(s)[i]),
    decreases s.len(),
{
    if s.len() > 0 {
        assert forall|i: int| 0 <= i < s.skip(1).len() implies wf_entry(#[trigger] s.skip(1)[i]) by {
            assert(s.skip(1)[i] == s[i + 1]);
        }
        lemma_sort_entries_wf(s.skip(1));
        lemma_insert_entry_wf(s[0], sort_entries(s.skip(1)));
    }
}

// ---------------------------------------------------------------------------
// Encoding
// ---------------------------------------------------------------------------

/// A length-prefixed byte field.
pub open spec fn enc_bytes(b: Seq<u8>) -> Seq<u8> {
    u64_le(b.len() as u64) + b
}

pub open spec fn kind_byte(k: ObjKind) -> u8 {
    match k {
        ObjKind::Blob => KIND_BLOB,
        ObjKind::Tree => KIND_TREE,
    }
}

pub open spec fn enc_entry(e: TreeEntryV) -> Seq<u8> {
    u64_le(e.mode) + seq![kind_byte(e.kind)] + enc_bytes(e.name) + e.digest
}

pub open spec fn enc_entries(es: Seq<TreeEntryV>) -> Seq<u8>
    decreases es.len(),
{
    if es.len() == 0 {
        Seq::empty()
    } else {
        enc_entry(es[0]) + enc_entries(es.skip(1))
    }
}

pub open spec fn enc_ident(i: IdentityV) -> Seq<u8> {
    enc_bytes(i.name) + enc_bytes(i.email) + u64_le(i.timestamp)
}

pub open spec fn enc_digests(ds: Seq<Seq<u8>>) -> Seq<u8>
    decreases ds.len(),
{
    if ds.len() == 0 {
        Seq::empty()
    } else {
        ds[0] + enc_digests(ds.skip(1))
    }
}

/// The payload of an object, in the order its fields are listed.
pub open spec fn obj_payload(o: ObjectV) -> Seq<u8> {
    match o {
        ObjectV::Blob { content } => content,
        ObjectV::Tree { entries } => u64_le(entries.len() as u64) + enc_entries(entries),
        ObjectV::Commit { tree, parents, author, committer, message } => tree + u64_le(
            parents.len() as u64,
        ) + enc_digests(parents) + enc_ident(author) + enc_ident(committer) + enc_bytes(message),
    }
}

pub open spec fn obj_tag(o: ObjectV) -> u8 {
    match o {
        ObjectV::Blob { .. } => TAG_BLOB,
        ObjectV::Tree { .. } => TAG_TREE,
        ObjectV::Commit { .. } => TAG_COMMIT,
    }
}

/// The canonical encoding of an object whose entries are already in order:
/// tag, payload length, payload.
pub open spec fn encode_obj(o: ObjectV) -> Seq<u8> {
    seq![obj_tag(o)] + u64_le(obj_payload(o).len() as u64) + obj_payload(o)
}

/// The digest that addresses an object: the hash of its canonical encoding.
pub open spec fn object_digest(o: ObjectV) -> Seq<u8> {
    sha1_of(encode_obj(canon(o)))
}

// ---------------------------------------------------------------------------
// Decoding
// ---------------------------------------------------------------------------

pub open spec fn dec_u64(s: Seq<u8>) -> Option<(u64, Seq<u8>)> {
    if s.len() >= 8 {
        Some((le_to_u64(s.take(8)), s.skip(8)))
    } else {
        None
    }
}

pub open spec fn dec_fixed(s: Seq<u8>, n: nat) -> Option<(Seq<u8>, Seq<u8>)> {
    if s.len() >= n {
        Some((s.take(n as int), s.skip(n as int)))
    } else {
        None
    }
}

pub open spec fn dec_bytes(s: Seq<u8>) -> Option<(Seq<u8>, Seq<u8>)> {
    match dec_u64(s) {
        Option::None => None,
        Option::Some((n, r)) => dec_fixed(r, n as nat),
    }
}

pub open spec fn dec_kind(b: u8) -> Option<ObjKind> {
    if b == KIND_BLOB {
        Some(ObjKind::Blob)
    } else if b == KIND_TREE {
        Some(ObjKind::Tree)
    } else {
        None
    }
}

pub open spec fn dec_entry(s: Seq<u8>) -> Option<(TreeEntryV, Seq<u8>)> {
    match dec_u64(s) {
        Option::None => None,
        Option::Some((mode, s1)) => {
            if s1.len() < 1 {
                None
            } else {
                match dec_kind(s1[0]) {
                    Option::None => None,
                    Option::Some(k) => match dec_bytes(s1.skip(1)) {
                        Option::None => None,
                        Option::Some((name, s2)) => match dec_fixed(s2, DIGEST_LEN as nat) {
                            Option::None => None,
                            Option::Some((d, s3)) => Some(
                                (TreeEntryV { mode, name, digest: d, kind: k }, s3),
                            ),
                        },
                    },
                }
            }
        },
    }
}

pub open spec fn dec_entries(s: Seq<u8>, n: nat) -> Option<(Seq<TreeEntryV>, Seq<u8>)>
    decreases n,
{
    if n == 0 {
        Some((Seq::empty(), s))
    } else {
        match dec_entry(s) {
            Option::None => None,
            Option::Some((e, r)) => match dec_entries(r, (n - 1) as nat) {
                Option::None => None,
                Option::Some((es, r2)) => Some((seq![e] + es, r2)),
            },
        }
    }
}

pub open spec fn dec_digests(s: Seq<u8>, n: nat) -> Option<(Seq<Seq<u8>>, Seq<u8>)>
    decreases n,
{
    if n == 0 {
        Some((Seq::empty(), s))
    } else {
        match dec_fixed(s, DIGEST_LEN as nat) {
            Option::None => None,
            Option::Some((d, r)) => match dec_digests(r, (n - 1) as nat) {
                Option::None => None,
                Option::Some((ds, r2)) => Some((seq![d] + ds, r2)),
            },
        }
    }
}

pub open spec fn dec_ident(s: Seq<u8>) -> Option<(IdentityV, Seq<u8>)> {
    match dec_bytes(s) {
        Option::None => None,
        Option::Some((name, s1)) => match dec_bytes(s1) {
            Option::None => None,
            Option::Some((email, s2)) => match dec_u64(s2) {
                Option::None => None,
                Option::Some((ts, s3)) => Some(
                    (IdentityV { name, email, timestamp: ts }, s3),
                ),
            },
        },
    }
}

/// Decodes a payload; the whole payload must be consumed.
pub open spec fn dec_payload(tag: u8, p: Seq<u8>) -> Option<ObjectV> {
    if tag == TAG_BLOB {
        Some(ObjectV::Blob { content: p })
    } else if tag == TAG_TREE {
        match dec_u64(p) {
            Option::None => None,
            Option::Some((n, r)) => match dec_entries(r, n as nat) {
                Option::None => None,
                Option::Some((es, r2)) => if r2.len() == 0 {
                    Some(ObjectV::Tree { entries: es })
                } else {
                    None
                },
            },
        }
    } else if tag == TAG_COMMIT {
        match dec_fixed(p, DIGEST_LEN as nat) {
            Option::None => None,
            Option::Some((tree, s1)) => match dec_u64(s1) {
                Option::None => None,
                Option::Some((n, s2)) => match dec_digests(s2, n as nat) {
                    Option::None => None,
                    Option::Some((parents, s3)) => match dec_ident(s3) {
                        Option::None => None,
                        Option::Some((author, s4)) => match dec_ident(s4) {
                            Option::None => None,
                            Option::Some((committer, s5)) => match dec_bytes(s5) {
                                Option::None => None,
                                Option::Some((message, s6)) => if s6.len() == 0 {
                                    Some(
                                        ObjectV::Commit {
                                            tree,
                                            parents,
                                            author,
                                            committer,
                                            message,
                                        },
                                    )
                                } else {
                                    None
                                },
                            },
                        },
                    },
                },
            },
        }
    } else {
        None
    }
}

/// Decodes a full object record: tag, payload length (which must match the
/// record length exactly), payload.
pub open spec fn decode_obj(b: Seq<u8>) -> Option<ObjectV> {
    if b.len() < 9 {
        None
    } else if le_to_u64(b.subrange(1, 9)) as int == b.len() - 9 {
        dec_payload(b[0], b.skip(9))
    } else {
        None
    }
}

// ---------------------------------------------------------------------------
// Round trip: decoding inverts encoding
// ---------------------------------------------------------------------------

pub(crate) proof fn lemma_dec_u64_enc(n: u64, rest: Seq<u8>)
    ensures
        dec_u64(u64_le(n) + rest) == Some((n, rest)),
{
    lemma_u64_le_roundtrip(n);
    assert((u64_le(n) + rest).take(8) =~= u64_le(n));
    assert((u64_le(n) + rest).skip(8) =~= rest);
}

pub(crate) proof fn lemma_dec_fixed_enc(b: Seq<u8>, rest: Seq<u8>)
    ensures
        dec_fixed(b + rest, b.len()) == Some((b, rest)),
{
    assert((b + rest).take(b.len() as int) =~= b);
    assert((b + rest).skip(b.len() as int) =~= rest);
}

pub(crate) proof fn lemma_dec_bytes_enc(b: Seq<u8>, rest: Seq<u8>)
    requires
        b.len() <= u64::MAX,
    ensures
        dec_bytes(enc_bytes(b) + rest) == Some((b, rest)),
{
    assert(enc_bytes(b) + rest =~= u64_le(b.len() as u64) + (b + rest));
    lemma_dec_u64_enc(b.len() as u64, b + rest);
    lemma_dec_fixed_enc(b, rest);
}

proof fn lemma_dec_entry_enc(e: TreeEntryV, rest: Seq<u8>)
    requires
        wf_entry(e),
    ensures
        dec_entry(enc_entry(e) + rest) == Some((e, rest)),
{
    let after_mode = seq![kind_byte(e.kind)] + enc_bytes(e.name) + e.digest + rest;
    assert(enc_entry(e) + rest =~= u64_le(e.mode) + after_mode);
    lemma_dec_u64_enc(e.mode, after_mode);
    assert(after_mode[0] == kind_byte(e.kind));
    assert(dec_kind(kind_byte(e.kind)) == Some(e.kind));
    assert(after_mode.skip(1) =~= enc_bytes(e.name) + (e.digest + rest));
    lemma_dec_bytes_enc(e.name, e.digest + rest);
    lemma_dec_fixed_enc(e.digest, rest);
    assert(TreeEntryV { mode: e.mode, name: e.name, digest: e.digest, kind: e.kind } == e);
}

/// The inductive step of `lemma_dec_entries_enc`, kept separate to keep each
/// solver query small.
proof fn lemma_dec_entries_enc_cons(e: TreeEntryV, tail: Seq<TreeEntryV>, rest: Seq<u8>)
    requires
        wf_entry(e),
        dec_entries(enc_entries(tail) + rest, tail.len()) == Some((tail, rest)),
    ensures
        dec_entries(enc_entries(seq![e] + tail) + rest, (seq![e] + tail).len()) == Some(
            (seq![e] + tail, rest),
        ),
{
    let es = seq![e] + tail;
    let tail_enc = enc_entries(tail) + rest;
    assert(es[0] == e);
    assert(es.skip(1) =~= tail);
    assert(enc_entries(es) == enc_entry(e) + enc_entries(tail));
    vstd::seq_lib::lemma_concat_associative(enc_entry(e), enc_entries(tail), rest);
    assert(enc_entries(es) + rest == enc_entry(e) + tail_enc);
    lemma_dec_entry_enc(e, tail_enc);
    lemma_dec_entries_step(enc_entries(es) + rest, es.len(), e, tail_enc);
    assert(add_prefix(seq![e], Some((tail, rest))) == Some((seq![e] + tail, rest)));
}

proof fn lemma_dec_entries_enc(es: Seq<TreeEntryV>, rest: Seq<u8>)
    requires
        forall|i: int| 0 <= i < es.len() ==> wf_entry(#[trigger] es[i]),
    ensures
        dec_entries(enc_entries(es) + rest, es.len()) == Some((es, rest)),
    decreases es.len(),
{
    if es.len() == 0 {
        assert(enc_entries(es) + rest =~= rest);
        assert(es =~= Seq::<TreeEntryV>::empty());
    } else {
        assert forall|i: int| 0 <= i < es.skip(1).len() implies wf_entry(
            #[trigger] es.skip(1)[i],
        ) by {
            assert(es.skip(1)[i] == es[i + 1]);
        }
        lemma_dec_entries_enc(es.skip(1), rest);
        lemma_dec_entries_enc_cons(es[0], es.skip(1), rest);
        assert(seq![es[0]] + es.skip(1) =~= es);
    }
}

proof fn lemma_dec_digests_enc(ds: Seq<Seq<u8>>, rest: Seq<u8>)
    requires
        forall|i: int| 0 <= i < ds.len() ==> (#[trigger] ds[i]).len() == DIGEST_LEN,
    ensures
        dec_digests(enc_digests(ds) + rest, ds.len()) == Some((ds, rest)),
    decreases ds.len(),
{
    if ds.len() == 0 {
        assert(enc_digests(ds) + rest =~= rest);
        assert(ds =~= Seq::<Seq<u8>>::empty());
    } else {
        assert(enc_digests(ds) + rest =~= ds[0] + (enc_digests(ds.skip(1)) + rest));
        lemma_dec_fixed_enc(ds[0], enc_digests(ds.skip(1)) + rest);
        assert forall|i: int| 0 <= i < ds.skip(1).len() implies (#[trigger] ds.skip(1)[i]).len()
            == DIGEST_LEN by {
            assert(ds.skip(1)[i] == ds[i + 1]);
        }
        lemma_dec_digests_enc(ds.skip(1), rest);
        assert(seq![ds[0]] + ds.skip(1) =~= ds);
    }
}

proof fn lemma_dec_ident_enc(i: IdentityV, rest: Seq<u8>)
    requires
        wf_ident(i),
    ensures
        dec_ident(enc_ident(i) + rest) == Some((i, rest)),
{
    assert(enc_ident(i) + rest =~= enc_bytes(i.name) + (enc_bytes(i.email) + (u64_le(i.timestamp)
        + rest)));
    lemma_dec_bytes_enc(i.name, enc_bytes(i.email) + (u64_le(i.timestamp) + rest));
    lemma_dec_bytes_enc(i.email, u64_le(i.timestamp) + rest);
    lemma_dec_u64_enc(i.timestamp, rest);
    assert(IdentityV { name: i.name, email: i.email, timestamp: i.timestamp } == i);
}

/// Round trip on objects whose entries are in canonical order: decoding the
/// encoding gives the object back.
#[verifier::rlimit(60)]
pub proof fn lemma_round_trip(o: ObjectV)
    requires
        wf_object(o),
        obj_sorted(o),
        obj_payload(o).len() <= u64::MAX,
    ensures
        decode_obj(encode_obj(o)) == Some(o),
{
    let p = obj_payload(o);
    let b = encode_obj(o);
    assert(b.len() == 9 + p.len());
    assert(b.subrange(1, 9) =~= u64_le(p.len() as u64));
    lemma_u64_le_roundtrip(p.len() as u64);
    assert(b[0] == obj_tag(o));
    assert(b.skip(9) =~= p);
    match o {
        ObjectV::Blob { content } => {},
        ObjectV::Tree { entries } => {
            assert(p =~= u64_le(entries.len() as u64) + (enc_entries(entries) + Seq::empty()));
            lemma_dec_u64_enc(entries.len() as u64, enc_entries(entries) + Seq::empty());
            lemma_dec_entries_enc(entries, Seq::empty());
        },
        ObjectV::Commit { tree, parents, author, committer, message } => {
            let after_tree = u64_le(parents.len() as u64) + (enc_digests(parents) + (enc_ident(
                author,
            ) + (enc_ident(committer) + (enc_bytes(message) + Seq::empty()))));
            assert(p =~= tree + after_tree);
            lemma_dec_fixed_enc(tree, after_tree);
            lemma_dec_u64_enc(
                parents.len() as u64,
                enc_digests(parents) + (enc_ident(author) + (enc_ident(committer) + (enc_bytes(
                    message,
                ) + Seq::empty()))),
            );
            lemma_dec_digests_enc(
                parents,
                enc_ident(author) + (enc_ident(committer) + (enc_bytes(message) + Seq::empty())),
            );
            lemma_dec_ident_enc(
                author,
                enc_ident(committer) + (enc_bytes(message) + Seq::empty()),
            );
            lemma_dec_ident_enc(committer, enc_bytes(message) + Seq::empty());
            lemma_dec_bytes_enc(message, Seq::empty());
        },
    }
}

/// Round trip through canonicalization, for any well-formed object: encoding
/// sorts the entries, and decoding returns the sorted object.  The payload
/// bound is a machine limit: the 64-bit length field must hold the payload
/// length, which every payload built in executable code satisfies.
pub proof fn lemma_round_trip_canon(o: ObjectV)
    requires
        wf_object(o),
        obj_payload(canon(o)).len() <= u64::MAX,
    ensures
        decode_obj(encode_obj(canon(o))) == Some(canon(o)),
{
    lemma_canon_wf(o);
    lemma_round_trip(canon(o));
}

// ---------------------------------------------------------------------------
// Executable encoder
// ---------------------------------------------------------------------------

/// A fresh copy of a tree entry.
pub fn copy_entry(e: &TreeEntry) -> (r: TreeEntry)
    ensures
        r@ == e@,
{
    TreeEntry {
        mode: e.mode,
        name: copy_bytes(&e.name),
        digest: copy_bytes(&e.digest),
        kind: e.kind,
    }
}

fn copy_entries(es: &Vec<TreeEntry>) -> (r: Vec<TreeEntry>)
    ensures
        r.deep_view() == es.deep_view(),
{
    let mut r: Vec<TreeEntry> = Vec::new();
    let mut i: usize = 0;
    while i < es.len()
        invariant
            0 <= i <= es@.len(),
            r@.len() == i,
            forall|j: int| 0 <= j < i ==> (#[trigger] r@[j])@ == es@[j]@,
        decreases es@.len() - i,
    {
        r.push(copy_entry(&es[i]));
        i += 1;
    }
    proof {
        assert forall|j: int| 0 <= j < r@.len() implies r.deep_view()[j] == es.deep_view()[j] by {
            lemma_deep_view_index(r, j);
            lemma_deep_view_index(*es, j);
        }
        assert(r.deep_view() =~= es.deep_view());
    }
    r
}

fn sorted_insert_exec(e: TreeEntry, s: Vec<TreeEntry>) -> (r: Vec<TreeEntry>)
    ensures
        r.deep_view() == insert_entry(e@, s.deep_view()),
    decreases s@.len(),
{
    let ghost sdv = s.deep_view();
    if s.len() == 0 {
        let mut r = s;
        r.push(e);
        proof {
            assert(r.deep_view() =~= seq![e@]);
        }
        r
    } else if bytes_le_exec(&e.name, &s[0].name) {
        proof {
            assert(s.deep_view()[0] == s@[0]@);
        }
        let mut r = s;
        r.insert(0, e);
        proof {
            assert(r.deep_view() =~= seq![e@] + sdv);
        }
        r
    } else {
        proof {
            assert(s.deep_view()[0] == s@[0]@);
        }
        let mut s = s;
        let head = s.remove(0);
        proof {
            assert(s.deep_view() =~= sdv.skip(1));
        }
        let r0 = sorted_insert_exec(e, s);
        let mut r = r0;
        r.insert(0, head);
        proof {
            assert(r.deep_view() =~= seq![head@] + insert_entry(e@, sdv.skip(1)));
            assert(head@ == sdv[0]);
        }
        r
    }
}

fn sort_entries_exec(es: Vec<TreeEntry>) -> (r: Vec<TreeEntry>)
    ensures
        r.deep_view() == sort_entries(es.deep_view()),
    decreases es@.len(),
{
    let ghost dv = es.deep_view();
    if es.len() == 0 {
        proof {
            assert(es.deep_view() =~= Seq::<TreeEntryV>::empty());
        }
        es
    } else {
        let mut es = es;
        let head = es.remove(0);
        proof {
            assert(es.deep_view() =~= dv.skip(1));
            assert(head@ == dv[0]);
        }
        let tail_sorted = sort_entries_exec(es);
        sorted_insert_exec(head, tail_sorted)
    }
}

fn push_bytes_field(out: &mut Vec<u8>, b: &Vec<u8>)
    ensures
        final(out)@ == old(out)@ + enc_bytes(b@),
{
    push_u64_le(out, b.len() as u64);
    push_all(out, b);
    proof {
        assert(out@ =~= old(out)@ + enc_bytes(b@));
    }
}

fn push_entry(out: &mut Vec<u8>, e: &TreeEntry)
    ensures
        final(out)@ == old(out)@ + enc_entry(e@),
{
    push_u64_le(out, e.mode);
    let kb: u8 = match e.kind {
        ObjKind::Blob => KIND_BLOB,
        ObjKind::Tree => KIND_TREE,
    };
    out.push(kb);
    push_bytes_field(out, &e.name);
    push_all(out, &e.digest);
    proof {
        assert(out@ =~= old(out)@ + enc_entry(e@));
    }
}

fn push_ident(out: &mut Vec<u8>, i: &Identity)
    ensures
        final(out)@ == old(out)@ + enc_ident(i@),
{
    push_bytes_field(out, &i.name);
    push_bytes_field(out, &i.email);
    push_u64_le(out, i.timestamp);
    proof {
        assert(out@ =~= old(out)@ + enc_ident(i@));
    }
}

proof fn lemma_enc_entries_snoc(es: Seq<TreeEntryV>, i: int)
    requires
        0 <= i < es.len(),
    ensures
        enc_entries(es.take(i + 1)) == enc_entries(es.take(i)) + enc_entry(es[i]),
    decreases i,
{
    if i == 0 {
        assert(es.take(1).len() == 1);
        assert(es.take(1)[0] == es[0]);
        assert(es.take(1).skip(1) =~= Seq::<TreeEntryV>::empty());
        assert(enc_entries(es.take(1)) == enc_entry(es.take(1)[0]) + enc_entries(
            es.take(1).skip(1),
        ));
        assert(enc_entries(Seq::<TreeEntryV>::empty()) == Seq::<u8>::empty());
        assert(enc_entry(es[0]) + Seq::<u8>::empty() =~= enc_entry(es[0]));
        assert(es.take(0) =~= Seq::<TreeEntryV>::empty());
        assert(enc_entries(es.take(0)) + enc_entry(es[0]) =~= enc_entry(es[0]));
    } else {
        lemma_enc_entries_snoc(es.skip(1), i - 1);
        assert(es.take(i + 1)[0] == es[0]);
        assert(es.take(i + 1).skip(1) =~= es.skip(1).take(i));
        assert(es.take(i)[0] == es[0]);
        assert(es.take(i).skip(1) =~= es.skip(1).take(i - 1));
        assert(es.skip(1)[i - 1] == es[i]);
        assert(enc_entry(es[0]) + (enc_entries(es.skip(1).take(i - 1)) + enc_entry(es[i])) =~= (
        enc_entry(es[0]) + enc_entries(es.skip(1).take(i - 1))) + enc_entry(es[i]));
    }
}

proof fn lemma_enc_digests_snoc(ds: Seq<Seq<u8>>, i: int)
    requires
        0 <= i < ds.len(),
    ensures
        enc_digests(ds.take(i + 1)) == enc_digests(ds.take(i)) + ds[i],
    decreases i,
{
    if i == 0 {
        assert(ds.take(1).len() == 1);
        assert(ds.take(1)[0] == ds[0]);
        assert(ds.take(1).skip(1) =~= Seq::<Seq<u8>>::empty());
        assert(enc_digests(ds.take(1)) == ds.take(1)[0] + enc_digests(ds.take(1).skip(1)));
        assert(enc_digests(Seq::<Seq<u8>>::empty()) == Seq::<u8>::empty());
        assert(ds[0] + Seq::<u8>::empty() =~= ds[0]);
        assert(ds.take(0) =~= Seq::<Seq<u8>>::empty());
        assert(enc_digests(ds.take(0)) + ds[0] =~= ds[0]);
    } else {
        lemma_enc_digests_snoc(ds.skip(1), i - 1);
        assert(ds.take(i + 1)[0] == ds[0]);
        assert(ds.take(i + 1).skip(1) =~= ds.skip(1).take(i));
        assert(ds.take(i)[0] == ds[0]);
        assert(ds.take(i).skip(1) =~= ds.skip(1).take(i - 1));
        assert(ds.skip(1)[i - 1] == ds[i]);
        assert(ds[0] + (enc_digests(ds.skip(1).take(i - 1)) + ds[i]) =~= (ds[0] + enc_digests(
            ds.skip(1).take(i - 1),
        )) + ds[i]);
    }
}

fn encode_payload(o: &GitObject) -> (p: Vec<u8>)
    ensures
        p@ == obj_payload(canon(o@)),
{
    match o {
        GitObject::Blob { content } => copy_bytes(content),
        GitObject::Tree { entries } => {
            let sorted = sort_entries_exec(copy_entries(entries));
            proof {
                lemma_sort_entries_len(entries.deep_view());
            }
            let ghost es = sorted.deep_view();
            let mut p: Vec<u8> = Vec::new();
            push_u64_le(&mut p, sorted.len() as u64);
            let mut i: usize = 0;
            while i < sorted.len()
                invariant
                    es == sorted.deep_view(),
                    es.len() == sorted@.len(),
                    0 <= i <= sorted@.len(),
                    p@ == u64_le(es.len() as u64) + enc_entries(es.take(i as int)),
                decreases sorted@.len() - i,
            {
                push_entry(&mut p, &sorted[i]);
                proof {
                    lemma_enc_entries_snoc(es, i as int);
                    assert(sorted@[i as int]@ == es[i as int]);
                    assert(p@ =~= u64_le(es.len() as u64) + enc_entries(es.take(i as int + 1)));
                }
                i += 1;
            }
            proof {
                assert(es.take(es.len() as int) =~= es);
            }
            p
        },
        GitObject::Commit { tree, parents, author, committer, message } => {
            let mut p = copy_bytes(tree);
            push_u64_le(&mut p, parents.len() as u64);
            let ghost ds = parents.deep_view();
            let mut i: usize = 0;
            while i < parents.len()
                invariant
                    ds == parents.deep_view(),
                    ds.len() == parents@.len(),
                    0 <= i <= parents@.len(),
                    p@ == tree@ + u64_le(ds.len() as u64) + enc_digests(ds.take(i as int)),
                decreases parents@.len() - i,
            {
                push_all(&mut p, &parents[i]);
                proof {
                    lemma_enc_digests_snoc(ds, i as int);
                    assert(parents@[i as int]@ == ds[i as int]);
                    assert(p@ =~= tree@ + u64_le(ds.len() as u64) + enc_digests(
                        ds.take(i as int + 1),
                    ));
                }
                i += 1;
            }
            proof {
                assert(ds.take(ds.len() as int) =~= ds);
            }
            push_ident(&mut p, author);
            push_ident(&mut p, committer);
            push_bytes_field(&mut p, message);
            proof {
                assert(p@ =~= obj_payload(canon(o@)));
            }
            p
        },
    }
}

/// Encodes an object canonically: tag, payload length, payload, with tree
/// entries sorted by name as part of encoding.
pub fn encode_object(o: &GitObject) -> (r: Vec<u8>)
    ensures
        r@ == encode_obj(canon(o@)),
{
    let tag: u8 = match o {
        GitObject::Blob { .. } => TAG_BLOB,
        GitObject::Tree { .. } => TAG_TREE,
        GitObject::Commit { .. } => TAG_COMMIT,
    };
    let payload = encode_payload(o);
    let mut out: Vec<u8> = Vec::new();
    out.push(tag);
    push_u64_le(&mut out, payload.len() as u64);
    push_all(&mut out, &payload);
    proof {
        assert(out@ =~= encode_obj(canon(o@)));
    }
    out
}

// ---------------------------------------------------------------------------
// Executable decoder
// ---------------------------------------------------------------------------

/// An accumulator result: `r` with `acc` prepended to its items.
pub open spec fn add_prefix<T>(acc: Seq<T>, r: Option<(Seq<T>, Seq<u8>)>) -> Option<
    (Seq<T>, Seq<u8>),
> {
    match r {
        Option::Some(p) => Some((acc + p.0, p.1)),
        Option::None => None,
    }
}

pub(crate) proof fn lemma_add_prefix_empty<T>(r: Option<(Seq<T>, Seq<u8>)>)
    ensures
        add_prefix(Seq::<T>::empty(), r) == r,
{
    match r {
        Option::Some(p) => {
            assert(Seq::<T>::empty() + p.0 =~= p.0);
        },
        Option::None => {},
    }
}

pub(crate) proof fn lemma_add_prefix_assoc<T>(acc: Seq<T>, e: T, r: Option<(Seq<T>, Seq<u8>)>)
    ensures
        add_prefix(acc, add_prefix(seq![e], r)) == add_prefix(acc.push(e), r),
{
    match r {
        Option::Some(p) => {
            assert(acc + (seq![e] + p.0) =~= acc.push(e) + p.0);
        },
        Option::None => {},
    }
}

proof fn lemma_dec_entries_step(s: Seq<u8>, n: nat, e: TreeEntryV, r: Seq<u8>)
    requires
        n > 0,
        dec_entry(s) == Some((e, r)),
    ensures
        dec_entries(s, n) == add_prefix(seq![e], dec_entries(r, (n - 1) as nat)),
{
    match dec_entries(r, (n - 1) as nat) {
        Option::Some(p) => {},
        Option::None => {},
    }
}

proof fn lemma_dec_digests_step(s: Seq<u8>, n: nat, d: Seq<u8>, r: Seq<u8>)
    requires
        n > 0,
        dec_fixed(s, DIGEST_LEN as nat) == Some((d, r)),
    ensures
        dec_digests(s, n) == add_prefix(seq![d], dec_digests(r, (n - 1) as nat)),
{
    match dec_digests(r, (n - 1) as nat) {
        Option::Some(p) => {},
        Option::None => {},
    }
}

pub(crate) fn take_u64(b: &Vec<u8>, pos: usize) -> (r: Option<(u64, usize)>)
    requires
        pos <= b@.len(),
    ensures
        match r {
            Option::Some(p) => pos <= p.1 <= b@.len() && p.1 == pos + 8 && dec_u64(
                b@.skip(pos as int),
            ) == Some((p.0, b@.skip(p.1 as int))),
            Option::None => dec_u64(b@.skip(pos as int)) == None::<(u64, Seq<u8>)>,
        },
{
    if b.len() - pos >= 8 {
        let v = read_u64_le(b, pos);
        proof {
            assert(b@.skip(pos as int).take(8) =~= b@.subrange(pos as int, pos as int + 8));
            assert(b@.skip(pos as int).skip(8) =~= b@.skip(pos as int + 8));
        }
        Some((v, pos + 8))
    } else {
        None
    }
}

pub(crate) fn take_fixed(b: &Vec<u8>, pos: usize, n: usize) -> (r: Option<(Vec<u8>, usize)>)
    requires
        pos <= b@.len(),
    ensures
        match r {
            Option::Some(p) => pos <= p.1 <= b@.len() && p.1 == pos + n && dec_fixed(
                b@.skip(pos as int),
                n as nat,
            ) == Some((p.0@, b@.skip(p.1 as int))),
            Option::None => dec_fixed(b@.skip(pos as int), n as nat) == None::<(Seq<u8>, Seq<u8>)>,
        },
{
    if b.len() - pos >= n {
        let v = copy_range(b, pos, pos + n);
        proof {
            assert(b@.skip(pos as int).take(n as int) =~= b@.subrange(
                pos as int,
                pos as int + n,
            ));
            assert(b@.skip(pos as int).skip(n as int) =~= b@.skip(pos as int + n));
        }
        Some((v, pos + n))
    } else {
        None
    }
}

pub(crate) fn take_bytes_field(b: &Vec<u8>, pos: usize) -> (r: Option<(Vec<u8>, usize)>)
    requires
        pos <= b@.len(),
    ensures
        match r {
            Option::Some(p) => pos <= p.1 <= b@.len() && dec_bytes(b@.skip(pos as int)) == Some(
                (p.0@, b@.skip(p.1 as int)),
            ),
            Option::None => dec_bytes(b@.skip(pos as int)) == None::<(Seq<u8>, Seq<u8>)>,
        },
{
    let (n, p1) = match take_u64(b, pos) {
        Option::Some(x) => x,
        Option::None => {
            return None;
        },
    };
    let rem = b.len() - p1;
    if n > rem as u64 {
        proof {
            assert(b@.skip(p1 as int).len() < n);
        }
        return None;
    }
    proof {
        assert(n <= usize::MAX as u64);
    }
    let n_us = n as usize;
    match take_fixed(b, p1, n_us) {
        Option::Some(x) => Some(x),
        Option::None => None,
    }
}

fn take_entry(b: &Vec<u8>, pos: usize) -> (r: Option<(TreeEntry, usize)>)
    requires
        pos <= b@.len(),
    ensures
        match r {
            Option::Some(p) => pos <= p.1 <= b@.len() && dec_entry(b@.skip(pos as int)) == Some(
                (p.0@, b@.skip(p.1 as int)),
            ),
            Option::None => dec_entry(b@.skip(pos as int)) == None::<(TreeEntryV, Seq<u8>)>,
        },
{
    let (mode, p1) = match take_u64(b, pos) {
        Option::Some(x) => x,
        Option::None => {
            return None;
        },
    };
    if b.len() - p1 < 1 {
        proof {
            assert(b@.skip(p1 as int).len() < 1);
        }
        return None;
    }
    let kb = b[p1];
    proof {
        assert(b@.skip(p1 as int)[0] == b@[p1 as int]);
    }
    let kind = if kb == KIND_BLOB {
        ObjKind::Blob
    } else if kb == KIND_TREE {
        ObjKind::Tree
    } else {
        return None;
    };
    proof {
        assert(b@.skip(p1 as int).skip(1) =~= b@.skip(p1 as int + 1));
    }
    let (name, p2) = match take_bytes_field(b, p1 + 1) {
        Option::Some(x) => x,
        Option::None => {
            return None;
        },
    };
    let (dg, p3) = match take_fixed(b, p2, DIGEST_LEN) {
        Option::Some(x) => x,
        Option::None => {
            return None;
        },
    };
    let e = TreeEntry { mode, name, digest: dg, kind };
    Some((e, p3))
}

fn take_ident(b: &Vec<u8>, pos: usize) -> (r: Option<(Identity, usize)>)
    requires
        pos <= b@.len(),
    ensures
        match r {
            Option::Some(p) => pos <= p.1 <= b@.len() && dec_ident(b@.skip(pos as int)) == Some(
                (p.0@, b@.skip(p.1 as int)),
            ),
            Option::None => dec_ident(b@.skip(pos as int)) == None::<(IdentityV, Seq<u8>)>,
        },
{
    let (name, p1) = match take_bytes_field(b, pos) {
        Option::Some(x) => x,
        Option::None => {
            return None;
        },
    };
    let (email, p2) = match take_bytes_field(b, p1) {
        Option::Some(x) => x,
        Option::None => {
            return None;
        },
    };
    let (ts, p3) = match take_u64(b, p2) {
        Option::Some(x) => x,
        Option::None => {
            return None;
        },
    };
    Some((Identity { name, email, timestamp: ts }, p3))
}

/// Decodes an object record; `None` when the bytes are not the canonical
/// encoding of any object.
pub fn decode_object(b: &Vec<u8>) -> (r: Option<GitObject>)
    ensures
        match r {
            Option::Some(o) => decode_obj(b@) == Some(o@),
            Option::None => decode_obj(b@) == None::<ObjectV>,
        },
{
    let n = b.len();
    if n < 9 {
        return None;
    }
    let tag = b[0];
    let plen = read_u64_le(b, 1);
    if plen != (n - 9) as u64 {
        return None;
    }
    if tag == TAG_BLOB {
        let content = copy_range(b, 9, n);
        proof {
            assert(b@.skip(9) =~= b@.subrange(9, n as int));
        }
        Some(GitObject::Blob { content })
    } else if tag == TAG_TREE {
        decode_tree_record(b)
    } else if tag == TAG_COMMIT {
        decode_commit_record(b)
    } else {
        None
    }
}

#[verifier::loop_isolation(false)]
#[verifier::rlimit(100)]
fn decode_tree_record(b: &Vec<u8>) -> (r: Option<GitObject>)
    requires
        b@.len() >= 9,
    ensures
        match r {
            Option::Some(o) => dec_payload(TAG_TREE, b@.skip(9)) == Some(o@),
            Option::None => dec_payload(TAG_TREE, b@.skip(9)) == None::<ObjectV>,
        },
{
    let n = b.len();
    {
        let (count, start) = match take_u64(b, 9) {
            Option::Some(x) => x,
            Option::None => {
                return None;
            },
        };
        let ghost s0 = b@.skip(start as int);
        let mut entries: Vec<TreeEntry> = Vec::new();
        let mut pos = start;
        let mut i: u64 = 0;
        proof {
            assert(entries.deep_view() =~= Seq::<TreeEntryV>::empty());
            lemma_add_prefix_empty(dec_entries(s0, count as nat));
        }
        while i < count
            invariant
                i <= count,
                pos <= b@.len(),
                entries.deep_view().len() == i,
                dec_entries(s0, count as nat) == add_prefix(
                    entries.deep_view(),
                    dec_entries(b@.skip(pos as int), (count - i) as nat),
                ),
            decreases count - i,
        {
            let ghost acc = entries.deep_view();
            let ghost prevseq = entries@;
            proof {
                assert forall|j: int| 0 <= j < prevseq.len() implies acc[j] == prevseq[
                    j
                ].deep_view() by {
                    lemma_deep_view_index(entries, j);
                }
            }
            let (e, p2) = match take_entry(b, pos) {
                Option::Some(x) => x,
                Option::None => {
                    proof {
                        assert(dec_entries(b@.skip(pos as int), (count - i) as nat)
                            == None::<(Seq<TreeEntryV>, Seq<u8>)>);
                        assert(dec_entries(s0, count as nat) == None::<(Seq<TreeEntryV>, Seq<u8>)>);
                        assert(dec_payload(TAG_TREE, b@.skip(9)) == None::<ObjectV>);
                    }
                    return None;
                },
            };
            proof {
                lemma_dec_entries_step(
                    b@.skip(pos as int),
                    (count - i) as nat,
                    e@,
                    b@.skip(p2 as int),
                );
                lemma_add_prefix_assoc(
                    acc,
                    e@,
                    dec_entries(b@.skip(p2 as int), (count - i - 1) as nat),
                );
            }
            entries.push(e);
            proof {
                assert forall|j: int| 0 <= j < entries@.len() implies entries.deep_view()[j]
                    == acc.push(e@)[j] by {
                    lemma_deep_view_index(entries, j);
                    if j < prevseq.len() {
                        assert(entries@[j] == prevseq[j]);
                    }
                }
                assert(entries.deep_view() =~= acc.push(e@));
            }
            pos = p2;
            i += 1;
        }
        proof {
            assert(dec_entries(b@.skip(pos as int), 0) == Some(
                (Seq::<TreeEntryV>::empty(), b@.skip(pos as int)),
            ));
            assert(entries.deep_view() + Seq::<TreeEntryV>::empty() =~= entries.deep_view());
            assert(dec_entries(s0, count as nat) == Some(
                (entries.deep_view(), b@.skip(pos as int)),
            ));
        }
        if pos != n {
            proof {
                assert(b@.skip(pos as int).len() > 0);
            }
            return None;
        }
        proof {
            assert(b@.skip(pos as int).len() == 0);
        }
        Some(GitObject::Tree { entries })
    }
}

#[verifier::loop_isolation(false)]
#[verifier::rlimit(100)]
fn decode_commit_record(b: &Vec<u8>) -> (r: Option<GitObject>)
    requires
        b@.len() >= 9,
    ensures
        match r {
            Option::Some(o) => dec_payload(TAG_COMMIT, b@.skip(9)) == Some(o@),
            Option::None => dec_payload(TAG_COMMIT, b@.skip(9)) == None::<ObjectV>,
        },
{
    let n = b.len();
    {
        let (tree, p1) = match take_fixed(b, 9, DIGEST_LEN) {
            Option::Some(x) => x,
            Option::None => {
                return None;
            },
        };
        let (count, start) = match take_u64(b, p1) {
            Option::Some(x) => x,
            Option::None => {
                return None;
            },
        };
        let ghost s0 = b@.skip(start as int);
        let mut parents: Vec<Vec<u8>> = Vec::new();
        let mut pos = start;
        let mut i: u64 = 0;
        proof {
            assert(parents.deep_view() =~= Seq::<Seq<u8>>::empty());
            lemma_add_prefix_empty(dec_digests(s0, count as nat));
        }
        while i < count
            invariant
                i <= count,
                pos <= b@.len(),
                parents.deep_view().len() == i,
                dec_digests(s0, count as nat) == add_prefix(
                    parents.deep_view(),
                    dec_digests(b@.skip(pos as int), (count - i) as nat),
                ),
            decreases count - i,
        {
            let ghost acc = parents.deep_view();
            let ghost prevseq = parents@;
            proof {
                assert forall|j: int| 0 <= j < prevseq.len() implies acc[j] == prevseq[
                    j
                ].deep_view() by {
                    lemma_deep_view_index(parents, j);
                }
            }
            let (d, p2) = match take_fixed(b, pos, DIGEST_LEN) {
                Option::Some(x) => x,
                Option::None => {
                    proof {
                        assert(dec_digests(b@.skip(pos as int), (count - i) as nat)
                            == None::<(Seq<Seq<u8>>, Seq<u8>)>);
                        assert(dec_digests(s0, count as nat) == None::<(Seq<Seq<u8>>, Seq<u8>)>);
                        assert(dec_payload(TAG_COMMIT, b@.skip(9)) == None::<ObjectV>);
                    }
                    return None;
                },
            };
            proof {
                lemma_dec_digests_step(
                    b@.skip(pos as int),
                    (count - i) as nat,
                    d@,
                    b@.skip(p2 as int),
                );
                lemma_add_prefix_assoc(
                    acc,
                    d@,
                    dec_digests(b@.skip(p2 as int), (count - i - 1) as nat),
                );
            }
            parents.push(d);
            proof {
                assert forall|j: int| 0 <= j < parents@.len() implies parents.deep_view()[j]
                    == acc.push(d@)[j] by {
                    lemma_deep_view_index(parents, j);
                    if j < prevseq.len() {
                        assert(parents@[j] == prevseq[j]);
                    }
                }
                assert(parents.deep_view() =~= acc.push(d@));
            }
            pos = p2;
            i += 1;
        }
        proof {
            assert(dec_digests(b@.skip(pos as int), 0) == Some(
                (Seq::<Seq<u8>>::empty(), b@.skip(pos as int)),
            ));
            assert(parents.deep_view() + Seq::<Seq<u8>>::empty() =~= parents.deep_view());
            assert(dec_digests(s0, count as nat) == Some(
                (parents.deep_view(), b@.skip(pos as int)),
            ));
        }
        let (author, p3) = match take_ident(b, pos) {
            Option::Some(x) => x,
            Option::None => {
                return None;
            },
        };
        let (committer, p4) = match take_ident(b, p3) {
            Option::Some(x) => x,
            Option::None => {
                return None;
            },
        };
        let (message, p5) = match take_bytes_field(b, p4) {
            Option::Some(x) => x,
            Option::None => {
                return None;
            },
        };
        if p5 != n {
            proof {
                assert(b@.skip(p5 as int).len() > 0);
            }
            return None;
        }
        proof {
            assert(b@.skip(p5 as int).len() == 0);
        }
        Some(GitObject::Commit { tree, parents, author, committer, message })
    }
}

} // verus!
