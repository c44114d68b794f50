//! The staging index: a path-keyed table of staged files, held in strictly
//! sorted path order so that one set of staged files has exactly one
//! representation, plus the codec for the persisted index record.

use vstd::prelude::*;
use crate::bytes::{u64_le, bytes_le, bytes_lt, bytes_eq, bytes_lt_exec, push_u64_le, push_all,
    lemma_bytes_le_total, lemma_bytes_lt_trans};
use crate::object::{DIGEST_LEN, lemma_deep_view_index};
use crate::codec::{enc_bytes, dec_u64, dec_fixed, dec_bytes, add_prefix, take_u64, take_fixed,
    take_bytes_field, lemma_dec_u64_enc, lemma_dec_fixed_enc, lemma_dec_bytes_enc,
    lemma_add_prefix_empty, lemma_add_prefix_assoc};

verus! {

/// One staged file: its path, the digest of its blob, and advisory metadata
/// (mode, size, modification time) that is not part of any object digest.
#[derive(Clone, PartialEq, Eq, Debug)]
pub struct IndexEntry {
    pub path: Vec<u8>,
    pub digest: Vec<u8>,
    pub mode: u64,
    pub size: u64,
    pub mtime: u64,
}

pub ghost struct IndexEntryV {
    pub path: Seq<u8>,
    pub digest: Seq<u8>,
    pub mode: u64,
    pub size: u64,
    pub mtime: u64,
}

impl View for IndexEntry {
    type V = IndexEntryV;

    open spec fn view(&self) -> IndexEntryV {
        IndexEntryV {
            path: self.path@,
            digest: self.digest@,
            mode: self.mode,
            size: self.size,
            mtime: self.mtime,
        }
    }
}

impl DeepView for IndexEntry {
    type V = IndexEntryV;

    open spec fn deep_view(&self) -> IndexEntryV {
        self.view()
    }
}

/// An entry the record codec can reproduce.
pub open spec fn wf_index_entry(e: IndexEntryV) -> bool {
    &&& e.digest.len() == DIGEST_LEN
    &&& e.path.len() <= u64::MAX
}

/// Entries strictly sorted by path: canonical order and unique paths in one.
pub open spec fn index_entries_wf(s: Seq<IndexEntryV>) -> bool {
    &&& forall|i: int, j: int| 0 <= i < j < s.len() ==> bytes_lt(s[i].path, s[j].path)
    &&& forall|i: int| 0 <= i < s.len() ==> wf_index_entry(#[trigger] s[i])
}

/// The table the entries stand for: path to entry.
pub open spec fn entry_map(s: Seq<IndexEntryV>) -> Map<Seq<u8>, IndexEntryV>
    decreases s.len(),
{
    if s.len() == 0 {
        Map::empty()
    } else {
        entry_map(s.skip(1)).insert(s[0].path, s[0])
    }
}

/// `e` staged into `s`: inserted at its sorted position, replacing an entry
/// with the same path (last write wins).
pub open spec fn stage_spec(s: Seq<IndexEntryV>, e: IndexEntryV) -> Seq<IndexEntryV>
    decreases s.len(),
{
    if s.len() == 0 {
        seq![e]
    } else if bytes_lt(e.path, s[0].path) {
        seq![e] + s
    } else if e.path == s[0].path {
        seq![e] + s.skip(1)
    } else {
        seq![s[0]] + stage_spec(s.skip(1), e)
    }
}

proof fn lemma_index_wf_skip(s: Seq<IndexEntryV>)
    requires
        index_entries_wf(s),
        s.len() > 0,
    ensures
        index_entries_wf(s.skip(1)),
{
    assert forall|i: int, j: int| 0 <= i < j < s.skip(1).len() implies bytes_lt(
        s.skip(1)[i].path,
        s.skip(1)[j].path,
    ) by {
        assert(s.skip(1)[i] == s[i + 1] && s.skip(1)[j] == s[j + 1]);
    }
    assert forall|i: int| 0 <= i < s.skip(1).len() implies wf_index_entry(
        #[trigger] s.skip(1)[i],
    ) by {
        assert(s.skip(1)[i] == s[i + 1]);
    }
}

/// A strict lower bound on every path survives staging an entry above it.
proof fn lemma_stage_lt_all(s: Seq<IndexEntryV>, e: IndexEntryV, x: Seq<u8>)
    requires
        bytes_lt(x, e.path),
        forall|i: int| 0 <= i < s.len() ==> bytes_lt(x, s[i].path),
    ensures
        forall|i: int|
            0 <= i < stage_spec(s, e).len() ==> bytes_lt(x, stage_spec(s, e)[i].path),
    decreases s.len(),
{
    let r = stage_spec(s, e);
    if s.len() == 0 {
    } else if bytes_lt(e.path, s[0].path) {
        assert forall|i: int| 0 <= i < r.len() implies bytes_lt(x, r[i].path) by {
            if i > 0 {
                assert(r[i] == s[i - 1]);
            }
        }
    } else if e.path == s[0].path {
        assert forall|i: int| 0 <= i < r.len() implies bytes_lt(x, r[i].path) by {
            if i > 0 {
                assert(r[i] == s.skip(1)[i - 1]);
                assert(s.skip(1)[i - 1] == s[i]);
            }
        }
    } else {
        assert forall|i: int| 0 <= i < s.skip(1).len() implies bytes_lt(
            x,
            s.skip(1)[i].path,
        ) by {
            assert(s.skip(1)[i] == s[i + 1]);
        }
        lemma_stage_lt_all(s.skip(1), e, x);
        assert forall|i: int| 0 <= i < r.len() implies bytes_lt(x, r[i].path) by {
            if i > 0 {
                assert(r[i] == stage_spec(s.skip(1), e)[i - 1]);
            }
        }
    }
}

/// When `e` is neither below nor at the head path, it lies strictly above it.
proof fn lemma_stage_head_lt(s: Seq<IndexEntryV>, e: IndexEntryV)
    requires
        s.len() > 0,
        !bytes_lt(e.path, s[0].path),
        e.path != s[0].path,
    ensures
        bytes_lt(s[0].path, e.path),
{
    lemma_bytes_le_total(e.path, s[0].path);
    if bytes_le(e.path, s[0].path) {
        assert(bytes_lt(e.path, s[0].path));
    }
}

/// Staging keeps the index strictly sorted and its entries well formed.
pub proof fn lemma_stage_wf(s: Seq<IndexEntryV>, e: IndexEntryV)
    requires
        index_entries_wf(s),
        wf_index_entry(e),
    ensures
        index_entries_wf(stage_spec(s, e)),
    decreases s.len(),
{
    let r = stage_spec(s, e);
    if s.len() == 0 {
    } else if bytes_lt(e.path, s[0].path) {
        assert forall|i: int, j: int| 0 <= i < j < r.len() implies bytes_lt(
            r[i].path,
            r[j].path,
        ) by {
            if i == 0 {
                assert(r[j] == s[j - 1]);
                if j > 1 {
                    lemma_bytes_lt_trans(e.path, s[0].path, s[j - 1].path);
                }
            } else {
                assert(r[i] == s[i - 1] && r[j] == s[j - 1]);
            }
        }
        assert forall|i: int| 0 <= i < r.len() implies wf_index_entry(#[trigger] r[i]) by {
            if i > 0 {
                assert(r[i] == s[i - 1]);
            }
        }
    } else if e.path == s[0].path {
        assert forall|i: int, j: int| 0 <= i < j < r.len() implies bytes_lt(
            r[i].path,
            r[j].path,
        ) by {
            if i == 0 {
                assert(r[j] == s.skip(1)[j - 1]);
                assert(s.skip(1)[j - 1] == s[j]);
            } else {
                assert(r[i] == s[i] && r[j] == s[j]);
            }
        }
        assert forall|i: int| 0 <= i < r.len() implies wf_index_entry(#[trigger] r[i]) by {
            if i > 0 {
                assert(r[i] == s[i]);
            }
        }
    } else {
        lemma_stage_head_lt(s, e);
        lemma_index_wf_skip(s);
        lemma_stage_wf(s.skip(1), e);
        assert forall|i: int| 0 <= i < s.skip(1).len() implies bytes_lt(
            s[0].path,
            s.skip(1)[i].path,
        ) by {
            assert(s.skip(1)[i] == s[i + 1]);
        }
        lemma_stage_lt_all(s.skip(1), e, s[0].path);
        let t = stage_spec(s.skip(1), e);
        assert forall|i: int, j: int| 0 <= i < j < r.len() implies bytes_lt(
            r[i].path,
            r[j].path,
        ) by {
            if i == 0 {
                assert(r[j] == t[j - 1]);
            } else {
                assert(r[i] == t[i - 1] && r[j] == t[j - 1]);
            }
        }
        assert forall|i: int| 0 <= i < r.len() implies wf_index_entry(#[trigger] r[i]) by {
            if i > 0 {
                assert(r[i] == t[i - 1]);
            }
        }
    }
}

/// Staging updates the represented table with a single insert.
pub proof fn lemma_stage_map(s: Seq<IndexEntryV>, e: IndexEntryV)
    requires
        index_entries_wf(s),
    ensures
        entry_map(stage_spec(s, e)) == entry_map(s).insert(e.path, e),
    decreases s.len(),
{
    let r = stage_spec(s, e);
    if s.len() == 0 {
        assert(r == seq![e]);
        assert(r[0] == e);
        assert(r.skip(1) =~= Seq::<IndexEntryV>::empty());
        assert(entry_map(Seq::<IndexEntryV>::empty()) =~= Map::<Seq<u8>, IndexEntryV>::empty());
        assert(entry_map(r) == entry_map(r.skip(1)).insert(e.path, e));
        assert(entry_map(r) =~= entry_map(s).insert(e.path, e));
    } else if bytes_lt(e.path, s[0].path) {
        assert(r[0] == e);
        assert(r.skip(1) =~= s);
        assert(entry_map(r) == entry_map(s).insert(e.path, e));
    } else if e.path == s[0].path {
        assert(r[0] == e);
        assert(r.skip(1) =~= s.skip(1));
        assert(entry_map(r) == entry_map(s.skip(1)).insert(e.path, e));
        assert(entry_map(s.skip(1)).insert(s[0].path, s[0]).insert(e.path, e) =~= entry_map(
            s.skip(1),
        ).insert(e.path, e));
    } else {
        lemma_stage_head_lt(s, e);
        lemma_index_wf_skip(s);
        lemma_stage_map(s.skip(1), e);
        let t = stage_spec(s.skip(1), e);
        assert(r[0] == s[0]);
        assert(r.skip(1) =~= t);
        assert(entry_map(r) == entry_map(t).insert(s[0].path, s[0]));
        assert(entry_map(s.skip(1)).insert(e.path, e).insert(s[0].path, s[0]) =~= entry_map(
            s.skip(1),
        ).insert(s[0].path, s[0]).insert(e.path, e));
    }
}

/// Every listed path is in the table, and nothing else is.
proof fn lemma_entry_map_dom(s: Seq<IndexEntryV>, p: Seq<u8>)
    ensures
        entry_map(s).dom().contains(p) <==> exists|i: int| 0 <= i < s.len() && s[i].path == p,
    decreases s.len(),
{
    if s.len() > 0 {
        lemma_entry_map_dom(s.skip(1), p);
        if entry_map(s).dom().contains(p) {
            if p != s[0].path {
                let j = choose|j: int| 0 <= j < s.skip(1).len() && s.skip(1)[j].path == p;
                assert(s[j + 1] == s.skip(1)[j]);
                assert(s[j + 1].path == p);
            }
        }
        if exists|i: int| 0 <= i < s.len() && s[i].path == p {
            let i = choose|i: int| 0 <= i < s.len() && s[i].path == p;
            if i > 0 {
                assert(s.skip(1)[i - 1] == s[i]);
                assert(s.skip(1)[i - 1].path == p);
            }
        }
    }
}

/// Removing the head path of a strictly sorted index leaves the tail's table.
proof fn lemma_entry_map_tail(s: Seq<IndexEntryV>)
    requires
        index_entries_wf(s),
        s.len() > 0,
    ensures
        entry_map(s.skip(1)) == entry_map(s).remove(s[0].path),
{
    let p = s[0].path;
    assert forall|i: int| 0 <= i < s.skip(1).len() implies s.skip(1)[i].path != p by {
        assert(s.skip(1)[i] == s[i + 1]);
        assert(bytes_lt(p, s[i + 1].path));
    }
    lemma_entry_map_dom(s.skip(1), p);
    assert(!entry_map(s.skip(1)).dom().contains(p));
    assert(entry_map(s).remove(p) =~= entry_map(s.skip(1)));
}

/// A strictly sorted index is determined by the table it represents: staging
/// the same files, in any order, yields one and the same index, so every
/// derived digest is invariant to staging order.
pub proof fn lemma_index_canonical(a: Seq<IndexEntryV>, b: Seq<IndexEntryV>)
    requires
        index_entries_wf(a),
        index_entries_wf(b),
        entry_map(a) == entry_map(b),
    ensures
        a == b,
    decreases a.len(),
{
    if a.len() == 0 {
        if b.len() > 0 {
            lemma_entry_map_dom(a, b[0].path);
            assert(entry_map(b).dom().contains(b[0].path));
        }
        assert(a =~= b);
    } else {
        assert(entry_map(a).dom().contains(a[0].path));
        if b.len() == 0 {
            lemma_entry_map_dom(b, a[0].path);
            assert(false);
        }
        let p = a[0].path;
        let q = b[0].path;
        lemma_entry_map_dom(b, p);
        lemma_entry_map_dom(a, q);
        assert(entry_map(b).dom().contains(p));
        assert(entry_map(a).dom().contains(q));
        let jb = choose|j: int| 0 <= j < b.len() && b[j].path == p;
        let ia = choose|i: int| 0 <= i < a.len() && a[i].path == q;
        if jb > 0 && ia > 0 {
            assert(bytes_lt(q, b[jb].path));
            assert(bytes_lt(p, a[ia].path));
            lemma_bytes_lt_trans(p, q, p);
            assert(false);
        }
        assert(p == q);
        assert(entry_map(a)[p] == a[0]);
        assert(entry_map(b)[p] == b[0]);
        assert(a[0] == b[0]);
        lemma_entry_map_tail(a);
        lemma_entry_map_tail(b);
        lemma_index_wf_skip(a);
        lemma_index_wf_skip(b);
        lemma_index_canonical(a.skip(1), b.skip(1));
        assert forall|k: int| 0 <= k < a.len() implies a[k] == b[k] by {
            if k > 0 {
                assert(a[k] == a.skip(1)[k - 1]);
                assert(b[k] == b.skip(1)[k - 1]);
            }
        }
        assert(a =~= b);
    }
}

/// The staging index.  The entry vector is kept strictly sorted by path.
#[derive(Clone, PartialEq, Eq, Debug)]
pub struct Index {
    entries: Vec<IndexEntry>,
}

impl View for Index {
    type V = Seq<IndexEntryV>;

    closed spec fn view(&self) -> Seq<IndexEntryV> {
        self.entries.deep_view()
    }
}

fn stage_rec(entries: Vec<IndexEntry>, e: IndexEntry) -> (r: Vec<IndexEntry>)
    ensures
        r.deep_view() == stage_spec(entries.deep_view(), e@),
    decreases entries@.len(),
{
    let ghost dv = entries.deep_view();
    if entries.len() == 0 {
        let mut r = entries;
        r.push(e);
        proof {
            assert(r.deep_view() =~= seq![e@]);
        }
        r
    } else if bytes_lt_exec(&e.path, &entries[0].path) {
        proof {
            assert(entries.deep_view()[0] == entries@[0]@);
        }
        let mut r = entries;
        r.insert(0, e);
        proof {
            assert(r.deep_view() =~= seq![e@] + dv);
        }
        r
    } else if bytes_eq(&e.path, &entries[0].path) {
        proof {
            assert(entries.deep_view()[0] == entries@[0]@);
        }
        let mut r = entries;
        r.remove(0);
        proof {
            assert(r.deep_view() =~= dv.skip(1));
        }
        r.insert(0, e);
        proof {
            assert(r.deep_view() =~= seq![e@] + dv.skip(1));
        }
        r
    } else {
        proof {
            assert(entries.deep_view()[0] == entries@[0]@);
        }
        let mut es = entries;
        let head = es.remove(0);
        proof {
            assert(es.deep_view() =~= dv.skip(1));
            assert(head@ == dv[0]);
        }
        let r0 = stage_rec(es, e);
        let mut r = r0;
        r.insert(0, head);
        proof {
            assert(r.deep_view() =~= seq![head@] + stage_spec(dv.skip(1), e@));
        }
        r
    }
}

impl Index {
    /// Whether the table is in its canonical shape: strictly sorted by path,
    /// every entry reproducible by the record codec.
    pub open spec fn wf(&self) -> bool {
        index_entries_wf(self@)
    }

    /// The table this index represents.
    pub open spec fn as_map(&self) -> Map<Seq<u8>, IndexEntryV> {
        entry_map(self@)
    }

    /// The empty index.
    pub fn new() -> (r: Index)
        ensures
            r.wf(),
            r@ == Seq::<IndexEntryV>::empty(),
            r.as_map() == Map::<Seq<u8>, IndexEntryV>::empty(),
    {
        let r = Index { entries: Vec::new() };
        proof {
            assert(r@ =~= Seq::<IndexEntryV>::empty());
        }
        r
    }

    /// The entries, in sorted path order.
    pub fn entries(&self) -> (r: &Vec<IndexEntry>)
        ensures
            r.deep_view() == self@,
    {
        &self.entries
    }

    /// Stages `e`: the same table with `e` under its path, replacing any
    /// entry already there (last write wins).  Nothing is written to the
    /// object store here.
    pub fn stage(self, e: IndexEntry) -> (r: Index)
        requires
            self.wf(),
            wf_index_entry(e@),
        ensures
            r.wf(),
            r@ == stage_spec(self@, e@),
            r.as_map() == self.as_map().insert(e@.path, e@),
    {
        proof {
            lemma_stage_wf(self@, e@);
            lemma_stage_map(self@, e@);
        }
        Index { entries: stage_rec(self.entries, e) }
    }
}

// ---------------------------------------------------------------------------
// The persisted index record
// ---------------------------------------------------------------------------

pub open spec fn enc_index_entry(e: IndexEntryV) -> Seq<u8> {
    enc_bytes(e.path) + e.digest + u64_le(e.mode) + u64_le(e.size) + u64_le(e.mtime)
}

pub open spec fn enc_index_entries(s: Seq<IndexEntryV>) -> Seq<u8>
    decreases s.len(),
{
    if s.len() == 0 {
        Seq::empty()
    } else {
        enc_index_entry(s[0]) + enc_index_entries(s.skip(1))
    }
}

/// The index record: an entry count, then the entries in sorted path order.
pub open spec fn enc_index(s: Seq<IndexEntryV>) -> Seq<u8> {
    u64_le(s.len() as u64) + enc_index_entries(s)
}

#[verifier::opaque]
pub open spec fn dec_index_entry(s: Seq<u8>) -> Option<(IndexEntryV, Seq<u8>)> {
    match dec_bytes(s) {
        Option::None => None,
        Option::Some((path, s1)) => match dec_fixed(s1, DIGEST_LEN as nat) {
            Option::None => None,
            Option::Some((digest, s2)) => match dec_u64(s2) {
                Option::None => None,
                Option::Some((mode, s3)) => match dec_u64(s3) {
                    Option::None => None,
                    Option::Some((size, s4)) => match dec_u64(s4) {
                        Option::None => None,
                        Option::Some((mtime, s5)) => Some(
                            (IndexEntryV { path, digest, mode, size, mtime }, s5),
                        ),
                    },
                },
            },
        },
    }
}

pub open spec fn dec_index_entries(s: Seq<u8>, n: nat) -> Option<(Seq<IndexEntryV>, Seq<u8>)>
    decreases n,
{
    if n == 0 {
        Some((Seq::empty(), s))
    } else {
        match dec_index_entry(s) {
            Option::None => None,
            Option::Some((e, r)) => match dec_index_entries(r, (n - 1) as nat) {
                Option::None => None,
                Option::Some((es, r2)) => Some((seq![e] + es, r2)),
            },
        }
    }
}

/// Decodes an index record to its entry sequence; the record must be
/// consumed exactly.
pub open spec fn dec_index(b: Seq<u8>) -> Option<Seq<IndexEntryV>> {
    match dec_u64(b) {
        Option::None => None,
        Option::Some((n, r)) => match dec_index_entries(r, n as nat) {
            Option::None => None,
            Option::Some((es, r2)) => if r2.len() == 0 {
                Some(es)
            } else {
                None
            },
        },
    }
}

/// A record is accepted only when it decodes and the decoded table is in
/// canonical shape; anything else is a corrupt index record.
pub open spec fn index_record_ok(b: Seq<u8>) -> Option<Seq<IndexEntryV>> {
    match dec_index(b) {
        Option::Some(es) => if index_entries_wf(es) {
            Some(es)
        } else {
            None
        },
        Option::None => None,
    }
}

proof fn lemma_dec_index_entry_enc(e: IndexEntryV, rest: Seq<u8>)
    requires
        wf_index_entry(e),
    ensures
        dec_index_entry(enc_index_entry(e) + rest) == Some((e, rest)),
{
    reveal(dec_index_entry);
    let s = enc_index_entry(e) + rest;
    assert(s =~= enc_bytes(e.path) + (e.digest + (u64_le(e.mode) + (u64_le(e.size) + (u64_le(
        e.mtime,
    ) + rest)))));
    lemma_dec_bytes_enc(e.path, e.digest + (u64_le(e.mode) + (u64_le(e.size) + (u64_le(e.mtime)
        + rest))));
    lemma_dec_fixed_enc(e.digest, u64_le(e.mode) + (u64_le(e.size) + (u64_le(e.mtime) + rest)));
    lemma_dec_u64_enc(e.mode, u64_le(e.size) + (u64_le(e.mtime) + rest));
    lemma_dec_u64_enc(e.size, u64_le(e.mtime) + rest);
    lemma_dec_u64_enc(e.mtime, rest);
    assert(IndexEntryV {
        path: e.path,
        digest: e.digest,
        mode: e.mode,
        size: e.size,
        mtime: e.mtime,
    } == e);
}

proof fn lemma_dec_index_entries_step(s: Seq<u8>, n: nat, e: IndexEntryV, r: Seq<u8>)
    requires
        n > 0,
        dec_index_entry(s) == Some((e, r)),
    ensures
        dec_index_entries(s, n) == add_prefix(seq![e], dec_index_entries(r, (n - 1) as nat)),
{
    match dec_index_entries(r, (n - 1) as nat) {
        Option::Some(p) => {},
        Option::None => {},
    }
}

proof fn lemma_dec_index_entries_enc_cons(e: IndexEntryV, tail: Seq<IndexEntryV>, rest: Seq<u8>)
    requires
        wf_index_entry(e),
        dec_index_entries(enc_index_entries(tail) + rest, tail.len()) == Some((tail, rest)),
    ensures
        dec_index_entries(enc_index_entries(seq![e] + tail) + rest, (seq![e] + tail).len())
            == Some((seq![e] + tail, rest)),
{
    let es = seq![e] + tail;
    let tail_enc = enc_index_entries(tail) + rest;
    assert(es[0] == e);
    assert(es.skip(1) =~= tail);
    assert(enc_index_entries(es) == enc_index_entry(e) + enc_index_entries(tail));
    vstd::seq_lib::lemma_concat_associative(enc_index_entry(e), enc_index_entries(tail), rest);
    assert(enc_index_entries(es) + rest == enc_index_entry(e) + tail_enc);
    lemma_dec_index_entry_enc(e, tail_enc);
    lemma_dec_index_entries_step(enc_index_entries(es) + rest, es.len(), e, tail_enc);
    assert(add_prefix(seq![e], Some((tail, rest))) == Some((seq![e] + tail, rest)));
}

#[verifier::rlimit(100)]
#[verifier::spinoff_prover]
proof fn lemma_dec_index_entries_enc(es: Seq<IndexEntryV>, rest: Seq<u8>)
    requires
        forall|i: int| 0 <= i < es.len() ==> wf_index_entry(#[trigger] es[i]),
    ensures
        dec_index_entries(enc_index_entries(es) + rest, es.len()) == Some((es, rest)),
    decreases es.len(),
{
    if es.len() == 0 {
        assert(enc_index_entries(es) + rest =~= rest);
        assert(es =~= Seq::<IndexEntryV>::empty());
    } else {
        assert forall|i: int| 0 <= i < es.skip(1).len() implies wf_index_entry(
            #[trigger] es.skip(1)[i],
        ) by {
            assert(es.skip(1)[i] == es[i + 1]);
        }
        lemma_dec_index_entries_enc(es.skip(1), rest);
        lemma_dec_index_entries_enc_cons(es[0], es.skip(1), rest);
        assert(seq![es[0]] + es.skip(1) =~= es);
    }
}

/// Round trip of the index record: reading back a written record yields the
/// same table.  The length bound is a machine limit (the count field is 64
/// bits), which every index held in memory satisfies.
pub proof fn lemma_index_round_trip(s: Seq<IndexEntryV>)
    requires
        index_entries_wf(s),
        s.len() <= u64::MAX,
    ensures
        index_record_ok(enc_index(s)) == Some(s),
{
    assert(enc_index(s) =~= u64_le(s.len() as u64) + (enc_index_entries(s) + Seq::empty()));
    lemma_dec_u64_enc(s.len() as u64, enc_index_entries(s) + Seq::empty());
    lemma_dec_index_entries_enc(s, Seq::empty());
}

/// Serializes the index to its record bytes.
pub fn encode_index(ix: &Index) -> (r: Vec<u8>)
    ensures
        r@ == enc_index(ix@),
{
    let entries = ix.entries();
    let ghost es = entries.deep_view();
    let mut out: Vec<u8> = Vec::new();
    push_u64_le(&mut out, entries.len() as u64);
    let mut i: usize = 0;
    while i < entries.len()
        invariant
            es == entries.deep_view(),
            es.len() == entries@.len(),
            0 <= i <= entries@.len(),
            out@ == u64_le(es.len() as u64) + enc_index_entries(es.take(i as int)),
        decreases entries@.len() - i,
    {
        let e = &entries[i];
        push_u64_le(&mut out, e.path.len() as u64);
        push_all(&mut out, &e.path);
        push_all(&mut out, &e.digest);
        push_u64_le(&mut out, e.mode);
        push_u64_le(&mut out, e.size);
        push_u64_le(&mut out, e.mtime);
        proof {
            lemma_enc_index_entries_snoc(es, i as int);
            assert(entries@[i as int]@ == es[i as int]);
            assert(out@ =~= u64_le(es.len() as u64) + enc_index_entries(es.take(i as int + 1)));
        }
        i += 1;
    }
    proof {
        assert(es.take(es.len() as int) =~= es);
    }
    out
}

proof fn lemma_enc_index_entries_snoc(es: Seq<IndexEntryV>, i: int)
    requires
        0 <= i < es.len(),
    ensures
        enc_index_entries(es.take(i + 1)) == enc_index_entries(es.take(i)) + enc_index_entry(
            es[i],
        ),
    decreases i,
{
    if i == 0 {
        assert(es.take(1).len() == 1);
        assert(es.take(1)[0] == es[0]);
        assert(es.take(1).skip(1) =~= Seq::<IndexEntryV>::empty());
        assert(enc_index_entries(es.take(1)) == enc_index_entry(es.take(1)[0])
            + enc_index_entries(es.take(1).skip(1)));
        assert(enc_index_entries(Seq::<IndexEntryV>::empty()) == Seq::<u8>::empty());
        assert(enc_index_entry(es[0]) + Seq::<u8>::empty() =~= enc_index_entry(es[0]));
        assert(es.take(0) =~= Seq::<IndexEntryV>::empty());
        assert(enc_index_entries(es.take(0)) + enc_index_entry(es[0]) =~= enc_index_entry(es[0]));
    } else {
        lemma_enc_index_entries_snoc(es.skip(1), i - 1);
        assert(es.take(i + 1)[0] == es[0]);
        assert(es.take(i + 1).skip(1) =~= es.skip(1).take(i));
        assert(es.take(i)[0] == es[0]);
        assert(es.take(i).skip(1) =~= es.skip(1).take(i - 1));
        assert(es.skip(1)[i - 1] == es[i]);
        assert(enc_index_entry(es[0]) + (enc_index_entries(es.skip(1).take(i - 1))
            + enc_index_entry(es[i])) =~= (enc_index_entry(es[0]) + enc_index_entries(
            es.skip(1).take(i - 1),
        )) + enc_index_entry(es[i]));
    }
}

fn take_index_entry(b: &Vec<u8>, pos: usize) -> (r: Option<(IndexEntry, usize)>)
    requires
        pos <= b@.len(),
    ensures
        match r {
            Option::Some(p) => pos <= p.1 <= b@.len() && dec_index_entry(b@.skip(pos as int))
                == Some((p.0@, b@.skip(p.1 as int))) && wf_index_entry(p.0@),
            Option::None => dec_index_entry(b@.skip(pos as int)) == None::<
                (IndexEntryV, Seq<u8>),
            >,
        },
{
    proof {
        reveal(dec_index_entry);
    }
    let (path, p1) = match take_bytes_field(b, pos) {
        Option::Some(x) => x,
        Option::None => {
            return None;
        },
    };
    let (digest, p2) = match take_fixed(b, p1, DIGEST_LEN) {
        Option::Some(x) => x,
        Option::None => {
            return None;
        },
    };
    let (mode, p3) = match take_u64(b, p2) {
        Option::Some(x) => x,
        Option::None => {
            return None;
        },
    };
    let (size, p4) = match take_u64(b, p3) {
        Option::Some(x) => x,
        Option::None => {
            return None;
        },
    };
    let (mtime, p5) = match take_u64(b, p4) {
        Option::Some(x) => x,
        Option::None => {
            return None;
        },
    };
    let plen = path.len();
    let dlen = digest.len();
    Some((IndexEntry { path, digest, mode, size, mtime }, p5))
}

/// Checks that the decoded entries stand in strictly increasing path order.
fn check_sorted(entries: &Vec<IndexEntry>) -> (r: bool)
    ensures
        r == (forall|i: int, j: int|
            0 <= i < j < entries.deep_view().len() ==> bytes_lt(
                entries.deep_view()[i].path,
                entries.deep_view()[j].path,
            )),
{
    let ghost dv = entries.deep_view();
    let n = entries.len();
    if n == 0 {
        return true;
    }
    let mut i: usize = 0;
    while i < n - 1
        invariant
            dv == entries.deep_view(),
            n == entries@.len(),
            dv.len() == n,
            n >= 1,
            0 <= i <= n - 1,
            forall|k: int| 0 <= k < i ==> bytes_lt(#[trigger] dv[k].path, dv[k + 1].path),
        decreases n - i,
    {
        if !bytes_lt_exec(&entries[i].path, &entries[i + 1].path) {
            proof {
                lemma_deep_view_index(*entries, i as int);
                lemma_deep_view_index(*entries, i as int + 1);
                assert(!bytes_lt(dv[i as int].path, dv[i as int + 1].path));
            }
            return false;
        }
        proof {
            lemma_deep_view_index(*entries, i as int);
            lemma_deep_view_index(*entries, i as int + 1);
        }
        i += 1;
    }
    proof {
        assert forall|k: int, l: int| 0 <= k < l < dv.len() implies bytes_lt(
            dv[k].path,
            dv[l].path,
        ) by {
            lemma_sorted_adjacent_to_pairwise(dv, k, l);
        }
    }
    true
}

/// Adjacent strict order gives pairwise strict order.
proof fn lemma_sorted_adjacent_to_pairwise(s: Seq<IndexEntryV>, k: int, l: int)
    requires
        forall|i: int| 0 <= i < s.len() - 1 ==> bytes_lt(#[trigger] s[i].path, s[i + 1].path),
        0 <= k < l < s.len(),
    ensures
        bytes_lt(s[k].path, s[l].path),
    decreases l - k,
{
    if l == k + 1 {
    } else {
        lemma_sorted_adjacent_to_pairwise(s, k, l - 1);
        assert(bytes_lt(s[l - 1].path, s[l].path));
        lemma_bytes_lt_trans(s[k].path, s[l - 1].path, s[l].path);
    }
}

/// Deserializes an index record; `None` when the bytes are not the canonical
/// record of any index.
#[verifier::loop_isolation(false)]
#[verifier::rlimit(100)]
pub fn decode_index(b: &Vec<u8>) -> (r: Option<Index>)
    ensures
        match r {
            Option::Some(ix) => index_record_ok(b@) == Some(ix@) && ix.wf(),
            Option::None => index_record_ok(b@) == None::<Seq<IndexEntryV>>,
        },
{
    proof {
        assert(b@.skip(0) =~= b@);
    }
    let (count, start) = match take_u64(b, 0) {
        Option::Some(x) => x,
        Option::None => {
            return None;
        },
    };
    let ghost s0 = b@.skip(start as int);
    let mut entries: Vec<IndexEntry> = Vec::new();
    let mut pos = start;
    let mut i: u64 = 0;
    proof {
        assert(entries.deep_view() =~= Seq::<IndexEntryV>::empty());
        lemma_add_prefix_empty(dec_index_entries(s0, count as nat));
    }
    while i < count
        invariant
            i <= count,
            pos <= b@.len(),
            entries.deep_view().len() == i,
            forall|j: int|
                0 <= j < entries.deep_view().len() ==> wf_index_entry(
                    #[trigger] entries.deep_view()[j],
                ),
            dec_index_entries(s0, count as nat) == add_prefix(
                entries.deep_view(),
                dec_index_entries(b@.skip(pos as int), (count - i) as nat),
            ),
        decreases count - i,
    {
        let ghost acc = entries.deep_view();
        let ghost prevseq = entries@;
        proof {
            assert forall|j: int| 0 <= j < prevseq.len() implies acc[j] == prevseq[
                j
            ].deep_view() by {
                lemma_deep_view_index(entries, j);
            }
        }
        let (e, p2) = match take_index_entry(b, pos) {
            Option::Some(x) => x,
            Option::None => {
                proof {
                    assert(dec_index_entries(b@.skip(pos as int), (count - i) as nat) == None::<
                        (Seq<IndexEntryV>, Seq<u8>),
                    >);
                }
                return None;
            },
        };
        proof {
            lemma_dec_index_entries_step(
                b@.skip(pos as int),
                (count - i) as nat,
                e@,
                b@.skip(p2 as int),
            );
            lemma_add_prefix_assoc(
                acc,
                e@,
                dec_index_entries(b@.skip(p2 as int), (count - i - 1) as nat),
            );
        }
        entries.push(e);
        proof {
            assert forall|j: int| 0 <= j < entries@.len() implies entries.deep_view()[j]
                == acc.push(e@)[j] by {
                lemma_deep_view_index(entries, j);
                if j < prevseq.len() {
                    assert(entries@[j] == prevseq[j]);
                }
            }
            assert(entries.deep_view() =~= acc.push(e@));
        }
        pos = p2;
        i += 1;
    }
    proof {
        assert(dec_index_entries(b@.skip(pos as int), 0) == Some(
            (Seq::<IndexEntryV>::empty(), b@.skip(pos as int)),
        ));
        assert(entries.deep_view() + Seq::<IndexEntryV>::empty() =~= entries.deep_view());
        assert(dec_index_entries(s0, count as nat) == Some(
            (entries.deep_view(), b@.skip(pos as int)),
        ));
    }
    if pos != b.len() {
        proof {
            assert(b@.skip(pos as int).len() > 0);
        }
        return None;
    }
    proof {
        assert(b@.skip(pos as int).len() == 0);
    }
    if !check_sorted(&entries) {
        return None;
    }
    proof {
        assert forall|j: int| 0 <= j < entries.deep_view().len() implies wf_index_entry(
            #[trigger] entries.deep_view()[j],
        ) by {
            lemma_deep_view_index(entries, j);
        }
    }
    Some(Index { entries })
}

} // verus!
