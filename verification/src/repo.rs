//! The repository: one aggregate owning the object store, the working
//! files, the reference store, and the persisted index record.  The caller
//! holds exactly one handle; nothing here locks or shares.

use vstd::prelude::*;
use crate::bytes::{bytes_eq, copy_bytes};
use crate::object::{DIGEST_LEN, MODE_FILE, RepoError, GitObject, ObjectV, Identity, IdentityV,
    ObjKind, TreeEntryV, lemma_deep_view_index};
use crate::codec::{encode_object, decode_object, decode_obj, encode_obj, canon, object_digest};
use crate::digest::{sha1_digest, hex_encode, hex_of};
use crate::index::{Index, IndexEntry, IndexEntryV, index_record_ok, enc_index, stage_spec,
    entry_map, decode_index, encode_index};

verus! {

// ---------------------------------------------------------------------------
// Key-value records
// ---------------------------------------------------------------------------

/// One record of an in-memory table: a byte-string key and its value.
pub struct KvPair<V> {
    pub key: Vec<u8>,
    pub val: V,
}

pub ghost struct KvPairV<W> {
    pub key: Seq<u8>,
    pub val: W,
}

impl<V: DeepView> View for KvPair<V> {
    type V = KvPairV<V::V>;

    open spec fn view(&self) -> KvPairV<V::V> {
        KvPairV { key: self.key@, val: self.val.deep_view() }
    }
}

impl<V: DeepView> DeepView for KvPair<V> {
    type V = KvPairV<V::V>;

    open spec fn deep_view(&self) -> KvPairV<V::V> {
        self.view()
    }
}

/// The table a record list stands for.  The head is inserted last, so the
/// first record with a key wins; with unique keys the order is irrelevant.
pub open spec fn pairs_map<W>(s: Seq<KvPairV<W>>) -> Map<Seq<u8>, W>
    decreases s.len(),
{
    if s.len() == 0 {
        Map::empty()
    } else {
        pairs_map(s.skip(1)).insert(s[0].key, s[0].val)
    }
}

pub open spec fn keys_unique<W>(s: Seq<KvPairV<W>>) -> bool {
    forall|i: int, j: int| 0 <= i < j < s.len() ==> s[i].key != s[j].key
}

proof fn lemma_pairs_map_contains<W>(s: Seq<KvPairV<W>>, k: Seq<u8>)
    ensures
        pairs_map(s).dom().contains(k) <==> exists|i: int| 0 <= i < s.len() && s[i].key == k,
    decreases s.len(),
{
    if s.len() > 0 {
        lemma_pairs_map_contains(s.skip(1), k);
        if pairs_map(s).dom().contains(k) {
            if k != s[0].key {
                let j = choose|j: int| 0 <= j < s.skip(1).len() && s.skip(1)[j].key == k;
                assert(s[j + 1] == s.skip(1)[j]);
                assert(s[j + 1].key == k);
            }
        }
        if exists|i: int| 0 <= i < s.len() && s[i].key == k {
            let i = choose|i: int| 0 <= i < s.len() && s[i].key == k;
            if i > 0 {
                assert(s.skip(1)[i - 1] == s[i]);
                assert(s.skip(1)[i - 1].key == k);
            }
        }
    }
}

/// The first record with a key decides the table's value at it.
proof fn lemma_pairs_map_first<W>(s: Seq<KvPairV<W>>, i: int)
    requires
        0 <= i < s.len(),
        forall|j: int| 0 <= j < i ==> s[j].key != s[i].key,
    ensures
        pairs_map(s).dom().contains(s[i].key),
        pairs_map(s)[s[i].key] == s[i].val,
    decreases s.len(),
{
    if i > 0 {
        assert forall|j: int| 0 <= j < i - 1 implies (#[trigger] s.skip(1)[j]).key != s.skip(
            1,
        )[i - 1].key by {
            assert(s.skip(1)[j] == s[j + 1]);
            assert(s.skip(1)[i - 1] == s[i]);
        }
        assert(s.skip(1)[i - 1] == s[i]);
        lemma_pairs_map_first(s.skip(1), i - 1);
        assert(s[0].key != s[i].key);
    }
}

/// Deep-viewing a byte vector is viewing it.
pub proof fn lemma_bytes_dv(v: Vec<u8>)
    ensures
        v.deep_view() == v@,
{
    assert(v.deep_view() =~= v@);
}

/// With unique keys, the table has exactly one slot per record.
proof fn lemma_pairs_map_len<W>(s: Seq<KvPairV<W>>)
    requires
        keys_unique(s),
    ensures
        pairs_map(s).len() == s.len(),
        pairs_map(s).dom().finite(),
    decreases s.len(),
{
    if s.len() > 0 {
        assert forall|i: int, j: int| 0 <= i < j < s.skip(1).len() implies s.skip(1)[i].key != s.skip(
            1,
        )[j].key by {
            assert(s.skip(1)[i] == s[i + 1] && s.skip(1)[j] == s[j + 1]);
        }
        lemma_pairs_map_len(s.skip(1));
        lemma_pairs_map_contains(s.skip(1), s[0].key);
        assert forall|j: int| 0 <= j < s.skip(1).len() implies s.skip(1)[j].key != s[0].key by {
            assert(s.skip(1)[j] == s[j + 1]);
        }
        assert(!pairs_map(s.skip(1)).dom().contains(s[0].key));
    }
}

proof fn lemma_keys_unique_skip<W>(s: Seq<KvPairV<W>>)
    requires
        keys_unique(s),
        s.len() > 0,
    ensures
        keys_unique(s.skip(1)),
{
    assert forall|i: int, j: int| 0 <= i < j < s.skip(1).len() implies s.skip(1)[i].key != s.skip(
        1,
    )[j].key by {
        assert(s.skip(1)[i] == s[i + 1] && s.skip(1)[j] == s[j + 1]);
    }
}

/// Replacing the record at `i` (same key) updates the table at that key.
proof fn lemma_pairs_map_update<W>(s: Seq<KvPairV<W>>, i: int, p: KvPairV<W>)
    requires
        keys_unique(s),
        0 <= i < s.len(),
        p.key == s[i].key,
    ensures
        pairs_map(s.update(i, p)) == pairs_map(s).insert(p.key, p.val),
        keys_unique(s.update(i, p)),
    decreases i,
{
    let t = s.update(i, p);
    assert forall|a: int, b: int| 0 <= a < b < t.len() implies t[a].key != t[b].key by {
        assert(t[a].key == s[a].key && t[b].key == s[b].key);
    }
    if i == 0 {
        assert(t[0] == p);
        assert(t.skip(1) =~= s.skip(1));
        assert(pairs_map(t) == pairs_map(s.skip(1)).insert(p.key, p.val));
        assert(pairs_map(s.skip(1)).insert(s[0].key, s[0].val).insert(p.key, p.val)
            =~= pairs_map(s.skip(1)).insert(p.key, p.val));
    } else {
        lemma_keys_unique_skip(s);
        assert(s.skip(1)[i - 1] == s[i]);
        lemma_pairs_map_update(s.skip(1), i - 1, p);
        assert(t[0] == s[0]);
        assert(t.skip(1) =~= s.skip(1).update(i - 1, p));
        assert(pairs_map(t) == pairs_map(s.skip(1).update(i - 1, p)).insert(s[0].key, s[0].val));
        assert(s[0].key != p.key);
        assert(pairs_map(s.skip(1)).insert(p.key, p.val).insert(s[0].key, s[0].val)
            =~= pairs_map(s.skip(1)).insert(s[0].key, s[0].val).insert(p.key, p.val));
    }
}

/// A fresh record at the front wins its key and keeps the others.
proof fn lemma_pairs_map_prepend<W>(s: Seq<KvPairV<W>>, p: KvPairV<W>)
    requires
        keys_unique(s),
        !pairs_map(s).dom().contains(p.key),
    ensures
        pairs_map(seq![p] + s) == pairs_map(s).insert(p.key, p.val),
        keys_unique(seq![p] + s),
{
    let t = seq![p] + s;
    assert(t[0] == p);
    assert(t.skip(1) =~= s);
    lemma_pairs_map_contains(s, p.key);
    assert forall|a: int, b: int| 0 <= a < b < t.len() implies t[a].key != t[b].key by {
        if a == 0 {
            assert(t[b] == s[b - 1]);
        } else {
            assert(t[a] == s[a - 1] && t[b] == s[b - 1]);
        }
    }
}

fn kv_find<V: DeepView>(s: &Vec<KvPair<V>>, k: &Vec<u8>) -> (r: Option<usize>)
    ensures
        match r {
            Option::Some(i) => 0 <= i < s@.len() && s@[i as int]@.key == k@ && pairs_map(
                s.deep_view(),
            ).dom().contains(k@) && pairs_map(s.deep_view())[k@] == s@[i as int]@.val,
            Option::None => !pairs_map(s.deep_view()).dom().contains(k@),
        },
{
    let mut i: usize = 0;
    while i < s.len()
        invariant
            0 <= i <= s@.len(),
            forall|j: int| 0 <= j < i ==> (#[trigger] s.deep_view()[j]).key != k@,
        decreases s@.len() - i,
    {
        if bytes_eq(&s[i].key, k) {
            proof {
                lemma_deep_view_index(*s, i as int);
                assert forall|j: int| 0 <= j < i as int implies s.deep_view()[j].key
                    != s.deep_view()[i as int].key by {
                    assert(s.deep_view()[j].key != k@);
                }
                lemma_pairs_map_first(s.deep_view(), i as int);
            }
            return Some(i);
        }
        proof {
            lemma_deep_view_index(*s, i as int);
        }
        i += 1;
    }
    proof {
        lemma_pairs_map_contains(s.deep_view(), k@);
        if pairs_map(s.deep_view()).dom().contains(k@) {
            let j = choose|j: int| 0 <= j < s.deep_view().len() && s.deep_view()[j].key == k@;
            assert(s.deep_view()[j].key != k@);
        }
    }
    None
}

/// Looks a key up in a byte-valued table, handing back a copy of the value.
fn kv_get(s: &Vec<KvPair<Vec<u8>>>, k: &Vec<u8>) -> (r: Option<Vec<u8>>)
    ensures
        match r {
            Option::Some(v) => pairs_map(s.deep_view()).dom().contains(k@) && v@ == pairs_map(
                s.deep_view(),
            )[k@],
            Option::None => !pairs_map(s.deep_view()).dom().contains(k@),
        },
{
    match kv_find(s, k) {
        Option::Some(i) => {
            let v = copy_bytes(&s[i].val);
            proof {
                lemma_bytes_dv(s@[i as int].val);
            }
            Some(v)
        },
        Option::None => None,
    }
}

/// Sets `k` to `v` in a byte-valued table: last write wins.
fn kv_put(s: &mut Vec<KvPair<Vec<u8>>>, k: Vec<u8>, v: Vec<u8>)
    requires
        keys_unique(old(s).deep_view()),
    ensures
        keys_unique(final(s).deep_view()),
        pairs_map(final(s).deep_view()) == pairs_map(old(s).deep_view()).insert(k@, v@),
        final(s)@.len() == if pairs_map(old(s).deep_view()).dom().contains(k@) {
            old(s)@.len() as int
        } else {
            old(s)@.len() as int + 1
        },
{
    let ghost dv = old(s).deep_view();
    let ghost p = KvPairV { key: k@, val: v@ };
    proof {
        lemma_bytes_dv(v);
    }
    let found = kv_find(s, &k);
    let pair = KvPair { key: k, val: v };
    proof {
        assert(pair@ == p);
    }
    match found {
        Option::Some(i) => {
            proof {
                lemma_pairs_map_update(dv, i as int, p);
            }
            s.remove(i);
            s.insert(i, pair);
            proof {
                assert(s@ =~= old(s)@.update(i as int, s@[i as int]));
                assert forall|j: int| 0 <= j < s.deep_view().len() implies s.deep_view()[j]
                    == dv.update(i as int, p)[j] by {
                    lemma_deep_view_index(*s, j);
                    if j != i as int {
                        assert(s@[j] == old(s)@[j]);
                        lemma_deep_view_index(*old(s), j);
                    }
                }
                assert(s.deep_view() =~= dv.update(i as int, p));
            }
        },
        Option::None => {
            proof {
                lemma_pairs_map_prepend(dv, p);
            }
            s.insert(0, pair);
            proof {
                assert forall|j: int| 0 <= j < s.deep_view().len() implies s.deep_view()[j]
                    == (seq![p] + dv)[j] by {
                    lemma_deep_view_index(*s, j);
                    if j > 0 {
                        assert(s@[j] == old(s)@[j - 1]);
                        lemma_deep_view_index(*old(s), j - 1);
                    }
                }
                assert(s.deep_view() =~= seq![p] + dv);
            }
        },
    }
}

// ---------------------------------------------------------------------------
// References
// ---------------------------------------------------------------------------

/// A named pointer: straight to a digest, or a redirect to another ref name.
#[derive(Clone, PartialEq, Eq, Debug)]
pub enum RefValue {
    Direct(Vec<u8>),
    Symbolic(Vec<u8>),
}

pub ghost enum RefValueV {
    Direct(Seq<u8>),
    Symbolic(Seq<u8>),
}

impl View for RefValue {
    type V = RefValueV;

    open spec fn view(&self) -> RefValueV {
        match self {
            RefValue::Direct(d) => RefValueV::Direct(d@),
            RefValue::Symbolic(n) => RefValueV::Symbolic(n@),
        }
    }
}

impl DeepView for RefValue {
    type V = RefValueV;

    open spec fn deep_view(&self) -> RefValueV {
        self.view()
    }
}

/// What resolving a ref name comes to.
pub ghost enum Resolved {
    Found(Seq<u8>),
    Unborn,
    Dangling,
}

/// One step of iterative resolution, `hops` symbolic redirects deep.  Out of
/// fuel is a dangling chain (the cycle guard).  A queried name with no
/// record yet is the unborn branch: the expected state of a freshly
/// initialized repository, where the branch HEAD hands out has no record.
/// A missing name reached through symbolic indirection means a symbolic ref
/// inside the chain pointed at nothing: a broken chain, a fault.
pub open spec fn resolve_walk(
    m: Map<Seq<u8>, RefValueV>,
    name: Seq<u8>,
    fuel: nat,
    hops: nat,
) -> Resolved
    decreases fuel,
{
    if fuel == 0 {
        Resolved::Dangling
    } else if !m.dom().contains(name) {
        if hops == 0 {
            Resolved::Unborn
        } else {
            Resolved::Dangling
        }
    } else {
        match m[name] {
            RefValueV::Direct(d) => Resolved::Found(d),
            RefValueV::Symbolic(n) => resolve_walk(m, n, (fuel - 1) as nat, hops + 1),
        }
    }
}

/// Resolution of a ref name from the start of its chain.
pub open spec fn resolve_ref(m: Map<Seq<u8>, RefValueV>, name: Seq<u8>, fuel: nat) -> Resolved {
    resolve_walk(m, name, fuel, 0)
}

/// The bound on symbolic indirection.
pub const SYMREF_LIMIT: u64 = 16;

/// The name of the distinguished current-position ref.
pub open spec fn head_name() -> Seq<u8> {
    seq![72u8, 69u8, 65u8, 68u8]
}

/// The branch a fresh repository's head points at: "refs/heads/master".
pub open spec fn master_name() -> Seq<u8> {
    seq![
        114u8, 101u8, 102u8, 115u8, 47u8, 104u8, 101u8, 97u8, 100u8, 115u8, 47u8, 109u8, 97u8,
        115u8, 116u8, 101u8, 114u8,
    ]
}

/// The name "HEAD" as bytes.
pub fn head_name_vec() -> (r: Vec<u8>)
    ensures
        r@ == head_name(),
{
    let mut r: Vec<u8> = Vec::new();
    r.push(72);
    r.push(69);
    r.push(65);
    r.push(68);
    proof {
        assert(r@ =~= head_name());
    }
    r
}

/// The name "refs/heads/master" as bytes.
pub fn master_name_vec() -> (r: Vec<u8>)
    ensures
        r@ == master_name(),
{
    let mut r: Vec<u8> = Vec::new();
    r.push(114);
    r.push(101);
    r.push(102);
    r.push(115);
    r.push(47);
    r.push(104);
    r.push(101);
    r.push(97);
    r.push(100);
    r.push(115);
    r.push(47);
    r.push(109);
    r.push(97);
    r.push(115);
    r.push(116);
    r.push(101);
    r.push(114);
    proof {
        assert(r@ =~= master_name());
    }
    r
}

/// Every direct ref points at a digest of the fixed length.
pub open spec fn refs_digests_ok(m: Map<Seq<u8>, RefValueV>) -> bool {
    forall|n: Seq<u8>|
        #[trigger] m.dom().contains(n) ==> match m[n] {
            RefValueV::Direct(d) => d.len() == DIGEST_LEN,
            RefValueV::Symbolic(_) => true,
        }
}

proof fn lemma_resolve_walk_found_len(m: Map<Seq<u8>, RefValueV>, name: Seq<u8>, fuel: nat, hops: nat)
    requires
        refs_digests_ok(m),
        resolve_walk(m, name, fuel, hops) is Found,
    ensures
        (resolve_walk(m, name, fuel, hops)->Found_0).len() == DIGEST_LEN,
    decreases fuel,
{
    if fuel > 0 && m.dom().contains(name) {
        match m[name] {
            RefValueV::Direct(_) => {},
            RefValueV::Symbolic(n) => {
                lemma_resolve_walk_found_len(m, n, (fuel - 1) as nat, hops + 1);
            },
        }
    }
}

/// A resolved digest came out of some direct ref, so it has the fixed
/// length.
pub proof fn lemma_resolve_found_len(m: Map<Seq<u8>, RefValueV>, name: Seq<u8>, fuel: nat)
    requires
        refs_digests_ok(m),
        resolve_ref(m, name, fuel) is Found,
    ensures
        (resolve_ref(m, name, fuel)->Found_0).len() == DIGEST_LEN,
{
    lemma_resolve_walk_found_len(m, name, fuel, 0);
}

/// A well-formed repository's direct refs all hold digests of the fixed
/// length.
pub proof fn lemma_wf_refs(c: &Context)
    requires
        c.wf(),
    ensures
        refs_digests_ok(c.refs_map()),
{
}

/// What the object store holds after one object is written.
pub open spec fn store_after_write(m: Map<Seq<u8>, Seq<u8>>, o: ObjectV) -> Map<Seq<u8>, Seq<u8>> {
    if m.dom().contains(object_digest(o)) {
        m
    } else {
        m.insert(object_digest(o), encode_obj(canon(o)))
    }
}

/// The store deduplicates by digest: writing the same object twice leaves
/// exactly the store the first write left, one record, not two.
pub proof fn lemma_store_dedup(m: Map<Seq<u8>, Seq<u8>>, o: ObjectV)
    ensures
        store_after_write(store_after_write(m, o), o) == store_after_write(m, o),
{
    assert(store_after_write(m, o).dom().contains(object_digest(o)));
}

/// The store after a sequence of objects is written in order, each write
/// inserting its record only when its digest is still absent.
pub open spec fn store_after_writes(m: Map<Seq<u8>, Seq<u8>>, objs: Seq<ObjectV>) -> Map<
    Seq<u8>,
    Seq<u8>,
>
    decreases objs.len(),
{
    if objs.len() == 0 {
        m
    } else {
        store_after_writes(store_after_write(m, objs[0]), objs.skip(1))
    }
}

pub proof fn lemma_store_after_writes_concat(
    m: Map<Seq<u8>, Seq<u8>>,
    a: Seq<ObjectV>,
    b: Seq<ObjectV>,
)
    ensures
        store_after_writes(m, a + b) == store_after_writes(store_after_writes(m, a), b),
    decreases a.len(),
{
    if a.len() == 0 {
        assert(a + b =~= b);
    } else {
        assert((a + b)[0] == a[0]);
        assert((a + b).skip(1) =~= a.skip(1) + b);
        lemma_store_after_writes_concat(store_after_write(m, a[0]), a.skip(1), b);
    }
}

pub proof fn lemma_store_extends_trans(
    a: Map<Seq<u8>, Seq<u8>>,
    b: Map<Seq<u8>, Seq<u8>>,
    c: Map<Seq<u8>, Seq<u8>>,
)
    requires
        store_extends(a, b),
        store_extends(b, c),
    ensures
        store_extends(a, c),
{
}

pub proof fn lemma_store_after_write_extends(m: Map<Seq<u8>, Seq<u8>>, o: ObjectV)
    ensures
        store_extends(m, store_after_write(m, o)),
{
}

pub proof fn lemma_store_after_writes_extends(m: Map<Seq<u8>, Seq<u8>>, objs: Seq<ObjectV>)
    ensures
        store_extends(m, store_after_writes(m, objs)),
    decreases objs.len(),
{
    if objs.len() > 0 {
        lemma_store_after_write_extends(m, objs[0]);
        lemma_store_after_writes_extends(store_after_write(m, objs[0]), objs.skip(1));
        lemma_store_extends_trans(
            m,
            store_after_write(m, objs[0]),
            store_after_writes(store_after_write(m, objs[0]), objs.skip(1)),
        );
    }
}

/// After a sequence of writes, every written object's digest has a record.
pub proof fn lemma_store_after_writes_all_present(m: Map<Seq<u8>, Seq<u8>>, objs: Seq<ObjectV>)
    ensures
        forall|i: int|
            0 <= i < objs.len() ==> store_after_writes(m, objs).dom().contains(
                object_digest(#[trigger] objs[i]),
            ),
    decreases objs.len(),
{
    if objs.len() > 0 {
        let m1 = store_after_write(m, objs[0]);
        assert(m1.dom().contains(object_digest(objs[0])));
        lemma_store_after_writes_all_present(m1, objs.skip(1));
        lemma_store_after_writes_extends(m1, objs.skip(1));
        assert forall|i: int| 0 <= i < objs.len() implies store_after_writes(
            m,
            objs,
        ).dom().contains(object_digest(#[trigger] objs[i])) by {
            if i > 0 {
                assert(objs.skip(1)[i - 1] == objs[i]);
            }
        }
    }
}

/// One record of the object store extends to another: nothing written is
/// ever overwritten or lost.
pub open spec fn store_extends(a: Map<Seq<u8>, Seq<u8>>, b: Map<Seq<u8>, Seq<u8>>) -> bool {
    forall|k: Seq<u8>|
        #[trigger] a.dom().contains(k) ==> b.dom().contains(k) && b[k] == a[k]
}

// ---------------------------------------------------------------------------
// The repository
// ---------------------------------------------------------------------------

/// One repository: object store, working files, refs, and the persisted
/// index record, owned exclusively by the caller.
pub struct Context {
    store: Vec<KvPair<Vec<u8>>>,
    files: Vec<KvPair<Vec<u8>>>,
    refs: Vec<KvPair<RefValue>>,
    index_rec: Option<Vec<u8>>,
}

impl Context {
    /// The object store: digest to stored record bytes.
    pub closed spec fn store_map(&self) -> Map<Seq<u8>, Seq<u8>> {
        pairs_map(self.store.deep_view())
    }

    /// The working files: path to content.
    pub closed spec fn files_map(&self) -> Map<Seq<u8>, Seq<u8>> {
        pairs_map(self.files.deep_view())
    }

    /// The reference store: name to value.
    pub closed spec fn refs_map(&self) -> Map<Seq<u8>, RefValueV> {
        pairs_map(self.refs.deep_view())
    }

    /// The persisted index record, if one was written.
    pub closed spec fn index_record(&self) -> Option<Seq<u8>> {
        match self.index_rec {
            Option::Some(b) => Some(b@),
            Option::None => None,
        }
    }

    /// How many records the object store holds.
    pub closed spec fn store_count(&self) -> nat {
        self.store@.len()
    }

    /// The staged table: the decoded index record, the empty table when none
    /// was written yet, nothing when the record is corrupt.
    pub open spec fn index_state(&self) -> Option<Seq<IndexEntryV>> {
        match self.index_record() {
            Option::Some(b) => index_record_ok(b),
            Option::None => Some(Seq::empty()),
        }
    }

    /// Each table keys its records uniquely.
    pub closed spec fn wf(&self) -> bool {
        &&& keys_unique(self.store.deep_view())
        &&& keys_unique(self.files.deep_view())
        &&& keys_unique(self.refs.deep_view())
        &&& refs_digests_ok(self.refs_map())
    }

    /// A fresh repository: everything empty, HEAD pointing at the default
    /// branch, which is still unborn.
    pub fn new() -> (c: Context)
        ensures
            c.wf(),
            c.store_map() == Map::<Seq<u8>, Seq<u8>>::empty(),
            c.files_map() == Map::<Seq<u8>, Seq<u8>>::empty(),
            c.refs_map() == Map::<Seq<u8>, RefValueV>::empty().insert(
                head_name(),
                RefValueV::Symbolic(master_name()),
            ),
            c.index_record() is None,
            c.store_count() == 0,
    {
        let mut refs: Vec<KvPair<RefValue>> = Vec::new();
        refs.push(KvPair { key: head_name_vec(), val: RefValue::Symbolic(master_name_vec()) });
        let c = Context { store: Vec::new(), files: Vec::new(), refs, index_rec: None };
        proof {
            assert(c.store.deep_view() =~= Seq::<KvPairV<Seq<u8>>>::empty());
            assert(c.files.deep_view() =~= Seq::<KvPairV<Seq<u8>>>::empty());
            lemma_deep_view_index(c.refs, 0);
            assert(c.refs.deep_view() =~= seq![
                KvPairV::<RefValueV> { key: head_name(), val: RefValueV::Symbolic(master_name()) },
            ]);
            assert(c.refs.deep_view().skip(1) =~= Seq::<KvPairV<RefValueV>>::empty());
            assert(pairs_map(Seq::<KvPairV<RefValueV>>::empty()) =~= Map::<
                Seq<u8>,
                RefValueV,
            >::empty());
            assert(c.refs_map() =~= Map::<Seq<u8>, RefValueV>::empty().insert(
                head_name(),
                RefValueV::Symbolic(master_name()),
            ));
        }
        c
    }

    /// Writes a working file (the storage capability's `write`; in memory it
    /// cannot fail).
    pub fn write(&mut self, path: Vec<u8>, content: Vec<u8>) -> (r: Result<(), RepoError>)
        requires
            old(self).wf(),
        ensures
            final(self).wf(),
            r is Ok,
            final(self).files_map() == old(self).files_map().insert(path@, content@),
            final(self).store_map() == old(self).store_map(),
            final(self).refs_map() == old(self).refs_map(),
            final(self).index_record() == old(self).index_record(),
            final(self).store_count() == old(self).store_count(),
    {
        kv_put(&mut self.files, path, content);
        Ok(())
    }

    /// Reads a working file back; absent paths are `NotFound`.
    pub fn read(&self, path: &Vec<u8>) -> (r: Result<Vec<u8>, RepoError>)
        requires
            self.wf(),
        ensures
            match r {
                Result::Ok(v) => self.files_map().dom().contains(path@) && v@ == self.files_map()[
                    path@
                ],
                Result::Err(e) => !self.files_map().dom().contains(path@) && e
                    == RepoError::NotFound,
            },
    {
        match kv_get(&self.files, path) {
            Option::Some(v) => Ok(v),
            Option::None => Err(RepoError::NotFound),
        }
    }

    /// The digest a blob with this content is stored under: hash of its
    /// canonical encoding.  Nothing is written.
    pub fn hash_object(&self, content: &Vec<u8>) -> (r: Vec<u8>)
        ensures
            r@ == object_digest(ObjectV::Blob { content: content@ }),
            r@.len() == DIGEST_LEN,
    {
        let obj = GitObject::Blob { content: copy_bytes(content) };
        let bytes = encode_object(&obj);
        sha1_digest(&bytes)
    }

    /// Writes an object: computes its digest and persists the canonical
    /// encoding under it, unless a record with that digest already exists
    /// (the store is immutable and deduplicated; writing the same object
    /// twice changes nothing the second time).
    pub fn write_object(&mut self, o: &GitObject) -> (d: Vec<u8>)
        requires
            old(self).wf(),
        ensures
            final(self).wf(),
            d@ == object_digest(o@),
            d@.len() == DIGEST_LEN,
            final(self).store_map() == store_after_write(old(self).store_map(), o@),
            final(self).store_map() == if old(self).store_map().dom().contains(d@) {
                old(self).store_map()
            } else {
                old(self).store_map().insert(d@, encode_obj(canon(o@)))
            },
            final(self).store_count() == if old(self).store_map().dom().contains(d@) {
                old(self).store_count() as int
            } else {
                old(self).store_count() as int + 1
            },
            final(self).store_map().dom().contains(d@),
            store_extends(old(self).store_map(), final(self).store_map()),
            final(self).files_map() == old(self).files_map(),
            final(self).refs_map() == old(self).refs_map(),
            final(self).index_record() == old(self).index_record(),
    {
        let bytes = encode_object(o);
        let d = sha1_digest(&bytes);
        match kv_find(&self.store, &d) {
            Option::Some(_) => d,
            Option::None => {
                kv_put(&mut self.store, copy_bytes(&d), bytes);
                d
            },
        }
    }

    /// Whether an object with this digest is stored.
    pub fn has_object(&self, d: &Vec<u8>) -> (r: bool)
        requires
            self.wf(),
        ensures
            r == self.store_map().dom().contains(d@),
    {
        match kv_find(&self.store, d) {
            Option::Some(_) => true,
            Option::None => false,
        }
    }

    /// How many records the object store holds: one per distinct digest.
    pub fn object_count(&self) -> (r: usize)
        requires
            self.wf(),
        ensures
            r == self.store_count(),
            r == self.store_map().len(),
    {
        proof {
            lemma_pairs_map_len(self.store.deep_view());
        }
        self.store.len()
    }

    /// Reads an object back by digest: `NotFound` when no record exists,
    /// `CorruptObject` when the stored bytes do not decode.
    pub fn read_object(&self, d: &Vec<u8>) -> (r: Result<GitObject, RepoError>)
        requires
            self.wf(),
        ensures
            match r {
                Result::Ok(o) => self.store_map().dom().contains(d@) && decode_obj(
                    self.store_map()[d@],
                ) == Some(o@),
                Result::Err(e) => (e == RepoError::NotFound && !self.store_map().dom().contains(
                    d@,
                )) || (e == RepoError::CorruptObject && self.store_map().dom().contains(d@)
                    && decode_obj(self.store_map()[d@]) == None::<ObjectV>),
            },
    {
        match kv_get(&self.store, d) {
            Option::None => Err(RepoError::NotFound),
            Option::Some(bytes) => match decode_object(&bytes) {
                Option::Some(o) => Ok(o),
                Option::None => Err(RepoError::CorruptObject),
            },
        }
    }

    /// Writes raw record bytes at a digest, overwriting what is there: the
    /// storage capability itself, bypassing content addressing.  This is how
    /// outside tampering with stored records is modelled.
    pub fn write_raw(&mut self, digest: Vec<u8>, bytes: Vec<u8>)
        requires
            old(self).wf(),
        ensures
            final(self).wf(),
            final(self).store_map() == old(self).store_map().insert(digest@, bytes@),
            final(self).files_map() == old(self).files_map(),
            final(self).refs_map() == old(self).refs_map(),
            final(self).index_record() == old(self).index_record(),
    {
        kv_put(&mut self.store, digest, bytes);
    }

    /// Reads the staged table back: the empty index when no record was ever
    /// written, `CorruptIndex` when the record does not decode canonically.
    pub fn read_index(&self) -> (r: Result<Index, RepoError>)
        requires
            self.wf(),
        ensures
            match r {
                Result::Ok(ix) => ix.wf() && self.index_state() == Some(ix@),
                Result::Err(e) => e == RepoError::CorruptIndex && self.index_state() is None,
            },
    {
        match &self.index_rec {
            Option::None => {
                let ix = Index::new();
                proof {
                    assert(ix@ =~= Seq::<IndexEntryV>::empty());
                }
                Ok(ix)
            },
            Option::Some(b) => match decode_index(b) {
                Option::Some(ix) => Ok(ix),
                Option::None => Err(RepoError::CorruptIndex),
            },
        }
    }

    /// The entry staging a blob digest under a path: regular-file mode,
    /// advisory size and time left at zero.
    pub open spec fn staged_entry(digest: Seq<u8>, path: Seq<u8>) -> IndexEntryV {
        IndexEntryV { path, digest, mode: MODE_FILE, size: 0, mtime: 0 }
    }

    /// The staged table with `path` now mapping to `digest` (last write
    /// wins).  Nothing is written: the caller persists the returned index
    /// with `write_index`, and the blob must already have been stored.
    pub fn update_index(&self, digest: &Vec<u8>, path: Vec<u8>) -> (r: Result<Index, RepoError>)
        requires
            self.wf(),
            digest@.len() == DIGEST_LEN,
        ensures
            match r {
                Result::Ok(ix) => {
                    &&& self.index_state() is Some
                    &&& ix.wf()
                    &&& ix@ == stage_spec(
                        self.index_state()->Some_0,
                        Self::staged_entry(digest@, path@),
                    )
                    &&& ix.as_map() == entry_map(self.index_state()->Some_0).insert(
                        path@,
                        Self::staged_entry(digest@, path@),
                    )
                },
                Result::Err(e) => e == RepoError::CorruptIndex && self.index_state() is None,
            },
    {
        let base = match self.read_index() {
            Result::Ok(ix) => ix,
            Result::Err(e) => {
                return Err(e);
            },
        };
        let plen = path.len();
        let e = IndexEntry {
            path,
            digest: copy_bytes(digest),
            mode: MODE_FILE,
            size: 0,
            mtime: 0,
        };
        Ok(base.stage(e))
    }

    /// Persists the index as the dedicated index record.
    pub fn write_index(&mut self, ix: &Index) -> (r: Result<(), RepoError>)
        requires
            old(self).wf(),
        ensures
            final(self).wf(),
            r is Ok,
            final(self).index_record() == Some(enc_index(ix@)),
            final(self).store_map() == old(self).store_map(),
            final(self).store_count() == old(self).store_count(),
            final(self).files_map() == old(self).files_map(),
            final(self).refs_map() == old(self).refs_map(),
    {
        let bytes = encode_index(ix);
        self.index_rec = Some(bytes);
        Ok(())
    }

    /// Stages one working file: reads it, stores its blob, and persists the
    /// updated index.  Fails with `NotFound` when the file does not exist
    /// (nothing changes), and with `CorruptIndex` when the index record is
    /// malformed (the blob is stored by then; the index is untouched).
    pub fn git_add(&mut self, path: Vec<u8>) -> (r: Result<(), RepoError>)
        requires
            old(self).wf(),
        ensures
            final(self).wf(),
            final(self).files_map() == old(self).files_map(),
            final(self).refs_map() == old(self).refs_map(),
            final(self).store_map() == (if old(self).files_map().dom().contains(path@) {
                store_after_write(
                    old(self).store_map(),
                    ObjectV::Blob { content: old(self).files_map()[path@] },
                )
            } else {
                old(self).store_map()
            }),
            ({
                let content = old(self).files_map()[path@];
                let d = object_digest(ObjectV::Blob { content });
                match r {
                    Result::Ok(()) => {
                        &&& old(self).files_map().dom().contains(path@)
                        &&& old(self).index_state() is Some
                        &&& store_extends(old(self).store_map(), final(self).store_map())
                        &&& final(self).store_map().dom().contains(d)
                        &&& (!old(self).store_map().dom().contains(d) ==> final(self).store_map()[d]
                            == encode_obj(canon(ObjectV::Blob { content })))
                        &&& final(self).index_record() == Some(
                            enc_index(
                                stage_spec(
                                    old(self).index_state()->Some_0,
                                    Self::staged_entry(d, path@),
                                ),
                            ),
                        )
                    },
                    Result::Err(e) => (e == RepoError::NotFound && !old(
                        self,
                    ).files_map().dom().contains(path@) && final(self).store_map() == old(
                        self,
                    ).store_map() && final(self).index_record() == old(self).index_record()) || (e
                        == RepoError::CorruptIndex && old(self).files_map().dom().contains(path@)
                        && old(self).index_state() is None && final(self).index_record() == old(
                        self,
                    ).index_record() && store_extends(
                        old(self).store_map(),
                        final(self).store_map(),
                    )),
                }
            }),
    {
        let content = match self.read(&path) {
            Result::Ok(c) => c,
            Result::Err(e) => {
                return Err(e);
            },
        };
        let blob = GitObject::Blob { content };
        let d = self.write_object(&blob);
        let ix = match self.update_index(&d, path) {
            Result::Ok(ix) => ix,
            Result::Err(e) => {
                return Err(e);
            },
        };
        match self.write_index(&ix) {
            Result::Ok(()) => Ok(()),
            Result::Err(e) => Err(e),
        }
    }

    /// Builds a commit object for the given tree, parents, identities and
    /// message, writes it, and returns its digest.  That the tree digest
    /// refers to a stored object is not checked here: the caller writes the
    /// tree first, and a dangling digest surfaces as `NotFound` only when
    /// something later reads it.
    pub fn commit_tree(
        &mut self,
        author: Identity,
        committer: Identity,
        tree: Vec<u8>,
        parents: Vec<Vec<u8>>,
        message: Vec<u8>,
    ) -> (d: Vec<u8>)
        requires
            old(self).wf(),
            tree@.len() == DIGEST_LEN,
            forall|i: int|
                0 <= i < parents.deep_view().len() ==> (#[trigger] parents.deep_view()[i]).len()
                    == DIGEST_LEN,
        ensures
            final(self).wf(),
            ({
                let c = ObjectV::Commit {
                    tree: tree@,
                    parents: parents.deep_view(),
                    author: author@,
                    committer: committer@,
                    message: message@,
                };
                &&& d@ == object_digest(c)
                &&& d@.len() == DIGEST_LEN
                &&& final(self).store_map() == if old(self).store_map().dom().contains(d@) {
                    old(self).store_map()
                } else {
                    old(self).store_map().insert(d@, encode_obj(canon(c)))
                }
                &&& final(self).store_map().dom().contains(d@)
                &&& store_extends(old(self).store_map(), final(self).store_map())
            }),
            final(self).files_map() == old(self).files_map(),
            final(self).refs_map() == old(self).refs_map(),
            final(self).index_record() == old(self).index_record(),
    {
        let obj = GitObject::Commit { tree, parents, author, committer, message };
        self.write_object(&obj)
    }

    /// The name HEAD redirects to, without resolving further: the branch that
    /// `update_ref` should move after a commit.  A detached HEAD is its own
    /// target; a missing HEAD record is `NotFound`.
    pub fn head_ref(&self) -> (r: Result<Vec<u8>, RepoError>)
        requires
            self.wf(),
        ensures
            match r {
                Result::Ok(n) => self.refs_map().dom().contains(head_name()) && (match self.refs_map()[head_name()] {
                    RefValueV::Symbolic(t) => n@ == t,
                    RefValueV::Direct(_) => n@ == head_name(),
                }),
                Result::Err(e) => e == RepoError::NotFound && !self.refs_map().dom().contains(
                    head_name(),
                ),
            },
    {
        let head = head_name_vec();
        match kv_find(&self.refs, &head) {
            Option::None => Err(RepoError::NotFound),
            Option::Some(i) => match &self.refs[i].val {
                RefValue::Symbolic(n) => Ok(copy_bytes(n)),
                RefValue::Direct(_) => Ok(head),
            },
        }
    }

    /// Sets `name` to point straight at `digest`, unconditionally: last
    /// write wins, as this minimal model has no compare-and-swap.
    pub fn update_ref(&mut self, name: Vec<u8>, digest: &Vec<u8>) -> (r: Result<(), RepoError>)
        requires
            old(self).wf(),
            digest@.len() == DIGEST_LEN,
        ensures
            final(self).wf(),
            r is Ok,
            final(self).refs_map() == old(self).refs_map().insert(
                name@,
                RefValueV::Direct(digest@),
            ),
            final(self).store_map() == old(self).store_map(),
            final(self).store_count() == old(self).store_count(),
            final(self).files_map() == old(self).files_map(),
            final(self).index_record() == old(self).index_record(),
    {
        ref_put(&mut self.refs, name, RefValue::Direct(copy_bytes(digest)));
        Ok(())
    }

    /// Sets `name` to redirect to `target`, unconditionally.
    pub fn set_symbolic_ref(&mut self, name: Vec<u8>, target: Vec<u8>) -> (r: Result<
        (),
        RepoError,
    >)
        requires
            old(self).wf(),
        ensures
            final(self).wf(),
            r is Ok,
            final(self).refs_map() == old(self).refs_map().insert(
                name@,
                RefValueV::Symbolic(target@),
            ),
            final(self).store_map() == old(self).store_map(),
            final(self).store_count() == old(self).store_count(),
            final(self).files_map() == old(self).files_map(),
            final(self).index_record() == old(self).index_record(),
    {
        ref_put(&mut self.refs, name, RefValue::Symbolic(target));
        Ok(())
    }

    /// Resolves a ref name through symbolic indirection: a digest when the
    /// chain ends at one; `UnbornBranch` when the queried name itself has no
    /// record yet (the state of the branch `head_ref` hands out in a freshly
    /// initialized repository); `DanglingSymbolicRef` when a symbolic ref in
    /// the chain names a missing record, or the walk runs past the depth
    /// bound (a cycle).
    pub fn read_ref(&self, name: &Vec<u8>) -> (r: Result<Vec<u8>, RepoError>)
        requires
            self.wf(),
        ensures
            match r {
                Result::Ok(d) => resolve_ref(self.refs_map(), name@, SYMREF_LIMIT as nat)
                    == Resolved::Found(d@),
                Result::Err(e) => (e == RepoError::UnbornBranch && resolve_ref(
                    self.refs_map(),
                    name@,
                    SYMREF_LIMIT as nat,
                ) == Resolved::Unborn) || (e == RepoError::DanglingSymbolicRef && resolve_ref(
                    self.refs_map(),
                    name@,
                    SYMREF_LIMIT as nat,
                ) == Resolved::Dangling),
            },
    {
        let mut cur = copy_bytes(name);
        let mut fuel: u64 = SYMREF_LIMIT;
        let mut hops: u64 = 0;
        while fuel > 0
            invariant
                self.wf(),
                fuel + hops == SYMREF_LIMIT,
                resolve_ref(self.refs_map(), name@, SYMREF_LIMIT as nat) == resolve_walk(
                    self.refs_map(),
                    cur@,
                    fuel as nat,
                    hops as nat,
                ),
            decreases fuel,
        {
            match kv_find(&self.refs, &cur) {
                Option::None => {
                    if hops == 0 {
                        return Err(RepoError::UnbornBranch);
                    } else {
                        return Err(RepoError::DanglingSymbolicRef);
                    }
                },
                Option::Some(i) => match &self.refs[i].val {
                    RefValue::Direct(d) => {
                        return Ok(copy_bytes(d));
                    },
                    RefValue::Symbolic(n) => {
                        cur = copy_bytes(n);
                        fuel = fuel - 1;
                        hops = hops + 1;
                    },
                },
            }
        }
        Err(RepoError::DanglingSymbolicRef)
    }

    /// Resolves HEAD's target to a digest: the current position of the
    /// repository, once a first commit exists.
    pub fn read_head(&self) -> (r: Result<Vec<u8>, RepoError>)
        requires
            self.wf(),
        ensures
            match r {
                Result::Ok(d) => self.head_target() is Some && resolve_ref(
                    self.refs_map(),
                    self.head_target()->Some_0,
                    SYMREF_LIMIT as nat,
                ) == Resolved::Found(d@),
                Result::Err(e) => (e == RepoError::NotFound && self.head_target() is None) || (
                self.head_target() is Some && ((e == RepoError::UnbornBranch && resolve_ref(
                    self.refs_map(),
                    self.head_target()->Some_0,
                    SYMREF_LIMIT as nat,
                ) == Resolved::Unborn) || (e == RepoError::DanglingSymbolicRef && resolve_ref(
                    self.refs_map(),
                    self.head_target()->Some_0,
                    SYMREF_LIMIT as nat,
                ) == Resolved::Dangling))),
            },
    {
        let target = match self.head_ref() {
            Result::Ok(n) => n,
            Result::Err(e) => {
                return Err(e);
            },
        };
        self.read_ref(&target)
    }

    /// The name `head_ref` hands out, as a spec-level value.
    pub open spec fn head_target(&self) -> Option<Seq<u8>> {
        if !self.refs_map().dom().contains(head_name()) {
            None
        } else {
            match self.refs_map()[head_name()] {
                RefValueV::Symbolic(t) => Some(t),
                RefValueV::Direct(_) => Some(head_name()),
            }
        }
    }
}

// ---------------------------------------------------------------------------
// Inspection
// ---------------------------------------------------------------------------

/// One tree entry as shown to a reader: the digest as lowercase hex text.
pub struct PrettyEntry {
    pub mode: u64,
    pub kind: ObjKind,
    pub name: Vec<u8>,
    pub digest_hex: Vec<u8>,
}

pub ghost struct PrettyEntryV {
    pub mode: u64,
    pub kind: ObjKind,
    pub name: Seq<u8>,
    pub digest_hex: Seq<u8>,
}

impl View for PrettyEntry {
    type V = PrettyEntryV;

    open spec fn view(&self) -> PrettyEntryV {
        PrettyEntryV {
            mode: self.mode,
            kind: self.kind,
            name: self.name@,
            digest_hex: self.digest_hex@,
        }
    }
}

impl DeepView for PrettyEntry {
    type V = PrettyEntryV;

    open spec fn deep_view(&self) -> PrettyEntryV {
        self.view()
    }
}

/// A stored object as shown to a reader: variant tag and fields, every
/// digest rendered as lowercase hex text.  For inspection only; building
/// further objects consumes the raw `GitObject`.
pub enum PrettyObject {
    Blob { content: Vec<u8> },
    Tree { entries: Vec<PrettyEntry> },
    Commit {
        tree_hex: Vec<u8>,
        parent_hex: Vec<Vec<u8>>,
        author: Identity,
        committer: Identity,
        message: Vec<u8>,
    },
}

pub ghost enum PrettyV {
    Blob { content: Seq<u8> },
    Tree { entries: Seq<PrettyEntryV> },
    Commit {
        tree_hex: Seq<u8>,
        parent_hex: Seq<Seq<u8>>,
        author: IdentityV,
        committer: IdentityV,
        message: Seq<u8>,
    },
}

impl View for PrettyObject {
    type V = PrettyV;

    open spec fn view(&self) -> PrettyV {
        match self {
            PrettyObject::Blob { content } => PrettyV::Blob { content: content@ },
            PrettyObject::Tree { entries } => PrettyV::Tree { entries: entries.deep_view() },
            PrettyObject::Commit { tree_hex, parent_hex, author, committer, message } => PrettyV::Commit {
                tree_hex: tree_hex@,
                parent_hex: parent_hex.deep_view(),
                author: author@,
                committer: committer@,
                message: message@,
            },
        }
    }
}

pub open spec fn pretty_entry_of(e: TreeEntryV) -> PrettyEntryV {
    PrettyEntryV { mode: e.mode, kind: e.kind, name: e.name, digest_hex: hex_of(e.digest) }
}

/// The reader-facing projection of an object.
pub open spec fn pretty_of(o: ObjectV) -> PrettyV {
    match o {
        ObjectV::Blob { content } => PrettyV::Blob { content },
        ObjectV::Tree { entries } => PrettyV::Tree {
            entries: entries.map_values(|e: TreeEntryV| pretty_entry_of(e)),
        },
        ObjectV::Commit { tree, parents, author, committer, message } => PrettyV::Commit {
            tree_hex: hex_of(tree),
            parent_hex: parents.map_values(|d: Seq<u8>| hex_of(d)),
            author,
            committer,
            message,
        },
    }
}

impl Context {
    /// Reads the object at a digest and projects it for a reader, with the
    /// same failures as `read_object`.
    pub fn cat_file_p(&self, digest: &Vec<u8>) -> (r: Result<PrettyObject, RepoError>)
        requires
            self.wf(),
        ensures
            match r {
                Result::Ok(p) => self.store_map().dom().contains(digest@) && (match decode_obj(
                    self.store_map()[digest@],
                ) {
                    Option::Some(o) => p@ == pretty_of(o),
                    Option::None => false,
                }),
                Result::Err(e) => (e == RepoError::NotFound && !self.store_map().dom().contains(
                    digest@,
                )) || (e == RepoError::CorruptObject && self.store_map().dom().contains(digest@)
                    && decode_obj(self.store_map()[digest@]) == None::<ObjectV>),
            },
    {
        let o = match self.read_object(digest) {
            Result::Ok(o) => o,
            Result::Err(e) => {
                return Err(e);
            },
        };
        match o {
            GitObject::Blob { content } => Ok(PrettyObject::Blob { content }),
            GitObject::Tree { entries } => {
                let ghost dv = entries.deep_view();
                let mut pes: Vec<PrettyEntry> = Vec::new();
                let mut i: usize = 0;
                while i < entries.len()
                    invariant
                        dv == entries.deep_view(),
                        dv.len() == entries@.len(),
                        0 <= i <= entries@.len(),
                        pes@.len() == i,
                        forall|j: int|
                            0 <= j < i ==> (#[trigger] pes@[j])@ == pretty_entry_of(dv[j]),
                    decreases entries@.len() - i,
                {
                    proof {
                        lemma_deep_view_index(entries, i as int);
                    }
                    let e = PrettyEntry {
                        mode: entries[i].mode,
                        kind: entries[i].kind,
                        name: copy_bytes(&entries[i].name),
                        digest_hex: hex_encode(&entries[i].digest),
                    };
                    pes.push(e);
                    i += 1;
                }
                proof {
                    assert forall|j: int| 0 <= j < pes.deep_view().len() implies pes.deep_view()[j]
                        == dv.map_values(|e: TreeEntryV| pretty_entry_of(e))[j] by {
                        lemma_deep_view_index(pes, j);
                    }
                    assert(pes.deep_view() =~= dv.map_values(|e: TreeEntryV| pretty_entry_of(e)));
                }
                Ok(PrettyObject::Tree { entries: pes })
            },
            GitObject::Commit { tree, parents, author, committer, message } => {
                let ghost pv = parents.deep_view();
                let tree_hex = hex_encode(&tree);
                let mut phex: Vec<Vec<u8>> = Vec::new();
                let mut i: usize = 0;
                while i < parents.len()
                    invariant
                        pv == parents.deep_view(),
                        pv.len() == parents@.len(),
                        0 <= i <= parents@.len(),
                        phex@.len() == i,
                        forall|j: int| 0 <= j < i ==> (#[trigger] phex@[j])@ == hex_of(pv[j]),
                    decreases parents@.len() - i,
                {
                    proof {
                        lemma_deep_view_index(parents, i as int);
                        lemma_bytes_dv(parents@[i as int]);
                    }
                    let h = hex_encode(&parents[i]);
                    phex.push(h);
                    i += 1;
                }
                proof {
                    assert forall|j: int| 0 <= j < phex.deep_view().len() implies phex.deep_view()[
                        j
                    ] == pv.map_values(|d: Seq<u8>| hex_of(d))[j] by {
                        lemma_deep_view_index(phex, j);
                        lemma_bytes_dv(phex@[j]);
                    }
                    assert(phex.deep_view() =~= pv.map_values(|d: Seq<u8>| hex_of(d)));
                }
                Ok(
                    PrettyObject::Commit {
                        tree_hex,
                        parent_hex: phex,
                        author,
                        committer,
                        message,
                    },
                )
            },
        }
    }
}

/// Sets `k` to `v` in the ref table: last write wins.
fn ref_put(s: &mut Vec<KvPair<RefValue>>, k: Vec<u8>, v: RefValue)
    requires
        keys_unique(old(s).deep_view()),
    ensures
        keys_unique(final(s).deep_view()),
        pairs_map(final(s).deep_view()) == pairs_map(old(s).deep_view()).insert(k@, v@),
{
    let ghost dv = old(s).deep_view();
    let ghost p = KvPairV { key: k@, val: v@ };
    let found = kv_find(s, &k);
    let pair = KvPair { key: k, val: v };
    proof {
        assert(pair@ == p);
    }
    match found {
        Option::Some(i) => {
            proof {
                lemma_pairs_map_update(dv, i as int, p);
            }
            s.remove(i);
            s.insert(i, pair);
            proof {
                assert forall|j: int| 0 <= j < s.deep_view().len() implies s.deep_view()[j]
                    == dv.update(i as int, p)[j] by {
                    lemma_deep_view_index(*s, j);
                    if j != i as int {
                        assert(s@[j] == old(s)@[j]);
                        lemma_deep_view_index(*old(s), j);
                    }
                }
                assert(s.deep_view() =~= dv.update(i as int, p));
            }
        },
        Option::None => {
            proof {
                lemma_pairs_map_prepend(dv, p);
            }
            s.insert(0, pair);
            proof {
                assert forall|j: int| 0 <= j < s.deep_view().len() implies s.deep_view()[j]
                    == (seq![p] + dv)[j] by {
                    lemma_deep_view_index(*s, j);
                    if j > 0 {
                        assert(s@[j] == old(s)@[j - 1]);
                        lemma_deep_view_index(*old(s), j - 1);
                    }
                }
                assert(s.deep_view() =~= seq![p] + dv);
            }
        },
    }
}

} // verus!
