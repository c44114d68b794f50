//! The tree builder: turns the flat staged index into one tree object per
//! directory level, writes every tree into the object store, and returns the
//! root tree's digest.  The result is a function of the staged table alone,
//! so staging order cannot change it.

use vstd::prelude::*;
use crate::bytes::{bytes_eq, copy_bytes, copy_range};
use crate::object::{DIGEST_LEN, MODE_DIR, RepoError, GitObject, ObjKind, TreeEntry, TreeEntryV,
    ObjectV, lemma_deep_view_index};
use crate::codec::{object_digest, encode_obj, canon};
use crate::index::{Index, IndexEntry, IndexEntryV, index_entries_wf, entry_map,
    lemma_index_canonical};
use crate::repo::{Context, store_extends, resolve_ref, Resolved, RefValueV, SYMREF_LIMIT,
    lemma_resolve_found_len, store_after_write, store_after_writes, lemma_store_after_writes_concat,
    lemma_store_after_write_extends, lemma_store_after_writes_all_present};
use crate::object::Identity;

verus! {

/// The byte that separates path components.
pub const SLASH: u8 = 47;

/// How many bytes the first path component has: everything before the first
/// separator, or the whole path when it has none.
pub open spec fn comp_len(p: Seq<u8>) -> int
    decreases p.len(),
{
    if p.len() == 0 {
        0
    } else if p[0] == SLASH {
        0
    } else {
        1 + comp_len(p.skip(1))
    }
}

/// The first path component.
pub open spec fn first_comp(p: Seq<u8>) -> Seq<u8> {
    p.take(comp_len(p))
}

/// The path with a leading component and its separator removed; paths no
/// longer than the component strip to nothing.
pub open spec fn strip(p: Seq<u8>, c: Seq<u8>) -> Seq<u8> {
    if p.len() > c.len() {
        p.skip(c.len() as int + 1)
    } else {
        Seq::empty()
    }
}

pub proof fn lemma_comp_len(p: Seq<u8>)
    ensures
        0 <= comp_len(p) <= p.len(),
        comp_len(p) < p.len() ==> p[comp_len(p)] == SLASH,
        forall|j: int| 0 <= j < comp_len(p) ==> p[j] != SLASH,
    decreases p.len(),
{
    if p.len() > 0 && p[0] != SLASH {
        lemma_comp_len(p.skip(1));
        assert forall|j: int| 0 <= j < comp_len(p) implies p[j] != SLASH by {
            if j > 0 {
                assert(p.skip(1)[j - 1] == p[j]);
            }
        }
        if comp_len(p) < p.len() {
            assert(p.skip(1)[comp_len(p) - 1] == p[comp_len(p)]);
        }
    }
}

proof fn lemma_comp_len_prefix(p: Seq<u8>, i: int)
    requires
        0 <= i <= p.len(),
        forall|j: int| 0 <= j < i ==> p[j] != SLASH,
    ensures
        comp_len(p) == i + comp_len(p.skip(i)),
    decreases i,
{
    if i > 0 {
        assert(p[0] != SLASH);
        assert forall|j: int| 0 <= j < i - 1 implies p.skip(1)[j] != SLASH by {
            assert(p.skip(1)[j] == p[j + 1]);
        }
        lemma_comp_len_prefix(p.skip(1), i - 1);
        assert(p.skip(1).skip(i - 1) =~= p.skip(i));
    } else {
        assert(p.skip(0) =~= p);
    }
}

/// Computes the first component's length.
fn comp_len_exec(p: &Vec<u8>) -> (r: usize)
    ensures
        r == comp_len(p@),
{
    let n = p.len();
    let mut i: usize = 0;
    while i < n && p[i] != SLASH
        invariant
            0 <= i <= n,
            n == p@.len(),
            forall|j: int| 0 <= j < i ==> p@[j] != SLASH,
        decreases n - i,
    {
        i += 1;
    }
    proof {
        lemma_comp_len_prefix(p@, i as int);
        if i < n {
            assert(p@.skip(i as int)[0] == p@[i as int]);
        } else {
            assert(p@.skip(i as int).len() == 0);
        }
    }
    i
}

/// How many leading items share the first component `c`.
pub open spec fn group_count(items: Seq<IndexEntryV>, c: Seq<u8>) -> nat
    decreases items.len(),
{
    if items.len() > 0 && first_comp(items[0].path) == c {
        (1 + group_count(items.skip(1), c)) as nat
    } else {
        0
    }
}

proof fn lemma_group_count_le(items: Seq<IndexEntryV>, c: Seq<u8>)
    ensures
        group_count(items, c) <= items.len(),
    decreases items.len(),
{
    if items.len() > 0 && first_comp(items[0].path) == c {
        lemma_group_count_le(items.skip(1), c);
    }
}

/// The total path length, the termination measure of the builder.
pub open spec fn sum_len(items: Seq<IndexEntryV>) -> nat
    decreases items.len(),
{
    if items.len() == 0 {
        0
    } else {
        (items[0].path.len() + sum_len(items.skip(1))) as nat
    }
}

proof fn lemma_sum_len_split(s: Seq<IndexEntryV>, n: int)
    requires
        0 <= n <= s.len(),
    ensures
        sum_len(s) == sum_len(s.take(n)) + sum_len(s.skip(n)),
    decreases n,
{
    if n == 0 {
        assert(s.take(0) =~= Seq::<IndexEntryV>::empty());
        assert(s.skip(0) =~= s);
    } else {
        assert(s.take(n)[0] == s[0]);
        assert(s.take(n).skip(1) =~= s.skip(1).take(n - 1));
        lemma_sum_len_split(s.skip(1), n - 1);
        assert(s.skip(1).skip(n - 1) =~= s.skip(n));
    }
}

proof fn lemma_sum_len_le(a: Seq<IndexEntryV>, b: Seq<IndexEntryV>)
    requires
        a.len() == b.len(),
        forall|i: int| 0 <= i < a.len() ==> (#[trigger] a[i]).path.len() <= b[i].path.len(),
    ensures
        sum_len(a) <= sum_len(b),
    decreases a.len(),
{
    if a.len() > 0 {
        assert forall|i: int| 0 <= i < a.skip(1).len() implies (#[trigger] a.skip(1)[i]).path.len()
            <= b.skip(1)[i].path.len() by {
            assert(a.skip(1)[i] == a[i + 1] && b.skip(1)[i] == b[i + 1]);
        }
        lemma_sum_len_le(a.skip(1), b.skip(1));
        assert(a[0].path.len() <= b[0].path.len());
    }
}

/// Items with the level's prefix stripped off their paths.
pub open spec fn strip_pref(items: Seq<IndexEntryV>, c: Seq<u8>) -> Seq<IndexEntryV> {
    items.map_values(
        |e: IndexEntryV|
            IndexEntryV {
                path: strip(e.path, c),
                digest: e.digest,
                mode: e.mode,
                size: e.size,
                mtime: e.mtime,
            },
    )
}

proof fn lemma_strip_shorter(g: Seq<IndexEntryV>, c: Seq<u8>)
    requires
        g.len() > 0,
        g[0].path.len() > c.len(),
    ensures
        sum_len(strip_pref(g, c)) < sum_len(g),
{
    let t = strip_pref(g, c);
    assert(t.len() == g.len());
    assert forall|i: int| 0 <= i < t.len() implies (#[trigger] t[i]).path.len()
        <= g[i].path.len() by {
        assert(t[i].path == strip(g[i].path, c));
    }
    assert(t[0].path == strip(g[0].path, c));
    assert(t[0].path.len() < g[0].path.len());
    assert forall|i: int| 0 <= i < t.skip(1).len() implies (#[trigger] t.skip(1)[i]).path.len()
        <= g.skip(1)[i].path.len() by {
        assert(t.skip(1)[i] == t[i + 1] && g.skip(1)[i] == g[i + 1]);
    }
    lemma_sum_len_le(t.skip(1), g.skip(1));
    assert(sum_len(t) == t[0].path.len() + sum_len(t.skip(1)));
    assert(sum_len(g) == g[0].path.len() + sum_len(g.skip(1)));
}

/// One directory level's tree entries: leading items whose paths have no
/// separator become file entries; runs of items sharing a first component
/// become one directory entry each, whose digest is the digest of the tree
/// built from the stripped run.
pub open spec fn build_entries(items: Seq<IndexEntryV>) -> Seq<TreeEntryV>
    decreases sum_len(items) + items.len(),
        via build_entries_decreases
{
    if items.len() == 0 {
        Seq::empty()
    } else {
        let p = items[0].path;
        let c = first_comp(p);
        if comp_len(p) == p.len() {
            seq![
                TreeEntryV {
                    mode: items[0].mode,
                    name: p,
                    digest: items[0].digest,
                    kind: ObjKind::Blob,
                },
            ] + build_entries(items.skip(1))
        } else {
            let n = group_count(items, c) as int;
            let sub = strip_pref(items.take(n), c);
            let d = object_digest(ObjectV::Tree { entries: build_entries(sub) });
            seq![TreeEntryV { mode: MODE_DIR, name: c, digest: d, kind: ObjKind::Tree }]
                + build_entries(items.skip(n))
        }
    }
}

#[via_fn]
proof fn build_entries_decreases(items: Seq<IndexEntryV>) {
    if items.len() > 0 {
        let p = items[0].path;
        let c = first_comp(p);
        lemma_comp_len(p);
        if comp_len(p) == p.len() {
            assert(sum_len(items) == p.len() + sum_len(items.skip(1)));
        } else {
            let n = group_count(items, c) as int;
            lemma_group_count_le(items, c);
            assert(first_comp(items[0].path) == c);
            assert(n >= 1);
            lemma_sum_len_split(items, n);
            assert(c.len() == comp_len(p));
            assert(items.take(n)[0] == items[0]);
            assert(p.len() > c.len());
            lemma_strip_shorter(items.take(n), c);
        }
    }
}

/// The root tree an index builds.
pub open spec fn tree_root(items: Seq<IndexEntryV>) -> ObjectV {
    ObjectV::Tree { entries: build_entries(items) }
}

/// The digest `write_tree` returns for an index.
pub open spec fn tree_root_digest(items: Seq<IndexEntryV>) -> Seq<u8> {
    object_digest(tree_root(items))
}

/// The subtree objects the builder constructs below one level, in the order
/// they are written: depth-first, a directory's children before its own
/// tree.  The level's root itself is not listed; `write_tree` writes it
/// last.
pub open spec fn built_trees(items: Seq<IndexEntryV>) -> Seq<ObjectV>
    decreases sum_len(items) + items.len(),
        via built_trees_decreases
{
    if items.len() == 0 {
        Seq::empty()
    } else {
        let p = items[0].path;
        let c = first_comp(p);
        if comp_len(p) == p.len() {
            built_trees(items.skip(1))
        } else {
            let n = group_count(items, c) as int;
            let sub = strip_pref(items.take(n), c);
            (built_trees(sub) + seq![ObjectV::Tree { entries: build_entries(sub) }])
                + built_trees(items.skip(n))
        }
    }
}

#[via_fn]
proof fn built_trees_decreases(items: Seq<IndexEntryV>) {
    if items.len() > 0 {
        let p = items[0].path;
        let c = first_comp(p);
        lemma_comp_len(p);
        if comp_len(p) == p.len() {
            assert(sum_len(items) == p.len() + sum_len(items.skip(1)));
        } else {
            let n = group_count(items, c) as int;
            lemma_group_count_le(items, c);
            assert(first_comp(items[0].path) == c);
            assert(n >= 1);
            lemma_sum_len_split(items, n);
            assert(c.len() == comp_len(p));
            assert(items.take(n)[0] == items[0]);
            assert(p.len() > c.len());
            lemma_strip_shorter(items.take(n), c);
        }
    }
}

/// Staging the same files in any order yields the same index, hence the same
/// root tree digest: the tree built from an index depends only on the table
/// of staged paths, digests and metadata, never on staging order.
pub proof fn lemma_write_tree_order_independent(a: Seq<IndexEntryV>, b: Seq<IndexEntryV>)
    requires
        index_entries_wf(a),
        index_entries_wf(b),
        entry_map(a) == entry_map(b),
    ensures
        tree_root_digest(a) == tree_root_digest(b),
{
    lemma_index_canonical(a, b);
}

/// Whether item `j`'s first path component is exactly `c`.
fn comp_matches(items: &Vec<IndexEntry>, j: usize, c: &Vec<u8>) -> (b: bool)
    requires
        j < items@.len(),
    ensures
        b == (first_comp(items.deep_view()[j as int].path) == c@),
{
    proof {
        lemma_deep_view_index(*items, j as int);
        lemma_comp_len(items@[j as int]@.path);
    }
    let cl = comp_len_exec(&items[j].path);
    if cl != c.len() {
        proof {
            assert(first_comp(items.deep_view()[j as int].path).len() == cl);
        }
        return false;
    }
    let prefix = copy_range(&items[j].path, 0, cl);
    proof {
        assert(prefix@ =~= first_comp(items.deep_view()[j as int].path));
    }
    bytes_eq(&prefix, c)
}

/// The store-fold equation of one directory step: writing the stripped
/// group's subtrees, then the group's own tree, then the rest of the level,
/// is writing the whole level's tree list.
proof fn lemma_fold_dir_step(
    s0: Map<Seq<u8>, Seq<u8>>,
    s1: Map<Seq<u8>, Seq<u8>>,
    s2: Map<Seq<u8>, Seq<u8>>,
    s3: Map<Seq<u8>, Seq<u8>>,
    rest: Seq<IndexEntryV>,
    n: int,
    cv: Seq<u8>,
)
    requires
        rest.len() > 0,
        cv == first_comp(rest[0].path),
        comp_len(rest[0].path) != rest[0].path.len(),
        n == group_count(rest, cv),
        s1 == store_after_writes(s0, built_trees(strip_pref(rest.take(n), cv))),
        s2 == store_after_write(
            s1,
            ObjectV::Tree { entries: build_entries(strip_pref(rest.take(n), cv)) },
        ),
        s3 == store_after_writes(s2, built_trees(rest.skip(n))),
    ensures
        s3 == store_after_writes(s0, built_trees(rest)),
{
    let a = built_trees(strip_pref(rest.take(n), cv));
    let tobj = ObjectV::Tree { entries: build_entries(strip_pref(rest.take(n), cv)) };
    let b = built_trees(rest.skip(n));
    assert(built_trees(rest) == (a + seq![tobj]) + b);
    assert(seq![tobj][0] == tobj);
    assert(seq![tobj].skip(1) =~= Seq::<ObjectV>::empty());
    assert(store_after_writes(store_after_write(s1, tobj), Seq::<ObjectV>::empty())
        == store_after_write(s1, tobj));
    assert(store_after_writes(s1, seq![tobj]) == s2);
    lemma_store_after_writes_concat(s0, a, seq![tobj]);
    lemma_store_after_writes_concat(s0, a + seq![tobj], b);
}

impl Context {
    /// Builds the tree entries for one directory level, writing every
    /// subtree object on the way.  `items` are the staged entries relative
    /// to this level, `start` the first one still to process.
    #[verifier::loop_isolation(false)]
    #[verifier::rlimit(100)]
    fn build_level(&mut self, items: &Vec<IndexEntry>, start: usize) -> (r: Vec<TreeEntry>)
        requires
            old(self).wf(),
            start <= items@.len(),
        ensures
            final(self).wf(),
            r.deep_view() == build_entries(items.deep_view().skip(start as int)),
            final(self).store_map() == store_after_writes(
                old(self).store_map(),
                built_trees(items.deep_view().skip(start as int)),
            ),
            store_extends(old(self).store_map(), final(self).store_map()),
            final(self).files_map() == old(self).files_map(),
            final(self).refs_map() == old(self).refs_map(),
            final(self).index_record() == old(self).index_record(),
        decreases sum_len(items.deep_view().skip(start as int)) + (items@.len() - start),
    {
        let ghost rest = items.deep_view().skip(start as int);
        if start == items.len() {
            let r: Vec<TreeEntry> = Vec::new();
            proof {
                assert(rest.len() == 0);
                assert(r.deep_view() =~= build_entries(rest));
                assert(built_trees(rest) == Seq::<ObjectV>::empty());
                assert(store_after_writes(old(self).store_map(), Seq::<ObjectV>::empty())
                    == old(self).store_map());
            }
            return r;
        }
        proof {
            lemma_deep_view_index(*items, start as int);
            assert(rest[0] == items@[start as int]@);
            lemma_comp_len(rest[0].path);
        }
        let cl = comp_len_exec(&items[start].path);
        if cl == items[start].path.len() {
            let e = TreeEntry {
                mode: items[start].mode,
                name: copy_bytes(&items[start].path),
                digest: copy_bytes(&items[start].digest),
                kind: ObjKind::Blob,
            };
            proof {
                assert(sum_len(rest) == rest[0].path.len() + sum_len(rest.skip(1)));
                assert(items.deep_view().skip(start as int + 1) =~= rest.skip(1));
            }
            let tail = self.build_level(items, start + 1);
            let mut r = tail;
            r.insert(0, e);
            proof {
                assert(built_trees(rest) == built_trees(rest.skip(1)));
                let want = seq![e@] + build_entries(rest.skip(1));
                assert forall|j: int| 0 <= j < r.deep_view().len() implies r.deep_view()[j]
                    == want[j] by {
                    lemma_deep_view_index(r, j);
                    if j > 0 {
                        lemma_deep_view_index(tail, j - 1);
                        assert(r@[j] == tail@[j - 1]);
                    }
                }
                assert(r.deep_view() =~= want);
            }
            r
        } else {
            let c = copy_range(&items[start].path, 0, cl);
            let ghost cv = first_comp(rest[0].path);
            proof {
                assert(c@ =~= cv);
            }
            let mut j: usize = start;
            while j < items.len() && comp_matches(items, j, &c)
                invariant
                    start <= j <= items@.len(),
                    group_count(rest, cv) == (j - start) + group_count(
                        items.deep_view().skip(j as int),
                        cv,
                    ),
                decreases items@.len() - j,
            {
                proof {
                    let cur = items.deep_view().skip(j as int);
                    assert(cur[0] == items.deep_view()[j as int]);
                    assert(first_comp(cur[0].path) == cv);
                    assert(cur.skip(1) =~= items.deep_view().skip(j as int + 1));
                    assert(group_count(cur, cv) == 1 + group_count(
                        items.deep_view().skip(j as int + 1),
                        cv,
                    ));
                }
                j += 1;
            }
            proof {
                let cur = items.deep_view().skip(j as int);
                if j < items@.len() {
                    assert(cur[0] == items.deep_view()[j as int]);
                    assert(first_comp(cur[0].path) != cv);
                    assert(group_count(cur, cv) == 0);
                } else {
                    assert(cur.len() == 0);
                    assert(group_count(cur, cv) == 0);
                }
                assert(group_count(rest, cv) == j - start);
                assert(group_count(rest, cv) >= 1);
            }
            let ghost n = (j - start) as int;
            let ghost group = rest.take(n);
            let mut sub: Vec<IndexEntry> = Vec::new();
            let mut k: usize = start;
            while k < j
                invariant
                    start <= k <= j <= items@.len(),
                    sub@.len() == k - start,
                    forall|t: int|
                        0 <= t < sub@.len() ==> (#[trigger] sub@[t])@ == strip_pref(group, cv)[t],
                decreases j - k,
            {
                proof {
                    lemma_deep_view_index(*items, k as int);
                    assert(group[k - start] == rest[k - start]);
                    assert(rest[k - start] == items.deep_view()[k as int]);
                }
                let plen = items[k].path.len();
                let stripped: Vec<u8> = if plen > cl {
                    copy_range(&items[k].path, cl + 1, plen)
                } else {
                    Vec::new()
                };
                proof {
                    assert(stripped@ =~= strip(items.deep_view()[k as int].path, cv));
                }
                let e = IndexEntry {
                    path: stripped,
                    digest: copy_bytes(&items[k].digest),
                    mode: items[k].mode,
                    size: items[k].size,
                    mtime: items[k].mtime,
                };
                sub.push(e);
                k += 1;
            }
            proof {
                assert forall|t: int| 0 <= t < sub.deep_view().len() implies sub.deep_view()[t]
                    == strip_pref(group, cv)[t] by {
                    lemma_deep_view_index(sub, t);
                }
                assert(sub.deep_view() =~= strip_pref(group, cv));
                assert(sub.deep_view().skip(0) =~= sub.deep_view());
                lemma_sum_len_split(rest, n);
                assert(group[0] == rest[0]);
                assert(rest[0].path.len() > cv.len());
                lemma_strip_shorter(group, cv);
                assert(items.deep_view().skip(start as int).skip(n) =~= items.deep_view().skip(
                    j as int,
                ));
            }
            let ghost s0 = self.store_map();
            let sub_entries = self.build_level(&sub, 0);
            let ghost s1 = self.store_map();
            let tree_obj = GitObject::Tree { entries: sub_entries };
            let d = self.write_object(&tree_obj);
            let ghost s2 = self.store_map();
            let e = TreeEntry { mode: MODE_DIR, name: c, digest: d, kind: ObjKind::Tree };
            let tail = self.build_level(items, j);
            proof {
                assert(first_comp(rest[0].path) == cv);
                assert(s1 == store_after_writes(s0, built_trees(strip_pref(rest.take(n), cv))));
                lemma_fold_dir_step(s0, s1, s2, self.store_map(), rest, n, cv);
            }
            let mut r = tail;
            r.insert(0, e);
            proof {
                let want = seq![e@] + build_entries(rest.skip(n));
                assert forall|t: int| 0 <= t < r.deep_view().len() implies r.deep_view()[t]
                    == want[t] by {
                    lemma_deep_view_index(r, t);
                    if t > 0 {
                        lemma_deep_view_index(tail, t - 1);
                        assert(r@[t] == tail@[t - 1]);
                    }
                }
                assert(r.deep_view() =~= want);
                assert(e@.digest == object_digest(
                    ObjectV::Tree { entries: build_entries(strip_pref(rest.take(n), cv)) },
                ));
            }
            r
        }
    }

    /// Builds the tree-object graph for the staged index, writes every
    /// constructed tree into the object store (depth first, the root last),
    /// and returns the root tree's digest.  For a fixed staged table the
    /// digest does not depend on staging order, and an empty index yields
    /// the (valid, addressable) empty tree.  Fails only when the index
    /// record is corrupt, in which case nothing changes.
    pub fn write_tree(&mut self) -> (r: Result<Vec<u8>, RepoError>)
        requires
            old(self).wf(),
        ensures
            final(self).wf(),
            store_extends(old(self).store_map(), final(self).store_map()),
            final(self).files_map() == old(self).files_map(),
            final(self).refs_map() == old(self).refs_map(),
            final(self).index_record() == old(self).index_record(),
            match r {
                Result::Ok(d) => {
                    &&& old(self).index_state() is Some
                    &&& ({
                        let items = old(self).index_state()->Some_0;
                        &&& d@ == tree_root_digest(items)
                        &&& d@.len() == DIGEST_LEN
                        &&& final(self).store_map() == store_after_write(
                            store_after_writes(old(self).store_map(), built_trees(items)),
                            tree_root(items),
                        )
                        &&& (!store_after_writes(
                            old(self).store_map(),
                            built_trees(items),
                        ).dom().contains(d@) ==> final(self).store_map()[d@] == encode_obj(
                            canon(tree_root(items)),
                        ))
                        &&& final(self).store_map().dom().contains(d@)
                        &&& forall|i: int|
                            0 <= i < built_trees(items).len()
                                ==> final(self).store_map().dom().contains(
                                object_digest(#[trigger] built_trees(items)[i]),
                            )
                    })
                },
                Result::Err(e) => {
                    &&& e == RepoError::CorruptIndex
                    &&& old(self).index_state() is None
                    &&& final(self).store_map() == old(self).store_map()
                },
            },
    {
        let ix = match self.read_index() {
            Result::Ok(ix) => ix,
            Result::Err(e) => {
                return Err(e);
            },
        };
        let items = ix.entries();
        let entries = self.build_level(items, 0);
        let ghost mid = self.store_map();
        proof {
            assert(items.deep_view().skip(0) =~= ix@);
        }
        let tree_obj = GitObject::Tree { entries };
        let d = self.write_object(&tree_obj);
        proof {
            lemma_store_after_writes_all_present(old(self).store_map(), built_trees(ix@));
            lemma_store_after_write_extends(mid, tree_obj@);
            assert forall|i: int| 0 <= i < built_trees(ix@).len() implies self.store_map(
            ).dom().contains(object_digest(#[trigger] built_trees(ix@)[i])) by {
                assert(mid.dom().contains(object_digest(built_trees(ix@)[i])));
            }
        }
        Ok(d)
    }

    /// The parent list of the next commit: the digest HEAD resolves to, or
    /// none on an unborn branch.
    pub open spec fn next_parents(&self) -> Seq<Seq<u8>> {
        match resolve_ref(self.refs_map(), self.head_target()->Some_0, SYMREF_LIMIT as nat) {
            Resolved::Found(p) => seq![p],
            _ => Seq::empty(),
        }
    }

    /// One whole commit step: builds and writes the tree for the staged
    /// index, builds and writes a commit whose parent is the commit HEAD
    /// resolves to (none on an unborn branch), and advances the branch HEAD
    /// redirects to.  HEAD itself stays symbolic; only its branch moves.
    pub fn git_commit(
        &mut self,
        author: Identity,
        committer: Identity,
        message: Vec<u8>,
    ) -> (r: Result<Vec<u8>, RepoError>)
        requires
            old(self).wf(),
        ensures
            final(self).wf(),
            final(self).files_map() == old(self).files_map(),
            final(self).index_record() == old(self).index_record(),
            store_extends(old(self).store_map(), final(self).store_map()),
            match r {
                Result::Ok(d) => {
                    &&& old(self).index_state() is Some
                    &&& old(self).head_target() is Some
                    &&& ({
                        let items = old(self).index_state()->Some_0;
                        let target = old(self).head_target()->Some_0;
                        let res = resolve_ref(
                            old(self).refs_map(),
                            target,
                            SYMREF_LIMIT as nat,
                        );
                        let cv = ObjectV::Commit {
                            tree: tree_root_digest(items),
                            parents: old(self).next_parents(),
                            author: author@,
                            committer: committer@,
                            message: message@,
                        };
                        &&& (res is Found || res is Unborn)
                        &&& d@ == object_digest(cv)
                        &&& d@.len() == DIGEST_LEN
                        &&& final(self).store_map() == store_after_write(
                            store_after_write(
                                store_after_writes(old(self).store_map(), built_trees(items)),
                                tree_root(items),
                            ),
                            cv,
                        )
                        &&& (!store_after_write(
                            store_after_writes(old(self).store_map(), built_trees(items)),
                            tree_root(items),
                        ).dom().contains(d@) ==> final(self).store_map()[d@] == encode_obj(
                            canon(cv),
                        ))
                        &&& final(self).store_map().dom().contains(d@)
                        &&& final(self).store_map().dom().contains(tree_root_digest(items))
                        &&& forall|i: int|
                            0 <= i < built_trees(items).len()
                                ==> final(self).store_map().dom().contains(
                                object_digest(#[trigger] built_trees(items)[i]),
                            )
                        &&& final(self).refs_map() == old(self).refs_map().insert(
                            target,
                            RefValueV::Direct(d@),
                        )
                    })
                },
                Result::Err(e) => final(self).refs_map() == old(self).refs_map() && ((e
                    == RepoError::CorruptIndex && old(self).index_state() is None) || (e
                    == RepoError::NotFound && old(self).head_target() is None) || (e
                    == RepoError::DanglingSymbolicRef && old(self).head_target() is Some
                    && resolve_ref(
                    old(self).refs_map(),
                    old(self).head_target()->Some_0,
                    SYMREF_LIMIT as nat,
                ) is Dangling)),
            },
    {
        let tree_d = match self.write_tree() {
            Result::Ok(d) => d,
            Result::Err(e) => {
                return Err(e);
            },
        };
        let mut parents: Vec<Vec<u8>> = Vec::new();
        match self.read_head() {
            Result::Ok(p) => {
                proof {
                    assert(self.refs_map() == old(self).refs_map());
                    assert(resolve_ref(
                        self.refs_map(),
                        self.head_target()->Some_0,
                        SYMREF_LIMIT as nat,
                    ) == Resolved::Found(p@));
                    crate::repo::lemma_wf_refs(self);
                    lemma_resolve_found_len(
                        self.refs_map(),
                        self.head_target()->Some_0,
                        SYMREF_LIMIT as nat,
                    );
                    crate::repo::lemma_bytes_dv(p);
                }
                parents.push(p);
                proof {
                    lemma_deep_view_index(parents, 0);
                    assert(parents.deep_view() =~= old(self).next_parents());
                }
            },
            Result::Err(RepoError::UnbornBranch) => {
                proof {
                    assert(parents.deep_view() =~= old(self).next_parents());
                }
            },
            Result::Err(e) => {
                return Err(e);
            },
        }
        proof {
            assert forall|i: int| 0 <= i < parents.deep_view().len() implies (
            #[trigger] parents.deep_view()[i]).len() == DIGEST_LEN by {
            }
        }
        let ghost tdv = tree_d@;
        let ghost pv = parents.deep_view();
        let ghost av = author@;
        let ghost cmv = committer@;
        let ghost msgv = message@;
        let ghost mid2 = self.store_map();
        let d = self.commit_tree(author, committer, tree_d, parents, message);
        proof {
            let c = ObjectV::Commit {
                tree: tdv,
                parents: pv,
                author: av,
                committer: cmv,
                message: msgv,
            };
            assert(self.store_map() == store_after_write(mid2, c));
            lemma_store_after_write_extends(mid2, c);
            let items = old(self).index_state()->Some_0;
            assert forall|i: int| 0 <= i < built_trees(items).len() implies self.store_map(
            ).dom().contains(object_digest(#[trigger] built_trees(items)[i])) by {
                assert(mid2.dom().contains(object_digest(built_trees(items)[i])));
            }
        }
        let target = match self.head_ref() {
            Result::Ok(t) => t,
            Result::Err(e) => {
                return Err(e);
            },
        };
        match self.update_ref(target, &d) {
            Result::Ok(()) => Ok(d),
            Result::Err(e) => Err(e),
        }
    }
}

} // verus!
