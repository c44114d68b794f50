//! The object model: blobs, trees and commits, their ghost views, their
//! well-formedness, and the error kinds of the repository engine.

use vstd::prelude::*;
use crate::bytes::bytes_le;

verus! {

/// Length in bytes of an object digest.
pub const DIGEST_LEN: usize = 20;

/// Mode recorded for a staged regular file.
pub const MODE_FILE: u64 = 0o100644;

/// Mode recorded for a directory entry inside a tree.
pub const MODE_DIR: u64 = 0o40000;

/// The error kinds of the repository engine.
#[derive(Clone, Copy, PartialEq, Eq, Structural, Debug)]
pub enum RepoError {
    /// No record exists for the requested digest, path or ref name.
    NotFound,
    /// Stored object bytes do not decode to a recognized variant.
    CorruptObject,
    /// The stored index record is malformed.
    CorruptIndex,
    /// The ref chain ends at a name with no record yet.
    UnbornBranch,
    /// The ref chain is cyclic or crosses the resolution bound.
    DanglingSymbolicRef,
    /// The storage substrate failed to persist a record.
    IoError,
}

/// What a tree entry points at: file content or a subdirectory.
#[derive(Clone, Copy, PartialEq, Eq, Structural, Debug)]
pub enum ObjKind {
    Blob,
    Tree,
}

/// One entry of a tree object: one name inside one directory level.
#[derive(Clone, PartialEq, Eq, Debug)]
pub struct TreeEntry {
    pub mode: u64,
    pub name: Vec<u8>,
    pub digest: Vec<u8>,
    pub kind: ObjKind,
}

pub ghost struct TreeEntryV {
    pub mode: u64,
    pub name: Seq<u8>,
    pub digest: Seq<u8>,
    pub kind: ObjKind,
}

impl View for TreeEntry {
    type V = TreeEntryV;

    open spec fn view(&self) -> TreeEntryV {
        TreeEntryV { mode: self.mode, name: self.name@, digest: self.digest@, kind: self.kind }
    }
}

impl DeepView for TreeEntry {
    type V = TreeEntryV;

    open spec fn deep_view(&self) -> TreeEntryV {
        self.view()
    }
}

/// Who made a commit, and when.
#[derive(Clone, PartialEq, Eq, Debug)]
pub struct Identity {
    pub name: Vec<u8>,
    pub email: Vec<u8>,
    pub timestamp: u64,
}

pub ghost struct IdentityV {
    pub name: Seq<u8>,
    pub email: Seq<u8>,
    pub timestamp: u64,
}

impl View for Identity {
    type V = IdentityV;

    open spec fn view(&self) -> IdentityV {
        IdentityV { name: self.name@, email: self.email@, timestamp: self.timestamp }
    }
}

impl DeepView for Identity {
    type V = IdentityV;

    open spec fn deep_view(&self) -> IdentityV {
        self.view()
    }
}

/// A stored object: opaque file content, one directory level, or a commit.
#[derive(Clone, PartialEq, Eq, Debug)]
pub enum GitObject {
    Blob { content: Vec<u8> },
    Tree { entries: Vec<TreeEntry> },
    Commit {
        tree: Vec<u8>,
        parents: Vec<Vec<u8>>,
        author: Identity,
        committer: Identity,
        message: Vec<u8>,
    },
}

pub ghost enum ObjectV {
    Blob { content: Seq<u8> },
    Tree { entries: Seq<TreeEntryV> },
    Commit {
        tree: Seq<u8>,
        parents: Seq<Seq<u8>>,
        author: IdentityV,
        committer: IdentityV,
        message: Seq<u8>,
    },
}

impl View for GitObject {
    type V = ObjectV;

    open spec fn view(&self) -> ObjectV {
        match self {
            GitObject::Blob { content } => ObjectV::Blob { content: content@ },
            GitObject::Tree { entries } => ObjectV::Tree { entries: entries.deep_view() },
            GitObject::Commit { tree, parents, author, committer, message } => ObjectV::Commit {
                tree: tree@,
                parents: parents.deep_view(),
                author: author@,
                committer: committer@,
                message: message@,
            },
        }
    }
}

/// Indexing the deep view of a vector is indexing the vector.
pub broadcast proof fn lemma_deep_view_index<T: DeepView>(v: Vec<T>, i: int)
    requires
        0 <= i < v@.len(),
    ensures
        #[trigger] v.deep_view()[i] == v@[i].deep_view(),
{
}

/// A tree entry the codec can reproduce: a digest of the fixed length and a
/// name whose length fits the length field.
pub open spec fn wf_entry(e: TreeEntryV) -> bool {
    &&& e.digest.len() == DIGEST_LEN
    &&& e.name.len() <= u64::MAX
}

pub open spec fn wf_ident(i: IdentityV) -> bool {
    &&& i.name.len() <= u64::MAX
    &&& i.email.len() <= u64::MAX
}

/// An object the codec can reproduce: every digest has the fixed length and
/// every variable-length field fits its length field.
pub open spec fn wf_object(o: ObjectV) -> bool {
    match o {
        ObjectV::Blob { content } => content.len() <= u64::MAX,
        ObjectV::Tree { entries } => {
            &&& entries.len() <= u64::MAX
            &&& forall|i: int| 0 <= i < entries.len() ==> wf_entry(#[trigger] entries[i])
        },
        ObjectV::Commit { tree, parents, author, committer, message } => {
            &&& tree.len() == DIGEST_LEN
            &&& parents.len() <= u64::MAX
            &&& forall|i: int| 0 <= i < parents.len() ==> (#[trigger] parents[i]).len()
                == DIGEST_LEN
            &&& wf_ident(author)
            &&& wf_ident(committer)
            &&& message.len() <= u64::MAX
        },
    }
}

/// Entries stand in lexicographic name order.
pub open spec fn entries_sorted(es: Seq<TreeEntryV>) -> bool {
    forall|i: int, j: int| 0 <= i < j < es.len() ==> bytes_le(es[i].name, es[j].name)
}

/// A tree whose entries are already in canonical order; other variants have
/// no order to keep.
pub open spec fn obj_sorted(o: ObjectV) -> bool {
    match o {
        ObjectV::Tree { entries } => entries_sorted(entries),
        _ => true,
    }
}

} // verus!
