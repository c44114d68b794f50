use mingit::index::{Index, IndexEntry};
use mingit::object::{GitObject, Identity, ObjKind, RepoError, MODE_DIR, MODE_FILE};
use mingit::repo::{Context, PrettyObject};

fn ident(ts: u64) -> Identity {
    Identity { name: b"ada".to_vec(), email: b"ada@example.org".to_vec(), timestamp: ts }
}

#[test]
fn digest_stable_across_calls() {
    let c = Context::new();
    let content = b"same bytes".to_vec();
    assert_eq!(c.hash_object(&content), c.hash_object(&content));
    let other = Context::new();
    assert_eq!(c.hash_object(&content), other.hash_object(&content));
}

#[test]
fn store_deduplicates_identical_blobs() {
    let mut c = Context::new();
    let blob = GitObject::Blob { content: b"dup".to_vec() };
    let d1 = c.write_object(&blob);
    assert_eq!(c.object_count(), 1);
    let d2 = c.write_object(&blob);
    assert_eq!(d1, d2);
    assert_eq!(c.object_count(), 1);
    assert!(c.has_object(&d1));
}

#[test]
fn read_unknown_digest_is_not_found() {
    let c = Context::new();
    assert_eq!(c.read_object(&vec![0u8; 20]), Err(RepoError::NotFound));
}

#[test]
fn corrupted_record_is_detected() {
    let mut c = Context::new();
    let blob = GitObject::Blob { content: b"precious".to_vec() };
    let d = c.write_object(&blob);
    c.write_raw(d.clone(), b"tampered".to_vec());
    assert_eq!(c.read_object(&d), Err(RepoError::CorruptObject));
}

#[test]
fn fresh_repository_head_is_unborn() {
    let c = Context::new();
    assert_eq!(c.read_head(), Err(RepoError::UnbornBranch));
    let branch = c.head_ref().unwrap();
    assert_eq!(branch, b"refs/heads/master".to_vec());
    assert_eq!(c.read_ref(&branch), Err(RepoError::UnbornBranch));
}

#[test]
fn symbolic_cycle_is_dangling() {
    let mut c = Context::new();
    c.set_symbolic_ref(b"refs/heads/master".to_vec(), b"HEAD".to_vec()).unwrap();
    assert_eq!(c.read_ref(&b"HEAD".to_vec()), Err(RepoError::DanglingSymbolicRef));
    assert_eq!(c.read_head(), Err(RepoError::DanglingSymbolicRef));
}

#[test]
fn broken_intermediate_chain_is_dangling() {
    let mut c = Context::new();
    c.set_symbolic_ref(b"refs/heads/master".to_vec(), b"refs/heads/other".to_vec()).unwrap();
    assert_eq!(c.read_head(), Err(RepoError::DanglingSymbolicRef));
    assert_eq!(c.read_ref(&b"HEAD".to_vec()), Err(RepoError::DanglingSymbolicRef));
    assert_eq!(c.read_ref(&b"refs/heads/other".to_vec()), Err(RepoError::UnbornBranch));
}

#[test]
fn index_record_round_trip() {
    let mut c = Context::new();
    let ix = Index::new();
    let ix = ix.stage(IndexEntry {
        path: b"b.txt".to_vec(),
        digest: vec![5u8; 20],
        mode: MODE_FILE,
        size: 3,
        mtime: 77,
    });
    let ix = ix.stage(IndexEntry {
        path: b"a.txt".to_vec(),
        digest: vec![6u8; 20],
        mode: MODE_FILE,
        size: 4,
        mtime: 78,
    });
    c.write_index(&ix).unwrap();
    let back = c.read_index().unwrap();
    assert_eq!(back.entries(), ix.entries());
    assert_eq!(back.entries()[0].path, b"a.txt".to_vec());
    assert_eq!(back.entries()[1].path, b"b.txt".to_vec());
}

#[test]
fn staging_replaces_same_path() {
    let ix = Index::new();
    let ix = ix.stage(IndexEntry {
        path: b"a.txt".to_vec(),
        digest: vec![1u8; 20],
        mode: MODE_FILE,
        size: 0,
        mtime: 0,
    });
    let ix = ix.stage(IndexEntry {
        path: b"a.txt".to_vec(),
        digest: vec![2u8; 20],
        mode: MODE_FILE,
        size: 0,
        mtime: 0,
    });
    assert_eq!(ix.entries().len(), 1);
    assert_eq!(ix.entries()[0].digest, vec![2u8; 20]);
}

#[test]
fn write_tree_is_staging_order_independent() {
    let mut c1 = Context::new();
    c1.write(b"a.txt".to_vec(), b"alpha".to_vec()).unwrap();
    c1.write(b"dir/b.txt".to_vec(), b"beta".to_vec()).unwrap();
    c1.git_add(b"a.txt".to_vec()).unwrap();
    c1.git_add(b"dir/b.txt".to_vec()).unwrap();
    let t1 = c1.write_tree().unwrap();

    let mut c2 = Context::new();
    c2.write(b"a.txt".to_vec(), b"alpha".to_vec()).unwrap();
    c2.write(b"dir/b.txt".to_vec(), b"beta".to_vec()).unwrap();
    c2.git_add(b"dir/b.txt".to_vec()).unwrap();
    c2.git_add(b"a.txt".to_vec()).unwrap();
    let t2 = c2.write_tree().unwrap();

    assert_eq!(t1, t2);
}

#[test]
fn empty_index_yields_addressable_empty_tree() {
    let mut c = Context::new();
    let t = c.write_tree().unwrap();
    match c.read_object(&t).unwrap() {
        GitObject::Tree { entries } => assert!(entries.is_empty()),
        other => panic!("expected a tree, got {:?}", other),
    }
}

#[test]
fn nested_directories_build_subtrees() {
    let mut c = Context::new();
    c.write(b"top.txt".to_vec(), b"t".to_vec()).unwrap();
    c.write(b"dir/a.txt".to_vec(), b"a".to_vec()).unwrap();
    c.write(b"dir/sub/b.txt".to_vec(), b"b".to_vec()).unwrap();
    c.git_add(b"top.txt".to_vec()).unwrap();
    c.git_add(b"dir/a.txt".to_vec()).unwrap();
    c.git_add(b"dir/sub/b.txt".to_vec()).unwrap();
    let root = c.write_tree().unwrap();
    let root_obj = match c.read_object(&root).unwrap() {
        GitObject::Tree { entries } => entries,
        other => panic!("expected a tree, got {:?}", other),
    };
    assert_eq!(root_obj.len(), 2);
    assert_eq!(root_obj[0].name, b"dir".to_vec());
    assert_eq!(root_obj[0].kind, ObjKind::Tree);
    assert_eq!(root_obj[0].mode, MODE_DIR);
    assert_eq!(root_obj[1].name, b"top.txt".to_vec());
    assert_eq!(root_obj[1].kind, ObjKind::Blob);
    let dir_entries = match c.read_object(&root_obj[0].digest).unwrap() {
        GitObject::Tree { entries } => entries,
        other => panic!("expected a tree, got {:?}", other),
    };
    assert_eq!(dir_entries.len(), 2);
    assert_eq!(dir_entries[0].name, b"a.txt".to_vec());
    assert_eq!(dir_entries[0].kind, ObjKind::Blob);
    assert_eq!(dir_entries[1].name, b"sub".to_vec());
    assert_eq!(dir_entries[1].kind, ObjKind::Tree);
}

#[test]
fn end_to_end_first_commit() {
    let mut c = Context::new();
    c.write(b"a.txt".to_vec(), b"hello".to_vec()).unwrap();
    c.git_add(b"a.txt".to_vec()).unwrap();
    let d1 = c.hash_object(&b"hello".to_vec());
    let t1 = c.write_tree().unwrap();
    match c.cat_file_p(&t1).unwrap() {
        PrettyObject::Tree { entries } => {
            assert_eq!(entries.len(), 1);
            assert_eq!(entries[0].mode, MODE_FILE);
            assert_eq!(entries[0].mode, 0o100644);
            assert_eq!(entries[0].name, b"a.txt".to_vec());
            assert_eq!(entries[0].digest_hex, hex::encode(&d1).into_bytes());
        },
        _ => panic!("expected a tree projection"),
    }
    let c1 = c.commit_tree(ident(1), ident(1), t1.clone(), vec![], b"init".to_vec());
    match c.read_object(&c1).unwrap() {
        GitObject::Commit { tree, parents, message, .. } => {
            assert_eq!(tree, t1);
            assert!(parents.is_empty());
            assert_eq!(message, b"init".to_vec());
        },
        other => panic!("expected a commit, got {:?}", other),
    }
    let branch = c.head_ref().unwrap();
    assert_eq!(branch, b"refs/heads/master".to_vec());
    c.update_ref(branch, &c1).unwrap();
    assert_eq!(c.read_ref(&b"HEAD".to_vec()).unwrap(), c1);
    assert_eq!(c.read_head().unwrap(), c1);
}

#[test]
fn end_to_end_second_commit_links_parent() {
    let mut c = Context::new();
    c.write(b"a.txt".to_vec(), b"one".to_vec()).unwrap();
    c.git_add(b"a.txt".to_vec()).unwrap();
    let t1 = c.write_tree().unwrap();
    let c1 = c.commit_tree(ident(1), ident(1), t1, vec![], b"init".to_vec());
    let branch = c.head_ref().unwrap();
    c.update_ref(branch, &c1).unwrap();

    c.write(b"b.txt".to_vec(), b"two".to_vec()).unwrap();
    c.git_add(b"b.txt".to_vec()).unwrap();
    let t2 = c.write_tree().unwrap();
    let c2 = c.commit_tree(ident(2), ident(2), t2, vec![c1.clone()], b"more".to_vec());
    let branch = c.head_ref().unwrap();
    c.update_ref(branch, &c2).unwrap();

    match c.read_object(&c2).unwrap() {
        GitObject::Commit { parents, .. } => assert_eq!(parents, vec![c1]),
        other => panic!("expected a commit, got {:?}", other),
    }
    assert_eq!(c.read_head().unwrap(), c2);
}

#[test]
fn git_commit_advances_branch_and_links_parent() {
    let mut c = Context::new();
    c.write(b"a.txt".to_vec(), b"one".to_vec()).unwrap();
    c.git_add(b"a.txt".to_vec()).unwrap();
    let c1 = c.git_commit(ident(1), ident(1), b"first".to_vec()).unwrap();
    assert_eq!(c.read_head().unwrap(), c1);
    match c.read_object(&c1).unwrap() {
        GitObject::Commit { parents, .. } => assert!(parents.is_empty()),
        other => panic!("expected a commit, got {:?}", other),
    }
    c.write(b"b.txt".to_vec(), b"two".to_vec()).unwrap();
    c.git_add(b"b.txt".to_vec()).unwrap();
    let c2 = c.git_commit(ident(2), ident(2), b"second".to_vec()).unwrap();
    assert_eq!(c.read_head().unwrap(), c2);
    match c.read_object(&c2).unwrap() {
        GitObject::Commit { parents, .. } => assert_eq!(parents, vec![c1]),
        other => panic!("expected a commit, got {:?}", other),
    }
}

#[test]
fn git_add_missing_file_is_not_found() {
    let mut c = Context::new();
    assert_eq!(c.git_add(b"absent".to_vec()), Err(RepoError::NotFound));
}

#[test]
fn working_files_read_back() {
    let mut c = Context::new();
    c.write(b"f".to_vec(), b"body".to_vec()).unwrap();
    assert_eq!(c.read(&b"f".to_vec()).unwrap(), b"body".to_vec());
    assert_eq!(c.read(&b"g".to_vec()), Err(RepoError::NotFound));
}

#[test]
fn cat_file_p_shows_commit_parents_in_hex() {
    let mut c = Context::new();
    let t = c.write_tree().unwrap();
    let c1 = c.commit_tree(ident(1), ident(1), t.clone(), vec![], b"a".to_vec());
    let c2 = c.commit_tree(ident(2), ident(2), t.clone(), vec![c1.clone()], b"b".to_vec());
    match c.cat_file_p(&c2).unwrap() {
        PrettyObject::Commit { tree_hex, parent_hex, message, .. } => {
            assert_eq!(tree_hex, hex::encode(&t).into_bytes());
            assert_eq!(parent_hex, vec![hex::encode(&c1).into_bytes()]);
            assert_eq!(message, b"b".to_vec());
        },
        _ => panic!("expected a commit projection"),
    }
}
