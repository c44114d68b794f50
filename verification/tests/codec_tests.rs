use mingit::codec::{decode_object, encode_object};
use mingit::object::{GitObject, Identity, ObjKind, TreeEntry, MODE_DIR, MODE_FILE};
use sha1::Digest;

fn ident(name: &[u8], email: &[u8], ts: u64) -> Identity {
    Identity { name: name.to_vec(), email: email.to_vec(), timestamp: ts }
}

#[test]
fn blob_round_trip() {
    let o = GitObject::Blob { content: b"hello world".to_vec() };
    let bytes = encode_object(&o);
    assert_eq!(decode_object(&bytes), Some(o));
}

#[test]
fn empty_blob_round_trip() {
    let o = GitObject::Blob { content: Vec::new() };
    let bytes = encode_object(&o);
    assert_eq!(decode_object(&bytes), Some(o));
}

#[test]
fn tree_round_trip_sorted() {
    let o = GitObject::Tree {
        entries: vec![
            TreeEntry {
                mode: MODE_FILE,
                name: b"a.txt".to_vec(),
                digest: vec![1u8; 20],
                kind: ObjKind::Blob,
            },
            TreeEntry {
                mode: MODE_DIR,
                name: b"dir".to_vec(),
                digest: vec![2u8; 20],
                kind: ObjKind::Tree,
            },
        ],
    };
    let bytes = encode_object(&o);
    assert_eq!(decode_object(&bytes), Some(o));
}

#[test]
fn tree_encoding_sorts_entries() {
    let unsorted = GitObject::Tree {
        entries: vec![
            TreeEntry {
                mode: MODE_FILE,
                name: b"b.txt".to_vec(),
                digest: vec![2u8; 20],
                kind: ObjKind::Blob,
            },
            TreeEntry {
                mode: MODE_FILE,
                name: b"a.txt".to_vec(),
                digest: vec![1u8; 20],
                kind: ObjKind::Blob,
            },
        ],
    };
    let sorted = GitObject::Tree {
        entries: vec![
            TreeEntry {
                mode: MODE_FILE,
                name: b"a.txt".to_vec(),
                digest: vec![1u8; 20],
                kind: ObjKind::Blob,
            },
            TreeEntry {
                mode: MODE_FILE,
                name: b"b.txt".to_vec(),
                digest: vec![2u8; 20],
                kind: ObjKind::Blob,
            },
        ],
    };
    assert_eq!(encode_object(&unsorted), encode_object(&sorted));
    assert_eq!(decode_object(&encode_object(&unsorted)), Some(sorted));
}

#[test]
fn commit_round_trip() {
    let o = GitObject::Commit {
        tree: vec![9u8; 20],
        parents: vec![vec![3u8; 20], vec![4u8; 20]],
        author: ident(b"ada", b"ada@example.org", 1111),
        committer: ident(b"bob", b"bob@example.org", 2222),
        message: b"first snapshot".to_vec(),
    };
    let bytes = encode_object(&o);
    assert_eq!(decode_object(&bytes), Some(o));
}

#[test]
fn garbage_does_not_decode() {
    assert_eq!(decode_object(&b"junk".to_vec()), None);
    let mut bytes = encode_object(&GitObject::Blob { content: b"abc".to_vec() });
    bytes.pop();
    assert_eq!(decode_object(&bytes), None);
}

#[test]
fn digest_matches_outside_hash() {
    let content = b"content under test".to_vec();
    let ctx = mingit::repo::Context::new();
    let d = ctx.hash_object(&content);
    let bytes = encode_object(&GitObject::Blob { content });
    let expected = sha1::Sha1::digest(bytes.as_slice()).to_vec();
    assert_eq!(d, expected);
}
