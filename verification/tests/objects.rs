use minigit::errors::GitError;
use minigit::object::{Commit, Object, TreeEntry};
use minigit::objparse::parse_canonical;
use minigit::store::{decode_loose, encode_loose, get_object, object_path, sort_tree_entries};

fn blob(data: &[u8]) -> Object {
    Object::Blob(data.to_vec())
}

fn entry(mode: &[u8], name: &[u8], hash: &[u8]) -> TreeEntry {
    TreeEntry {
        mode: mode.to_vec(),
        name: name.to_vec(),
        hash: hash.to_vec(),
    }
}

const H1: &[u8] = b"aaaaaaaaaaaaaaaaaaaaaaaaaaaaaaaaaaaaaaaa";
const H2: &[u8] = b"bbbbbbbbbbbbbbbbbbbbbbbbbbbbbbbbbbbbbbbb";

#[test]
fn test_blob_hash() {
    let o = blob(b"hello\n");
    assert_eq!(&o.hash(), b"ce013625030ba8dba906f756967f9e9ca394464a");
}

#[test]
fn test_empty_tree() {
    let o = Object::Tree(Vec::new());
    assert_eq!(&o.canonical_bytes(), b"tree 0\x00");
    assert_eq!(&o.hash(), b"4b825dc642cb6eb9a060e54bf8d69288fbee4904");
}

#[test]
fn test_tree_round_trip() {
    let o = Object::Tree(vec![entry(b"100644", b"a", H1), entry(b"40000", b"b", H2)]);
    let bytes = o.canonical_bytes();
    let mut expected = b"tree 57\x00100644 a\x00".to_vec();
    expected.extend(std::iter::repeat(0xaau8).take(20));
    expected.extend(b"40000 b\x00");
    expected.extend(std::iter::repeat(0xbbu8).take(20));
    assert_eq!(bytes, expected);
    let parsed = parse_canonical(&bytes).unwrap();
    assert_eq!(parsed, o);
}

#[test]
fn test_tree_single_one_byte_name() {
    let o = Object::Tree(vec![entry(b"100644", b"a", H1)]);
    let bytes = o.canonical_bytes();
    let parsed = parse_canonical(&bytes).unwrap();
    assert_eq!(parsed, o);
}

#[test]
fn test_blob_round_trip() {
    let o = blob(b"some file contents\n");
    let parsed = parse_canonical(&o.canonical_bytes()).unwrap();
    assert_eq!(parsed, o);
}

#[test]
fn test_commit_zero_parents() {
    let c = Commit {
        tree_hash: H1.to_vec(),
        parents: Vec::new(),
        author: b"A U Thor <a@example.com> 5 +0000".to_vec(),
        committer: b"C O Mitter <c@example.com> 5 +0000".to_vec(),
        message: b"subject\n\nbody".to_vec(),
    };
    let o = Object::Commit(c);
    let parsed = parse_canonical(&o.canonical_bytes()).unwrap();
    assert_eq!(parsed, o);
}

#[test]
fn test_commit_two_parents() {
    let c = Commit {
        tree_hash: H1.to_vec(),
        parents: vec![H2.to_vec(), H1.to_vec()],
        author: b"A U Thor <a@example.com> 5 +0000".to_vec(),
        committer: b"C O Mitter <c@example.com> 5 +0000".to_vec(),
        message: b"merge".to_vec(),
    };
    let o = Object::Commit(c);
    let bytes = o.canonical_bytes();
    let mut expected = Vec::new();
    expected.extend(b"tree ");
    expected.extend(H1);
    expected.push(b'\n');
    expected.extend(b"parent ");
    expected.extend(H2);
    expected.push(b'\n');
    expected.extend(b"parent ");
    expected.extend(H1);
    expected.push(b'\n');
    expected.extend(b"author A U Thor <a@example.com> 5 +0000\n");
    expected.extend(b"committer C O Mitter <c@example.com> 5 +0000\n\n");
    expected.extend(b"merge\n");
    let mut framed = format!("commit {}\x00", expected.len()).into_bytes();
    framed.extend(&expected);
    assert_eq!(bytes, framed);
    let parsed = parse_canonical(&bytes).unwrap();
    assert_eq!(parsed, o);
}

#[test]
fn test_new_commit_fields() {
    let h1 = std::str::from_utf8(H1).unwrap();
    let h2 = std::str::from_utf8(H2).unwrap();
    let o = Object::new_commit(h1, Some(h2), "a message");
    match &o {
        Object::Commit(c) => {
            assert_eq!(c.tree_hash, H1.to_vec());
            assert_eq!(c.parents, vec![H2.to_vec()]);
            assert_eq!(c.message, b"a message".to_vec());
            assert!(c.author.starts_with(b"Author Name <author@example.com> "));
            assert!(c.author.ends_with(b" +0000"));
            assert!(c
                .committer
                .starts_with(b"Committer Name <committer@example.com> "));
        }
        _ => panic!("not a commit"),
    }
    let parsed = parse_canonical(&o.canonical_bytes()).unwrap();
    assert_eq!(parsed, o);
}

#[test]
fn test_tag_round_trip() {
    let o = Object::Tag(b"object stuff\ntype commit\n".to_vec());
    let parsed = parse_canonical(&o.canonical_bytes()).unwrap();
    assert_eq!(parsed, o);
}

#[test]
fn test_parse_canonical_rejects() {
    assert_eq!(parse_canonical(b"junk"), Err(GitError::InvalidObject));
    assert_eq!(parse_canonical(b"blob 4\x00abc"), Err(GitError::InvalidObject));
    assert_eq!(parse_canonical(b"blob 04\x00abcd"), Err(GitError::InvalidObject));
    assert_eq!(parse_canonical(b"frog 3\x00abc"), Err(GitError::InvalidObject));
    assert_eq!(parse_canonical(b"tree 3\x00abc"), Err(GitError::InvalidObject));
}

#[test]
fn test_object_path() {
    let path = object_path(b"ce013625030ba8dba906f756967f9e9ca394464a");
    assert_eq!(
        &path,
        b".git/objects/ce/013625030ba8dba906f756967f9e9ca394464a"
    );
}

#[test]
fn test_content_addressing_same_bytes_same_path() {
    let o1 = blob(b"hello\n");
    let o2 = blob(b"hello\n");
    assert_eq!(o1.hash(), o2.hash());
    assert_eq!(object_path(&o1.hash()), object_path(&o2.hash()));
}

#[test]
fn test_loose_round_trip() {
    let o = blob(b"stored bytes");
    let compressed = encode_loose(&o);
    let back = decode_loose(&compressed).unwrap();
    assert_eq!(back, o);
    let fetched = get_object(&compressed, &o.hash()).unwrap();
    assert_eq!(fetched, o);
}

#[test]
fn test_get_object_checks_identity() {
    let o = blob(b"stored bytes");
    let compressed = encode_loose(&o);
    let wrong = b"0000000000000000000000000000000000000000";
    assert_eq!(get_object(&compressed, wrong), Err(GitError::CorruptObject));
    assert_eq!(decode_loose(b"not zlib at all"), Err(GitError::CorruptObject));
}

#[test]
fn test_sort_tree_entries_orders_names() {
    let input = vec![
        entry(b"100644", b"zebra", H1),
        entry(b"100644", b"apple", H2),
        entry(b"100644", b"mango", H1),
    ];
    let sorted = sort_tree_entries(input);
    let names: Vec<&[u8]> = sorted.iter().map(|e| e.name.as_slice()).collect();
    assert_eq!(names, vec![b"apple" as &[u8], b"mango", b"zebra"]);
}

#[test]
fn test_sort_tree_entries_directory_tie_break() {
    // A subtree sorts as though its name ended with a slash, so the
    // plain file `a` comes before the subtree `a`, and `a.x` sits
    // between them ('.' < '/' < 'x').
    let input = vec![
        entry(b"40000", b"a", H1),
        entry(b"100644", b"a.x", H2),
        entry(b"100644", b"a", H2),
    ];
    let sorted = sort_tree_entries(input);
    assert_eq!(sorted.len(), 3);
    assert_eq!(sorted[0].name, b"a".to_vec());
    assert_eq!(sorted[0].mode, b"100644".to_vec());
    assert_eq!(sorted[1].name, b"a.x".to_vec());
    assert_eq!(sorted[2].name, b"a".to_vec());
    assert_eq!(sorted[2].mode, b"40000".to_vec());
}

#[test]
fn test_sort_tree_entries_drops_repeated_key() {
    let input = vec![
        entry(b"100644", b"a", H1),
        entry(b"100644", b"a", H2),
    ];
    let sorted = sort_tree_entries(input);
    assert_eq!(sorted.len(), 1);
    assert_eq!(sorted[0].hash, H1.to_vec());
}
