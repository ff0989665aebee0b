use sha1::Digest;
use minigit::checkout::build_tree;
use minigit::object::{get_sha, to_hex, Contributor, Object, ObjectReference};
use minigit::parser::{parse_contributor, parse_string_until, take_until};
use minigit::store::{decode_stored, prepare_write};
use minigit::tree_order::{name_less, sort_entries};

fn contributor(name: &str, ts: u64) -> Contributor {
    Contributor {
        name: name.to_string(),
        email: format!("{}@example.com", name.to_lowercase()),
        timestamp: ts,
        timezone: "+0200".to_string(),
    }
}

fn sample_commit() -> Object {
    Object::Commit {
        tree: "4b825dc642cb6eb9a060e54bf8d69288fbee4904".to_string(),
        parents: vec![
            "ce013625030ba8dba906f756967f9e9ca394464a".to_string(),
            "e69de29bb2d1d6434b8b29ae775ad8c2e48c5391".to_string(),
        ],
        author: contributor("Ada Lovelace", 1700000000),
        committer: contributor("Grace", 1700000123),
        message: "First line\n\nbody with\nnewlines\n".to_string(),
    }
}

fn payload_of(encoded: &[u8]) -> &[u8] {
    let z = encoded.iter().position(|&b| b == 0).unwrap();
    &encoded[z + 1..]
}

#[test]
fn blob_round_trip() {
    let o = Object::Blob(b"hello\n".to_vec());
    let (_, enc) = o.encode();
    assert_eq!(enc, b"blob 6\0hello\n".to_vec());
    match Object::decode_blob(payload_of(&enc)).unwrap() {
        Object::Blob(b) => assert_eq!(b, b"hello\n".to_vec()),
        _ => panic!("not a blob"),
    }
}

#[test]
fn tree_round_trip() {
    let refs = vec![
        ObjectReference { mode: 100644, name: "a.txt".to_string(), hash: [7u8; 20] },
        ObjectReference { mode: 40000, name: "dir".to_string(), hash: [0xabu8; 20] },
    ];
    let o = Object::Tree(refs);
    let (_, enc) = o.encode();
    let back = Object::decode_tree(payload_of(&enc)).unwrap();
    match back {
        Object::Tree(rs) => {
            assert_eq!(rs.len(), 2);
            assert_eq!(rs[0].mode, 100644);
            assert_eq!(rs[0].name, "a.txt");
            assert_eq!(rs[0].hash, [7u8; 20]);
            assert_eq!(rs[1].mode, 40000);
            assert_eq!(rs[1].name, "dir");
            assert_eq!(rs[1].hash, [0xabu8; 20]);
        }
        _ => panic!("not a tree"),
    }
}

#[test]
fn commit_round_trip() {
    let o = sample_commit();
    let (_, enc) = o.encode();
    match Object::decode(&enc).unwrap() {
        Object::Commit { tree, parents, author, committer, message } => {
            assert_eq!(tree, "4b825dc642cb6eb9a060e54bf8d69288fbee4904");
            assert_eq!(parents.len(), 2);
            assert_eq!(parents[1], "e69de29bb2d1d6434b8b29ae775ad8c2e48c5391");
            assert_eq!(author.name, "Ada Lovelace");
            assert_eq!(author.email, "ada lovelace@example.com");
            assert_eq!(author.timestamp, 1700000000);
            assert_eq!(author.timezone, "+0200");
            assert_eq!(committer.name, "Grace");
            assert_eq!(committer.timestamp, 1700000123);
            assert_eq!(message, "First line\n\nbody with\nnewlines\n");
        }
        _ => panic!("not a commit"),
    }
}

#[test]
fn commit_without_parents_round_trip() {
    let o = Object::Commit {
        tree: "t".to_string(),
        parents: vec![],
        author: contributor("A", 0),
        committer: contributor("B", 18446744073709551615),
        message: String::new(),
    };
    let (_, enc) = o.encode();
    match Object::decode(&enc).unwrap() {
        Object::Commit { parents, committer, message, .. } => {
            assert!(parents.is_empty());
            assert_eq!(committer.timestamp, u64::MAX);
            assert_eq!(message, "");
        }
        _ => panic!("not a commit"),
    }
}

#[test]
fn encoded_commit_layout() {
    let o = Object::Commit {
        tree: "abc".to_string(),
        parents: vec!["def".to_string()],
        author: contributor("A", 5),
        committer: contributor("B", 6),
        message: "m".to_string(),
    };
    let (_, enc) = o.encode();
    let payload = "tree abc\nparent def\nauthor A <a@example.com> 5 +0200\ncommitter B <b@example.com> 6 +0200\n\nm";
    let expected = format!("commit {}\0{}", payload.len(), payload);
    assert_eq!(enc, expected.into_bytes());
}

#[test]
fn known_blob_hashes() {
    let (h, _) = Object::Blob(b"hello\n".to_vec()).encode();
    assert_eq!(to_hex(&h), "ce013625030ba8dba906f756967f9e9ca394464a");
    let (e, _) = Object::Blob(Vec::new()).encode();
    assert_eq!(to_hex(&e), "e69de29bb2d1d6434b8b29ae775ad8c2e48c5391");
}

#[test]
fn hash_is_sha1_of_encoding_and_deterministic() {
    let o = sample_commit();
    let (h1, enc1) = o.encode();
    let (h2, enc2) = sample_commit().encode();
    assert_eq!(h1, h2);
    assert_eq!(enc1, enc2);
    assert_eq!(h1, get_sha(&enc1));
    let direct: [u8; 20] = sha1::Sha1::digest(&enc1).into();
    assert_eq!(h1, direct);
}

#[test]
fn get_sha_of_abc() {
    assert_eq!(to_hex(&get_sha(b"abc")), "a9993e364706816aba3e25717850c26c9cd0d89d");
}

#[test]
fn to_hex_pads_each_byte() {
    let mut h = [0u8; 20];
    h[0] = 0x0f;
    h[19] = 0xa0;
    assert_eq!(to_hex(&h), "0f000000000000000000000000000000000000a0");
}

#[test]
fn tree_rendering_modes() {
    let o = Object::Tree(vec![
        ObjectReference { mode: 100644, name: "file.txt".to_string(), hash: [0x11u8; 20] },
        ObjectReference { mode: 40000, name: "src".to_string(), hash: [0x22u8; 20] },
    ]);
    let text = o.content().unwrap();
    let expected = format!(
        "100644 blob {}    file.txt\n040000 tree {}    src\n",
        "11".repeat(20),
        "22".repeat(20)
    );
    assert_eq!(text, expected);
}

#[test]
fn blob_content_must_be_text() {
    assert_eq!(Object::Blob(b"plain".to_vec()).content().unwrap(), "plain");
    assert!(Object::Blob(vec![0xff, 0xfe]).content().is_err());
}

#[test]
fn commit_content_matches_payload() {
    let o = sample_commit();
    let (_, enc) = o.encode();
    let text = o.content().unwrap();
    assert_eq!(text.as_bytes(), payload_of(&enc));
}

#[test]
fn decode_rejects_unknown_type() {
    let err = Object::decode(b"tag 3\0abc").unwrap_err();
    assert_eq!(err.message(), "Unsupported object type: tag");
    let err2 = Object::decode(b"blobx 1\0a").unwrap_err();
    assert_eq!(err2.message(), "Unsupported object type: blobx");
}

#[test]
fn decode_requires_nul() {
    assert!(Object::decode(b"blob 3 abc").is_err());
}

#[test]
fn decode_tree_truncated_hash_fails() {
    let mut p = b"100644 a\0".to_vec();
    p.extend_from_slice(&[1u8; 19]);
    assert!(Object::decode_tree(&p).is_err());
}

#[test]
fn decode_tree_bad_mode_fails() {
    let mut p = b"10x644 a\0".to_vec();
    p.extend_from_slice(&[1u8; 20]);
    assert!(Object::decode_tree(&p).is_err());
}

#[test]
fn decode_commit_missing_author_fails() {
    assert!(Object::decode_commit(b"tree abc\nparent x\ncommitter B <b> 1 +0000\n\nm").is_err());
}

#[test]
fn decode_empty_tree() {
    match Object::decode(b"tree 0\0").unwrap() {
        Object::Tree(rs) => assert!(rs.is_empty()),
        _ => panic!("not a tree"),
    }
}

#[test]
fn contributor_parsing() {
    let (n, c) = parse_contributor(b"Jane Doe <jane@x.org> 1234567890 -0500\nrest").unwrap();
    assert_eq!(n, 39);
    assert_eq!(c.name, "Jane Doe");
    assert_eq!(c.email, "jane@x.org");
    assert_eq!(c.timestamp, 1234567890);
    assert_eq!(c.timezone, "-0500");
}

#[test]
fn contributor_bad_timestamp() {
    assert!(parse_contributor(b"J <j> 12a4 +0000\n").is_err());
    assert!(parse_contributor(b"J <j> 99999999999999999999 +0000\n").is_err());
}

#[test]
fn take_until_and_parse_string_until() {
    assert_eq!(take_until(b"abc def", b' '), b"abc".to_vec());
    assert_eq!(take_until(b"abcdef", b' '), b"abcdef".to_vec());
    assert_eq!(take_until(b"", b' '), Vec::<u8>::new());
    assert_eq!(parse_string_until(b"name\0rest", 0).unwrap(), "name");
    assert!(parse_string_until(&[0xff, b' '], b' ').is_err());
}

#[test]
fn stored_object_round_trip() {
    let o = sample_commit();
    let e1 = prepare_write(&o).unwrap();
    let e2 = prepare_write(&o).unwrap();
    assert_eq!(e1.data, e2.data);
    let hex = to_hex(&e1.hash);
    assert_eq!(format!("{}{}", e1.dir, e1.file), hex);
    assert_eq!(e1.dir.len(), 2);
    let back = decode_stored(&e1.data).unwrap();
    assert_eq!(back.encode().0, e1.hash);
}

#[test]
fn decode_stored_rejects_garbage() {
    assert!(decode_stored(b"not zlib at all").is_err());
}

#[test]
fn checkout_layout() {
    let blob_a = Object::Blob(b"A".to_vec());
    let blob_b = Object::Blob(b"B".to_vec());
    let (ha, _) = blob_a.encode();
    let (hb, _) = blob_b.encode();
    let sub = Object::Tree(vec![ObjectReference { mode: 100644, name: "b.txt".to_string(), hash: hb }]);
    let (hs, _) = sub.encode();
    let root = Object::Tree(vec![
        ObjectReference { mode: 100644, name: "a.txt".to_string(), hash: ha },
        ObjectReference { mode: 40000, name: "sub".to_string(), hash: hs },
    ]);
    let objects = vec![(to_hex(&ha), blob_a), (to_hex(&hb), blob_b), (to_hex(&hs), sub)];
    let files = build_tree(&objects, &root, vec!["out".to_string()], 10).unwrap();
    assert_eq!(files.len(), 2);
    assert_eq!(files[0].0, vec!["out".to_string(), "a.txt".to_string()]);
    assert_eq!(files[0].1, b"A".to_vec());
    assert_eq!(files[1].0, vec!["out".to_string(), "sub".to_string(), "b.txt".to_string()]);
    assert_eq!(files[1].1, b"B".to_vec());
    assert!(build_tree(&objects, &root, vec![], 1).is_err());
    let only_a = vec![(to_hex(&ha), Object::Blob(b"A".to_vec()))];
    assert!(build_tree(&only_a, &root, vec![], 10).is_err());
}

#[test]
fn entries_sorted_by_name_bytes() {
    let mk = |n: &str, b: u8| ObjectReference { mode: 100644, name: n.to_string(), hash: [b; 20] };
    let sorted = sort_entries(vec![mk("b", 1), mk("a.txt", 2), mk("B", 3), mk("a", 4), mk("ab", 5)]);
    let names: Vec<&str> = sorted.iter().map(|r| r.name.as_str()).collect();
    assert_eq!(names, vec!["B", "a", "a.txt", "ab", "b"]);
    assert_eq!(sorted[0].hash, [3u8; 20]);
    assert!(sort_entries(Vec::new()).is_empty());
}

#[test]
fn byte_order_comparison() {
    assert!(name_less(b"a", b"b"));
    assert!(name_less(b"ab", b"abc"));
    assert!(!name_less(b"abc", b"ab"));
    assert!(!name_less(b"same", b"same"));
    assert!(name_less(b"Z", b"a"));
}
