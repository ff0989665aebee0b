use std::io::Write;

use flate2::write::ZlibEncoder;
use flate2::Compression;
use minigit::object::{to_hex, Contributor, Object, ObjectReference};
use minigit::pack::{apply_delta, parse_pack, read_var_len_integer_be_with_increment, read_var_len_integer_le};
use minigit::remote::{encode_pkt, fetch_request_body, parse_refs, parse_upload_pack_response, pkt_message};

fn zlib(data: &[u8]) -> Vec<u8> {
    let mut e = ZlibEncoder::new(Vec::new(), Compression::default());
    e.write_all(data).unwrap();
    e.finish().unwrap()
}

fn entry_header(kind: u8, mut size: usize) -> Vec<u8> {
    let mut out = Vec::new();
    let mut first = (kind << 4) | (size & 15) as u8;
    size >>= 4;
    if size > 0 {
        first |= 0x80;
    }
    out.push(first);
    while size > 0 {
        let mut b = (size & 0x7f) as u8;
        size >>= 7;
        if size > 0 {
            b |= 0x80;
        }
        out.push(b);
    }
    out
}

fn pack_of(count: u32, entries: &[Vec<u8>]) -> Vec<u8> {
    let mut p = b"PACK".to_vec();
    p.extend_from_slice(&2u32.to_be_bytes());
    p.extend_from_slice(&count.to_be_bytes());
    for e in entries {
        p.extend_from_slice(e);
    }
    p.extend_from_slice(&[0u8; 20]);
    p
}

fn blob_entry(content: &[u8]) -> Vec<u8> {
    let mut e = entry_header(3, content.len());
    e.extend_from_slice(&zlib(content));
    e
}

#[test]
fn delta_copy_then_insert() {
    let delta = [5u8, 4, 0x90, 3, 1, b'p'];
    assert_eq!(apply_delta(b"appel", &delta).unwrap(), b"appp".to_vec());
}

#[test]
fn delta_wrong_target_length_fails() {
    let delta = [5u8, 5, 0x90, 3, 1, b'p'];
    assert!(apply_delta(b"appel", &delta).is_err());
}

#[test]
fn delta_wrong_source_length_fails() {
    let delta = [6u8, 4, 0x90, 3, 1, b'p'];
    assert!(apply_delta(b"appel", &delta).is_err());
}

#[test]
fn delta_copy_with_offset() {
    let delta = [5u8, 3, 0x91, 2, 3];
    assert_eq!(apply_delta(b"appel", &delta).unwrap(), b"pel".to_vec());
}

#[test]
fn delta_copy_outside_base_fails() {
    let delta = [5u8, 3, 0x91, 4, 3];
    assert!(apply_delta(b"appel", &delta).is_err());
}

#[test]
fn delta_zero_length_copy_means_65536() {
    let base = vec![7u8; 65536];
    let delta = [0x80u8, 0x80, 4, 0x80, 0x80, 4, 0x80];
    assert_eq!(apply_delta(&base, &delta).unwrap(), base);
}

#[test]
fn delta_zero_length_copy_with_offset() {
    let base: Vec<u8> = (0..65543u32).map(|i| (i % 251) as u8).collect();
    let delta = [0x87u8, 0x80, 4, 0x80, 0x80, 4, 0x81, 7];
    assert_eq!(apply_delta(&base, &delta).unwrap(), base[7..].to_vec());
}

#[test]
fn varints() {
    assert_eq!(read_var_len_integer_le(&[0x85, 0x01]), Some(133));
    assert_eq!(read_var_len_integer_le(&[5]), Some(5));
    assert_eq!(read_var_len_integer_be_with_increment(&[0x05]), Some(5));
    assert_eq!(read_var_len_integer_be_with_increment(&[0x81, 0x00]), Some(256));
    assert_eq!(read_var_len_integer_be_with_increment(&[0x80, 0x01]), Some(129));
}

#[test]
fn single_blob_pack() {
    let pack = pack_of(1, &[blob_entry(b"hello\n")]);
    let objs = parse_pack(&pack).unwrap();
    assert_eq!(objs.len(), 1);
    assert_eq!(objs[0].0, "ce013625030ba8dba906f756967f9e9ca394464a");
    let (h, _) = objs[0].1.encode();
    assert_eq!(to_hex(&h), objs[0].0);
}

#[test]
fn pack_count_mismatch_fails() {
    let pack = pack_of(2, &[blob_entry(b"hello\n")]);
    assert!(parse_pack(&pack).is_err());
    let pack0 = pack_of(0, &[blob_entry(b"hello\n")]);
    assert!(parse_pack(&pack0).is_err());
}

#[test]
fn pack_bad_magic_fails() {
    let mut pack = pack_of(1, &[blob_entry(b"hello\n")]);
    pack[7] = 3;
    assert!(parse_pack(&pack).is_err());
    assert!(parse_pack(b"PACK").is_err());
}

#[test]
fn pack_declared_length_mismatch_fails() {
    let mut e = entry_header(3, 5);
    e.extend_from_slice(&zlib(b"hello\n"));
    assert!(parse_pack(&pack_of(1, &[e])).is_err());
}

#[test]
fn pack_with_ref_and_offset_deltas() {
    let base = blob_entry(b"appel");
    let (base_hash, _) = Object::Blob(b"appel".to_vec()).encode();
    let delta = [5u8, 4, 0x90, 3, 1, b'p'];
    let mut ref_delta = entry_header(7, delta.len());
    ref_delta.extend_from_slice(&base_hash);
    ref_delta.extend_from_slice(&zlib(&delta));
    let delta2 = [5u8, 2, 0x90, 2];
    let mut ofs_delta = entry_header(6, delta2.len());
    let distance = base.len() + ref_delta.len();
    assert!(distance < 128);
    ofs_delta.push(distance as u8);
    ofs_delta.extend_from_slice(&zlib(&delta2));
    let pack = pack_of(3, &[base, ref_delta, ofs_delta]);
    let objs = parse_pack(&pack).unwrap();
    assert_eq!(objs.len(), 3);
    let mut blobs: Vec<Vec<u8>> = objs
        .iter()
        .map(|(_, o)| match o {
            Object::Blob(b) => b.clone(),
            _ => panic!("not a blob"),
        })
        .collect();
    blobs.sort();
    assert_eq!(blobs, vec![b"ap".to_vec(), b"appel".to_vec(), b"appp".to_vec()]);
}

#[test]
fn pack_delta_with_missing_base_fails() {
    let delta = [5u8, 4, 0x90, 3, 1, b'p'];
    let mut ref_delta = entry_header(7, delta.len());
    ref_delta.extend_from_slice(&[9u8; 20]);
    ref_delta.extend_from_slice(&zlib(&delta));
    assert!(parse_pack(&pack_of(1, &[ref_delta])).is_err());
}

#[test]
fn pack_tag_is_skipped() {
    let mut tag = entry_header(4, 3);
    tag.extend_from_slice(&zlib(b"tag"));
    let pack = pack_of(2, &[blob_entry(b"x"), tag.clone()]);
    let objs = parse_pack(&pack).unwrap();
    assert_eq!(objs.len(), 1);
    assert!(parse_pack(&pack_of(1, &[blob_entry(b"x"), tag])).is_err());
}

#[test]
fn pack_duplicate_entries_count_but_share_a_key() {
    let pack = pack_of(2, &[blob_entry(b"same"), blob_entry(b"same")]);
    assert_eq!(parse_pack(&pack).unwrap().len(), 1);
    assert!(parse_pack(&pack_of(1, &[blob_entry(b"same"), blob_entry(b"same")])).is_err());
}

#[test]
fn advertisement_with_one_ref() {
    let sha = "ce013625030ba8dba906f756967f9e9ca394464a";
    let body = format!(
        "001e# service=git-upload-pack\n0000004a{} HEAD\0multi_ack side-band-64k\n0000",
        sha
    );
    let refs = parse_refs(body.as_bytes()).unwrap();
    assert_eq!(refs.len(), 1);
    assert_eq!(refs[0].sha, sha);
    assert_eq!(refs[0].name, "HEAD");
}

#[test]
fn advertisement_with_two_refs() {
    let body = "banner\n0040aaaa HEAD\0caps\n003fbbbb refs/heads/main\n0000\n0040cccc other\n";
    let refs = parse_refs(body.as_bytes()).unwrap();
    assert_eq!(refs.len(), 2);
    assert_eq!(refs[0].sha, "aaaa");
    assert_eq!(refs[1].sha, "bbbb");
    assert_eq!(refs[1].name, "refs/heads/main");
}

#[test]
fn advertisement_missing_name_fails() {
    assert!(parse_refs(b"banner\n0040aaaa\n0000").is_err());
}

#[test]
fn upload_response_requires_nak() {
    let pack = pack_of(1, &[blob_entry(b"hello\n")]);
    let mut ok = b"0008NAK\n".to_vec();
    ok.extend_from_slice(&pack);
    assert_eq!(parse_upload_pack_response(&ok).unwrap().len(), 1);
    let mut bad = b"0008ACK\n".to_vec();
    bad.extend_from_slice(&pack);
    assert!(parse_upload_pack_response(&bad).is_err());
    assert!(parse_upload_pack_response(b"0008NA").is_err());
}

#[test]
fn pkt_framing() {
    assert_eq!(encode_pkt("want abc".to_string()), "000dwant abc\n");
    assert_eq!(
        pkt_message(vec!["want abc".to_string()]),
        "000dwant abc\n00000009done\n"
    );
    let long = "x".repeat(70000);
    assert!(encode_pkt(long).starts_with("11175"));
}

#[test]
fn fetch_body() {
    let h = "ce013625030ba8dba906f756967f9e9ca394464a".to_string();
    assert_eq!(
        fetch_request_body(&h),
        format!("0032want {}\n00000009done\n", h)
    );
}

fn plain_entry(kind: u8, payload: &[u8]) -> Vec<u8> {
    let mut e = entry_header(kind, payload.len());
    e.extend_from_slice(&zlib(payload));
    e
}

fn payload_of(encoded: &[u8]) -> Vec<u8> {
    let z = encoded.iter().position(|&b| b == 0).unwrap();
    encoded[z + 1..].to_vec()
}

#[test]
fn pack_with_commit_tree_and_blob() {
    let blob = Object::Blob(b"file body\n".to_vec());
    let (hb, eb) = blob.encode();
    let tree = Object::Tree(vec![ObjectReference { mode: 100644, name: "f".to_string(), hash: hb }]);
    let (ht, et) = tree.encode();
    let who = Contributor {
        name: "N".to_string(),
        email: "n@x".to_string(),
        timestamp: 42,
        timezone: "+0000".to_string(),
    };
    let commit = Object::Commit {
        tree: to_hex(&ht),
        parents: vec![],
        author: who.clone(),
        committer: who,
        message: "msg\n".to_string(),
    };
    let (hc, ec) = commit.encode();
    let pack = pack_of(
        3,
        &[plain_entry(1, &payload_of(&ec)), plain_entry(2, &payload_of(&et)), plain_entry(3, &payload_of(&eb))],
    );
    let objs = parse_pack(&pack).unwrap();
    assert_eq!(objs.len(), 3);
    assert_eq!(objs[0].0, to_hex(&hc));
    assert_eq!(objs[1].0, to_hex(&ht));
    assert_eq!(objs[2].0, to_hex(&hb));
    match &objs[0].1 {
        Object::Commit { tree, message, .. } => {
            assert_eq!(tree, &to_hex(&ht));
            assert_eq!(message, "msg\n");
        }
        _ => panic!("not a commit"),
    }
}
