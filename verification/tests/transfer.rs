use std::io::Write;
use tinygit::clone::{
    advertised_head, commit_tree_id, pack_from_response, upload_pack_request, CommitError,
};
use tinygit::delta::{apply_delta, checked_apply_delta};
use tinygit::object::commit_object;
use tinygit::pack::{read_entry_header, unpack_objects, EntryHeader, ObjectKind, Unpacked};
use tinygit::pkt::{checked_read_pkt_lines, encode_pkt_line, read_pkt_lines};

const DISCOVERY: &[u8] = b"001e# service=git-upload-pack\n0000015926f9dc6eafcd97c3deff2018f69471c18f7704c7 HEAD\0multi_ack thin-pack side-band side-band-64k ofs-delta shallow deepen-since deepen-not deepen-relative no-progress include-tag multi_ack_detailed allow-tip-sha1-in-want allow-reachable-sha1-in-want no-done symref=HEAD:refs/heads/main filter object-format=sha1 agent=git/github-f8bdfd365d97-Linux\n003d26f9dc6eafcd97c3deff2018f69471c18f7704c7 refs/heads/main\n003f26f9dc6eafcd97c3deff2018f69471c18f7704c7 refs/heads/master\n0000";

fn zlib(data: &[u8]) -> Vec<u8> {
    let mut e = flate2::write::ZlibEncoder::new(Vec::new(), flate2::Compression::default());
    e.write_all(data).unwrap();
    e.finish().unwrap()
}

#[test]
fn pkt_lines_of_discovery() {
    let lines = read_pkt_lines(DISCOVERY);
    assert_eq!(lines.len(), 4);
    assert_eq!(lines[0], b"# service=git-upload-pack\n".to_vec());
    assert_eq!(lines[2], b"26f9dc6eafcd97c3deff2018f69471c18f7704c7 refs/heads/main\n".to_vec());
}

#[test]
fn pkt_lines_skip_flush_and_short_tail() {
    assert_eq!(read_pkt_lines(b"0000000ahello\n00"), vec![b"hello\n".to_vec()]);
    assert_eq!(read_pkt_lines(b"0004"), vec![Vec::<u8>::new()]);
    assert_eq!(read_pkt_lines(b"+009hello"), vec![b"hello".to_vec()]);
    assert_eq!(read_pkt_lines(b"000AHELLO\n"), vec![b"HELLO\n".to_vec()]);
}

#[test]
fn pkt_lines_reject_bad_lengths() {
    assert!(checked_read_pkt_lines(b"0002").is_none());
    assert!(checked_read_pkt_lines(b"00ffshort").is_none());
    assert!(checked_read_pkt_lines(b"zzzz").is_none());
    assert!(checked_read_pkt_lines(b"-004").is_none());
}

#[test]
fn encoded_pkt_lines_read_back() {
    let mut stream = encode_pkt_line(b"first");
    stream.extend_from_slice(b"0000");
    stream.extend_from_slice(&encode_pkt_line(b""));
    stream.extend_from_slice(&encode_pkt_line(&vec![b'x'; 300]));
    assert_eq!(&stream[..4], b"0009");
    let lines = read_pkt_lines(&stream);
    assert_eq!(lines, vec![b"first".to_vec(), Vec::new(), vec![b'x'; 300]]);
}

#[test]
fn discovery_names_head() {
    assert_eq!(
        advertised_head(DISCOVERY).unwrap(),
        b"26f9dc6eafcd97c3deff2018f69471c18f7704c7".to_vec()
    );
    assert!(advertised_head(b"0008abc\n0000").is_none());
}

#[test]
fn upload_request_wants_head() {
    let hash = advertised_head(DISCOVERY).unwrap();
    let body = upload_pack_request(&hash).unwrap();
    let message = format!(
        "want {} multi_ack_detailed side-band-64k thin-pack ofs-delta\n",
        std::str::from_utf8(&hash).unwrap()
    );
    let mut expected = format!("{:04x}{}", message.len() + 4, message).into_bytes();
    expected.extend(b"0000");
    expected.extend(b"0009done\n");
    assert_eq!(body, expected);
    assert_eq!(&body[..4], b"0067");
    let lines = read_pkt_lines(&body);
    assert_eq!(lines, vec![message.into_bytes(), b"done\n".to_vec()]);
    assert!(upload_pack_request(b"\xff\xfe").is_none());
}

#[test]
fn side_band_one_carries_the_pack() {
    let mut response = encode_pkt_line(b"NAK\n");
    response.extend_from_slice(&encode_pkt_line(b"\x01PACK"));
    response.extend_from_slice(&encode_pkt_line(b"\x02progress"));
    response.extend_from_slice(&encode_pkt_line(b"\x01data"));
    response.extend_from_slice(b"0000");
    assert_eq!(pack_from_response(&response).unwrap(), b"PACKdata".to_vec());
    let mut with_empty = response.clone();
    with_empty.extend_from_slice(b"0004");
    assert!(pack_from_response(&with_empty).is_none());
}

#[test]
fn delta_copies_and_inserts() {
    let base = b"hello world";
    // source size 11, target size 8, copy 5 bytes from offset 0, insert "abc"
    let delta = [11u8, 8, 0x91, 0x00, 0x05, 0x03, b'a', b'b', b'c'];
    assert_eq!(apply_delta(base, &delta), b"helloabc".to_vec());
    // copy with offset 6 and size 5
    let delta2 = [11u8, 5, 0x91, 0x06, 0x05];
    assert_eq!(apply_delta(base, &delta2), b"world".to_vec());
    // multi-byte size varints are skipped
    let delta3 = [0x80u8, 0x01, 0x81, 0x01, 0x02, b'o', b'k'];
    assert_eq!(apply_delta(b"", &delta3), b"ok".to_vec());
}

#[test]
fn delta_errors() {
    let base = b"hello world";
    // size 0 stands for 0x10000, past the end of the base
    assert!(checked_apply_delta(base, &[11u8, 8, 0x81, 0x00]).is_none());
    // insert runs past the end of the delta
    assert!(checked_apply_delta(base, &[11u8, 8, 0x05, b'a']).is_none());
    // copy parameter missing
    assert!(checked_apply_delta(base, &[11u8, 8, 0x91, 0x00]).is_none());
    // truncated size varint
    assert!(checked_apply_delta(base, &[0x80u8]).is_none());
    // an empty instruction list gives an empty target
    assert_eq!(checked_apply_delta(base, &[11u8, 0]).unwrap(), Vec::<u8>::new());
}

#[test]
fn delta_of_two_runs_concatenates_outputs() {
    let base = b"hello world";
    let p = [0x91u8, 0x00, 0x05]; // copy "hello"
    let q = [0x02u8, b'!', b'?', 0x91, 0x06, 0x05]; // insert "!?", copy "world"
    let first = apply_delta(base, &[&[11u8, 5][..], &p[..]].concat());
    let second = apply_delta(base, &[&[11u8, 7][..], &q[..]].concat());
    let both = apply_delta(base, &[&[11u8, 12][..], &p[..], &q[..]].concat());
    assert_eq!(first, b"hello".to_vec());
    assert_eq!(second, b"!?world".to_vec());
    assert_eq!(both, [first, second].concat());
}

#[test]
fn delta_copying_the_whole_base_gives_it_back() {
    let base: Vec<u8> = (0..300u32).map(|i| (i * 7 % 251) as u8).collect();
    let n = base.len() as u32;
    let delta = vec![
        0xac,
        0x02,
        0xac,
        0x02,
        0xf0,
        (n & 0xff) as u8,
        ((n >> 8) & 0xff) as u8,
        (n >> 16) as u8,
    ];
    assert_eq!(apply_delta(&base, &delta), base);
}

fn pack_with(objects: &[Vec<u8>]) -> Vec<u8> {
    let mut pack = b"PACK\0\0\0\x02".to_vec();
    pack.extend_from_slice(&(objects.len() as u32).to_be_bytes());
    for o in objects {
        pack.extend_from_slice(o);
    }
    pack
}

#[test]
fn unpack_plain_and_offset_delta_objects() {
    let mut blob = vec![(3u8 << 4) | 11];
    blob.extend_from_slice(&zlib(b"hello world"));
    let blob_len = blob.len();
    let mut ofs = vec![(6u8 << 4) | 8, blob_len as u8];
    ofs.extend_from_slice(&zlib(&[11u8, 8, 0x91, 0x00, 0x05, 0x03, b'a', b'b', b'c']));
    let pack = pack_with(&[blob, ofs]);
    let out = unpack_objects(&pack);
    assert!(out.complete);
    assert_eq!(out.objects.len(), 2);
    assert_eq!(out.objects[0].kind, ObjectKind::Blob);
    assert_eq!(out.objects[0].data, b"hello world".to_vec());
    assert_eq!(out.objects[1].kind, ObjectKind::Blob);
    assert_eq!(out.objects[1].data, b"helloabc".to_vec());
}

#[test]
fn unpack_kinds_and_failures() {
    let mut commit = vec![(1u8 << 4) | 0x8f, 0x01];
    commit.extend_from_slice(&zlib(b"tree x"));
    let mut odd = vec![(5u8 << 4) | 1];
    odd.extend_from_slice(&zlib(b"?"));
    let out = unpack_objects(&pack_with(&[commit.clone(), odd]));
    assert!(out.complete);
    assert_eq!(out.objects[0].kind, ObjectKind::Commit);
    assert_eq!(out.objects[0].data, b"tree x".to_vec());
    assert_eq!(out.objects[1].kind, ObjectKind::Unknown);

    // an offset delta whose base is not an object start
    let mut bad = vec![(6u8 << 4) | 1, 1];
    bad.extend_from_slice(&zlib(&[0u8, 0]));
    let out = unpack_objects(&pack_with(&[commit.clone(), bad]));
    assert!(!out.complete);
    assert_eq!(out.objects.len(), 1);

    // a single object, as announced
    let out = unpack_objects(&pack_with(&[commit])[..]);
    assert!(out.complete);
    // one object announced, none present
    let mut short = pack_with(&[]);
    short[11] = 1;
    let out = unpack_objects(&short);
    assert!(!out.complete);
    assert!(out.objects.is_empty());
    assert!(!unpack_objects(b"PACK").complete);
}

#[test]
fn commit_names_its_tree() {
    let commit = commit_object("4b825dc642cb6eb9a060e54bf8d69288fbee4904", "p", "msg");
    match commit_tree_id(&commit) {
        Ok(Some(t)) => assert_eq!(t, "4b825dc642cb6eb9a060e54bf8d69288fbee4904"),
        _ => panic!("expected a tree id"),
    }
    assert!(matches!(commit_tree_id(b"no nul here"), Ok(None)));
    assert!(matches!(commit_tree_id(b"commit 4\0tree"), Err(CommitError::MissingTree)));
    match commit_tree_id("commit 0\0 \u{a0}tree\u{3000}abc\tdef".as_bytes()) {
        Ok(Some(t)) => assert_eq!(t, "abc"),
        _ => panic!("expected a tree id"),
    }
}

#[test]
fn entry_headers() {
    let pack = b"PACK\0\0\0\x02\0\0\0\x02\xbb\x01zz\x68\x02yy\x70";
    match read_entry_header(pack, 12) {
        Some(EntryHeader::Plain { kind, data_start }) => {
            assert_eq!(kind, ObjectKind::Blob);
            assert_eq!(data_start, 14);
        },
        _ => panic!("expected a plain entry"),
    }
    match read_entry_header(pack, 16) {
        Some(EntryHeader::OffsetDelta { base_start, data_start }) => {
            assert_eq!(base_start, 14);
            assert_eq!(data_start, 18);
        },
        _ => panic!("expected an offset delta"),
    }
    match read_entry_header(pack, 20) {
        Some(EntryHeader::RefDelta { next }) => assert_eq!(next, 21),
        _ => panic!("expected a reference delta"),
    }
    assert!(read_entry_header(pack, 21).is_none());
    // a distance that reaches back before the pack
    assert!(read_entry_header(b"\x60\x7f", 0).is_none());
}

#[test]
fn resolve_entries_by_hand() {
    let mut done = Unpacked::new();
    let plain = EntryHeader::Plain { kind: ObjectKind::Tree, data_start: 13 };
    assert_eq!(done.resolve_entry(12, plain, Some((b"hello world".to_vec(), 7))), Some(20));
    let delta = EntryHeader::OffsetDelta { base_start: 12, data_start: 22 };
    let d = vec![11u8, 5, 0x91, 0x06, 0x05];
    assert_eq!(done.resolve_entry(20, delta, Some((d.clone(), 3))), Some(25));
    assert_eq!(done.objects.len(), 2);
    assert_eq!(done.objects[1].kind, ObjectKind::Tree);
    assert_eq!(done.objects[1].data, b"world".to_vec());
    let missing = EntryHeader::OffsetDelta { base_start: 13, data_start: 30 };
    assert_eq!(done.resolve_entry(25, missing, Some((d, 3))), None);
    assert_eq!(done.resolve_entry(25, plain, None), None);
    assert_eq!(done.resolve_entry(25, EntryHeader::RefDelta { next: 40 }, None), Some(40));
}
