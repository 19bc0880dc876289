use sha1::{Digest, Sha1};
use tinygit::object::{
    command_cat_file, commit_object, frame_object, get_file_blob, hash_object, object_paths,
    read_object, store_object,
};

#[test]
fn test_command_cat_file_ok() {
    let blob = get_file_blob(b"hello\n");
    let stored = store_object(&blob).unwrap();
    let object = read_object(&stored.compressed).unwrap();
    let content = command_cat_file(&object);
    assert_eq!(content, "hello\n");
}

#[test]
fn test_command_hash_object_ok() {
    let content = b"hello\n";
    let hex_hash = store_object(&get_file_blob(content)).unwrap().id;

    let blob = [format!("blob {}\0", content.len()).as_bytes(), content].concat();
    let expected = hex::encode(Sha1::digest(&blob));
    assert_eq!(hex_hash, expected);
}

#[test]
fn blob_header_is_kind_length_nul() {
    assert_eq!(get_file_blob(b"hello world\n"), b"blob 12\0hello world\n".to_vec());
    assert_eq!(get_file_blob(b""), b"blob 0\0".to_vec());
    let big = vec![7u8; 1234];
    let blob = get_file_blob(&big);
    assert_eq!(&blob[..9], b"blob 1234");
    assert_eq!(blob[9], 0);
    assert_eq!(&blob[10..], &big[..]);
}

#[test]
fn frame_object_writes_any_kind() {
    assert_eq!(frame_object(b"tag", b"abc"), b"tag 3\0abc".to_vec());
}

#[test]
fn hash_object_matches_git() {
    let blob = get_file_blob(b"hello world\n");
    assert_eq!(hash_object(&blob), "3b18e512dba79e4c8300dd08aeb37f8e728b8dad");
    assert_eq!(hash_object(b"tree 0\0"), "4b825dc642cb6eb9a060e54bf8d69288fbee4904");
}

#[test]
fn stored_object_reads_back() {
    let data = b"commit 3\0abc".to_vec();
    let stored = store_object(&data).unwrap();
    assert_ne!(stored.compressed, data);
    assert_eq!(read_object(&stored.compressed).unwrap(), data);
    assert_eq!(stored.id, hash_object(&data));
}

#[test]
fn read_object_rejects_garbage() {
    assert!(read_object(b"not zlib at all").is_none());
}

#[test]
fn cat_file_replaces_invalid_utf8() {
    let object = b"blob 3\0a\xffb".to_vec();
    assert_eq!(command_cat_file(&object), "a\u{fffd}b");
}

#[test]
fn cat_file_takes_everything_after_first_nul() {
    let object = b"blob 3\0a\0b".to_vec();
    assert_eq!(command_cat_file(&object), "a\0b");
}

#[test]
fn object_paths_split_the_id() {
    let (dir, file) = object_paths("/repo", "3b18e512dba79e4c8300dd08aeb37f8e728b8dad");
    assert_eq!(String::from_utf8(dir).unwrap(), "/repo/.git/objects/3b");
    assert_eq!(
        String::from_utf8(file).unwrap(),
        "/repo/.git/objects/3b/18e512dba79e4c8300dd08aeb37f8e728b8dad"
    );
}

#[test]
fn commit_object_has_fixed_people() {
    let data = commit_object("aaaa", "bbbb", "Initial commit");
    let content = "tree aaaa\nparent bbbb\nauthor John Doe <john@example.com> 1234567890 +0000\ncommitter John Doe <john@example.com> 1234567890 +0000\n\nInitial commit\n";
    let expected = [format!("commit {}\0", content.len()).as_bytes(), content.as_bytes()].concat();
    assert_eq!(data, expected);
}
