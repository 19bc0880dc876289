use sha1::{Digest, Sha1};
use tinygit::object::{get_file_blob, hash_object};
use tinygit::tree::{
    checked_checkout_items, checked_ls_tree_lines, checkout_items, ls_tree_lines,
    parse_tree_entries, try_parse_tree_entries, CheckoutItem, TreeEntry,
};
use tinygit::tree_write::{sort_children, tree_object_from_children, tree_object_of_sorted, DirChild};

fn empty_tree_id() -> String {
    hash_object(&tree_object_from_children(Vec::new()))
}

fn sample_children() -> Vec<DirChild> {
    vec![
        DirChild::File { name: String::from("test.txt"), contents: b"hello\n".to_vec() },
        DirChild::Directory { name: String::from("b"), tree_id: empty_tree_id() },
        DirChild::Directory { name: String::from("a"), tree_id: empty_tree_id() },
    ]
}

#[test]
fn test_command_ls_tree_name_only_true() {
    let tree = tree_object_from_children(sample_children());
    let output = ls_tree_lines(&tree, true);
    let expected = vec![String::from("a"), String::from("b"), String::from("test.txt")];
    assert_eq!(output, expected);
}

#[test]
fn test_command_ls_tree_name_only_false() {
    let tree = tree_object_from_children(sample_children());
    let records = parse_tree_entries(&tree);
    let expected: Vec<String> =
        records.into_iter().map(|r| r.mode + " - " + &r.name + " - " + &r.hash).collect();
    let output = ls_tree_lines(&tree, false);
    assert_eq!(output, expected);
}

#[test]
fn test_command_write_tree() {
    let mut contents = Vec::new();
    let header = format!("blob {}", "hello\n".len());
    let data = [header.as_bytes(), &[0], "hello\n".as_bytes()].concat();
    let hash = Sha1::digest(&data);
    let header = format!("100644 test.txt\0").into_bytes();
    contents.extend_from_slice(&header);
    contents.extend_from_slice(&hash.to_vec());

    let header = format!("tree {}\0", contents.len());
    let mut data = header.into_bytes();
    data.extend_from_slice(&contents);

    let children =
        vec![DirChild::File { name: String::from("test.txt"), contents: b"hello\n".to_vec() }];
    let hash = hash_object(&tree_object_from_children(children));
    let expected = Sha1::digest(&data);
    assert_eq!(hash, format!("{:x}", expected));
}

#[test]
fn ls_tree_pads_directory_modes() {
    let tree = tree_object_from_children(sample_children());
    let output = ls_tree_lines(&tree, false);
    let empty = empty_tree_id();
    let blob = hash_object(&get_file_blob(b"hello\n"));
    assert_eq!(
        output,
        vec![
            format!("040000 - a - {}", empty),
            format!("040000 - b - {}", empty),
            format!("100644 - test.txt - {}", blob),
        ]
    );
}

#[test]
fn empty_tree_is_git_empty_tree() {
    assert_eq!(empty_tree_id(), "4b825dc642cb6eb9a060e54bf8d69288fbee4904");
    assert_eq!(tree_object_from_children(Vec::new()), b"tree 0\0".to_vec());
}

#[test]
fn empty_tree_does_not_parse() {
    assert!(try_parse_tree_entries(b"tree 0\0").is_none());
    assert!(try_parse_tree_entries(b"no header at all").is_none());
}

#[test]
fn write_tree_skips_git_dir_and_others() {
    let children = vec![
        DirChild::Directory { name: String::from(".git"), tree_id: String::from("zz") },
        DirChild::Other { name: String::from("dangling") },
        DirChild::File { name: String::from("f"), contents: Vec::new() },
    ];
    let tree = tree_object_from_children(children);
    let names = ls_tree_lines(&tree, true);
    assert_eq!(names, vec![String::from("f")]);
}

#[test]
fn sort_puts_directory_after_same_named_file_prefix() {
    let sorted = sort_children(vec![
        DirChild::Directory { name: String::from("foo"), tree_id: empty_tree_id() },
        DirChild::File { name: String::from("foo.txt"), contents: Vec::new() },
        DirChild::File { name: String::from("Zeta"), contents: Vec::new() },
        DirChild::File { name: String::from("foo0"), contents: Vec::new() },
    ]);
    let names: Vec<String> = sorted
        .iter()
        .map(|c| match c {
            DirChild::File { name, .. } => name.clone(),
            DirChild::Directory { name, .. } => name.clone(),
            DirChild::Other { name } => name.clone(),
        })
        .collect();
    assert_eq!(names, vec!["Zeta", "foo.txt", "foo", "foo0"]);
}

#[test]
fn sorted_tree_keeps_given_order() {
    let children = vec![
        DirChild::File { name: String::from("b"), contents: Vec::new() },
        DirChild::File { name: String::from("a"), contents: Vec::new() },
    ];
    let tree = tree_object_of_sorted(&children);
    assert_eq!(ls_tree_lines(&tree, true), vec![String::from("b"), String::from("a")]);
}

#[test]
fn parse_reads_modes_names_and_hex_ids() {
    let mut data = b"tree 60\0".to_vec();
    data.extend_from_slice(b"100644 x.txt\0");
    data.extend_from_slice(&[0xab; 20]);
    data.extend_from_slice(b"40000 sub\0");
    data.extend_from_slice(&[0x01; 20]);
    let entries = parse_tree_entries(&data);
    assert_eq!(
        entries,
        vec![
            TreeEntry {
                mode: String::from("100644"),
                name: String::from("x.txt"),
                hash: "ab".repeat(20),
            },
            TreeEntry { mode: String::from("040000"), name: String::from("sub"), hash: "01".repeat(20) },
        ]
    );
}

#[test]
fn parse_splits_names_at_spaces() {
    let mut data = b"tree 0\0".to_vec();
    data.extend_from_slice(b"100644 my file\0");
    data.extend_from_slice(&[0x00; 20]);
    let entries = parse_tree_entries(&data);
    assert_eq!(
        entries,
        vec![TreeEntry {
            mode: String::from("100644"),
            name: String::from("0000my"),
            hash: String::from("file"),
        }]
    );
}

#[test]
fn parse_replaces_invalid_utf8_in_names() {
    let mut data = b"tree 0\0".to_vec();
    data.extend_from_slice(b"100644 a\xffb\0");
    data.extend_from_slice(&[0x10; 20]);
    let entries = parse_tree_entries(&data);
    assert_eq!(entries[0].name, "a\u{fffd}b");
    assert_eq!(entries[0].hash, "10".repeat(20));
}

#[test]
fn checkout_keeps_blobs_and_trees() {
    let mut data = b"tree 0\0".to_vec();
    data.extend_from_slice(b"100644 f\0");
    data.extend_from_slice(&[0x11; 20]);
    data.extend_from_slice(b"120000 link\0");
    data.extend_from_slice(&[0x22; 20]);
    data.extend_from_slice(b"40000 d\0");
    data.extend_from_slice(&[0x33; 20]);
    let items = checkout_items(&data);
    assert_eq!(items.len(), 2);
    match &items[0] {
        CheckoutItem::File { name, id } => {
            assert_eq!(name, "f");
            assert_eq!(id, &"11".repeat(20));
        },
        _ => panic!("expected a file"),
    }
    match &items[1] {
        CheckoutItem::Directory { name, id } => {
            assert_eq!(name, "d");
            assert_eq!(id, &"33".repeat(20));
        },
        _ => panic!("expected a directory"),
    }
}

#[test]
fn write_tree_ignores_listing_order() {
    let mut reversed = sample_children();
    reversed.reverse();
    assert_eq!(
        tree_object_from_children(sample_children()),
        tree_object_from_children(reversed)
    );
}

fn child_label(c: &DirChild) -> String {
    match c {
        DirChild::File { name, contents } => format!("file {} {}", name, contents.len()),
        DirChild::Directory { name, tree_id } => format!("dir {} {}", name, tree_id),
        DirChild::Other { name } => format!("other {}", name),
    }
}

#[test]
fn sort_keeps_order_of_equal_keys() {
    let sorted = sort_children(vec![
        DirChild::File { name: String::from("b"), contents: vec![1, 2, 3] },
        DirChild::Other { name: String::from("b") },
        DirChild::File { name: String::from("a"), contents: Vec::new() },
        DirChild::File { name: String::from("b"), contents: vec![1] },
    ]);
    let labels: Vec<String> = sorted.iter().map(child_label).collect();
    assert_eq!(labels, vec!["file a 0", "file b 3", "other b", "file b 1"]);
}

#[test]
fn parsing_two_entry_runs_concatenates_entries() {
    let run1 = [&b"100644 one\0"[..], &[0x11; 20][..]].concat();
    let run2 = [&b"40000 two\0"[..], &[0x22; 20][..], &b"100644 three\0"[..], &[0x33; 20][..]].concat();
    let header = b"tree 0\0".to_vec();
    let first = parse_tree_entries(&[&header[..], &run1[..]].concat());
    let second = parse_tree_entries(&[&header[..], &run2[..]].concat());
    let both = parse_tree_entries(&[&header[..], &run1[..], &run2[..]].concat());
    assert_eq!(first.len(), 1);
    assert_eq!(second.len(), 2);
    assert_eq!(both, [first, second].concat());
}

#[test]
fn checked_tree_listing() {
    let tree = tree_object_from_children(sample_children());
    assert_eq!(checked_ls_tree_lines(&tree, true), Some(ls_tree_lines(&tree, true)));
    assert_eq!(
        checked_ls_tree_lines(&tree, false).unwrap()[2],
        format!("100644 - test.txt - {}", hex::encode(Sha1::digest(get_file_blob(b"hello\n"))))
    );
    assert_eq!(checked_ls_tree_lines(b"tree 0\0", true), None);
}

#[test]
fn checked_checkout() {
    let mut data = b"tree 0\0".to_vec();
    data.extend_from_slice(b"40000 d\0");
    data.extend_from_slice(&[0x44; 20]);
    let items = checked_checkout_items(&data).unwrap();
    assert_eq!(items.len(), 1);
    match &items[0] {
        CheckoutItem::Directory { name, id } => {
            assert_eq!(name, "d");
            assert_eq!(id, &"44".repeat(20));
        },
        _ => panic!("expected a directory"),
    }
    assert!(checked_checkout_items(b"tree 0\0").is_none());
}

#[test]
fn directory_id_text_reads_back_as_its_bytes() {
    let id = [0xfeu8, 0x01, 0x9a, 0x00, 0x7f, 0x80, 0x10, 0x20, 0x30, 0x40, 0x50, 0x60, 0x70, 0xa0, 0xb0,
        0xc0, 0xd0, 0xe0, 0xf0, 0x0f];
    let tree = tree_object_from_children(vec![DirChild::Directory {
        name: String::from("sub"),
        tree_id: hex::encode(id),
    }]);
    let tail = &tree[tree.len() - 20..];
    assert_eq!(tail, &id[..]);
    assert_eq!(ls_tree_lines(&tree, true), vec![String::from("sub")]);
}
