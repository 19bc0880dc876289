//! Writing tree objects from the children of a directory, and the law that
//! reading such a tree gives its entries back.

use crate::encoding::{hex_lower, hex_pair, nibble_char};
use crate::external::{hex_decode, hex_decoded, hex_digit_value, lossy_text, sha1, sha1_digest};
use crate::object::{
    blob_kind, decimal, frame_object, framed, get_file_blob, lemma_decimal_digits, push_all,
    tree_kind,
};
use crate::tree::{
    close_record, entry_of, lemma_scan_concat, ls_lines, pad_mode, scan_run, scan_start, scan_step,
    split_spaces, tree_entries, tree_parses, EntryText, TreeScan,
};
use vstd::multiset::Multiset;
use vstd::prelude::*;
use vstd::utf8::{
    encode_scalar, encode_utf8, encode_utf8_decode_utf8, encode_utf8_valid_utf8,
    is_ascii_chars, is_ascii_chars_encode_utf8,
};

verus! {

/// One entry of a tree object as bytes: mode, name and raw object id.
#[verifier::ext_equal]
pub struct TreeItem {
    pub mode: Seq<u8>,
    pub name: Seq<u8>,
    pub id: Seq<u8>,
}

/// The bytes of one entry: "<mode> <name>\0" then the raw id.
pub open spec fn item_bytes(e: TreeItem) -> Seq<u8> {
    e.mode + seq![0x20u8] + e.name + seq![0u8] + e.id
}

/// The bytes of a list of entries, one after the other.
pub open spec fn items_bytes(es: Seq<TreeItem>) -> Seq<u8>
    decreases es.len(),
{
    if es.len() == 0 {
        Seq::empty()
    } else {
        items_bytes(es.drop_last()) + item_bytes(es.last())
    }
}

/// The tree object holding the given entries.
pub open spec fn tree_object(es: Seq<TreeItem>) -> Seq<u8> {
    framed(tree_kind(), items_bytes(es))
}

/// An entry that a reader of tree objects can take apart: a mode of at least
/// one byte, neither mode nor name holding a space or a NUL byte (as bytes,
/// nor a space as text), and an id of 20 bytes.
pub open spec fn item_readable(e: TreeItem) -> bool {
    &&& e.mode.len() >= 1
    &&& !e.mode.contains(0x20u8)
    &&& !e.mode.contains(0u8)
    &&& !e.name.contains(0x20u8)
    &&& !e.name.contains(0u8)
    &&& !lossy_text(e.mode).contains(' ')
    &&& !lossy_text(e.name).contains(' ')
    &&& e.id.len() == 20
}

/// How a reader of tree objects lists an entry.
pub open spec fn item_text(e: TreeItem) -> EntryText {
    EntryText { mode: pad_mode(lossy_text(e.mode)), name: lossy_text(e.name), hash: hex_lower(e.id) }
}

/// The record text that the scan assembles for an entry before its id.
pub open spec fn item_record(e: TreeItem) -> Seq<char> {
    pad_mode(lossy_text(e.mode)) + seq![' '] + lossy_text(e.name) + seq![' ']
}

/// A scan that has just read the id of an entry.
pub open spec fn pending(entries: Seq<EntryText>, record: Seq<char>, id: Seq<u8>) -> TreeScan {
    TreeScan {
        header: true,
        reading: true,
        line: Seq::empty(),
        record,
        current: id,
        entries,
        broken: false,
    }
}

proof fn lemma_scan_one(st: TreeScan, b: u8)
    ensures
        scan_run(st, seq![b]) == scan_step(st, b),
{
    assert(seq![b].drop_last() =~= Seq::<u8>::empty());
    assert(scan_run(st, Seq::<u8>::empty()) == st);
    assert(seq![b].last() == b);
}

proof fn lemma_header_bytes(st: TreeScan, d: Seq<u8>)
    requires
        !st.header,
        !d.contains(0u8),
    ensures
        scan_run(st, d) == st,
    decreases d.len(),
{
    if d.len() > 0 {
        assert(d.drop_last().len() < d.len());
        assert forall|i: int| 0 <= i < d.drop_last().len() implies d.drop_last()[i] != 0u8 by {
            assert(d[i] != 0u8);
        }
        lemma_header_bytes(st, d.drop_last());
        assert(d[d.len() - 1] != 0u8);
    }
}

proof fn lemma_plain_bytes(st: TreeScan, d: Seq<u8>)
    requires
        st.header,
        !st.reading,
        st.current.len() == 0,
        !d.contains(0u8),
        !d.contains(0x20u8),
    ensures
        scan_run(st, d) == (TreeScan { line: st.line + d, ..st }),
    decreases d.len(),
{
    if d.len() == 0 {
        assert(st.line + d =~= st.line);
        assert(scan_run(st, d) =~= (TreeScan { line: st.line + d, ..st }));
    } else {
        assert forall|i: int| 0 <= i < d.drop_last().len() implies d.drop_last()[i] != 0u8
            && d.drop_last()[i] != 0x20u8 by {
            assert(d[i] != 0u8);
            assert(d[i] != 0x20u8);
        }
        lemma_plain_bytes(st, d.drop_last());
        assert(d[d.len() - 1] != 0u8);
        assert(d[d.len() - 1] != 0x20u8);
        assert((st.line + d.drop_last()).push(d.last()) =~= st.line + d);
        assert(scan_run(st, d) =~= (TreeScan { line: st.line + d, ..st }));
    }
}

proof fn lemma_id_bytes(st: TreeScan, d: Seq<u8>)
    requires
        st.header,
        st.reading,
        st.current.len() + d.len() <= 20,
    ensures
        scan_run(st, d) == (TreeScan { current: st.current + d, ..st }),
    decreases d.len(),
{
    if d.len() == 0 {
        assert(st.current + d =~= st.current);
        assert(scan_run(st, d) =~= (TreeScan { current: st.current + d, ..st }));
    } else {
        lemma_id_bytes(st, d.drop_last());
        assert((st.current + d.drop_last()).push(d.last()) =~= st.current + d);
        assert(scan_run(st, d) =~= (TreeScan { current: st.current + d, ..st }));
    }
}

/// From a scan that holds the mode of an entry in its line, the rest of the
/// entry leaves it pending on that entry's id.
proof fn lemma_entry_rest(st: TreeScan, e: TreeItem)
    requires
        item_readable(e),
        st.header,
        !st.reading,
        st.current.len() == 0,
        st.line == e.mode,
        st.record.len() == 0,
        !st.broken,
    ensures
        scan_run(st, seq![0x20u8] + e.name + seq![0u8] + e.id) == pending(
            st.entries,
            item_record(e),
            e.id,
        ),
{
    let s1 = scan_step(st, 0x20u8);
    lemma_scan_one(st, 0x20u8);
    lemma_plain_bytes(s1, e.name);
    let s2 = scan_run(s1, e.name);
    let s3 = scan_step(s2, 0u8);
    lemma_scan_concat(st, seq![0x20u8], e.name);
    lemma_scan_one(s2, 0u8);
    lemma_scan_concat(st, seq![0x20u8] + e.name, seq![0u8]);
    lemma_id_bytes(s3, e.id);
    lemma_scan_concat(st, seq![0x20u8] + e.name + seq![0u8], e.id);
    assert(s1.line + e.name =~= e.name);
    assert(st.record + pad_mode(lossy_text(e.mode)) + seq![' '] + lossy_text(e.name) + seq![' ']
        =~= item_record(e));
    assert(Seq::<u8>::empty() + e.id =~= e.id);
    assert(scan_run(s3, e.id) =~= pending(st.entries, item_record(e), e.id));
}

proof fn lemma_no_space_split(a: Seq<char>, b: Seq<char>)
    requires
        !a.contains(' '),
    ensures
        split_spaces(a + seq![' '] + b) == seq![a] + split_spaces(b),
{
    let s = a + seq![' '] + b;
    s.index_of_first_ensures(' ');
    assert(s[a.len() as int] == ' ');
    let idx = s.index_of_first(' ').unwrap();
    if idx < a.len() {
        assert(s[idx] == a[idx]);
    } else if idx > a.len() {
        assert(s[a.len() as int] != ' ');
    }
    assert(s.take(a.len() as int) =~= a);
    assert(s.skip(a.len() as int + 1) =~= b);
}

proof fn lemma_no_space_whole(a: Seq<char>)
    requires
        !a.contains(' '),
    ensures
        split_spaces(a) == seq![a],
{
    a.index_of_first_ensures(' ');
}

proof fn lemma_hex_no_space(bytes: Seq<u8>)
    ensures
        !hex_lower(bytes).contains(' '),
    decreases bytes.len(),
{
    if bytes.len() > 0 {
        lemma_hex_no_space(bytes.drop_last());
        let h = hex_lower(bytes);
        let p = hex_pair(bytes.last());
        assert(h == hex_lower(bytes.drop_last()) + p);
        let b = bytes.last();
        assert(nibble_char(b / 16) != ' ');
        assert(nibble_char(b % 16) != ' ');
        assert forall|i: int| 0 <= i < h.len() implies h[i] != ' ' by {
            if i < hex_lower(bytes.drop_last()).len() {
                assert(h[i] == hex_lower(bytes.drop_last())[i]);
            } else {
                assert(h[i] == p[i - hex_lower(bytes.drop_last()).len()]);
            }
        }
    }
}

proof fn lemma_record_entry(e: TreeItem)
    requires
        item_readable(e),
    ensures
        split_spaces(item_record(e) + hex_lower(e.id)).len() >= 3,
        entry_of(item_record(e) + hex_lower(e.id)) == item_text(e),
{
    let m = pad_mode(lossy_text(e.mode));
    let n = lossy_text(e.name);
    let h = hex_lower(e.id);
    assert(!lossy_text(e.mode).contains(' '));
    assert(!n.contains(' '));
    assert(!m.contains(' ')) by {
        if lossy_text(e.mode).len() < 6 {
            let z = Seq::new((6 - lossy_text(e.mode).len()) as nat, |i: int| '0');
            assert forall|i: int| 0 <= i < m.len() implies m[i] != ' ' by {
                if i < z.len() {
                    assert(m[i] == z[i]);
                } else {
                    assert(m[i] == lossy_text(e.mode)[i - z.len()]);
                }
            }
        }
    }
    lemma_hex_no_space(e.id);
    assert(item_record(e) + h =~= m + seq![' '] + (n + seq![' '] + h));
    lemma_no_space_split(m, n + seq![' '] + h);
    lemma_no_space_split(n, h);
    lemma_no_space_whole(h);
}

proof fn lemma_items_prefix(es: Seq<TreeItem>)
    requires
        es.len() >= 1,
        forall|i: int| 0 <= i < es.len() ==> item_readable(#[trigger] es[i]),
    ensures
        scan_run(TreeScan { header: true, ..scan_start() }, items_bytes(es)) == pending(
            es.drop_last().map_values(|e: TreeItem| item_text(e)),
            item_record(es.last()),
            es.last().id,
        ),
    decreases es.len(),
{
    let h = TreeScan { header: true, ..scan_start() };
    let e = es.last();
    assert(item_readable(e));
    assert(item_bytes(e) =~= e.mode + (seq![0x20u8] + e.name + seq![0u8] + e.id));
    if es.len() == 1 {
        assert(items_bytes(es.drop_last()) =~= Seq::<u8>::empty());
        assert(items_bytes(es) =~= item_bytes(e));
        lemma_plain_bytes(h, e.mode);
        let s = scan_run(h, e.mode);
        assert(h.line + e.mode =~= e.mode);
        lemma_entry_rest(s, e);
        lemma_scan_concat(h, e.mode, seq![0x20u8] + e.name + seq![0u8] + e.id);
        assert(es.drop_last().map_values(|e: TreeItem| item_text(e)) =~= Seq::<EntryText>::empty());
        assert(s.entries =~= Seq::<EntryText>::empty());
    } else {
        let prev = es.drop_last();
        assert forall|i: int| 0 <= i < prev.len() implies item_readable(#[trigger] prev[i]) by {
            assert(prev[i] == es[i]);
        }
        lemma_items_prefix(prev);
        let p = pending(
            prev.drop_last().map_values(|e: TreeItem| item_text(e)),
            item_record(prev.last()),
            prev.last().id,
        );
        lemma_scan_concat(h, items_bytes(prev), item_bytes(e));
        // the first byte of the mode closes the previous entry
        let m0 = e.mode[0];
        let rest = e.mode.drop_first();
        assert(e.mode =~= seq![m0] + rest);
        assert(m0 != 0u8 && m0 != 0x20u8) by {
            assert(e.mode[0] == m0);
        }
        assert(!rest.contains(0u8) && !rest.contains(0x20u8)) by {
            assert forall|i: int| 0 <= i < rest.len() implies rest[i] != 0u8 && rest[i] != 0x20u8 by {
                assert(rest[i] == e.mode[i + 1]);
            }
        }
        let s1 = scan_step(p, m0);
        lemma_scan_one(p, m0);
        lemma_record_entry(prev.last());
        let c = close_record(p);
        assert(s1 == (TreeScan { line: c.line.push(m0), ..c }));
        assert(!s1.broken);
        lemma_plain_bytes(s1, rest);
        let s2 = scan_run(s1, rest);
        lemma_scan_concat(p, seq![m0], rest);
        assert(s1.line + rest =~= e.mode);
        lemma_entry_rest(s2, e);
        assert(item_bytes(e) =~= seq![m0] + rest + (seq![0x20u8] + e.name + seq![0u8] + e.id));
        lemma_scan_concat(p, seq![m0] + rest, seq![0x20u8] + e.name + seq![0u8] + e.id);
        assert(items_bytes(es) == items_bytes(prev) + item_bytes(e));
        assert(prev.drop_last().map_values(|e: TreeItem| item_text(e)).push(item_text(prev.last()))
            =~= prev.map_values(|e: TreeItem| item_text(e)));
    }
}

/// Reading back, after any header without a NUL byte and the NUL that ends
/// it, a run of readable entries gives each entry: its mode padded to six
/// characters, its name and its id in lowercase hex, in the order in which
/// they were written.
pub proof fn lemma_entries_read_back(header: Seq<u8>, es: Seq<TreeItem>)
    requires
        !header.contains(0u8),
        es.len() >= 1,
        forall|i: int| 0 <= i < es.len() ==> item_readable(#[trigger] es[i]),
    ensures
        tree_parses(header + seq![0u8] + items_bytes(es)),
        tree_entries(header + seq![0u8] + items_bytes(es)) == es.map_values(
            |e: TreeItem| item_text(e),
        ),
{
    lemma_header_bytes(scan_start(), header);
    assert(scan_run(scan_start(), header + seq![0u8]) == TreeScan { header: true, ..scan_start() })
        by {
        lemma_scan_concat(scan_start(), header, seq![0u8]);
        lemma_scan_one(scan_start(), 0u8);
    }
    lemma_scan_concat(scan_start(), header + seq![0u8], items_bytes(es));
    lemma_items_prefix(es);
    lemma_record_entry(es.last());
    assert(es.drop_last().map_values(|e: TreeItem| item_text(e)).push(item_text(es.last()))
        =~= es.map_values(|e: TreeItem| item_text(e)));
}

/// Reading back a tree object made of readable entries gives each entry:
/// its mode padded to six characters, its name and its id in lowercase hex,
/// in the order in which they were written.
pub proof fn lemma_tree_object_read_back(es: Seq<TreeItem>)
    requires
        es.len() >= 1,
        forall|i: int| 0 <= i < es.len() ==> item_readable(#[trigger] es[i]),
    ensures
        tree_parses(tree_object(es)),
        tree_entries(tree_object(es)) == es.map_values(|e: TreeItem| item_text(e)),
{
    let header = tree_kind() + seq![0x20u8] + decimal(items_bytes(es).len());
    lemma_decimal_digits(items_bytes(es).len());
    assert(!header.contains(0u8)) by {
        let d = decimal(items_bytes(es).len());
        assert forall|i: int| 0 <= i < header.len() implies header[i] != 0u8 by {
            if i >= 5 {
                assert(header[i] == d[i - 5]);
            }
        }
    }
    assert(tree_object(es) =~= header + seq![0u8] + items_bytes(es));
    lemma_entries_read_back(header, es);
}

/// The bytes of two runs of entries are the bytes of each, one after the
/// other.
pub proof fn lemma_items_bytes_concat(e1: Seq<TreeItem>, e2: Seq<TreeItem>)
    ensures
        items_bytes(e1 + e2) == items_bytes(e1) + items_bytes(e2),
    decreases e2.len(),
{
    if e2.len() == 0 {
        assert(e1 + e2 =~= e1);
        assert(items_bytes(e1) + items_bytes(e2) =~= items_bytes(e1));
    } else {
        lemma_items_bytes_concat(e1, e2.drop_last());
        assert((e1 + e2).drop_last() =~= e1 + e2.drop_last());
        assert((e1 + e2).last() == e2.last());
        assert(items_bytes(e1 + e2.drop_last()) + item_bytes(e2.last()) =~= items_bytes(e1) + (
        items_bytes(e2.drop_last()) + item_bytes(e2.last())));
    }
}

/// Reading two runs of readable entries after a header gives the entries
/// of the first run, then those of the second: the same as reading each run
/// after that header on its own.
pub proof fn lemma_entries_concat(header: Seq<u8>, e1: Seq<TreeItem>, e2: Seq<TreeItem>)
    requires
        !header.contains(0u8),
        e1.len() >= 1,
        e2.len() >= 1,
        forall|i: int| 0 <= i < e1.len() ==> item_readable(#[trigger] e1[i]),
        forall|i: int| 0 <= i < e2.len() ==> item_readable(#[trigger] e2[i]),
    ensures
        tree_parses(header + seq![0u8] + items_bytes(e1) + items_bytes(e2)),
        tree_entries(header + seq![0u8] + items_bytes(e1) + items_bytes(e2)) == tree_entries(
            header + seq![0u8] + items_bytes(e1),
        ) + tree_entries(header + seq![0u8] + items_bytes(e2)),
{
    let both = e1 + e2;
    assert forall|i: int| 0 <= i < both.len() implies item_readable(#[trigger] both[i]) by {
        if i < e1.len() {
            assert(both[i] == e1[i]);
        } else {
            assert(both[i] == e2[i - e1.len()]);
        }
    }
    lemma_items_bytes_concat(e1, e2);
    assert(header + seq![0u8] + items_bytes(e1) + items_bytes(e2) =~= header + seq![0u8]
        + items_bytes(both));
    lemma_entries_read_back(header, both);
    lemma_entries_read_back(header, e1);
    lemma_entries_read_back(header, e2);
    assert(both.map_values(|e: TreeItem| item_text(e)) =~= e1.map_values(|e: TreeItem| item_text(e))
        + e2.map_values(|e: TreeItem| item_text(e)));
}

/// A child of a directory, as the directory walk finds it: a file with its
/// contents, a directory with the id of the tree written for it, or
/// anything else (which a tree does not record).
pub enum DirChild {
    File { name: String, contents: Vec<u8> },
    Directory { name: String, tree_id: String },
    Other { name: String },
}

/// The name of a child, as bytes.
pub open spec fn child_name(c: DirChild) -> Seq<u8> {
    match c {
        DirChild::File { name, .. } => encode_utf8(name@),
        DirChild::Directory { name, .. } => encode_utf8(name@),
        DirChild::Other { name } => encode_utf8(name@),
    }
}

/// The key by which children are ordered: the name, with a slash after it
/// for a directory.
pub open spec fn child_key(c: DirChild) -> Seq<u8> {
    match c {
        DirChild::Directory { .. } => child_name(c).push(0x2fu8),
        _ => child_name(c),
    }
}

/// Byte-wise lexicographic order, as `str` compares.
pub open spec fn lex_lt(a: Seq<u8>, b: Seq<u8>) -> bool
    decreases a.len(),
{
    if b.len() == 0 {
        false
    } else if a.len() == 0 {
        true
    } else if a[0] != b[0] {
        a[0] < b[0]
    } else {
        lex_lt(a.drop_first(), b.drop_first())
    }
}

/// The children are in the order of their keys.
pub open spec fn keys_sorted(s: Seq<DirChild>) -> bool {
    forall|i: int, j: int| 0 <= i < j < s.len() ==> !lex_lt(child_key(s[j]), child_key(s[i]))
}

/// The mode of a file entry, "100644".
pub open spec fn file_mode() -> Seq<u8> {
    seq![49u8, 48u8, 48u8, 54u8, 52u8, 52u8]
}

/// The mode of a directory entry, "40000".
pub open spec fn dir_mode() -> Seq<u8> {
    seq![52u8, 48u8, 48u8, 48u8, 48u8]
}

/// The name ".git", which a tree leaves out.
pub open spec fn git_dir_name() -> Seq<u8> {
    seq![46u8, 103u8, 105u8, 116u8]
}

/// The tree entry that a child becomes, if any: a file by the SHA-1 of its
/// blob, a directory (but ".git") by the bytes its hex tree id stands for.
pub open spec fn child_item(c: DirChild) -> Option<TreeItem> {
    match c {
        DirChild::File { name, contents } => Some(
            TreeItem {
                mode: file_mode(),
                name: encode_utf8(name@),
                id: sha1_digest(framed(blob_kind(), contents@)),
            },
        ),
        DirChild::Directory { name, tree_id } => {
            if encode_utf8(name@) == git_dir_name() {
                None
            } else {
                Some(
                    TreeItem {
                        mode: dir_mode(),
                        name: encode_utf8(name@),
                        id: hex_decoded(encode_utf8(tree_id@)).unwrap(),
                    },
                )
            }
        },
        DirChild::Other { .. } => None,
    }
}

/// A child that can be written: a directory other than ".git" names its tree
/// by a valid hex text.
pub open spec fn child_writable(c: DirChild) -> bool {
    match c {
        DirChild::Directory { name, tree_id } => encode_utf8(name@) != git_dir_name()
            ==> hex_decoded(encode_utf8(tree_id@)) is Some,
        _ => true,
    }
}

/// The entries that a list of children becomes, in order.
pub open spec fn child_items(s: Seq<DirChild>) -> Seq<TreeItem>
    decreases s.len(),
{
    if s.len() == 0 {
        Seq::empty()
    } else {
        match child_item(s.last()) {
            Some(t) => child_items(s.drop_last()).push(t),
            None => child_items(s.drop_last()),
        }
    }
}

/// Whether a child has the key `k`.
pub open spec fn key_is(k: Seq<u8>) -> spec_fn(DirChild) -> bool {
    |c: DirChild| child_key(c) == k
}

/// The children that have the key `k`, in the order in which they stand.
pub open spec fn with_key(s: Seq<DirChild>, k: Seq<u8>) -> Seq<DirChild> {
    s.filter(key_is(k))
}

proof fn lemma_with_key_none(s: Seq<DirChild>, k: Seq<u8>)
    requires
        forall|i: int| 0 <= i < s.len() ==> child_key(#[trigger] s[i]) != k,
    ensures
        with_key(s, k) == Seq::<DirChild>::empty(),
    decreases s.len(),
{
    reveal(Seq::filter);
    if s.len() > 0 {
        lemma_with_key_none(s.drop_last(), k);
        assert(child_key(s[s.len() - 1]) != k);
    }
}

proof fn lemma_with_key_one(x: DirChild, k: Seq<u8>)
    ensures
        with_key(seq![x], k) == (if child_key(x) == k {
            seq![x]
        } else {
            Seq::<DirChild>::empty()
        }),
{
    reveal_with_fuel(Seq::filter, 2);
    assert(seq![x].drop_last() =~= Seq::<DirChild>::empty());
    assert(Seq::<DirChild>::empty().push(x) =~= seq![x]);
}

proof fn lemma_with_key_add(a: Seq<DirChild>, b: Seq<DirChild>, k: Seq<u8>)
    ensures
        with_key(a + b, k) == with_key(a, k) + with_key(b, k),
{
    Seq::filter_distributes_over_add(a, b, key_is(k));
}

/// A byte string comes before every longer string that starts with it, and
/// never after it: a name sorts before its extensions.
pub proof fn lemma_lex_lt_prefix(a: Seq<u8>, b: Seq<u8>)
    requires
        b.len() >= 1,
    ensures
        lex_lt(a, a + b),
        !lex_lt(a + b, a),
    decreases a.len(),
{
    if a.len() == 0 {
        assert(a + b =~= b);
    } else {
        lemma_lex_lt_prefix(a.drop_first(), b);
        assert((a + b).drop_first() =~= a.drop_first() + b);
        assert((a + b)[0] == a[0]);
    }
}

/// Where two byte strings agree on their first `i` bytes and differ at byte
/// `i`, the one with the smaller byte there comes first.
pub proof fn lemma_lex_lt_first_difference(a: Seq<u8>, b: Seq<u8>, i: int)
    requires
        0 <= i < a.len(),
        i < b.len(),
        a.take(i) == b.take(i),
        a[i] != b[i],
    ensures
        lex_lt(a, b) == (a[i] < b[i]),
    decreases i,
{
    if i > 0 {
        assert(a[0] == a.take(i)[0] && b[0] == b.take(i)[0]);
        assert(a.drop_first().take(i - 1) =~= a.take(i).drop_first());
        assert(b.drop_first().take(i - 1) =~= b.take(i).drop_first());
        lemma_lex_lt_first_difference(a.drop_first(), b.drop_first(), i - 1);
    }
}

/// A directory sorts as if a slash followed its name: after a file of the
/// same name, or of its name followed by a byte below '/' (such as '.'),
/// and before a file of its name followed by a byte above '/' (such as
/// '0').
pub proof fn lemma_directory_sorts_with_slash(dir: DirChild, file: DirChild, c: u8, rest: Seq<u8>)
    requires
        dir is Directory,
        file is File,
    ensures
        child_name(file) == child_name(dir) ==> lex_lt(child_key(file), child_key(dir)),
        child_name(file) == child_name(dir) + seq![c] + rest && c < 0x2f ==> lex_lt(
            child_key(file),
            child_key(dir),
        ),
        child_name(file) == child_name(dir) + seq![c] + rest && c > 0x2f ==> lex_lt(
            child_key(dir),
            child_key(file),
        ),
{
    let n = child_name(dir);
    assert(child_key(dir) =~= n + seq![0x2fu8]);
    if child_name(file) == n {
        lemma_lex_lt_prefix(n, seq![0x2fu8]);
    }
    if child_name(file) == n + seq![c] + rest && c != 0x2f {
        let f = child_name(file);
        let k = child_key(dir);
        assert(f.take(n.len() as int) =~= n);
        assert(k.take(n.len() as int) =~= n);
        assert(f[n.len() as int] == c);
        assert(k[n.len() as int] == 0x2fu8);
        lemma_lex_lt_first_difference(f, k, n.len() as int);
        lemma_lex_lt_first_difference(k, f, n.len() as int);
    }
}

/// The lexicographic order is transitive.
pub proof fn lemma_lex_lt_transitive(a: Seq<u8>, b: Seq<u8>, c: Seq<u8>)
    requires
        lex_lt(a, b),
        lex_lt(b, c),
    ensures
        lex_lt(a, c),
    decreases a.len(),
{
    if a.len() > 0 && b.len() > 0 && c.len() > 0 && a[0] == b[0] && b[0] == c[0] {
        lemma_lex_lt_transitive(a.drop_first(), b.drop_first(), c.drop_first());
    }
}

/// No byte string comes before itself.
pub proof fn lemma_lex_lt_irreflexive(a: Seq<u8>)
    ensures
        !lex_lt(a, a),
    decreases a.len(),
{
    if a.len() > 0 {
        lemma_lex_lt_irreflexive(a.drop_first());
    }
}

fn lex_less(a: &[u8], b: &[u8]) -> (r: bool)
    ensures
        r == lex_lt(a@, b@),
{
    let mut i: usize = 0;
    proof {
        assert(a@.skip(0) =~= a@);
        assert(b@.skip(0) =~= b@);
    }
    while i < a.len() && i < b.len()
        invariant
            i <= a@.len(),
            i <= b@.len(),
            lex_lt(a@, b@) == lex_lt(a@.skip(i as int), b@.skip(i as int)),
        decreases a.len() - i,
    {
        if a[i] != b[i] {
            return a[i] < b[i];
        }
        proof {
            assert(a@.skip(i as int).drop_first() =~= a@.skip(i + 1));
            assert(b@.skip(i as int).drop_first() =~= b@.skip(i + 1));
        }
        i = i + 1;
    }
    i < b.len()
}

fn bytes_equal(a: &[u8], b: &[u8]) -> (r: bool)
    ensures
        r == (a@ == b@),
{
    if a.len() != b.len() {
        return false;
    }
    let mut i: usize = 0;
    while i < a.len()
        invariant
            i <= a@.len(),
            a@.len() == b@.len(),
            a@.take(i as int) == b@.take(i as int),
        decreases a.len() - i,
    {
        if a[i] != b[i] {
            return false;
        }
        proof {
            assert(a@.take(i + 1) =~= a@.take(i as int).push(a@[i as int]));
            assert(b@.take(i + 1) =~= b@.take(i as int).push(b@[i as int]));
        }
        i = i + 1;
    }
    proof {
        assert(a@.take(i as int) =~= a@);
        assert(b@.take(i as int) =~= b@);
    }
    true
}

/// Whether a directory of this name is left out of trees: ".git".
pub fn skips_directory(name: &str) -> (skip: bool)
    ensures
        skip == (encode_utf8(name@) == git_dir_name()),
{
    let git_name: Vec<u8> = vec![46u8, 103u8, 105u8, 116u8];
    proof {
        assert(git_name@ =~= git_dir_name());
    }
    bytes_equal(name.as_bytes(), git_name.as_slice())
}

fn child_key_bytes(c: &DirChild) -> (k: Vec<u8>)
    ensures
        k@ == child_key(*c),
{
    let mut k: Vec<u8> = Vec::new();
    match c {
        DirChild::File { name, .. } => {
            push_all(&mut k, name.as_str().as_bytes());
        },
        DirChild::Directory { name, .. } => {
            push_all(&mut k, name.as_str().as_bytes());
            k.push(0x2fu8);
        },
        DirChild::Other { name } => {
            push_all(&mut k, name.as_str().as_bytes());
        },
    }
    proof {
        assert(k@ =~= child_key(*c));
    }
    k
}

/// The children in the order of their keys (names, with a slash after a
/// directory's), as the walk of a directory sorts them; the sort is stable,
/// so children with equal keys keep their order.
pub fn sort_children(children: Vec<DirChild>) -> (sorted: Vec<DirChild>)
    ensures
        sorted@.to_multiset() == children@.to_multiset(),
        keys_sorted(sorted@),
        forall|k: Seq<u8>| #[trigger] with_key(sorted@, k) == with_key(children@, k),
{
    broadcast use vstd::seq_lib::group_to_multiset_ensures;

    let ghost orig = children@;
    let mut rest = children;
    let mut out: Vec<DirChild> = Vec::new();
    proof {
        assert forall|k: Seq<u8>| #[trigger] with_key(orig, k) == with_key(out@, k) + with_key(rest@, k) by {
            lemma_with_key_none(out@, k);
            assert(Seq::<DirChild>::empty() + with_key(rest@, k) =~= with_key(rest@, k));
        }
    }
    while rest.len() > 0
        invariant
            out@.to_multiset().add(rest@.to_multiset()) == orig.to_multiset(),
            forall|k: Seq<u8>| #[trigger] with_key(orig, k) == with_key(out@, k) + with_key(rest@, k),
            keys_sorted(out@),
            forall|i: int, j: int|
                0 <= i < out@.len() && 0 <= j < rest@.len() ==> !lex_lt(
                    child_key(rest@[j]),
                    child_key(out@[i]),
                ),
        decreases rest.len(),
    {
        let mut best: usize = 0;
        let mut best_key = child_key_bytes(&rest[0]);
        let mut j: usize = 1;
        proof {
            lemma_lex_lt_irreflexive(child_key(rest@[0]));
        }
        while j < rest.len()
            invariant
                0 < rest@.len(),
                best < j <= rest@.len(),
                best_key@ == child_key(rest@[best as int]),
                forall|k: int| 0 <= k < j ==> !lex_lt(child_key(rest@[k]), child_key(rest@[best as int])),
                forall|k: int| 0 <= k < best ==> child_key(#[trigger] rest@[k]) != child_key(rest@[best as int]),
            decreases rest.len() - j,
        {
            let key = child_key_bytes(&rest[j]);
            if lex_less(key.as_slice(), best_key.as_slice()) {
                proof {
                    assert forall|k: int| 0 <= k < j implies !lex_lt(
                        child_key(rest@[k]),
                        child_key(rest@[j as int]),
                    ) by {
                        if lex_lt(child_key(rest@[k]), child_key(rest@[j as int])) {
                            lemma_lex_lt_transitive(
                                child_key(rest@[k]),
                                child_key(rest@[j as int]),
                                child_key(rest@[best as int]),
                            );
                        }
                    }
                }
                proof {
                    lemma_lex_lt_irreflexive(child_key(rest@[j as int]));
                }
                best = j;
                best_key = key;
            }
            j = j + 1;
        }
        let ghost old_rest = rest@;
        let ghost old_out = out@;
        let x = rest.remove(best);
        proof {
            let a = old_rest.take(best as int);
            let b = old_rest.skip(best + 1);
            assert(old_rest =~= a + seq![x] + b);
            assert(rest@ =~= a + b);
            assert forall|k: Seq<u8>| #[trigger] with_key(orig, k) == with_key(old_out.push(x), k)
                + with_key(rest@, k) by {
                assert(old_out.push(x) =~= old_out + seq![x]);
                lemma_with_key_add(old_out, seq![x], k);
                lemma_with_key_add(a + seq![x], b, k);
                lemma_with_key_add(a, seq![x], k);
                lemma_with_key_add(a, b, k);
                lemma_with_key_one(x, k);
                if child_key(x) == k {
                    assert forall|i: int| 0 <= i < a.len() implies child_key(#[trigger] a[i]) != k by {
                        assert(a[i] == old_rest[i]);
                    }
                    lemma_with_key_none(a, k);
                }
                assert(with_key(orig, k) == with_key(old_out, k) + with_key(old_rest, k));
                assert(with_key(old_out, k) + (with_key(a, k) + with_key(seq![x], k) + with_key(b, k))
                    =~= with_key(old_out, k) + with_key(seq![x], k) + (with_key(a, k) + with_key(b, k)));
            }
            assert(old_rest.to_multiset().count(x) > 0) by {
                old_rest.to_multiset_ensures();
                assert(old_rest[best as int] == x);
                assert(old_rest.contains(x));
            }
        }
        out.push(x);
        proof {
            assert(out@.to_multiset().add(rest@.to_multiset()) =~= orig.to_multiset()) by {
                assert(out@ == old_out.push(x));
                assert(rest@ == old_rest.remove(best as int));
                old_out.to_multiset_ensures();
                old_rest.to_multiset_ensures();
                assert(out@.to_multiset() =~= old_out.to_multiset().insert(x));
                assert(rest@.to_multiset() =~= old_rest.to_multiset().remove(x));
            }
            assert forall|i: int, k: int| 0 <= i < k < out@.len() implies !lex_lt(
                child_key(out@[k]),
                child_key(out@[i]),
            ) by {
                if k < old_out.len() {
                } else {
                    assert(out@[k] == old_rest[best as int]);
                }
            }
            assert forall|i: int, k: int| 0 <= i < out@.len() && 0 <= k < rest@.len() implies !lex_lt(
                child_key(rest@[k]),
                child_key(out@[i]),
            ) by {
                let kk = if k < best { k } else { k + 1 };
                assert(rest@[k] == old_rest[kk]);
                if i < old_out.len() {
                } else {
                    assert(out@[i] == old_rest[best as int]);
                }
            }
        }
    }
    proof {
        assert(rest@.to_multiset() =~= Multiset::empty());
        assert(out@.to_multiset().add(Multiset::empty()) =~= out@.to_multiset());
        assert forall|k: Seq<u8>| #[trigger] with_key(out@, k) == with_key(orig, k) by {
            lemma_with_key_none(rest@, k);
            assert(with_key(out@, k) + Seq::<DirChild>::empty() =~= with_key(out@, k));
        }
    }
    out
}

fn push_item(content: &mut Vec<u8>, mode: &[u8], name: &[u8], id: &[u8])
    ensures
        final(content)@ == old(content)@ + item_bytes(TreeItem { mode: mode@, name: name@, id: id@ }),
{
    let ghost start = old(content)@;
    push_all(content, mode);
    content.push(0x20u8);
    push_all(content, name);
    content.push(0u8);
    push_all(content, id);
    proof {
        assert(content@ =~= start + item_bytes(TreeItem { mode: mode@, name: name@, id: id@ }));
    }
}

/// The tree object for children already in order: each file by the SHA-1
/// of its blob under mode "100644", each directory but ".git" by its tree id
/// under mode "40000", anything else left out.
pub fn tree_object_of_sorted(children: &[DirChild]) -> (data: Vec<u8>)
    requires
        forall|i: int| 0 <= i < children@.len() ==> child_writable(#[trigger] children@[i]),
    ensures
        data@ == tree_object(child_items(children@)),
        forall|k: int| 0 <= k < children@.len() && children@[k] is File ==> names_full_id(
            #[trigger] children@[k],
        ),
{
    let file_mode_bytes: Vec<u8> = vec![49u8, 48u8, 48u8, 54u8, 52u8, 52u8];
    let dir_mode_bytes: Vec<u8> = vec![52u8, 48u8, 48u8, 48u8, 48u8];
    proof {
        assert(file_mode_bytes@ =~= file_mode());
        assert(dir_mode_bytes@ =~= dir_mode());
    }
    let mut content: Vec<u8> = Vec::new();
    let mut i: usize = 0;
    while i < children.len()
        invariant
            i <= children@.len(),
            forall|k: int| 0 <= k < children@.len() ==> child_writable(#[trigger] children@[k]),
            file_mode_bytes@ == file_mode(),
            dir_mode_bytes@ == dir_mode(),
            content@ == items_bytes(child_items(children@.take(i as int))),
            forall|k: int| 0 <= k < i && children@[k] is File ==> names_full_id(#[trigger] children@[k]),
        decreases children.len() - i,
    {
        let ghost before = content@;
        proof {
            assert(children@.take(i + 1).drop_last() =~= children@.take(i as int));
            assert(children@.take(i + 1).last() == children@[i as int]);
            assert(child_writable(children@[i as int]));
        }
        match &children[i] {
            DirChild::File { name, contents } => {
                let blob = get_file_blob(contents.as_slice());
                let id = sha1(blob.as_slice());
                push_item(&mut content, file_mode_bytes.as_slice(), name.as_str().as_bytes(), id.as_slice());
                proof {
                    let t = child_item(children@[i as int]).unwrap();
                    assert(child_items(children@.take(i + 1)) == child_items(children@.take(i as int)).push(t));
                    assert(child_items(children@.take(i as int)).push(t).drop_last() =~= child_items(children@.take(i as int)));
                    assert(item_bytes(t) == item_bytes(TreeItem { mode: file_mode_bytes@, name: encode_utf8(name@), id: id@ }));
                }
            },
            DirChild::Directory { name, tree_id } => {
                if !skips_directory(name.as_str()) {
                    match hex_decode(tree_id.as_str().as_bytes()) {
                        Ok(id) => {
                            push_item(
                                &mut content,
                                dir_mode_bytes.as_slice(),
                                name.as_str().as_bytes(),
                                id.as_slice(),
                            );
                            proof {
                                let t = child_item(children@[i as int]).unwrap();
                                assert(child_items(children@.take(i + 1)) == child_items(children@.take(i as int)).push(t));
                                assert(child_items(children@.take(i as int)).push(t).drop_last() =~= child_items(children@.take(i as int)));
                            }
                        },
                        Err(_) => {
                            proof {
                                assert(false);
                            }
                        },
                    }
                }
            },
            DirChild::Other { .. } => {},
        }
        i = i + 1;
    }
    proof {
        assert(children@.take(i as int) =~= children@);
    }
    let kind: Vec<u8> = vec![116u8, 114u8, 101u8, 101u8];
    proof {
        assert(kind@ =~= tree_kind());
    }
    frame_object(kind.as_slice(), content.as_slice())
}

/// The tree object for the children of a directory: they are put in the
/// order of their keys, those with equal keys keeping their order, then
/// written as `tree_object_of_sorted` writes them.
pub fn tree_object_from_children(children: Vec<DirChild>) -> (data: Vec<u8>)
    requires
        forall|i: int| 0 <= i < children@.len() ==> child_writable(#[trigger] children@[i]),
    ensures
        forall|k: int| 0 <= k < children@.len() && children@[k] is File ==> names_full_id(
            #[trigger] children@[k],
        ),
        exists|order: Seq<DirChild>|
            #![trigger tree_object(child_items(order))]
            order.to_multiset() == children@.to_multiset() && keys_sorted(order) && (forall|
                k: Seq<u8>,
            | #[trigger] with_key(order, k) == with_key(children@, k)) && data@ == tree_object(
                child_items(order),
            ),
{
    broadcast use vstd::seq_lib::group_to_multiset_ensures;

    let ghost orig = children@;
    let sorted = sort_children(children);
    proof {
        assert forall|i: int| 0 <= i < sorted@.len() implies child_writable(#[trigger] sorted@[i]) by {
            assert(sorted@.to_multiset().count(sorted@[i]) > 0) by {
                assert(sorted@.contains(sorted@[i]));
            }
            assert(orig.contains(sorted@[i]));
            let k = choose|k: int| 0 <= k < orig.len() && orig[k] == sorted@[i];
            assert(child_writable(orig[k]));
        }
    }
    let data = tree_object_of_sorted(sorted.as_slice());
    proof {
        assert forall|k: int| 0 <= k < orig.len() && orig[k] is File implies names_full_id(
            #[trigger] orig[k],
        ) by {
            assert(orig.to_multiset().count(orig[k]) > 0) by {
                assert(orig.contains(orig[k]));
            }
            assert(sorted@.contains(orig[k]));
            let j = choose|j: int| 0 <= j < sorted@.len() && sorted@[j] == orig[k];
            assert(names_full_id(sorted@[j]));
        }
    }
    data
}


/// The names of the children that a tree records, in order.
pub open spec fn child_names(s: Seq<DirChild>) -> Seq<Seq<char>>
    decreases s.len(),
{
    if s.len() == 0 {
        Seq::empty()
    } else {
        let c = s.last();
        let name = match c {
            DirChild::File { name, .. } => name@,
            DirChild::Directory { name, .. } => name@,
            DirChild::Other { name } => name@,
        };
        match child_item(c) {
            Some(_) => child_names(s.drop_last()).push(name),
            None => child_names(s.drop_last()),
        }
    }
}

/// The text of a child's name.
pub open spec fn child_name_text(c: DirChild) -> Seq<char> {
    match c {
        DirChild::File { name, .. } => name@,
        DirChild::Directory { name, .. } => name@,
        DirChild::Other { name } => name@,
    }
}

/// A byte below 0x80 occurs in the UTF-8 encoding of a text only where the
/// character it stands for occurs in the text.
pub proof fn lemma_encode_ascii_byte(chars: Seq<char>, b: u8)
    requires
        b < 0x80,
        !chars.contains(b as char),
    ensures
        !encode_utf8(chars).contains(b),
    decreases chars.len(),
{
    if chars.len() > 0 {
        let rest = chars.drop_first();
        assert(!rest.contains(b as char)) by {
            if rest.contains(b as char) {
                let i = choose|i: int| 0 <= i < rest.len() && rest[i] == b as char;
                assert(chars[i + 1] == b as char);
            }
        }
        lemma_encode_ascii_byte(rest, b);
        let c = chars[0] as u32;
        let e = encode_scalar(c);
        assert(chars[0] != b as char);
        assert(c != b as u32) by {
            if c == b as u32 {
                vstd::utf8::char_u32_cast(chars[0], c);
                assert((b as u32) as char == b as char);
            }
        }
        assert(!e.contains(b)) by {
            if c <= 0x7f {
                assert((c & 0x7f) as u8 == c as u8) by (bit_vector)
                    requires
                        c <= 0x7f,
                ;
                assert(e[0] != b);
            } else {
                assert forall|x: u32| #![auto] (0xC0u8 | ((x >> 6u32) & 0x1Fu32) as u8) >= 0x80u8 by {
                    assert(forall|x: u32| (0xC0u8 | ((x >> 6u32) & 0x1Fu32) as u8) >= 0x80u8) by (bit_vector);
                }
                assert forall|x: u32| #![auto] (0xE0u8 | ((x >> 12u32) & 0x0Fu32) as u8) >= 0x80u8 by {
                    assert(forall|x: u32| (0xE0u8 | ((x >> 12u32) & 0x0Fu32) as u8) >= 0x80u8) by (bit_vector);
                }
                assert forall|x: u32| #![auto] (0xF0u8 | ((x >> 18u32) & 0x7u32) as u8) >= 0x80u8 by {
                    assert(forall|x: u32| (0xF0u8 | ((x >> 18u32) & 0x7u32) as u8) >= 0x80u8) by (bit_vector);
                }
                assert forall|x: u32| #![auto] (0x80u8 | (x & 0x3Fu32) as u8) >= 0x80u8 by {
                    assert(forall|x: u32| (0x80u8 | (x & 0x3Fu32) as u8) >= 0x80u8) by (bit_vector);
                }
                assert forall|x: u32| #![auto] (0x80u8 | ((x >> 6u32) & 0x3Fu32) as u8) >= 0x80u8 by {
                    assert(forall|x: u32| (0x80u8 | ((x >> 6u32) & 0x3Fu32) as u8) >= 0x80u8) by (bit_vector);
                }
                assert forall|x: u32| #![auto] (0x80u8 | ((x >> 12u32) & 0x3Fu32) as u8) >= 0x80u8 by {
                    assert(forall|x: u32| (0x80u8 | ((x >> 12u32) & 0x3Fu32) as u8) >= 0x80u8) by (bit_vector);
                }
                assert forall|i: int| 0 <= i < e.len() implies e[i] >= 0x80u8 by {}
            }
        }
        let all = encode_utf8(chars);
        assert(all == e + encode_utf8(rest));
        assert forall|i: int| 0 <= i < all.len() implies all[i] != b by {
            if i < e.len() {
                assert(all[i] == e[i]);
            } else {
                assert(all[i] == encode_utf8(rest)[i - e.len()]);
            }
        }
    }
}

proof fn lemma_ascii_mode(chars: Seq<char>, mode: Seq<u8>)
    requires
        is_ascii_chars(chars),
        mode.len() == chars.len(),
        forall|i: int| 0 <= i < chars.len() ==> #[trigger] mode[i] == chars[i] as u8,
        !chars.contains(' '),
        !chars.contains('\0'),
    ensures
        mode == encode_utf8(chars),
        lossy_text(mode) == chars,
        !mode.contains(0x20u8),
        !mode.contains(0u8),
{
    is_ascii_chars_encode_utf8(chars);
    assert(mode =~= encode_utf8(chars));
    encode_utf8_valid_utf8(chars);
    encode_utf8_decode_utf8(chars);
    lemma_encode_ascii_byte(chars, 0x20u8);
    lemma_encode_ascii_byte(chars, 0u8);
}

proof fn lemma_child_item_readable(c: DirChild)
    requires
        child_item(c) is Some,
        child_item(c).unwrap().id.len() == 20,
        !child_name_text(c).contains(' '),
        !child_name_text(c).contains('\0'),
    ensures
        item_readable(child_item(c).unwrap()),
        item_text(child_item(c).unwrap()).name == child_name_text(c),
{
    let t = child_item(c).unwrap();
    let name = child_name_text(c);
    assert(t.name == encode_utf8(name));
    lemma_encode_ascii_byte(name, 0x20u8);
    lemma_encode_ascii_byte(name, 0u8);
    encode_utf8_valid_utf8(name);
    encode_utf8_decode_utf8(name);
    assert(lossy_text(t.name) == name);
    match c {
        DirChild::File { .. } => {
            let chars = seq!['1', '0', '0', '6', '4', '4'];
            assert(is_ascii_chars(chars));
            lemma_ascii_mode(chars, file_mode());
        },
        DirChild::Directory { .. } => {
            let chars = seq!['4', '0', '0', '0', '0'];
            assert(is_ascii_chars(chars));
            lemma_ascii_mode(chars, dir_mode());
        },
        DirChild::Other { .. } => {},
    }
}

proof fn lemma_child_names(s: Seq<DirChild>)
    ensures
        child_items(s).len() == child_names(s).len(),
        forall|i: int| 0 <= i < child_items(s).len() ==> exists|k: int| 0 <= k < s.len()
            && child_item(s[k]) == Some(#[trigger] child_items(s)[i]) && child_name_text(s[k])
            == child_names(s)[i],
    decreases s.len(),
{
    if s.len() > 0 {
        let prev = s.drop_last();
        lemma_child_names(prev);
        assert forall|i: int| 0 <= i < child_items(s).len() implies exists|k: int| 0 <= k < s.len()
            && child_item(s[k]) == Some(#[trigger] child_items(s)[i]) && child_name_text(s[k])
            == child_names(s)[i] by {
            if i < child_items(prev).len() {
                let k = choose|k: int| 0 <= k < prev.len() && child_item(prev[k]) == Some(child_items(prev)[i])
                    && child_name_text(prev[k]) == child_names(prev)[i];
                assert(s[k] == prev[k]);
            } else {
                assert(s[s.len() - 1] == s.last());
            }
        }
    }
}

proof fn lemma_hex_decoded_push(t: Seq<u8>, v: Seq<u8>, x: u8, y: u8, hi: u8, lo: u8)
    requires
        hex_decoded(t) == Some(v),
        hex_digit_value(x) == Some(hi),
        hex_digit_value(y) == Some(lo),
    ensures
        hex_decoded(t + seq![x, y]) == Some(v.push((hi * 16 + lo) as u8)),
    decreases t.len(),
{
    let u = t + seq![x, y];
    let z = (hi * 16 + lo) as u8;
    if t.len() == 0 {
        assert(u =~= seq![x, y]);
        assert(u.skip(2) =~= Seq::<u8>::empty());
        assert(hex_decoded(u.skip(2)) == Some(Seq::<u8>::empty()));
        assert(hex_decoded(u) == Some(seq![z] + Seq::<u8>::empty()));
        assert(seq![z] + Seq::<u8>::empty() =~= v.push(z));
    } else {
        assert(t.len() >= 2);
        let rest = hex_decoded(t.skip(2)).unwrap();
        lemma_hex_decoded_push(t.skip(2), rest, x, y, hi, lo);
        assert(u.skip(2) =~= t.skip(2) + seq![x, y]);
        assert(u[0] == t[0] && u[1] == t[1]);
        let w = (hex_digit_value(t[0]).unwrap() * 16 + hex_digit_value(t[1]).unwrap()) as u8;
        assert(v == seq![w] + rest);
        assert(hex_decoded(u.skip(2)) == Some(rest.push(z)));
        assert(hex_decoded(u) == Some(seq![w] + rest.push(z)));
        assert(seq![w] + rest.push(z) =~= v.push(z));
    }
}

proof fn lemma_nibble_digit(q: u8)
    requires
        q < 16,
    ensures
        '\0' <= nibble_char(q) <= '\u{7f}',
        hex_digit_value(nibble_char(q) as u8) == Some(q),
{
    if q < 10 {
        assert((q + 48) as char as u8 == q + 48);
    } else {
        assert((q + 87) as char as u8 == q + 87);
    }
}

/// Reading back the lowercase hex text of a byte string gives the byte
/// string: `hex::decode` of what an object id is printed as is the id.
pub proof fn lemma_hex_round_trip(id: Seq<u8>)
    ensures
        is_ascii_chars(hex_lower(id)),
        hex_decoded(encode_utf8(hex_lower(id))) == Some(id),
    decreases id.len(),
{
    let h = hex_lower(id);
    if id.len() == 0 {
        assert(encode_utf8(h) =~= Seq::<u8>::empty());
    } else {
        let front = id.drop_last();
        let b = id.last();
        lemma_hex_round_trip(front);
        let hf = hex_lower(front);
        let p = hex_pair(b);
        assert(h == hf + p);
        lemma_nibble_digit(b / 16);
        lemma_nibble_digit(b % 16);
        assert(is_ascii_chars(h)) by {
            assert forall|i: int| 0 <= i < h.len() implies '\0' <= #[trigger] h[i] <= '\u{7f}' by {
                if i < hf.len() {
                    assert(h[i] == hf[i]);
                } else {
                    assert(h[i] == p[i - hf.len()]);
                }
            }
        }
        is_ascii_chars_encode_utf8(h);
        is_ascii_chars_encode_utf8(hf);
        let x = nibble_char(b / 16) as u8;
        let y = nibble_char(b % 16) as u8;
        assert(encode_utf8(h) =~= encode_utf8(hf) + seq![x, y]) by {
            assert forall|i: int| 0 <= i < h.len() implies #[trigger] encode_utf8(h)[i] == (
            encode_utf8(hf) + seq![x, y])[i] by {
                assert(encode_utf8(h)[i] == h[i] as u8);
                if i < hf.len() {
                    assert(h[i] == hf[i]);
                    assert(encode_utf8(hf)[i] == hf[i] as u8);
                } else {
                    assert(h[i] == p[i - hf.len()]);
                }
            }
        }
        lemma_hex_decoded_push(encode_utf8(hf), front, x, y, b / 16, b % 16);
        assert(((b / 16) * 16 + b % 16) as u8 == b);
        assert(front.push(b) =~= id);
    }
}

/// A child names a full 20-byte object id: a file by the digest of its blob,
/// a directory by the hex text of 20 bytes (as `write-tree` prints the id of
/// the tree it wrote for it).
pub open spec fn names_full_id(c: DirChild) -> bool {
    match c {
        DirChild::File { contents, .. } => sha1_digest(framed(blob_kind(), contents@)).len() == 20,
        DirChild::Directory { tree_id, .. } => exists|id: Seq<u8>|
            id.len() == 20 && #[trigger] hex_lower(id) == tree_id@,
        DirChild::Other { .. } => true,
    }
}

/// `ls-tree --name-only` on the tree that `write-tree` makes of some
/// children lists the names of the children it records (files, and
/// directories but ".git"), in the order they were written, where no name
/// holds a space or a NUL character and every child names a full object id.
pub proof fn lemma_ls_tree_names_after_write(order: Seq<DirChild>)
    requires
        child_items(order).len() >= 1,
        forall|i: int| 0 <= i < order.len() ==> names_full_id(#[trigger] order[i]),
        forall|i: int| 0 <= i < order.len() ==> !child_name_text(#[trigger] order[i]).contains(' ')
            && !child_name_text(order[i]).contains('\0'),
    ensures
        tree_parses(tree_object(child_items(order))),
        ls_lines(tree_entries(tree_object(child_items(order))), true) == child_names(order),
{
    let items = child_items(order);
    lemma_child_names(order);
    assert forall|i: int| 0 <= i < items.len() implies item_readable(#[trigger] items[i])
        && item_text(items[i]).name == child_names(order)[i] by {
        let k = choose|k: int| 0 <= k < order.len() && child_item(order[k]) == Some(items[i])
            && child_name_text(order[k]) == child_names(order)[i];
        assert(names_full_id(order[k]));
        if let DirChild::Directory { tree_id, .. } = order[k] {
            let id = choose|id: Seq<u8>| id.len() == 20 && #[trigger] hex_lower(id) == tree_id@;
            lemma_hex_round_trip(id);
        }
        lemma_child_item_readable(order[k]);
    }
    lemma_tree_object_read_back(items);
    assert(ls_lines(items.map_values(|e: TreeItem| item_text(e)), true) =~= child_names(order));
}


/// Of two different byte strings, one comes before the other.
pub proof fn lemma_lex_lt_total(a: Seq<u8>, b: Seq<u8>)
    requires
        !lex_lt(a, b),
        !lex_lt(b, a),
    ensures
        a == b,
    decreases a.len(),
{
    if a.len() > 0 && b.len() > 0 {
        lemma_lex_lt_total(a.drop_first(), b.drop_first());
        assert(a =~= seq![a[0]] + a.drop_first());
        assert(b =~= seq![b[0]] + b.drop_first());
    } else {
        assert(a =~= b);
    }
}

/// No two children have the same key.
pub open spec fn keys_distinct(s: Seq<DirChild>) -> bool {
    forall|i: int, j: int| 0 <= i < s.len() && 0 <= j < s.len() && i != j ==> child_key(#[trigger] s[i]) != child_key(#[trigger] s[j])
}

/// Two orderings of the same children by their keys are the same ordering,
/// where no two children share a key.
pub proof fn lemma_sorted_unique(a: Seq<DirChild>, b: Seq<DirChild>)
    requires
        a.to_multiset() == b.to_multiset(),
        keys_sorted(a),
        keys_sorted(b),
        keys_distinct(a),
    ensures
        a == b,
    decreases a.len(),
{
    broadcast use vstd::seq_lib::group_to_multiset_ensures;

    a.to_multiset_ensures();
    b.to_multiset_ensures();
    if a.len() == 0 {
        assert(b.len() == 0);
        assert(a =~= b);
    } else {
        assert(b.len() == a.len());
        // b[0] is in a, and a[0] is in b
        assert(a.to_multiset().count(b[0]) > 0) by {
            assert(b.contains(b[0]));
        }
        assert(a.contains(b[0]));
        let k = choose|k: int| 0 <= k < a.len() && a[k] == b[0];
        assert(b.to_multiset().count(a[0]) > 0) by {
            assert(a.contains(a[0]));
        }
        assert(b.contains(a[0]));
        let m = choose|m: int| 0 <= m < b.len() && b[m] == a[0];
        lemma_lex_lt_irreflexive(child_key(a[0]));
        if k != 0 {
            assert(!lex_lt(child_key(a[k]), child_key(a[0])));
        }
        if m != 0 {
            assert(!lex_lt(child_key(b[m]), child_key(b[0])));
        }
        assert(!lex_lt(child_key(b[0]), child_key(a[0])));
        assert(!lex_lt(child_key(a[0]), child_key(b[0])));
        lemma_lex_lt_total(child_key(a[0]), child_key(b[0]));
        assert(k == 0);
        assert(a[0] == b[0]);
        let a2 = a.drop_first();
        let b2 = b.drop_first();
        assert(a2 =~= a.remove(0));
        assert(b2 =~= b.remove(0));
        assert(a2.to_multiset() =~= b2.to_multiset());
        assert(keys_sorted(a2)) by {
            assert forall|i: int, j: int| 0 <= i < j < a2.len() implies !lex_lt(child_key(a2[j]), child_key(a2[i])) by {
                assert(a2[i] == a[i + 1] && a2[j] == a[j + 1]);
            }
        }
        assert(keys_sorted(b2)) by {
            assert forall|i: int, j: int| 0 <= i < j < b2.len() implies !lex_lt(child_key(b2[j]), child_key(b2[i])) by {
                assert(b2[i] == b[i + 1] && b2[j] == b[j + 1]);
            }
        }
        assert(keys_distinct(a2)) by {
            assert forall|i: int, j: int| 0 <= i < a2.len() && 0 <= j < a2.len() && i != j implies child_key(#[trigger] a2[i]) != child_key(#[trigger] a2[j]) by {
                assert(a2[i] == a[i + 1] && a2[j] == a[j + 1]);
            }
        }
        lemma_sorted_unique(a2, b2);
        assert(a =~= seq![a[0]] + a2);
        assert(b =~= seq![b[0]] + b2);
    }
}

/// The tree that `write-tree` makes of a directory does not depend on the
/// order in which the directory's children were listed: any two orderings
/// of the same children by their keys give the same tree object, where no
/// two children share a key (as no two entries of a directory share a name).
pub proof fn lemma_write_tree_order_independent(o1: Seq<DirChild>, o2: Seq<DirChild>)
    requires
        o1.to_multiset() == o2.to_multiset(),
        keys_sorted(o1),
        keys_sorted(o2),
        keys_distinct(o1),
    ensures
        tree_object(child_items(o1)) == tree_object(child_items(o2)),
{
    lemma_sorted_unique(o1, o2);
}

/// Some child of `s` has the key `k` where some child with that key is
/// kept.
proof fn lemma_with_key_some(s: Seq<DirChild>, k: Seq<u8>) -> (i: int)
    requires
        with_key(s, k).len() > 0,
    ensures
        0 <= i < s.len(),
        child_key(s[i]) == k,
{
    if forall|i: int| 0 <= i < s.len() ==> child_key(#[trigger] s[i]) != k {
        lemma_with_key_none(s, k);
    }
    choose|i: int| 0 <= i < s.len() && child_key(#[trigger] s[i]) == k
}

/// Two orderings of children by their keys in which the children of each
/// key stand in the same order are the same ordering.
pub proof fn lemma_stable_order_unique(a: Seq<DirChild>, b: Seq<DirChild>)
    requires
        keys_sorted(a),
        keys_sorted(b),
        forall|k: Seq<u8>| #[trigger] with_key(a, k) == with_key(b, k),
    ensures
        a == b,
    decreases a.len() + b.len(),
{
    if a.len() == 0 && b.len() == 0 {
        assert(a =~= b);
    } else {
        // the first child of one that is not empty has a key that the other holds too
        let (s, t) = if a.len() > 0 { (a, b) } else { (b, a) };
        let ks = child_key(s[0]);
        lemma_with_key_add(seq![s[0]], s.drop_first(), ks);
        lemma_with_key_one(s[0], ks);
        assert(s =~= seq![s[0]] + s.drop_first());
        assert(with_key(t, ks) == with_key(s, ks));
        let _ = lemma_with_key_some(t, ks);
        assert(t.len() > 0);
        let a1 = a.drop_first();
        let b1 = b.drop_first();
        assert(a =~= seq![a[0]] + a1);
        assert(b =~= seq![b[0]] + b1);
        let ka = child_key(a[0]);
        let kb = child_key(b[0]);
        // each first key is at most the other
        lemma_with_key_add(seq![a[0]], a1, ka);
        lemma_with_key_one(a[0], ka);
        let ib = lemma_with_key_some(b, ka);
        lemma_with_key_add(seq![b[0]], b1, kb);
        lemma_with_key_one(b[0], kb);
        let ia = lemma_with_key_some(a, kb);
        lemma_lex_lt_irreflexive(ka);
        lemma_lex_lt_irreflexive(kb);
        if ib != 0 {
            assert(!lex_lt(child_key(b[ib]), child_key(b[0])));
        }
        if ia != 0 {
            assert(!lex_lt(child_key(a[ia]), child_key(a[0])));
        }
        lemma_lex_lt_total(ka, kb);
        assert(ka == kb);
        assert(with_key(a, ka) == seq![a[0]] + with_key(a1, ka));
        assert(with_key(b, ka) == seq![b[0]] + with_key(b1, ka));
        assert((seq![a[0]] + with_key(a1, ka))[0] == a[0]);
        assert(a[0] == b[0]);
        assert forall|k: Seq<u8>| #[trigger] with_key(a1, k) == with_key(b1, k) by {
            lemma_with_key_add(seq![a[0]], a1, k);
            lemma_with_key_add(seq![b[0]], b1, k);
            lemma_with_key_one(a[0], k);
            if k == ka {
                assert(with_key(a1, k) =~= (seq![a[0]] + with_key(a1, k)).drop_first());
                assert(with_key(b1, k) =~= (seq![b[0]] + with_key(b1, k)).drop_first());
            } else {
                assert(Seq::<DirChild>::empty() + with_key(a1, k) =~= with_key(a1, k));
                assert(Seq::<DirChild>::empty() + with_key(b1, k) =~= with_key(b1, k));
            }
        }
        assert(keys_sorted(a1)) by {
            assert forall|i: int, j: int| 0 <= i < j < a1.len() implies !lex_lt(child_key(a1[j]), child_key(a1[i])) by {
                assert(a1[i] == a[i + 1] && a1[j] == a[j + 1]);
            }
        }
        assert(keys_sorted(b1)) by {
            assert forall|i: int, j: int| 0 <= i < j < b1.len() implies !lex_lt(child_key(b1[j]), child_key(b1[i])) by {
                assert(b1[i] == b[i + 1] && b1[j] == b[j + 1]);
            }
        }
        lemma_stable_order_unique(a1, b1);
    }
}

} // verus!
