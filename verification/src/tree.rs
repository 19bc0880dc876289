//! Reading tree objects: the entries "<mode> <name>\0<20-byte id>" that
//! follow the object header, as `ls-tree` lists them.

use crate::encoding::{hex_lower, push_hex};
use crate::external::{lossy_chars, string_from_chars, lossy_text};
use vstd::prelude::*;
use vstd::string::StringExecFns;

verus! {

/// One entry of a tree object, as text: its mode, its name and its object id
/// in lowercase hex.
#[derive(Debug, Clone, PartialEq, Eq)]
pub struct TreeEntry {
    pub mode: String,
    pub name: String,
    pub hash: String,
}

/// The text of a tree entry.
#[verifier::ext_equal]
pub struct EntryText {
    pub mode: Seq<char>,
    pub name: Seq<char>,
    pub hash: Seq<char>,
}

impl View for TreeEntry {
    type V = EntryText;

    open spec fn view(&self) -> EntryText {
        EntryText { mode: self.mode@, name: self.name@, hash: self.hash@ }
    }
}

/// The pieces of a text between its spaces, as `str::split(' ')` yields them.
pub open spec fn split_spaces(s: Seq<char>) -> Seq<Seq<char>>
    decreases s.len(),
{
    match s.index_of_first(' ') {
        None => seq![s],
        Some(i) => {
            proof {
                s.index_of_first_ensures(' ');
            }
            seq![s.take(i)] + split_spaces(s.skip(i + 1))
        },
    }
}

/// A mode text padded on the left with zeros to six characters, as
/// `format!("{:0>6}", ..)` writes it.
pub open spec fn pad_mode(s: Seq<char>) -> Seq<char> {
    if s.len() < 6 {
        Seq::new((6 - s.len()) as nat, |i: int| '0') + s
    } else {
        s
    }
}

/// A padded mode is at least six characters long, ends with the mode, and
/// has only '0's before it.
pub proof fn lemma_pad_mode(s: Seq<char>)
    ensures
        pad_mode(s).len() == if s.len() < 6 { 6 } else { s.len() },
        pad_mode(s).skip(pad_mode(s).len() - s.len()) == s,
        forall|i: int| 0 <= i < pad_mode(s).len() - s.len() ==> #[trigger] pad_mode(s)[i] == '0',
{
    let p = pad_mode(s);
    assert(p.skip(p.len() - s.len()) =~= s);
}

/// The state of the scan over the bytes of a tree object.
#[verifier::ext_equal]
pub struct TreeScan {
    /// The header (everything up to the first NUL) has been passed.
    pub header: bool,
    /// The raw bytes of an object id are being read.
    pub reading: bool,
    /// The bytes gathered since the last separator.
    pub line: Seq<u8>,
    /// The text of the entry being assembled, fields ended by spaces.
    pub record: Seq<char>,
    /// The raw id bytes read so far.
    pub current: Seq<u8>,
    /// The entries closed so far.
    pub entries: Seq<EntryText>,
    /// Some entry was closed with fewer than three fields.
    pub broken: bool,
}

/// The scan before the first byte.
pub open spec fn scan_start() -> TreeScan {
    TreeScan {
        header: false,
        reading: false,
        line: Seq::empty(),
        record: Seq::empty(),
        current: Seq::empty(),
        entries: Seq::empty(),
        broken: false,
    }
}

/// The entry that a finished record stands for: its first three fields.
pub open spec fn entry_of(record: Seq<char>) -> EntryText {
    let f = split_spaces(record);
    EntryText { mode: f[0], name: f[1], hash: f[2] }
}

/// Closes the record being assembled: its id goes on as hex, and its
/// fields become an entry.
pub open spec fn close_record(st: TreeScan) -> TreeScan {
    let rec = st.record + hex_lower(st.current);
    TreeScan {
        header: st.header,
        reading: false,
        line: st.line,
        record: Seq::empty(),
        current: Seq::empty(),
        entries: st.entries.push(entry_of(rec)),
        broken: st.broken || split_spaces(rec).len() < 3,
    }
}

/// One byte of the scan.
pub open spec fn scan_step(st: TreeScan, b: u8) -> TreeScan {
    if !st.header {
        TreeScan { header: b == 0, ..st }
    } else if b == 0x20 && !st.reading {
        TreeScan {
            record: st.record + pad_mode(lossy_text(st.line)) + seq![' '],
            line: Seq::empty(),
            ..st
        }
    } else if b == 0 && !st.reading {
        TreeScan {
            record: st.record + lossy_text(st.line) + seq![' '],
            line: Seq::empty(),
            reading: true,
            ..st
        }
    } else if st.reading && st.current.len() != 20 {
        TreeScan { current: st.current.push(b), ..st }
    } else if st.current.len() == 20 {
        let c = close_record(st);
        TreeScan { line: c.line.push(b), ..c }
    } else {
        TreeScan { line: st.line.push(b), ..st }
    }
}

/// The scan after the given bytes, from the given state.
pub open spec fn scan_run(st: TreeScan, data: Seq<u8>) -> TreeScan
    decreases data.len(),
{
    if data.len() == 0 {
        st
    } else {
        scan_step(scan_run(st, data.drop_last()), data.last())
    }
}

/// The whole scan of a tree object: every byte, then the last record closed.
pub open spec fn tree_scan(data: Seq<u8>) -> TreeScan {
    close_record(scan_run(scan_start(), data))
}

/// The entries of a tree object.
pub open spec fn tree_entries(data: Seq<u8>) -> Seq<EntryText> {
    tree_scan(data).entries
}

/// The scan of a tree object closes every record with three fields or more.
pub open spec fn tree_parses(data: Seq<u8>) -> bool {
    !tree_scan(data).broken
}

/// The views of a list of entries.
pub open spec fn entry_texts(v: Seq<TreeEntry>) -> Seq<EntryText> {
    v.map_values(|e: TreeEntry| e@)
}

fn copy_range<T: Copy>(v: &[T], lo: usize, hi: usize) -> (r: Vec<T>)
    requires
        lo <= hi <= v@.len(),
    ensures
        r@ == v@.subrange(lo as int, hi as int),
{
    let mut r: Vec<T> = Vec::new();
    let mut k: usize = lo;
    while k < hi
        invariant
            lo <= k <= hi <= v@.len(),
            r@ == v@.subrange(lo as int, k as int),
        decreases hi - k,
    {
        r.push(v[k]);
        proof {
            assert(v@.subrange(lo as int, k + 1) =~= v@.subrange(lo as int, k as int).push(v@[k as int]));
        }
        k = k + 1;
    }
    r
}

fn find_space(v: &[char], from: usize) -> (r: Option<usize>)
    requires
        from <= v@.len(),
    ensures
        match r {
            Some(k) => from <= k < v@.len() && v@.skip(from as int).index_of_first(' ') == Some(
                k - from,
            ),
            None => v@.skip(from as int).index_of_first(' ') is None,
        },
{
    let ghost s = v@.skip(from as int);
    proof {
        s.index_of_first_ensures(' ');
    }
    let mut k: usize = from;
    while k < v.len()
        invariant
            from <= k <= v@.len(),
            s == v@.skip(from as int),
            forall|j: int| from <= j < k ==> v@[j] != ' ',
        decreases v.len() - k,
    {
        if v[k] == ' ' {
            proof {
                s.index_of_first_ensures(' ');
                assert(s[k - from] == ' ');
                let idx = s.index_of_first(' ').unwrap();
                if idx < k - from {
                    assert(v@[from + idx] != ' ');
                } else if idx > k - from {
                    assert(s[k - from] != ' ');
                }
            }
            return Some(k);
        }
        k = k + 1;
    }
    proof {
        assert forall|j: int| 0 <= j < s.len() implies s[j] != ' ' by {
            assert(v@[from + j] != ' ');
        }
    }
    None
}

fn split_three(rec: &[char]) -> (r: Option<(Vec<char>, Vec<char>, Vec<char>)>)
    ensures
        match r {
            Some((a, b, c)) => split_spaces(rec@).len() >= 3 && split_spaces(rec@)[0] == a@
                && split_spaces(rec@)[1] == b@ && split_spaces(rec@)[2] == c@,
            None => split_spaces(rec@).len() < 3,
        },
{
    let ghost s0 = rec@;
    proof {
        assert(s0.skip(0) =~= s0);
    }
    let r1 = find_space(rec, 0);
    if r1.is_none() {
        return None;
    }
    let p1 = r1.unwrap();
    assert(p1 < rec.len());
    let ghost s1 = s0.skip(p1 + 1);
    proof {
        s0.index_of_first_ensures(' ');
        assert(split_spaces(s0) == seq![s0.take(p1 as int)] + split_spaces(s1));
        assert(rec@.skip(p1 + 1) =~= s1);
    }
    let r2 = find_space(rec, p1 + 1);
    if r2.is_none() {
        proof {
            assert(split_spaces(s1) == seq![s1]);
        }
        return None;
    }
    let p2 = r2.unwrap();
    assert(p1 < p2 < rec.len());
    let ghost s2 = s1.skip(p2 - p1);
    proof {
        s1.index_of_first_ensures(' ');
        assert(s2 =~= rec@.skip(p2 + 1));
        assert(split_spaces(s1) == seq![s1.take(p2 - p1 - 1)] + split_spaces(s2));
    }
    let p3 = match find_space(rec, p2 + 1) {
        Some(p) => p,
        None => rec.len(),
    };
    proof {
        s2.index_of_first_ensures(' ');
        if p3 < rec.len() {
            assert(split_spaces(s2) == seq![s2.take(p3 - p2 - 1)] + split_spaces(s2.skip(p3 - p2)));
            assert(s2.take(p3 - p2 - 1) =~= rec@.subrange(p2 + 1, p3 as int));
        } else {
            assert(split_spaces(s2) == seq![s2]);
            assert(s2 =~= rec@.subrange(p2 + 1, p3 as int));
        }
        assert(s0.take(p1 as int) =~= rec@.subrange(0, p1 as int));
        assert(s1.take(p2 - p1 - 1) =~= rec@.subrange(p1 + 1, p2 as int));
    }
    let a = copy_range(rec, 0, p1);
    let b = copy_range(rec, p1 + 1, p2);
    let c = copy_range(rec, p2 + 1, p3);
    Some((a, b, c))
}


/// Running the scan over two pieces runs it over the first, then the second.
pub proof fn lemma_scan_concat(st: TreeScan, a: Seq<u8>, b: Seq<u8>)
    ensures
        scan_run(st, a + b) == scan_run(scan_run(st, a), b),
    decreases b.len(),
{
    if b.len() == 0 {
        assert(a + b =~= a);
    } else {
        assert((a + b).drop_last() =~= a + b.drop_last());
        lemma_scan_concat(st, a, b.drop_last());
    }
}

/// Once a record has been closed short, the scan stays broken.
pub proof fn lemma_broken_stays(st: TreeScan, d: Seq<u8>)
    requires
        st.broken,
    ensures
        scan_run(st, d).broken,
    decreases d.len(),
{
    if d.len() > 0 {
        lemma_broken_stays(st, d.drop_last());
    }
}

fn push_chars(out: &mut Vec<char>, src: &[char])
    ensures
        final(out)@ == old(out)@ + src@,
{
    let ghost start = old(out)@;
    let mut i: usize = 0;
    while i < src.len()
        invariant
            i <= src.len(),
            out@ == start + src@.take(i as int),
        decreases src.len() - i,
    {
        out.push(src[i]);
        proof {
            assert(src@.take(i + 1) =~= src@.take(i as int).push(src@[i as int]));
        }
        i = i + 1;
    }
    proof {
        assert(src@.take(i as int) =~= src@);
    }
}

fn push_mode(out: &mut Vec<char>, text: &[char])
    ensures
        final(out)@ == old(out)@ + pad_mode(text@),
{
    let ghost start = old(out)@;
    if text.len() < 6 {
        let pad: usize = 6 - text.len();
        let mut k: usize = 0;
        while k < pad
            invariant
                k <= pad,
                pad == 6 - text@.len(),
                out@ == start + Seq::new(k as nat, |i: int| '0'),
            decreases pad - k,
        {
            out.push('0');
            proof {
                assert(Seq::new((k + 1) as nat, |i: int| '0') =~= Seq::new(k as nat, |i: int| '0').push('0'));
            }
            k = k + 1;
        }
        push_chars(out, text);
        proof {
            assert(out@ =~= start + pad_mode(text@));
        }
    } else {
        push_chars(out, text);
    }
}

fn close_entry(record: &mut Vec<char>, current: &mut Vec<u8>, records: &mut Vec<TreeEntry>) -> (ok: bool)
    ensures
        ok == (split_spaces(old(record)@ + hex_lower(old(current)@)).len() >= 3),
        ok ==> entry_texts(final(records)@) == entry_texts(old(records)@).push(
            entry_of(old(record)@ + hex_lower(old(current)@)),
        ),
        final(record)@ == Seq::<char>::empty(),
        final(current)@ == Seq::<u8>::empty(),
{
    push_hex(record, current.as_slice());
    match split_three(record.as_slice()) {
        None => {
            *record = Vec::new();
            *current = Vec::new();
            false
        },
        Some((a, b, c)) => {
            let ghost before = records@;
            let e = TreeEntry {
                mode: string_from_chars(a.as_slice()),
                name: string_from_chars(b.as_slice()),
                hash: string_from_chars(c.as_slice()),
            };
            records.push(e);
            proof {
                assert(entry_texts(records@) =~= entry_texts(before).push(e@));
                assert(e@ =~= entry_of(old(record)@ + hex_lower(old(current)@)));
            }
            *record = Vec::new();
            *current = Vec::new();
            true
        },
    }
}

/// The entries of a tree object, or `None` where some record has fewer than
/// three fields.
pub fn try_parse_tree_entries(data: &[u8]) -> (r: Option<Vec<TreeEntry>>)
    ensures
        match r {
            Some(v) => tree_parses(data@) && entry_texts(v@) == tree_entries(data@),
            None => !tree_parses(data@),
        },
{
    let mut header = false;
    let mut reading = false;
    let mut line: Vec<u8> = Vec::new();
    let mut record: Vec<char> = Vec::new();
    let mut current: Vec<u8> = Vec::new();
    let mut records: Vec<TreeEntry> = Vec::new();
    let mut i: usize = 0;
    proof {
        assert(data@.take(0) =~= Seq::<u8>::empty());
        assert(entry_texts(records@) =~= Seq::<EntryText>::empty());
        assert(scan_run(scan_start(), data@.take(0)) =~= (TreeScan {
            header,
            reading,
            line: line@,
            record: record@,
            current: current@,
            entries: entry_texts(records@),
            broken: false,
        }));
    }
    while i < data.len()
        invariant
            i <= data.len(),
            scan_run(scan_start(), data@.take(i as int)) == (TreeScan {
                header,
                reading,
                line: line@,
                record: record@,
                current: current@,
                entries: entry_texts(records@),
                broken: false,
            }),
        decreases data.len() - i,
    {
        let ch = data[i];
        let ghost before = scan_run(scan_start(), data@.take(i as int));
        proof {
            assert(data@.take(i + 1).drop_last() =~= data@.take(i as int));
            assert(data@.take(i + 1).last() == ch);
        }
        if !header {
            if ch == 0 {
                header = true;
            }
        } else if ch == 0x20 && !reading {
            let text = lossy_chars(line.as_slice());
            push_mode(&mut record, text.as_slice());
            record.push(' ');
            line = Vec::new();
        } else if ch == 0 && !reading {
            let text = lossy_chars(line.as_slice());
            push_chars(&mut record, text.as_slice());
            record.push(' ');
            line = Vec::new();
            reading = true;
        } else if reading && current.len() != 20 {
            current.push(ch);
        } else {
            if current.len() == 20 {
                let ok = close_entry(&mut record, &mut current, &mut records);
                reading = false;
                if !ok {
                    proof {
                        let after = scan_run(scan_start(), data@.take(i + 1));
                        assert(after.broken);
                        lemma_broken_stays(after, data@.skip(i + 1));
                        lemma_scan_concat(scan_start(), data@.take(i + 1), data@.skip(i + 1));
                        assert(data@.take(i + 1) + data@.skip(i + 1) =~= data@);
                    }
                    return None;
                }
            }
            line.push(ch);
        }
        proof {
            assert(scan_run(scan_start(), data@.take(i + 1)) =~= (TreeScan {
                header,
                reading,
                line: line@,
                record: record@,
                current: current@,
                entries: entry_texts(records@),
                broken: false,
            }));
        }
        i = i + 1;
    }
    proof {
        assert(data@.take(i as int) =~= data@);
    }
    let ok = close_entry(&mut record, &mut current, &mut records);
    if ok {
        Some(records)
    } else {
        None
    }
}

/// The entries of a tree object, each with its mode padded to six
/// characters, its name and its id in lowercase hex.
pub fn parse_tree_entries(data: &[u8]) -> (entries: Vec<TreeEntry>)
    requires
        tree_parses(data@),
    ensures
        entry_texts(entries@) == tree_entries(data@),
{
    match try_parse_tree_entries(data) {
        Some(v) => v,
        None => {
            proof {
                assert(false);
            }
            Vec::new()
        },
    }
}


/// The line that `ls-tree` prints for an entry: its name alone, or
/// "<mode> - <name> - <hash>".
pub open spec fn ls_line(e: EntryText, name_only: bool) -> Seq<char> {
    if name_only {
        e.name
    } else {
        e.mode + " - "@ + e.name + " - "@ + e.hash
    }
}

/// The lines that `ls-tree` prints for a list of entries.
pub open spec fn ls_lines(es: Seq<EntryText>, name_only: bool) -> Seq<Seq<char>> {
    es.map_values(|e: EntryText| ls_line(e, name_only))
}

/// The views of a list of strings.
pub open spec fn strings_view(v: Seq<String>) -> Seq<Seq<char>> {
    v.map_values(|s: String| s@)
}

/// The lines that `ls-tree` prints for a tree object: one per entry, the
/// name alone or "<mode> - <name> - <hash>".
pub fn ls_tree_lines(tree: &[u8], name_only: bool) -> (lines: Vec<String>)
    requires
        tree_parses(tree@),
    ensures
        strings_view(lines@) == ls_lines(tree_entries(tree@), name_only),
{
    let entries = parse_tree_entries(tree);
    let mut lines: Vec<String> = Vec::new();
    let mut i: usize = 0;
    while i < entries.len()
        invariant
            i <= entries@.len(),
            entry_texts(entries@) == tree_entries(tree@),
            strings_view(lines@) == ls_lines(entry_texts(entries@).take(i as int), name_only),
        decreases entries.len() - i,
    {
        let e = &entries[i];
        let ghost before = lines@;
        let line = if name_only {
            e.name.clone()
        } else {
            let mut l = e.mode.clone();
            l.append(" - ");
            l.append(e.name.as_str());
            l.append(" - ");
            l.append(e.hash.as_str());
            l
        };
        proof {
            assert(entry_texts(entries@)[i as int] == e@);
            assert(line@ == ls_line(e@, name_only));
        }
        lines.push(line);
        proof {
            assert(entry_texts(entries@).take(i + 1) =~= entry_texts(entries@).take(i as int).push(e@));
            assert(strings_view(lines@) =~= strings_view(before).push(line@));
            assert(ls_lines(entry_texts(entries@).take(i + 1), name_only) =~= ls_lines(
                entry_texts(entries@).take(i as int),
                name_only,
            ).push(ls_line(e@, name_only)));
        }
        i = i + 1;
    }
    proof {
        assert(entry_texts(entries@).take(i as int) =~= entry_texts(entries@));
    }
    lines
}

/// The lines that `ls-tree` prints for a tree object, or `None` where some
/// record of the tree has fewer than three fields.
pub fn checked_ls_tree_lines(tree: &[u8], name_only: bool) -> (r: Option<Vec<String>>)
    ensures
        match r {
            Some(lines) => tree_parses(tree@) && strings_view(lines@) == ls_lines(
                tree_entries(tree@),
                name_only,
            ),
            None => !tree_parses(tree@),
        },
{
    match try_parse_tree_entries(tree) {
        Some(_) => Some(ls_tree_lines(tree, name_only)),
        None => None,
    }
}

/// What a checkout does with an entry of a tree: write a file from a blob,
/// or make a directory from a tree.
pub enum CheckoutItem {
    File { name: String, id: String },
    Directory { name: String, id: String },
}

/// The model of a checkout step.
#[verifier::ext_equal]
pub struct CheckoutStep {
    pub directory: bool,
    pub name: Seq<char>,
    pub id: Seq<char>,
}

impl View for CheckoutItem {
    type V = CheckoutStep;

    open spec fn view(&self) -> CheckoutStep {
        match self {
            CheckoutItem::File { name, id } => CheckoutStep { directory: false, name: name@, id: id@ },
            CheckoutItem::Directory { name, id } => CheckoutStep {
                directory: true,
                name: name@,
                id: id@,
            },
        }
    }
}

/// The checkout steps for a list of entries: a file for each entry of mode
/// "100644", a directory for each of mode "040000", nothing for the rest.
pub open spec fn checkout_plan(es: Seq<EntryText>) -> Seq<CheckoutStep>
    decreases es.len(),
{
    if es.len() == 0 {
        Seq::empty()
    } else {
        let e = es.last();
        let rest = checkout_plan(es.drop_last());
        if e.mode == "100644"@ {
            rest.push(CheckoutStep { directory: false, name: e.name, id: e.hash })
        } else if e.mode == "040000"@ {
            rest.push(CheckoutStep { directory: true, name: e.name, id: e.hash })
        } else {
            rest
        }
    }
}

/// The views of a list of checkout items.
pub open spec fn checkout_view(v: Seq<CheckoutItem>) -> Seq<CheckoutStep> {
    v.map_values(|c: CheckoutItem| c@)
}

/// The checkout steps for a tree object: a file for each blob entry (mode
/// "100644"), a directory for each tree entry (mode "040000"), in order.
pub fn checkout_items(tree: &[u8]) -> (items: Vec<CheckoutItem>)
    requires
        tree_parses(tree@),
    ensures
        checkout_view(items@) == checkout_plan(tree_entries(tree@)),
{
    let entries = parse_tree_entries(tree);
    let file_mode = String::from_str("100644");
    let dir_mode = String::from_str("040000");
    let mut items: Vec<CheckoutItem> = Vec::new();
    let mut i: usize = 0;
    while i < entries.len()
        invariant
            i <= entries@.len(),
            entry_texts(entries@) == tree_entries(tree@),
            file_mode@ == "100644"@,
            dir_mode@ == "040000"@,
            checkout_view(items@) == checkout_plan(entry_texts(entries@).take(i as int)),
        decreases entries.len() - i,
    {
        let e = &entries[i];
        let ghost before = items@;
        proof {
            assert(entry_texts(entries@)[i as int] == e@);
            assert(entry_texts(entries@).take(i + 1).drop_last() =~= entry_texts(entries@).take(i as int));
            assert(entry_texts(entries@).take(i + 1).last() == e@);
        }
        if e.mode == file_mode {
            items.push(CheckoutItem::File { name: e.name.clone(), id: e.hash.clone() });
            proof {
                assert(checkout_view(items@) =~= checkout_view(before).push(items@.last()@));
            }
        } else if e.mode == dir_mode {
            items.push(CheckoutItem::Directory { name: e.name.clone(), id: e.hash.clone() });
            proof {
                assert(checkout_view(items@) =~= checkout_view(before).push(items@.last()@));
            }
        }
        i = i + 1;
    }
    proof {
        assert(entry_texts(entries@).take(i as int) =~= entry_texts(entries@));
    }
    items
}

/// The checkout steps for a tree object, or `None` where some record of the
/// tree has fewer than three fields.
pub fn checked_checkout_items(tree: &[u8]) -> (r: Option<Vec<CheckoutItem>>)
    ensures
        match r {
            Some(items) => tree_parses(tree@) && checkout_view(items@) == checkout_plan(
                tree_entries(tree@),
            ),
            None => !tree_parses(tree@),
        },
{
    match try_parse_tree_entries(tree) {
        Some(_) => Some(checkout_items(tree)),
        None => None,
    }
}

} // verus!
