//! Pack files as a clone receives them: a header with the object count,
//! then objects, each a type-and-size header and zlib data; offset deltas
//! name their base by its distance back in the pack.

use crate::delta::{checked_apply_delta, delta_result};
use crate::external::{zlib_decompress, zlib_inflated};
use crate::object::{blob_kind, commit_kind, frame_object, framed, tree_kind};
use crate::tree_write::{items_bytes, tree_object, TreeItem};
use std::collections::HashMap;
use vstd::prelude::*;

verus! {

broadcast use vstd::std_specs::hash::group_hash_axioms;

/// The kind of an object in a pack.
#[derive(Clone, Copy, Debug, PartialEq, Eq)]
pub enum ObjectKind {
    Commit,
    Tree,
    Blob,
    Tag,
    Unknown,
}

/// The kind that a pack object's type field names; types other than 1 to 4
/// (and the two delta types) are unknown.
pub open spec fn kind_of_type(t: u8) -> ObjectKind {
    if t == 1 {
        ObjectKind::Commit
    } else if t == 2 {
        ObjectKind::Tree
    } else if t == 3 {
        ObjectKind::Blob
    } else if t == 4 {
        ObjectKind::Tag
    } else {
        ObjectKind::Unknown
    }
}

/// The word that names a kind in an object's header.
pub open spec fn kind_word(k: ObjectKind) -> Seq<u8> {
    match k {
        ObjectKind::Commit => seq![99u8, 111u8, 109u8, 109u8, 105u8, 116u8],
        ObjectKind::Tree => seq![116u8, 114u8, 101u8, 101u8],
        ObjectKind::Blob => seq![98u8, 108u8, 111u8, 98u8],
        ObjectKind::Tag => seq![116u8, 97u8, 103u8],
        ObjectKind::Unknown => seq![117u8, 110u8, 107u8, 110u8, 111u8, 119u8, 110u8],
    }
}

/// An object unpacked from a pack: its kind and its content.
pub struct PackedObject {
    pub kind: ObjectKind,
    pub data: Vec<u8>,
}

/// The model of an unpacked object.
#[verifier::ext_equal]
pub struct ObjectModel {
    pub kind: ObjectKind,
    pub data: Seq<u8>,
}

impl View for PackedObject {
    type V = ObjectModel;

    open spec fn view(&self) -> ObjectModel {
        ObjectModel { kind: self.kind, data: self.data@ }
    }
}

/// The state of unpacking: where the next object starts, the objects
/// unpacked so far (in pack order), the objects by the offset at which they
/// start, and whether unpacking has failed.
#[verifier::ext_equal]
pub struct PackScan {
    pub offset: int,
    pub objects: Seq<ObjectModel>,
    pub index: Map<usize, ObjectModel>,
    pub failed: bool,
}

/// Where a run of bytes ends whose every byte but the last has its high bit
/// set, starting at `pos`; `None` where the pack ends first.
pub open spec fn header_end(d: Seq<u8>, pos: int) -> Option<int>
    decreases d.len() - pos,
{
    if pos < 0 || pos >= d.len() {
        None
    } else if d[pos] & 0x80u8 == 0 {
        Some(pos + 1)
    } else {
        header_end(d, pos + 1)
    }
}

/// The rest of an offset-delta distance: each further byte adds one to the
/// value so far, shifts it by seven bits (in 32 bits) and puts its low seven
/// bits below. `None` where the pack ends first or the value so far cannot
/// take one more.
pub open spec fn distance_rest(d: Seq<u8>, pos: int, v: u32) -> Option<(u32, int)>
    decreases d.len() - pos,
{
    if pos < 0 || pos >= d.len() || v == 0xffff_ffffu32 {
        None
    } else {
        let b = d[pos];
        let next = ((((v + 1) as u32) << 7u32) | ((b & 0x7fu8) as u32)) as u32;
        if b & 0x80u8 == 0 {
            Some((next, pos + 1))
        } else {
            distance_rest(d, pos + 1, next)
        }
    }
}

/// The distance back to the base of an offset delta, and where it ends.
pub open spec fn base_distance(d: Seq<u8>, pos: int) -> Option<(u32, int)> {
    if pos < 0 || pos >= d.len() {
        None
    } else {
        let b = d[pos];
        let v = (b & 0x7fu8) as u32;
        if b & 0x80u8 == 0 {
            Some((v, pos + 1))
        } else {
            distance_rest(d, pos + 1, v)
        }
    }
}

proof fn lemma_distance_step(v: u32, b: u8)
    requires
        v < 0xff_ffff,
    ensures
        ((((v + 1) as u32) << 7u32) | ((b & 0x7fu8) as u32)) as u32 == (v + 1) * 128 + (b & 0x7fu8),
        (v + 1) * 128 + (b & 0x7fu8) < 0x8000_0000,
{
    assert((v + 1) * 128 <= 0xff_ffff * 128) by (nonlinear_arith)
        requires
            v < 0xff_ffff,
    ;
    assert(((((v + 1) as u32) << 7u32) | ((b & 0x7fu8) as u32)) as u32 == (v + 1) * 128 + (b
        & 0x7fu8)) by (bit_vector)
        requires
            v < 0xff_ffff,
    ;
    assert((b & 0x7fu8) < 128) by (bit_vector);
}

proof fn lemma_low_bits(b: u8)
    ensures
        b < 128 ==> (b & 0x80u8) == 0 && (b & 0x7fu8) == b,
        b >= 128 ==> (b & 0x80u8) != 0 && (b & 0x7fu8) == b - 128,
{
    assert(b < 128 ==> (b & 0x80u8) == 0 && (b & 0x7fu8) == b) by (bit_vector);
    assert(b >= 128 ==> (b & 0x80u8) != 0 && (b & 0x7fu8) == b - 128) by (bit_vector);
}

/// An offset-delta distance of one byte (high bit clear) is that byte.
pub proof fn lemma_distance_one_byte(d: Seq<u8>, pos: int)
    requires
        0 <= pos < d.len(),
        d[pos] < 128,
    ensures
        base_distance(d, pos) == Some((d[pos] as u32, pos + 1)),
{
    lemma_low_bits(d[pos]);
}

/// An offset-delta distance of two bytes, `b0` with its high bit set and
/// `b1` without, is `((b0 & 0x7f) + 1) * 128 + b1`, as git encodes it: the
/// two-byte distances follow on from the 128 one-byte ones.
pub proof fn lemma_distance_two_bytes(d: Seq<u8>, pos: int)
    requires
        0 <= pos,
        pos + 1 < d.len(),
        d[pos] >= 128,
        d[pos + 1] < 128,
    ensures
        base_distance(d, pos) == Some(
            (((d[pos] - 128 + 1) * 128 + d[pos + 1]) as u32, pos + 2),
        ),
{
    lemma_low_bits(d[pos]);
    lemma_low_bits(d[pos + 1]);
    let v0 = (d[pos] & 0x7fu8) as u32;
    lemma_distance_step(v0, d[pos + 1]);
}

/// An offset-delta distance of three bytes, the first two with their high
/// bit set, adds one to the value of the first two before shifting in the
/// third: `(((b0 & 0x7f) + 1) * 128 + (b1 & 0x7f) + 1) * 128 + b2`.
pub proof fn lemma_distance_three_bytes(d: Seq<u8>, pos: int)
    requires
        0 <= pos,
        pos + 2 < d.len(),
        d[pos] >= 128,
        d[pos + 1] >= 128,
        d[pos + 2] < 128,
    ensures
        base_distance(d, pos) == Some(
            (((((d[pos] - 128 + 1) * 128 + d[pos + 1] - 128) + 1) * 128 + d[pos + 2]) as u32, pos
                + 3),
        ),
{
    lemma_low_bits(d[pos]);
    lemma_low_bits(d[pos + 1]);
    lemma_low_bits(d[pos + 2]);
    let v0 = (d[pos] & 0x7fu8) as u32;
    lemma_distance_step(v0, d[pos + 1]);
    let v1 = ((v0 + 1) * 128 + (d[pos + 1] & 0x7fu8)) as u32;
    lemma_distance_step(v1, d[pos + 2]);
    let v2 = ((v1 + 1) * 128 + (d[pos + 2] & 0x7fu8)) as u32;
    assert(distance_rest(d, pos + 2, v1) == Some((v2, pos + 3)));
    assert(distance_rest(d, pos + 1, v0) == distance_rest(d, pos + 2, v1));
}

/// The state once unpacking has failed.
pub open spec fn failed(st: PackScan) -> PackScan {
    PackScan { failed: true, ..st }
}

/// The state once `obj`, which started at `start`, is unpacked and the next
/// object starts at `next`.
pub open spec fn unpacked_one(st: PackScan, start: int, obj: ObjectModel, next: int) -> PackScan {
    PackScan {
        offset: next,
        objects: st.objects.push(obj),
        index: st.index.insert(start as usize, obj),
        failed: false,
    }
}

/// What the header of a pack entry says, before its data is inflated.
#[derive(Clone, Copy)]
pub enum EntryHeader {
    /// An object stored whole, its zlib data starting at `data_start`.
    Plain { kind: ObjectKind, data_start: usize },
    /// A delta against the object that starts at `base_start`, its zlib
    /// data starting at `data_start`.
    OffsetDelta { base_start: usize, data_start: usize },
    /// A delta against an object named by id; unpacking goes on at `next`.
    RefDelta { next: usize },
}

/// The header of the pack entry at `start`: the type in bits 4 to 6 of its
/// first byte, a run of size bytes, and for an offset delta the distance
/// back to its base. `None` where the pack ends first, the distance reaches
/// back before the pack, or the base's own size bytes run past the end.
pub open spec fn entry_header(d: Seq<u8>, start: int) -> Option<EntryHeader> {
    match header_end(d, start) {
        None => None,
        Some(p) => {
            let t = (d[start] >> 4u8) & 7u8;
            if t == 6 {
                match base_distance(d, p) {
                    None => None,
                    Some((dist, q)) => {
                        if dist > start || header_end(d, start - dist) is None {
                            None
                        } else {
                            Some(
                                EntryHeader::OffsetDelta {
                                    base_start: (start - dist) as usize,
                                    data_start: q as usize,
                                },
                            )
                        }
                    },
                }
            } else if t == 7 {
                Some(EntryHeader::RefDelta { next: p as usize })
            } else {
                Some(EntryHeader::Plain { kind: kind_of_type(t), data_start: p as usize })
            }
        },
    }
}

/// Where the zlib data of an entry starts.
pub open spec fn data_start(h: EntryHeader) -> int {
    match h {
        EntryHeader::Plain { data_start, .. } => data_start as int,
        EntryHeader::OffsetDelta { data_start, .. } => data_start as int,
        EntryHeader::RefDelta { next } => next as int,
    }
}

/// Unpacking the entry that starts at `start`, given its header and what
/// its zlib data inflates to (and how many bytes that took): an object
/// stored whole is the inflated bytes; an offset delta is applied to its
/// base and takes the base's kind; a reference delta is passed over without
/// its data being read.
pub open spec fn resolve(
    st: PackScan,
    start: int,
    h: EntryHeader,
    inflated: Option<(Seq<u8>, int)>,
) -> PackScan {
    match h {
        EntryHeader::RefDelta { next } => PackScan { offset: next as int, ..st },
        EntryHeader::Plain { kind, data_start } => match inflated {
            None => failed(st),
            Some((bytes, used)) => unpacked_one(
                st,
                start,
                ObjectModel { kind, data: bytes },
                data_start + used,
            ),
        },
        EntryHeader::OffsetDelta { base_start, data_start } => match inflated {
            None => failed(st),
            Some((delta, used)) => {
                if !st.index.contains_key(base_start) {
                    failed(st)
                } else {
                    let base = st.index[base_start];
                    match delta_result(base.data, delta) {
                        None => failed(st),
                        Some(out) => unpacked_one(
                            st,
                            start,
                            ObjectModel { kind: base.kind, data: out },
                            data_start + used,
                        ),
                    }
                }
            },
        },
    }
}

/// Unpacking one entry: its header is read, its data inflated where it is
/// read at all, and the entry resolved.
pub open spec fn pack_step(d: Seq<u8>, st: PackScan) -> PackScan {
    if st.failed {
        st
    } else {
        match entry_header(d, st.offset) {
            None => failed(st),
            Some(h) => resolve(st, st.offset, h, zlib_inflated(d.skip(data_start(h)))),
        }
    }
}

/// Unpacking `n` objects from the given state.
pub open spec fn pack_run(d: Seq<u8>, st: PackScan, n: nat) -> PackScan
    decreases n,
{
    if n == 0 {
        st
    } else {
        pack_step(d, pack_run(d, st, (n - 1) as nat))
    }
}

/// The number of objects a pack announces: bytes 8 to 11, big-endian.
pub open spec fn object_count(d: Seq<u8>) -> nat
    recommends
        d.len() >= 12,
{
    (d[8] * 16777216 + d[9] * 65536 + d[10] * 256 + d[11]) as nat
}

/// The state before the first object, which starts at byte 12.
pub open spec fn pack_start() -> PackScan {
    PackScan { offset: 12, objects: Seq::empty(), index: Map::empty(), failed: false }
}

/// Unpacking a whole pack: as many objects as it announces. A pack shorter
/// than its header fails at once.
pub open spec fn unpack(d: Seq<u8>) -> PackScan {
    if d.len() < 12 {
        failed(pack_start())
    } else {
        pack_run(d, pack_start(), object_count(d))
    }
}

/// Once failed, unpacking stays failed and unpacks nothing more.
pub proof fn lemma_failed_stays(d: Seq<u8>, st: PackScan, n: nat)
    requires
        st.failed,
    ensures
        pack_run(d, st, n) == st,
    decreases n,
{
    if n > 0 {
        lemma_failed_stays(d, st, (n - 1) as nat);
    }
}

/// The objects unpacked from a pack, in pack order, and whether the whole
/// pack was unpacked.
pub struct UnpackOutcome {
    pub objects: Vec<PackedObject>,
    pub complete: bool,
}

/// The views of a list of unpacked objects.
pub open spec fn objects_view(v: Seq<PackedObject>) -> Seq<ObjectModel> {
    v.map_values(|o: PackedObject| o@)
}

fn header_end_at(d: &[u8], pos: usize) -> (r: Option<usize>)
    ensures
        match r {
            Some(e) => header_end(d@, pos as int) == Some(e as int) && e <= d@.len(),
            None => header_end(d@, pos as int) is None,
        },
{
    let mut p = pos;
    while p < d.len()
        invariant
            pos <= p,
            header_end(d@, pos as int) == header_end(d@, p as int),
        decreases d.len() - p,
    {
        if d[p] & 0x80u8 == 0 {
            return Some(p + 1);
        }
        p = p + 1;
    }
    None
}

fn base_distance_at(d: &[u8], pos: usize) -> (r: Option<(u32, usize)>)
    ensures
        match r {
            Some((v, e)) => base_distance(d@, pos as int) == Some((v, e as int)) && e <= d@.len(),
            None => base_distance(d@, pos as int) is None,
        },
{
    if pos >= d.len() {
        return None;
    }
    let b = d[pos];
    let mut v: u32 = (b & 0x7fu8) as u32;
    if b & 0x80u8 == 0 {
        return Some((v, pos + 1));
    }
    let mut p = pos + 1;
    while p < d.len()
        invariant
            pos < p,
            base_distance(d@, pos as int) == distance_rest(d@, p as int, v),
        decreases d.len() - p,
    {
        if v == 0xffff_ffffu32 {
            return None;
        }
        let c = d[p];
        let next: u32 = ((v + 1) << 7u32) | ((c & 0x7fu8) as u32);
        if c & 0x80u8 == 0 {
            return Some((next, p + 1));
        }
        v = next;
        p = p + 1;
    }
    None
}


/// Unpacking `a + b` objects unpacks `a`, then `b` more.
pub proof fn lemma_pack_run_split(d: Seq<u8>, st: PackScan, a: nat, b: nat)
    ensures
        pack_run(d, st, a + b) == pack_run(d, pack_run(d, st, a), b),
    decreases b,
{
    if b > 0 {
        lemma_pack_run_split(d, st, a, (b - 1) as nat);
        assert((a + b - 1) as nat == a + (b - 1) as nat);
    }
}

fn kind_from_type(t: u8) -> (k: ObjectKind)
    ensures
        k == kind_of_type(t),
{
    if t == 1 {
        ObjectKind::Commit
    } else if t == 2 {
        ObjectKind::Tree
    } else if t == 3 {
        ObjectKind::Blob
    } else if t == 4 {
        ObjectKind::Tag
    } else {
        ObjectKind::Unknown
    }
}

/// The header of the pack entry at `start`.
pub fn read_entry_header(pack: &[u8], start: usize) -> (h: Option<EntryHeader>)
    ensures
        h == entry_header(pack@, start as int),
        h matches Some(e) ==> data_start(e) <= pack@.len(),
{
    let p = match header_end_at(pack, start) {
        Some(p) => p,
        None => {
            return None;
        },
    };
    let t = (pack[start] >> 4u8) & 7u8;
    if t == 6 {
        let (dist, q) = match base_distance_at(pack, p) {
            Some(x) => x,
            None => {
                return None;
            },
        };
        if dist as usize > start {
            return None;
        }
        let base_start = start - dist as usize;
        if header_end_at(pack, base_start).is_none() {
            return None;
        }
        Some(EntryHeader::OffsetDelta { base_start, data_start: q })
    } else if t == 7 {
        Some(EntryHeader::RefDelta { next: p })
    } else {
        Some(EntryHeader::Plain { kind: kind_from_type(t), data_start: p })
    }
}

/// The model of what an entry's data inflated to.
pub open spec fn inflated_view(inflated: &Option<(Vec<u8>, u64)>) -> Option<(Seq<u8>, int)> {
    match inflated {
        Some((d, n)) => Some((d@, *n as int)),
        None => None,
    }
}

/// The objects unpacked so far, and where in the pack each started: the
/// position in `objects` of the object that starts at each offset.
pub struct Unpacked {
    pub objects: Vec<PackedObject>,
    pub starts: HashMap<usize, usize>,
}

impl Unpacked {
    /// Every start names an object that has been unpacked.
    pub open spec fn wf(&self) -> bool {
        forall|k: usize| #[trigger] self.starts@.contains_key(k) ==> self.starts@[k] < self.objects@.len()
    }

    /// The objects by the offset at which they start.
    pub open spec fn index(&self) -> Map<usize, ObjectModel> {
        Map::new(
            |k: usize| self.starts@.contains_key(k),
            |k: usize| self.objects@[self.starts@[k] as int]@,
        )
    }

    /// The state of unpacking that these objects stand for, the next entry
    /// starting at `offset`.
    pub open spec fn scan(&self, offset: int) -> PackScan {
        PackScan { offset, objects: objects_view(self.objects@), index: self.index(), failed: false }
    }

    /// Nothing unpacked yet.
    pub fn new() -> (u: Unpacked)
        ensures
            u.wf(),
            u.scan(12) == pack_start(),
    {
        let u = Unpacked { objects: Vec::new(), starts: HashMap::new() };
        proof {
            assert(objects_view(u.objects@) =~= Seq::<ObjectModel>::empty());
            assert(u.index() =~= Map::<usize, ObjectModel>::empty());
            assert(u.scan(12) =~= pack_start());
        }
        u
    }

    fn add(&mut self, start: usize, obj: PackedObject)
        requires
            old(self).wf(),
        ensures
            final(self).wf(),
            objects_view(final(self).objects@) == objects_view(old(self).objects@).push(obj@),
            final(self).index() == old(self).index().insert(start, obj@),
    {
        let ghost before = self.objects@;
        let ghost old_index = self.index();
        let ghost o = obj@;
        self.objects.push(obj);
        let pos = self.objects.len() - 1;
        self.starts.insert(start, pos);
        proof {
            assert(objects_view(self.objects@) =~= objects_view(before).push(o));
            assert forall|k: usize| #[trigger] self.starts@.contains_key(k) implies self.starts@[k]
                < self.objects@.len() by {}
            assert forall|k: usize| #[trigger] self.index().contains_key(k) implies self.index()[k]
                == old_index.insert(start, o)[k] by {
                if k != start {
                    assert(self.objects@[self.starts@[k] as int] == before[self.starts@[k] as int]);
                }
            }
            assert(self.index() =~= old_index.insert(start, o));
        }
    }

    /// Resolves the entry that starts at `start`, given its header and what
    /// its data inflated to (and how many bytes that took): the state moves
    /// as `resolve` says, and the offset of the next entry is returned
    /// where unpacking has not failed.
    pub fn resolve_entry(
        &mut self,
        start: usize,
        h: EntryHeader,
        inflated: Option<(Vec<u8>, u64)>,
    ) -> (next: Option<usize>)
        requires
            old(self).wf(),
            inflated matches Some((_, n)) ==> data_start(h) + n <= usize::MAX,
        ensures
            final(self).wf(),
            ({
                let r = resolve(
                    old(self).scan(start as int),
                    start as int,
                    h,
                    inflated_view(&inflated),
                );
                match next {
                    Some(o) => r == final(self).scan(o as int),
                    None => r.failed && r.objects == objects_view(final(self).objects@),
                }
            }),
    {
        let ghost st = self.scan(start as int);
        match h {
            EntryHeader::RefDelta { next } => {
                proof {
                    assert(resolve(st, start as int, h, None) =~= self.scan(next as int));
                }
                Some(next)
            },
            EntryHeader::Plain { kind, data_start } => match inflated {
                None => None,
                Some((bytes, used)) => {
                    let ghost b = bytes@;
                    self.add(start, PackedObject { kind, data: bytes });
                    let next = data_start + used as usize;
                    proof {
                        assert(self.scan(next as int) =~= unpacked_one(
                            st,
                            start as int,
                            ObjectModel { kind, data: b },
                            data_start + used,
                        ));
                    }
                    Some(next)
                },
            },
            EntryHeader::OffsetDelta { base_start, data_start } => match inflated {
                None => None,
                Some((delta, used)) => {
                    let found = self.starts.get(&base_start);
                    if found.is_none() {
                        return None;
                    }
                    let pos: usize = *found.unwrap();
                    let out = match checked_apply_delta(
                        self.objects[pos].data.as_slice(),
                        delta.as_slice(),
                    ) {
                        Some(o) => o,
                        None => {
                            return None;
                        },
                    };
                    let kind = self.objects[pos].kind;
                    let ghost b = out@;
                    self.add(start, PackedObject { kind, data: out });
                    let next = data_start + used as usize;
                    proof {
                        assert(self.scan(next as int) =~= unpacked_one(
                            st,
                            start as int,
                            ObjectModel { kind, data: b },
                            data_start + used,
                        ));
                    }
                    Some(next)
                },
            },
        }
    }
}

/// The objects of a pack, in pack order, and whether the whole pack was
/// unpacked: where unpacking fails, the objects before the failure.
pub fn unpack_objects(pack: &[u8]) -> (r: UnpackOutcome)
    ensures
        objects_view(r.objects@) == unpack(pack@).objects,
        r.complete == !unpack(pack@).failed,
{
    if pack.len() < 12 {
        let r = UnpackOutcome { objects: Vec::new(), complete: false };
        proof {
            assert(objects_view(r.objects@) =~= Seq::<ObjectModel>::empty());
        }
        return r;
    }
    let count: u32 = pack[8] as u32 * 16777216 + pack[9] as u32 * 65536 + pack[10] as u32 * 256
        + pack[11] as u32;
    let ghost d = pack@;
    let mut done = Unpacked::new();
    let mut offset: usize = 12;
    let mut n: u32 = 0;
    while n < count
        invariant
            d == pack@,
            d.len() >= 12,
            n <= count,
            count as nat == object_count(d),
            done.wf(),
            pack_run(d, pack_start(), n as nat) == done.scan(offset as int),
        decreases count - n,
    {
        let ghost st = pack_run(d, pack_start(), n as nat);
        proof {
            assert(pack_run(d, pack_start(), (n + 1) as nat) == pack_step(d, st));
            lemma_pack_run_split(d, pack_start(), (n + 1) as nat, (count - n - 1) as nat);
            assert((n + 1) as nat + (count - n - 1) as nat == count as nat);
        }
        let h = match read_entry_header(pack, offset) {
            Some(h) => h,
            None => {
                proof {
                    lemma_failed_stays(d, failed(st), (count - n - 1) as nat);
                }
                return UnpackOutcome { objects: done.objects, complete: false };
            },
        };
        let from: usize = match h {
            EntryHeader::Plain { data_start, .. } => data_start,
            EntryHeader::OffsetDelta { data_start, .. } => data_start,
            EntryHeader::RefDelta { next } => next,
        };
        let inflated = match h {
            EntryHeader::RefDelta { .. } => None,
            _ => zlib_decompress(&pack[from..pack.len()]),
        };
        proof {
            assert(pack@.subrange(from as int, pack@.len() as int) =~= d.skip(from as int));
        }
        let ghost model_inflated = inflated_view(&inflated);
        proof {
            if !(h is RefDelta) {
                assert(model_inflated == zlib_inflated(d.skip(data_start(h))));
            }
            assert(pack_step(d, st) == resolve(st, offset as int, h, model_inflated));
        }
        match done.resolve_entry(offset, h, inflated) {
            Some(next) => {
                offset = next;
            },
            None => {
                proof {
                    let r = resolve(st, offset as int, h, model_inflated);
                    assert(r == failed(st));
                    lemma_failed_stays(d, r, (count - n - 1) as nat);
                }
                return UnpackOutcome { objects: done.objects, complete: false };
            },
        }
        n = n + 1;
    }
    UnpackOutcome { objects: done.objects, complete: true }
}

/// An unpacked object framed as git stores it: "<kind> <length>\0" and its
/// content.
pub fn packed_object_bytes(o: &PackedObject) -> (data: Vec<u8>)
    ensures
        data@ == framed(kind_word(o.kind), o.data@),
{
    let word: Vec<u8> = match o.kind {
        ObjectKind::Commit => vec![99u8, 111u8, 109u8, 109u8, 105u8, 116u8],
        ObjectKind::Tree => vec![116u8, 114u8, 101u8, 101u8],
        ObjectKind::Blob => vec![98u8, 108u8, 111u8, 98u8],
        ObjectKind::Tag => vec![116u8, 97u8, 103u8],
        ObjectKind::Unknown => vec![117u8, 110u8, 107u8, 110u8, 111u8, 119u8, 110u8],
    };
    proof {
        assert(word@ =~= kind_word(o.kind));
    }
    frame_object(word.as_slice(), o.data.as_slice())
}

/// The entry at `start` with a one-byte header of type 6 and a two-byte
/// distance names as its base the entry that starts that distance back,
/// and its data follows the three header bytes.
pub proof fn lemma_offset_delta_header(d: Seq<u8>, start: int)
    requires
        0 <= start,
        start + 2 < d.len(),
        d[start] < 128,
        (d[start] >> 4u8) & 7u8 == 6,
        d[start + 1] >= 128,
        d[start + 2] < 128,
        ((d[start + 1] - 128 + 1) * 128 + d[start + 2]) <= start,
        header_end(d, start - ((d[start + 1] - 128 + 1) * 128 + d[start + 2])) is Some,
    ensures
        entry_header(d, start) == Some(
            EntryHeader::OffsetDelta {
                base_start: (start - ((d[start + 1] - 128 + 1) * 128 + d[start + 2])) as usize,
                data_start: (start + 3) as usize,
            },
        ),
{
    lemma_low_bits(d[start]);
    assert(header_end(d, start) == Some(start + 1));
    lemma_distance_two_bytes(d, start + 1);
}

/// Each kind is named by its git type word: the words that blobs, trees and
/// commits are framed with everywhere else.
pub proof fn lemma_kind_words()
    ensures
        kind_word(ObjectKind::Commit) == commit_kind(),
        kind_word(ObjectKind::Tree) == tree_kind(),
        kind_word(ObjectKind::Blob) == blob_kind(),
        kind_word(ObjectKind::Tag) == seq![116u8, 97u8, 103u8],
{
}

/// Different kinds are framed with different words.
pub proof fn lemma_kind_words_distinct(k1: ObjectKind, k2: ObjectKind)
    requires
        k1 != k2,
    ensures
        kind_word(k1) != kind_word(k2),
{
    let w1 = kind_word(k1);
    let w2 = kind_word(k2);
    if w1.len() == w2.len() {
        assert(w1[0] != w2[0] || w1[1] != w2[1]);
    }
}

/// A tree unpacked from a pack is stored as the same bytes as `write-tree`
/// makes of its entries, so it is stored under the same id.
pub proof fn lemma_packed_tree_is_tree_object(es: Seq<TreeItem>)
    ensures
        framed(kind_word(ObjectKind::Tree), items_bytes(es)) == tree_object(es),
{
}

} // verus!
