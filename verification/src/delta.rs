//! Git's delta format: two size varints, then copy and insert instructions
//! that rebuild a target from a base.

use vstd::prelude::*;

verus! {

/// Where a varint that starts at `pos` ends, its `k`-th byte being read at
/// `pos`: each byte but the last has its high bit set. `None` where the
/// bytes run out, or where a byte would be shifted by the width of `usize`
/// or more.
pub open spec fn varint_end(d: Seq<u8>, pos: int, k: nat) -> Option<int>
    decreases d.len() - pos,
{
    if pos < 0 || pos >= d.len() || 7 * k >= usize::BITS {
        None
    } else if d[pos] & 0x80u8 == 0 {
        Some(pos + 1)
    } else {
        varint_end(d, pos + 1, k + 1)
    }
}

/// Whether bit `k` of an instruction byte is set.
pub open spec fn flag(cmd: u8, k: u8) -> bool {
    (cmd >> k) & 1u8 == 1u8
}

/// The parameter bytes of a copy instruction from bit `k` on: the byte read
/// for each set bit, 0 for each clear one, and where they end.
pub open spec fn copy_params(d: Seq<u8>, p: int, cmd: u8, k: u8) -> Option<(Seq<u8>, int)>
    decreases 7 - k,
{
    if k >= 7 {
        Some((Seq::empty(), p))
    } else if flag(cmd, k) {
        if 0 <= p < d.len() {
            match copy_params(d, p + 1, cmd, (k + 1) as u8) {
                Some((rest, e)) => Some((seq![d[p]] + rest, e)),
                None => None,
            }
        } else {
            None
        }
    } else {
        match copy_params(d, p, cmd, (k + 1) as u8) {
            Some((rest, e)) => Some((seq![0u8] + rest, e)),
            None => None,
        }
    }
}

/// The offset in the base that a copy reads from: four little-endian bytes.
pub open spec fn copy_offset(v: Seq<u8>) -> nat {
    (v[0] + v[1] * 256 + v[2] * 65536 + v[3] * 16777216) as nat
}

/// The number of bytes a copy takes: three little-endian bytes, where 0
/// stands for 0x10000.
pub open spec fn copy_size(v: Seq<u8>) -> nat {
    let s = v[4] + v[5] * 256 + v[6] * 65536;
    if s == 0 {
        0x10000
    } else {
        s as nat
    }
}

/// What the instructions from `pos` on produce, or `None` where one is cut
/// short or copies from outside the base.
pub open spec fn delta_output(base: Seq<u8>, d: Seq<u8>, pos: int) -> Option<Seq<u8>>
    decreases d.len() - pos,
{
    if pos < 0 || pos >= d.len() {
        Some(Seq::empty())
    } else {
        let cmd = d[pos];
        if cmd & 0x80u8 != 0 {
            match copy_params(d, pos + 1, cmd, 0) {
                None => None,
                Some((v, e)) => {
                    let off = copy_offset(v);
                    let size = copy_size(v);
                    proof {
                        lemma_copy_params_progress(d, pos + 1, cmd, 0);
                    }
                    if off + size > base.len() {
                        None
                    } else {
                        match delta_output(base, d, e) {
                            Some(rest) => Some(base.subrange(off as int, (off + size) as int) + rest),
                            None => None,
                        }
                    }
                }
            }
        } else {
            let n = (cmd & 0x7fu8) as int;
            if pos + 1 + n > d.len() {
                None
            } else {
                match delta_output(base, d, pos + 1 + n) {
                    Some(rest) => Some(d.subrange(pos + 1, pos + 1 + n) + rest),
                    None => None,
                }
            }
        }
    }
}

/// The target that a delta rebuilds from `base`: the source and target size
/// varints are read past, then every instruction runs. `None` where the
/// delta is cut short, a size varint is too long, or a copy reaches outside
/// the base.
pub open spec fn delta_result(base: Seq<u8>, d: Seq<u8>) -> Option<Seq<u8>> {
    match varint_end(d, 0, 0) {
        None => None,
        Some(p1) => match varint_end(d, p1, 0) {
            None => None,
            Some(p2) => delta_output(base, d, p2),
        },
    }
}

/// Places `prefix` before an optional result.
pub open spec fn prepend(prefix: Seq<u8>, r: Option<Seq<u8>>) -> Option<Seq<u8>> {
    match r {
        Some(rest) => Some(prefix + rest),
        None => None,
    }
}

/// The parameters of a copy end past where they start, and within the delta
/// unless none are read; there are seven of them.
pub proof fn lemma_copy_params_progress(d: Seq<u8>, p: int, cmd: u8, k: u8)
    requires
        k <= 7,
        copy_params(d, p, cmd, k) is Some,
    ensures
        copy_params(d, p, cmd, k).unwrap().1 >= p,
        copy_params(d, p, cmd, k).unwrap().1 <= d.len() || copy_params(d, p, cmd, k).unwrap().1
            == p,
        copy_params(d, p, cmd, k).unwrap().0.len() == 7 - k,
    decreases 7 - k,
{
    if k < 7 {
        if flag(cmd, k) {
            lemma_copy_params_progress(d, p + 1, cmd, (k + 1) as u8);
        } else {
            lemma_copy_params_progress(d, p, cmd, (k + 1) as u8);
        }
    }
}

fn skip_varint(d: &[u8], pos: usize) -> (r: Option<usize>)
    ensures
        match r {
            Some(e) => varint_end(d@, pos as int, 0) == Some(e as int),
            None => varint_end(d@, pos as int, 0) is None,
        },
{
    let mut p = pos;
    let mut k: u32 = 0;
    while p < d.len()
        invariant
            pos <= p,
            k as int == p - pos,
            varint_end(d@, pos as int, 0) == varint_end(d@, p as int, k as nat),
        decreases d.len() - p,
    {
        if 7 * (k as u64) >= usize::BITS as u64 {
            return None;
        }
        let b = d[p];
        if b & 0x80u8 == 0 {
            return Some(p + 1);
        }
        p = p + 1;
        k = k + 1;
    }
    None
}

fn read_copy_params(d: &[u8], start: usize, cmd: u8) -> (r: Option<(Vec<u8>, usize)>)
    ensures
        match r {
            Some((v, e)) => copy_params(d@, start as int, cmd, 0) == Some((v@, e as int)),
            None => copy_params(d@, start as int, cmd, 0) is None,
        },
{
    let mut vals: Vec<u8> = Vec::new();
    let mut p = start;
    let mut k: u8 = 0;
    while k < 7
        invariant
            k <= 7,
            vals@.len() == k,
            start <= p,
            p <= d@.len() || p == start,
            match copy_params(d@, start as int, cmd, 0) {
                Some((v, e)) => copy_params(d@, p as int, cmd, k) matches Some((rest, e2)) && v
                    == vals@ + rest && e == e2,
                None => copy_params(d@, p as int, cmd, k) is None,
            },
        decreases 7 - k,
    {
        let ghost old_vals = vals@;
        if (cmd >> k) & 1u8 == 1u8 {
            if p < d.len() {
                vals.push(d[p]);
                proof {
                    if let Some((rest, e2)) = copy_params(d@, p + 1, cmd, (k + 1) as u8) {
                        assert(old_vals + (seq![d@[p as int]] + rest) =~= vals@ + rest);
                    }
                }
                p = p + 1;
            } else {
                return None;
            }
        } else {
            vals.push(0u8);
            proof {
                if let Some((rest, e2)) = copy_params(d@, p as int, cmd, (k + 1) as u8) {
                    assert(old_vals + (seq![0u8] + rest) =~= vals@ + rest);
                }
            }
        }
        k = k + 1;
    }
    proof {
        assert(vals@ + Seq::<u8>::empty() =~= vals@);
    }
    Some((vals, p))
}

/// The target that a delta rebuilds from `base`, or `None` where the delta
/// is cut short, a size varint is too long, or a copy reaches outside the
/// base.
pub fn checked_apply_delta(base: &[u8], delta: &[u8]) -> (r: Option<Vec<u8>>)
    ensures
        match r {
            Some(out) => delta_result(base@, delta@) == Some(out@),
            None => delta_result(base@, delta@) is None,
        },
{
    let p1 = match skip_varint(delta, 0) {
        Some(p) => p,
        None => {
            return None;
        },
    };
    let mut pos = match skip_varint(delta, p1) {
        Some(p) => p,
        None => {
            return None;
        },
    };
    let ghost start = pos as int;
    let mut output: Vec<u8> = Vec::new();
    proof {
        assert(output@ + Seq::<u8>::empty() =~= output@);
        assert(prepend(output@, delta_output(base@, delta@, start)) =~= delta_output(base@, delta@, start)) by {
            if let Some(rest) = delta_output(base@, delta@, start) {
                assert(Seq::<u8>::empty() + rest =~= rest);
            }
        }
    }
    while pos < delta.len()
        invariant
            delta_result(base@, delta@) == delta_output(base@, delta@, start),
            delta_output(base@, delta@, start) == prepend(output@, delta_output(base@, delta@, pos as int)),
        decreases delta.len() - pos,
    {
        let cmd = delta[pos];
        let ghost here = pos as int;
        let ghost before = output@;
        if cmd & 0x80u8 != 0 {
            let (v, e) = match read_copy_params(delta, pos + 1, cmd) {
                Some(x) => x,
                None => {
                    return None;
                },
            };
            proof {
                lemma_copy_params_progress(delta@, pos + 1, cmd, 0);
            }
            let off: usize = v[0] as usize + v[1] as usize * 256 + v[2] as usize * 65536 + v[3] as usize * 16777216;
            let s: usize = v[4] as usize + v[5] as usize * 256 + v[6] as usize * 65536;
            let size: usize = if s == 0 { 0x10000 } else { s };
            proof {
                assert(off == copy_offset(v@));
                assert(size == copy_size(v@));
            }
            if size > base.len() || off > base.len() - size {
                return None;
            }
            let mut k = off;
            let end = off + size;
            while k < end
                invariant
                    end == off + size,
                    off <= k <= end <= base@.len(),
                    output@ == before + base@.subrange(off as int, k as int),
                decreases end - k,
            {
                output.push(base[k]);
                proof {
                    assert(base@.subrange(off as int, k + 1) =~= base@.subrange(off as int, k as int).push(base@[k as int]));
                    assert(before + base@.subrange(off as int, k + 1) =~= (before + base@.subrange(off as int, k as int)).push(base@[k as int]));
                }
                k = k + 1;
            }
            pos = e;
            proof {
                if let Some(rest) = delta_output(base@, delta@, pos as int) {
                    assert(before + (base@.subrange(off as int, off + size) + rest) =~= output@ + rest);
                }
            }
        } else {
            let n = (cmd & 0x7fu8) as usize;
            if n > delta.len() - (pos + 1) {
                return None;
            }
            let mut k = pos + 1;
            let end = pos + 1 + n;
            while k < end
                invariant
                    end == pos + 1 + n,
                    pos + 1 <= k <= end <= delta@.len(),
                    output@ == before + delta@.subrange(pos + 1, k as int),
                decreases end - k,
            {
                output.push(delta[k]);
                proof {
                    assert(delta@.subrange(pos + 1, k + 1) =~= delta@.subrange(pos + 1, k as int).push(delta@[k as int]));
                    assert(before + delta@.subrange(pos + 1, k + 1) =~= (before + delta@.subrange(pos + 1, k as int)).push(delta@[k as int]));
                }
                k = k + 1;
            }
            pos = pos + 1 + n;
            proof {
                if let Some(rest) = delta_output(base@, delta@, pos as int) {
                    assert(before + (delta@.subrange(here + 1, here + 1 + n) + rest) =~= output@ + rest);
                }
            }
        }
    }
    proof {
        assert(output@ + Seq::<u8>::empty() =~= output@);
    }
    Some(output)
}

/// The target that a delta rebuilds from `base`: each copy instruction
/// appends a range of the base, each insert instruction the bytes that
/// follow it.
pub fn apply_delta(base: &[u8], delta: &[u8]) -> (output: Vec<u8>)
    requires
        delta_result(base@, delta@) is Some,
    ensures
        delta_result(base@, delta@) == Some(output@),
{
    match checked_apply_delta(base, delta) {
        Some(out) => out,
        None => {
            proof {
                assert(false);
            }
            Vec::new()
        },
    }
}


/// A header of exactly two size varints.
pub open spec fn size_header(h: Seq<u8>) -> bool {
    match varint_end(h, 0, 0) {
        Some(p1) => varint_end(h, p1, 0) == Some(h.len() as int),
        None => false,
    }
}

proof fn lemma_varint_prefix(h: Seq<u8>, r: Seq<u8>, pos: int, k: nat)
    requires
        varint_end(h, pos, k) is Some,
    ensures
        varint_end(h + r, pos, k) == varint_end(h, pos, k),
    decreases h.len() - pos,
{
    if 0 <= pos < h.len() && 7 * k < usize::BITS && h[pos] & 0x80u8 != 0 {
        lemma_varint_prefix(h, r, pos + 1, k + 1);
    }
    if 0 <= pos < h.len() {
        assert((h + r)[pos] == h[pos]);
    }
}

proof fn lemma_copy_params_shift(a: Seq<u8>, d: Seq<u8>, p: int, cmd: u8, k: u8)
    requires
        0 <= p,
        k <= 7,
    ensures
        copy_params(a + d, a.len() + p, cmd, k) == (match copy_params(d, p, cmd, k) {
            Some((v, e)) => Some((v, a.len() + e)),
            None => None,
        }),
    decreases 7 - k,
{
    if k < 7 {
        if flag(cmd, k) {
            lemma_copy_params_shift(a, d, p + 1, cmd, (k + 1) as u8);
            if p < d.len() {
                assert((a + d)[a.len() + p] == d[p]);
            }
        } else {
            lemma_copy_params_shift(a, d, p, cmd, (k + 1) as u8);
        }
    }
}

proof fn lemma_copy_params_prefix(d: Seq<u8>, r: Seq<u8>, p: int, cmd: u8, k: u8)
    requires
        k <= 7,
        copy_params(d, p, cmd, k) is Some,
    ensures
        copy_params(d + r, p, cmd, k) == copy_params(d, p, cmd, k),
    decreases 7 - k,
{
    if k < 7 {
        if flag(cmd, k) {
            lemma_copy_params_prefix(d, r, p + 1, cmd, (k + 1) as u8);
            assert((d + r)[p] == d[p]);
        } else {
            lemma_copy_params_prefix(d, r, p, cmd, (k + 1) as u8);
        }
    }
}

/// The instructions of a delta mean the same wherever they stand: what runs
/// from a position is what runs from the matching position of the same
/// bytes with others before them.
pub proof fn lemma_output_shift(base: Seq<u8>, a: Seq<u8>, d: Seq<u8>, pos: int)
    requires
        0 <= pos,
    ensures
        delta_output(base, a + d, a.len() + pos) == delta_output(base, d, pos),
    decreases d.len() - pos,
{
    let ad = a + d;
    let q = a.len() + pos;
    if pos < d.len() {
        assert(ad[q] == d[pos]);
        let cmd = d[pos];
        if cmd & 0x80u8 != 0 {
            lemma_copy_params_shift(a, d, pos + 1, cmd, 0);
            if let Some((v, e)) = copy_params(d, pos + 1, cmd, 0) {
                lemma_copy_params_progress(d, pos + 1, cmd, 0);
                lemma_output_shift(base, a, d, e);
            }
        } else {
            let n = (cmd & 0x7fu8) as int;
            if pos + 1 + n <= d.len() {
                lemma_output_shift(base, a, d, pos + 1 + n);
                assert(ad.subrange(q + 1, q + 1 + n) =~= d.subrange(pos + 1, pos + 1 + n));
            }
        }
    }
}

/// Instructions that run to the end of their own bytes run the same way
/// with more bytes after them, and hand over to those bytes at the end.
pub proof fn lemma_output_append(base: Seq<u8>, p: Seq<u8>, q: Seq<u8>, pos: int)
    requires
        0 <= pos <= p.len(),
        delta_output(base, p, pos) is Some,
    ensures
        delta_output(base, p + q, pos) == prepend(
            delta_output(base, p, pos).unwrap(),
            delta_output(base, p + q, p.len() as int),
        ),
    decreases p.len() - pos,
{
    let pq = p + q;
    if pos == p.len() {
        if let Some(rest) = delta_output(base, pq, pos) {
            assert(Seq::<u8>::empty() + rest =~= rest);
        }
    } else {
        assert(pq[pos] == p[pos]);
        let cmd = p[pos];
        if cmd & 0x80u8 != 0 {
            lemma_copy_params_prefix(p, q, pos + 1, cmd, 0);
            let (v, e) = copy_params(p, pos + 1, cmd, 0).unwrap();
            lemma_copy_params_progress(p, pos + 1, cmd, 0);
            lemma_output_append(base, p, q, e);
            let off = copy_offset(v);
            let size = copy_size(v);
            if let Some(rest) = delta_output(base, pq, p.len() as int) {
                let mid = delta_output(base, p, e).unwrap();
                assert(base.subrange(off as int, (off + size) as int) + (mid + rest) =~= (
                base.subrange(off as int, (off + size) as int) + mid) + rest);
            }
        } else {
            let n = (cmd & 0x7fu8) as int;
            lemma_output_append(base, p, q, pos + 1 + n);
            assert(pq.subrange(pos + 1, pos + 1 + n) =~= p.subrange(pos + 1, pos + 1 + n));
            if let Some(rest) = delta_output(base, pq, p.len() as int) {
                let mid = delta_output(base, p, pos + 1 + n).unwrap();
                assert(p.subrange(pos + 1, pos + 1 + n) + (mid + rest) =~= (p.subrange(
                    pos + 1,
                    pos + 1 + n,
                ) + mid) + rest);
            }
        }
    }
}

proof fn lemma_result_after_header(base: Seq<u8>, h: Seq<u8>, x: Seq<u8>)
    requires
        size_header(h),
    ensures
        delta_result(base, h + x) == delta_output(base, x, 0),
{
    let p1 = varint_end(h, 0, 0).unwrap();
    lemma_varint_prefix(h, x, 0, 0);
    lemma_varint_prefix(h, x, p1, 0);
    lemma_output_shift(base, h, x, 0);
}

/// A delta whose instructions are those of two deltas, one run after the
/// other, rebuilds the first delta's target followed by the second's, where
/// each of the two applies to the base and every delta starts with exactly
/// its two size varints.
pub proof fn lemma_delta_concat(
    base: Seq<u8>,
    h1: Seq<u8>,
    p: Seq<u8>,
    h2: Seq<u8>,
    q: Seq<u8>,
    h3: Seq<u8>,
)
    requires
        size_header(h1),
        size_header(h2),
        size_header(h3),
        delta_result(base, h1 + p) is Some,
        delta_result(base, h2 + q) is Some,
    ensures
        delta_result(base, h3 + (p + q)) == Some(
            delta_result(base, h1 + p).unwrap() + delta_result(base, h2 + q).unwrap(),
        ),
{
    lemma_result_after_header(base, h1, p);
    lemma_result_after_header(base, h2, q);
    lemma_result_after_header(base, h3, p + q);
    lemma_output_append(base, p, q, 0);
    lemma_output_shift(base, p, q, 0);
}

/// The instruction that copies the first `n` bytes of the base: a copy with
/// no offset bytes and three size bytes.
pub open spec fn whole_copy(n: u32) -> Seq<u8> {
    seq![0xf0u8, (n & 0xff) as u8, ((n >> 8u32) & 0xff) as u8, (n >> 16u32) as u8]
}

/// A delta whose one instruction copies the whole base rebuilds the base,
/// for a base of 1 to 2^24 - 1 bytes.
pub proof fn lemma_whole_copy(base: Seq<u8>, h: Seq<u8>, n: u32)
    requires
        size_header(h),
        1 <= n < 0x1000000,
        base.len() == n,
    ensures
        delta_result(base, h + whole_copy(n)) == Some(base),
{
    let d = whole_copy(n);
    lemma_result_after_header(base, h, d);
    let b1 = (n & 0xff) as u8;
    let b2 = ((n >> 8u32) & 0xff) as u8;
    let b3 = (n >> 16u32) as u8;
    assert(b1 + b2 * 256 + b3 * 65536 == n) by (bit_vector)
        requires
            b1 == (n & 0xff) as u8,
            b2 == ((n >> 8u32) & 0xff) as u8,
            b3 == (n >> 16u32) as u8,
            n < 0x1000000,
    ;
    assert(0xf0u8 & 0x80u8 != 0) by (bit_vector);
    assert(!flag(0xf0u8, 0) && !flag(0xf0u8, 1) && !flag(0xf0u8, 2) && !flag(0xf0u8, 3) && flag(
        0xf0u8,
        4,
    ) && flag(0xf0u8, 5) && flag(0xf0u8, 6)) by (bit_vector);
    reveal_with_fuel(copy_params, 8);
    let v = seq![0u8, 0u8, 0u8, 0u8, b1, b2, b3];
    assert(copy_params(d, 1, 0xf0u8, 0) == Some((v, 4int))) by {
        assert(copy_params(d, 4, 0xf0u8, 7) == Some((Seq::<u8>::empty(), 4int)));
        assert(copy_params(d, 3, 0xf0u8, 6) == Some((seq![b3], 4int)));
        assert(copy_params(d, 2, 0xf0u8, 5) == Some((seq![b2, b3], 4int)));
        assert(copy_params(d, 1, 0xf0u8, 4) == Some((seq![b1, b2, b3], 4int)));
        assert(copy_params(d, 1, 0xf0u8, 3) == Some((seq![0u8, b1, b2, b3], 4int)));
        assert(copy_params(d, 1, 0xf0u8, 2) == Some((seq![0u8, 0u8, b1, b2, b3], 4int)));
        assert(copy_params(d, 1, 0xf0u8, 1) == Some((seq![0u8, 0u8, 0u8, b1, b2, b3], 4int)));
        assert(seq![0u8] + seq![0u8, 0u8, 0u8, b1, b2, b3] =~= v);
    }
    assert(copy_offset(v) == 0);
    assert(copy_size(v) == n);
    assert(delta_output(base, d, 4) == Some(Seq::<u8>::empty()));
    assert(base.subrange(0, n as int) + Seq::<u8>::empty() =~= base);
}

/// A copy instruction with every parameter byte present (command 0xff)
/// reads from the little-endian offset of its four offset bytes as many
/// bytes as its three little-endian size bytes give (0 standing for 0x10000),
/// where those bytes lie within the base.
pub proof fn lemma_full_copy(
    base: Seq<u8>,
    h: Seq<u8>,
    o0: u8,
    o1: u8,
    o2: u8,
    o3: u8,
    s0: u8,
    s1: u8,
    s2: u8,
)
    requires
        size_header(h),
        ({
            let off = o0 + 256 * o1 + 65536 * o2 + 16777216 * o3;
            let sz = s0 + 256 * s1 + 65536 * s2;
            let size = if sz == 0 { 0x10000 } else { sz };
            off + size <= base.len()
        }),
    ensures
        ({
            let off = o0 + 256 * o1 + 65536 * o2 + 16777216 * o3;
            let sz = s0 + 256 * s1 + 65536 * s2;
            let size = if sz == 0 { 0x10000 } else { sz };
            delta_result(base, h + seq![0xffu8, o0, o1, o2, o3, s0, s1, s2]) == Some(
                base.subrange(off, off + size),
            )
        }),
{
    let d = seq![0xffu8, o0, o1, o2, o3, s0, s1, s2];
    lemma_result_after_header(base, h, d);
    assert(flag(0xffu8, 0) && flag(0xffu8, 1) && flag(0xffu8, 2) && flag(0xffu8, 3) && flag(
        0xffu8,
        4,
    ) && flag(0xffu8, 5) && flag(0xffu8, 6)) by (bit_vector);
    assert(0xffu8 & 0x80u8 != 0) by (bit_vector);
    reveal_with_fuel(copy_params, 8);
    let v = seq![o0, o1, o2, o3, s0, s1, s2];
    assert(copy_params(d, 1, 0xffu8, 0) == Some((v, 8int))) by {
        assert(copy_params(d, 8, 0xffu8, 7) == Some((Seq::<u8>::empty(), 8int)));
        assert(copy_params(d, 7, 0xffu8, 6) == Some((seq![s2], 8int)));
        assert(copy_params(d, 6, 0xffu8, 5) == Some((seq![s1, s2], 8int)));
        assert(copy_params(d, 5, 0xffu8, 4) == Some((seq![s0, s1, s2], 8int)));
        assert(copy_params(d, 4, 0xffu8, 3) == Some((seq![o3, s0, s1, s2], 8int)));
        assert(copy_params(d, 3, 0xffu8, 2) == Some((seq![o2, o3, s0, s1, s2], 8int)));
        assert(copy_params(d, 2, 0xffu8, 1) == Some((seq![o1, o2, o3, s0, s1, s2], 8int)));
        assert(seq![o0] + seq![o1, o2, o3, s0, s1, s2] =~= v);
    }
    assert(delta_output(base, d, 8) == Some(Seq::<u8>::empty()));
    let off = copy_offset(v);
    let size = copy_size(v);
    assert(base.subrange(off as int, (off + size) as int) + Seq::<u8>::empty() =~= base.subrange(
        off as int,
        (off + size) as int,
    ));
}

/// A copy instruction with only its two low offset bytes and its low size
/// byte (command 0x93) reads `n` bytes from offset `lo + 256 * hi`.
pub proof fn lemma_short_copy(base: Seq<u8>, h: Seq<u8>, lo: u8, hi: u8, n: u8)
    requires
        size_header(h),
        1 <= n,
        lo + 256 * hi + n <= base.len(),
    ensures
        delta_result(base, h + seq![0x93u8, lo, hi, n]) == Some(
            base.subrange(lo + 256 * hi, lo + 256 * hi + n),
        ),
{
    let d = seq![0x93u8, lo, hi, n];
    lemma_result_after_header(base, h, d);
    assert(flag(0x93u8, 0) && flag(0x93u8, 1) && !flag(0x93u8, 2) && !flag(0x93u8, 3) && flag(
        0x93u8,
        4,
    ) && !flag(0x93u8, 5) && !flag(0x93u8, 6)) by (bit_vector);
    assert(0x93u8 & 0x80u8 != 0) by (bit_vector);
    reveal_with_fuel(copy_params, 8);
    let v = seq![lo, hi, 0u8, 0u8, n, 0u8, 0u8];
    assert(copy_params(d, 1, 0x93u8, 0) == Some((v, 4int))) by {
        assert(copy_params(d, 4, 0x93u8, 7) == Some((Seq::<u8>::empty(), 4int)));
        assert(copy_params(d, 4, 0x93u8, 6) == Some((seq![0u8], 4int)));
        assert(copy_params(d, 4, 0x93u8, 5) == Some((seq![0u8, 0u8], 4int)));
        assert(copy_params(d, 3, 0x93u8, 4) == Some((seq![n, 0u8, 0u8], 4int)));
        assert(copy_params(d, 3, 0x93u8, 3) == Some((seq![0u8, n, 0u8, 0u8], 4int)));
        assert(copy_params(d, 3, 0x93u8, 2) == Some((seq![0u8, 0u8, n, 0u8, 0u8], 4int)));
        assert(copy_params(d, 2, 0x93u8, 1) == Some((seq![hi, 0u8, 0u8, n, 0u8, 0u8], 4int)));
        assert(seq![lo] + seq![hi, 0u8, 0u8, n, 0u8, 0u8] =~= v);
    }
    assert(delta_output(base, d, 4) == Some(Seq::<u8>::empty()));
    let off = copy_offset(v);
    let size = copy_size(v);
    assert(off == lo + 256 * hi);
    assert(size == n);
    assert(base.subrange(off as int, (off + size) as int) + Seq::<u8>::empty() =~= base.subrange(
        off as int,
        (off + size) as int,
    ));
}

/// An insert instruction (a command byte `n` from 1 to 127 followed by `n`
/// bytes) adds those bytes to the target, whatever the base.
pub proof fn lemma_insert(base: Seq<u8>, h: Seq<u8>, bytes: Seq<u8>)
    requires
        size_header(h),
        1 <= bytes.len() < 128,
    ensures
        delta_result(base, h + (seq![bytes.len() as u8] + bytes)) == Some(bytes),
{
    let n = bytes.len() as u8;
    let d = seq![n] + bytes;
    lemma_result_after_header(base, h, d);
    assert(n & 0x80u8 == 0 && (n & 0x7fu8) == n) by (bit_vector)
        requires
            n < 128,
    ;
    assert(d[0] == n);
    assert(delta_output(base, d, 1 + n) == Some(Seq::<u8>::empty()));
    assert(d.subrange(1, 1 + n) =~= bytes);
    assert(bytes + Seq::<u8>::empty() =~= bytes);
}

} // verus!
