//! The pkt-line framing of git's transfer protocol: four hex digits giving
//! the length of the line (those four bytes included), then the payload;
//! "0000" is a flush packet.

use crate::external::hex_digit_value;
use vstd::prelude::*;

verus! {

/// The value of the four length bytes of a pkt-line, read as
/// `usize::from_str_radix(.., 16)` reads them: an optional '+' then hex
/// digits of either case. `None` where they are not such a number.
pub open spec fn pkt_length(b: Seq<u8>) -> Option<nat> {
    if b[0] == 43u8 {
        match (hex_digit_value(b[1]), hex_digit_value(b[2]), hex_digit_value(b[3])) {
            (Some(x), Some(y), Some(z)) => Some((x * 256 + y * 16 + z) as nat),
            _ => None,
        }
    } else {
        match (hex_digit_value(b[0]), hex_digit_value(b[1]), hex_digit_value(b[2]), hex_digit_value(b[3])) {
            (Some(w), Some(x), Some(y), Some(z)) => Some((w * 4096 + x * 256 + y * 16 + z) as nat),
            _ => None,
        }
    }
}

/// The payloads of the pkt-lines of `data`, flush packets skipped and fewer
/// than four trailing bytes ignored. `None` where a length is not a number,
/// is below four (but for a flush), or runs past the end.
pub open spec fn pkt_lines(data: Seq<u8>) -> Option<Seq<Seq<u8>>>
    decreases data.len(),
{
    if data.len() < 4 {
        Some(Seq::empty())
    } else {
        match pkt_length(data.take(4)) {
            None => None,
            Some(len) => {
                if len == 0 {
                    pkt_lines(data.skip(4))
                } else if len < 4 || len > data.len() {
                    None
                } else {
                    match pkt_lines(data.skip(len as int)) {
                        Some(rest) => Some(seq![data.subrange(4, len as int)] + rest),
                        None => None,
                    }
                }
            },
        }
    }
}

/// The lowercase hex digit byte for a value below 16.
pub open spec fn nibble_byte(v: nat) -> u8 {
    if v < 10 {
        (v + 48) as u8
    } else {
        (v + 87) as u8
    }
}

/// The lowercase hex digits of `n`, zero-padded to at least `w` digits, as
/// `format!("{:0w$x}", n)` writes them.
pub open spec fn hex_width(n: nat, w: nat) -> Seq<u8>
    decreases n + w,
{
    if n < 16 && w <= 1 {
        seq![nibble_byte(n)]
    } else {
        hex_width(n / 16, if w > 0 { (w - 1) as nat } else { 0 }) + seq![nibble_byte(n % 16)]
    }
}

/// A pkt-line carrying `payload`: its length plus four, in at least four
/// lowercase hex digits, then the payload.
pub open spec fn pkt_line(payload: Seq<u8>) -> Seq<u8> {
    hex_width(payload.len() + 4, 4) + payload
}

/// The pkt-lines of the given payloads, one after the other.
pub open spec fn pkt_stream(ps: Seq<Seq<u8>>) -> Seq<u8>
    decreases ps.len(),
{
    if ps.len() == 0 {
        Seq::empty()
    } else {
        pkt_line(ps[0]) + pkt_stream(ps.drop_first())
    }
}

/// The views of a list of byte vectors.
pub open spec fn lines_view(v: Seq<Vec<u8>>) -> Seq<Seq<u8>> {
    v.map_values(|l: Vec<u8>| l@)
}

/// Places `prefix` before an optional list of lines.
pub open spec fn prepend_lines(prefix: Seq<Seq<u8>>, r: Option<Seq<Seq<u8>>>) -> Option<Seq<Seq<u8>>> {
    match r {
        Some(rest) => Some(prefix + rest),
        None => None,
    }
}

fn digit_value(c: u8) -> (r: Option<u8>)
    ensures
        r == hex_digit_value(c),
{
    if 48 <= c && c <= 57 {
        Some(c - 48)
    } else if 97 <= c && c <= 102 {
        Some(c - 87)
    } else if 65 <= c && c <= 70 {
        Some(c - 55)
    } else {
        None
    }
}

fn read_length(data: &[u8], pos: usize) -> (r: Option<usize>)
    requires
        pos + 4 <= data@.len(),
    ensures
        match r {
            Some(n) => pkt_length(data@.skip(pos as int).take(4)) == Some(n as nat),
            None => pkt_length(data@.skip(pos as int).take(4)) is None,
        },
{
    let _len = data.len();
    let ghost b = data@.skip(pos as int).take(4);
    assert(b[0] == data@[pos as int] && b[1] == data@[pos + 1] && b[2] == data@[pos + 2] && b[3]
        == data@[pos + 3]);
    let x = digit_value(data[pos + 1]);
    let y = digit_value(data[pos + 2]);
    let z = digit_value(data[pos + 3]);
    if data[pos] == 43u8 {
        match (x, y, z) {
            (Some(x), Some(y), Some(z)) => Some(x as usize * 256 + y as usize * 16 + z as usize),
            _ => None,
        }
    } else {
        let w = digit_value(data[pos]);
        match (w, x, y, z) {
            (Some(w), Some(x), Some(y), Some(z)) => Some(
                w as usize * 4096 + x as usize * 256 + y as usize * 16 + z as usize,
            ),
            _ => None,
        }
    }
}

/// The payloads of the pkt-lines of `data`, or `None` where a length is not
/// a number, is below four (but for a flush packet), or runs past the end.
pub fn checked_read_pkt_lines(data: &[u8]) -> (r: Option<Vec<Vec<u8>>>)
    ensures
        match r {
            Some(v) => pkt_lines(data@) == Some(lines_view(v@)),
            None => pkt_lines(data@) is None,
        },
{
    let mut lines: Vec<Vec<u8>> = Vec::new();
    let mut pos: usize = 0;
    proof {
        assert(data@.skip(0) =~= data@);
        if let Some(rest) = pkt_lines(data@) {
            assert(lines_view(lines@) + rest =~= rest);
        }
    }
    while data.len() - pos >= 4
        invariant
            pos <= data@.len(),
            pkt_lines(data@) == prepend_lines(lines_view(lines@), pkt_lines(data@.skip(pos as int))),
        decreases data.len() - pos,
    {
        let ghost rest = data@.skip(pos as int);
        let len = match read_length(data, pos) {
            Some(n) => n,
            None => {
                return None;
            },
        };
        if len == 0 {
            proof {
                assert(rest.skip(4) =~= data@.skip(pos + 4));
            }
            pos = pos + 4;
        } else {
            if len < 4 || len > data.len() - pos {
                return None;
            }
            let ghost before = lines@;
            let mut line: Vec<u8> = Vec::new();
            let mut k: usize = pos + 4;
            let end = pos + len;
            while k < end
                invariant
                    pos + 4 <= k <= end <= data@.len(),
                    end == pos + len,
                    line@ == data@.subrange(pos + 4, k as int),
                decreases end - k,
            {
                line.push(data[k]);
                proof {
                    assert(data@.subrange(pos + 4, k + 1) =~= data@.subrange(pos + 4, k as int).push(data@[k as int]));
                }
                k = k + 1;
            }
            lines.push(line);
            proof {
                assert(rest.subrange(4, len as int) =~= line@);
                assert(rest.skip(len as int) =~= data@.skip(pos + len));
                assert(lines_view(lines@) =~= lines_view(before).push(line@));
                if let Some(tail) = pkt_lines(data@.skip(pos + len)) {
                    assert(lines_view(before) + (seq![line@] + tail) =~= lines_view(lines@) + tail);
                }
            }
            pos = pos + len;
        }
    }
    proof {
        let rest = data@.skip(pos as int);
        assert(pkt_lines(rest) == Some(Seq::<Seq<u8>>::empty()));
        assert(lines_view(lines@) + Seq::<Seq<u8>>::empty() =~= lines_view(lines@));
    }
    Some(lines)
}

/// The payloads of the pkt-lines of `data`: each line's first four bytes
/// give its length in hex, "0000" lines are skipped, and fewer than four
/// trailing bytes are ignored.
pub fn read_pkt_lines(data: &[u8]) -> (lines: Vec<Vec<u8>>)
    requires
        pkt_lines(data@) is Some,
    ensures
        pkt_lines(data@) == Some(lines_view(lines@)),
{
    match checked_read_pkt_lines(data) {
        Some(v) => v,
        None => {
            proof {
                assert(false);
            }
            Vec::new()
        },
    }
}

fn nibble(v: usize) -> (b: u8)
    requires
        v < 16,
    ensures
        b == nibble_byte(v as nat),
{
    if v < 10 {
        v as u8 + 48
    } else {
        v as u8 + 87
    }
}

/// Appends the lowercase hex digits of `n`, padded with zeros to `w` digits.
pub fn push_hex_width(out: &mut Vec<u8>, n: usize, w: usize)
    ensures
        final(out)@ == old(out)@ + hex_width(n as nat, w as nat),
    decreases n + w,
{
    if n < 16 && w <= 1 {
        out.push(nibble(n));
    } else {
        let w2: usize = if w > 0 { w - 1 } else { 0 };
        push_hex_width(out, n / 16, w2);
        out.push(nibble(n % 16));
        proof {
            assert(final(out)@ =~= old(out)@ + hex_width(n as nat, w as nat));
        }
    }
}


proof fn lemma_nibble_value(v: nat)
    requires
        v < 16,
    ensures
        hex_digit_value(nibble_byte(v)) == Some(v as u8),
        nibble_byte(v) != 43u8,
{
}

/// A length below 0x10000 is written in exactly four digits, which read
/// back as that length.
pub proof fn lemma_length_digits(n: nat)
    requires
        n < 0x10000,
    ensures
        hex_width(n, 4).len() == 4,
        pkt_length(hex_width(n, 4)) == Some(n),
{
    let a = n / 4096;
    let b = (n / 256) % 16;
    let c = (n / 16) % 16;
    let d = n % 16;
    assert(n / 16 / 16 == n / 256) by (nonlinear_arith);
    assert(n / 256 / 16 == n / 4096) by (nonlinear_arith);
    assert(n / 4096 < 16) by (nonlinear_arith)
        requires
            n < 0x10000,
    ;
    assert(n == a * 4096 + b * 256 + c * 16 + d) by (nonlinear_arith)
        requires
            a == n / 4096,
            b == (n / 256) % 16,
            c == (n / 16) % 16,
            d == n % 16,
    ;
    reveal_with_fuel(hex_width, 4);
    let h = hex_width(n, 4);
    assert(hex_width(n / 4096, 1) == seq![nibble_byte(a)]);
    assert(hex_width(n / 256, 2) == seq![nibble_byte(a)] + seq![nibble_byte((n / 256) % 16)]);
    assert(hex_width(n / 16, 3) == hex_width(n / 256, 2) + seq![nibble_byte((n / 16) % 16)]);
    assert(h == hex_width(n / 16, 3) + seq![nibble_byte(n % 16)]);
    assert(h =~= seq![nibble_byte(a), nibble_byte(b), nibble_byte(c), nibble_byte(d)]);
    lemma_nibble_value(a);
    lemma_nibble_value(b);
    lemma_nibble_value(c);
    lemma_nibble_value(d);
    assert(h.take(4) =~= h);
}

/// Reading a stream of pkt-lines gives back their payloads, in order, where
/// each payload is short enough for its length to fit in four digits.
pub proof fn lemma_pkt_stream_read_back(ps: Seq<Seq<u8>>)
    requires
        forall|i: int| 0 <= i < ps.len() ==> #[trigger] ps[i].len() + 4 < 0x10000,
    ensures
        pkt_lines(pkt_stream(ps)) == Some(ps),
    decreases ps.len(),
{
    if ps.len() == 0 {
        assert(pkt_stream(ps).len() == 0);
        assert(ps =~= Seq::<Seq<u8>>::empty());
    } else {
        let p = ps[0];
        let rest = ps.drop_first();
        assert forall|i: int| 0 <= i < rest.len() implies #[trigger] rest[i].len() + 4 < 0x10000 by {
            assert(rest[i] == ps[i + 1]);
        }
        lemma_pkt_stream_read_back(rest);
        let n = p.len() + 4;
        lemma_length_digits(n);
        let data = pkt_stream(ps);
        assert(data == hex_width(n, 4) + p + pkt_stream(rest));
        assert(data.take(4) =~= hex_width(n, 4));
        assert(data.subrange(4, n as int) =~= p);
        assert(data.skip(n as int) =~= pkt_stream(rest));
        assert(seq![p] + rest =~= ps);
    }
}

/// A flush packet ("0000") is skipped.
pub proof fn lemma_flush_skipped(rest: Seq<u8>)
    ensures
        pkt_lines(seq![48u8, 48u8, 48u8, 48u8] + rest) == pkt_lines(rest),
{
    let data = seq![48u8, 48u8, 48u8, 48u8] + rest;
    assert(data.take(4) =~= seq![48u8, 48u8, 48u8, 48u8]);
    assert(data.skip(4) =~= rest);
}

/// The pkt-line carrying `payload`: its length plus four in (at least) four
/// lowercase hex digits, then the payload.
pub fn encode_pkt_line(payload: &[u8]) -> (line: Vec<u8>)
    requires
        payload@.len() + 4 <= usize::MAX,
    ensures
        line@ == pkt_line(payload@),
{
    let mut line: Vec<u8> = Vec::new();
    push_hex_width(&mut line, payload.len() + 4, 4);
    let mut i: usize = 0;
    let ghost head = line@;
    while i < payload.len()
        invariant
            i <= payload@.len(),
            line@ == head + payload@.take(i as int),
        decreases payload.len() - i,
    {
        line.push(payload[i]);
        proof {
            assert(payload@.take(i + 1) =~= payload@.take(i as int).push(payload@[i as int]));
        }
        i = i + 1;
    }
    proof {
        assert(payload@.take(i as int) =~= payload@);
    }
    line
}


/// A short pkt-line at the front of a stream is read as its payload, and
/// the rest of the stream is read after it.
pub proof fn lemma_pkt_line_front(p: Seq<u8>, rest: Seq<u8>)
    requires
        p.len() + 4 < 0x10000,
    ensures
        pkt_lines(pkt_line(p) + rest) == prepend_lines(seq![p], pkt_lines(rest)),
{
    let n = p.len() + 4;
    lemma_length_digits(n);
    let data = pkt_line(p) + rest;
    assert(data.take(4) =~= hex_width(n, 4));
    assert(data.subrange(4, n as int) =~= p);
    assert(data.skip(n as int) =~= rest);
}

} // verus!
