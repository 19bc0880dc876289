//! The decisions of a clone over git's smart HTTP protocol: which commit
//! the server advertises, the upload-pack request, the pack data carried on
//! side-band 1, and the tree that the cloned commit names.

use crate::external::{is_utf8, lossy_chars, lossy_text, string_from_chars};
use crate::object::{
    body_of, commit_content, commit_kind, framed, lemma_framed_body, object_body, push_all,
};
use crate::pkt::{
    checked_read_pkt_lines, encode_pkt_line, hex_width, lemma_flush_skipped, lemma_pkt_line_front,
    lines_view, pkt_line, pkt_lines,
};
use vstd::prelude::*;
use vstd::utf8::{encode_utf8, encode_utf8_decode_utf8, encode_utf8_valid_utf8, valid_utf8};

verus! {

/// An ASCII whitespace byte, as `u8::is_ascii_whitespace` has it: space,
/// tab, line feed, form feed or carriage return.
pub open spec fn is_ascii_space(b: u8) -> bool {
    b == 0x20u8 || b == 0x09u8 || b == 0x0au8 || b == 0x0cu8 || b == 0x0du8
}

/// The bytes of `s` before the first stop byte: a NUL, or (where `space`)
/// an ASCII whitespace byte. All of `s` where there is none.
pub open spec fn take_until(s: Seq<u8>, space: bool) -> Seq<u8>
    decreases s.len(),
{
    if s.len() == 0 {
        Seq::empty()
    } else if (if space { is_ascii_space(s[0]) } else { s[0] == 0u8 }) {
        Seq::empty()
    } else {
        seq![s[0]] + take_until(s.drop_first(), space)
    }
}

/// The id the server advertises first: on the second pkt-line of its
/// reference discovery, the bytes before the first NUL, up to the first
/// whitespace. `None` where the response does not read as pkt-lines or has
/// fewer than two.
pub open spec fn advertised_want(response: Seq<u8>) -> Option<Seq<u8>> {
    match pkt_lines(response) {
        None => None,
        Some(ls) => if ls.len() < 2 {
            None
        } else {
            Some(take_until(take_until(ls[1], false), true))
        },
    }
}

fn prefix_until(s: &[u8], space: bool) -> (r: Vec<u8>)
    ensures
        r@ == take_until(s@, space),
{
    let mut r: Vec<u8> = Vec::new();
    let mut i: usize = 0;
    proof {
        assert(s@.skip(0) =~= s@);
        assert(take_until(s@, space) =~= r@ + take_until(s@.skip(0), space));
    }
    while i < s.len()
        invariant
            i <= s@.len(),
            take_until(s@, space) == r@ + take_until(s@.skip(i as int), space),
        decreases s.len() - i,
    {
        let b = s[i];
        let stop = if space {
            b == 0x20u8 || b == 0x09u8 || b == 0x0au8 || b == 0x0cu8 || b == 0x0du8
        } else {
            b == 0u8
        };
        if stop {
            proof {
                assert(take_until(s@.skip(i as int), space) =~= Seq::<u8>::empty());
                assert(r@ + Seq::<u8>::empty() =~= r@);
            }
            return r;
        }
        let ghost before = r@;
        r.push(b);
        proof {
            assert(s@.skip(i as int).drop_first() =~= s@.skip(i + 1));
            assert(before + (seq![b] + take_until(s@.skip(i + 1), space)) =~= r@ + take_until(
                s@.skip(i + 1),
                space,
            ));
        }
        i = i + 1;
    }
    proof {
        assert(take_until(s@.skip(i as int), space) =~= Seq::<u8>::empty());
        assert(r@ + Seq::<u8>::empty() =~= r@);
    }
    r
}

/// The id the server advertises first in its reference discovery response.
pub fn advertised_head(response: &[u8]) -> (want: Option<Vec<u8>>)
    ensures
        match want {
            Some(w) => advertised_want(response@) == Some(w@),
            None => advertised_want(response@) is None,
        },
{
    match checked_read_pkt_lines(response) {
        None => None,
        Some(lines) => {
            if lines.len() < 2 {
                None
            } else {
                proof {
                    assert(lines_view(lines@)[1] == lines@[1]@);
                }
                let part = prefix_until(lines[1].as_slice(), false);
                Some(prefix_until(part.as_slice(), true))
            }
        },
    }
}

/// The payload of the "want" line of the upload-pack request.
pub open spec fn want_line(want: Seq<u8>) -> Seq<u8> {
    encode_utf8("want "@) + want + encode_utf8(
        " multi_ack_detailed side-band-64k thin-pack ofs-delta\n"@,
    )
}

/// A flush packet, "0000".
pub open spec fn flush_pkt() -> Seq<u8> {
    seq![48u8, 48u8, 48u8, 48u8]
}

/// The payload "done\n".
pub open spec fn done_text() -> Seq<u8> {
    seq![100u8, 111u8, 110u8, 101u8, 10u8]
}

/// The body of the upload-pack request: the want line as a pkt-line, a
/// flush packet, then "0009done\n".
pub open spec fn upload_request(want: Seq<u8>) -> Seq<u8> {
    pkt_line(want_line(want)) + flush_pkt() + seq![48u8, 48u8, 48u8, 57u8] + done_text()
}

/// The body of the upload-pack request that wants the given id, or `None`
/// where the id is not valid UTF-8 or the request's length does not fit in
/// a `usize`.
pub fn upload_pack_request(want: &[u8]) -> (body: Option<Vec<u8>>)
    ensures
        match body {
            Some(b) => valid_utf8(want@) && want_line(want@).len() + 4 <= usize::MAX && b@
                == upload_request(want@),
            None => !valid_utf8(want@) || want_line(want@).len() + 4 > usize::MAX,
        },
{
    if !is_utf8(want) {
        return None;
    }
    let mut message: Vec<u8> = Vec::new();
    push_all(&mut message, "want ".as_bytes());
    push_all(&mut message, want);
    push_all(&mut message, " multi_ack_detailed side-band-64k thin-pack ofs-delta\n".as_bytes());
    proof {
        assert(message@ =~= want_line(want@));
    }
    if message.len() > usize::MAX - 4 {
        return None;
    }
    let mut body = encode_pkt_line(message.as_slice());
    let tail: Vec<u8> = vec![48u8, 48u8, 48u8, 48u8, 48u8, 48u8, 48u8, 57u8, 100u8, 111u8, 110u8, 101u8, 10u8];
    push_all(&mut body, tail.as_slice());
    proof {
        assert(body@ =~= upload_request(want@));
    }
    Some(body)
}

/// The upload-pack request reads back, as pkt-lines, as the want line and
/// "done\n", where the want line is short enough for a four-digit length.
pub proof fn lemma_upload_request_read_back(want: Seq<u8>)
    requires
        want_line(want).len() + 4 < 0x10000,
    ensures
        pkt_lines(upload_request(want)) == Some(seq![want_line(want), done_text()]),
{
    let done_pkt = seq![48u8, 48u8, 48u8, 57u8] + done_text();
    reveal_with_fuel(hex_width, 4);
    assert(hex_width(9, 4) =~= seq![48u8, 48u8, 48u8, 57u8]) by {
        assert(hex_width(0, 1) == seq![48u8]);
        assert(hex_width(0, 2) =~= seq![48u8, 48u8]);
        assert(hex_width(0, 3) =~= seq![48u8, 48u8, 48u8]);
    }
    assert(pkt_line(done_text()) =~= done_pkt);
    lemma_pkt_line_front(done_text(), Seq::empty());
    assert(done_pkt + Seq::<u8>::empty() =~= done_pkt);
    assert(pkt_lines(Seq::<u8>::empty()) == Some(Seq::<Seq<u8>>::empty()));
    lemma_flush_skipped(done_pkt);
    lemma_pkt_line_front(want_line(want), flush_pkt() + done_pkt);
    assert(upload_request(want) =~= pkt_line(want_line(want)) + (flush_pkt() + done_pkt));
    assert(seq![want_line(want)] + (seq![done_text()] + Seq::<Seq<u8>>::empty()) =~= seq![
        want_line(want),
        done_text(),
    ]);
}

/// The data a server sends on side-band 1: each such pkt-line without its
/// band byte, one after the other.
pub open spec fn side_band_data(ls: Seq<Seq<u8>>) -> Seq<u8>
    decreases ls.len(),
{
    if ls.len() == 0 {
        Seq::empty()
    } else {
        let l = ls.last();
        side_band_data(ls.drop_last()) + (if l[0] == 1u8 {
            l.drop_first()
        } else {
            Seq::empty()
        })
    }
}

/// The pack data in an upload-pack response: what it carries on band 1.
/// `None` where it does not read as pkt-lines or some line is empty.
pub open spec fn response_pack(response: Seq<u8>) -> Option<Seq<u8>> {
    match pkt_lines(response) {
        None => None,
        Some(ls) => if forall|i: int| 0 <= i < ls.len() ==> #[trigger] ls[i].len() > 0 {
            Some(side_band_data(ls))
        } else {
            None
        },
    }
}

/// The pack data that an upload-pack response carries on side-band 1.
pub fn pack_from_response(response: &[u8]) -> (pack: Option<Vec<u8>>)
    ensures
        match pack {
            Some(p) => response_pack(response@) == Some(p@),
            None => response_pack(response@) is None,
        },
{
    let lines = match checked_read_pkt_lines(response) {
        None => {
            return None;
        },
        Some(l) => l,
    };
    let ghost ls = lines_view(lines@);
    let mut i: usize = 0;
    while i < lines.len()
        invariant
            i <= lines@.len(),
            ls == lines_view(lines@),
            pkt_lines(response@) == Some(ls),
            forall|k: int| 0 <= k < i ==> #[trigger] ls[k].len() > 0,
        decreases lines.len() - i,
    {
        if lines[i].len() == 0 {
            proof {
                assert(ls[i as int].len() == 0);
                assert(pkt_lines(response@) == Some(ls));
                assert(!(forall|k: int| 0 <= k < ls.len() ==> #[trigger] ls[k].len() > 0));
            }
            return None;
        }
        i = i + 1;
    }
    let mut data: Vec<u8> = Vec::new();
    let mut j: usize = 0;
    while j < lines.len()
        invariant
            j <= lines@.len(),
            ls == lines_view(lines@),
            pkt_lines(response@) == Some(ls),
            forall|k: int| 0 <= k < ls.len() ==> #[trigger] ls[k].len() > 0,
            data@ == side_band_data(ls.take(j as int)),
        decreases lines.len() - j,
    {
        let line = &lines[j];
        proof {
            assert(ls[j as int] == line@);
            assert(line@.len() > 0);
            assert(ls.take(j + 1).drop_last() =~= ls.take(j as int));
            assert(ls.take(j + 1).last() == line@);
        }
        if line[0] == 1u8 {
            let ghost before = data@;
            push_all(&mut data, &line[1..line.len()]);
            proof {
                assert(line@.subrange(1, line@.len() as int) =~= line@.drop_first());
            }
        } else {
            proof {
                assert(data@ + Seq::<u8>::empty() =~= data@);
            }
        }
        j = j + 1;
    }
    proof {
        assert(ls.take(j as int) =~= ls);
    }
    Some(data)
}


/// A whitespace character, as `char::is_whitespace` has it: the characters
/// with the Unicode White_Space property.
pub open spec fn is_white(c: char) -> bool {
    let u = c as u32;
    (9 <= u <= 13) || u == 32 || u == 0x85 || u == 0xa0 || u == 0x1680 || (0x2000 <= u <= 0x200a)
        || u == 0x2028 || u == 0x2029 || u == 0x202f || u == 0x205f || u == 0x3000
}

/// The words of `rest`, the current word `cur` coming first: the maximal
/// runs of non-whitespace characters, as `str::split_whitespace` yields.
pub open spec fn words_from(cur: Seq<char>, rest: Seq<char>) -> Seq<Seq<char>>
    decreases rest.len(),
{
    if rest.len() == 0 {
        if cur.len() > 0 {
            seq![cur]
        } else {
            Seq::empty()
        }
    } else if is_white(rest[0]) {
        (if cur.len() > 0 {
            seq![cur]
        } else {
            Seq::empty()
        }) + words_from(Seq::empty(), rest.drop_first())
    } else {
        words_from(cur.push(rest[0]), rest.drop_first())
    }
}

/// The words of a text.
pub open spec fn words(s: Seq<char>) -> Seq<Seq<char>> {
    words_from(Seq::empty(), s)
}

/// The tree that a commit object names, as a clone reads it: the second
/// word of its content. `Some(None)` where the object has no NUL byte (and
/// so no content); `None` where the content has fewer than two words.
pub open spec fn commit_tree(commit: Seq<u8>) -> Option<Option<Seq<char>>> {
    match object_body(commit) {
        None => Some(None),
        Some(body) => {
            let w = words(lossy_text(body));
            if w.len() < 2 {
                None
            } else {
                Some(Some(w[1]))
            }
        },
    }
}

/// A commit object whose content has fewer than two words.
pub enum CommitError {
    MissingTree,
}

fn white(c: char) -> (r: bool)
    ensures
        r == is_white(c),
{
    let u = c as u32;
    (9 <= u && u <= 13) || u == 32 || u == 0x85 || u == 0xa0 || u == 0x1680 || (0x2000 <= u && u
        <= 0x200a) || u == 0x2028 || u == 0x2029 || u == 0x202f || u == 0x205f || u == 0x3000
}

/// The views of a list of words.
pub open spec fn words_view(v: Seq<Vec<char>>) -> Seq<Seq<char>> {
    v.map_values(|w: Vec<char>| w@)
}

fn split_words(s: &[char]) -> (r: Vec<Vec<char>>)
    ensures
        words_view(r@) == words(s@),
{
    let mut done: Vec<Vec<char>> = Vec::new();
    let mut cur: Vec<char> = Vec::new();
    let mut i: usize = 0;
    proof {
        assert(s@.skip(0) =~= s@);
        assert(words_view(done@) + words_from(cur@, s@.skip(0)) =~= words(s@));
    }
    while i < s.len()
        invariant
            i <= s@.len(),
            words(s@) == words_view(done@) + words_from(cur@, s@.skip(i as int)),
        decreases s.len() - i,
    {
        let c = s[i];
        let ghost rest = s@.skip(i as int);
        proof {
            assert(rest.drop_first() =~= s@.skip(i + 1));
            assert(rest[0] == c);
        }
        if white(c) {
            if cur.len() > 0 {
                let ghost before = done@;
                let ghost w = cur@;
                done.push(cur);
                cur = Vec::new();
                proof {
                    assert(words_view(done@) =~= words_view(before).push(w));
                    assert(words_view(before) + (seq![w] + words_from(Seq::empty(), s@.skip(i + 1)))
                        =~= words_view(done@) + words_from(cur@, s@.skip(i + 1)));
                }
            } else {
                proof {
                    assert(cur@ =~= Seq::<char>::empty());
                    assert(Seq::<Seq<char>>::empty() + words_from(Seq::empty(), s@.skip(i + 1))
                        =~= words_from(cur@, s@.skip(i + 1)));
                }
            }
        } else {
            cur.push(c);
        }
        i = i + 1;
    }
    proof {
        assert(s@.skip(i as int) =~= Seq::<char>::empty());
    }
    if cur.len() > 0 {
        let ghost before = done@;
        let ghost w = cur@;
        done.push(cur);
        proof {
            assert(words_view(done@) =~= words_view(before) + seq![w]);
        }
    } else {
        proof {
            assert(words_view(done@) + Seq::<Seq<char>>::empty() =~= words_view(done@));
        }
    }
    done
}

/// The id of the tree that a commit object names: the second word of its
/// content. `Ok(None)` where the object has no NUL byte.
pub fn commit_tree_id(commit: &[u8]) -> (tree: Result<Option<String>, CommitError>)
    ensures
        match tree {
            Ok(Some(t)) => commit_tree(commit@) == Some(Some(t@)),
            Ok(None) => commit_tree(commit@) == Some(None::<Seq<char>>),
            Err(_) => commit_tree(commit@) is None,
        },
{
    match body_of(commit) {
        None => Ok(None),
        Some(body) => {
            let text = lossy_chars(body.as_slice());
            let w = split_words(text.as_slice());
            if w.len() < 2 {
                Err(CommitError::MissingTree)
            } else {
                proof {
                    assert(words_view(w@)[1] == w@[1]@);
                }
                Ok(Some(string_from_chars(w[1].as_slice())))
            }
        },
    }
}


/// The UTF-8 encoding of two texts one after the other is their encodings
/// one after the other.
pub proof fn lemma_encode_utf8_concat(a: Seq<char>, b: Seq<char>)
    ensures
        encode_utf8(a + b) == encode_utf8(a) + encode_utf8(b),
    decreases a.len(),
{
    if a.len() == 0 {
        assert(a + b =~= b);
        assert(encode_utf8(a) + encode_utf8(b) =~= encode_utf8(b));
    } else {
        lemma_encode_utf8_concat(a.drop_first(), b);
        assert((a + b).drop_first() =~= a.drop_first() + b);
        assert((a + b)[0] == a[0]);
    }
}

proof fn lemma_words_plain(cur: Seq<char>, a: Seq<char>, b: Seq<char>)
    requires
        forall|i: int| 0 <= i < a.len() ==> !is_white(#[trigger] a[i]),
    ensures
        words_from(cur, a + b) == words_from(cur + a, b),
    decreases a.len(),
{
    if a.len() == 0 {
        assert(a + b =~= b);
        assert(cur + a =~= cur);
    } else {
        assert((a + b)[0] == a[0]);
        assert((a + b).drop_first() =~= a.drop_first() + b);
        assert(!is_white(a[0]));
        lemma_words_plain(cur.push(a[0]), a.drop_first(), b);
        assert(cur.push(a[0]) + a.drop_first() =~= cur + a);
    }
}

proof fn lemma_words_break(cur: Seq<char>, w: char, b: Seq<char>)
    requires
        is_white(w),
        cur.len() > 0,
    ensures
        words_from(cur, seq![w] + b) == seq![cur] + words_from(Seq::empty(), b),
{
    assert((seq![w] + b)[0] == w);
    assert((seq![w] + b).drop_first() =~= b);
}

/// A clone reads back, from a commit that `commit-tree` wrote, the tree it
/// was given, where that tree's id is a non-empty text without whitespace.
pub proof fn lemma_commit_tree_read_back(tree: Seq<char>, parent: Seq<char>, message: Seq<char>)
    requires
        tree.len() > 0,
        forall|i: int| 0 <= i < tree.len() ==> !is_white(#[trigger] tree[i]),
    ensures
        commit_tree(
            framed(
                commit_kind(),
                commit_content(encode_utf8(tree), encode_utf8(parent), encode_utf8(message)),
            ),
        ) == Some(Some(tree)),
{
    let l1 = "tree "@;
    let l2 = "\nparent "@;
    let l3 = "\nauthor John Doe <john@example.com> 1234567890 +0000\ncommitter John Doe <john@example.com> 1234567890 +0000\n\n"@;
    reveal_strlit("tree ");
    reveal_strlit("\nparent ");
    let nl = seq!['\n'];
    let rest = l2 + parent + l3 + message + nl;
    let text = l1 + tree + rest;
    // the bytes of the content are the encoding of one text
    assert(encode_utf8(nl) =~= seq![10u8]) by {
        assert(vstd::utf8::is_ascii_chars(nl));
        vstd::utf8::is_ascii_chars_encode_utf8(nl);
        assert(nl[0] as u8 == 10u8);
    }
    lemma_encode_utf8_concat(l1, tree);
    lemma_encode_utf8_concat(l1 + tree, l2);
    lemma_encode_utf8_concat(l1 + tree + l2, parent);
    lemma_encode_utf8_concat(l1 + tree + l2 + parent, l3);
    lemma_encode_utf8_concat(l1 + tree + l2 + parent + l3, message);
    lemma_encode_utf8_concat(l1 + tree + l2 + parent + l3 + message, nl);
    let content = commit_content(encode_utf8(tree), encode_utf8(parent), encode_utf8(message));
    assert(text =~= l1 + tree + l2 + parent + l3 + message + nl);
    assert(content == encode_utf8(text));
    encode_utf8_valid_utf8(text);
    encode_utf8_decode_utf8(text);
    assert(commit_kind() =~= seq![99u8, 111u8, 109u8, 109u8, 105u8, 116u8]);
    assert(!commit_kind().contains(0u8)) by {
        assert forall|i: int| 0 <= i < commit_kind().len() implies commit_kind()[i] != 0u8 by {}
    }
    lemma_framed_body(commit_kind(), content);
    // the words of the text: "tree", then the tree id
    let t4 = seq!['t', 'r', 'e', 'e'];
    assert(l1 =~= t4 + seq![' ']);
    assert(forall|i: int| 0 <= i < t4.len() ==> !is_white(#[trigger] t4[i]));
    assert(text =~= t4 + (seq![' '] + (tree + rest)));
    lemma_words_plain(Seq::empty(), t4, seq![' '] + (tree + rest));
    assert(Seq::<char>::empty() + t4 =~= t4);
    lemma_words_break(t4, ' ', tree + rest);
    lemma_words_plain(Seq::empty(), tree, rest);
    assert(Seq::<char>::empty() + tree =~= tree);
    assert(rest =~= seq!['\n'] + rest.drop_first());
    lemma_words_break(tree, '\n', rest.drop_first());
    let w = words(text);
    assert(w == seq![t4] + (seq![tree] + words_from(Seq::empty(), rest.drop_first())));
    assert(w[1] == tree);
}

} // verus!
