//! Loose objects: the "<kind> <length>\0<content>" framing, blobs, commits,
//! object ids, the zlib storage form and the object paths.

use crate::encoding::{hex_lower, push_hex};
use crate::external::{
    lossy_chars, lossy_text, sha1, sha1_digest, string_from_chars, zlib_compress, zlib_decompress,
    zlib_deflated, zlib_inflated,
};
use vstd::prelude::*;
use vstd::utf8::encode_utf8;

verus! {

/// The decimal digits of `n`, as ASCII bytes, without leading zeros.
pub open spec fn decimal(n: nat) -> Seq<u8>
    decreases n,
{
    if n < 10 {
        seq![(n + 48) as u8]
    } else {
        decimal(n / 10) + seq![(n % 10 + 48) as u8]
    }
}

/// An object as git stores it: its kind, a space, the decimal length of the
/// content, a NUL byte, then the content.
pub open spec fn framed(kind: Seq<u8>, content: Seq<u8>) -> Seq<u8> {
    kind + seq![0x20u8] + decimal(content.len()) + seq![0u8] + content
}

/// The kind word of blob objects.
pub open spec fn blob_kind() -> Seq<u8> {
    seq![98u8, 108u8, 111u8, 98u8]
}

/// The kind word of tree objects.
pub open spec fn tree_kind() -> Seq<u8> {
    seq![116u8, 114u8, 101u8, 101u8]
}

/// The kind word of commit objects.
pub open spec fn commit_kind() -> Seq<u8> {
    seq![99u8, 111u8, 109u8, 109u8, 105u8, 116u8]
}

/// The kind words are the UTF-8 text of "blob", "tree" and "commit".
pub proof fn lemma_kind_texts()
    ensures
        blob_kind() == encode_utf8("blob"@),
        tree_kind() == encode_utf8("tree"@),
        commit_kind() == encode_utf8("commit"@),
{
    reveal_strlit("blob");
    reveal_strlit("tree");
    reveal_strlit("commit");
    vstd::utf8::is_ascii_chars_encode_utf8("blob"@);
    vstd::utf8::is_ascii_chars_encode_utf8("tree"@);
    vstd::utf8::is_ascii_chars_encode_utf8("commit"@);
    assert(blob_kind() =~= encode_utf8("blob"@));
    assert(tree_kind() =~= encode_utf8("tree"@));
    assert(commit_kind() =~= encode_utf8("commit"@));
}

/// What follows the first NUL byte of an object, or `None` where it has none.
pub open spec fn object_body(data: Seq<u8>) -> Option<Seq<u8>> {
    match data.index_of_first(0u8) {
        Some(i) => Some(data.skip(i + 1)),
        None => None,
    }
}

/// Every byte of the decimal text is an ASCII digit.
pub proof fn lemma_decimal_digits(n: nat)
    ensures
        decimal(n).len() >= 1,
        forall|i: int| 0 <= i < decimal(n).len() ==> 48 <= #[trigger] decimal(n)[i] <= 57,
    decreases n,
{
    if n >= 10 {
        lemma_decimal_digits(n / 10);
    }
}

/// The number that a text of ASCII digits stands for, read from the first
/// digit to the last.
pub open spec fn digits_value(s: Seq<u8>) -> int
    decreases s.len(),
{
    if s.len() == 0 {
        0
    } else {
        digits_value(s.drop_last()) * 10 + (s.last() - 48)
    }
}

/// The decimal text of `n` reads back as `n`, and has no leading zero: it
/// is the one decimal text of `n`.
pub proof fn lemma_decimal_value(n: nat)
    ensures
        digits_value(decimal(n)) == n,
        decimal(n)[0] == 48u8 ==> n == 0,
        n < 10 <==> decimal(n).len() == 1,
    decreases n,
{
    if n >= 10 {
        lemma_decimal_value(n / 10);
        let d = decimal(n);
        assert(d.drop_last() =~= decimal(n / 10));
        assert(d.last() == (n % 10 + 48) as u8);
        assert((n / 10) * 10 + n % 10 == n) by (nonlinear_arith);
        assert(d[0] == decimal(n / 10)[0]);
        assert(digits_value(d) == digits_value(decimal(n / 10)) * 10 + (n % 10));
    } else {
        assert(decimal(n).drop_last() =~= Seq::<u8>::empty());
        assert(digits_value(decimal(n).drop_last()) == 0);
    }
}

/// Appends the decimal text of `n` to `out`.
pub fn push_decimal(out: &mut Vec<u8>, n: usize)
    ensures
        final(out)@ == old(out)@ + decimal(n as nat),
    decreases n,
{
    if n >= 10 {
        push_decimal(out, n / 10);
    }
    out.push((n % 10) as u8 + 48);
}

/// Appends the bytes of `src` to `out`.
pub fn push_all(out: &mut Vec<u8>, src: &[u8])
    ensures
        final(out)@ == old(out)@ + src@,
{
    let ghost start = old(out)@;
    let mut i: usize = 0;
    while i < src.len()
        invariant
            i <= src.len(),
            out@ == start + src@.take(i as int),
        decreases src.len() - i,
    {
        out.push(src[i]);
        proof {
            assert(src@.take(i + 1) =~= src@.take(i as int).push(src@[i as int]));
        }
        i = i + 1;
    }
    proof {
        assert(src@.take(i as int) =~= src@);
    }
}

/// Frames `content` as an object of the given kind.
pub fn frame_object(kind: &[u8], content: &[u8]) -> (data: Vec<u8>)
    ensures
        data@ == framed(kind@, content@),
{
    let mut data: Vec<u8> = Vec::new();
    push_all(&mut data, kind);
    data.push(0x20u8);
    push_decimal(&mut data, content.len());
    data.push(0u8);
    push_all(&mut data, content);
    proof {
        assert(data@ =~= framed(kind@, content@));
    }
    data
}

/// The blob object for the contents of a file.
pub fn get_file_blob(contents: &[u8]) -> (data: Vec<u8>)
    ensures
        data@ == framed(blob_kind(), contents@),
{
    let kind: Vec<u8> = vec![98u8, 108u8, 111u8, 98u8];
    proof {
        assert(kind@ =~= blob_kind());
    }
    frame_object(kind.as_slice(), contents)
}

/// The bytes after the first NUL of an object, or `None` where it has none.
pub fn body_of(data: &[u8]) -> (body: Option<Vec<u8>>)
    ensures
        match body {
            Some(b) => object_body(data@) == Some(b@),
            None => object_body(data@) is None,
        },
{
    proof {
        data@.index_of_first_ensures(0u8);
    }
    let mut i: usize = 0;
    while i < data.len()
        invariant
            i <= data.len(),
            forall|j: int| 0 <= j < i ==> data@[j] != 0u8,
        decreases data.len() - i,
    {
        if data[i] == 0u8 {
            let mut body: Vec<u8> = Vec::new();
            let mut k: usize = i + 1;
            while k < data.len()
                invariant
                    i < k <= data.len(),
                    body@ == data@.subrange(i + 1, k as int),
                decreases data.len() - k,
            {
                body.push(data[k]);
                proof {
                    assert(data@.subrange(i + 1, k + 1) =~= data@.subrange(i + 1, k as int).push(
                        data@[k as int],
                    ));
                }
                k = k + 1;
            }
            proof {
                assert(data@[i as int] == 0u8);
                data@.index_of_first_ensures(0u8);
                let idx = data@.index_of_first(0u8).unwrap();
                if idx < i {
                    assert(data@[idx] != 0u8);
                } else if idx > i {
                    assert(data@[i as int] != 0u8);
                }
                assert(body@ =~= data@.skip(i + 1));
            }
            return Some(body);
        }
        i = i + 1;
    }
    None
}


/// What `cat-file` prints of an object: the text of what follows its first
/// NUL byte, invalid UTF-8 replaced.
pub open spec fn cat_file_text(data: Seq<u8>) -> Seq<char> {
    lossy_text(object_body(data).unwrap())
}

/// The content of an object as text: what follows its first NUL byte, with
/// invalid UTF-8 replaced by U+FFFD.
pub fn command_cat_file(object: &[u8]) -> (text: String)
    requires
        object@.contains(0u8),
    ensures
        text@ == cat_file_text(object@),
{
    proof {
        object@.index_of_first_ensures(0u8);
    }
    match body_of(object) {
        Some(body) => {
            let chars = lossy_chars(body.as_slice());
            string_from_chars(chars.as_slice())
        },
        None => {
            proof {
                assert(false);
            }
            String::new()
        },
    }
}

/// The id of an object: the SHA-1 of its bytes, in lowercase hex.
pub open spec fn object_id(data: Seq<u8>) -> Seq<char> {
    hex_lower(sha1_digest(data))
}

/// The id of an object: the SHA-1 of its bytes, in lowercase hex.
pub fn hash_object(data: &[u8]) -> (id: String)
    ensures
        id@ == object_id(data@),
        id@.len() == 40,
{
    let digest = sha1(data);
    let mut chars: Vec<char> = Vec::new();
    push_hex(&mut chars, digest.as_slice());
    proof {
        lemma_hex_len(digest@);
    }
    string_from_chars(chars.as_slice())
}

/// Hex text has two characters per byte.
pub proof fn lemma_hex_len(bytes: Seq<u8>)
    ensures
        hex_lower(bytes).len() == 2 * bytes.len(),
    decreases bytes.len(),
{
    if bytes.len() > 0 {
        lemma_hex_len(bytes.drop_last());
    }
}

/// An object ready to be stored: its id and its zlib-compressed bytes.
pub struct StoredObject {
    pub id: String,
    pub compressed: Vec<u8>,
}

/// The id and the stored (zlib-compressed) form of an object, or `None`
/// where the compressor reports an error. Decompressing the stored form
/// gives the object back.
pub fn store_object(data: &[u8]) -> (stored: Option<StoredObject>)
    ensures
        match stored {
            Some(s) => s.id@ == object_id(data@) && zlib_deflated(data@) == Some(s.compressed@)
                && (zlib_inflated(s.compressed@) matches Some((back, _)) && back == data@),
            None => zlib_deflated(data@) is None,
        },
{
    let id = hash_object(data);
    match zlib_compress(data) {
        Some(compressed) => Some(StoredObject { id, compressed }),
        None => None,
    }
}

/// An object read back from its stored form: the bytes of the zlib stream
/// at the front of `stored`, or `None` where it does not decompress.
pub fn read_object(stored: &[u8]) -> (data: Option<Vec<u8>>)
    ensures
        match data {
            Some(d) => zlib_inflated(stored@) matches Some((x, _)) && x == d@,
            None => zlib_inflated(stored@) is None,
        },
{
    match zlib_decompress(stored) {
        Some((d, _)) => Some(d),
        None => None,
    }
}

/// The bytes of "/.git/objects/".
pub open spec fn objects_dir() -> Seq<u8> {
    seq![47u8, 46u8, 103u8, 105u8, 116u8, 47u8, 111u8, 98u8, 106u8, 101u8, 99u8, 116u8, 115u8, 47u8]
}

/// Where an object lives under a working directory: the directory named by
/// the first two characters of its id, and the file named by the rest.
pub open spec fn object_dir(base: Seq<u8>, id: Seq<u8>) -> Seq<u8> {
    base + objects_dir() + id.take(2)
}

/// The file that holds an object under a working directory.
pub open spec fn object_file(base: Seq<u8>, id: Seq<u8>) -> Seq<u8> {
    object_dir(base, id) + seq![47u8] + id.skip(2)
}

/// The directory and the file (as UTF-8 bytes) where the object with the
/// given id is stored under `base_dir`: "<base>/.git/objects/<2>/<38>".
pub fn object_paths(base_dir: &str, id: &str) -> (paths: (Vec<u8>, Vec<u8>))
    requires
        encode_utf8(id@).len() >= 2,
    ensures
        paths.0@ == object_dir(encode_utf8(base_dir@), encode_utf8(id@)),
        paths.1@ == object_file(encode_utf8(base_dir@), encode_utf8(id@)),
{
    let base = base_dir.as_bytes();
    let idb = id.as_bytes();
    let sep: Vec<u8> = vec![47u8, 46u8, 103u8, 105u8, 116u8, 47u8, 111u8, 98u8, 106u8, 101u8, 99u8, 116u8, 115u8, 47u8];
    let mut dir: Vec<u8> = Vec::new();
    push_all(&mut dir, base);
    push_all(&mut dir, sep.as_slice());
    push_all(&mut dir, &idb[0..2]);
    let mut file: Vec<u8> = Vec::new();
    push_all(&mut file, dir.as_slice());
    file.push(47u8);
    push_all(&mut file, &idb[2..idb.len()]);
    proof {
        assert(sep@ =~= objects_dir());
        assert(idb@.subrange(0, 2) =~= idb@.take(2));
        assert(idb@.subrange(2, idb@.len() as int) =~= idb@.skip(2));
        assert(dir@ =~= object_dir(encode_utf8(base_dir@), encode_utf8(id@)));
        assert(file@ =~= object_file(encode_utf8(base_dir@), encode_utf8(id@)));
    }
    (dir, file)
}

/// The framing keeps a content whose kind holds no NUL byte: what follows
/// the first NUL of the framed object is the content.
pub proof fn lemma_framed_body(kind: Seq<u8>, content: Seq<u8>)
    requires
        !kind.contains(0u8),
    ensures
        object_body(framed(kind, content)) == Some(content),
{
    let data = framed(kind, content);
    let d = decimal(content.len());
    lemma_decimal_digits(content.len());
    let at: int = (kind.len() + 1 + d.len()) as int;
    assert(data[at] == 0u8);
    data.index_of_first_ensures(0u8);
    let i = data.index_of_first(0u8).unwrap();
    if i < at {
        if i < kind.len() {
            assert(data[i] == kind[i]);
        } else if i == kind.len() {
        } else {
            assert(data[i] == d[i - kind.len() - 1]);
        }
    } else if i > at {
        assert(data[at] != 0u8);
    }
    assert(data.skip(at + 1) =~= content);
}

/// What `cat-file` prints of a blob is the text of the file's contents: the
/// blob's header never hides any of them.
pub proof fn lemma_cat_file_of_blob(contents: Seq<u8>)
    ensures
        framed(blob_kind(), contents).contains(0u8),
        cat_file_text(framed(blob_kind(), contents)) == lossy_text(contents),
{
    lemma_framed_body(blob_kind(), contents);
    framed(blob_kind(), contents).index_of_first_ensures(0u8);
}


/// The text of a commit that `commit-tree` writes: its tree, its parent, a
/// fixed author and committer, a blank line, the message and a newline.
pub open spec fn commit_content(tree: Seq<u8>, parent: Seq<u8>, message: Seq<u8>) -> Seq<u8> {
    encode_utf8("tree "@) + tree + encode_utf8("\nparent "@) + parent + encode_utf8(
        "\nauthor John Doe <john@example.com> 1234567890 +0000\ncommitter John Doe <john@example.com> 1234567890 +0000\n\n"@,
    ) + message + seq![10u8]
}

/// The commit object that `commit-tree` writes for a tree, a parent and a
/// message.
pub fn commit_object(tree_sha: &str, parent_sha: &str, message: &str) -> (data: Vec<u8>)
    ensures
        data@ == framed(
            commit_kind(),
            commit_content(encode_utf8(tree_sha@), encode_utf8(parent_sha@), encode_utf8(message@)),
        ),
{
    let mut content: Vec<u8> = Vec::new();
    push_all(&mut content, "tree ".as_bytes());
    push_all(&mut content, tree_sha.as_bytes());
    push_all(&mut content, "\nparent ".as_bytes());
    push_all(&mut content, parent_sha.as_bytes());
    push_all(
        &mut content,
        "\nauthor John Doe <john@example.com> 1234567890 +0000\ncommitter John Doe <john@example.com> 1234567890 +0000\n\n".as_bytes(),
    );
    push_all(&mut content, message.as_bytes());
    content.push(10u8);
    let kind: Vec<u8> = vec![99u8, 111u8, 109u8, 109u8, 105u8, 116u8];
    proof {
        assert(kind@ =~= commit_kind());
        assert(content@ =~= commit_content(
            encode_utf8(tree_sha@),
            encode_utf8(parent_sha@),
            encode_utf8(message@),
        ));
    }
    frame_object(kind.as_slice(), content.as_slice())
}

} // verus!
