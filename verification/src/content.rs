//! The content of downloaded files.
use sha2::Digest;
use vstd::prelude::*;

use crate::text;

verus! {

/// The SHA-256 digest of a content.
pub uninterp spec fn sha256(content: Seq<u8>) -> Seq<u8>;

/// `sha2::Sha256::digest`: the SHA-256 digest of the content, which is 32 bytes
/// long.
#[verifier::external_body]
fn sha256_digest(content: &[u8]) -> (digest: Vec<u8>)
    ensures
        digest@ == sha256(content@),
        digest@.len() == 32,
{
    sha2::Sha256::digest(content).to_vec()
}

/// The lower-case hexadecimal digit of value `d`.
pub open spec fn lower_hex(d: u8) -> char {
    if d < 10 {
        (0x30 + d) as char
    } else {
        (0x61 + d - 10) as char
    }
}

/// Bytes in hexadecimal, two digits for each.
pub open spec fn hex_text(bytes: Seq<u8>) -> Seq<char>
    decreases bytes.len(),
{
    if bytes.len() == 0 {
        Seq::empty()
    } else {
        hex_text(bytes.drop_last()).push(lower_hex(bytes.last() / 16)).push(
            lower_hex(bytes.last() % 16),
        )
    }
}

fn hex_digit(d: u8) -> (c: char)
    requires
        d < 16,
    ensures
        c == lower_hex(d),
{
    if d < 10 {
        (0x30u8 + d) as char
    } else {
        (0x61u8 + (d - 10)) as char
    }
}

/// `bytes` in hexadecimal.
pub fn to_hex(bytes: &[u8]) -> (hex: String)
    ensures
        hex@ == hex_text(bytes@),
{
    let mut hex = String::new();
    for i in 0..bytes.len()
        invariant
            hex@ == hex_text(bytes@.take(i as int)),
    {
        assert(bytes@.take(i + 1).drop_last() == bytes@.take(i as int));
        hex.push(hex_digit(bytes[i] / 16));
        hex.push(hex_digit(bytes[i] % 16));
    }
    assert(bytes@.take(bytes@.len() as int) == bytes@);
    hex
}

/// The hash that a content is known by.
pub open spec fn hash_of(content: Seq<u8>) -> Seq<char> {
    hex_text(sha256(content))
}

/// The hash that `content` is known by: 64 hexadecimal digits.
pub fn content_hash(content: &[u8]) -> (hash: String)
    ensures
        hash@ == hash_of(content@),
        hash@.len() == 64,
{
    let digest = sha256_digest(content);
    proof {
        law_hex_length(digest@);
    }
    to_hex(digest.as_slice())
}

/// What stands where a download is to be kept.
pub enum Existing {
    /// There is no file.
    Missing,
    /// There is a file that cannot be read.
    Unreadable,
    /// There is a file with this content.
    Content(Vec<u8>),
}

/// Whether a download with the given hash has to be written, given the hash of
/// the file that stands there, if one can be read.
pub fn must_write(hash: &str, existing_hash: Option<&str>) -> (write: bool)
    ensures
        write == match existing_hash {
            Some(existing) => existing@ != hash@,
            None => true,
        },
{
    match existing_hash {
        Some(existing) => !text::same_text(existing, hash),
        None => true,
    }
}

/// What becomes of a download.
pub struct Settled {
    pub content_hash: String,
    /// Whether the content has to be written.
    pub write: bool,
}

/// Whether a content has to be written, given the one that stands there, if one can be
/// read.
pub open spec fn is_written(content: Seq<u8>, kept: Option<Seq<u8>>) -> bool {
    match kept {
        Some(kept) => hash_of(kept) != hash_of(content),
        None => true,
    }
}

/// The hash of a downloaded content, and whether it has to be written: it has to,
/// unless a file with an equal hash stands there.
pub fn settle(content: &[u8], existing: &Existing) -> (settled: Settled)
    ensures
        settled.content_hash@ == hash_of(content@),
        settled.write == match *existing {
            Existing::Content(kept) => hash_of(kept@) != hash_of(content@),
            _ => true,
        },
        settled.write == is_written(
            content@,
            match *existing {
                Existing::Content(kept) => Some(kept@),
                _ => None,
            },
        ),
{
    let hash = content_hash(content);
    let write = match existing {
        Existing::Content(kept) => {
            let kept_hash = content_hash(kept.as_slice());
            must_write(hash.as_str(), Some(kept_hash.as_str()))
        },
        Existing::Missing => must_write(hash.as_str(), None),
        Existing::Unreadable => must_write(hash.as_str(), None),
    };
    Settled { content_hash: hash, write }
}

/// There are two hexadecimal digits for each byte.
pub proof fn law_hex_length(bytes: Seq<u8>)
    ensures
        hex_text(bytes).len() == 2 * bytes.len(),
    decreases bytes.len(),
{
    if bytes.len() > 0 {
        law_hex_length(bytes.drop_last());
    }
}

/// Two hexadecimal digits stand for each byte, in the order of the bytes: the one for
/// its higher half first.
pub proof fn law_hex_digits(bytes: Seq<u8>, i: int)
    requires
        0 <= i < bytes.len(),
    ensures
        hex_text(bytes).len() == 2 * bytes.len(),
        hex_text(bytes)[2 * i] == "0123456789abcdef"@[bytes[i] as int / 16],
        hex_text(bytes)[2 * i + 1] == "0123456789abcdef"@[bytes[i] as int % 16],
    decreases bytes.len(),
{
    reveal_strlit("0123456789abcdef");
    let front = bytes.drop_last();
    law_hex_length(bytes);
    law_hex_length(front);
    if i < front.len() {
        law_hex_digits(front, i);
        assert(front[i] == bytes[i]);
    }
}

/// A content is known by the digits of the digest of all of it.
pub proof fn law_hash_is_of_the_digest(content: Seq<u8>, i: int)
    requires
        0 <= i < sha256(content).len(),
    ensures
        hash_of(content).len() == 2 * sha256(content).len(),
        hash_of(content)[2 * i] == "0123456789abcdef"@[sha256(content)[i] as int / 16],
        hash_of(content)[2 * i + 1] == "0123456789abcdef"@[sha256(content)[i] as int % 16],
{
    law_hex_digits(sha256(content), i);
}

/// Bytes that are equal in hexadecimal are equal: two hashes agree if and only if
/// the digests do.
pub proof fn law_hex_injective(a: Seq<u8>, b: Seq<u8>)
    requires
        hex_text(a) == hex_text(b),
    ensures
        a == b,
    decreases a.len(),
{
    law_hex_length(a);
    law_hex_length(b);
    if a.len() > 0 {
        let (x, y) = (a.last(), b.last());
        let (ha, hb) = (hex_text(a), hex_text(b));
        assert(ha[ha.len() - 1] == lower_hex(x % 16) && ha[ha.len() - 2] == lower_hex(x / 16));
        assert(hb[hb.len() - 1] == lower_hex(y % 16) && hb[hb.len() - 2] == lower_hex(y / 16));
        assert(x / 16 == y / 16 && x % 16 == y % 16);
        assert(x == y);
        assert(hex_text(a.drop_last()) == ha.take(ha.len() - 2));
        assert(hex_text(b.drop_last()) == hb.take(hb.len() - 2));
        law_hex_injective(a.drop_last(), b.drop_last());
        assert(a == a.drop_last().push(x));
        assert(b == b.drop_last().push(y));
    }
}

/// A content is written where none stands, it is not written over itself, and it is
/// written over another one unless their digests agree.
pub proof fn law_written(content: Seq<u8>, kept: Seq<u8>)
    ensures
        is_written(content, None),
        !is_written(content, Some(content)),
        is_written(content, Some(kept)) <==> sha256(content) != sha256(kept),
{
    law_unchanged_is_not_written(content, kept);
}

/// A content is never written over itself.
pub proof fn law_unchanged_is_not_written(content: Seq<u8>, kept: Seq<u8>)
    ensures
        content == kept ==> hash_of(content) == hash_of(kept),
        hash_of(content) == hash_of(kept) <==> sha256(content) == sha256(kept),
{
    if hash_of(content) == hash_of(kept) {
        law_hex_injective(sha256(content), sha256(kept));
    }
}

} // verus!
