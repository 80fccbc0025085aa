//! Bytes written as hexadecimal digits, and the digest of bytes.
use vstd::prelude::*;
use vstd::utf8::encode_utf8;

use crate::text;

verus! {

/// The digit of a number below sixteen, in small letters.
pub open spec fn hex_digit(n: int) -> char {
    if n < 10 {
        (n + 48) as char
    } else {
        (n + 87) as char
    }
}

/// Bytes as hexadecimal digits, two for each byte, the high half first.
pub open spec fn hex(bytes: Seq<u8>) -> Seq<char>
    decreases bytes.len(),
{
    if bytes.len() == 0 {
        Seq::empty()
    } else {
        hex(bytes.drop_last()).push(hex_digit(bytes.last() as int / 16)).push(
            hex_digit(bytes.last() as int % 16),
        )
    }
}

/// The digit of a number below sixteen.
pub fn digit_of(n: u8) -> (c: char)
    requires
        n < 16,
    ensures
        c == hex_digit(n as int),
{
    if n < 10 {
        (n + 48) as char
    } else {
        (n + 87) as char
    }
}

/// Bytes as hexadecimal digits, two for each byte, the high half first.
pub fn to_hex(bytes: &[u8]) -> (out: String)
    ensures
        out@ == hex(bytes@),
{
    let mut chars: Vec<char> = Vec::new();
    let mut i: usize = 0;
    while i < bytes.len()
        invariant
            i <= bytes.len(),
            chars@ == hex(bytes@.take(i as int)),
        decreases bytes.len() - i,
    {
        let b: u8 = bytes[i];
        chars.push(digit_of(b / 16));
        chars.push(digit_of(b % 16));
        proof {
            let next = bytes@.take(i + 1);
            assert(next.drop_last() =~= bytes@.take(i as int));
            assert(next.last() == b);
        }
        i += 1;
    }
    proof {
        assert(bytes@.take(i as int) =~= bytes@);
    }
    text::text_from(&chars)
}

/// The SHA-256 digest of bytes.
pub uninterp spec fn sha256(data: Seq<u8>) -> Seq<u8>;

/// The digest of bytes, from `sha2::Sha256::digest`: a function of the bytes
/// alone, and 32 bytes long.
#[verifier::external_body]
pub(crate) fn digest(data: &[u8]) -> (hash: Vec<u8>)
    ensures
        hash@ == sha256(data@),
        hash@.len() == 32,
{
    <sha2::Sha256 as sha2::Digest>::digest(data).to_vec()
}

/// What contents are known by.
pub open spec fn content_hash(content: Seq<u8>) -> Seq<char> {
    hex(sha256(content))
}

/// What contents are known by: their digest as hexadecimal digits.
pub fn hash_bytes(content: &[u8]) -> (hash: String)
    ensures
        hash@ == content_hash(content@),
{
    let digest = digest(content);
    to_hex(digest.as_slice())
}

/// A short name for a text: the first digits of its digest.
pub open spec fn short_name(s: Seq<char>) -> Seq<char> {
    hex(sha256(encode_utf8(s)).take(8))
}

/// A short name for a text: the first digits of its digest.
pub fn short_hash(s: &str) -> (name: String)
    ensures
        name@ == short_name(s@),
{
    let digest = digest(s.as_bytes());
    let mut start: Vec<u8> = Vec::new();
    let mut i: usize = 0;
    while i < 8
        invariant
            i <= 8,
            digest@.len() == 32,
            start@ == digest@.take(i as int),
        decreases 8 - i,
    {
        start.push(digest[i]);
        proof {
            assert(digest@.take(i + 1) =~= digest@.take(i as int).push(digest@[i as int]));
        }
        i += 1;
    }
    to_hex(start.as_slice())
}

/// A text is twice as long as the bytes that it writes.
pub proof fn lemma_hex_length(bytes: Seq<u8>)
    ensures
        hex(bytes).len() == 2 * bytes.len(),
    decreases bytes.len(),
{
    if bytes.len() > 0 {
        lemma_hex_length(bytes.drop_last());
    }
}

/// Different bytes are written differently.
pub proof fn lemma_hex_injective(a: Seq<u8>, b: Seq<u8>)
    requires
        hex(a) == hex(b),
    ensures
        a == b,
    decreases a.len(),
{
    lemma_hex_length(a);
    lemma_hex_length(b);
    if a.len() == 0 {
        assert(a =~= b);
    } else {
        let x = hex(a);
        let y = hex(b);
        let n = x.len() as int;
        assert(x[n - 1] == y[n - 1]);
        assert(x[n - 2] == y[n - 2]);
        assert(x.take(n - 2) =~= hex(a.drop_last()));
        assert(y.take(n - 2) =~= hex(b.drop_last()));
        lemma_hex_injective(a.drop_last(), b.drop_last());
        assert(a.last() as int / 16 == b.last() as int / 16);
        assert(a.last() as int % 16 == b.last() as int % 16);
        assert(a =~= a.drop_last().push(a.last()));
        assert(b =~= b.drop_last().push(b.last()));
    }
}

} // verus!
