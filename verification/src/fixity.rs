//! Checksums of content.

use crate::files::FileData;
use vstd::prelude::*;

verus! {

/// The SHA-256 digest of bytes.
pub uninterp spec fn sha256(bytes: Seq<u8>) -> Seq<u8>;

/// `sha2::Sha256::digest`: the digest is a function of the bytes.
#[verifier::external_body]
fn hash(bytes: &[u8]) -> (r: Vec<u8>)
    ensures
        r@ == sha256(bytes@),
{
    <sha2::Sha256 as sha2::Digest>::digest(bytes).to_vec()
}

/// A hexadecimal digit.
pub open spec fn hex_digit(n: int) -> char {
    if n < 10 {
        (48 + n) as char
    } else {
        (97 + n - 10) as char
    }
}

/// Bytes in hexadecimal.
pub open spec fn hex(bytes: Seq<u8>) -> Seq<char>
    decreases bytes.len(),
{
    if bytes.len() == 0 {
        Seq::empty()
    } else {
        hex(bytes.drop_last()).push(hex_digit(bytes.last() as int / 16)).push(
            hex_digit(bytes.last() as int % 16),
        )
    }
}

/// The checksum of bytes: the algorithm and the digest.
pub open spec fn checksum(bytes: Seq<u8>) -> Seq<char> {
    "sha256:"@ + hex(sha256(bytes))
}

fn digit_of(n: u8) -> (r: char)
    requires
        n < 16,
    ensures
        r == hex_digit(n as int),
{
    if n < 10 {
        (48u8 + n) as char
    } else {
        (97u8 + (n - 10)) as char
    }
}

/// The checksum of bytes.
pub fn digest(bytes: &[u8]) -> (r: String)
    ensures
        r@ == checksum(bytes@),
{
    let sum = hash(bytes);
    let mut out = "sha256:".to_owned();
    let mut i: usize = 0;
    proof {
        assert(sum@.take(0) =~= Seq::empty());
        assert(out@ =~= "sha256:"@ + hex(sum@.take(0)));
    }
    while i < sum.len()
        invariant
            i <= sum@.len(),
            out@ == "sha256:"@ + hex(sum@.take(i as int)),
        decreases sum@.len() - i,
    {
        let b: u8 = sum[i];
        let ghost done = out@;
        out.push(digit_of(b / 16));
        out.push(digit_of(b % 16));
        proof {
            assert(sum@.take(i + 1).drop_last() =~= sum@.take(i as int));
            assert(sum@.take(i + 1).last() == b);
            assert(out@ =~= "sha256:"@ + hex(sum@.take(i + 1)));
        }
        i = i + 1;
    }
    proof {
        assert(sum@.take(i as int) =~= sum@);
    }
    out
}

/// The bytes of a file.
pub open spec fn bytes_of(data: crate::files::FileView) -> Seq<u8> {
    match data {
        crate::files::FileView::Text(s) => vstd::utf8::encode_utf8(s),
        crate::files::FileView::Bytes(b) => b,
    }
}

/// The checksum of a file.
pub fn file_digest(data: &FileData) -> (r: String)
    ensures
        r@ == checksum(bytes_of(data@)),
{
    match data {
        FileData::Text(s) => digest(s.as_str().as_bytes()),
        FileData::Bytes(b) => digest(b.as_slice()),
    }
}

/// Whether a checksum names an algorithm that this library computes.
pub open spec fn is_recognized(recorded: Seq<char>) -> bool {
    crate::text::begins(recorded, "sha256:"@)
}

/// Whether a checksum names an algorithm that this library computes.
pub fn recognized(recorded: &str) -> (r: bool)
    ensures
        r == is_recognized(recorded@),
{
    crate::link::starts_with(recorded, "sha256:")
}

} // verus!
