//! SHA-256 content hashes in lower-case hex, as the demo identity uses them.
use crate::text::push_char;
use sha2::{Digest, Sha256};
use vstd::prelude::*;

verus! {

/// The SHA-256 digest of a byte sequence (FIPS 180-4), as `sha2` computes it.
pub uninterp spec fn sha256(data: Seq<u8>) -> Seq<u8>;

/// Calls `sha2::Sha256::digest` on `data`. Trusted: the result is the SHA-256
/// digest of exactly these bytes, and it is 32 bytes long (the digest type's
/// output size is `U32`).
#[verifier::external_body]
pub(crate) fn sha256_digest(data: &[u8]) -> (r: Vec<u8>)
    ensures
        r@ == sha256(data@),
        r@.len() == 32,
{
    Sha256::digest(data).to_vec()
}

/// Lower-case hex digit of a nibble.
pub open spec fn lower_hex_digit(n: int) -> char {
    if n < 10 {
        (48 + n) as char
    } else {
        (87 + n) as char
    }
}

/// Lower-case hex of a byte sequence, two digits per byte (`{:x}` of a digest).
pub open spec fn hex_lower(s: Seq<u8>) -> Seq<char>
    decreases s.len(),
{
    if s.len() == 0 {
        seq![]
    } else {
        hex_lower(s.drop_last()) + seq![
            lower_hex_digit((s.last() / 16) as int),
            lower_hex_digit((s.last() % 16) as int),
        ]
    }
}

pub proof fn lemma_hex_lower_len(s: Seq<u8>)
    ensures
        hex_lower(s).len() == 2 * s.len(),
    decreases s.len(),
{
    if s.len() > 0 {
        lemma_hex_lower_len(s.drop_last());
    }
}

fn lower_hex_char(n: u8) -> (c: char)
    requires
        n < 16,
    ensures
        c == lower_hex_digit(n as int),
{
    if n < 10 {
        (48u8 + n) as char
    } else {
        (87u8 + n) as char
    }
}

/// Lower-case hex text of bytes.
pub fn lowercase_hex(bytes: &[u8]) -> (r: String)
    ensures
        r@ == hex_lower(bytes@),
{
    let mut output = String::new();
    let mut i: usize = 0;
    while i < bytes.len()
        invariant
            i <= bytes@.len(),
            output@ == hex_lower(bytes@.subrange(0, i as int)),
        decreases bytes@.len() - i,
    {
        let byte = bytes[i];
        let hi = byte >> 4;
        let lo = byte & 0x0f;
        assert(hi == byte / 16 && lo == byte % 16 && hi < 16 && lo < 16) by (bit_vector)
            requires
                hi == byte >> 4u8,
                lo == byte & 0x0fu8,
        ;
        push_char(&mut output, lower_hex_char(hi));
        push_char(&mut output, lower_hex_char(lo));
        assert(bytes@.subrange(0, i + 1).drop_last() =~= bytes@.subrange(0, i as int));
        i = i + 1;
        assert(output@ =~= hex_lower(bytes@.subrange(0, i as int)));
    }
    assert(bytes@.subrange(0, bytes@.len() as int) =~= bytes@);
    output
}

/// Lower-case hex SHA-256 of bytes: 64 hex digits.
pub fn sha256_hex(data: &[u8]) -> (r: String)
    ensures
        r@ == hex_lower(sha256(data@)),
        r@.len() == 64,
{
    let digest = sha256_digest(data);
    let r = lowercase_hex(digest.as_slice());
    proof {
        lemma_hex_lower_len(digest@);
    }
    r
}

} // verus!
