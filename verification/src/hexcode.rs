//! Lowercase hexadecimal and decimal text codecs over byte strings.
//!
//! All text in this crate is carried as ASCII bytes, so both codecs
//! work on `Vec<u8>` / `Seq<u8>`.

use vstd::prelude::*;

verus! {

/// The lowercase hex digit for a value below 16.
pub open spec fn hex_digit(n: u8) -> u8
    recommends
        n < 16,
{
    if n < 10 {
        (0x30 + n) as u8
    } else {
        (0x61 + (n - 10)) as u8
    }
}

/// Lowercase hex text of a byte string: two digits per byte, in order.
pub open spec fn hex_of(b: Seq<u8>) -> Seq<u8>
    decreases b.len(),
{
    if b.len() == 0 {
        Seq::empty()
    } else {
        seq![hex_digit(b[0] / 16), hex_digit(b[0] % 16)] + hex_of(b.drop_first())
    }
}

/// Whether a byte is an ASCII hex digit (either case).
pub open spec fn is_hex_digit(c: u8) -> bool {
    (0x30 <= c && c <= 0x39) || (0x61 <= c && c <= 0x66) || (0x41 <= c && c <= 0x46)
}

/// The value of an ASCII hex digit.
pub open spec fn hex_val(c: u8) -> u8
    recommends
        is_hex_digit(c),
{
    if 0x30 <= c && c <= 0x39 {
        (c - 0x30) as u8
    } else if 0x61 <= c && c <= 0x66 {
        (c - 0x61 + 10) as u8
    } else {
        (c - 0x41 + 10) as u8
    }
}

/// Whether a byte string is decodable hex: even length, hex digits only.
pub open spec fn hex_decodable(s: Seq<u8>) -> bool {
    s.len() % 2 == 0 && forall|i: int| 0 <= i < s.len() ==> is_hex_digit(#[trigger] s[i])
}

/// The bytes a decodable hex string stands for.
pub open spec fn unhex(s: Seq<u8>) -> Seq<u8>
    recommends
        hex_decodable(s),
    decreases s.len(),
{
    if s.len() < 2 {
        Seq::empty()
    } else {
        seq![(hex_val(s[0]) * 16 + hex_val(s[1])) as u8] + unhex(s.skip(2))
    }
}

/// Hex text is decodable and twice as long as the bytes it encodes.
pub proof fn lemma_hex_of_wf(b: Seq<u8>)
    ensures
        hex_of(b).len() == 2 * b.len(),
        hex_decodable(hex_of(b)),
    decreases b.len(),
{
    if b.len() != 0 {
        lemma_hex_of_wf(b.drop_first());
    }
}

/// Hex text is ASCII: every byte of it is below 128.
pub proof fn lemma_hex_ascii(b: Seq<u8>)
    ensures
        forall|i: int| 0 <= i < hex_of(b).len() ==> #[trigger] hex_of(b)[i] < 128,
    decreases b.len(),
{
    if b.len() != 0 {
        lemma_hex_ascii(b.drop_first());
        assert forall|i: int| 0 <= i < hex_of(b).len() implies #[trigger] hex_of(b)[i] < 128 by {
            if i >= 2 {
                assert(hex_of(b)[i] == hex_of(b.drop_first())[i - 2]);
            }
        }
    }
}

/// Relies on hex::encode: lowercase hex text, two digits per byte,
/// in order.
#[verifier::external_body]
pub fn hex_encode(b: &[u8]) -> (r: Vec<u8>)
    ensures
        r@ == hex_of(b@),
{
    hex::encode(b).into_bytes()
}

/// Relies on hex::decode: succeeds exactly on even-length hex text
/// (either case) and returns the bytes it stands for.
#[verifier::external_body]
pub fn hex_decode(s: &[u8]) -> (r: Option<Vec<u8>>)
    ensures
        r is Some <==> hex_decodable(s@),
        r is Some ==> r.unwrap()@ == unhex(s@),
{
    match hex::decode(s) {
        Ok(v) => Some(v),
        Err(_) => None,
    }
}

/// Decoding inverts encoding: `unhex(hex_of(b)) == b`.
pub proof fn lemma_unhex_hex_of(b: Seq<u8>)
    ensures
        unhex(hex_of(b)) == b,
    decreases b.len(),
{
    if b.len() == 0 {
        assert(unhex(hex_of(b)) =~= b);
    } else {
        lemma_unhex_hex_of(b.drop_first());
        lemma_hex_of_wf(b.drop_first());
        assert(hex_of(b).skip(2) =~= hex_of(b.drop_first()));
        assert(hex_val(hex_digit(b[0] / 16)) == b[0] / 16);
        assert(hex_val(hex_digit(b[0] % 16)) == b[0] % 16);
        assert(unhex(hex_of(b)) =~= b);
    }
}

} // verus!
