//! Hexadecimal encoding of byte sequences: the mathematical model
//! (`hex_of`, `hex_decode_spec`) and the trusted wrappers around the
//! outside encoders and decoder.

use vstd::prelude::*;

verus! {

/// A character that may stand as one hexadecimal digit:
/// `0`-`9`, `a`-`f` or `A`-`F`.
pub open spec fn is_hex_digit(c: char) -> bool {
    (48 <= c as int && c as int <= 57)  // '0' ..= '9'
    || (97 <= c as int && c as int <= 102)  // 'a' ..= 'f'
    || (65 <= c as int && c as int <= 70)  // 'A' ..= 'F'
}

/// Numeric value of one hexadecimal digit character.
pub open spec fn hex_val(c: char) -> u8
    recommends
        is_hex_digit(c),
{
    if 48 <= c as int && c as int <= 57 {
        (c as int - 48) as u8
    } else if 97 <= c as int && c as int <= 102 {
        (c as int - 87) as u8
    } else {
        (c as int - 55) as u8
    }
}

/// The lowercase digit character for a value below sixteen.
pub open spec fn hex_digit_char(d: u8) -> char
    recommends
        d < 16,
{
    if d < 10 {
        ((48 + d as int) as u8) as char
    } else {
        ((87 + d as int) as u8) as char
    }
}

/// The two lowercase digits of one byte, high nibble first.
pub open spec fn hex_of_byte(b: u8) -> Seq<char> {
    seq![hex_digit_char(b / 16), hex_digit_char(b % 16)]
}

/// Lowercase hexadecimal rendering of a byte sequence: two digits for
/// each byte, in byte order, with no separators.
pub open spec fn hex_of(bs: Seq<u8>) -> Seq<char>
    decreases bs.len(),
{
    if bs.len() == 0 {
        Seq::empty()
    } else {
        hex_of_byte(bs[0]) + hex_of(bs.subrange(1, bs.len() as int))
    }
}

/// Every character of the sequence is a hexadecimal digit.
pub open spec fn all_hex_digits(s: Seq<char>) -> bool {
    forall|i: int| 0 <= i < s.len() ==> is_hex_digit(#[trigger] s[i])
}

/// The bytes spelled by a sequence of hexadecimal digits, two digits to
/// a byte, high nibble first.
pub open spec fn hex_bytes(s: Seq<char>) -> Seq<u8>
    recommends
        s.len() % 2 == 0,
        all_hex_digits(s),
    decreases s.len(),
{
    if s.len() < 2 {
        Seq::empty()
    } else {
        seq![(hex_val(s[0]) as int * 16 + hex_val(s[1]) as int) as u8] + hex_bytes(
            s.subrange(2, s.len() as int),
        )
    }
}

/// What decoding a candidate hex string yields: the bytes when the
/// string is an even number of hexadecimal digits, nothing otherwise.
pub open spec fn hex_decode_spec(s: Seq<char>) -> Option<Seq<u8>> {
    if s.len() % 2 == 0 && all_hex_digits(s) {
        Some(hex_bytes(s))
    } else {
        None
    }
}

pub proof fn lemma_hex_of_len(bs: Seq<u8>)
    ensures
        hex_of(bs).len() == 2 * bs.len(),
    decreases bs.len(),
{
    if bs.len() > 0 {
        lemma_hex_of_len(bs.subrange(1, bs.len() as int));
    }
}

pub proof fn lemma_hex_of_digits(bs: Seq<u8>)
    ensures
        all_hex_digits(hex_of(bs)),
    decreases bs.len(),
{
    if bs.len() > 0 {
        lemma_hex_of_digits(bs.subrange(1, bs.len() as int));
        assert forall|i: int| 0 <= i < hex_of(bs).len() implies is_hex_digit(
            #[trigger] hex_of(bs)[i],
        ) by {
            if i >= 2 {
                assert(hex_of(bs)[i] == hex_of(bs.subrange(1, bs.len() as int))[i - 2]);
            }
        }
    }
}

/// Decoding inverts encoding: the digits of `hex_of(bs)` spell `bs` back.
pub proof fn lemma_hex_decode_of_hex_of(bs: Seq<u8>)
    ensures
        hex_decode_spec(hex_of(bs)) == Some(bs),
    decreases bs.len(),
{
    lemma_hex_of_digits(bs);
    lemma_hex_of_len(bs);
    if bs.len() == 0 {
        assert(hex_bytes(hex_of(bs)) =~= bs);
    } else {
        let tail = bs.subrange(1, bs.len() as int);
        lemma_hex_decode_of_hex_of(tail);
        lemma_hex_of_digits(tail);
        lemma_hex_of_len(tail);
        let s = hex_of(bs);
        assert(s.subrange(2, s.len() as int) =~= hex_of(tail));
        let b = bs[0];
        assert(b / 16 < 16 && b % 16 < 16);
        assert(hex_val(hex_digit_char(b / 16)) == b / 16);
        assert(hex_val(hex_digit_char(b % 16)) == b % 16);
        assert((b / 16) as int * 16 + (b % 16) as int == b as int);
        assert(hex_bytes(s) =~= bs);
    }
}

/// Relies on `hex::encode`, which renders a byte slice as lowercase
/// hexadecimal, two digits per byte, in byte order.
#[verifier::external_body]
pub(crate) fn hex_encode(bytes: &Vec<u8>) -> (r: String)
    ensures
        r@ == hex_of(bytes@),
{
    hex::encode(bytes)
}

/// Relies on `rustc_hex::ToHex::to_hex`, which renders a byte slice as
/// lowercase hexadecimal, two digits per byte, in byte order.
#[verifier::external_body]
pub(crate) fn bytes_to_hex(bytes: &Vec<u8>) -> (r: String)
    ensures
        r@ == hex_of(bytes@),
{
    rustc_hex::ToHex::to_hex(bytes.as_slice())
}

#[verifier::external_type_specification]
#[verifier::external_body]
pub struct ExFromHexError(hex::FromHexError);

/// Relies on `hex::decode`, which succeeds exactly on an even number of
/// hexadecimal digits (either case) and pairs the digits into bytes in
/// order; an odd length or any other character is an error.
#[verifier::external_body]
pub(crate) fn hex_decode(s: &str) -> (r: Result<Vec<u8>, hex::FromHexError>)
    ensures
        r is Ok <==> hex_decode_spec(s@) is Some,
        r matches Ok(v) ==> Some(v@) == hex_decode_spec(s@),
{
    hex::decode(s)
}

} // verus!
