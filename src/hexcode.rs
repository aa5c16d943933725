use vstd::prelude::*;

verus! {

/// The lowercase hexadecimal digit (an ASCII byte) for a value below 16.
pub open spec fn hex_digit(n: int) -> u8 {
    if n < 10 {
        (n + 48) as u8
    } else {
        (n - 10 + 97) as u8
    }
}

/// Two lowercase digits per byte, high half first.
pub open spec fn hex_encode(b: Seq<u8>) -> Seq<u8> {
    Seq::new(
        2 * b.len(),
        |i: int|
            if i % 2 == 0 {
                hex_digit(b[i / 2] as int / 16)
            } else {
                hex_digit(b[i / 2] as int % 16)
            },
    )
}

pub open spec fn is_hex_char(c: u8) -> bool {
    (48 <= c <= 57) || (65 <= c <= 70) || (97 <= c <= 102)
}

/// The value of a hexadecimal digit of either case.
pub open spec fn hex_value(c: u8) -> int {
    if 48 <= c <= 57 {
        c - 48
    } else if 65 <= c <= 70 {
        c - 65 + 10
    } else {
        c - 97 + 10
    }
}

/// Text that decodes: an even number of hexadecimal digits.
pub open spec fn hex_valid(s: Seq<u8>) -> bool {
    s.len() % 2 == 0 && forall|i: int| 0 <= i < s.len() ==> is_hex_char(#[trigger] s[i])
}

pub open spec fn hex_decode(s: Seq<u8>) -> Seq<u8> {
    Seq::new(s.len() / 2, |i: int| (hex_value(s[2 * i]) * 16 + hex_value(s[2 * i + 1])) as u8)
}

/// Relies on hex::encode: two lowercase digits for each byte, in order.
#[verifier::external_body]
pub(crate) fn encode_hex(b: &[u8]) -> (r: Vec<u8>)
    ensures
        r@ == hex_encode(b@),
{
    hex::encode(b).into_bytes()
}

/// Relies on hex::decode: it fails on an odd length or a byte that is no
/// hexadecimal digit, and otherwise reads each pair of digits as one byte.
#[verifier::external_body]
pub(crate) fn decode_hex(s: &[u8]) -> (r: Option<Vec<u8>>)
    ensures
        r is Some <==> hex_valid(s@),
        r is Some ==> r->0@ == hex_decode(s@),
{
    hex::decode(s).ok()
}

proof fn lemma_digit_round_trip(n: int)
    requires
        0 <= n < 16,
    ensures
        is_hex_char(hex_digit(n)),
        hex_value(hex_digit(n)) == n,
        hex_digit(n) != 32u8,
        hex_digit(n) != 10u8,
{
}

/// Encoding never yields a space or a newline, and decoding undoes it.
pub proof fn lemma_hex_round_trip(b: Seq<u8>)
    ensures
        hex_valid(hex_encode(b)),
        hex_decode(hex_encode(b)) == b,
        forall|i: int|
            0 <= i < hex_encode(b).len() ==> #[trigger] hex_encode(b)[i] != 32u8
                && hex_encode(b)[i] != 10u8,
{
    let e = hex_encode(b);
    assert forall|i: int| 0 <= i < e.len() implies is_hex_char(#[trigger] e[i]) && e[i] != 32u8
        && e[i] != 10u8 by {
        let v = b[i / 2] as int;
        lemma_digit_round_trip(v / 16);
        lemma_digit_round_trip(v % 16);
    }
    assert(e.len() % 2 == 0);
    assert forall|i: int| 0 <= i < b.len() implies #[trigger] hex_decode(e)[i] == b[i] by {
        let v = b[i] as int;
        assert((2 * i) / 2 == i);
        assert((2 * i + 1) / 2 == i);
        assert((2 * i) % 2 == 0);
        assert((2 * i + 1) % 2 == 1);
        lemma_digit_round_trip(v / 16);
        lemma_digit_round_trip(v % 16);
        assert(v / 16 * 16 + v % 16 == v);
    }
    assert(hex_decode(e) =~= b);
}

} // verus!
