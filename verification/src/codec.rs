//! Trusted wrappers for the two byte codecs the store uses: bincode (binary
//! encoding of a value before sealing) and base64 (framing of sealed bytes
//! in write-ahead-log lines).

use vstd::prelude::*;

use base64::Engine;

verus! {

/// The bincode encoding (standard configuration) of a byte vector.
pub uninterp spec fn bincode_of(v: Seq<u8>) -> Seq<u8>;

/// The outcome of bincode-decoding a byte vector from a buffer: the decoded
/// bytes, or `None` when the buffer does not start with a valid encoding.
pub uninterp spec fn bincode_decoded_of(bytes: Seq<u8>) -> Option<Seq<u8>>;

/// The base64 (standard alphabet, padded) encoding of a byte string.
pub uninterp spec fn b64_of(bytes: Seq<u8>) -> Seq<u8>;

/// The outcome of base64-decoding a byte string: the decoded bytes, or
/// `None` when the input is not a canonical padded encoding.
pub uninterp spec fn b64_decoded_of(text: Seq<u8>) -> Option<Seq<u8>>;

/// One byte of the standard base64 alphabet or its padding: `A`-`Z`,
/// `a`-`z`, `0`-`9`, `+`, `/`, `=`. In particular never whitespace.
pub open spec fn is_b64_byte(b: u8) -> bool {
    (65 <= b <= 90) || (97 <= b <= 122) || (48 <= b <= 57) || b == 43 || b == 47 || b == 61
}

/// Every byte of the string is in the base64 alphabet.
pub open spec fn all_b64_bytes(s: Seq<u8>) -> bool {
    forall|i: int| 0 <= i < s.len() ==> is_b64_byte(s[i])
}

/// Relies on bincode's `encode_to_vec` with the standard configuration on a
/// byte vector: it cannot fail, its output is a function of the bytes
/// alone — a variable-width length prefix (one byte for lengths up to 250,
/// at most nine bytes) followed by the bytes themselves — and
/// `decode_from_slice` inverts it.
#[verifier::external_body]
pub(crate) fn bincode_encode(v: &Vec<u8>) -> (r: Vec<u8>)
    requires
        v@.len() < 0x100000000,
    ensures
        r@ == bincode_of(v@),
        v@.len() <= 250 ==> r@.len() == v@.len() + 1,
        v@.len() + 1 <= r@.len() <= v@.len() + 9,
        bincode_decoded_of(r@) == Some(v@),
{
    bincode::encode_to_vec(v, bincode::config::standard()).expect(
        "encoding bytes into a vector cannot fail",
    )
}

/// Relies on bincode's `decode_from_slice` with the standard configuration,
/// decoding a byte vector: the outcome is a function of the input alone, and
/// decoding a buffer that is exactly an `encode_to_vec` output yields the
/// bytes that were encoded.
#[verifier::external_body]
pub(crate) fn bincode_decode(bytes: &Vec<u8>) -> (r: Option<Vec<u8>>)
    ensures
        match r {
            Some(v) => bincode_decoded_of(bytes@) == Some(v@),
            None => bincode_decoded_of(bytes@) is None,
        },
{
    match bincode::decode_from_slice::<Vec<u8>, _>(bytes.as_slice(), bincode::config::standard()) {
        Ok((v, _)) => Some(v),
        Err(_) => None,
    }
}

/// Relies on base64's `BASE64_STANDARD.encode`: standard alphabet with
/// padding, a function of the input bytes alone, four output bytes for every
/// three input bytes begun, all from the base64 alphabet; `decode` inverts
/// it.
#[verifier::external_body]
pub(crate) fn b64_encode(bytes: &Vec<u8>) -> (r: Vec<u8>)
    requires
        bytes@.len() < 0x100000000,
    ensures
        r@ == b64_of(bytes@),
        r@.len() == 4 * ((bytes@.len() + 2) / 3),
        all_b64_bytes(r@),
        b64_decoded_of(r@) == Some(bytes@),
{
    base64::prelude::BASE64_STANDARD.encode(bytes.as_slice()).into_bytes()
}

/// Relies on base64's `BASE64_STANDARD.decode`: the outcome is a function of
/// the input alone, and it accepts exactly the canonical padded encodings,
/// on which it inverts `encode`.
#[verifier::external_body]
pub(crate) fn b64_decode(text: &Vec<u8>) -> (r: Option<Vec<u8>>)
    ensures
        match r {
            Some(b) => b64_decoded_of(text@) == Some(b@),
            None => b64_decoded_of(text@) is None,
        },
{
    match base64::prelude::BASE64_STANDARD.decode(text.as_slice()) {
        Ok(b) => Some(b),
        Err(_) => None,
    }
}

} // verus!
