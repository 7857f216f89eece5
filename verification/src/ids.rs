//! Message and fragment identifiers: 16-byte UUIDs, their text form and the
//! calls into the `uuid` crate that make, print and read them.

use vstd::prelude::*;
use vstd::utf8::*;

verus! {

/// The lowercase hexadecimal digit for `n` (0..=15).
pub open spec fn hex_digit(n: int) -> char {
    if n < 10 {
        (48 + n) as char
    } else {
        (87 + n) as char
    }
}

/// Two lowercase hexadecimal digits per byte.
pub open spec fn hex_run(b: Seq<u8>) -> Seq<char>
    decreases b.len(),
{
    if b.len() == 0 {
        seq![]
    } else {
        seq![hex_digit((b[0] / 16) as int), hex_digit((b[0] % 16) as int)] + hex_run(b.drop_first())
    }
}

/// The hyphenated lowercase text of a UUID, as in
/// `936da01f-9abd-4d9d-80c7-02af85c822a8`.
pub open spec fn hyphenated(b: Seq<u8>) -> Seq<char> {
    hex_run(b.subrange(0, 4)) + seq!['-'] + hex_run(b.subrange(4, 6)) + seq!['-'] + hex_run(
        b.subrange(6, 8),
    ) + seq!['-'] + hex_run(b.subrange(8, 10)) + seq!['-'] + hex_run(b.subrange(10, 16))
}

/// Hexadecimal text has two ASCII digits per byte.
pub proof fn lemma_hex_run(b: Seq<u8>)
    ensures
        hex_run(b).len() == 2 * b.len(),
        is_ascii_chars(hex_run(b)),
    decreases b.len(),
{
    if b.len() > 0 {
        lemma_hex_run(b.drop_first());
        let h = seq![hex_digit((b[0] / 16) as int), hex_digit((b[0] % 16) as int)];
        assert(is_ascii_chars(h));
        vstd::utf8::is_ascii_chars_concat(hex_run(b), h, hex_run(b.drop_first()));
    }
}

/// The text form of a UUID is 36 ASCII characters, so its UTF-8 encoding is 36
/// bytes that decode back to it.
pub proof fn lemma_hyphenated(b: Seq<u8>)
    requires
        b.len() == 16,
    ensures
        hyphenated(b).len() == 36,
        is_ascii_chars(hyphenated(b)),
        encode_utf8(hyphenated(b)).len() == 36,
        valid_utf8(encode_utf8(hyphenated(b))),
        decode_utf8(encode_utf8(hyphenated(b))) == hyphenated(b),
{
    let h = seq!['-'];
    assert(is_ascii_chars(h));
    let r0 = hex_run(b.subrange(0, 4));
    let r1 = hex_run(b.subrange(4, 6));
    let r2 = hex_run(b.subrange(6, 8));
    let r3 = hex_run(b.subrange(8, 10));
    let r4 = hex_run(b.subrange(10, 16));
    lemma_hex_run(b.subrange(0, 4));
    lemma_hex_run(b.subrange(4, 6));
    lemma_hex_run(b.subrange(6, 8));
    lemma_hex_run(b.subrange(8, 10));
    lemma_hex_run(b.subrange(10, 16));
    let s1 = r0 + h;
    vstd::utf8::is_ascii_chars_concat(s1, r0, h);
    let s2 = s1 + r1;
    vstd::utf8::is_ascii_chars_concat(s2, s1, r1);
    let s3 = s2 + h;
    vstd::utf8::is_ascii_chars_concat(s3, s2, h);
    let s4 = s3 + r2;
    vstd::utf8::is_ascii_chars_concat(s4, s3, r2);
    let s5 = s4 + h;
    vstd::utf8::is_ascii_chars_concat(s5, s4, h);
    let s6 = s5 + r3;
    vstd::utf8::is_ascii_chars_concat(s6, s5, r3);
    let s7 = s6 + h;
    vstd::utf8::is_ascii_chars_concat(s7, s6, h);
    let s8 = s7 + r4;
    vstd::utf8::is_ascii_chars_concat(s8, s7, r4);
    assert(s8 == hyphenated(b));
    vstd::utf8::is_ascii_chars_encode_utf8(hyphenated(b));
    vstd::utf8::encode_utf8_valid_utf8(hyphenated(b));
    vstd::utf8::encode_utf8_decode_utf8(hyphenated(b));
}

/// What `Uuid::parse_str` makes of a text: the 16 bytes, or the text of the
/// error it reports.
pub uninterp spec fn spec_uuid_parse(s: Seq<char>) -> Result<Seq<u8>, Seq<char>>;

/// A parse result as plain values.
pub open spec fn parse_result_view(r: Result<[u8; 16], String>) -> Result<Seq<u8>, Seq<char>> {
    match r {
        Ok(b) => Ok(b@),
        Err(e) => Err(e@),
    }
}

/// A successful parse of the given bytes.
pub open spec fn parsed_bytes(b: Seq<u8>) -> Result<Seq<u8>, Seq<char>> {
    Ok(b)
}

/// Trusted: `uuid::Uuid::to_string` on the UUID with bytes `id`. The `uuid`
/// crate prints a UUID in hyphenated lowercase hexadecimal, which is what the
/// contract states in full.
#[verifier::external_body]
pub(crate) fn uuid_to_string(id: &[u8; 16]) -> (s: String)
    ensures
        s@ == hyphenated(id@),
{
    uuid::Uuid::from_bytes(*id).to_string()
}

/// Trusted: `uuid::Uuid::parse_str`, with the error turned into its text. The
/// result is named by `spec_uuid_parse`; the second clause states the one fact
/// the crate's parser shows that callers need: the hyphenated lowercase text of
/// 16 bytes parses back to those bytes. The other accepted forms (simple,
/// braced, URN, upper case) and the error texts are left to the name.
#[verifier::external_body]
pub(crate) fn uuid_parse_str(s: &str) -> (r: Result<[u8; 16], String>)
    ensures
        parse_result_view(r) == spec_uuid_parse(s@),
        forall|b: Seq<u8>|
            #![trigger hyphenated(b)]
            b.len() == 16 && s@ == hyphenated(b) ==> parse_result_view(r) == parsed_bytes(b),
{
    match uuid::Uuid::parse_str(s) {
        Ok(u) => Ok(*u.as_bytes()),
        Err(e) => Err(e.to_string()),
    }
}

/// Trusted: `uuid::Uuid::from_slice`, with the error turned into its text. The
/// crate accepts exactly the 16-byte slices and keeps their bytes; the text of
/// the length error is not stated.
#[verifier::external_body]
pub(crate) fn uuid_from_slice(b: &[u8]) -> (r: Result<[u8; 16], String>)
    ensures
        b@.len() == 16 ==> parse_result_view(r) == parsed_bytes(b@),
        b@.len() != 16 ==> parse_result_view(r) is Err,
{
    match uuid::Uuid::from_slice(b) {
        Ok(u) => Ok(*u.as_bytes()),
        Err(e) => Err(e.to_string()),
    }
}

/// A version-4 UUID as `uuid::Uuid::new_v4` makes one: 16 bytes with the
/// version nibble 4 in byte 6 and the RFC 4122 variant bits in byte 8.
pub open spec fn is_v4_uuid(id: Seq<u8>) -> bool {
    &&& id.len() == 16
    &&& id[6] & 0xf0 == 0x40
    &&& id[8] & 0xc0 == 0x80
}

/// Trusted: `uuid::Uuid::new_v4`. The bytes are random; every outcome carries
/// the version-4 nibble in byte 6 and the RFC 4122 variant bits in byte 8.
#[verifier::external_body]
pub(crate) fn new_uuid_v4() -> (id: [u8; 16])
    ensures
        id@[6] & 0xf0 == 0x40,
        id@[8] & 0xc0 == 0x80,
{
    *uuid::Uuid::new_v4().as_bytes()
}

} // verus!
