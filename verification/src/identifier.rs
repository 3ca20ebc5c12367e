use crate::base64url::{base64url_bytes, base64url_text, decode_base64url, encode_base64url};
use crate::constants::IDENTIFIER_VERSION;
use crate::error::N3gbError;
use vstd::prelude::*;

verus! {

/// Length of the binary record behind an identifier.
pub const RECORD_LEN: usize = 19;

/// The eight bytes of `v`, most significant first.
pub open spec fn be_bytes(v: u64) -> Seq<u8> {
    seq![
        (v / 0x100_0000_0000_0000) as u8,
        (v / 0x1_0000_0000_0000 % 256) as u8,
        (v / 0x100_0000_0000 % 256) as u8,
        (v / 0x1_0000_0000 % 256) as u8,
        (v / 0x100_0000 % 256) as u8,
        (v / 0x1_0000 % 256) as u8,
        (v / 0x100 % 256) as u8,
        (v % 256) as u8,
    ]
}

/// The number that eight bytes spell, most significant first.
pub open spec fn be_value(s: Seq<u8>) -> u64
    recommends
        s.len() == 8,
{
    (s[0] * 0x100_0000_0000_0000 + s[1] * 0x1_0000_0000_0000 + s[2] * 0x100_0000_0000 + s[3]
        * 0x1_0000_0000 + s[4] * 0x100_0000 + s[5] * 0x1_0000 + s[6] * 0x100 + s[7]) as u64
}

/// Sum of all bytes of `s`, not yet reduced.
pub open spec fn byte_sum(s: Seq<u8>) -> int
    decreases s.len(),
{
    if s.len() == 0 {
        0
    } else {
        byte_sum(s.drop_last()) + s.last()
    }
}

/// The checksum of `s`: the sum of its bytes modulo 256.
pub open spec fn checksum(s: Seq<u8>) -> u8 {
    (byte_sum(s) % 256) as u8
}

/// A millimetre count as it is stored in a record: clamped into the
/// unsigned 64-bit range.
pub open spec fn scaled(v: int) -> u64 {
    if v < 0 {
        0
    } else if v > u64::MAX {
        u64::MAX
    } else {
        v as u64
    }
}

/// The first eighteen bytes of a record: version, easting, northing, zoom.
pub open spec fn record_payload(easting: u64, northing: u64, zoom: u8) -> Seq<u8> {
    seq![IDENTIFIER_VERSION] + be_bytes(easting) + be_bytes(northing) + seq![zoom]
}

/// The nineteen-byte record of a cell centre at a zoom level: the payload
/// followed by its checksum.
pub open spec fn record_bytes(easting: u64, northing: u64, zoom: u8) -> Seq<u8> {
    record_payload(easting, northing, zoom).push(checksum(record_payload(easting, northing, zoom)))
}

/// What a byte string means as a record: version, easting, northing and
/// zoom, or the reason it is not one. Length is checked first, then the
/// checksum, then the version.
pub open spec fn parse_record(bytes: Seq<u8>) -> Result<(u8, u64, u64, u8), N3gbError> {
    if bytes.len() != 19 {
        Err(N3gbError::InvalidIdentifierLength)
    } else if checksum(bytes.take(18)) != bytes[18] {
        Err(N3gbError::InvalidChecksum)
    } else if bytes[0] != IDENTIFIER_VERSION {
        Err(N3gbError::UnsupportedVersion(bytes[0]))
    } else {
        Ok((bytes[0], be_value(bytes.subrange(1, 9)), be_value(bytes.subrange(9, 17)), bytes[17]))
    }
}

/// The identifier of a cell centre given in millimetres.
pub open spec fn identifier_text(easting: int, northing: int, zoom: u8) -> Seq<char> {
    base64url_text(record_bytes(scaled(easting), scaled(northing), zoom))
}

/// What an identifier decodes to: version, easting and northing in
/// millimetres, and zoom, or the reason it is rejected.
pub open spec fn identifier_fields(id: Seq<char>) -> Result<(u8, u64, u64, u8), N3gbError> {
    match base64url_bytes(id) {
        None => Err(N3gbError::Base64DecodeError),
        Some(bytes) => parse_record(bytes),
    }
}

/// Spelling a number in bytes and reading it back changes nothing.
pub proof fn lemma_be_round_trip(v: u64)
    ensures
        be_bytes(v).len() == 8,
        be_value(be_bytes(v)) == v,
{
    assert((v / 0x100_0000_0000_0000) * 0x100_0000_0000_0000 + (v / 0x1_0000_0000_0000 % 256)
        * 0x1_0000_0000_0000 + (v / 0x100_0000_0000 % 256) * 0x100_0000_0000 + (v / 0x1_0000_0000
        % 256) * 0x1_0000_0000 + (v / 0x100_0000 % 256) * 0x100_0000 + (v / 0x1_0000 % 256)
        * 0x1_0000 + (v / 0x100 % 256) * 0x100 + v % 256 == v) by (bit_vector);
}

/// Eight bytes are the spelling of the number they spell.
pub proof fn lemma_be_bytes_of_value(s: Seq<u8>)
    requires
        s.len() == 8,
    ensures
        be_bytes(be_value(s)) == s,
{
    let (s0, s1, s2, s3) = (s[0], s[1], s[2], s[3]);
    let (s4, s5, s6, s7) = (s[4], s[5], s[6], s[7]);
    let v: u64 = be_value(s);
    assert(v == s0 * 0x100_0000_0000_0000 + s1 * 0x1_0000_0000_0000 + s2 * 0x100_0000_0000 + s3
        * 0x1_0000_0000 + s4 * 0x100_0000 + s5 * 0x1_0000 + s6 * 0x100 + s7);
    assert(v / 0x100_0000_0000_0000 == s0 && v / 0x1_0000_0000_0000 % 256 == s1 && v
        / 0x100_0000_0000 % 256 == s2 && v / 0x1_0000_0000 % 256 == s3 && v / 0x100_0000 % 256
        == s4 && v / 0x1_0000 % 256 == s5 && v / 0x100 % 256 == s6 && v % 256 == s7)
        by (bit_vector)
        requires
            v == s0 * 0x100_0000_0000_0000 + s1 * 0x1_0000_0000_0000 + s2 * 0x100_0000_0000 + s3
                * 0x1_0000_0000 + s4 * 0x100_0000 + s5 * 0x1_0000 + s6 * 0x100 + s7,
    ;
    assert(be_bytes(v) =~= s);
}

/// The byte sum of a sequence with one more byte at the end.
pub proof fn lemma_byte_sum_push(s: Seq<u8>, b: u8)
    ensures
        byte_sum(s.push(b)) == byte_sum(s) + b,
{
    assert(s.push(b).drop_last() =~= s);
}

/// A record is nineteen bytes and reads back as the fields it was made of,
/// with the current version.
pub proof fn lemma_record_round_trip(easting: u64, northing: u64, zoom: u8)
    ensures
        record_bytes(easting, northing, zoom).len() == 19,
        parse_record(record_bytes(easting, northing, zoom)) == Ok::<_, N3gbError>(
            (IDENTIFIER_VERSION, easting, northing, zoom),
        ),
{
    let payload = record_payload(easting, northing, zoom);
    let bytes = record_bytes(easting, northing, zoom);
    lemma_be_round_trip(easting);
    lemma_be_round_trip(northing);
    assert(bytes.take(18) =~= payload);
    assert(bytes.subrange(1, 9) =~= be_bytes(easting));
    assert(bytes.subrange(9, 17) =~= be_bytes(northing));
}

/// Whatever parses as a record is the record of the fields it parses to.
pub proof fn lemma_parsed_record_is_canonical(bytes: Seq<u8>)
    requires
        parse_record(bytes) is Ok,
    ensures
        ({
            let (_, easting, northing, zoom) = parse_record(bytes)->Ok_0;
            record_bytes(easting, northing, zoom) == bytes
        }),
{
    let (_, easting, northing, zoom) = parse_record(bytes)->Ok_0;
    lemma_be_bytes_of_value(bytes.subrange(1, 9));
    lemma_be_bytes_of_value(bytes.subrange(9, 17));
    let payload = record_payload(easting, northing, zoom);
    assert(payload =~= bytes.take(18));
    assert(record_bytes(easting, northing, zoom) =~= bytes);
}

/// A record whose last byte has been replaced by any other value fails the
/// checksum test.
pub proof fn lemma_changed_checksum_byte(bytes: Seq<u8>, last: u8)
    requires
        bytes.len() == 19,
        checksum(bytes.take(18)) == bytes[18],
        last != bytes[18],
    ensures
        parse_record(bytes.update(18, last)) == Err::<(u8, u64, u64, u8), _>(
            N3gbError::InvalidChecksum,
        ),
{
    assert(bytes.update(18, last).take(18) =~= bytes.take(18));
}

/// Flipping any one bit of a valid record's last byte makes the record fail
/// with `InvalidChecksum`.
pub proof fn lemma_flipped_checksum_bit(bytes: Seq<u8>, bit: u8)
    requires
        bytes.len() == 19,
        checksum(bytes.take(18)) == bytes[18],
        bit < 8,
    ensures
        parse_record(bytes.update(18, bytes[18] ^ (1u8 << bit))) == Err::<(u8, u64, u64, u8), _>(
            N3gbError::InvalidChecksum,
        ),
{
    let b = bytes[18];
    assert(b ^ (1u8 << bit) != b) by (bit_vector)
        requires
            bit < 8,
    ;
    lemma_changed_checksum_byte(bytes, b ^ (1u8 << bit));
}

/// A nineteen-byte record with a valid checksum and a version byte other
/// than the current one fails with `UnsupportedVersion` of that byte.
pub proof fn lemma_version_skew(bytes: Seq<u8>)
    requires
        bytes.len() == 19,
        checksum(bytes.take(18)) == bytes[18],
        bytes[0] != IDENTIFIER_VERSION,
    ensures
        parse_record(bytes) == Err::<(u8, u64, u64, u8), _>(
            N3gbError::UnsupportedVersion(bytes[0]),
        ),
{
}

/// Clamps a millimetre count into the unsigned 64-bit range.
pub fn scale_to_u64(v: i128) -> (s: u64)
    ensures
        s == scaled(v as int),
{
    if v < 0 {
        0
    } else if v > 0xffff_ffff_ffff_ffff {
        0xffff_ffff_ffff_ffff
    } else {
        v as u64
    }
}

/// Appends the eight bytes of `v`, most significant first.
fn push_be_bytes(out: &mut Vec<u8>, v: u64)
    ensures
        final(out)@ == old(out)@ + be_bytes(v),
{
    out.push((v / 0x100_0000_0000_0000) as u8);
    out.push((v / 0x1_0000_0000_0000 % 256) as u8);
    out.push((v / 0x100_0000_0000 % 256) as u8);
    out.push((v / 0x1_0000_0000 % 256) as u8);
    out.push((v / 0x100_0000 % 256) as u8);
    out.push((v / 0x1_0000 % 256) as u8);
    out.push((v / 0x100 % 256) as u8);
    out.push((v % 256) as u8);
    assert(out@ =~= old(out)@ + be_bytes(v));
}

/// The number that the eight bytes from `at` on spell.
fn read_be_value(bytes: &Vec<u8>, at: usize) -> (v: u64)
    requires
        at + 8 <= bytes@.len(),
    ensures
        v == be_value(bytes@.subrange(at as int, at + 8)),
{
    let len = bytes.len();
    let ghost s = bytes@.subrange(at as int, at + 8);
    assert(forall|i: int| 0 <= i < 8 ==> s[i] == bytes@[at + i]);
    let b0: u64 = bytes[at] as u64;
    let b1: u64 = bytes[at + 1] as u64;
    let b2: u64 = bytes[at + 2] as u64;
    let b3: u64 = bytes[at + 3] as u64;
    let b4: u64 = bytes[at + 4] as u64;
    let b5: u64 = bytes[at + 5] as u64;
    let b6: u64 = bytes[at + 6] as u64;
    let b7: u64 = bytes[at + 7] as u64;
    b0 * 0x100_0000_0000_0000 + b1 * 0x1_0000_0000_0000 + b2 * 0x100_0000_0000 + b3
        * 0x1_0000_0000 + b4 * 0x100_0000 + b5 * 0x1_0000 + b6 * 0x100 + b7
}

/// The checksum of the first `len` bytes of `bytes`.
pub fn checksum_of(bytes: &Vec<u8>, len: usize) -> (c: u8)
    requires
        len <= bytes@.len(),
    ensures
        c == checksum(bytes@.take(len as int)),
{
    let mut acc: u8 = 0;
    let mut i: usize = 0;
    while i < len
        invariant
            i <= len <= bytes@.len(),
            acc == checksum(bytes@.take(i as int)),
        decreases len - i,
    {
        proof {
            lemma_byte_sum_push(bytes@.take(i as int), bytes@[i as int]);
            assert(bytes@.take(i + 1) =~= bytes@.take(i as int).push(bytes@[i as int]));
        }
        let wide: u16 = (acc as u16 + bytes[i] as u16) % 256;
        acc = wide as u8;
        i = i + 1;
    }
    acc
}

/// Builds the nineteen-byte record of a centre, given in millimetres, and a
/// zoom level.
pub fn encode_record(easting: u64, northing: u64, zoom: u8) -> (bytes: Vec<u8>)
    ensures
        bytes@ == record_bytes(easting, northing, zoom),
        bytes@.len() == 19,
{
    let mut bytes: Vec<u8> = Vec::with_capacity(RECORD_LEN);
    bytes.push(IDENTIFIER_VERSION);
    push_be_bytes(&mut bytes, easting);
    push_be_bytes(&mut bytes, northing);
    bytes.push(zoom);
    assert(bytes@ =~= record_payload(easting, northing, zoom));
    let c = checksum_of(&bytes, 18);
    assert(bytes@.take(18) =~= bytes@);
    bytes.push(c);
    bytes
}

/// Reads a record: checks its length, its checksum and its version, in that
/// order, and returns version, easting, northing and zoom.
pub fn decode_record(bytes: &Vec<u8>) -> (r: Result<(u8, u64, u64, u8), N3gbError>)
    ensures
        r == parse_record(bytes@),
{
    if bytes.len() != RECORD_LEN {
        return Err(N3gbError::InvalidIdentifierLength);
    }
    let expected = checksum_of(bytes, 18);
    if expected != bytes[18] {
        return Err(N3gbError::InvalidChecksum);
    }
    let version = bytes[0];
    let easting = read_be_value(bytes, 1);
    let northing = read_be_value(bytes, 9);
    let zoom = bytes[17];
    if version != IDENTIFIER_VERSION {
        return Err(N3gbError::UnsupportedVersion(version));
    }
    Ok((version, easting, northing, zoom))
}

/// The identifier of the cell centred at (`easting`, `northing`), both in
/// millimetres, at `zoom_level`: the record of the centre in unpadded
/// URL-safe Base64. A coordinate outside the unsigned 64-bit range is
/// clamped into it. The identifier decodes to what was encoded.
pub fn generate_hex_identifier(easting: i128, northing: i128, zoom_level: u8) -> (id: String)
    ensures
        id@ == identifier_text(easting as int, northing as int, zoom_level),
        id@.len() == 26,
        identifier_fields(id@) == Ok::<_, N3gbError>(
            (IDENTIFIER_VERSION, scaled(easting as int), scaled(northing as int), zoom_level),
        ),
{
    let e = scale_to_u64(easting);
    let n = scale_to_u64(northing);
    let bytes = encode_record(e, n, zoom_level);
    proof {
        lemma_record_round_trip(e, n, zoom_level);
    }
    encode_base64url(&bytes)
}

/// Same as [`generate_hex_identifier`].
pub fn generate_identifier(easting: i128, northing: i128, zoom_level: u8) -> (id: String)
    ensures
        id@ == identifier_text(easting as int, northing as int, zoom_level),
        id@.len() == 26,
        identifier_fields(id@) == Ok::<_, N3gbError>(
            (IDENTIFIER_VERSION, scaled(easting as int), scaled(northing as int), zoom_level),
        ),
{
    generate_hex_identifier(easting, northing, zoom_level)
}

/// Decodes an identifier into version, easting and northing in millimetres,
/// and zoom level. Text that is not unpadded URL-safe Base64 gives
/// `Base64DecodeError`; otherwise the decoded bytes are read as a record.
/// An identifier that decodes is the identifier of the centre it decodes to.
pub fn decode_hex_identifier(identifier: &str) -> (r: Result<(u8, u64, u64, u8), N3gbError>)
    ensures
        r == identifier_fields(identifier@),
        r matches Ok((_, easting, northing, zoom)) ==> identifier@ == identifier_text(
            easting as int,
            northing as int,
            zoom,
        ),
{
    match decode_base64url(identifier) {
        Err(_) => Err(N3gbError::Base64DecodeError),
        Ok(bytes) => {
            let r = decode_record(&bytes);
            proof {
                if r is Ok {
                    lemma_parsed_record_is_canonical(bytes@);
                }
            }
            r
        },
    }
}

} // verus!
