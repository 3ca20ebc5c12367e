use base64::engine::general_purpose::URL_SAFE_NO_PAD;
use base64::Engine;
use n3gb_rs::{
    decode_hex_identifier, decode_record, encode_record, generate_hex_identifier,
    generate_identifier, N3gbError, IDENTIFIER_VERSION,
};

fn id_mm(metres: f64) -> i128 {
    (metres * 1000.0).round() as i128
}

fn id_metres(mm: u64) -> f64 {
    mm as f64 / 1000.0
}

#[test]
fn identifier_test_generate_and_decode_identifier() -> Result<(), N3gbError> {
    let easting = 252086.123;
    let northing = 847702.123;
    let zoom = 10;

    let id = generate_hex_identifier(id_mm(easting), id_mm(northing), zoom);
    assert!(!id.is_empty());

    let (version, decoded_e, decoded_n, decoded_z) = decode_hex_identifier(&id)?;

    assert_eq!(version, IDENTIFIER_VERSION);
    assert!((id_metres(decoded_e) - easting).abs() < 0.001);
    assert!((id_metres(decoded_n) - northing).abs() < 0.001);
    assert_eq!(decoded_z, zoom);
    Ok(())
}

#[test]
fn identifier_test_invalid_identifier() {
    let result = decode_hex_identifier("invalid");
    assert!(result.is_err());
}

#[test]
fn test_identifier_output() {
    let id = generate_hex_identifier(id_mm(457500.0), id_mm(340000.0), 10);
    println!("Generated identifier: {}", id);
    println!("Length: {} chars", id.len());

    let (version, easting, northing, zoom) = decode_hex_identifier(&id).unwrap();
    println!(
        "Decoded: version={}, easting={}, northing={}, zoom={}",
        version, easting, northing, zoom
    );
}

#[test]
fn generate_identifier_matches_generate_hex_identifier() {
    let a = generate_identifier(id_mm(252086.123), id_mm(847702.123), 10);
    let b = generate_hex_identifier(id_mm(252086.123), id_mm(847702.123), 10);
    assert_eq!(a, b);
    assert_eq!(a, "AQAAAAAPBodrAAAAADKG6GsKHQ");
}

#[test]
fn identifier_has_the_published_text() {
    assert_eq!(
        generate_hex_identifier(383634000, 398253906, 12),
        "AQAAAAAW3cpQAAAAABe831IMHg"
    );
    assert_eq!(
        generate_hex_identifier(457500000, 340000000, 10),
        "AQAAAAAbROVgAAAAABRD_QAKAw"
    );
    assert_eq!(generate_hex_identifier(0, 0, 0), "AQAAAAAAAAAAAAAAAAAAAAAAAQ");
}

#[test]
fn identifier_text_decodes_to_its_fields() {
    assert_eq!(
        decode_hex_identifier("AQAAAAAW3cpQAAAAABe831IMHg"),
        Ok((1, 383634000, 398253906, 12))
    );
    assert_eq!(
        decode_hex_identifier("AQAAAAAbROVgAAAAABRD_QAKAw"),
        Ok((1, 457500000, 340000000, 10))
    );
}

#[test]
fn identifier_is_twenty_six_characters() {
    for zoom in 0..=15u8 {
        let id = generate_hex_identifier(750000000, 1350000000, zoom);
        assert_eq!(id.len(), 26);
    }
}

#[test]
fn round_trip_at_every_zoom_level() {
    let points: [(i128, i128); 5] = [
        (0, 0),
        (1, 1),
        (383640000, 398260000),
        (252086123, 847702123),
        (750000000, 1350000000),
    ];
    for zoom in 0..=15u8 {
        for (e, n) in points {
            let id = generate_hex_identifier(e, n, zoom);
            assert_eq!(
                decode_hex_identifier(&id),
                Ok((1, e as u64, n as u64, zoom))
            );
        }
    }
}

#[test]
fn regression_manchester_round_trip() {
    let id = generate_hex_identifier(id_mm(383640.0), id_mm(398260.0), 12);
    assert_eq!(id, "AQAAAAAW3eHAAAAAABe89yAMiw");
    let (version, easting, northing, zoom) = decode_hex_identifier(&id).unwrap();
    assert_eq!(version, 1);
    assert_eq!(zoom, 12);
    assert!((id_metres(easting) - 383640.0).abs() < 0.001);
    assert!((id_metres(northing) - 398260.0).abs() < 0.001);
    assert_eq!((easting, northing), (383640000, 398260000));
}

#[test]
fn negative_coordinates_are_stored_as_zero() {
    let id = generate_hex_identifier(-5, -1000, 3);
    assert_eq!(decode_hex_identifier(&id), Ok((1, 0, 0, 3)));
    assert_eq!(id, generate_hex_identifier(0, 0, 3));
}

#[test]
fn oversized_coordinates_are_stored_as_the_largest_value() {
    let big = u64::MAX as i128 + 12345;
    let id = generate_hex_identifier(big, big, 255);
    assert_eq!(id, "Af______________________8A");
    assert_eq!(decode_hex_identifier(&id), Ok((1, u64::MAX, u64::MAX, 255)));
}

#[test]
fn record_has_the_documented_layout() {
    let bytes = encode_record(0x0102030405060708, 0x1112131415161718, 9);
    assert_eq!(bytes.len(), 19);
    assert_eq!(bytes[0], 1);
    assert_eq!(&bytes[1..9], &[1, 2, 3, 4, 5, 6, 7, 8]);
    assert_eq!(&bytes[9..17], &[0x11, 0x12, 0x13, 0x14, 0x15, 0x16, 0x17, 0x18]);
    assert_eq!(bytes[17], 9);
    let sum = bytes[..18].iter().fold(0u8, |acc, b| acc.wrapping_add(*b));
    assert_eq!(bytes[18], sum);
    assert_eq!(
        decode_record(&bytes),
        Ok((1, 0x0102030405060708, 0x1112131415161718, 9))
    );
}

#[test]
fn checksum_wraps_at_256() {
    let bytes = encode_record(u64::MAX, u64::MAX, 255);
    // 1 + 16 * 255 + 255 = 4336 = 16 * 256 + 240
    assert_eq!(bytes[18], 240);
}

#[test]
fn identifier_is_the_base64_of_the_record() {
    let id = generate_hex_identifier(383634000, 398253906, 12);
    let bytes = URL_SAFE_NO_PAD.decode(&id).unwrap();
    assert_eq!(bytes, encode_record(383634000, 398253906, 12));
}

#[test]
fn flipping_any_bit_of_the_last_byte_fails_the_checksum() {
    let id = generate_hex_identifier(383634000, 398253906, 12);
    let bytes = URL_SAFE_NO_PAD.decode(&id).unwrap();
    for bit in 0..8 {
        let mut broken = bytes.clone();
        broken[18] ^= 1u8 << bit;
        assert_eq!(decode_record(&broken), Err(N3gbError::InvalidChecksum));
        let text = URL_SAFE_NO_PAD.encode(&broken);
        assert_eq!(
            decode_hex_identifier(&text),
            Err(N3gbError::InvalidChecksum)
        );
    }
}

#[test]
fn other_version_with_valid_checksum_is_unsupported() {
    for version in [0u8, 2, 3, 200, 255] {
        let mut bytes = encode_record(383634000, 398253906, 12);
        bytes[0] = version;
        bytes[18] = bytes[..18].iter().fold(0u8, |acc, b| acc.wrapping_add(*b));
        assert_eq!(
            decode_record(&bytes),
            Err(N3gbError::UnsupportedVersion(version))
        );
        let text = URL_SAFE_NO_PAD.encode(&bytes);
        assert_eq!(
            decode_hex_identifier(&text),
            Err(N3gbError::UnsupportedVersion(version))
        );
    }
}

#[test]
fn checksum_is_tested_before_the_version() {
    let mut bytes = encode_record(1, 2, 3);
    bytes[0] = 7;
    assert_eq!(decode_record(&bytes), Err(N3gbError::InvalidChecksum));
}

#[test]
fn wrong_length_is_rejected() {
    assert_eq!(
        decode_record(&vec![1u8; 18]),
        Err(N3gbError::InvalidIdentifierLength)
    );
    assert_eq!(
        decode_record(&vec![1u8; 20]),
        Err(N3gbError::InvalidIdentifierLength)
    );
    assert_eq!(decode_record(&Vec::new()), Err(N3gbError::InvalidIdentifierLength));
    let text = URL_SAFE_NO_PAD.encode(vec![1u8; 18]);
    assert_eq!(
        decode_hex_identifier(&text),
        Err(N3gbError::InvalidIdentifierLength)
    );
    assert_eq!(
        decode_hex_identifier(""),
        Err(N3gbError::InvalidIdentifierLength)
    );
}

#[test]
fn malformed_base64_is_rejected() {
    assert_eq!(
        decode_hex_identifier("not base64!"),
        Err(N3gbError::Base64DecodeError)
    );
    // padding is not accepted
    assert_eq!(
        decode_hex_identifier("AQAAAAAW3cpQAAAAABe831IMHg=="),
        Err(N3gbError::Base64DecodeError)
    );
    // the standard alphabet's '/' is not in the URL-safe alphabet
    assert_eq!(
        decode_hex_identifier("Af//////////////////////8A"),
        Err(N3gbError::Base64DecodeError)
    );
    // stray bits in the last character
    assert_eq!(
        decode_hex_identifier("AQAAAAAW3cpQAAAAABe831IMHh"),
        Err(N3gbError::Base64DecodeError)
    );
}
