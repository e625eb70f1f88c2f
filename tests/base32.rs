use typeid::base32::{
    decode_base32_to_u128, decode_base32_uuid, encode_base32_uuid, encode_u128_to_base32,
    symbol_code, EncodingReason, Error,
};

#[test]
fn test_encode_decode_base32_uuid() {
    let uuid = uuid::Uuid::now_v7();
    let encoded = encode_base32_uuid(uuid.as_u128());
    println!("{}", encoded);
    let decoded = decode_base32_uuid(&encoded).unwrap();
    assert_eq!(uuid, uuid::Uuid::from_u128(decoded));
}

#[test]
fn encodes_known_values() {
    assert_eq!(encode_u128_to_base32(0), "00000000000000000000000000");
    assert_eq!(encode_u128_to_base32(1), "00000000000000000000000001");
    assert_eq!(encode_u128_to_base32(32), "00000000000000000000000010");
    assert_eq!(encode_u128_to_base32(u128::MAX), "7zzzzzzzzzzzzzzzzzzzzzzzzz");
    assert_eq!(
        encode_u128_to_base32(0x0123456789abcdef0123456789abcdef),
        "014d2pf2dbsqqg28t5cy4tqkff"
    );
    assert_eq!(
        encode_base32_uuid(0x01890a5dac96774bbcceb302099a8057),
        "01h455vb4pex5vsknk084sn02q"
    );
}

#[test]
fn decodes_known_values() {
    assert_eq!(
        decode_base32_to_u128("01h455vb4pex5vsknk084sn02q"),
        Ok(0x01890a5dac96774bbcceb302099a8057)
    );
    assert_eq!(decode_base32_to_u128("7zzzzzzzzzzzzzzzzzzzzzzzzz"), Ok(u128::MAX));
    assert_eq!(decode_base32_to_u128("00000000000000000000000000"), Ok(0));
}

#[test]
fn round_trips_chosen_values() {
    for v in [0u128, 1, 31, 32, u64::MAX as u128, 1u128 << 127, u128::MAX - 1, u128::MAX] {
        assert_eq!(decode_base32_to_u128(&encode_u128_to_base32(v)), Ok(v));
    }
}

#[test]
fn rejects_wrong_lengths() {
    assert_eq!(
        decode_base32_to_u128("0000000000000000000000000"),
        Err(Error::InvalidEncoding { reason: EncodingReason::WrongLength { len: 25 } })
    );
    assert_eq!(
        decode_base32_to_u128("000000000000000000000000000"),
        Err(Error::InvalidEncoding { reason: EncodingReason::WrongLength { len: 27 } })
    );
    assert_eq!(
        decode_base32_to_u128(""),
        Err(Error::InvalidEncoding { reason: EncodingReason::WrongLength { len: 0 } })
    );
}

#[test]
fn rejects_first_symbol_above_seven() {
    assert_eq!(
        decode_base32_to_u128("8zzzzzzzzzzzzzzzzzzzzzzzzz"),
        Err(Error::InvalidEncoding { reason: EncodingReason::Overflow })
    );
    assert_eq!(
        decode_base32_to_u128("80000000000000000000000000"),
        Err(Error::InvalidEncoding { reason: EncodingReason::Overflow })
    );
}

#[test]
fn reports_first_invalid_character() {
    assert_eq!(
        decode_base32_to_u128("0000000000i00000000000000u"),
        Err(Error::InvalidEncoding {
            reason: EncodingReason::InvalidCharacter { character: 'i', position: 10 }
        })
    );
    assert_eq!(
        decode_base32_to_u128("0000000000000000000000000U"),
        Err(Error::InvalidEncoding {
            reason: EncodingReason::InvalidCharacter { character: 'U', position: 25 }
        })
    );
    // 24 symbols and a two-byte character: 26 bytes. The first byte of the
    // character, 0xC3, is reported.
    assert_eq!(
        decode_base32_to_u128("000000000000000000000000é"),
        Err(Error::InvalidEncoding {
            reason: EncodingReason::InvalidCharacter { character: '\u{c3}', position: 24 }
        })
    );
    assert_eq!(
        decode_base32_to_u128("é000000000000000000000000"),
        Err(Error::InvalidEncoding {
            reason: EncodingReason::InvalidCharacter { character: 'Ã', position: 0 }
        })
    );
}

#[test]
fn symbol_codes_follow_the_alphabet() {
    let alphabet = "0123456789abcdefghjkmnpqrstvwxyz";
    for (i, c) in alphabet.chars().enumerate() {
        assert_eq!(symbol_code(c), Some(i as u8));
    }
    for c in ['i', 'l', 'o', 'u', 'A', '_', '-', ' '] {
        assert_eq!(symbol_code(c), None);
    }
}
