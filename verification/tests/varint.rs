use runestone::varint::{decode, encode};
use runestone::Error;

#[test]
fn powers_of_two_round_trip_successfully() {
    for i in 0..128 {
        let n = 1 << i;
        let encoded = encode(n);
        let (decoded, length) = decode(&encoded).unwrap();
        assert_eq!(decoded, n);
        assert_eq!(length, encoded.len());
    }
}

#[test]
fn alternating_bit_strings_round_trip_successfully() {
    let mut n = 0;

    for i in 0..129 {
        n = n << 1 | (i % 2);
        let encoded = encode(n);
        let (decoded, length) = decode(&encoded).unwrap();
        assert_eq!(decoded, n);
        assert_eq!(length, encoded.len());
    }
}

#[test]
fn decoding_integer_over_max_is_an_error() {
    assert_eq!(
        decode(&[
            130, 254, 254, 254, 254, 254, 254, 254, 254, 254, 254, 254, 254, 254, 254, 254, 254,
            255, 0,
        ]),
        Err(Error::Varint)
    );
}

#[test]
fn decoding_bip_samples() {
    assert_eq!(decode(&[0x00]), Ok((0, 1)));
    assert_eq!(decode(&[0x01]), Ok((1, 1)));
    assert_eq!(decode(&[0x7F]), Ok((127, 1)));
    assert_eq!(decode(&[0x80, 0x00]), Ok((128, 2)));
    assert_eq!(decode(&[0x80, 0x7F]), Ok((255, 2)));
    assert_eq!(decode(&[0x81, 0x00]), Ok((256, 2)));
    assert_eq!(decode(&[0xFE, 0x7F]), Ok((16383, 2)));
    assert_eq!(decode(&[0xFF, 0x00]), Ok((16384, 2)));
    assert_eq!(decode(&[0xFF, 0x7F]), Ok((16511, 2)));
    assert_eq!(decode(&[0x82, 0xFE, 0x7F]), Ok((65535, 3)));
    assert_eq!(decode(&[0x8E, 0xFE, 0xFE, 0xFF, 0x00]), Ok((1 << 32, 5)));
}

#[test]
fn encoding_bip_samples() {
    assert_eq!(encode(0), &[0x00]);
    assert_eq!(encode(1), &[0x01]);
    assert_eq!(encode(127), &[0x7F]);
    assert_eq!(encode(128), &[0x80, 0x00]);
    assert_eq!(encode(255), &[0x80, 0x7F]);
    assert_eq!(encode(256), &[0x81, 0x00]);
    assert_eq!(encode(16383), &[0xFE, 0x7F]);
    assert_eq!(encode(16384), &[0xFF, 0x00]);
    assert_eq!(encode(16511), &[0xFF, 0x7F]);
    assert_eq!(encode(65535), &[0x82, 0xFE, 0x7F]);
    assert_eq!(encode(1 << 32), &[0x8E, 0xFE, 0xFE, 0xFF, 0x00]);
}

#[test]
fn decoding_a_truncated_buffer_is_an_error() {
    assert_eq!(decode(&[0x80]), Err(Error::Truncated));
    assert_eq!(decode(&[0xFF, 0xFF]), Err(Error::Truncated));
}
