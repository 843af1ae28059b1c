// The varint codec: decoding, encoding, and their round trip.

use litedb::util::{encode_varint, read_varint};

#[test]
fn it_works() {
    let (result, n) = read_varint(&[0x17]);
    assert_eq!(result, 0x17);
    assert_eq!(n, 1);

    let (result, n) = read_varint(&[0x81, 0x47]);
    assert_eq!(result, 199);
    assert_eq!(n, 2);

    let bytes = [
        0b1000_0010,
        0b1110_0001,
        0b1110_0111,
        0b0111_0000,
        0b0000_1011,
        0,
        29,
        37,
        0,
    ];

    let (result, n) = read_varint(&bytes);
    assert_eq!(result, 5796848);
    assert_eq!(n, 4);

    let bytes = [
        0b1000_0010,
        0b1110_0001,
        0b1110_0111,
        0b1111_0000,
        0b1000_1011,
        0b1110_0001,
        0b1110_0111,
        0b1111_0000,
        0b0000_1011,
    ];

    let (result, n) = read_varint(&bytes);
    assert_eq!(result, 398356367593959435);
    assert_eq!(n, 9);
}

#[test]
fn encode_matches_known_bytes() {
    assert_eq!(encode_varint(23), vec![0x17]);
    assert_eq!(encode_varint(199), vec![0x81, 0x47]);
    assert_eq!(encode_varint(0), vec![0x00]);
    assert_eq!(encode_varint(127), vec![0x7f]);
    assert_eq!(encode_varint(128), vec![0x81, 0x00]);
}

#[test]
fn round_trip_across_lengths() {
    let samples: Vec<i64> = vec![
        0,
        1,
        127,
        128,
        5796848,
        16383,
        16384,
        2097151,
        2097152,
        398356367593959435,
        0x00FF_FFFF_FFFF_FFFF,
        0x0100_0000_0000_0000,
        i64::MAX,
    ];
    for v in samples {
        let e = encode_varint(v);
        assert!(1 <= e.len() && e.len() <= 9);
        let (decoded, consumed) = read_varint(&e);
        assert_eq!(decoded, v);
        assert_eq!(consumed as usize, e.len());
    }
}

#[test]
fn nine_continuation_bytes_consume_nine() {
    let bytes = [0xFF, 0xFF, 0xFF, 0xFF, 0xFF, 0xFF, 0xFF, 0xFF, 0xFF];
    let (value, consumed) = read_varint(&bytes);
    assert_eq!(consumed, 9);
    assert_eq!(value, -1);
}
