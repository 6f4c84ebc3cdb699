//! Tests of the binary codec: varints, options, strings, and whole records.

use pinenut_log::codec::{
    decode_opt_u8, decode_record, decode_str, decode_u32, decode_u64, encode_opt_u8, encode_record,
    encode_str, encode_u32, encode_u64, DecodingError,
};
use pinenut_log::record::{Level, Location, Meta, Record};
use pinenut_log::time::DateTime;

#[test]
fn test_integer() {
    let mut sink: Vec<u8> = Vec::new();
    encode_u32(0x7F, &mut sink);
    assert_eq!(sink, [0x7F]);
    let (v, end) = decode_u32(&sink, 0).unwrap();
    assert_eq!(v, 0x7F);
    assert_eq!(end, sink.len());

    let mut sink: Vec<u8> = Vec::new();
    encode_u64(0x80, &mut sink);
    assert_eq!(sink, [0x80, 0x01]);
    let (v, end) = decode_u64(&sink, 0).unwrap();
    assert_eq!(v, 0x80);
    assert_eq!(end, sink.len());

    let mut sink: Vec<u8> = Vec::new();
    encode_u64(0xC0C0C0C0, &mut sink);
    assert_eq!(sink, [0xC0, 0x81, 0x83, 0x86, 0x0C]);
    let (v, end) = decode_u64(&sink, 0).unwrap();
    assert_eq!(v, 0xC0C0C0C0);
    assert_eq!(end, sink.len());

    // Test for overflow.
    let mut sink: Vec<u8> = Vec::new();
    encode_u64(u32::MAX as u64 + 1, &mut sink);
    assert_eq!(sink, [0x80, 0x80, 0x80, 0x80, 0x10]);
    let (v, end) = decode_u64(&sink, 0).unwrap();
    assert_eq!(v, u32::MAX as u64 + 1);
    assert_eq!(end, sink.len());
    assert!(matches!(decode_u32(&sink, 0), Err(DecodingError::IntegerOverflow)));
}

#[test]
fn test_option() {
    let mut sink: Vec<u8> = Vec::new();
    encode_opt_u8(&None, &mut sink);
    assert_eq!(sink, [0x00]);
    let (v, end) = decode_opt_u8(&sink, 0).unwrap();
    assert_eq!(v, None);
    assert_eq!(end, sink.len());

    let mut sink: Vec<u8> = Vec::new();
    encode_opt_u8(&Some(0xFF), &mut sink);
    assert_eq!(sink, [0x01, 0xFF]);
    let (v, end) = decode_opt_u8(&sink, 0).unwrap();
    assert_eq!(v, Some(0xFF));
    assert_eq!(end, sink.len());
}

#[test]
fn test_str() {
    let mut sink: Vec<u8> = Vec::new();
    encode_str("", &mut sink);
    assert_eq!(sink, [0x00]);
    let (v, end) = decode_str(&sink, 0).unwrap();
    assert_eq!(v, "");
    assert_eq!(end, sink.len());

    let mut sink: Vec<u8> = Vec::new();
    encode_str("Hello World", &mut sink);
    assert_eq!(
        sink,
        [0x0B, 0x48, 0x65, 0x6C, 0x6C, 0x6F, 0x20, 0x57, 0x6F, 0x72, 0x6C, 0x64]
    );
    let (v, end) = decode_str(&sink, 0).unwrap();
    assert_eq!(v, "Hello World");
    assert_eq!(end, sink.len());
}

#[test]
fn test_datetime() {
    let datetime = DateTime::now();
    let mut sink: Vec<u8> = Vec::new();
    pinenut_log::codec::encode_datetime(&datetime, &mut sink);
    let (decoded, end) = pinenut_log::codec::decode_datetime(&sink, 0).unwrap();
    assert_eq!(decoded, datetime);
    assert_eq!(end, sink.len());
}

#[test]
fn test_record_roundtrip() {
    let location = Location::new(Some("main.rs".to_string()), Some("run".to_string()), Some(42));
    let datetime = DateTime::new(1384781712, 123456789).unwrap();
    let meta = Meta::new(
        Level::Warn,
        datetime,
        location,
        Some("net".to_string()),
        Some(7),
    );
    let record = Record::new(meta, "Hello World".to_string());

    let mut sink: Vec<u8> = Vec::new();
    encode_record(&record, &mut sink);
    let (decoded, end) = decode_record(&sink, 0).unwrap();
    assert_eq!(end, sink.len());
    assert_eq!(decoded, record);
}

#[test]
fn test_decode_errors() {
    // An empty source cannot even supply the level byte.
    let empty: Vec<u8> = Vec::new();
    assert!(matches!(
        decode_record(&empty, 0),
        Err(DecodingError::UnexpectedEnd { .. })
    ));

    // A level byte nobody defined.
    let bad_level: Vec<u8> = vec![9];
    assert!(matches!(
        decode_record(&bad_level, 0),
        Err(DecodingError::UnexpectedVariant { found_byte: 9 })
    ));

    // A datetime with an invalid nanosecond part.
    let mut sink: Vec<u8> = Vec::new();
    encode_u32(1, &mut sink); // level: Error
    encode_u64(10, &mut sink); // seconds
    encode_u32(2_000_000_001, &mut sink); // out-of-range nanoseconds
    assert!(matches!(
        decode_record(&sink, 0),
        Err(DecodingError::DateTime)
    ));

    // A string that is not UTF-8.
    let mut sink: Vec<u8> = Vec::new();
    encode_u32(2, &mut sink); // length 2
    sink.push(0xFF);
    sink.push(0xFE);
    assert!(matches!(decode_str(&sink, 0), Err(DecodingError::Utf8)));
}

#[test]
fn test_level_primitives() {
    assert_eq!(Level::Error.primitive(), 1);
    assert_eq!(Level::Verbose.primitive(), 5);
    assert_eq!(Level::from_primitive(3), Some(Level::Info));
    assert_eq!(Level::from_primitive(0), None);
    assert_eq!(Level::from_primitive(6), None);
}
