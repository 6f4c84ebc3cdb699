//! Tests of chunk framing, the double buffer, and the write processor.

use pinenut_log::buffer::{DoubleBuffer, Side};
use pinenut_log::chunk::{
    chunk_clear, chunk_initialize, chunk_is_almost_full, chunk_payload_len, chunk_start_secs,
    chunk_validate, chunk_write, chunk_writeback, ChunkError, HEADER_LEN,
};
use pinenut_log::codec::decode_record;
use pinenut_log::common::{BytesBuf, Magic};
use pinenut_log::logger::{Operation, Processor};
use pinenut_log::record::{Record, RecordBuilder};

#[test]
fn test_bytesbuf() {
    let mut buffer = BytesBuf::with_capacity(4);

    assert_eq!(buffer.buffer(&[1, 2, 3, 4, 5, 6]), 4);
    assert_eq!(buffer.as_slice(), &[1, 2, 3, 4]);

    buffer.drain(3);
    assert_eq!(buffer.as_slice(), &[4]);

    assert_eq!(buffer.buffer(&[1, 2, 3, 4, 5, 6]), 3);
    assert_eq!(buffer.as_slice(), &[4, 1, 2, 3]);
}

#[test]
fn test_magic_raw_roundtrip() {
    let magic = Magic::new(0xFEEDCA7C);
    let raw = magic.raw();
    assert_eq!(raw, vec![0x7C, 0xCA, 0xED, 0xFE]);
    assert_eq!(Magic::from_raw(&raw), magic);
}

#[test]
fn test_chunk_framing() {
    let mut mem = vec![0u8; 160];
    let pub_key = vec![7u8; 33];
    chunk_initialize(&mut mem, 0, 160, 1234, &pub_key);
    assert!(chunk_validate(&mem, 0, 160));
    assert_eq!(chunk_payload_len(&mem, 0, 160), 0);
    assert_eq!(chunk_start_secs(&mem, 0, 160), 1234);
    assert!(!chunk_writeback(&mem, 0, 160));

    // Capacity is 100 bytes; an 80-byte write fits, the next one does not.
    chunk_write(&mut mem, 0, 160, &[9u8; 80]).unwrap();
    assert_eq!(chunk_payload_len(&mem, 0, 160), 80);
    assert!(chunk_is_almost_full(&mem, 0, 160));
    assert!(matches!(
        chunk_write(&mut mem, 0, 160, &[9u8; 21]),
        Err(ChunkError::Overflow)
    ));
    assert_eq!(chunk_payload_len(&mem, 0, 160), 80);

    chunk_clear(&mut mem, 0, 160);
    assert_eq!(chunk_payload_len(&mem, 0, 160), 0);
    assert!(chunk_validate(&mem, 0, 160));
}

#[test]
fn test_double_buffer_switch() {
    let mem = vec![0u8; 256];
    let mut buf = DoubleBuffer::new(mem);
    let side_len = buf.side_len();
    assert_eq!(side_len, 124);

    let left = buf.side_offset(Side::Left);
    let right = buf.side_offset(Side::Right);
    assert_ne!(left, right);

    // Write through the two named handles, then switch.
    buf.mem[left] = 0xAA;
    buf.mem[right] = 0xBB;
    buf.switch();

    // Each name now addresses the bytes the other name wrote.
    assert_eq!(buf.mem[buf.side_offset(Side::Left)], 0xBB);
    assert_eq!(buf.mem[buf.side_offset(Side::Right)], 0xAA);

    buf.switch();
    assert_eq!(buf.mem[buf.side_offset(Side::Left)], 0xAA);
    assert_eq!(buf.mem[buf.side_offset(Side::Right)], 0xBB);
}

#[test]
fn test_buffer_header_reinitialized() {
    // Garbage in the header: wrapping re-initializes it with Alpha at Left.
    let mem = vec![0xEEu8; 256];
    let buf = DoubleBuffer::new(mem);
    assert_eq!(buf.side_offset(Side::Left), 8);

    // A valid header survives wrapping.
    let snapshot = buf.mem.clone();
    let again = DoubleBuffer::new(snapshot);
    assert_eq!(again.side_offset(Side::Left), 8);
}

#[test]
fn test_processor() {
    let mut processor = Processor::new(None, None);

    let mut memory = vec![0u8; 256];

    fn test_process(processor: &mut Processor, memory: &mut Vec<u8>, contents: &[&str]) {
        let pub_key = vec![0u8; 33];
        chunk_initialize(memory, 0, 256, 0, &pub_key);

        let records: Vec<Record> = contents
            .iter()
            .map(|c| RecordBuilder::new().content(c).build())
            .collect();

        for record in &records {
            processor
                .process(Operation::Input(record), memory, 0, 256)
                .unwrap();
        }
        processor.process(Operation::Rotate, memory, 0, 256).unwrap();

        let payload_len = chunk_payload_len(memory, 0, 256);
        let payload: Vec<u8> = memory[HEADER_LEN..HEADER_LEN + payload_len].to_vec();

        let mut pos = 0;
        for record in records {
            let (new_record, end) = decode_record(&payload, pos).unwrap();
            assert_eq!(record, new_record);
            pos = end;
        }

        assert_eq!(pos, payload.len());
    }

    test_process(&mut processor, &mut memory, &[]);
    test_process(&mut processor, &mut memory, &["Hello", "World"]);
}
