//! End-to-end tests through the in-memory core: log, seal, extract, parse —
//! and crash recovery through the writeback path.

use pinenut_log::chunk::{chunk_initialize, chunk_set_end, chunk_write};
use pinenut_log::compress::ZstdCompressor;
use pinenut_log::parse::ParsingError;
use pinenut_log::encrypt::{gen_echd_key_pair, Encryptor, Keys};
use pinenut_log::extract::extract;
use pinenut_log::logger::{Context, Core, Operation};
use pinenut_log::parse::parse;
use pinenut_log::record::{MetaBuilder, Record, RecordBuilder};
use pinenut_log::time::{DateTime, TimeDimension};

fn record_at(secs: i64, content: &str) -> Record {
    let datetime = DateTime::new(secs, 0).unwrap();
    let meta = MetaBuilder::new().datetime(datetime).build();
    RecordBuilder::new().meta(meta).content(content).build()
}

/// Builds a core with fresh keys; returns it with the secret key.
fn encrypted_core(memory: Vec<u8>) -> (Core, Vec<u8>) {
    let (secret_key, public_key) = gen_echd_key_pair();
    let keys = Keys::new(&public_key).unwrap();
    let encryptor = Encryptor::new(&keys.encryption_key);
    let compressor = ZstdCompressor::new(10).unwrap();
    let context = Context::new(keys.public_key, TimeDimension::Minute);
    let core = Core::new(context, Some(compressor), Some(encryptor), memory);
    (core, secret_key)
}

#[test]
fn test_log_seal_parse_roundtrip() {
    // Three records in one minute: no rotation until the explicit seal.
    let t = 1384781712i64; // 2013-11-18 13:35:12 UTC
    let records = [
        record_at(t, "a"),
        record_at(t + 1, "bb"),
        record_at(t + 2, "ccc"),
    ];

    let (mut core, secret_key) = encrypted_core(vec![0u8; 4096]);
    core.on(Operation::Writeback);
    for record in &records {
        let (_, errs) = core.on(Operation::Input(record));
        assert!(errs.is_empty());
    }
    let (needs_io, errs) = core.on(Operation::Rotate);
    assert!(errs.is_empty());
    assert!(needs_io);

    let (_, file) = core.take_output_chunk().unwrap();
    let mut out: Vec<Record> = Vec::new();
    parse(file, Some(secret_key), &mut out).unwrap();

    assert_eq!(out.len(), records.len());
    for (parsed, original) in out.iter().zip(records.iter()) {
        assert_eq!(parsed, original);
    }
}

#[test]
fn test_writeback_recovers_most_records() {
    // Fill the input side and "crash" without sealing; a new core over the
    // same backing drains the chunk as a writeback, whose final cipher block
    // is treated as lost.
    let t = 1384783200i64;
    // Distinct contents longer than one cipher block, so that losing the
    // final block can swallow at most the last record.
    let records = [
        record_at(t, "first entry: the quick brown fox jumps over the lazy dog"),
        record_at(t + 2, "second entry: pack my box with five dozen liquor jugs"),
        record_at(t + 4, "third entry: sphinx of black quartz, judge my vow today"),
        record_at(t + 6, "fourth entry: how vexingly quick daft zebras jump about"),
    ];

    let (mut core, secret_key) = encrypted_core(vec![0u8; 4096]);
    core.on(Operation::Writeback);
    for record in &records {
        let (_, errs) = core.on(Operation::Input(record));
        assert!(errs.is_empty());
    }
    // The crash: only the backing region survives.
    let survived = core.backing().clone();
    drop(core);

    let (mut core, _) = encrypted_core(survived);
    let (needs_io, errs) = core.on(Operation::Writeback);
    assert!(errs.is_empty());
    assert!(needs_io);
    let (_, file) = core.take_output_chunk().unwrap();

    let mut out: Vec<Record> = Vec::new();
    // Per-chunk errors may be reported; the records before them still come.
    let _ = parse(file, Some(secret_key), &mut out);

    assert!(out.len() >= records.len() - 1);
    for (parsed, original) in out.iter().zip(records.iter()) {
        assert_eq!(parsed, original);
    }
}

#[test]
fn test_clean_shutdown_leaves_nothing_to_write_back() {
    let t = 1384783200i64;
    let (mut core, _secret) = encrypted_core(vec![0u8; 4096]);
    core.on(Operation::Writeback);
    let record = record_at(t, "test log");
    core.on(Operation::Input(&record));
    let (needs_io, _) = core.on(Operation::Rotate);
    assert!(needs_io);
    core.take_output_chunk().unwrap();
    let survived = core.backing().clone();
    drop(core);

    // After a clean seal and drain, a restarted core owes no writeback.
    let (mut core, _) = encrypted_core(survived);
    let (needs_io, errs) = core.on(Operation::Writeback);
    assert!(errs.is_empty());
    assert!(!needs_io);
}

#[test]
fn test_extract_window() {
    // Two sealed chunks in two files; extracting a window around the second
    // keeps only it.
    let t1 = 1384781712i64;
    let t2 = t1 + 3600;
    let (mut core, secret_key) = encrypted_core(vec![0u8; 4096]);
    core.on(Operation::Writeback);

    let r1 = record_at(t1, "first");
    core.on(Operation::Input(&r1));
    core.on(Operation::Rotate);
    let (secs1, file1) = core.take_output_chunk().unwrap();
    assert_eq!(secs1, t1);

    let r2 = record_at(t2, "second");
    core.on(Operation::Input(&r2));
    core.on(Operation::Rotate);
    let (secs2, file2) = core.take_output_chunk().unwrap();
    assert_eq!(secs2, t2);

    let extracted = extract(vec![file1, file2], t2 - 10, t2 + 10).unwrap();
    let mut out: Vec<Record> = Vec::new();
    parse(extracted, Some(secret_key), &mut out).unwrap();
    assert_eq!(out.len(), 1);
    assert_eq!(&out[0], &r2);
}

#[test]
fn test_parse_confines_and_tags_chunk_errors() {
    // One good sealed chunk, then a chunk whose payload is garbage: the
    // garbage chunk fails inside the pipeline, tagged with its time range,
    // while the good chunk's record still comes through.
    let t = 1384781712i64;
    let (mut core, secret_key) = encrypted_core(vec![0u8; 4096]);
    core.on(Operation::Writeback);
    let record = record_at(t, "survivor");
    core.on(Operation::Input(&record));
    core.on(Operation::Rotate);
    let (_, mut file) = core.take_output_chunk().unwrap();

    let mut bad = vec![0u8; 100];
    chunk_initialize(&mut bad, 0, 100, 111, &vec![0u8; 33]);
    chunk_write(&mut bad, 0, 100, &[0xAB; 40]).unwrap();
    chunk_set_end(&mut bad, 0, 100, 222);
    file.extend_from_slice(&bad);

    let mut out: Vec<Record> = Vec::new();
    let result = parse(file, Some(secret_key), &mut out);
    assert_eq!(out.len(), 1);
    assert_eq!(&out[0], &record);
    match result {
        Err(ParsingError::Chunks(v)) => {
            assert_eq!(v.len(), 1);
            assert!(matches!(
                v[0],
                ParsingError::Decrypt(_, 111, 222)
                    | ParsingError::Decompress(_, 111, 222)
                    | ParsingError::Decode(_, 111, 222)
            ));
        }
        other => panic!("expected a batch of chunk errors, got {other:?}"),
    }
}

#[test]
fn test_parse_skips_foreign_versions() {
    // A chunk of another format version is skipped without an error.
    let t = 1384781712i64;
    let (mut core, secret_key) = encrypted_core(vec![0u8; 4096]);
    core.on(Operation::Writeback);
    let record = record_at(t, "to be skipped");
    core.on(Operation::Input(&record));
    core.on(Operation::Rotate);
    let (_, mut file) = core.take_output_chunk().unwrap();

    // The version field sits after the four magic bytes.
    file[4] = 2;
    file[5] = 0;

    let mut out: Vec<Record> = Vec::new();
    parse(file, Some(secret_key), &mut out).unwrap();
    assert_eq!(out.len(), 0);
}
