//! Tests of the streaming compressor and cipher.

use pinenut_log::compress::{CompressOp, ZstdCompressor, ZstdDecompressor};
use pinenut_log::encrypt::{decrypt_bytes, Decryptor, Encryptor};

fn zstd_compress(input: &[u8]) -> Vec<u8> {
    let mut compressor = ZstdCompressor::new(3).unwrap();
    let mut sink = compressor.compress(CompressOp::Input, input).unwrap();
    sink.extend(compressor.compress(CompressOp::End, &[]).unwrap());
    sink
}

fn zstd_compress_mul(input: &[u8]) -> Vec<u8> {
    let mut compressor = ZstdCompressor::new(3).unwrap();
    let mut sink = Vec::new();
    for byte in input {
        sink.extend(
            compressor
                .compress(CompressOp::Input, std::slice::from_ref(byte))
                .unwrap(),
        );
        sink.extend(compressor.compress(CompressOp::Flush, &[]).unwrap());
    }
    sink.extend(compressor.compress(CompressOp::End, &[]).unwrap());
    sink
}

fn zstd_decompress(input: &[u8]) -> Vec<u8> {
    let mut decompressor = ZstdDecompressor::new();
    let sink = decompressor.decompress(input).unwrap();

    let mut decompressor = ZstdDecompressor::new();
    let mut sink_mul = Vec::new();
    for byte in input {
        sink_mul.extend(decompressor.decompress(std::slice::from_ref(byte)).unwrap());
    }

    assert_eq!(sink, sink_mul);
    sink
}

#[test]
fn test_zstd() {
    let data = b"Hello, I'm Tangent, nice to meet you.";
    assert_eq!(zstd_decompress(&zstd_compress(data)), data);
    assert_eq!(zstd_decompress(&zstd_compress_mul(data)), data);

    // Empty data.
    assert_eq!(zstd_decompress(&zstd_compress(&[])), &[]);
}

fn key() -> Vec<u8> {
    vec![0x23; 16]
}

fn aes_encrypt(input: &[u8]) -> Vec<u8> {
    let mut encryptor = Encryptor::new(&key());
    let mut sink = Vec::new();
    let mut sink_mul = Vec::new();

    // One time.
    encryptor.input(input, &mut sink);
    encryptor.flush(&mut sink);

    // Multiple times.
    for byte in input {
        encryptor.input(std::slice::from_ref(byte), &mut sink_mul);
    }
    encryptor.flush(&mut sink_mul);

    assert_eq!(sink, sink_mul);
    sink
}

fn aes_decrypt(input: &[u8]) -> Vec<u8> {
    let mut decryptor = Decryptor::new(&key());
    let mut sink = Vec::new();
    let mut sink_mul = Vec::new();

    // One time.
    decryptor.decrypt(input, true, &mut sink).unwrap();

    // Multiple times.
    let mut decryptor = Decryptor::new(&key());
    for (idx, byte) in input.iter().enumerate() {
        decryptor
            .decrypt(std::slice::from_ref(byte), idx == input.len() - 1, &mut sink_mul)
            .unwrap();
    }

    assert_eq!(sink, sink_mul);
    sink
}

#[test]
fn test_aes() {
    // Short data
    let data = b"Hello World";
    assert_eq!(aes_decrypt(&aes_encrypt(data)), data);

    // 16 bytes data
    let data = b"123456789ABCDEFG";
    assert_eq!(aes_decrypt(&aes_encrypt(data)), data);

    // Long data
    let data = b"Hello, I'm Tangent, nice to meet you.";
    assert_eq!(aes_decrypt(&aes_encrypt(data)), data);
}

#[test]
fn test_aes_one_shot_matches_streaming() {
    let data = b"block cipher boundary check";
    let ct = aes_encrypt(data);
    let pt = decrypt_bytes(&key(), &ct, true).unwrap();
    assert_eq!(pt, data);

    // Without stripping, whole blocks come back raw and padded.
    let raw = decrypt_bytes(&key(), &ct, false).unwrap();
    assert_eq!(raw.len(), ct.len());
    assert_eq!(&raw[..data.len()], data);
}

#[test]
fn test_aes_truncated_final_block() {
    // A sealed stream whose final cipher block is lost: deciphering without
    // padding yields the whole blocks of the original plaintext.
    let data = b"0123456789abcdef0123456789abcdefXYZ";
    let ct = aes_encrypt(data);
    let truncated = &ct[..ct.len() - 16];
    let pt = decrypt_bytes(&key(), &truncated.to_vec(), false).unwrap();
    assert_eq!(&pt[..], &data[..32]);
}

#[test]
fn test_aes_bad_padding() {
    // Not a multiple of the block size.
    let ct = vec![0u8; 17];
    assert!(decrypt_bytes(&key(), &ct, true).is_err());
    // Empty ciphertext has no final padded block.
    let ct: Vec<u8> = Vec::new();
    assert!(decrypt_bytes(&key(), &ct, true).is_err());
}
