//! The logger core: record ingestion, the write pipeline — encode, compress,
//! encrypt, frame — rotation decisions, and buffer switching.
//!
//! Everything here is in-memory logic. The file system, the worker thread
//! and the wall clock stay with the caller: the core says which side owes a
//! disk write, and hands its bytes out.

use vstd::prelude::*;

use crate::buffer::{DoubleBuffer, Side};
use crate::chunk;
use crate::chunk::ChunkError;
use crate::codec::{spec_enc_record, AccumulationEncoder, EncodingError};
use crate::compress::{CompressOp, CompressionError, ZstdCompressor};
use crate::encrypt::{EncryptionError, Encryptor};
use crate::record::Record;
use crate::runloop::RunloopError;
use crate::time::{local_civil_parts, spec_check_match, CivilParts, DateTime, TimeDimension};

verus! {

/// The error type for the logger's write path.
#[derive(Clone, PartialEq, Eq, Debug)]
pub enum LoggerError {
    /// An encoding failure.
    Encode(EncodingError),
    /// A compression failure.
    Compress(CompressionError),
    /// An encryption failure.
    Encrypt(EncryptionError),
    /// A chunk framing failure.
    Chunk(ChunkError),
    /// An event sent to a stopped IO runloop.
    IoRunloop(RunloopError),
}

/// Represents the logger context: what identifies and parameterizes one
/// logger instance, shared between the core and the IO worker.
pub struct Context {
    /// The per-instance ephemeral public key, embedded in every chunk.
    pub pub_key: Vec<u8>,
    /// The chunk rotation dimension.
    pub rotation: TimeDimension,
}

impl Context {
    /// Constructs a new `Context`.
    pub fn new(pub_key: Vec<u8>, rotation: TimeDimension) -> (r: Context)
        ensures
            r.pub_key@ == pub_key@,
            r.rotation == rotation,
    {
        Context { pub_key, rotation }
    }

    /// Time dimension for chunk rotation.
    pub fn chunk_dimension(&self) -> (r: TimeDimension)
        ensures
            r == self.rotation,
    {
        self.rotation
    }

    /// Time dimension for log file rotation: the coarser bucket that groups
    /// this context's chunks into files.
    pub fn file_dimension(&self) -> (r: TimeDimension)
        ensures
            r == crate::time::spec_file_dimension(self.rotation),
    {
        self.rotation.file_dimension()
    }
}

/// Operation for the core and its processor.
pub enum Operation<'a> {
    /// Ingest one record.
    Input(&'a Record),
    /// Seal the current chunk and send it to disk.
    Rotate,
    /// Drain a chunk recovered from a crash, marking it written-back.
    Writeback,
}

/// The write-path processor: encodes a record, streams it through the
/// optional compressor and the optional encryptor, and appends whatever
/// comes out to the chunk on the given region.
pub struct Processor {
    /// The record encoder.
    pub encoder: AccumulationEncoder,
    /// The optional streaming compressor.
    pub compressor: Option<ZstdCompressor>,
    /// The optional streaming encryptor.
    pub encryptor: Option<Encryptor>,
}

impl Processor {
    /// Well-formedness: the encryptor, when there is one, is well formed.
    pub open spec fn wf(&self) -> bool {
        match self.encryptor {
            Some(e) => e.wf(),
            None => true,
        }
    }

    /// Whether the pipeline passes bytes through unchanged: no compressor
    /// and no encryptor.
    pub open spec fn is_passthrough(&self) -> bool {
        self.compressor is None && self.encryptor is None
    }

    /// What compressing `bytes` and flushing stages for the chunk, together
    /// with the compressor's resulting history: the emitted delta of the two
    /// steps, or the bytes themselves without a compressor; nothing when the
    /// library rejects a step.
    pub open spec fn spec_stage(&self, steps: Seq<(CompressOp, Seq<u8>)>, bytes: Seq<u8>) -> Option<
        Seq<u8>,
    > {
        match self.compressor {
            None => Some(bytes),
            Some(c) => {
                let h2 = c.spec_history() + steps;
                if forall|i: int|
                    0 < i <= steps.len() ==> #[trigger] crate::compress::zstd_accepts(
                        c.spec_level(),
                        c.spec_history() + steps.take(i),
                    ) {
                    Some(
                        crate::compress::zstd_emitted(c.spec_level(), h2).skip(
                            crate::compress::zstd_emitted(
                                c.spec_level(),
                                c.spec_history(),
                            ).len() as int,
                        ),
                    )
                } else {
                    None
                }
            },
        }
    }

    /// What the cipher appends to the chunk for staged bytes: the cipher
    /// blocks the bytes complete, or the bytes themselves without an
    /// encryptor.
    pub open spec fn spec_sealed_delta(&self, staged: Seq<u8>) -> Seq<u8> {
        match self.encryptor {
            None => staged,
            Some(e) => crate::encrypt::spec_ecb_encrypt(
                e.spec_key(),
                e.spec_processed() + staged,
            ).skip(
                crate::encrypt::spec_ecb_encrypt(e.spec_key(), e.spec_processed()).len() as int,
            ),
        }
    }

    /// What sealing appends to the chunk beyond the staged bytes: the final
    /// PKCS#7-padded cipher block, or nothing without an encryptor.
    pub open spec fn spec_final_block(&self, staged: Seq<u8>) -> Seq<u8> {
        match self.encryptor {
            None => Seq::empty(),
            Some(e) => {
                let data = e.spec_processed() + staged;
                crate::encrypt::spec_enc_block(
                    e.spec_key(),
                    crate::encrypt::spec_pad_block(
                        data.skip(crate::encrypt::spec_whole_len(data.len() as int)),
                    ),
                )
            },
        }
    }

    /// Constructs a new `Processor`.
    pub fn new(compressor: Option<ZstdCompressor>, encryptor: Option<Encryptor>) -> (r: Processor)
        requires
            encryptor matches Some(e) ==> e.wf(),
        ensures
            r.wf(),
            r.is_passthrough() == (compressor is None && encryptor is None),
    {
        Processor { encoder: AccumulationEncoder::new(256), compressor, encryptor }
    }

    /// Processes one operation against the chunk on the region at `off`.
    ///
    /// `Input` encodes the record, stages it through the compressor — an
    /// input step and a flush step — runs the staged bytes through the
    /// cipher, appends whatever whole blocks that completes to the chunk,
    /// and stamps the record's datetime as the chunk's end. `Rotate` seals
    /// the pipeline: the compressor's end step, then the cipher's final
    /// padded block. `Writeback` does nothing, the payload being sealed
    /// ciphertext from a previous run. In every configuration the appended
    /// bytes are pinned — to the named compressor results and the cipher
    /// model, or to the record's encoding itself when the pipeline passes
    /// bytes through — the append succeeds exactly when they fit the
    /// chunk's capacity, and a compressor rejection is returned with the
    /// memory untouched.
    #[verifier::rlimit(100)]
    pub fn process(
        &mut self,
        op: Operation,
        mem: &mut Vec<u8>,
        off: usize,
        len: usize,
    ) -> (r: Result<(), LoggerError>)
        requires
            old(self).wf(),
            chunk::chunk_region(old(mem)@, off as int, len as int),
            chunk::spec_chunk_valid(chunk::region_of(old(mem)@, off as int, len as int)),
        ensures
            final(self).wf(),
            final(self).is_passthrough() == old(self).is_passthrough(),
            chunk::chunk_region(final(mem)@, off as int, len as int),
            chunk::spec_chunk_valid(chunk::region_of(final(mem)@, off as int, len as int)),
            chunk::frame_outside(old(mem)@, final(mem)@, off as int, len as int),
            ({
                let region = chunk::region_of(old(mem)@, off as int, len as int);
                let new_region = chunk::region_of(final(mem)@, off as int, len as int);
                &&& chunk::spec_chunk_magic(new_region) == chunk::spec_chunk_magic(region)
                &&& chunk::spec_chunk_version(new_region) == chunk::spec_chunk_version(region)
                &&& chunk::spec_chunk_writeback(new_region) == chunk::spec_chunk_writeback(region)
                &&& chunk::spec_chunk_start_secs(new_region) == chunk::spec_chunk_start_secs(
                    region,
                )
                &&& chunk::spec_chunk_pub_key(new_region) == chunk::spec_chunk_pub_key(region)
                &&& spec_chunk_payload_prefix(region, new_region)
                &&& (match op {
                    Operation::Input(rec) => r is Ok ==> chunk::spec_chunk_end_secs(new_region)
                        == rec@.meta.datetime.secs,
                    _ => chunk::spec_chunk_end_secs(new_region) == chunk::spec_chunk_end_secs(
                        region,
                    ),
                })
                &&& (match op {
                    Operation::Input(rec) => ({
                        let steps = seq![
                            (CompressOp::Input, spec_enc_record(rec@)),
                            (CompressOp::Flush, Seq::<u8>::empty()),
                        ];
                        match old(self).spec_stage(steps, spec_enc_record(rec@)) {
                            None => (spec_is_compress_err(r) && final(mem)@ == old(mem)@ && final(self).encryptor == old(self).encryptor),
                            Some(staged) => ({
                                let appended = old(self).spec_sealed_delta(staged);
                                &&& (r is Ok <==> chunk::spec_chunk_len(region) + appended.len()
                                    <= chunk::spec_chunk_capacity(region))
                                &&& (r is Ok ==> chunk::spec_chunk_payload(new_region)
                                    == chunk::spec_chunk_payload(region) + appended)
                                &&& (r is Err ==> spec_is_overflow_err(r) && final(mem)@ == old(
                                    mem,
                                )@)
                                &&& spec_cipher_advanced(*old(self), *final(self), staged)
                            }),
                        }
                    }),
                    Operation::Rotate => ({
                        let steps = seq![(CompressOp::End, Seq::<u8>::empty())];
                        match old(self).spec_stage(steps, Seq::empty()) {
                            None => (spec_is_compress_err(r) && final(mem)@ == old(mem)@ && final(self).encryptor == old(self).encryptor),
                            Some(staged) => ({
                                let appended = old(self).spec_sealed_delta(staged) + old(
                                    self,
                                ).spec_final_block(staged);
                                &&& (r is Ok <==> chunk::spec_chunk_len(region) + appended.len()
                                    <= chunk::spec_chunk_capacity(region))
                                &&& (r is Ok ==> chunk::spec_chunk_payload(new_region)
                                    == chunk::spec_chunk_payload(region) + appended)
                                &&& (r is Err ==> spec_is_overflow_err(r) && final(mem)@ == old(
                                    mem,
                                )@)
                                &&& (old(self).is_passthrough() ==> r is Ok && new_region
                                    == region)
                                &&& spec_cipher_reset(*old(self), *final(self))
                            }),
                        }
                    }),
                    Operation::Writeback => r is Ok && new_region == region && *final(self)
                        == *old(self),
                })
            }),
    {
        let ghost region = chunk::region_of(old(mem)@, off as int, len as int);
        proof {
            assert(chunk::spec_chunk_payload(region).take(chunk::spec_chunk_len(region) as int)
                =~= chunk::spec_chunk_payload(region));
        }
        match op {
            Operation::Writeback => Ok(()),
            Operation::Input(record) => {
                let mut encoded: Vec<u8> = Vec::new();
                self.encoder.encode(record, &mut encoded);
                proof {
                    assert(encoded@ =~= spec_enc_record(record@));
                }
                let ghost steps = seq![
                    (CompressOp::Input, spec_enc_record(record@)),
                    (CompressOp::Flush, Seq::<u8>::empty()),
                ];
                let staged: Vec<u8> = match &mut self.compressor {
                    None => encoded,
                    Some(c) => {
                        let ghost h0 = c.spec_history();
                        let mut a = match c.compress(CompressOp::Input, encoded.as_slice()) {
                            Ok(v) => v,
                            Err(e) => {
                                proof {
                                    assert(h0 + steps.take(1) =~~= h0.push(
                                        (CompressOp::Input, spec_enc_record(record@)),
                                    ));
                                    assert(old(self).spec_stage(
                                        steps,
                                        spec_enc_record(record@),
                                    ) is None);
                                    assert(chunk::region_of(mem@, off as int, len as int)
                                        =~= region);
                                }
                                return Err(LoggerError::Compress(e));
                            },
                        };
                        proof {
                            assert(h0 + steps.take(1) =~~= h0.push(
                                (CompressOp::Input, spec_enc_record(record@)),
                            ));
                        }
                        let empty_in: &[u8] = &[];
                        proof {
                            assert(empty_in@ =~= Seq::<u8>::empty());
                        }
                        let b = match c.compress(CompressOp::Flush, empty_in) {
                            Ok(v) => v,
                            Err(e) => {
                                proof {
                                    assert(h0 + steps.take(2) =~~= h0.push(
                                        (CompressOp::Input, spec_enc_record(record@)),
                                    ).push((CompressOp::Flush, Seq::<u8>::empty())));
                                    assert(!crate::compress::zstd_accepts(
                                        old(self).compressor->Some_0.spec_level(),
                                        h0 + steps.take(2),
                                    ));
                                    assert(old(self).spec_stage(
                                        steps,
                                        spec_enc_record(record@),
                                    ) is None);
                                    assert(chunk::region_of(mem@, off as int, len as int)
                                        =~= region);
                                }
                                return Err(LoggerError::Compress(e));
                            },
                        };
                        proof {
                            assert(h0 + steps.take(2) =~~= h0.push(
                                (CompressOp::Input, spec_enc_record(record@)),
                            ).push((CompressOp::Flush, Seq::<u8>::empty())));
                            assert(h0 + steps =~~= h0 + steps.take(2));
                        }
                        let ghost a0 = a@;
                        crate::common::append_bytes(&mut a, b.as_slice());
                        proof {
                            let l = c.spec_level();
                            let h2 = h0 + steps;
                            assert(crate::compress::zstd_emitted(l, c.spec_history())
                                == crate::compress::zstd_emitted(l, h2));
                            assert((crate::compress::zstd_emitted(l, h0) + a0) + b@
                                =~= crate::compress::zstd_emitted(l, h0) + (a0 + b@));
                            assert(crate::compress::zstd_emitted(l, h2).skip(
                                crate::compress::zstd_emitted(l, h0).len() as int,
                            ) =~= a0 + b@);
                            assert(a@ =~= a0 + b@);
                            assert forall|i: int|
                                0 < i <= steps.len() implies #[trigger] crate::compress::zstd_accepts(
                                l,
                                h0 + steps.take(i),
                            ) by {
                                if i == 1 {
                                    assert(h0 + steps.take(1) =~~= h0.push(
                                        (CompressOp::Input, spec_enc_record(record@)),
                                    ));
                                } else {
                                    assert(h0 + steps.take(2) =~~= h2);
                                }
                            }
                            assert(old(self).spec_stage(steps, spec_enc_record(record@))
                                == Some(a@));
                        }
                        a
                    },
                };
                proof {
                    if old(self).compressor is None {
                        assert(old(self).spec_stage(steps, spec_enc_record(record@)) == Some(
                            staged@,
                        ));
                    }
                }
                let ghost staged_view = staged@;
                let sealed: Vec<u8> = match &mut self.encryptor {
                    None => staged,
                    Some(e) => {
                        let mut v: Vec<u8> = Vec::new();
                        e.input(staged.as_slice(), &mut v);
                        v
                    },
                };
                match chunk::chunk_write(mem, off, len, sealed.as_slice()) {
                    Ok(()) => {
                        chunk::chunk_set_end(mem, off, len, record.meta().datetime().timestamp());
                        proof {
                            let new_region = chunk::region_of(mem@, off as int, len as int);
                            assert(chunk::spec_chunk_payload(new_region).take(
                                chunk::spec_chunk_len(region) as int,
                            ) =~= chunk::spec_chunk_payload(region));
                        }
                        Ok(())
                    },
                    Err(ChunkError::Overflow) => Err(LoggerError::Chunk(ChunkError::Overflow)),
                }
            },
            Operation::Rotate => {
                let ghost steps = seq![(CompressOp::End, Seq::<u8>::empty())];
                let staged: Vec<u8> = match &mut self.compressor {
                    None => Vec::new(),
                    Some(c) => {
                        let ghost h0 = c.spec_history();
                        let empty_in: &[u8] = &[];
                        proof {
                            assert(empty_in@ =~= Seq::<u8>::empty());
                        }
                        match c.compress(CompressOp::End, empty_in) {
                            Ok(v) => {
                                proof {
                                    assert(h0 + steps.take(1) =~~= h0.push(
                                        (CompressOp::End, Seq::<u8>::empty()),
                                    ));
                                    assert(h0 + steps =~~= h0 + steps.take(1));
                                    let l = c.spec_level();
                                    let h2 = h0 + steps;
                                    assert(crate::compress::zstd_emitted(l, c.spec_history())
                                        == crate::compress::zstd_emitted(l, h2));
                                    assert(crate::compress::zstd_emitted(l, h2).skip(
                                        crate::compress::zstd_emitted(l, h0).len() as int,
                                    ) =~= v@);
                                    assert forall|i: int|
                                        0 < i <= steps.len() implies #[trigger] crate::compress::zstd_accepts(
                                        l,
                                        h0 + steps.take(i),
                                    ) by {
                                        assert(h0 + steps.take(1) =~~= h2);
                                    }
                                    assert(old(self).spec_stage(steps, Seq::empty()) == Some(
                                        v@,
                                    ));
                                }
                                v
                            },
                            Err(e) => {
                                proof {
                                    assert(h0 + steps.take(1) =~~= h0.push(
                                        (CompressOp::End, Seq::<u8>::empty()),
                                    ));
                                    assert(!crate::compress::zstd_accepts(
                                        old(self).compressor->Some_0.spec_level(),
                                        h0 + steps.take(1),
                                    ));
                                    assert(old(self).spec_stage(steps, Seq::empty()) is None);
                                    assert(chunk::region_of(mem@, off as int, len as int)
                                        =~= region);
                                }
                                return Err(LoggerError::Compress(e));
                            },
                        }
                    },
                };
                proof {
                    if old(self).compressor is None {
                        assert(staged@ =~= Seq::<u8>::empty());
                        assert(old(self).spec_stage(steps, Seq::empty()) == Some(staged@));
                    }
                }
                let ghost staged_view = staged@;
                let sealed: Option<Vec<u8>> = match &mut self.encryptor {
                    None => {
                        if staged.len() == 0 {
                            None
                        } else {
                            Some(staged)
                        }
                    },
                    Some(e) => {
                        let mut v: Vec<u8> = Vec::new();
                        e.input(staged.as_slice(), &mut v);
                        e.flush(&mut v);
                        Some(v)
                    },
                };
                match sealed {
                    None => {
                        proof {
                            assert(chunk::region_of(mem@, off as int, len as int) =~= region);
                            assert(chunk::spec_chunk_payload(region) + Seq::<u8>::empty()
                                =~= chunk::spec_chunk_payload(region));
                        }
                        Ok(())
                    },
                    Some(v) => {
                        match chunk::chunk_write(mem, off, len, v.as_slice()) {
                            Ok(()) => {
                                proof {
                                    let new_region = chunk::region_of(
                                        mem@,
                                        off as int,
                                        len as int,
                                    );
                                    assert(chunk::spec_chunk_payload(new_region).take(
                                        chunk::spec_chunk_len(region) as int,
                                    ) =~= chunk::spec_chunk_payload(region));
                                    if old(self).encryptor is None {
                                        assert(v@ + Seq::<u8>::empty() =~= v@);
                                    }
                                }
                                Ok(())
                            },
                            Err(ChunkError::Overflow) => Err(
                                LoggerError::Chunk(ChunkError::Overflow),
                            ),
                        }
                    },
                }
            },
        }
    }
}

/// Whether a result is a compressor rejection.
pub open spec fn spec_is_compress_err(r: Result<(), LoggerError>) -> bool {
    match r {
        Err(LoggerError::Compress(c)) => true,
        _ => false,
    }
}

/// Whether a result is the chunk overflow error.
pub open spec fn spec_is_overflow_err(r: Result<(), LoggerError>) -> bool {
    match r {
        Err(LoggerError::Chunk(ChunkError::Overflow)) => true,
        _ => false,
    }
}

/// The cipher consumed the staged bytes: same key, processed stream extended
/// by them; or there is no cipher on either side.
pub open spec fn spec_cipher_advanced(pre: Processor, post: Processor, staged: Seq<u8>) -> bool {
    match post.encryptor {
        Some(e2) => (pre.encryptor matches Some(e1) && e2.spec_key() == e1.spec_key()
            && e2.spec_processed() == e1.spec_processed() + staged),
        None => pre.encryptor is None,
    }
}

/// The cipher was sealed: same key, processed stream reset; or there is no
/// cipher on either side.
pub open spec fn spec_cipher_reset(pre: Processor, post: Processor) -> bool {
    match post.encryptor {
        Some(e2) => (pre.encryptor matches Some(e1) && e2.spec_key() == e1.spec_key()
            && e2.spec_processed() == Seq::<u8>::empty()),
        None => pre.encryptor is None,
    }
}

/// The old payload is a prefix of the new one.
pub open spec fn spec_chunk_payload_prefix(region: Seq<u8>, new_region: Seq<u8>) -> bool {
    &&& chunk::spec_chunk_len(new_region) >= chunk::spec_chunk_len(region)
    &&& chunk::spec_chunk_payload(new_region).take(chunk::spec_chunk_len(region) as int)
        == chunk::spec_chunk_payload(region)
}


/// The core logger: owns the double buffer's input side, the write pipeline
/// and the rotation policy. The caller runs it under its own lock, performs
/// the wall-clock reads and the disk writes, and drives the IO worker with
/// what [`Core::take_output_chunk`] hands out.
pub struct Core {
    /// The logger context.
    pub context: Context,
    /// The double buffer over the backing region.
    pub buffer: DoubleBuffer,
    /// The side whose chunk the core fills.
    pub input_side: Side,
    /// The write pipeline.
    pub processor: Processor,
}

impl Core {
    /// The byte region of the side the core fills.
    pub open spec fn input_region(&self) -> Seq<u8> {
        chunk::region_of(
            self.buffer.mem@,
            self.buffer.spec_side_offset(self.input_side),
            self.buffer.spec_side_len(),
        )
    }

    /// The byte region of the other side, which the IO worker drains.
    pub open spec fn output_region(&self) -> Seq<u8> {
        chunk::region_of(
            self.buffer.mem@,
            self.buffer.spec_side_offset(crate::buffer::spec_opposite(self.input_side)),
            self.buffer.spec_side_len(),
        )
    }

    /// Well-formedness: the buffer's header is valid, each side holds at
    /// least a chunk header and is addressable, the key has its length, the
    /// pipeline is well formed, and both sides hold valid chunks.
    pub open spec fn wf(&self) -> bool {
        &&& self.buffer.wf()
        &&& self.buffer.spec_side_len() >= chunk::HEADER_LEN
        &&& self.buffer.spec_side_len() - chunk::HEADER_LEN <= u32::MAX
        &&& self.context.pub_key@.len() == chunk::PUBLIC_KEY_LEN
        &&& self.processor.wf()
        &&& chunk::spec_chunk_valid(self.input_region())
        &&& chunk::spec_chunk_valid(self.output_region())
    }

    /// Wraps a backing region into a running core: lays the double buffer
    /// over it and, when either side does not hold a valid chunk — as after
    /// a fresh start or a reconfiguration — initializes both sides empty at
    /// the current time. A region whose header and both side chunks are
    /// valid — as one recovered after a crash — is preserved byte for byte.
    pub fn new(
        context: Context,
        compressor: Option<ZstdCompressor>,
        encryptor: Option<Encryptor>,
        memory: Vec<u8>,
    ) -> (r: Core)
        requires
            memory@.len() >= crate::buffer::BUFFER_HEADER_LEN + 2 * chunk::HEADER_LEN,
            (memory@.len() - crate::buffer::BUFFER_HEADER_LEN) / 2 - chunk::HEADER_LEN
                <= u32::MAX,
            context.pub_key@.len() == chunk::PUBLIC_KEY_LEN,
            encryptor matches Some(e) ==> e.wf(),
        ensures
            r.wf(),
            r.context == context,
            r.input_side == crate::buffer::Side::Left,
            r.buffer.spec_side_len() == (memory@.len() - crate::buffer::BUFFER_HEADER_LEN) / 2,
            ({
                let prior = crate::buffer::DoubleBuffer { mem: memory };
                let side_len = prior.spec_side_len();
                let in_off = if prior.header_valid() {
                    prior.spec_side_offset(crate::buffer::Side::Left)
                } else {
                    crate::buffer::BUFFER_HEADER_LEN as int
                };
                let out_off = if prior.header_valid() {
                    prior.spec_side_offset(crate::buffer::Side::Right)
                } else {
                    crate::buffer::BUFFER_HEADER_LEN + side_len
                };
                let both_valid = chunk::spec_chunk_valid(
                    chunk::region_of(memory@, in_off, side_len),
                ) && chunk::spec_chunk_valid(chunk::region_of(memory@, out_off, side_len));
                &&& (prior.header_valid() && both_valid ==> r.buffer.mem@ == memory@)
                &&& (!both_valid ==> ({
                    let i = r.input_region();
                    let o = r.output_region();
                    &&& chunk::spec_chunk_len(i) == 0 && chunk::spec_chunk_len(o) == 0
                    &&& !chunk::spec_chunk_writeback(i) && !chunk::spec_chunk_writeback(o)
                    &&& chunk::spec_chunk_pub_key(i) == context.pub_key@
                    &&& chunk::spec_chunk_pub_key(o) == context.pub_key@
                    &&& chunk::spec_chunk_start_secs(i) == chunk::spec_chunk_end_secs(i)
                    &&& chunk::spec_chunk_start_secs(o) == chunk::spec_chunk_end_secs(o)
                    &&& chunk::spec_chunk_start_secs(i) == chunk::spec_chunk_start_secs(o)
                }))
            }),
    {
        let ghost prior = crate::buffer::DoubleBuffer { mem: memory };
        let buffer = DoubleBuffer::new(memory);
        let processor = Processor::new(compressor, encryptor);
        let mut core = Core { context, buffer, input_side: Side::Left, processor };
        let len = core.buffer.side_len();
        let in_off = core.buffer.side_offset(Side::Left);
        let out_off = core.buffer.side_offset(Side::Right);
        proof {
            crate::buffer::lemma_sides_disjoint(core.buffer);
        }
        proof {
            let side_len = prior.spec_side_len();
            if prior.header_valid() {
                assert(core.buffer.mem@ == memory@);
            } else {
                assert(core.buffer.spec_side_offset(crate::buffer::Side::Left)
                    == crate::buffer::BUFFER_HEADER_LEN as int);
                assert(core.buffer.spec_side_offset(crate::buffer::Side::Right)
                    == crate::buffer::BUFFER_HEADER_LEN + side_len);
                assert(chunk::region_of(
                    core.buffer.mem@,
                    crate::buffer::BUFFER_HEADER_LEN as int,
                    side_len,
                ) =~= chunk::region_of(memory@, crate::buffer::BUFFER_HEADER_LEN as int, side_len));
                assert(chunk::region_of(
                    core.buffer.mem@,
                    crate::buffer::BUFFER_HEADER_LEN + side_len,
                    side_len,
                ) =~= chunk::region_of(
                    memory@,
                    crate::buffer::BUFFER_HEADER_LEN + side_len,
                    side_len,
                ));
            }
        }
        let input_ok = chunk::chunk_validate(&core.buffer.mem, in_off, len);
        let output_ok = chunk::chunk_validate(&core.buffer.mem, out_off, len);
        if !(input_ok && output_ok) {
            let now = DateTime::now();
            let ghost pre = core.buffer;
            chunk::chunk_initialize(
                &mut core.buffer.mem,
                in_off,
                len,
                now.timestamp(),
                core.context.pub_key.as_slice(),
            );
            proof {
                crate::buffer::lemma_header_preserved(
                    pre.mem@,
                    core.buffer.mem@,
                    in_off as int,
                    chunk::HEADER_LEN as int,
                );
                assert(core.buffer.spec_magic_bytes() =~= core.buffer.mem@.subrange(0, 4));
                assert(chunk::region_of(core.buffer.mem@, out_off as int, len as int)
                    =~= chunk::region_of(pre.mem@, out_off as int, len as int));
            }
            let ghost pre2 = core.buffer;
            chunk::chunk_initialize(
                &mut core.buffer.mem,
                out_off,
                len,
                now.timestamp(),
                core.context.pub_key.as_slice(),
            );
            proof {
                crate::buffer::lemma_header_preserved(
                    pre2.mem@,
                    core.buffer.mem@,
                    out_off as int,
                    chunk::HEADER_LEN as int,
                );
                assert(chunk::region_of(core.buffer.mem@, in_off as int, len as int)
                    =~= chunk::region_of(pre2.mem@, in_off as int, len as int));
            }
        }
        core
    }

    /// Evaluates one operation against the input-side chunk, as the logger's
    /// per-operation logic asks:
    ///
    /// `Rotate` always seals and drains; `Writeback` drains only when the
    /// chunk holds a payload, first raising its writeback flag; `Input`
    /// drains first — as a rotation — exactly when the chunk is almost full
    /// or the record's datetime leaves the chunk's bucket, and then feeds the
    /// record through the pipeline. Whenever a drain leaves bytes in the
    /// chunk, the buffer is switched — the result's flag then tells the
    /// caller that the IO worker owes a disk write — and the input side is
    /// re-initialized at the record's datetime, or at the current time when
    /// no record drove the operation.
    ///
    /// When no error is reported and the operation is `Input`, the input
    /// chunk afterwards ends at the record's datetime; its start is either
    /// unchanged (no rotation) or the record's datetime itself (rotation),
    /// and in the latter case the sealed chunk that moved to the output side
    /// kept its time range. With monotone record datetimes this keeps every
    /// chunk's range ordered, and successive chunks' ranges non-overlapping.
    #[verifier::rlimit(100)]
    pub fn on(&mut self, op: Operation) -> (r: (bool, Vec<LoggerError>))
        requires
            old(self).wf(),
        ensures
            final(self).wf(),
            final(self).context == old(self).context,
            final(self).buffer.spec_side_len() == old(self).buffer.spec_side_len(),
            ({
                let pre = chunk::region_of(
                    old(self).buffer.mem@,
                    old(self).buffer.spec_side_offset(old(self).input_side),
                    old(self).buffer.spec_side_len(),
                );
                let post = final(self).input_region();
                match op {
                    Operation::Input(rec) => r.1@.len() == 0 ==> ({
                        &&& chunk::spec_chunk_end_secs(post) == rec@.meta.datetime.secs
                        &&& (chunk::spec_chunk_start_secs(post) == chunk::spec_chunk_start_secs(
                            pre,
                        ) || chunk::spec_chunk_start_secs(post) == rec@.meta.datetime.secs)
                        &&& (r.0 ==> chunk::spec_chunk_start_secs(post)
                            == rec@.meta.datetime.secs && chunk::spec_chunk_start_secs(
                            final(self).output_region(),
                        ) == chunk::spec_chunk_start_secs(pre) && chunk::spec_chunk_end_secs(
                            final(self).output_region(),
                        ) == chunk::spec_chunk_end_secs(pre))
                    }),
                    Operation::Writeback => ({
                        &&& r.1@.len() == 0
                        &&& (chunk::spec_chunk_len(pre) > 0 ==> ({
                            let out = final(self).output_region();
                            &&& r.0
                            &&& chunk::spec_chunk_writeback(out)
                            &&& chunk::spec_chunk_len(out) == chunk::spec_chunk_len(pre)
                            &&& chunk::spec_chunk_payload(out) == chunk::spec_chunk_payload(pre)
                            &&& chunk::spec_chunk_start_secs(out) == chunk::spec_chunk_start_secs(
                                pre,
                            )
                            &&& chunk::spec_chunk_end_secs(out) == chunk::spec_chunk_end_secs(pre)
                            &&& chunk::spec_chunk_pub_key(out) == chunk::spec_chunk_pub_key(pre)
                        }))
                        &&& (chunk::spec_chunk_len(pre) == 0 ==> !r.0 && final(self).buffer.mem@
                            == old(self).buffer.mem@)
                    }),
                    _ => true,
                }
            }),
            !r.0 ==> final(self).output_region() == old(self).output_region(),
            r.1@.len() == 0 && r.0 ==> chunk::spec_chunk_pub_key(final(self).input_region())
                == old(self).context.pub_key@ && !chunk::spec_chunk_writeback(
                final(self).input_region(),
            ),
            ({
                let pre = chunk::region_of(
                    old(self).buffer.mem@,
                    old(self).buffer.spec_side_offset(old(self).input_side),
                    old(self).buffer.spec_side_len(),
                );
                let capacity = old(self).buffer.spec_side_len() - chunk::HEADER_LEN;
                &&& (match op {
                    Operation::Input(rec) => (old(self).processor.is_passthrough()
                        && chunk::spec_chunk_len(pre) + spec_enc_record(rec@).len() <= capacity)
                        ==> r.1@.len() == 0,
                    _ => true,
                })
                &&& (match op {
                    Operation::Input(rec) => (r.1@.len() == 0 && 5 * chunk::spec_chunk_len(pre)
                        >= 4 * capacity) ==> chunk::spec_chunk_start_secs(
                        final(self).input_region(),
                    ) == rec@.meta.datetime.secs,
                    _ => true,
                })
                &&& ((r.1@.len() == 0 && r.0 && !(op matches Operation::Input(rec)))
                    ==> chunk::spec_chunk_start_secs(final(self).input_region())
                    == chunk::spec_chunk_end_secs(final(self).input_region()))
            }),
    {
        let len = self.buffer.side_len();
        let off = self.buffer.side_offset(self.input_side);
        proof {
            crate::buffer::lemma_sides_disjoint(self.buffer);
        }
        let mut errs: Vec<LoggerError> = Vec::new();
        let mut needs_io = false;
        let ghost pre_core = *self;

        let write_op: Option<Operation> = match op {
            Operation::Rotate => Some(Operation::Rotate),
            Operation::Writeback => {
                if chunk::chunk_payload_len(&self.buffer.mem, off, len) > 0 {
                    let ghost pre = self.buffer;
                    chunk::chunk_set_writeback(&mut self.buffer.mem, off, len);
                    proof {
                        crate::buffer::lemma_header_preserved(
                            pre.mem@,
                            self.buffer.mem@,
                            off as int,
                            len as int,
                        );
                        assert(chunk::region_of(
                            self.buffer.mem@,
                            self.buffer.spec_side_offset(
                                crate::buffer::spec_opposite(self.input_side),
                            ),
                            len as int,
                        ) =~= pre_core.output_region());
                    }
                    Some(Operation::Writeback)
                } else {
                    None
                }
            },
            Operation::Input(record) => {
                let almost_full = chunk::chunk_is_almost_full(&self.buffer.mem, off, len);
                let start = chunk::chunk_start_secs(&self.buffer.mem, off, len);
                let start_parts = local_civil_parts(start);
                let record_parts = local_civil_parts(record.meta().datetime().timestamp());
                if chunk_rotation_due(
                    almost_full,
                    self.context.chunk_dimension(),
                    &start_parts,
                    &record_parts,
                ) {
                    Some(Operation::Rotate)
                } else {
                    None
                }
            },
        };

        match write_op {
            None => {},
            Some(w) => {
                let ghost pre = self.buffer;
                match self.processor.process(w, &mut self.buffer.mem, off, len) {
                    Ok(()) => {},
                    Err(e) => {
                        errs.push(e);
                    },
                }
                proof {
                    crate::buffer::lemma_header_preserved(
                        pre.mem@,
                        self.buffer.mem@,
                        off as int,
                        len as int,
                    );
                    assert(chunk::region_of(
                        self.buffer.mem@,
                        self.buffer.spec_side_offset(
                            crate::buffer::spec_opposite(self.input_side),
                        ),
                        len as int,
                    ) =~= chunk::region_of(
                        pre.mem@,
                        pre.spec_side_offset(crate::buffer::spec_opposite(self.input_side)),
                        len as int,
                    ));
                }
                if chunk::chunk_payload_len(&self.buffer.mem, off, len) > 0 {
                    self.buffer.switch();
                    needs_io = true;
                    proof {
                        assert(crate::buffer::spec_opposite(
                            crate::buffer::spec_opposite(self.input_side),
                        ) == self.input_side);
                    }
                }
                let new_off = self.buffer.side_offset(self.input_side);
                let datetime: DateTime = match op {
                    Operation::Input(record) => record.meta().datetime(),
                    _ => DateTime::now(),
                };
                let ghost pre2 = self.buffer;
                chunk::chunk_initialize(
                    &mut self.buffer.mem,
                    new_off,
                    len,
                    datetime.timestamp(),
                    self.context.pub_key.as_slice(),
                );
                proof {
                    crate::buffer::lemma_header_preserved(
                        pre2.mem@,
                        self.buffer.mem@,
                        new_off as int,
                        chunk::HEADER_LEN as int,
                    );
                    crate::buffer::lemma_sides_disjoint(self.buffer);
                    assert(chunk::region_of(
                        self.buffer.mem@,
                        self.buffer.spec_side_offset(
                            crate::buffer::spec_opposite(self.input_side),
                        ),
                        len as int,
                    ) =~= chunk::region_of(
                        pre2.mem@,
                        pre2.spec_side_offset(crate::buffer::spec_opposite(self.input_side)),
                        len as int,
                    ));
                }
            },
        }

        if let Operation::Input(record) = op {
            let off2 = self.buffer.side_offset(self.input_side);
            let ghost pre3 = self.buffer;
            match self.processor.process(
                Operation::Input(record),
                &mut self.buffer.mem,
                off2,
                len,
            ) {
                Ok(()) => {},
                Err(e) => {
                    errs.push(e);
                },
            }
            proof {
                crate::buffer::lemma_header_preserved(
                    pre3.mem@,
                    self.buffer.mem@,
                    off2 as int,
                    len as int,
                );
                assert(chunk::region_of(
                    self.buffer.mem@,
                    self.buffer.spec_side_offset(crate::buffer::spec_opposite(self.input_side)),
                    len as int,
                ) =~= chunk::region_of(
                    pre3.mem@,
                    pre3.spec_side_offset(crate::buffer::spec_opposite(self.input_side)),
                    len as int,
                ));
            }
        }
        (needs_io, errs)
    }

    /// Hands out the output-side chunk when it owes a disk write: its start
    /// datetime and its bytes — header plus payload — clearing the chunk.
    /// Returns nothing when the output side is empty.
    pub fn take_output_chunk(&mut self) -> (r: Option<(i64, Vec<u8>)>)
        requires
            old(self).wf(),
        ensures
            final(self).wf(),
            final(self).context == old(self).context,
            match r {
                None => *final(self) == *old(self) && chunk::spec_chunk_len(
                    old(self).output_region(),
                ) == 0,
                Some((secs, bytes)) => ({
                    &&& chunk::spec_chunk_len(old(self).output_region()) > 0
                    &&& secs == chunk::spec_chunk_start_secs(old(self).output_region())
                    &&& bytes@ == old(self).output_region().take(
                        chunk::HEADER_LEN + chunk::spec_chunk_len(old(self).output_region()),
                    )
                    &&& chunk::spec_chunk_len(final(self).output_region()) == 0
                    &&& final(self).input_region() == old(self).input_region()
                }),
            },
    {
        match self.peek_output_chunk() {
            None => None,
            Some((secs, bytes)) => {
                self.clear_output_chunk();
                Some((secs, bytes))
            },
        }
    }

    /// Reads the output-side chunk without clearing it: its start datetime
    /// and its bytes — header plus payload — or nothing when it is empty.
    /// The chunk stays in the backing region until
    /// [`Core::clear_output_chunk`], so a crash between the read and the
    /// disk write loses nothing.
    pub fn peek_output_chunk(&self) -> (r: Option<(i64, Vec<u8>)>)
        requires
            self.wf(),
        ensures
            match r {
                None => chunk::spec_chunk_len(self.output_region()) == 0,
                Some((secs, bytes)) => ({
                    &&& chunk::spec_chunk_len(self.output_region()) > 0
                    &&& secs == chunk::spec_chunk_start_secs(self.output_region())
                    &&& bytes@ == self.output_region().take(
                        chunk::HEADER_LEN + chunk::spec_chunk_len(self.output_region()),
                    )
                }),
            },
    {
        let len = self.buffer.side_len();
        let out_side = self.input_side.not();
        let off = self.buffer.side_offset(out_side);
        proof {
            crate::buffer::lemma_sides_disjoint(self.buffer);
        }
        if chunk::chunk_payload_len(&self.buffer.mem, off, len) == 0 {
            return None;
        }
        let secs = chunk::chunk_start_secs(&self.buffer.mem, off, len);
        let bytes = chunk::chunk_bytes(&self.buffer.mem, off, len);
        Some((secs, bytes))
    }

    /// Clears the output-side chunk, once its bytes are safely on disk.
    pub fn clear_output_chunk(&mut self)
        requires
            old(self).wf(),
        ensures
            final(self).wf(),
            final(self).context == old(self).context,
            chunk::spec_chunk_len(final(self).output_region()) == 0,
            final(self).input_region() == old(self).input_region(),
    {
        let len = self.buffer.side_len();
        let out_side = self.input_side.not();
        let off = self.buffer.side_offset(out_side);
        proof {
            crate::buffer::lemma_sides_disjoint(self.buffer);
        }
        let ghost pre = self.buffer;
        chunk::chunk_clear(&mut self.buffer.mem, off, len);
        proof {
            crate::buffer::lemma_header_preserved(
                pre.mem@,
                self.buffer.mem@,
                off as int,
                len as int,
            );
            assert(chunk::region_of(
                self.buffer.mem@,
                self.buffer.spec_side_offset(self.input_side),
                len as int,
            ) =~= chunk::region_of(pre.mem@, pre.spec_side_offset(self.input_side), len as int));
        }
    }

    /// A borrow of the whole backing region, so the caller can keep a
    /// crash-persistent copy in step.
    pub fn backing(&self) -> (r: &Vec<u8>)
        ensures
            r@ == self.buffer.mem@,
    {
        &self.buffer.mem
    }
}


/// Whether an incoming record must first seal and drain the current chunk:
/// exactly when the chunk is almost full or the record's datetime, by its
/// local calendar fields, leaves the chunk's bucket at the chunk rotation
/// dimension.
pub fn chunk_rotation_due(
    almost_full: bool,
    dim: TimeDimension,
    chunk_start: &CivilParts,
    record_time: &CivilParts,
) -> (r: bool)
    ensures
        r == (almost_full || !spec_check_match(dim, *chunk_start, *record_time)),
{
    almost_full || !dim.check_match(chunk_start, record_time)
}

/// The IO worker's file-rotation state: which logfile, named by its
/// timestamp, is currently open, and the calendar fields that timestamp has
/// in local time.
pub struct Io {
    /// The chunk rotation dimension the logger runs at.
    pub rotation: TimeDimension,
    /// The open logfile's name timestamp and its local calendar fields.
    pub current_file: Option<(i64, CivilParts)>,
}

impl Io {
    /// Constructs the IO state with no file open.
    pub fn new(rotation: TimeDimension) -> (r: Io)
        ensures
            r.rotation == rotation,
            r.current_file is None,
    {
        Io { rotation, current_file: None }
    }

    /// Decides which logfile a chunk belongs to. Keeps the current file
    /// exactly when the chunk's start datetime still falls into its bucket
    /// at the file rotation dimension; otherwise closes it and opens a file
    /// named by the chunk's start datetime. Either way, the file in use
    /// afterwards matches the chunk's bucket: every chunk lands in the file
    /// of the coarser bucket containing it.
    pub fn file_for_chunk(&mut self, chunk_start_secs: i64, chunk_parts: &CivilParts) -> (r: (
        i64,
        bool,
    ))
        ensures
            final(self).rotation == old(self).rotation,
            ({
                let dim = crate::time::spec_file_dimension(old(self).rotation);
                &&& (final(self).current_file matches Some(f) && spec_check_match(
                    dim,
                    f.1,
                    *chunk_parts,
                ) && r.0 == f.0)
                &&& (match old(self).current_file {
                    Some(f0) => spec_check_match(dim, f0.1, *chunk_parts) ==> (!r.1 && r.0 == f0.0
                        && final(self).current_file == old(self).current_file),
                    None => true,
                })
                &&& (r.1 ==> final(self).current_file == Some::<(i64, CivilParts)>((
                    chunk_start_secs,
                    *chunk_parts,
                )) && r.0 == chunk_start_secs)
                &&& (match old(self).current_file {
                    Some(f0) => r.1 <==> !spec_check_match(dim, f0.1, *chunk_parts),
                    None => r.1,
                })
            }),
    {
        let dim = self.rotation.file_dimension();
        match &self.current_file {
            Some(f) => {
                if dim.check_match(&f.1, chunk_parts) {
                    (f.0, false)
                } else {
                    self.current_file = Some((chunk_start_secs, *chunk_parts));
                    (chunk_start_secs, true)
                }
            },
            None => {
                self.current_file = Some((chunk_start_secs, *chunk_parts));
                (chunk_start_secs, true)
            },
        }
    }

    /// Forgets the open file, as shutdown does.
    pub fn close(&mut self)
        ensures
            final(self).rotation == old(self).rotation,
            final(self).current_file is None,
    {
        self.current_file = None;
    }
}

/// The moment before which a logfile has outlived the given lifetime: the
/// current time minus the lifetime, saturating at the far past.
pub open spec fn spec_expiry(now_secs: i64, lifetime: u64) -> i64 {
    if now_secs - lifetime < i64::MIN {
        i64::MIN
    } else {
        (now_secs - lifetime) as i64
    }
}

/// Whether a logfile, named by its timestamp, has outlived the given
/// lifetime in seconds and is to be deleted by a trim.
pub fn should_trim(file_secs: i64, now_secs: i64, lifetime: u64) -> (r: bool)
    ensures
        r == (file_secs < spec_expiry(now_secs, lifetime)),
{
    let diff: i128 = now_secs as i128 - lifetime as i128;
    let expires: i64 = if diff < i64::MIN as i128 {
        i64::MIN
    } else {
        diff as i64
    };
    file_secs < expires
}

} // verus!
