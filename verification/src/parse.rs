//! The read path: chunk framing read back from a byte stream, and the
//! per-chunk pipeline that inverts the write path — decrypt, decompress,
//! decode — while tolerating a truncated final block from crash-recovered
//! writeback chunks.

use vstd::prelude::*;

use crate::chunk;
use crate::codec;
use crate::codec::DecodingError;
use crate::compress::{DecompressionError, ZstdDecompressor};
use crate::encrypt::{self, DecryptionError};
use crate::record::{Record, SpecRecord};

verus! {

/// Errors that can be occurred during chunk read operations.
#[derive(Clone, Copy, PartialEq, Eq, Structural, Debug)]
pub enum ReadError {
    /// The bytes at the reader's position are not a chunk header.
    Invalid,
    /// The bytes end inside a header or a payload.
    UnexpectedEnd,
}

/// A chunk header read back from a byte stream.
#[derive(Clone, Debug)]
pub struct ChunkHeader {
    /// The format version of the chunk.
    pub version: u16,
    /// The payload byte length.
    pub length: u32,
    /// Whether the chunk was recovered from a crash.
    pub writeback: bool,
    /// The start of the inclusive time range, in seconds.
    pub start_secs: i64,
    /// The end of the inclusive time range, in seconds.
    pub end_secs: i64,
    /// The per-chunk ephemeral public key.
    pub pub_key: Vec<u8>,
}

/// The header a region's first bytes hold, as a [`ChunkHeader`].
pub open spec fn spec_header_of(region: Seq<u8>, h: ChunkHeader) -> bool {
    &&& h.version == chunk::spec_chunk_version(region)
    &&& h.length == chunk::spec_chunk_len(region)
    &&& h.writeback == chunk::spec_chunk_writeback(region)
    &&& h.start_secs == chunk::spec_chunk_start_secs(region)
    &&& h.end_secs == chunk::spec_chunk_end_secs(region)
    &&& h.pub_key@ == chunk::spec_chunk_pub_key(region)
}

/// Represents a reader that walks the chunks of an in-memory byte stream.
///
/// To read a chunk, the methods are called in this order:
/// [`Reader::read_header_or_reach_to_end`], then either
/// [`Reader::read_payload`] or [`Reader::skip`]; in a loop until either an
/// error occurs or the stream ends.
pub struct Reader {
    data: Vec<u8>,
    pos: usize,
}

impl Reader {
    /// The stream being read.
    pub closed spec fn spec_data(&self) -> Seq<u8> {
        self.data@
    }

    /// The reader's position in the stream.
    pub closed spec fn spec_pos(&self) -> int {
        self.pos as int
    }

    /// Well-formedness: the position lies within the stream.
    pub closed spec fn wf(&self) -> bool {
        self.pos <= self.data@.len() <= usize::MAX
    }

    /// Construct a new `Reader` over a byte stream.
    pub fn new(data: Vec<u8>) -> (r: Reader)
        ensures
            r.wf(),
            r.spec_data() == data@,
            r.spec_pos() == 0,
    {
        let n = data.len();
        Reader { data, pos: 0 }
    }

    /// The number of bytes between the position and the end of the stream.
    fn remaining(&self) -> (r: usize)
        requires
            self.wf(),
        ensures
            r == self.spec_data().len() - self.spec_pos(),
    {
        self.data.len() - self.pos
    }

    /// Reads the chunk header at the position. Returns `Ok(None)` exactly at
    /// the end of the stream; fails with `UnexpectedEnd` when fewer than a
    /// header's worth of bytes remain, and with `Invalid` when the magic does
    /// not match. On success the position advances past the header.
    pub fn read_header_or_reach_to_end(&mut self) -> (r: Result<Option<ChunkHeader>, ReadError>)
        requires
            old(self).wf(),
        ensures
            final(self).wf(),
            final(self).spec_data() == old(self).spec_data(),
            0 <= old(self).spec_pos() <= final(self).spec_pos() <= final(self).spec_data().len(),
            ({
                let data = old(self).spec_data();
                let pos = old(self).spec_pos();
                let region = data.subrange(pos, pos + chunk::HEADER_LEN);
                match r {
                    Ok(None) => pos == data.len() && final(self).spec_pos() == pos,
                    Ok(Some(h)) => {
                        &&& data.len() - pos >= chunk::HEADER_LEN
                        &&& chunk::spec_chunk_magic(region) == chunk::CHUNK_MAGIC
                        &&& spec_header_of(region, h)
                        &&& final(self).spec_pos() == pos + chunk::HEADER_LEN
                        &&& h.pub_key@.len() == chunk::PUBLIC_KEY_LEN
                    },
                    Err(ReadError::UnexpectedEnd) => 0 < data.len() - pos < chunk::HEADER_LEN
                        && final(self).spec_pos() == pos,
                    Err(ReadError::Invalid) => data.len() - pos >= chunk::HEADER_LEN
                        && chunk::spec_chunk_magic(region) != chunk::CHUNK_MAGIC && final(self).spec_pos() == pos,
                }
            }),
    {
        let rem = self.remaining();
        if rem == 0 {
            return Ok(None);
        }
        if rem < chunk::HEADER_LEN {
            return Err(ReadError::UnexpectedEnd);
        }
        let ghost region = self.data@.subrange(self.pos as int, self.pos + chunk::HEADER_LEN);
        proof {
            assert(chunk::chunk_region(self.data@, self.pos as int, chunk::HEADER_LEN as int));
            assert(chunk::region_of(self.data@, self.pos as int, chunk::HEADER_LEN as int)
                =~= region);
        }
        let len = chunk::HEADER_LEN;
        let magic = vstd::bytes::u32_from_le_bytes(&self.data[self.pos..self.pos + 4]);
        proof {
            assert(self.data@.subrange(self.pos as int, self.pos + 4) =~= region.subrange(0, 4));
        }
        if magic != chunk::CHUNK_MAGIC {
            return Err(ReadError::Invalid);
        }
        let version = chunk::chunk_version(&self.data, self.pos, len);
        let length_usize = chunk::chunk_payload_len(&self.data, self.pos, len);
        let writeback = chunk::chunk_writeback(&self.data, self.pos, len);
        let start_secs = chunk::chunk_start_secs(&self.data, self.pos, len);
        let end_secs = chunk::chunk_end_secs(&self.data, self.pos, len);
        let pub_key = chunk::chunk_pub_key(&self.data, self.pos, len);
        let h = ChunkHeader {
            version,
            length: length_usize as u32,
            writeback,
            start_secs,
            end_secs,
            pub_key,
        };
        self.pos = self.pos + chunk::HEADER_LEN;
        Ok(Some(h))
    }

    /// Reads `len` payload bytes at the position, or fails with
    /// `UnexpectedEnd`, advancing past whatever remained, when fewer are
    /// left.
    pub fn read_payload(&mut self, len: usize) -> (r: Result<Vec<u8>, ReadError>)
        requires
            old(self).wf(),
        ensures
            final(self).wf(),
            final(self).spec_data() == old(self).spec_data(),
            ({
                let data = old(self).spec_data();
                let pos = old(self).spec_pos();
                match r {
                    Ok(v) => data.len() - pos >= len && v@ == data.subrange(pos, pos + len)
                        && final(self).spec_pos() == pos + len,
                    Err(ReadError::UnexpectedEnd) => data.len() - pos < len && final(self).spec_pos() == data.len(),
                    Err(ReadError::Invalid) => false,
                }
            }),
    {
        let rem = self.remaining();
        if rem < len {
            self.pos = self.data.len();
            return Err(ReadError::UnexpectedEnd);
        }
        let mut v: Vec<u8> = Vec::new();
        let mut i: usize = 0;
        while i < len
            invariant
                0 <= i <= len,
                self.pos + len <= self.data@.len() <= usize::MAX,
                v@ == self.data@.subrange(self.pos as int, self.pos + i),
            decreases len - i,
        {
            v.push(self.data[self.pos + i]);
            i = i + 1;
            proof {
                assert(v@ =~= self.data@.subrange(self.pos as int, self.pos + i));
            }
        }
        self.pos = self.pos + len;
        Ok(v)
    }


    /// The reader's position, as a count of consumed bytes.
    pub fn position(&self) -> (r: usize)
        requires
            self.wf(),
        ensures
            r == self.spec_pos(),
    {
        self.pos
    }

    /// The length of the stream.
    pub fn data_len(&self) -> (r: usize)
        requires
            self.wf(),
        ensures
            r == self.spec_data().len(),
    {
        self.data.len()
    }

    /// Copies the raw bytes of the range `[from, to)` out of the stream.
    pub fn raw_range(&self, from: usize, to: usize) -> (r: Vec<u8>)
        requires
            self.wf(),
            from <= to <= self.spec_data().len(),
        ensures
            r@ == self.spec_data().subrange(from as int, to as int),
    {
        let mut r: Vec<u8> = Vec::new();
        let mut i: usize = from;
        while i < to
            invariant
                from <= i <= to <= self.data@.len() <= usize::MAX,
                r@ == self.data@.subrange(from as int, i as int),
            decreases to - i,
        {
            r.push(self.data[i]);
            i = i + 1;
            proof {
                assert(r@ =~= self.data@.subrange(from as int, i as int));
            }
        }
        r
    }

    /// Skips `len` payload bytes, stopping at the end of the stream.
    pub fn skip(&mut self, len: usize)
        requires
            old(self).wf(),
        ensures
            final(self).wf(),
            final(self).spec_data() == old(self).spec_data(),
            final(self).spec_pos() == vstd::math::min(
                old(self).spec_pos() + len,
                old(self).spec_data().len() as int,
            ),
    {
        let rem = self.remaining();
        if rem < len {
            self.pos = self.data.len();
        } else {
            self.pos = self.pos + len;
        }
    }
}

// ============ The record stream ============

/// The records at the head of a byte stream: decodes records from the front
/// until the bytes run out mid-record — the consumed length then stops short
/// of the tail — or a record fails to decode, which fails the whole stream.
pub open spec fn spec_records_of(bytes: Seq<u8>) -> Result<(Seq<SpecRecord>, int), DecodingError>
    decreases bytes.len(),
{
    if bytes.len() == 0 {
        Ok((Seq::empty(), 0))
    } else {
        match codec::spec_dec_record(bytes) {
            Ok((r, n)) => if 1 <= n <= bytes.len() {
                match spec_records_of(bytes.skip(n)) {
                    Ok((rs, m)) => Ok((seq![r] + rs, n + m)),
                    Err(e) => Err(e),
                }
            } else {
                Ok((Seq::empty(), 0))
            },
            Err(DecodingError::UnexpectedEnd { extra_len }) => Ok((Seq::empty(), 0)),
            Err(e) => Err(e),
        }
    }
}

/// The record values of a sequence of records.
pub open spec fn spec_views(s: Seq<Record>) -> Seq<SpecRecord> {
    s.map_values(|r: Record| r@)
}

/// Folds records already taken off the front of a stream into the result of
/// decoding the rest.
pub open spec fn records_combine(
    rs: Seq<SpecRecord>,
    k: int,
    rest: Result<(Seq<SpecRecord>, int), DecodingError>,
) -> Result<(Seq<SpecRecord>, int), DecodingError> {
    match rest {
        Ok((rs2, m)) => Ok((rs + rs2, k + m)),
        Err(e) => Err(e),
    }
}

/// Taking one whole record off the front moves it into the accumulator.
proof fn lemma_records_step(s: Seq<u8>, k: int, rs: Seq<SpecRecord>)
    requires
        0 <= k <= s.len(),
        codec::spec_dec_record(s.skip(k)) matches Ok(t) && 1 <= t.1 <= s.len() - k,
    ensures
        ({
            let t = codec::spec_dec_record(s.skip(k))->Ok_0;
            records_combine(rs, k, spec_records_of(s.skip(k))) == records_combine(
                rs + seq![t.0],
                k + t.1,
                spec_records_of(s.skip(k + t.1)),
            )
        }),
{
    let t = codec::spec_dec_record(s.skip(k))->Ok_0;
    assert(s.skip(k).len() > 0);
    assert(s.skip(k).skip(t.1) =~= s.skip(k + t.1));
    match spec_records_of(s.skip(k + t.1)) {
        Ok((rs2, m)) => {
            assert(spec_records_of(s.skip(k)) == Ok::<_, DecodingError>((
                seq![t.0] + rs2,
                t.1 + m,
            )));
            assert(rs + (seq![t.0] + rs2) =~= (rs + seq![t.0]) + rs2);
        },
        Err(e) => {
        },
    }
}

/// The records decoded off the head of a byte stream before it stops: all
/// of them when the stream is a clean sequence of records, and the ones
/// before the failure when a record fails to decode.
pub open spec fn spec_records_partial(bytes: Seq<u8>) -> Seq<SpecRecord>
    decreases bytes.len(),
{
    if bytes.len() == 0 {
        Seq::empty()
    } else {
        match codec::spec_dec_record(bytes) {
            Ok((r, n)) => if 1 <= n <= bytes.len() {
                seq![r] + spec_records_partial(bytes.skip(n))
            } else {
                Seq::empty()
            },
            Err(e) => Seq::empty(),
        }
    }
}

/// Taking one whole record off the front moves it into the partial
/// accumulator as well.
proof fn lemma_records_partial_step(s: Seq<u8>, k: int, rs: Seq<SpecRecord>)
    requires
        0 <= k <= s.len(),
        codec::spec_dec_record(s.skip(k)) matches Ok(t) && 1 <= t.1 <= s.len() - k,
    ensures
        ({
            let t = codec::spec_dec_record(s.skip(k))->Ok_0;
            rs + spec_records_partial(s.skip(k)) == (rs + seq![t.0]) + spec_records_partial(
                s.skip(k + t.1),
            )
        }),
{
    let t = codec::spec_dec_record(s.skip(k))->Ok_0;
    assert(s.skip(k).skip(t.1) =~= s.skip(k + t.1));
    assert(rs + (seq![t.0] + spec_records_partial(s.skip(k + t.1))) =~= (rs + seq![t.0])
        + spec_records_partial(s.skip(k + t.1)));
}

/// Parses records out of an incoming byte stream: buffers the bytes, decodes
/// a record at a time, and keeps whatever tail is still waiting for more
/// bytes.
pub struct RecordParser {
    buffer: Vec<u8>,
}

impl RecordParser {
    /// The bytes received but not yet consumed by a decoded record.
    pub closed spec fn spec_buffered(&self) -> Seq<u8> {
        self.buffer@
    }

    /// Constructs a new `RecordParser`.
    pub fn new() -> (r: RecordParser)
        ensures
            r.spec_buffered() == Seq::<u8>::empty(),
    {
        RecordParser { buffer: Vec::new() }
    }

    /// Decodes every whole record at the head of the buffered bytes plus
    /// `bytes`, pushing each onto `out` in order; a trailing partial record
    /// stays buffered for the next call, and a record that fails to decode
    /// fails the call with its error.
    #[verifier::rlimit(100)]
    pub fn parse_all(&mut self, bytes: &[u8], out: &mut Vec<Record>) -> (r: Result<
        (),
        DecodingError,
    >)
        ensures
            ({
                let total = old(self).spec_buffered() + bytes@;
                match r {
                    Ok(()) => ((spec_records_of(total) matches Ok(t)) && spec_records_of(total)
                        == Ok::<_, DecodingError>((
                        spec_views(final(out)@).skip(old(out)@.len() as int),
                        total.len() - final(self).spec_buffered().len(),
                    )) && final(self).spec_buffered() == total.skip(
                        total.len() - final(self).spec_buffered().len(),
                    ) && final(out)@.len() >= old(out)@.len() && spec_views(final(out)@).take(
                        old(out)@.len() as int,
                    ) == spec_views(old(out)@)),
                    Err(e) => spec_records_of(total) == Err::<(Seq<SpecRecord>, int), _>(e),
                }
            }),
            final(out)@.len() >= old(out)@.len(),
            spec_views(final(out)@).take(old(out)@.len() as int) == spec_views(old(out)@),
            spec_views(final(out)@).skip(old(out)@.len() as int) == spec_records_partial(
                old(self).spec_buffered() + bytes@,
            ),
    {
        crate::common::append_bytes(&mut self.buffer, bytes);
        let ghost total = self.buffer@;
        let ghost out0 = out@;
        let total_len = self.buffer.len();
        let mut pos: usize = 0;
        proof {
            assert(spec_views(out@).skip(out0.len() as int) =~= Seq::<SpecRecord>::empty());
            assert(total.skip(0) =~= total);
            assert(Seq::<SpecRecord>::empty() + spec_records_partial(total)
                =~= spec_records_partial(total));
        }
        loop
            invariant
                0 <= pos <= self.buffer@.len(),
                self.buffer@ == total,
                total == old(self).spec_buffered() + bytes@,
                total.len() <= usize::MAX,
                out0 == old(out)@,
                out@.len() >= out0.len(),
                spec_views(out@).take(out0.len() as int) == spec_views(out0),
                spec_records_of(total) == records_combine(
                    spec_views(out@).skip(out0.len() as int),
                    pos as int,
                    spec_records_of(total.skip(pos as int)),
                ),
                spec_records_partial(total) == spec_views(out@).skip(out0.len() as int)
                    + spec_records_partial(total.skip(pos as int)),
            ensures
                spec_records_of(total.skip(pos as int)) == Ok::<_, DecodingError>((
                    Seq::<SpecRecord>::empty(),
                    0int,
                )),
            decreases total.len() - pos,
        {
            match codec::decode_record(&self.buffer, pos) {
                Ok((rec, np)) => {
                    proof {
                        codec::lemma_dec_record_bounds(total.skip(pos as int));
                        lemma_records_step(
                            total,
                            pos as int,
                            spec_views(out@).skip(out0.len() as int),
                        );
                        lemma_records_partial_step(
                            total,
                            pos as int,
                            spec_views(out@).skip(out0.len() as int),
                        );
                    }
                    let ghost pre_views = spec_views(out@);
                    out.push(rec);
                    pos = np;
                    proof {
                        assert(spec_views(out@) =~= pre_views + seq![rec@]);
                        assert(spec_views(out@).take(out0.len() as int) =~= pre_views.take(
                            out0.len() as int,
                        ));
                        assert(spec_views(out@).skip(out0.len() as int) =~= pre_views.skip(
                            out0.len() as int,
                        ) + seq![rec@]);
                    }
                },
                Err(e) => {
                    match e {
                        DecodingError::UnexpectedEnd { extra_len } => {
                            break ;
                        },
                        _ => {
                            proof {
                                assert(total == old(self).spec_buffered() + bytes@);
                                assert(total.skip(pos as int).len() > 0);
                                assert(spec_records_of(total.skip(pos as int)) == Err::<
                                    (Seq<SpecRecord>, int),
                                    _,
                                >(e));
                                assert(spec_records_of(total) == Err::<
                                    (Seq<SpecRecord>, int),
                                    _,
                                >(e));
                                assert(spec_records_partial(total.skip(pos as int))
                                    =~= Seq::<SpecRecord>::empty());
                                assert(spec_views(out@).skip(out0.len() as int)
                                    + Seq::<SpecRecord>::empty() =~= spec_views(out@).skip(
                                    out0.len() as int,
                                ));
                            }
                            return Err(e);
                        },
                    }
                },
            }
        }
        let ghost keep = pos as int;
        let mut tail: Vec<u8> = Vec::new();
        let mut i: usize = pos;
        let n = self.buffer.len();
        while i < n
            invariant
                pos <= i <= n == self.buffer@.len(),
                self.buffer@ == total,
                tail@ == total.subrange(pos as int, i as int),
            decreases n - i,
        {
            tail.push(self.buffer[i]);
            i = i + 1;
            proof {
                assert(tail@ =~= total.subrange(pos as int, i as int));
            }
        }
        proof {
            assert(tail@ =~= total.skip(pos as int));
            assert(spec_views(out@).skip(out0.len() as int) + Seq::<SpecRecord>::empty()
                =~= spec_views(out@).skip(out0.len() as int));
            assert(spec_records_partial(total.skip(pos as int)) =~= Seq::<SpecRecord>::empty());
        }
        self.buffer = tail;
        proof {
            assert(spec_records_of(total) == Ok::<_, DecodingError>((
                spec_views(out@).skip(out0.len() as int),
                pos as int,
            )));
        }
        Ok(())
    }

    /// Drops whatever tail is still buffered: records never straddle chunk
    /// boundaries, so the buffer is cleared between chunks.
    pub fn clear_buffer(&mut self)
        ensures
            final(self).spec_buffered() == Seq::<u8>::empty(),
    {
        self.buffer.clear();
    }
}


// ============ The per-chunk pipeline ============

/// Errors that can be occurred during the log parsing process.
#[derive(Debug)]
pub enum ParsingError {
    /// An underlying input or output failure; reported by the caller that
    /// reads the file, never by the byte-level parse itself.
    Io,
    /// The stream holds bytes that are not a chunk.
    FileInvalid,
    /// The stream ends inside a chunk.
    FileIncomplete,
    /// One chunk failed to decrypt; the offending time range is attached.
    Decrypt(DecryptionError, i64, i64),
    /// One chunk failed to decompress; the offending time range is attached.
    Decompress(DecompressionError, i64, i64),
    /// One chunk failed to decode; the offending time range is attached.
    Decode(DecodingError, i64, i64),
    /// The collection of per-chunk errors of one parse.
    Chunks(Vec<ParsingError>),
}

/// The value-level view of an optional secret key.
pub open spec fn spec_view_secret(secret: Option<Vec<u8>>) -> Option<Seq<u8>> {
    match secret {
        Some(s) => Some(s@),
        None => None,
    }
}

/// What obtaining a decryption key for a chunk public key yields: none for
/// the all-zero sentinel and when no secret key is held; the negotiated key
/// when the outside library accepts the encodings; the ECDH error otherwise.
/// A function of the secret and the public key alone.
pub open spec fn spec_obtain_outcome(secret: Option<Seq<u8>>, pub_key: Seq<u8>) -> Result<
    Option<Seq<u8>>,
    encrypt::Error,
> {
    if pub_key == encrypt::spec_empty_public_key() {
        Ok(None)
    } else {
        match secret {
            None => Ok(None),
            Some(s) => if encrypt::ecdh_ok(s, pub_key) {
                Ok(Some(encrypt::ecdh_shared_key(s, pub_key)))
            } else {
                Err(encrypt::Error::Ecdh)
            },
        }
    }
}

/// The value-level view of an obtained key.
pub open spec fn spec_obtain_view(r: Result<Option<Vec<u8>>, encrypt::Error>) -> Result<
    Option<Seq<u8>>,
    encrypt::Error,
> {
    match r {
        Ok(None) => Ok(None),
        Ok(Some(k)) => Ok(Some(k@)),
        Err(e) => Err(e),
    }
}

/// A cache of negotiated symmetric keys, one per chunk public key.
pub struct KeyCache {
    secret_key: Option<Vec<u8>>,
    entries: Vec<(Vec<u8>, Vec<u8>)>,
}

impl KeyCache {
    /// The long-term secret key, if one was given.
    pub closed spec fn spec_secret(&self) -> Option<Seq<u8>> {
        match self.secret_key {
            Some(s) => Some(s@),
            None => None,
        }
    }

    /// Well-formedness: the secret key has its length, and every cached entry
    /// is the negotiated key for its public key.
    pub closed spec fn wf(&self) -> bool {
        &&& (self.secret_key matches Some(s) ==> s@.len() == encrypt::SECRET_KEY_LEN)
        &&& forall|i: int|
            0 <= i < self.entries@.len() ==> ((self.spec_secret() matches Some(s)
                && #[trigger] self.entries@[i].1@ == encrypt::ecdh_shared_key(
                s,
                self.entries@[i].0@,
            ) && encrypt::ecdh_ok(s, self.entries@[i].0@)) && self.entries@[i].1@.len()
                == encrypt::ENCRYPTION_KEY_LEN)
    }

    /// Constructs an empty cache.
    pub fn new(secret_key: Option<Vec<u8>>) -> (r: KeyCache)
        requires
            secret_key matches Some(s) ==> s@.len() == encrypt::SECRET_KEY_LEN,
        ensures
            r.wf(),
            r.spec_secret() == spec_view_secret(secret_key),
    {
        KeyCache { secret_key, entries: Vec::new() }
    }

    /// Returns the symmetric key for a chunk public key — exactly what
    /// [`spec_obtain_outcome`] names for the held secret: the cached key on a
    /// hit, negotiating and caching it on the first sight. The key returned
    /// for a public key is always the one ECDH negotiates for it, so every
    /// chunk with the same public key decrypts under the same key.
    pub fn obtain(&mut self, pub_key: &Vec<u8>) -> (r: Result<Option<Vec<u8>>, encrypt::Error>)
        requires
            old(self).wf(),
            pub_key@.len() == chunk::PUBLIC_KEY_LEN,
        ensures
            final(self).wf(),
            final(self).spec_secret() == old(self).spec_secret(),
            spec_obtain_view(r) == spec_obtain_outcome(old(self).spec_secret(), pub_key@),
            r matches Ok(Some(k)) ==> k@.len() == encrypt::ENCRYPTION_KEY_LEN,
    {
        if encrypt::is_empty_public_key(pub_key) {
            return Ok(None);
        }
        let n = self.entries.len();
        let mut i: usize = 0;
        while i < n
            invariant
                0 <= i <= n == self.entries@.len(),
                self.wf(),
                self.spec_secret() == old(self).spec_secret(),
                pub_key@.len() == chunk::PUBLIC_KEY_LEN,
                pub_key@ != encrypt::spec_empty_public_key(),
            decreases n - i,
        {
            if crate::common::bytes_eq(&self.entries[i].0, pub_key) {
                let k = self.entries[i].1.clone();
                proof {
                    assert(k@ == self.entries@[i as int].1@);
                }
                return Ok(Some(k));
            }
            i = i + 1;
        }
        match &self.secret_key {
            None => Ok(None),
            Some(secret) => {
                match encrypt::ecdh_encryption_key(secret, pub_key) {
                    Ok(key) => {
                        let ghost pre = self.entries@;
                        self.entries.push((pub_key.clone(), key.clone()));
                        proof {
                            assert(forall|j: int|
                                0 <= j < pre.len() ==> self.entries@[j] == pre[j]);
                        }
                        Ok(Some(key))
                    },
                    Err(e) => Err(e),
                }
            },
        }
    }
}

/// The kind of a per-chunk failure.
#[derive(Clone, Copy, PartialEq, Eq, Structural, Debug)]
pub enum ChunkFaultKind {
    /// Key negotiation or decryption failed.
    Decrypt,
    /// Decompression failed.
    Decompress,
    /// Record decoding failed.
    Decode,
}

/// What one chunk's pipeline leaves behind: the records it contributes, the
/// decompressor's input history afterwards, and its failure, if any.
pub ghost struct ChunkOutcome {
    pub records: Seq<SpecRecord>,
    pub dec_history: Seq<Seq<u8>>,
    pub fault: Option<ChunkFaultKind>,
}

/// The plaintext one chunk's payload deciphers to, or nothing when
/// deciphering fails: the identity without a key; without stripping — as a
/// writeback chunk asks — every whole block deciphered; with stripping, the
/// PKCS#7-unpadded stream, defined exactly when the payload is one or more
/// whole blocks ending in valid padding.
pub open spec fn spec_decrypt_outcome(key: Option<Seq<u8>>, payload: Seq<u8>, writeback: bool) -> Option<
    Seq<u8>,
> {
    match key {
        None => Some(payload),
        Some(k) => if writeback {
            Some(encrypt::spec_ecb_decrypt(k, payload))
        } else {
            if payload.len() % 16 == 0 && payload.len() > 0 && encrypt::spec_unpad(
                encrypt::spec_ecb_decrypt(k, payload),
            ) is Some {
                encrypt::spec_unpad(encrypt::spec_ecb_decrypt(k, payload))
            } else {
                None
            }
        },
    }
}

/// The outcome of one clean-version chunk, as a function of the held secret,
/// the decompressor's input history and the chunk alone. A failed step
/// contributes no records and leaves the later steps untaken; a record
/// decoding failure still contributes the records before it.
#[verifier::opaque]
pub open spec fn spec_chunk_outcome(
    secret: Option<Seq<u8>>,
    dh: Seq<Seq<u8>>,
    pub_key: Seq<u8>,
    writeback: bool,
    payload: Seq<u8>,
) -> ChunkOutcome {
    match spec_obtain_outcome(secret, pub_key) {
        Err(e) => ChunkOutcome {
            records: Seq::empty(),
            dec_history: dh,
            fault: Some(ChunkFaultKind::Decrypt),
        },
        Ok(key) => match spec_decrypt_outcome(key, payload, writeback) {
            None => ChunkOutcome {
                records: Seq::empty(),
                dec_history: dh,
                fault: Some(ChunkFaultKind::Decrypt),
            },
            Some(pt) => {
                let dh2 = dh.push(pt);
                if !crate::compress::zstd_dec_accepts(dh2) {
                    ChunkOutcome {
                        records: Seq::empty(),
                        dec_history: dh2,
                        fault: Some(ChunkFaultKind::Decompress),
                    }
                } else {
                    let delta = crate::compress::zstd_decompressed(dh2).skip(
                        crate::compress::zstd_decompressed(dh).len() as int,
                    );
                    ChunkOutcome {
                        records: spec_records_partial(delta),
                        dec_history: dh2,
                        fault: if spec_records_of(delta) is Ok {
                            None
                        } else {
                            Some(ChunkFaultKind::Decode)
                        },
                    }
                }
            },
        },
    }
}

/// Whether a parsing error is the given fault, tagged with the given time
/// range.
pub open spec fn spec_fault_matches(
    e: ParsingError,
    kind: ChunkFaultKind,
    start_secs: i64,
    end_secs: i64,
) -> bool {
    match e {
        ParsingError::Decrypt(inner, a, b) => kind == ChunkFaultKind::Decrypt && a == start_secs
            && b == end_secs,
        ParsingError::Decompress(inner, a, b) => kind == ChunkFaultKind::Decompress && a
            == start_secs && b == end_secs,
        ParsingError::Decode(inner, a, b) => kind == ChunkFaultKind::Decode && a == start_secs && b
            == end_secs,
        _ => false,
    }
}

/// Inverts the write pipeline per chunk: decrypt, decompress, decode.
pub struct Processor {
    decompressor: ZstdDecompressor,
    keys: KeyCache,
    parser: RecordParser,
}

impl Processor {
    /// Well-formedness of the key cache.
    pub closed spec fn wf(&self) -> bool {
        self.keys.wf()
    }

    /// The long-term secret key, if one was given.
    pub closed spec fn spec_secret(&self) -> Option<Seq<u8>> {
        self.keys.spec_secret()
    }

    /// The inputs fed to the decompression stream so far.
    pub closed spec fn spec_dec_history(&self) -> Seq<Seq<u8>> {
        self.decompressor.spec_history()
    }

    /// The record parser's buffered tail.
    pub closed spec fn spec_parser_buffered(&self) -> Seq<u8> {
        self.parser.spec_buffered()
    }

    /// Constructs a new `Processor` with an optional secret key.
    pub fn new(secret_key: Option<Vec<u8>>) -> (r: Processor)
        requires
            secret_key matches Some(s) ==> s@.len() == encrypt::SECRET_KEY_LEN,
        ensures
            r.wf(),
            r.spec_secret() == crate::parse::spec_view_secret(secret_key),
            r.spec_dec_history() == Seq::<Seq<u8>>::empty(),
            r.spec_parser_buffered() == Seq::<u8>::empty(),
    {
        Processor {
            decompressor: ZstdDecompressor::new(),
            keys: KeyCache::new(secret_key),
            parser: RecordParser::new(),
        }
    }

    /// Obtains the decryption key for a chunk public key — exactly what
    /// [`spec_obtain_outcome`] names for the held secret — negotiating and
    /// caching it as needed.
    pub fn obtain_decryptor(&mut self, pub_key: &Vec<u8>) -> (r: Result<
        Option<Vec<u8>>,
        encrypt::Error,
    >)
        requires
            old(self).wf(),
            pub_key@.len() == chunk::PUBLIC_KEY_LEN,
        ensures
            final(self).wf(),
            final(self).spec_secret() == old(self).spec_secret(),
            final(self).spec_dec_history() == old(self).spec_dec_history(),
            final(self).spec_parser_buffered() == old(self).spec_parser_buffered(),
            spec_obtain_view(r) == spec_obtain_outcome(old(self).spec_secret(), pub_key@),
            r matches Ok(Some(k)) ==> k@.len() == encrypt::ENCRYPTION_KEY_LEN,
    {
        self.keys.obtain(pub_key)
    }

    /// Runs one chunk's payload through the pipeline — obtain the key,
    /// decrypt, decompress, decode — appending exactly the records that
    /// [`spec_chunk_outcome`] names for the chunk, in order. A failure
    /// confined to the chunk comes back as that outcome's fault, tagged with
    /// the chunk's time range; the record parser's buffer is cleared either
    /// way, since records never straddle chunk boundaries.
    #[verifier::rlimit(100)]
    pub fn process_chunk(
        &mut self,
        header: &ChunkHeader,
        payload: &Vec<u8>,
        out: &mut Vec<Record>,
    ) -> (r: Result<(), ParsingError>)
        requires
            old(self).wf(),
            old(self).spec_parser_buffered() == Seq::<u8>::empty(),
            header.pub_key@.len() == chunk::PUBLIC_KEY_LEN,
        ensures
            final(self).wf(),
            final(self).spec_secret() == old(self).spec_secret(),
            final(self).spec_parser_buffered() == Seq::<u8>::empty(),
            final(out)@.len() >= old(out)@.len(),
            spec_views(final(out)@).take(old(out)@.len() as int) == spec_views(old(out)@),
            ({
                let oc = spec_chunk_outcome(
                    old(self).spec_secret(),
                    old(self).spec_dec_history(),
                    header.pub_key@,
                    header.writeback,
                    payload@,
                );
                &&& final(self).spec_dec_history() == oc.dec_history
                &&& spec_views(final(out)@).skip(old(out)@.len() as int) == oc.records
                &&& (match r {
                    Ok(()) => oc.fault is None,
                    Err(e) => (oc.fault matches Some(kind) && spec_fault_matches(
                        e,
                        kind,
                        header.start_secs,
                        header.end_secs,
                    )),
                })
            }),
    {
        proof {
            reveal(spec_chunk_outcome);
            assert(spec_views(old(out)@).take(old(out)@.len() as int) =~= spec_views(old(out)@));
            assert(spec_views(old(out)@).skip(old(out)@.len() as int)
                =~= Seq::<SpecRecord>::empty());
        }
        let key = match self.keys.obtain(&header.pub_key) {
            Ok(k) => k,
            Err(e) => {
                self.parser.clear_buffer();
                return Err(ParsingError::Decrypt(e, header.start_secs, header.end_secs));
            },
        };
        let decrypted = match &key {
            None => payload.clone(),
            Some(k) => {
                // The final ciphertext block of a writeback chunk may be
                // missing, so its padding is never stripped.
                match encrypt::decrypt_bytes(k, payload, !header.writeback) {
                    Ok(pt) => pt,
                    Err(e) => {
                        self.parser.clear_buffer();
                        return Err(ParsingError::Decrypt(e, header.start_secs, header.end_secs));
                    },
                }
            },
        };
        let decompressed = match self.decompressor.decompress(decrypted.as_slice()) {
            Ok(d) => d,
            Err(e) => {
                self.parser.clear_buffer();
                return Err(ParsingError::Decompress(e, header.start_secs, header.end_secs));
            },
        };
        proof {
            let dh = old(self).spec_dec_history();
            assert((crate::compress::zstd_decompressed(dh) + decompressed@).skip(
                crate::compress::zstd_decompressed(dh).len() as int,
            ) =~= decompressed@);
        }
        let ghost out_pre = out@;
        let r = self.parser.parse_all(decompressed.as_slice(), out);
        self.parser.clear_buffer();
        proof {
            assert(Seq::<u8>::empty() + decompressed@ =~= decompressed@);
        }
        match r {
            Ok(()) => Ok(()),
            Err(e) => Err(ParsingError::Decode(e, header.start_secs, header.end_secs)),
        }
    }
}

/// Whether an error is confined to one chunk, letting the parse go on with
/// the next chunk.
pub fn can_continue_to_read_chunk(e: &ParsingError) -> (r: bool)
    ensures
        r == (e matches ParsingError::Decrypt(..) || e matches ParsingError::Decompress(..)
            || e matches ParsingError::Decode(..)),
{
    match e {
        ParsingError::Decrypt(..) => true,
        ParsingError::Decompress(..) => true,
        ParsingError::Decode(..) => true,
        _ => false,
    }
}

/// What a whole parse leaves behind: every chunk's records in order, the
/// time ranges of the chunks whose errors were confined, and the fatal
/// framing error that stopped the walk, if any.
#[verifier::ext_equal]
pub ghost struct ParseWalk {
    pub records: Seq<SpecRecord>,
    pub faults: Seq<(ChunkFaultKind, i64, i64)>,
    pub fatal: Option<ReadError>,
}

/// A walk that stopped at once on broken framing.
pub open spec fn spec_walk_fatal(e: ReadError) -> ParseWalk {
    ParseWalk { records: Seq::empty(), faults: Seq::empty(), fatal: Some(e) }
}

/// Walking the chunks of a stream from `pos`, with the held secret and the
/// decompressor's input history: chunks of a foreign format version are
/// skipped, a clean-version chunk contributes its outcome, and bad framing
/// ends the walk.
pub open spec fn spec_parse_walk(
    data: Seq<u8>,
    pos: int,
    secret: Option<Seq<u8>>,
    dh: Seq<Seq<u8>>,
) -> ParseWalk
    decreases data.len() - pos,
{
    if pos < 0 || pos > data.len() {
        spec_walk_fatal(ReadError::Invalid)
    } else if pos == data.len() {
        ParseWalk { records: Seq::empty(), faults: Seq::empty(), fatal: None }
    } else if data.len() - pos < chunk::HEADER_LEN {
        spec_walk_fatal(ReadError::UnexpectedEnd)
    } else {
        let region = data.subrange(pos, pos + chunk::HEADER_LEN);
        if chunk::spec_chunk_magic(region) != chunk::CHUNK_MAGIC {
            spec_walk_fatal(ReadError::Invalid)
        } else {
            let plen = chunk::spec_chunk_len(region) as int;
            if chunk::spec_chunk_version(region) != crate::FORMAT_VERSION {
                let next = if pos + chunk::HEADER_LEN + plen >= data.len() {
                    data.len() as int
                } else {
                    pos + chunk::HEADER_LEN + plen
                };
                spec_parse_walk(data, next, secret, dh)
            } else if data.len() - pos - chunk::HEADER_LEN < plen {
                spec_walk_fatal(ReadError::UnexpectedEnd)
            } else {
                let oc = spec_chunk_outcome(
                    secret,
                    dh,
                    chunk::spec_chunk_pub_key(region),
                    chunk::spec_chunk_writeback(region),
                    data.subrange(pos + chunk::HEADER_LEN, pos + chunk::HEADER_LEN + plen),
                );
                let rest = spec_parse_walk(
                    data,
                    pos + chunk::HEADER_LEN + plen,
                    secret,
                    oc.dec_history,
                );
                ParseWalk {
                    records: oc.records + rest.records,
                    faults: (match oc.fault {
                        None => Seq::empty(),
                        Some(k) => seq![
                            (
                                k,
                                chunk::spec_chunk_start_secs(region),
                                chunk::spec_chunk_end_secs(region),
                            ),
                        ],
                    }) + rest.faults,
                    fatal: rest.fatal,
                }
            }
        }
    }
}

/// Folds records and fault tags already collected into the walk of the rest
/// of the stream.
pub open spec fn walk_combine(
    records: Seq<SpecRecord>,
    faults: Seq<(ChunkFaultKind, i64, i64)>,
    rest: ParseWalk,
) -> ParseWalk {
    ParseWalk {
        records: records + rest.records,
        faults: faults + rest.faults,
        fatal: rest.fatal,
    }
}

/// The fault kind and time range a confined per-chunk error carries, if it
/// is one.
pub open spec fn spec_error_fault(e: ParsingError) -> Option<(ChunkFaultKind, i64, i64)> {
    match e {
        ParsingError::Decrypt(inner, a, b) => Some((ChunkFaultKind::Decrypt, a, b)),
        ParsingError::Decompress(inner, a, b) => Some((ChunkFaultKind::Decompress, a, b)),
        ParsingError::Decode(inner, a, b) => Some((ChunkFaultKind::Decode, a, b)),
        _ => None,
    }
}

/// Parses a binary log stream into records, appending each decoded record to
/// `out` in submission order — exactly the records [`spec_parse_walk`] names
/// for the stream and the secret key. Chunks of a foreign format version are
/// skipped. Errors confined to one chunk are collected, tagged with the
/// chunk's time range, and returned as a batch after the whole stream is
/// walked; framing errors end the parse at once, with `FileInvalid` for a
/// bad magic and `FileIncomplete` for a truncated stream. The result is
/// `Ok` exactly when the walk ran to the end with no chunk error.
#[verifier::rlimit(100)]
pub fn parse(data: Vec<u8>, secret_key: Option<Vec<u8>>, out: &mut Vec<Record>) -> (r: Result<
    (),
    ParsingError,
>)
    requires
        secret_key matches Some(s) ==> s@.len() == encrypt::SECRET_KEY_LEN,
    ensures
        final(out)@.len() >= old(out)@.len(),
        spec_views(final(out)@).take(old(out)@.len() as int) == spec_views(old(out)@),
        ({
            let w = spec_parse_walk(data@, 0, spec_view_secret(secret_key), Seq::empty());
            &&& spec_views(final(out)@).skip(old(out)@.len() as int) == w.records
            &&& (match r {
                Ok(()) => w.fatal is None && w.faults.len() == 0,
                Err(ParsingError::FileInvalid) => w.fatal == Some(ReadError::Invalid),
                Err(ParsingError::FileIncomplete) => w.fatal == Some(ReadError::UnexpectedEnd),
                Err(ParsingError::Chunks(v)) => (w.fatal is None && v@.len() == w.faults.len()
                    && v@.len() > 0 && (forall|i: int|
                    0 <= i < v@.len() ==> spec_error_fault(#[trigger] v@[i]) == Some(
                        w.faults[i],
                    ))),
                _ => false,
            })
        }),
{
    let ghost secret = spec_view_secret(secret_key);
    let ghost w0 = spec_parse_walk(data@, 0, secret, Seq::empty());
    let mut reader = Reader::new(data);
    let mut processor = Processor::new(secret_key);
    let mut chunk_errors: Vec<ParsingError> = Vec::new();
    let ghost mut faults_acc: Seq<(ChunkFaultKind, i64, i64)> = Seq::empty();
    proof {
        assert(w0 =~= walk_combine(
            spec_views(out@).skip(old(out)@.len() as int),
            faults_acc,
            spec_parse_walk(data@, reader.spec_pos(), secret, processor.spec_dec_history()),
        ));
    }
    loop
        invariant
            reader.wf(),
            reader.spec_data() == data@,
            processor.wf(),
            processor.spec_secret() == secret,
            processor.spec_parser_buffered() == Seq::<u8>::empty(),
            out@.len() >= old(out)@.len(),
            spec_views(out@).take(old(out)@.len() as int) == spec_views(old(out)@),
            chunk_errors@.len() == faults_acc.len(),
            forall|i: int|
                0 <= i < chunk_errors@.len() ==> spec_error_fault(#[trigger] chunk_errors@[i])
                    == Some(faults_acc[i]),
            secret == spec_view_secret(secret_key),
            w0 == spec_parse_walk(data@, 0, secret, Seq::empty()),
            w0 == walk_combine(
                spec_views(out@).skip(old(out)@.len() as int),
                faults_acc,
                spec_parse_walk(data@, reader.spec_pos(), secret, processor.spec_dec_history()),
            ),
        ensures
            reader.spec_pos() == reader.spec_data().len(),
        decreases reader.spec_data().len() - reader.spec_pos(),
    {
        let ghost pos_before = reader.spec_pos();
        let ghost acc = spec_views(out@).skip(old(out)@.len() as int);
        let ghost dh = processor.spec_dec_history();
        let header = match reader.read_header_or_reach_to_end() {
            Ok(Some(h)) => h,
            Ok(None) => {
                proof {
                    assert(acc + Seq::<SpecRecord>::empty() =~= acc);
                    assert(faults_acc + Seq::<(ChunkFaultKind, i64, i64)>::empty()
                        =~= faults_acc);
                }
                break ;
            },
            Err(ReadError::Invalid) => {
                proof {
                    assert(spec_parse_walk(data@, pos_before, secret, dh) =~= spec_walk_fatal(
                        ReadError::Invalid,
                    ));
                    assert(acc + Seq::<SpecRecord>::empty() =~= acc);
                    assert(w0.records =~= acc);
                    assert(w0.fatal == Some(ReadError::Invalid));
                }
                return Err(ParsingError::FileInvalid);
            },
            Err(ReadError::UnexpectedEnd) => {
                proof {
                    assert(spec_parse_walk(data@, pos_before, secret, dh) =~= spec_walk_fatal(
                        ReadError::UnexpectedEnd,
                    ));
                    assert(acc + Seq::<SpecRecord>::empty() =~= acc);
                    assert(w0.records =~= acc);
                    assert(w0.fatal == Some(ReadError::UnexpectedEnd));
                }
                return Err(ParsingError::FileIncomplete);
            },
        };
        let ghost region = data@.subrange(pos_before, pos_before + chunk::HEADER_LEN);
        if header.version != crate::FORMAT_VERSION {
            reader.skip(header.length as usize);
            continue ;
        }
        let payload = match reader.read_payload(header.length as usize) {
            Ok(p) => p,
            Err(_) => {
                proof {
                    assert(acc + Seq::<SpecRecord>::empty() =~= acc);
                }
                return Err(ParsingError::FileIncomplete);
            },
        };
        let ghost out_pre = out@;
        match processor.process_chunk(&header, &payload, out) {
            Ok(()) => {
                proof {
                    let oc = spec_chunk_outcome(
                        secret,
                        dh,
                        header.pub_key@,
                        header.writeback,
                        payload@,
                    );
                    assert(spec_views(out@).skip(old(out)@.len() as int) =~= acc + oc.records);
                    assert(faults_acc + (Seq::<(ChunkFaultKind, i64, i64)>::empty()
                        + spec_parse_walk(
                        data@,
                        reader.spec_pos(),
                        secret,
                        processor.spec_dec_history(),
                    ).faults) =~= faults_acc + spec_parse_walk(
                        data@,
                        reader.spec_pos(),
                        secret,
                        processor.spec_dec_history(),
                    ).faults);
                    assert((acc + oc.records) + spec_parse_walk(
                        data@,
                        reader.spec_pos(),
                        secret,
                        processor.spec_dec_history(),
                    ).records =~= acc + (oc.records + spec_parse_walk(
                        data@,
                        reader.spec_pos(),
                        secret,
                        processor.spec_dec_history(),
                    ).records));
                }
            },
            Err(e) => {
                chunk_errors.push(e);
                proof {
                    let oc = spec_chunk_outcome(
                        secret,
                        dh,
                        header.pub_key@,
                        header.writeback,
                        payload@,
                    );
                    let tag = (
                        oc.fault->Some_0,
                        chunk::spec_chunk_start_secs(region),
                        chunk::spec_chunk_end_secs(region),
                    );
                    faults_acc = faults_acc.push(tag);
                    let rest = spec_parse_walk(
                        data@,
                        reader.spec_pos(),
                        secret,
                        processor.spec_dec_history(),
                    );
                    assert(spec_views(out@).skip(old(out)@.len() as int) =~= acc + oc.records);
                    assert((acc + oc.records) + rest.records =~= acc + (oc.records
                        + rest.records));
                    assert((faults_acc) + rest.faults =~= faults_acc.drop_last() + (seq![tag]
                        + rest.faults));
                }
            },
        }
    }
    proof {
        assert(spec_parse_walk(
            data@,
            reader.spec_pos(),
            secret,
            processor.spec_dec_history(),
        ).faults.len() == 0);
    }
    if chunk_errors.len() == 0 {
        Ok(())
    } else {
        Err(ParsingError::Chunks(chunk_errors))
    }
}

// ============ The plain-text formatter ============

/// The level letter of the plain-text format.
pub open spec fn spec_level_letter(l: crate::record::Level) -> u8 {
    match l {
        crate::record::Level::Error => 69u8,
        crate::record::Level::Warn => 87u8,
        crate::record::Level::Info => 73u8,
        crate::record::Level::Debug => 68u8,
        crate::record::Level::Verbose => 86u8,
    }
}

/// The zero-padded year field, signed.
pub open spec fn spec_year_field(y: int) -> Seq<u8> {
    if y < 0 {
        seq![45u8] + crate::text::spec_padded((-y) as nat, 4)
    } else {
        crate::text::spec_padded(y as nat, 4)
    }
}

/// The local date of a line: the signed year, the month and the day,
/// zero-padded and dash-separated.
pub open spec fn spec_render_date(p: crate::time::CivilParts) -> Seq<u8> {
    spec_year_field(p.year as int) + seq![45u8] + crate::text::spec_padded(p.month as nat, 2)
        + seq![45u8] + crate::text::spec_padded(p.day as nat, 2)
}

/// The local time of a line: hour, minute, second and milliseconds,
/// zero-padded and separated.
pub open spec fn spec_render_time(p: crate::time::CivilParts, nanos: u32) -> Seq<u8> {
    crate::text::spec_padded(p.hour as nat, 2) + seq![58u8] + crate::text::spec_padded(
        p.minute as nat,
        2,
    ) + seq![58u8] + crate::text::spec_padded(p.second as nat, 2) + seq![46u8]
        + crate::text::spec_padded((nanos / 1000000) as nat, 3)
}

/// The datetime stamp of a line: the level letter in brackets, then the
/// local date and time with milliseconds.
pub open spec fn spec_render_stamp(rec: SpecRecord, p: crate::time::CivilParts) -> Seq<u8> {
    seq![91u8, spec_level_letter(rec.meta.level), 93u8, 32u8] + spec_render_date(p) + seq![32u8]
        + spec_render_time(p, rec.meta.datetime.nanos)
}

/// The trailing fields of a line: the thread, the location, the tag and the
/// content, separated by bars.
pub open spec fn spec_render_fields(rec: SpecRecord) -> Seq<u8> {
    seq![124u8] + crate::text::spec_decimal(
        (match rec.meta.thread_id {
            Some(t) => t,
            None => 0,
        }) as nat,
    ) + seq![124u8] + (match rec.meta.location.file {
        Some(f) => vstd::utf8::encode_utf8(f),
        None => Seq::empty(),
    }) + seq![58u8] + crate::text::spec_decimal(
        (match rec.meta.location.line {
            Some(l) => l,
            None => 0,
        }) as nat,
    ) + seq![124u8] + (match rec.meta.tag {
        Some(g) => vstd::utf8::encode_utf8(g),
        None => Seq::empty(),
    }) + seq![124u8] + vstd::utf8::encode_utf8(rec.content) + seq![10u8]
}

/// One plain-text line for a record, under the given local calendar fields:
/// its datetime stamp, then its fields.
pub open spec fn spec_render_line(rec: SpecRecord, p: crate::time::CivilParts) -> Seq<u8> {
    spec_render_stamp(rec, p) + spec_render_fields(rec)
}

/// Renders the local date of a line.
fn render_date(parts: &crate::time::CivilParts) -> (r: Vec<u8>)
    ensures
        r@ == spec_render_date(*parts),
{
    let mut out: Vec<u8> = Vec::new();
    if parts.year < 0 {
        out.push(45);
        let m: u64 = if parts.year == i32::MIN {
            2147483648u64
        } else {
            (-parts.year) as u64
        };
        crate::text::push_padded(m, 4, &mut out);
    } else {
        crate::text::push_padded(parts.year as u64, 4, &mut out);
    }
    out.push(45);
    crate::text::push_padded(parts.month as u64, 2, &mut out);
    out.push(45);
    crate::text::push_padded(parts.day as u64, 2, &mut out);
    proof {
        assert(out@ =~= spec_render_date(*parts));
    }
    out
}

/// Renders the local time of a line.
fn render_time(parts: &crate::time::CivilParts, nanos: u32) -> (r: Vec<u8>)
    ensures
        r@ == spec_render_time(*parts, nanos),
{
    let mut out: Vec<u8> = Vec::new();
    crate::text::push_padded(parts.hour as u64, 2, &mut out);
    out.push(58);
    crate::text::push_padded(parts.minute as u64, 2, &mut out);
    out.push(58);
    crate::text::push_padded(parts.second as u64, 2, &mut out);
    out.push(46);
    crate::text::push_padded((nanos / 1000000) as u64, 3, &mut out);
    proof {
        assert(out@ =~= spec_render_time(*parts, nanos));
    }
    out
}

/// Renders the datetime stamp of a line.
fn render_stamp(record: &Record, parts: &crate::time::CivilParts) -> (r: Vec<u8>)
    ensures
        r@ == spec_render_stamp(record@, *parts),
{
    let mut out: Vec<u8> = Vec::new();
    out.push(91);
    let letter: u8 = match record.meta().level() {
        crate::record::Level::Error => 69,
        crate::record::Level::Warn => 87,
        crate::record::Level::Info => 73,
        crate::record::Level::Debug => 68,
        crate::record::Level::Verbose => 86,
    };
    out.push(letter);
    out.push(93);
    out.push(32);
    let date = render_date(parts);
    crate::common::append_bytes(&mut out, date.as_slice());
    out.push(32);
    let time = render_time(parts, record.meta().datetime().subsec_nanos());
    crate::common::append_bytes(&mut out, time.as_slice());
    proof {
        assert(out@ =~= spec_render_stamp(record@, *parts));
    }
    out
}

/// Renders the trailing fields of a line.
#[verifier::rlimit(100)]
fn render_fields(record: &Record) -> (r: Vec<u8>)
    ensures
        r@ == spec_render_fields(record@),
{
    let mut out: Vec<u8> = Vec::new();
    out.push(124);
    let thread: u64 = match record.meta().thread_id() {
        Some(t) => t,
        None => 0,
    };
    crate::text::push_decimal(thread, &mut out);
    out.push(124);
    match record.meta().location().file() {
        Some(f) => {
            crate::common::append_bytes(&mut out, f.as_str().as_bytes());
        },
        None => {},
    }
    out.push(58);
    let line: u32 = match record.meta().location().line() {
        Some(l) => l,
        None => 0,
    };
    crate::text::push_decimal(line as u64, &mut out);
    out.push(124);
    match record.meta().tag() {
        Some(g) => {
            crate::common::append_bytes(&mut out, g.as_str().as_bytes());
        },
        None => {},
    }
    out.push(124);
    crate::common::append_bytes(&mut out, record.content().as_str().as_bytes());
    out.push(10);
    proof {
        assert(out@ =~= spec_render_fields(record@));
    }
    out
}

/// Renders one plain-text line for a record whose local calendar fields are
/// given.
pub fn render_line(record: &Record, parts: &crate::time::CivilParts) -> (r: Vec<u8>)
    ensures
        r@ == spec_render_line(record@, *parts),
{
    let mut out = render_stamp(record, parts);
    let fields = render_fields(record);
    crate::common::append_bytes(&mut out, fields.as_slice());
    out
}

/// The default formatter provides simple log formatting: one line per
/// record, with the datetime shown in the machine's local time zone.
pub struct DefaultFormatter;

impl DefaultFormatter {
    /// Formats the record into its plain-text line, as bytes. The calendar
    /// fields come from the machine's local time zone, so only their ranges
    /// are known of them.
    pub fn format(&self, record: &Record) -> (r: Vec<u8>)
        ensures
            exists|p: crate::time::CivilParts| r@ == spec_render_line(record@, p),
    {
        let parts = crate::time::local_civil_parts(record.meta().datetime().timestamp());
        let r = render_line(record, &parts);
        proof {
            assert(r@ == spec_render_line(record@, parts));
        }
        r
    }
}


/// Parsing a truncated record stream yields a prefix of its records: when a
/// byte stream is exactly a sequence of whole records — as a chunk's
/// plaintext is by construction — every prefix of it parses, without error,
/// to a prefix of those records, and the whole stream parses to all of them.
/// So a crash-recovered chunk, whose trailing bytes are lost, gives back
/// every record that lies wholly within what remains.
#[verifier::rlimit(100)]
#[verifier::spinoff_prover]
pub proof fn lemma_records_of_truncated(data: Seq<u8>, k: int)
    requires
        0 <= k <= data.len(),
        spec_records_of(data) matches Ok(t) && t.1 == data.len(),
    ensures
        ({
            let full = spec_records_of(data)->Ok_0;
            match spec_records_of(data.take(k)) {
                Ok(t2) => t2.0.len() <= full.0.len() && t2.0 == full.0.take(t2.0.len() as int)
                    && (k == data.len() ==> t2.0 == full.0),
                Err(e) => false,
            }
        }),
    decreases data.len(),
{
    let full = spec_records_of(data)->Ok_0;
    if data.len() == 0 {
        assert(data.take(k) =~= data);
        assert(full.0.take(0) =~= full.0);
    } else {
        codec::lemma_dec_record_bounds(data);
        codec::lemma_dec_record_prefix(data, k);
        match codec::spec_dec_record(data) {
            Err(e) => {
                assert(false);
            }
            Ok((r, n)) => {
                assert(1 <= n <= data.len());
                if k < n {
                    assert(spec_records_of(data.take(k)) == Ok::<_, DecodingError>((
                        Seq::<SpecRecord>::empty(),
                        0int,
                    ))) by {
                        if data.take(k).len() > 0 {
                            assert(codec::spec_is_unexpected_end(
                                codec::spec_dec_record(data.take(k)),
                            ));
                        }
                    }
                    assert(full.0.take(0) =~= Seq::<SpecRecord>::empty());
                } else {
                    assert(codec::spec_dec_record(data.take(k)) == codec::spec_dec_record(data));
                    assert(data.take(k).skip(n) =~= data.skip(n).take(k - n));
                    match spec_records_of(data.skip(n)) {
                        Err(e) => {
                            assert(false);
                        }
                        Ok((rs2, m)) => {
                            assert(full.0 == seq![r] + rs2);
                            assert(m == data.skip(n).len());
                            lemma_records_of_truncated(data.skip(n), k - n);
                            let part = spec_records_of(data.skip(n).take(k - n))->Ok_0;
                            assert(spec_records_of(data.take(k)) == Ok::<_, DecodingError>((
                                seq![r] + part.0,
                                n + part.1,
                            )));
                            assert(part.0 == rs2.take(part.0.len() as int));
                            assert((seq![r] + rs2).take(1 + part.0.len() as int) =~= seq![r]
                                + rs2.take(part.0.len() as int));
                            if k == data.len() {
                                assert(part.0 == rs2);
                                assert(seq![r] + part.0 =~= full.0);
                            }
                        }
                    }
                }
            }
        }
    }
}


/// The concatenated encodings of a sequence of records.
#[verifier::opaque]
pub open spec fn spec_enc_records(rs: Seq<SpecRecord>) -> Seq<u8>
    decreases rs.len(),
{
    if rs.len() == 0 {
        Seq::empty()
    } else {
        codec::spec_enc_record(rs[0]) + spec_enc_records(rs.drop_first())
    }
}

/// Decoding the encoding of one record at the head of a record stream peels
/// off exactly that record.
#[verifier::rlimit(100)]
#[verifier::spinoff_prover]
proof fn lemma_records_of_cons(r0: SpecRecord, rest: Seq<u8>)
    requires
        codec::spec_record_encodable(r0),
    ensures
        ({
            let s = codec::spec_enc_record(r0) + rest;
            match spec_records_of(rest) {
                Ok((rs2, m)) => spec_records_of(s) == Ok::<_, DecodingError>((
                    seq![r0] + rs2,
                    codec::spec_enc_record(r0).len() + m,
                )),
                Err(e) => spec_records_of(s) == Err::<(Seq<SpecRecord>, int), _>(e),
            }
        }),
{
    let s = codec::spec_enc_record(r0) + rest;
    codec::lemma_dec_enc_record(r0, rest);
    codec::lemma_dec_record_bounds(s);
    let n = codec::spec_enc_record(r0).len() as int;
    assert(s.skip(n) =~= rest);
}

/// One step of the record-stream round trip: given the tail's round trip,
/// the whole stream's.
#[verifier::rlimit(100)]
#[verifier::spinoff_prover]
proof fn lemma_records_roundtrip_step(rs: Seq<SpecRecord>)
    requires
        rs.len() > 0,
        codec::spec_record_encodable(rs[0]),
        spec_records_of(spec_enc_records(rs.drop_first())) == Ok::<_, DecodingError>((
            rs.drop_first(),
            spec_enc_records(rs.drop_first()).len() as int,
        )),
    ensures
        spec_records_of(spec_enc_records(rs)) == Ok::<_, DecodingError>((
            rs,
            spec_enc_records(rs).len() as int,
        )),
{
    reveal(spec_enc_records);
    let r0 = rs[0];
    let rest = spec_enc_records(rs.drop_first());
    lemma_records_of_cons(r0, rest);
    assert(spec_enc_records(rs) == codec::spec_enc_record(r0) + rest);
    assert(seq![r0] + rs.drop_first() =~= rs);
}

/// What the write path encodes in order, the read path decodes in order:
/// parsing the concatenated encodings of any representable records yields
/// exactly those records, in order, consuming the whole stream.
pub proof fn lemma_records_roundtrip(rs: Seq<SpecRecord>)
    requires
        forall|i: int| 0 <= i < rs.len() ==> #[trigger] codec::spec_record_encodable(rs[i]),
    ensures
        spec_records_of(spec_enc_records(rs)) == Ok::<_, DecodingError>((
            rs,
            spec_enc_records(rs).len() as int,
        )),
    decreases rs.len(),
{
    if rs.len() == 0 {
        reveal(spec_enc_records);
        assert(rs =~= Seq::<SpecRecord>::empty());
    } else {
        assert forall|i: int|
            0 <= i < rs.drop_first().len() implies #[trigger] codec::spec_record_encodable(
            rs.drop_first()[i],
        ) by {
            assert(rs.drop_first()[i] == rs[i + 1]);
        }
        lemma_records_roundtrip(rs.drop_first());
        lemma_records_roundtrip_step(rs);
    }
}

} // verus!
