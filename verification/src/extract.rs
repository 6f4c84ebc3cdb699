//! Extraction: selecting the candidate logfiles for a time window and
//! copying the chunks that overlap it, verbatim, into one destination
//! stream. The result is still encoded, compressed and encrypted; it parses
//! with the same secret key as the originals.

use vstd::prelude::*;

use crate::chunk;
use crate::parse::{ReadError, Reader};

verus! {

/// Errors that can be occurred during the log extraction process.
#[derive(Clone, Copy, PartialEq, Eq, Structural, Debug)]
pub enum ExtractionError {
    /// An underlying input or output failure; reported by the caller that
    /// reads and writes the files, never by the byte-level extraction
    /// itself.
    Io,
    /// A candidate file holds bytes that are not a chunk.
    FileInvalid,
    /// A candidate file ends inside a chunk.
    FileIncomplete,
    /// Logs in the specified time range were not found.
    NotFound,
}

/// Selects the window of candidate files out of timestamps sorted ascending:
/// walking in order, stop at the first file at or past the range's end;
/// whenever a file at or before the range's start appears, it supersedes
/// everything before it as the starting bucket. The result is the window
/// `[lo, hi)`.
pub fn select_logfiles(sorted_secs: &Vec<i64>, start_secs: i64, end_secs: i64) -> (r: (
    usize,
    usize,
))
    requires
        forall|i: int, j: int|
            0 <= i < j < sorted_secs@.len() ==> sorted_secs@[i] <= sorted_secs@[j],
    ensures
        0 <= r.0 <= r.1 <= sorted_secs@.len(),
        forall|j: int| r.0 <= j < r.1 ==> sorted_secs@[j] < end_secs,
        r.1 < sorted_secs@.len() ==> sorted_secs@[r.1 as int] >= end_secs,
        forall|j: int| r.0 < j < r.1 ==> sorted_secs@[j] > start_secs,
        r.0 < r.1 && sorted_secs@[r.0 as int] > start_secs ==> r.0 == 0,
        r.0 > 0 ==> r.0 < r.1 && sorted_secs@[r.0 as int] <= start_secs,
{
    let n = sorted_secs.len();
    let mut hi: usize = 0;
    let mut lo: usize = 0;
    while hi < n && sorted_secs[hi] < end_secs
        invariant
            0 <= lo <= hi <= n == sorted_secs@.len(),
            forall|i: int, j: int| 0 <= i < j < n ==> sorted_secs@[i] <= sorted_secs@[j],
            forall|j: int| 0 <= j < hi ==> sorted_secs@[j] < end_secs,
            forall|j: int| lo < j < hi ==> sorted_secs@[j] > start_secs,
            lo < hi || lo == 0,
            lo < hi && sorted_secs@[lo as int] > start_secs ==> lo == 0,
            lo > 0 ==> lo < hi && sorted_secs@[lo as int] <= start_secs,
            lo < hi ==> sorted_secs@[lo as int] < end_secs,
        decreases n - hi,
    {
        if sorted_secs[hi] <= start_secs {
            lo = hi;
        }
        hi = hi + 1;
    }
    (lo, hi)
}

/// What extraction keeps of one file, walking its chunks from `pos`: every
/// chunk overlapping the inclusive time range is kept verbatim — header and
/// payload — chunks wholly before the range are skipped, the walk stops at
/// the first chunk starting past the range's end, and broken framing is the
/// walk's error.
pub open spec fn spec_extract_walk(data: Seq<u8>, pos: int, start_secs: i64, end_secs: i64) -> Result<
    Seq<u8>,
    ReadError,
>
    decreases data.len() - pos,
{
    if pos < 0 || pos > data.len() {
        Err(ReadError::Invalid)
    } else if pos == data.len() {
        Ok(Seq::empty())
    } else if data.len() - pos < chunk::HEADER_LEN {
        Err(ReadError::UnexpectedEnd)
    } else {
        let region = data.subrange(pos, pos + chunk::HEADER_LEN);
        if chunk::spec_chunk_magic(region) != chunk::CHUNK_MAGIC {
            Err(ReadError::Invalid)
        } else {
            let len = chunk::spec_chunk_len(region) as int;
            if chunk::spec_chunk_start_secs(region) > end_secs {
                Ok(Seq::empty())
            } else if chunk::spec_chunk_end_secs(region) < start_secs {
                if pos + chunk::HEADER_LEN + len >= data.len() {
                    Ok(Seq::empty())
                } else {
                    spec_extract_walk(data, pos + chunk::HEADER_LEN + len, start_secs, end_secs)
                }
            } else {
                if data.len() - pos - chunk::HEADER_LEN < len {
                    Err(ReadError::UnexpectedEnd)
                } else {
                    match spec_extract_walk(
                        data,
                        pos + chunk::HEADER_LEN + len,
                        start_secs,
                        end_secs,
                    ) {
                        Ok(rest) => Ok(
                            data.subrange(pos, pos + chunk::HEADER_LEN + len) + rest,
                        ),
                        Err(e) => Err(e),
                    }
                }
            }
        }
    }
}

/// Folds already-copied bytes into the result of walking the rest of a file.
pub open spec fn extract_combine(acc: Seq<u8>, rest: Result<Seq<u8>, ReadError>) -> Result<
    Seq<u8>,
    ReadError,
> {
    match rest {
        Ok(s) => Ok(acc + s),
        Err(e) => Err(e),
    }
}

/// Copies every chunk of one file that overlaps the inclusive time range
/// `[start_secs, end_secs]` — header and payload verbatim — to `out`.
/// Chunks wholly before the range are skipped; reading stops early at the
/// first chunk starting past the range's end. Fails exactly as the chunk
/// walk does on broken framing; nothing of the failing chunk is kept.
#[verifier::rlimit(100)]
pub fn extract_chunks(data: Vec<u8>, start_secs: i64, end_secs: i64, out: &mut Vec<u8>) -> (r:
    Result<(), ReadError>)
    ensures
        final(out)@.len() >= old(out)@.len(),
        final(out)@.take(old(out)@.len() as int) == old(out)@,
        match r {
            Ok(()) => (spec_extract_walk(data@, 0, start_secs, end_secs) matches Ok(kept) && final(out)@ == old(out)@ + kept),
            Err(e) => spec_extract_walk(data@, 0, start_secs, end_secs) == Err::<Seq<u8>, _>(e),
        },
{
    proof {
        assert(old(out)@.take(old(out)@.len() as int) =~= old(out)@);
    }
    let mut reader = Reader::new(data);
    loop
        invariant
            reader.wf(),
            reader.spec_data() == data@,
            out@.len() >= old(out)@.len(),
            out@.take(old(out)@.len() as int) == old(out)@,
            spec_extract_walk(data@, 0, start_secs, end_secs) == extract_combine(
                out@.skip(old(out)@.len() as int),
                spec_extract_walk(data@, reader.spec_pos(), start_secs, end_secs),
            ),
        decreases reader.spec_data().len() - reader.spec_pos(),
    {
        let ghost pos_before = reader.spec_pos();
        let ghost acc = out@.skip(old(out)@.len() as int);
        let header = match reader.read_header_or_reach_to_end() {
            Ok(Some(h)) => h,
            Ok(None) => {
                proof {
                    assert(out@ =~= old(out)@ + acc);
                    assert(acc + Seq::<u8>::empty() =~= acc);
                }
                return Ok(());
            },
            Err(e) => {
                return Err(e);
            },
        };
        if header.start_secs > end_secs {
            proof {
                assert(out@ =~= old(out)@ + acc);
                assert(acc + Seq::<u8>::empty() =~= acc);
            }
            return Ok(());
        }
        let ghost region = data@.subrange(pos_before, pos_before + chunk::HEADER_LEN);
        if header.end_secs < start_secs {
            reader.skip(header.length as usize);
            if reader.position() >= reader.data_len() {
                proof {
                    assert(out@ =~= old(out)@ + acc);
                    assert(acc + Seq::<u8>::empty() =~= acc);
                }
                return Ok(());
            }
            proof {
                assert(reader.spec_pos() == pos_before + chunk::HEADER_LEN + header.length);
            }
            continue ;
        }
        let p = reader.position();
        proof {
            assert(p >= chunk::HEADER_LEN);
        }
        let header_bytes = reader.raw_range(p - chunk::HEADER_LEN, p);
        crate::common::append_bytes(out, header_bytes.as_slice());
        let payload = match reader.read_payload(header.length as usize) {
            Ok(p) => p,
            Err(e) => {
                proof {
                    assert(out@.take(old(out)@.len() as int) =~= old(out)@);
                }
                return Err(e);
            },
        };
        crate::common::append_bytes(out, payload.as_slice());
        proof {
            assert(out@.take(old(out)@.len() as int) =~= old(out)@);
            let sub = data@.subrange(
                pos_before,
                pos_before + chunk::HEADER_LEN + header.length,
            );
            assert(out@.skip(old(out)@.len() as int) =~= acc + sub);
            assert(reader.spec_pos() == pos_before + chunk::HEADER_LEN + header.length);
            match spec_extract_walk(data@, reader.spec_pos(), start_secs, end_secs) {
                Ok(rest) => {
                    assert((acc + sub) + rest =~= acc + (sub + rest));
                },
                Err(e) => {
                },
            }
        }
    }
}

/// The byte views of a set of files.
pub open spec fn spec_file_views(files: Seq<Vec<u8>>) -> Seq<Seq<u8>> {
    files.map_values(|v: Vec<u8>| v@)
}

/// What extraction keeps of a set of files, walking each in order: the
/// concatenation of every file's kept chunks, or the first file's framing
/// error.
pub open spec fn spec_extract_files(files: Seq<Seq<u8>>, start_secs: i64, end_secs: i64) -> Result<
    Seq<u8>,
    ReadError,
>
    decreases files.len(),
{
    if files.len() == 0 {
        Ok(Seq::empty())
    } else {
        match spec_extract_walk(files[0], 0, start_secs, end_secs) {
            Err(e) => Err(e),
            Ok(kept) => match spec_extract_files(files.drop_first(), start_secs, end_secs) {
                Ok(rest) => Ok(kept + rest),
                Err(e) => Err(e),
            },
        }
    }
}

/// Extracts the chunks overlapping the inclusive time range from a set of
/// candidate files — each given as its bytes, already selected and ordered
/// by [`select_logfiles`] — into one stream: exactly the concatenation of
/// every file's kept chunks, in file order. Fails with `NotFound` exactly
/// when the walks kept nothing, and maps a file's framing error.
pub fn extract(files: Vec<Vec<u8>>, start_secs: i64, end_secs: i64) -> (r: Result<
    Vec<u8>,
    ExtractionError,
>)
    ensures
        ({
            let w = spec_extract_files(spec_file_views(files@), start_secs, end_secs);
            match r {
                Ok(v) => w == Ok::<_, ReadError>(v@) && v@.len() > 0,
                Err(ExtractionError::NotFound) => (w matches Ok(kept) && kept.len() == 0),
                Err(ExtractionError::FileInvalid) => w == Err::<Seq<u8>, _>(ReadError::Invalid),
                Err(ExtractionError::FileIncomplete) => w == Err::<Seq<u8>, _>(
                    ReadError::UnexpectedEnd,
                ),
                Err(ExtractionError::Io) => false,
            }
        }),
{
    let ghost orig = spec_file_views(files@);
    let mut out: Vec<u8> = Vec::new();
    let mut remaining = files;
    proof {
        assert(Seq::<u8>::empty() + out@ =~= out@);
    }
    loop
        invariant
            orig == spec_file_views(files@),
            ({
                let rem = spec_file_views(remaining@);
                match spec_extract_files(rem, start_secs, end_secs) {
                    Ok(rest) => spec_extract_files(orig, start_secs, end_secs) == Ok::<
                        _,
                        ReadError,
                    >(out@ + rest),
                    Err(e) => spec_extract_files(orig, start_secs, end_secs) == Err::<Seq<u8>, _>(
                        e,
                    ),
                }
            }),
        ensures
            remaining@.len() == 0,
        decreases remaining@.len(),
    {
        if remaining.len() == 0 {
            break ;
        }
        let ghost rem = spec_file_views(remaining@);
        let ghost out_pre = out@;
        let data = remaining.remove(0);
        proof {
            assert(spec_file_views(remaining@) =~= rem.drop_first());
            assert(rem[0] == data@);
        }
        match extract_chunks(data, start_secs, end_secs, &mut out) {
            Ok(()) => {
                proof {
                    match spec_extract_walk(rem[0], 0, start_secs, end_secs) {
                        Ok(kept) => {
                            assert(out@ =~= out_pre + kept);
                            match spec_extract_files(rem.drop_first(), start_secs, end_secs) {
                                Ok(rest) => {
                                    assert((out_pre + kept) + rest =~= out_pre + (kept + rest));
                                },
                                Err(e) => {
                                },
                            }
                        },
                        Err(e) => {
                            assert(false);
                        },
                    }
                }
            },
            Err(ReadError::Invalid) => {
                return Err(ExtractionError::FileInvalid);
            },
            Err(ReadError::UnexpectedEnd) => {
                return Err(ExtractionError::FileIncomplete);
            },
        }
    }
    proof {
        assert(spec_file_views(remaining@).len() == 0);
        assert(out@ + Seq::<u8>::empty() =~= out@);
    }
    if out.len() == 0 {
        Err(ExtractionError::NotFound)
    } else {
        Ok(out)
    }
}

} // verus!
