//! Chunk framing: a 60-byte header overlaid on a byte region, followed by a
//! bounded payload.
//!
//! The header holds, in little-endian order: a four-byte magic, a two-byte
//! format version, a four-byte payload length, a one-byte writeback flag, the
//! inclusive time range as two eight-byte second counts, and a 33-byte
//! per-chunk public key.

use vstd::prelude::*;

use vstd::bytes::{spec_u16_from_le_bytes, spec_u32_from_le_bytes, spec_u64_from_le_bytes};

verus! {

/// Errors that can be occurred during chunk write operations.
#[derive(Clone, Copy, PartialEq, Eq, Structural, Debug)]
pub enum ChunkError {
    /// The chunk has overflowed, the input bytes are too large.
    Overflow,
}

/// The byte length of a chunk header.
pub const HEADER_LEN: usize = 60;

/// The chunk magic.
pub const CHUNK_MAGIC: u32 = 0xFEEDCA7C;

/// The byte length of a public key.
pub const PUBLIC_KEY_LEN: usize = 33;

// ============ Header fields of a byte region ============

/// The magic of the chunk that a region holds.
pub open spec fn spec_chunk_magic(region: Seq<u8>) -> u32 {
    spec_u32_from_le_bytes(region.subrange(0, 4))
}

/// The format version of the chunk that a region holds.
pub open spec fn spec_chunk_version(region: Seq<u8>) -> u16 {
    spec_u16_from_le_bytes(region.subrange(4, 6))
}

/// The payload length of the chunk that a region holds.
pub open spec fn spec_chunk_len(region: Seq<u8>) -> u32 {
    spec_u32_from_le_bytes(region.subrange(6, 10))
}

/// The writeback flag of the chunk that a region holds.
pub open spec fn spec_chunk_writeback(region: Seq<u8>) -> bool {
    region[10] != 0
}

/// The start of the time range of the chunk that a region holds, in seconds.
pub open spec fn spec_chunk_start_secs(region: Seq<u8>) -> i64 {
    spec_u64_from_le_bytes(region.subrange(11, 19)) as i64
}

/// The end of the time range of the chunk that a region holds, in seconds.
pub open spec fn spec_chunk_end_secs(region: Seq<u8>) -> i64 {
    spec_u64_from_le_bytes(region.subrange(19, 27)) as i64
}

/// The public key of the chunk that a region holds.
pub open spec fn spec_chunk_pub_key(region: Seq<u8>) -> Seq<u8> {
    region.subrange(27, 60)
}

/// The payload capacity of a region: whatever follows the header.
pub open spec fn spec_chunk_capacity(region: Seq<u8>) -> int {
    region.len() - HEADER_LEN
}

/// Validity of the chunk that a region holds: the magic matches and the
/// payload length fits the region.
pub open spec fn spec_chunk_valid(region: Seq<u8>) -> bool {
    spec_chunk_magic(region) == CHUNK_MAGIC && spec_chunk_len(region) <= spec_chunk_capacity(region)
}

/// The payload of the chunk that a region holds.
pub open spec fn spec_chunk_payload(region: Seq<u8>) -> Seq<u8> {
    region.subrange(HEADER_LEN as int, HEADER_LEN + spec_chunk_len(region))
}

/// The region of a side within a larger memory.
pub open spec fn region_of(mem: Seq<u8>, off: int, len: int) -> Seq<u8> {
    mem.subrange(off, off + len)
}

/// A region is a chunk region: it holds at least a header, its capacity is
/// addressable by the length field, and it lies within the memory.
pub open spec fn chunk_region(mem: Seq<u8>, off: int, len: int) -> bool {
    &&& HEADER_LEN <= len
    &&& len - HEADER_LEN <= u32::MAX
    &&& 0 <= off
    &&& off + len <= mem.len()
    &&& mem.len() <= usize::MAX
}

/// All header fields other than the payload length are the same in two
/// regions.
pub open spec fn spec_chunk_same_but_len(r1: Seq<u8>, r2: Seq<u8>) -> bool {
    &&& spec_chunk_magic(r2) == spec_chunk_magic(r1)
    &&& spec_chunk_version(r2) == spec_chunk_version(r1)
    &&& spec_chunk_writeback(r2) == spec_chunk_writeback(r1)
    &&& spec_chunk_start_secs(r2) == spec_chunk_start_secs(r1)
    &&& spec_chunk_end_secs(r2) == spec_chunk_end_secs(r1)
    &&& spec_chunk_pub_key(r2) == spec_chunk_pub_key(r1)
    &&& spec_chunk_capacity(r2) == spec_chunk_capacity(r1)
}

/// Bytes outside `[off, off + len)` are the same in two memories.
pub open spec fn frame_outside(m1: Seq<u8>, m2: Seq<u8>, off: int, len: int) -> bool {
    &&& m2.len() == m1.len()
    &&& forall|i: int| 0 <= i < m1.len() && !(off <= i < off + len) ==> m2[i] == m1[i]
}

// ============ Byte writing ============

/// Overwrites `mem[at .. at + bytes.len()]` with `bytes`.
pub(crate) fn write_bytes_at(mem: &mut Vec<u8>, at: usize, bytes: &[u8])
    requires
        at + bytes@.len() <= old(mem)@.len(),
        old(mem)@.len() <= usize::MAX,
    ensures
        final(mem)@.len() == old(mem)@.len(),
        forall|i: int|
            0 <= i < old(mem)@.len() ==> final(mem)@[i] == (if at <= i < at + bytes@.len() {
                bytes@[i - at]
            } else {
                old(mem)@[i]
            }),
{
    let mut i: usize = 0;
    while i < bytes.len()
        invariant
            0 <= i <= bytes@.len(),
            at + bytes@.len() <= mem@.len(),
            mem@.len() <= usize::MAX,
            mem@.len() == old(mem)@.len(),
            forall|j: int|
                0 <= j < mem@.len() ==> mem@[j] == (if at <= j < at + i {
                    bytes@[j - at]
                } else {
                    old(mem)@[j]
                }),
        decreases bytes@.len() - i,
    {
        mem[at + i] = bytes[i];
        i = i + 1;
    }
}

// ============ Readers ============

/// Reads the payload length of the chunk on the region at `off`.
pub fn chunk_payload_len(mem: &Vec<u8>, off: usize, len: usize) -> (r: usize)
    requires
        chunk_region(mem@, off as int, len as int),
    ensures
        r == spec_chunk_len(region_of(mem@, off as int, len as int)),
{
    let r = vstd::bytes::u32_from_le_bytes(&mem[off + 6..off + 10]);
    proof {
        assert(mem@.subrange(off + 6, off + 10) =~= region_of(
            mem@,
            off as int,
            len as int,
        ).subrange(6, 10));
    }
    r as usize
}

/// Checks the correctness of the chunk on the region at `off`: the magic
/// matches and the payload length fits.
pub fn chunk_validate(mem: &Vec<u8>, off: usize, len: usize) -> (r: bool)
    requires
        chunk_region(mem@, off as int, len as int),
    ensures
        r == spec_chunk_valid(region_of(mem@, off as int, len as int)),
{
    let magic = vstd::bytes::u32_from_le_bytes(&mem[off..off + 4]);
    let payload_len = chunk_payload_len(mem, off, len);
    proof {
        assert(mem@.subrange(off as int, off + 4) =~= region_of(
            mem@,
            off as int,
            len as int,
        ).subrange(0, 4));
    }
    magic == CHUNK_MAGIC && payload_len <= len - HEADER_LEN
}

/// Reads the format version of the chunk on the region at `off`.
pub fn chunk_version(mem: &Vec<u8>, off: usize, len: usize) -> (r: u16)
    requires
        chunk_region(mem@, off as int, len as int),
    ensures
        r == spec_chunk_version(region_of(mem@, off as int, len as int)),
{
    let r = vstd::bytes::u16_from_le_bytes(&mem[off + 4..off + 6]);
    proof {
        assert(mem@.subrange(off + 4, off + 6) =~= region_of(
            mem@,
            off as int,
            len as int,
        ).subrange(4, 6));
    }
    r
}

/// Reads the writeback flag of the chunk on the region at `off`.
pub fn chunk_writeback(mem: &Vec<u8>, off: usize, len: usize) -> (r: bool)
    requires
        chunk_region(mem@, off as int, len as int),
    ensures
        r == spec_chunk_writeback(region_of(mem@, off as int, len as int)),
{
    mem[off + 10] != 0
}

/// Reads the start of the time range of the chunk on the region at `off`.
pub fn chunk_start_secs(mem: &Vec<u8>, off: usize, len: usize) -> (r: i64)
    requires
        chunk_region(mem@, off as int, len as int),
    ensures
        r == spec_chunk_start_secs(region_of(mem@, off as int, len as int)),
{
    let raw = vstd::bytes::u64_from_le_bytes(&mem[off + 11..off + 19]);
    proof {
        assert(mem@.subrange(off + 11, off + 19) =~= region_of(
            mem@,
            off as int,
            len as int,
        ).subrange(11, 19));
    }
    #[verifier::truncate] (raw as i64)
}

/// Reads the end of the time range of the chunk on the region at `off`.
pub fn chunk_end_secs(mem: &Vec<u8>, off: usize, len: usize) -> (r: i64)
    requires
        chunk_region(mem@, off as int, len as int),
    ensures
        r == spec_chunk_end_secs(region_of(mem@, off as int, len as int)),
{
    let raw = vstd::bytes::u64_from_le_bytes(&mem[off + 19..off + 27]);
    proof {
        assert(mem@.subrange(off + 19, off + 27) =~= region_of(
            mem@,
            off as int,
            len as int,
        ).subrange(19, 27));
    }
    #[verifier::truncate] (raw as i64)
}

/// Copies the public key of the chunk on the region at `off`.
pub fn chunk_pub_key(mem: &Vec<u8>, off: usize, len: usize) -> (r: Vec<u8>)
    requires
        chunk_region(mem@, off as int, len as int),
    ensures
        r@ == spec_chunk_pub_key(region_of(mem@, off as int, len as int)),
        r@.len() == PUBLIC_KEY_LEN,
{
    let mut r: Vec<u8> = Vec::new();
    let mut i: usize = 0;
    while i < PUBLIC_KEY_LEN
        invariant
            0 <= i <= PUBLIC_KEY_LEN,
            off + 60 <= mem@.len() <= usize::MAX,
            chunk_region(mem@, off as int, len as int),
            r@ == mem@.subrange(off + 27, off + 27 + i),
        decreases PUBLIC_KEY_LEN - i,
    {
        r.push(mem[off + 27 + i]);
        i = i + 1;
        proof {
            assert(r@ =~= mem@.subrange(off + 27, off + 27 + i));
        }
    }
    proof {
        assert(r@ =~= region_of(mem@, off as int, len as int).subrange(27, 60));
    }
    r
}

/// Checks whether the chunk on the region at `off` is almost full: its
/// payload occupies at least four fifths of the capacity.
pub fn chunk_is_almost_full(mem: &Vec<u8>, off: usize, len: usize) -> (r: bool)
    requires
        chunk_region(mem@, off as int, len as int),
    ensures
        r == (5 * spec_chunk_len(region_of(mem@, off as int, len as int)) >= 4 * spec_chunk_capacity(
            region_of(mem@, off as int, len as int),
        )),
{
    let payload_len = chunk_payload_len(mem, off, len);
    5 * (payload_len as u64) >= 4 * ((len - HEADER_LEN) as u64)
}

/// Copies the whole chunk on the region at `off`: its header and its payload,
/// up to the payload length.
pub fn chunk_bytes(mem: &Vec<u8>, off: usize, len: usize) -> (r: Vec<u8>)
    requires
        chunk_region(mem@, off as int, len as int),
        spec_chunk_valid(region_of(mem@, off as int, len as int)),
    ensures
        r@ == region_of(mem@, off as int, len as int).take(
            HEADER_LEN + spec_chunk_len(region_of(mem@, off as int, len as int)),
        ),
{
    let payload_len = chunk_payload_len(mem, off, len);
    let total = HEADER_LEN + payload_len;
    let mut r: Vec<u8> = Vec::new();
    let mut i: usize = 0;
    while i < total
        invariant
            0 <= i <= total,
            off + total <= mem@.len(),
            mem@.len() <= usize::MAX,
            r@ == mem@.subrange(off as int, off + i),
        decreases total - i,
    {
        r.push(mem[off + i]);
        i = i + 1;
        proof {
            assert(r@ =~= mem@.subrange(off as int, off + i));
        }
    }
    proof {
        assert(r@ =~= region_of(mem@, off as int, len as int).take(total as int));
    }
    r
}

// ============ Writers ============

/// Initializes the chunk on the region at `off`: the magic, the current
/// format version, an empty payload, a clear writeback flag, both ends of the
/// time range at `secs`, and the given public key.
pub fn chunk_initialize(mem: &mut Vec<u8>, off: usize, len: usize, secs: i64, pub_key: &[u8])
    requires
        chunk_region(old(mem)@, off as int, len as int),
        pub_key@.len() == PUBLIC_KEY_LEN,
    ensures
        frame_outside(old(mem)@, final(mem)@, off as int, HEADER_LEN as int),
        ({
            let region = region_of(final(mem)@, off as int, len as int);
            &&& spec_chunk_valid(region)
            &&& spec_chunk_magic(region) == CHUNK_MAGIC
            &&& spec_chunk_version(region) == crate::FORMAT_VERSION
            &&& spec_chunk_len(region) == 0
            &&& !spec_chunk_writeback(region)
            &&& spec_chunk_start_secs(region) == secs
            &&& spec_chunk_end_secs(region) == secs
            &&& spec_chunk_pub_key(region) == pub_key@
        }),
{
    let magic = vstd::bytes::u32_to_le_bytes(CHUNK_MAGIC);
    write_bytes_at(mem, off, magic.as_slice());
    let version = vstd::bytes::u16_to_le_bytes(crate::FORMAT_VERSION);
    write_bytes_at(mem, off + 4, version.as_slice());
    let zero_len = vstd::bytes::u32_to_le_bytes(0);
    write_bytes_at(mem, off + 6, zero_len.as_slice());
    let flag = [0u8];
    write_bytes_at(mem, off + 10, flag.as_slice());
    let secs_bytes = vstd::bytes::u64_to_le_bytes(secs as u64);
    write_bytes_at(mem, off + 11, secs_bytes.as_slice());
    write_bytes_at(mem, off + 19, secs_bytes.as_slice());
    write_bytes_at(mem, off + 27, pub_key);
    proof {
        vstd::bytes::lemma_auto_spec_u32_to_from_le_bytes();
        vstd::bytes::lemma_auto_spec_u16_to_from_le_bytes();
        vstd::bytes::lemma_auto_spec_u64_to_from_le_bytes();
        let region = region_of(mem@, off as int, len as int);
        assert(region.subrange(0, 4) =~= vstd::bytes::spec_u32_to_le_bytes(CHUNK_MAGIC));
        assert(region.subrange(4, 6) =~= vstd::bytes::spec_u16_to_le_bytes(crate::FORMAT_VERSION));
        assert(region.subrange(6, 10) =~= vstd::bytes::spec_u32_to_le_bytes(0));
        assert(region[10] == 0);
        assert(region.subrange(11, 19) =~= vstd::bytes::spec_u64_to_le_bytes(secs as u64));
        assert(region.subrange(19, 27) =~= vstd::bytes::spec_u64_to_le_bytes(secs as u64));
        assert(region.subrange(27, 60) =~= pub_key@);
        assert(secs as u64 as i64 == secs) by (bit_vector);
    }
}

/// Writes bytes to the payload of the chunk on the region at `off`: appends
/// them after the current payload and advances the length, or fails with
/// `Overflow`, leaving the memory unchanged, exactly when they do not fit
/// the capacity.
pub fn chunk_write(mem: &mut Vec<u8>, off: usize, len: usize, bytes: &[u8]) -> (r: Result<
    (),
    ChunkError,
>)
    requires
        chunk_region(old(mem)@, off as int, len as int),
    ensures
        ({
            let region = region_of(old(mem)@, off as int, len as int);
            let new_region = region_of(final(mem)@, off as int, len as int);
            match r {
                Ok(()) => {
                    &&& spec_chunk_len(region) + bytes@.len() <= spec_chunk_capacity(region)
                    &&& spec_chunk_len(new_region) == spec_chunk_len(region) + bytes@.len()
                    &&& spec_chunk_same_but_len(region, new_region)
                    &&& spec_chunk_payload(new_region) == spec_chunk_payload(region) + bytes@
                    &&& frame_outside(old(mem)@, final(mem)@, off as int, len as int)
                },
                Err(ChunkError::Overflow) => {
                    &&& spec_chunk_len(region) + bytes@.len() > spec_chunk_capacity(region)
                    &&& final(mem)@ == old(mem)@
                },
            }
        }),
{
    let cur = chunk_payload_len(mem, off, len);
    let capacity = len - HEADER_LEN;
    if cur > capacity || bytes.len() > capacity - cur {
        return Err(ChunkError::Overflow);
    }
    let ghost old_mem = mem@;
    let ghost region = region_of(old(mem)@, off as int, len as int);
    write_bytes_at(mem, off + HEADER_LEN + cur, bytes);
    let ghost mid_mem = mem@;
    let new_len_bytes = vstd::bytes::u32_to_le_bytes((cur + bytes.len()) as u32);
    write_bytes_at(mem, off + 6, new_len_bytes.as_slice());
    proof {
        vstd::bytes::lemma_auto_spec_u32_to_from_le_bytes();
        let new_region = region_of(mem@, off as int, len as int);
        assert(new_region.subrange(6, 10) =~= vstd::bytes::spec_u32_to_le_bytes(
            (spec_chunk_len(region) + bytes@.len()) as u32,
        ));
        assert(new_region.subrange(0, 4) =~= region.subrange(0, 4));
        assert(new_region.subrange(4, 6) =~= region.subrange(4, 6));
        assert(new_region[10] == region[10]);
        assert(new_region.subrange(11, 19) =~= region.subrange(11, 19));
        assert(new_region.subrange(19, 27) =~= region.subrange(19, 27));
        assert(new_region.subrange(27, 60) =~= region.subrange(27, 60));
        assert(spec_chunk_payload(new_region) =~= spec_chunk_payload(region) + bytes@);
    }
    Ok(())
}

/// Sets the end of the time range of the chunk on the region at `off`.
pub fn chunk_set_end(mem: &mut Vec<u8>, off: usize, len: usize, secs: i64)
    requires
        chunk_region(old(mem)@, off as int, len as int),
        spec_chunk_valid(region_of(old(mem)@, off as int, len as int)),
    ensures
        ({
            let region = region_of(old(mem)@, off as int, len as int);
            let new_region = region_of(final(mem)@, off as int, len as int);
            &&& spec_chunk_end_secs(new_region) == secs
            &&& spec_chunk_magic(new_region) == spec_chunk_magic(region)
            &&& spec_chunk_version(new_region) == spec_chunk_version(region)
            &&& spec_chunk_len(new_region) == spec_chunk_len(region)
            &&& spec_chunk_writeback(new_region) == spec_chunk_writeback(region)
            &&& spec_chunk_start_secs(new_region) == spec_chunk_start_secs(region)
            &&& spec_chunk_pub_key(new_region) == spec_chunk_pub_key(region)
            &&& spec_chunk_payload(new_region) == spec_chunk_payload(region)
            &&& frame_outside(old(mem)@, final(mem)@, off as int, len as int)
        }),
{
    let ghost region = region_of(old(mem)@, off as int, len as int);
    let secs_bytes = vstd::bytes::u64_to_le_bytes(secs as u64);
    write_bytes_at(mem, off + 19, secs_bytes.as_slice());
    proof {
        vstd::bytes::lemma_auto_spec_u64_to_from_le_bytes();
        let new_region = region_of(mem@, off as int, len as int);
        assert(new_region.subrange(19, 27) =~= vstd::bytes::spec_u64_to_le_bytes(secs as u64));
        assert(new_region.subrange(0, 4) =~= region.subrange(0, 4));
        assert(new_region.subrange(4, 6) =~= region.subrange(4, 6));
        assert(new_region.subrange(6, 10) =~= region.subrange(6, 10));
        assert(new_region[10] == region[10]);
        assert(new_region.subrange(11, 19) =~= region.subrange(11, 19));
        assert(new_region.subrange(27, 60) =~= region.subrange(27, 60));
        assert(spec_chunk_len(new_region) == spec_chunk_len(region));
        assert forall|i: int| 0 <= i < spec_chunk_payload(region).len() implies spec_chunk_payload(
            new_region,
        )[i] == spec_chunk_payload(region)[i] by {
            assert(new_region[60 + i] == mem@[off + 60 + i]);
            assert(region[60 + i] == old(mem)@[off + 60 + i]);
        }
        assert(spec_chunk_payload(new_region) =~= spec_chunk_payload(region));
        assert(secs as u64 as i64 == secs) by (bit_vector);
    }
}

/// Sets the writeback flag of the chunk on the region at `off`.
pub fn chunk_set_writeback(mem: &mut Vec<u8>, off: usize, len: usize)
    requires
        chunk_region(old(mem)@, off as int, len as int),
        spec_chunk_valid(region_of(old(mem)@, off as int, len as int)),
    ensures
        ({
            let region = region_of(old(mem)@, off as int, len as int);
            let new_region = region_of(final(mem)@, off as int, len as int);
            &&& spec_chunk_writeback(new_region)
            &&& spec_chunk_magic(new_region) == spec_chunk_magic(region)
            &&& spec_chunk_version(new_region) == spec_chunk_version(region)
            &&& spec_chunk_len(new_region) == spec_chunk_len(region)
            &&& spec_chunk_start_secs(new_region) == spec_chunk_start_secs(region)
            &&& spec_chunk_end_secs(new_region) == spec_chunk_end_secs(region)
            &&& spec_chunk_pub_key(new_region) == spec_chunk_pub_key(region)
            &&& spec_chunk_payload(new_region) == spec_chunk_payload(region)
            &&& frame_outside(old(mem)@, final(mem)@, off as int, len as int)
        }),
{
    let ghost region = region_of(old(mem)@, off as int, len as int);
    let flag = [1u8];
    write_bytes_at(mem, off + 10, flag.as_slice());
    proof {
        let new_region = region_of(mem@, off as int, len as int);
        assert(new_region[10] == 1);
        assert(new_region.subrange(0, 4) =~= region.subrange(0, 4));
        assert(new_region.subrange(4, 6) =~= region.subrange(4, 6));
        assert(new_region.subrange(6, 10) =~= region.subrange(6, 10));
        assert(new_region.subrange(11, 19) =~= region.subrange(11, 19));
        assert(new_region.subrange(19, 27) =~= region.subrange(19, 27));
        assert(new_region.subrange(27, 60) =~= region.subrange(27, 60));
        assert(spec_chunk_len(new_region) == spec_chunk_len(region));
        assert forall|i: int| 0 <= i < spec_chunk_payload(region).len() implies spec_chunk_payload(
            new_region,
        )[i] == spec_chunk_payload(region)[i] by {
            assert(new_region[60 + i] == mem@[off + 60 + i]);
            assert(region[60 + i] == old(mem)@[off + 60 + i]);
        }
        assert(spec_chunk_payload(new_region) =~= spec_chunk_payload(region));
    }
}

/// Clears the payload of the chunk on the region at `off`: sets its length to
/// zero, preserving the rest of the header.
pub fn chunk_clear(mem: &mut Vec<u8>, off: usize, len: usize)
    requires
        chunk_region(old(mem)@, off as int, len as int),
    ensures
        ({
            let region = region_of(old(mem)@, off as int, len as int);
            let new_region = region_of(final(mem)@, off as int, len as int);
            &&& spec_chunk_len(new_region) == 0
            &&& spec_chunk_same_but_len(region, new_region)
            &&& frame_outside(old(mem)@, final(mem)@, off as int, len as int)
        }),
{
    let ghost region = region_of(old(mem)@, off as int, len as int);
    let zero_len = vstd::bytes::u32_to_le_bytes(0);
    write_bytes_at(mem, off + 6, zero_len.as_slice());
    proof {
        vstd::bytes::lemma_auto_spec_u32_to_from_le_bytes();
        let new_region = region_of(mem@, off as int, len as int);
        assert(new_region.subrange(6, 10) =~= vstd::bytes::spec_u32_to_le_bytes(0));
        assert(new_region.subrange(0, 4) =~= region.subrange(0, 4));
        assert(new_region.subrange(4, 6) =~= region.subrange(4, 6));
        assert(new_region[10] == region[10]);
        assert(new_region.subrange(11, 19) =~= region.subrange(11, 19));
        assert(new_region.subrange(19, 27) =~= region.subrange(19, 27));
        assert(new_region.subrange(27, 60) =~= region.subrange(27, 60));
    }
}

} // verus!
