//! A double-buffering layout over a single byte region.
//!
//! The region is split as an 8-byte header followed by two equal sides, the
//! Alpha slot and the Beta slot. The header stores a magic and which named
//! side — Left or Right — currently addresses the Alpha slot. A handle named
//! Left addresses the Alpha slot while the header says Left, and the Beta
//! slot otherwise, so the two named handles always address different slots;
//! switching flips the header and thereby swaps the slots the names address,
//! without moving a byte of either slot.

use vstd::prelude::*;

use crate::chunk::{frame_outside, region_of};
use vstd::bytes::spec_u32_from_le_bytes;

verus! {

/// The buffer header magic.
pub const BUFFER_MAGIC: u32 = 0xFEEDCA7B;

/// The byte length of the buffer header.
pub const BUFFER_HEADER_LEN: usize = 8;

/// The header value naming the Left side.
pub const LEFT_RAW: u32 = 0xABC;

/// The header value naming the Right side.
pub const RIGHT_RAW: u32 = 0xDEF;

/// Represents which named side a component addresses in the double buffer.
#[derive(Clone, Copy, PartialEq, Eq, Structural, Debug)]
pub enum Side {
    Left,
    Right,
}

/// The header encoding of a named side.
pub open spec fn spec_side_raw(side: Side) -> u32 {
    match side {
        Side::Left => LEFT_RAW,
        Side::Right => RIGHT_RAW,
    }
}

/// The other named side.
pub open spec fn spec_opposite(side: Side) -> Side {
    match side {
        Side::Left => Side::Right,
        Side::Right => Side::Left,
    }
}

impl Side {
    /// Returns the header encoding of this side.
    pub fn raw(&self) -> (r: u32)
        ensures
            r == spec_side_raw(*self),
    {
        match self {
            Side::Left => LEFT_RAW,
            Side::Right => RIGHT_RAW,
        }
    }

    /// Returns the other named side.
    pub fn not(self) -> (r: Side)
        ensures
            r == spec_opposite(self),
    {
        match self {
            Side::Left => Side::Right,
            Side::Right => Side::Left,
        }
    }
}

/// The double buffer: an owned byte region under the layout above.
pub struct DoubleBuffer {
    /// The underlying byte region.
    pub mem: Vec<u8>,
}

impl DoubleBuffer {
    /// The magic stored in the header.
    pub open spec fn spec_magic(&self) -> u32 {
        spec_u32_from_le_bytes(self.mem@.subrange(0, 4))
    }

    /// The raw side value stored in the header.
    pub open spec fn spec_alpha_raw(&self) -> u32 {
        spec_u32_from_le_bytes(self.mem@.subrange(4, 8))
    }

    /// Header validity: the magic matches and the side value names a side.
    pub open spec fn header_valid(&self) -> bool {
        self.spec_magic() == BUFFER_MAGIC && (self.spec_alpha_raw() == LEFT_RAW
            || self.spec_alpha_raw() == RIGHT_RAW)
    }

    /// Well-formedness: the region holds the header and the header is valid.
    pub open spec fn wf(&self) -> bool {
        self.mem@.len() >= BUFFER_HEADER_LEN && self.mem@.len() <= usize::MAX
            && self.header_valid()
    }

    /// The byte length of each side.
    pub open spec fn spec_side_len(&self) -> int {
        (self.mem@.len() - BUFFER_HEADER_LEN) / 2
    }

    /// The offset of the slot that the handle named `side` addresses: the
    /// Alpha slot just after the header when the header names `side`, and
    /// the Beta slot after it otherwise.
    pub open spec fn spec_side_offset(&self, side: Side) -> int {
        if self.spec_alpha_raw() == spec_side_raw(side) {
            BUFFER_HEADER_LEN as int
        } else {
            BUFFER_HEADER_LEN + self.spec_side_len()
        }
    }

    /// Wraps a byte region in the double-buffering layout, re-initializing
    /// the header — Alpha at Left — exactly when it is invalid. The two
    /// sides' bytes are never touched.
    pub fn new(mem: Vec<u8>) -> (r: DoubleBuffer)
        requires
            mem@.len() >= BUFFER_HEADER_LEN,
        ensures
            r.wf(),
            r.mem@.len() == mem@.len(),
            frame_outside(mem@, r.mem@, 0, BUFFER_HEADER_LEN as int),
            ({
                let prior = DoubleBuffer { mem };
                prior.header_valid() ==> r.mem@ == mem@
            }),
            ({
                let prior = DoubleBuffer { mem };
                !prior.header_valid() ==> r.spec_alpha_raw() == LEFT_RAW
            }),
    {
        let mut buf = DoubleBuffer { mem };
        let n = buf.mem.len();
        proof {
            assert(buf.mem@.len() == n);
        }
        let magic = vstd::bytes::u32_from_le_bytes(&buf.mem[0..4]);
        let alpha = vstd::bytes::u32_from_le_bytes(&buf.mem[4..8]);
        proof {
            assert(buf.mem@.subrange(0, 4) =~= buf.spec_magic_bytes());
            assert(buf.mem@.subrange(4, 8) =~= buf.spec_alpha_bytes());
        }
        if !(magic == BUFFER_MAGIC && (alpha == LEFT_RAW || alpha == RIGHT_RAW)) {
            buf.write_header(BUFFER_MAGIC, LEFT_RAW);
        }
        buf
    }

    /// The header's magic bytes.
    pub open spec fn spec_magic_bytes(&self) -> Seq<u8> {
        self.mem@.subrange(0, 4)
    }

    /// The header's side bytes.
    pub open spec fn spec_alpha_bytes(&self) -> Seq<u8> {
        self.mem@.subrange(4, 8)
    }

    /// Writes the header fields.
    fn write_header(&mut self, magic: u32, alpha: u32)
        requires
            old(self).mem@.len() >= BUFFER_HEADER_LEN,
            old(self).mem@.len() <= usize::MAX,
        ensures
            final(self).mem@.len() == old(self).mem@.len(),
            frame_outside(old(self).mem@, final(self).mem@, 0, BUFFER_HEADER_LEN as int),
            final(self).spec_magic() == magic,
            final(self).spec_alpha_raw() == alpha,
    {
        let magic_bytes = vstd::bytes::u32_to_le_bytes(magic);
        let alpha_bytes = vstd::bytes::u32_to_le_bytes(alpha);
        crate::chunk::write_bytes_at(&mut self.mem, 0, magic_bytes.as_slice());
        crate::chunk::write_bytes_at(&mut self.mem, 4, alpha_bytes.as_slice());
        proof {
            vstd::bytes::lemma_auto_spec_u32_to_from_le_bytes();
            assert(self.mem@.subrange(0, 4) =~= vstd::bytes::spec_u32_to_le_bytes(magic));
            assert(self.mem@.subrange(4, 8) =~= vstd::bytes::spec_u32_to_le_bytes(alpha));
        }
    }

    /// The byte length of each side.
    pub fn side_len(&self) -> (r: usize)
        requires
            self.wf(),
        ensures
            r == self.spec_side_len(),
    {
        (self.mem.len() - BUFFER_HEADER_LEN) / 2
    }

    /// The offset of the slot that the handle named `side` addresses.
    pub fn side_offset(&self, side: Side) -> (r: usize)
        requires
            self.wf(),
        ensures
            r == self.spec_side_offset(side),
    {
        let alpha = vstd::bytes::u32_from_le_bytes(&self.mem[4..8]);
        proof {
            assert(self.mem@.subrange(4, 8) =~= self.spec_alpha_bytes());
        }
        if alpha == side.raw() {
            BUFFER_HEADER_LEN
        } else {
            BUFFER_HEADER_LEN + self.side_len()
        }
    }

    /// Switches the sides of the buffer: flips which named side addresses
    /// the Alpha slot. No byte of either side moves, so after the switch
    /// each name addresses exactly the bytes the other name addressed
    /// before.
    pub fn switch(&mut self)
        requires
            old(self).wf(),
        ensures
            final(self).wf(),
            final(self).mem@.len() == old(self).mem@.len(),
            final(self).spec_side_len() == old(self).spec_side_len(),
            frame_outside(old(self).mem@, final(self).mem@, 4, 4),
            forall|side: Side|
                final(self).spec_side_offset(side) == old(self).spec_side_offset(
                    spec_opposite(side),
                ),
            forall|side: Side|
                region_of(
                    final(self).mem@,
                    final(self).spec_side_offset(side),
                    final(self).spec_side_len(),
                ) == region_of(
                    old(self).mem@,
                    old(self).spec_side_offset(spec_opposite(side)),
                    old(self).spec_side_len(),
                ),
    {
        let alpha = vstd::bytes::u32_from_le_bytes(&self.mem[4..8]);
        proof {
            assert(self.mem@.subrange(4, 8) =~= self.spec_alpha_bytes());
        }
        let flipped: u32 = if alpha == LEFT_RAW {
            RIGHT_RAW
        } else {
            LEFT_RAW
        };
        let alpha_bytes = vstd::bytes::u32_to_le_bytes(flipped);
        crate::chunk::write_bytes_at(&mut self.mem, 4, alpha_bytes.as_slice());
        proof {
            vstd::bytes::lemma_auto_spec_u32_to_from_le_bytes();
            assert(self.mem@.subrange(4, 8) =~= vstd::bytes::spec_u32_to_le_bytes(flipped));
            assert(self.mem@.subrange(0, 4) =~= old(self).mem@.subrange(0, 4));
            assert forall|side: Side|
                region_of(
                    self.mem@,
                    self.spec_side_offset(side),
                    self.spec_side_len(),
                ) =~= region_of(
                    old(self).mem@,
                    old(self).spec_side_offset(spec_opposite(side)),
                    old(self).spec_side_len(),
                ) by {
                assert(self.spec_side_offset(side) == old(self).spec_side_offset(
                    spec_opposite(side),
                ));
            }
        }
    }
}

/// The two named handles always address disjoint slots: the Left and the
/// Right offsets differ by a full side length, whichever side the header
/// names.
pub proof fn lemma_sides_disjoint(b: DoubleBuffer)
    requires
        b.wf(),
        b.spec_side_len() > 0,
    ensures
        b.spec_side_offset(Side::Left) != b.spec_side_offset(Side::Right),
        vstd::math::abs(
            b.spec_side_offset(Side::Left) - b.spec_side_offset(Side::Right),
        ) == b.spec_side_len(),
        b.spec_side_offset(Side::Left) + b.spec_side_len() <= b.mem@.len(),
        b.spec_side_offset(Side::Right) + b.spec_side_len() <= b.mem@.len(),
{
    assert(BUFFER_HEADER_LEN + 2 * b.spec_side_len() <= b.mem@.len());
}


/// A mutation beyond the header leaves the header intact.
pub proof fn lemma_header_preserved(m1: Seq<u8>, m2: Seq<u8>, off: int, len: int)
    requires
        frame_outside(m1, m2, off, len),
        m1.len() >= BUFFER_HEADER_LEN,
        off >= BUFFER_HEADER_LEN,
    ensures
        m2.subrange(0, 4) == m1.subrange(0, 4),
        m2.subrange(4, 8) == m1.subrange(4, 8),
{
    assert(m2.subrange(0, 4) =~= m1.subrange(0, 4));
    assert(m2.subrange(4, 8) =~= m1.subrange(4, 8));
}

} // verus!
