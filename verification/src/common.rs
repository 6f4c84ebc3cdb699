use vstd::prelude::*;

verus! {

/// A special sequence of bytes that is used at the beginning of the specific
/// data structures for validation.
#[derive(Clone, Copy, PartialEq, Eq, Structural, Debug)]
pub struct Magic(pub u32);

impl Magic {
    /// Constructs a new `Magic`.
    pub fn new(value: u32) -> (r: Magic)
        ensures
            r.0 == value,
    {
        Magic(value)
    }

    /// Constructs a new `Magic` from its four little-endian bytes.
    pub fn from_raw(raw: &[u8]) -> (r: Magic)
        requires
            raw@.len() == 4,
        ensures
            r.0 == vstd::bytes::spec_u32_from_le_bytes(raw@),
    {
        Magic(vstd::bytes::u32_from_le_bytes(raw))
    }

    /// Returns the four little-endian bytes of the magic.
    pub fn raw(&self) -> (r: Vec<u8>)
        ensures
            r@ == vstd::bytes::spec_u32_to_le_bytes(self.0),
            r@.len() == 4,
    {
        vstd::bytes::u32_to_le_bytes(self.0)
    }
}

/// Represents a bytes data buffer with a fixed capacity.
///
/// Used to store temporary bytes data during processing.
pub struct BytesBuf {
    data: Vec<u8>,
    cap: usize,
}

impl BytesBuf {
    /// The buffered bytes.
    pub closed spec fn view(&self) -> Seq<u8> {
        self.data@
    }

    /// The fixed capacity of the buffer.
    pub closed spec fn spec_cap(&self) -> nat {
        self.cap as nat
    }

    /// Well-formedness: the contents never exceed the capacity.
    pub closed spec fn wf(&self) -> bool {
        self.data@.len() <= self.cap
    }

    /// Constructs an empty buffer of the given capacity.
    pub fn with_capacity(capacity: usize) -> (r: BytesBuf)
        ensures
            r.wf(),
            r@ == Seq::<u8>::empty(),
            r.spec_cap() == capacity,
    {
        BytesBuf { data: Vec::new(), cap: capacity }
    }

    /// The number of buffered bytes.
    pub fn len(&self) -> (r: usize)
        ensures
            r == self@.len(),
    {
        self.data.len()
    }

    /// The capacity of the buffer.
    pub fn capacity(&self) -> (r: usize)
        ensures
            r == self.spec_cap(),
    {
        self.cap
    }

    /// The buffered bytes as a slice.
    pub fn as_slice(&self) -> (r: &[u8])
        ensures
            r@ == self@,
    {
        self.data.as_slice()
    }

    /// Pushes bytes to fill the buffer as much as possible, and returns the
    /// length of the bytes that were pushed: the lesser of the input length
    /// and the spare capacity.
    pub fn buffer(&mut self, bytes: &[u8]) -> (n: usize)
        requires
            old(self).wf(),
        ensures
            final(self).wf(),
            final(self).spec_cap() == old(self).spec_cap(),
            n == vstd::math::min(bytes@.len() as int, old(self).spec_cap() - old(self)@.len()),
            final(self)@ == old(self)@ + bytes@.take(n as int),
    {
        let spare = self.cap - self.data.len();
        let n = if bytes.len() < spare {
            bytes.len()
        } else {
            spare
        };
        let mut i: usize = 0;
        while i < n
            invariant
                0 <= i <= n,
                n <= bytes@.len(),
                self.data@.len() + n - i <= self.cap,
                self.data@ == old(self)@ + bytes@.take(i as int),
                self.cap == old(self).spec_cap(),
            decreases n - i,
        {
            self.data.push(bytes[i]);
            i = i + 1;
            proof {
                assert(self.data@ =~= old(self)@ + bytes@.take(i as int));
            }
        }
        n
    }

    /// Removes the first `len` bytes from the buffer; when `len` exceeds the
    /// contents, removes everything.
    pub fn drain(&mut self, len: usize) -> (r: ())
        requires
            old(self).wf(),
        ensures
            final(self).wf(),
            final(self).spec_cap() == old(self).spec_cap(),
            final(self)@ == old(self)@.skip(vstd::math::min(len as int, old(self)@.len() as int)),
    {
        let take = if len < self.data.len() {
            len
        } else {
            self.data.len()
        };
        let mut rest: Vec<u8> = Vec::new();
        let mut i: usize = take;
        while i < self.data.len()
            invariant
                take <= i <= self.data@.len(),
                rest@ == self.data@.subrange(take as int, i as int),
                self.data@.len() <= self.cap,
            decreases self.data@.len() - i,
        {
            rest.push(self.data[i]);
            i = i + 1;
            proof {
                assert(rest@ =~= self.data@.subrange(take as int, i as int));
            }
        }
        proof {
            assert(rest@ =~= self.data@.skip(take as int));
        }
        self.data = rest;
    }

    /// Clears the buffer.
    pub fn clear(&mut self)
        ensures
            final(self).wf(),
            final(self).spec_cap() == old(self).spec_cap(),
            final(self)@ == Seq::<u8>::empty(),
    {
        self.data.clear();
    }

}


/// Appends all of `bytes` to `out`.
pub(crate) fn append_bytes(out: &mut Vec<u8>, bytes: &[u8])
    ensures
        final(out)@ == old(out)@ + bytes@,
{
    let mut i: usize = 0;
    while i < bytes.len()
        invariant
            0 <= i <= bytes@.len(),
            out@ == old(out)@ + bytes@.take(i as int),
        decreases bytes@.len() - i,
    {
        out.push(bytes[i]);
        i = i + 1;
        proof {
            assert(out@ =~= old(out)@ + bytes@.take(i as int));
        }
    }
    proof {
        assert(out@ =~= old(out)@ + bytes@);
    }
}


/// Compares two byte vectors by contents.
pub fn bytes_eq(a: &Vec<u8>, b: &Vec<u8>) -> (r: bool)
    ensures
        r == (a@ == b@),
{
    if a.len() != b.len() {
        proof {
            assert(a@ != b@);
        }
        return false;
    }
    let mut i: usize = 0;
    while i < a.len()
        invariant
            0 <= i <= a@.len() == b@.len(),
            forall|j: int| 0 <= j < i ==> a@[j] == b@[j],
        decreases a@.len() - i,
    {
        if a[i] != b[i] {
            proof {
                assert(a@[i as int] != b@[i as int]);
            }
            return false;
        }
        i = i + 1;
    }
    proof {
        assert(a@ =~= b@);
    }
    true
}

} // verus!
