//! Encoding and decoding of the compact binary record format.
//!
//! Unsigned integers are encoded as varints: seven value bits per byte, low
//! groups first, with the high bit of a byte set when another byte follows.
//! Byte strings are length-prefixed, options carry a one-byte tag, and
//! records are the concatenation of their fields in declaration order.

use vstd::prelude::*;

use crate::record::{Level, Location, Meta, Record, SpecLocation, SpecMeta, SpecRecord};
use crate::record::{spec_level_from_primitive, spec_level_primitive};
use crate::time::{DateTime, MAX_TIMESTAMP, NANOS_PER_SEC};

verus! {

/// Errors that can be occurred by encoding a type.
///
/// No encode operation currently fails; this is a placeholder.
#[derive(Clone, Copy, PartialEq, Eq, Structural, Debug)]
pub enum EncodingError {
    /// Never constructed.
    Never,
}

/// Errors that can be occurred by decoding a type.
#[derive(Clone, Copy, PartialEq, Eq, Structural, Debug)]
pub enum DecodingError {
    /// The source reached its end but more bytes were expected.
    UnexpectedEnd { extra_len: usize },
    /// Invalid variant tag byte. This error is generally for enums.
    UnexpectedVariant { found_byte: u8 },
    /// The decoded byte string is not valid UTF-8.
    Utf8,
    /// The encoded varint is outside of the range of the target integral type.
    IntegerOverflow,
    /// Out-of-range number of seconds and/or invalid nanosecond.
    DateTime,
}

// ============ Varint ============

/// The varint encoding of an unsigned value.
pub open spec fn spec_enc_varint(v: nat) -> Seq<u8>
    decreases v,
{
    if v < 128 {
        seq![v as u8]
    } else {
        seq![(128 + v % 128) as u8] + spec_enc_varint(v / 128)
    }
}

/// The value and length of the varint at the head of `bytes`, or `None` when
/// `bytes` ends before the varint does. The value is unbounded.
pub open spec fn spec_dec_varint(bytes: Seq<u8>) -> Option<(nat, int)>
    decreases bytes.len(),
{
    if bytes.len() == 0 {
        None
    } else if bytes[0] < 128 {
        Some((bytes[0] as nat, 1))
    } else {
        match spec_dec_varint(bytes.drop_first()) {
            None => None,
            Some((v, n)) => Some(((bytes[0] - 128) as nat + 128 * v, n + 1)),
        }
    }
}

/// 128 to the power `k`.
pub open spec fn pow128(k: int) -> nat
    decreases k,
{
    if k <= 0 {
        1
    } else {
        128 * pow128(k - 1)
    }
}

/// Folds an already-accumulated value of `k` consumed continuation groups
/// into the result of decoding the remaining bytes.
pub open spec fn varint_combine(acc: nat, k: int, rest: Option<(nat, int)>) -> Option<(nat, int)> {
    match rest {
        None => None,
        Some((v, n)) => Some((acc + pow128(k) * v, n + k)),
    }
}

/// Consuming one continuation byte moves its group into the accumulator.
proof fn lemma_varint_combine_step(s: Seq<u8>, k: int, acc: nat)
    requires
        0 <= k < s.len(),
        s[k] >= 128,
    ensures
        varint_combine(acc, k, spec_dec_varint(s.skip(k))) == varint_combine(
            (acc + (s[k] - 128) * pow128(k)) as nat,
            k + 1,
            spec_dec_varint(s.skip(k + 1)),
        ),
{
    let tail = s.skip(k);
    assert(tail.drop_first() =~= s.skip(k + 1));
    assert(tail[0] == s[k]);
    match spec_dec_varint(s.skip(k + 1)) {
        None => {
        }
        Some((v, n)) => {
            assert(spec_dec_varint(tail) == Some::<(nat, int)>((
                (s[k] - 128) as nat + 128 * v,
                n + 1,
            )));
            assert(pow128(k + 1) == 128 * pow128(k));
            let a = pow128(k);
            let b = (s[k] - 128) as nat;
            assert(a * (b + 128 * v) == b * a + (128 * a) * v) by (nonlinear_arith);
        }
    }
}

/// Decoding a varint encoding followed by anything yields the encoded value,
/// consuming exactly the encoding.
pub proof fn lemma_varint_roundtrip(v: nat, rest: Seq<u8>)
    ensures
        spec_dec_varint(spec_enc_varint(v) + rest) == Some((v, spec_enc_varint(v).len() as int)),
    decreases v,
{
    let s = spec_enc_varint(v) + rest;
    if v < 128 {
        assert(s[0] == v as u8);
    } else {
        lemma_varint_roundtrip(v / 128, rest);
        assert(s.drop_first() =~= spec_enc_varint(v / 128) + rest);
        assert(s[0] == (128 + v % 128) as u8);
        assert((s[0] - 128) as nat + 128 * (v / 128) == v) by (nonlinear_arith)
            requires
                s[0] == (128 + v % 128) as u8,
                v >= 128,
        ;
    }
}

// ============ Core integer codecs ============

/// Appends the varint encoding of `v` to `out`.
pub fn encode_u64(v: u64, out: &mut Vec<u8>)
    ensures
        final(out)@ == old(out)@ + spec_enc_varint(v as nat),
{
    let ghost orig = out@;
    let mut val: u64 = v;
    while val >= 128
        invariant
            out@ + spec_enc_varint(val as nat) == orig + spec_enc_varint(v as nat),
        decreases val,
    {
        let ghost prev = out@;
        let ghost pval = val as nat;
        out.push((val % 128 + 128) as u8);
        val = val / 128;
        proof {
            assert(spec_enc_varint(pval) == seq![(128 + pval % 128) as u8] + spec_enc_varint(
                pval / 128,
            ));
            assert(out@ + spec_enc_varint(val as nat) =~= prev + spec_enc_varint(pval));
        }
    }
    let ghost prev = out@;
    out.push(val as u8);
    proof {
        assert(spec_enc_varint(val as nat) =~= seq![val as u8]);
        assert(out@ =~= prev + spec_enc_varint(val as nat));
        assert(out@ =~= orig + spec_enc_varint(v as nat));
    }
}

/// The value and consumed length of the varint at the head of `bytes`, when
/// it fits a `u64`; `UnexpectedEnd` when the bytes end inside the varint and
/// `IntegerOverflow` when the encoded value exceeds `u64::MAX`.
pub open spec fn spec_dec_u64(bytes: Seq<u8>) -> Result<(u64, int), DecodingError> {
    match spec_dec_varint(bytes) {
        None => Err(DecodingError::UnexpectedEnd { extra_len: 1 }),
        Some((v, n)) => if v <= u64::MAX {
            Ok((v as u64, n))
        } else {
            Err(DecodingError::IntegerOverflow)
        },
    }
}

/// Reads the varint starting at `data[pos]`.
pub fn decode_u64(data: &Vec<u8>, pos: usize) -> (r: Result<(u64, usize), DecodingError>)
    requires
        pos <= data@.len(),
    ensures
        match r {
            Ok((v, end)) => spec_dec_u64(data@.skip(pos as int)) == Ok::<_, DecodingError>((
                v,
                end - pos,
            )) && pos < end <= data@.len(),
            Err(e) => spec_dec_u64(data@.skip(pos as int)) == Err::<(u64, int), _>(e),
        },
{
    let ghost s = data@.skip(pos as int);
    let mut p: usize = pos;
    let mut val: u64 = 0;
    let ghost mut tv: nat = 0nat;
    let mut mult: u64 = 1;
    let mut mult_over: bool = false;
    let mut val_over: bool = false;
    proof {
        let t = spec_dec_varint(s);
        if t is Some {
            let v = t->Some_0.0;
            assert(pow128(0) == 1);
            assert(1 * v == v) by (nonlinear_arith);
        }
    }
    loop
        invariant
            pos <= p <= data@.len(),
            s == data@.skip(pos as int),
            spec_dec_varint(s) == varint_combine(tv, p - pos, spec_dec_varint(
                data@.skip(p as int),
            )),
            !mult_over ==> mult == pow128(p - pos) && mult >= 1,
            mult_over ==> pow128(p - pos) > u64::MAX,
            !val_over ==> tv == val,
            val_over ==> tv > u64::MAX,
        decreases data@.len() - p,
    {
        if p >= data.len() {
            proof {
                assert(data@.skip(p as int).len() == 0);
            }
            return Err(DecodingError::UnexpectedEnd { extra_len: 1 });
        }
        let b = data[p];
        let ghost k = p - pos;
        proof {
            assert(data@.skip(p as int)[0] == data@[p as int]);
        }
        let high = b % 128;
        let ghost old_tv = tv;
        proof {
            lemma_pow128_pos(k);
            tv = tv + (high as nat) * pow128(k);
            if high == 0 {
                assert((0 as nat) * pow128(k) == 0) by (nonlinear_arith);
            } else {
                assert((high as nat) * pow128(k) >= pow128(k)) by (nonlinear_arith)
                    requires
                        high >= 1,
                        pow128(k) >= 1,
                ;
            }
        }
        if high != 0 {
            if mult_over || val_over {
                val_over = true;
            } else {
                if (high as u64) > (u64::MAX - val) / mult {
                    val_over = true;
                    proof {
                        let m = mult as nat;
                        let q = (u64::MAX - val) as nat;
                        vstd::arithmetic::div_mod::lemma_fundamental_div_mod(
                            q as int,
                            m as int,
                        );
                        assert((high as nat) * m > q) by (nonlinear_arith)
                            requires
                                m > 0,
                                high as nat > q / m,
                                q == m * (q / m) + q % m,
                                0 <= q % m < m,
                        ;
                    }
                } else {
                    proof {
                        let m = mult as nat;
                        let q = (u64::MAX - val) as nat;
                        vstd::arithmetic::div_mod::lemma_fundamental_div_mod(
                            q as int,
                            m as int,
                        );
                        assert((high as nat) * m <= q) by (nonlinear_arith)
                            requires
                                m > 0,
                                high as nat <= q / m,
                                q == m * (q / m) + q % m,
                                0 <= q % m,
                        ;
                    }
                    val = val + high as u64 * mult;
                }
            }
        }
        p = p + 1;
        if b < 128 {
            proof {
                assert(spec_dec_varint(data@.skip(k + pos)) == Some::<(nat, int)>((b as nat, 1)));
                assert(pow128(k) * (b as nat) == (high as nat) * pow128(k)) by (nonlinear_arith)
                    requires
                        b == high,
                ;
                assert(spec_dec_varint(s) == Some::<(nat, int)>((tv, k + 1)));
            }
            if val_over {
                return Err(DecodingError::IntegerOverflow);
            } else {
                return Ok((val, p));
            }
        }
        proof {
            lemma_varint_combine_step(s, k, old_tv);
            assert(s.skip(k) =~= data@.skip(k + pos));
            assert(s.skip(k + 1) =~= data@.skip(k + pos + 1));
            assert(s[k] == b);
            assert(((s[k] - 128) as nat) * pow128(k) == (high as nat) * pow128(k))
                by (nonlinear_arith)
                requires
                    s[k] - 128 == high as int,
            ;
            assert((old_tv + (s[k] - 128) * pow128(k)) as nat == tv);
        }
        if !mult_over {
            if mult <= u64::MAX / 128 {
                proof {
                    assert(u64::MAX / 128 * 128 <= u64::MAX);
                    assert(mult * 128 <= u64::MAX) by (nonlinear_arith)
                        requires
                            mult <= u64::MAX / 128,
                            u64::MAX / 128 * 128 <= u64::MAX,
                    ;
                }
                mult = mult * 128;
                proof {
                    assert(pow128(p - pos) == 128 * pow128(p - pos - 1));
                }
            } else {
                mult_over = true;
                proof {
                    assert((u64::MAX / 128 + 1) * 128 > u64::MAX);
                    assert(mult * 128 > u64::MAX) by (nonlinear_arith)
                        requires
                            mult > u64::MAX / 128,
                            (u64::MAX / 128 + 1) * 128 > u64::MAX,
                    ;
                    assert(pow128(p - pos) == 128 * pow128(p - pos - 1));
                    assert(128 * pow128(p - pos - 1) == pow128(p - pos - 1) * 128)
                        by (nonlinear_arith);
                }
            }
        } else {
            proof {
                lemma_pow128_pos(p - pos - 1);
                assert(pow128(p - pos) == 128 * pow128(p - pos - 1));
                assert(128 * pow128(p - pos - 1) >= pow128(p - pos - 1)) by (nonlinear_arith)
                    requires
                        pow128(p - pos - 1) >= 1,
                ;
            }
        }
    }
}

/// `pow128` is always at least one.
proof fn lemma_pow128_pos(k: int)
    ensures
        pow128(k) >= 1,
    decreases k,
{
    if k > 0 {
        lemma_pow128_pos(k - 1);
        assert(pow128(k) == 128 * pow128(k - 1));
        assert(128 * pow128(k - 1) >= pow128(k - 1)) by (nonlinear_arith)
            requires
                pow128(k - 1) >= 1,
        ;
    }
}


/// The value at the head of `bytes` when a `u32` is expected.
pub open spec fn spec_dec_u32(bytes: Seq<u8>) -> Result<(u32, int), DecodingError> {
    match spec_dec_varint(bytes) {
        None => Err(DecodingError::UnexpectedEnd { extra_len: 1 }),
        Some((v, n)) => if v <= u32::MAX {
            Ok((v as u32, n))
        } else {
            Err(DecodingError::IntegerOverflow)
        },
    }
}

/// The value at the head of `bytes` when a `usize` is expected.
pub open spec fn spec_dec_usize(bytes: Seq<u8>) -> Result<(usize, int), DecodingError> {
    match spec_dec_varint(bytes) {
        None => Err(DecodingError::UnexpectedEnd { extra_len: 1 }),
        Some((v, n)) => if v <= usize::MAX {
            Ok((v as usize, n))
        } else {
            Err(DecodingError::IntegerOverflow)
        },
    }
}

/// Appends the varint encoding of `v` to `out`.
pub fn encode_u32(v: u32, out: &mut Vec<u8>)
    ensures
        final(out)@ == old(out)@ + spec_enc_varint(v as nat),
{
    encode_u64(v as u64, out);
}

/// Appends the varint encoding of `v` to `out`.
pub fn encode_usize(v: usize, out: &mut Vec<u8>)
    ensures
        final(out)@ == old(out)@ + spec_enc_varint(v as nat),
{
    encode_u64(v as u64, out);
}

/// Reads the varint starting at `data[pos]`, requiring it to fit a `u32`.
pub fn decode_u32(data: &Vec<u8>, pos: usize) -> (r: Result<(u32, usize), DecodingError>)
    requires
        pos <= data@.len(),
    ensures
        match r {
            Ok((v, end)) => spec_dec_u32(data@.skip(pos as int)) == Ok::<_, DecodingError>((
                v,
                end - pos,
            )) && pos < end <= data@.len(),
            Err(e) => spec_dec_u32(data@.skip(pos as int)) == Err::<(u32, int), _>(e),
        },
{
    match decode_u64(data, pos) {
        Ok((v, end)) => {
            if v <= u32::MAX as u64 {
                Ok((v as u32, end))
            } else {
                Err(DecodingError::IntegerOverflow)
            }
        },
        Err(e) => Err(e),
    }
}

/// Reads the varint starting at `data[pos]`, requiring it to fit a `usize`.
pub fn decode_usize(data: &Vec<u8>, pos: usize) -> (r: Result<(usize, usize), DecodingError>)
    requires
        pos <= data@.len(),
    ensures
        match r {
            Ok((v, end)) => spec_dec_usize(data@.skip(pos as int)) == Ok::<_, DecodingError>((
                v,
                end - pos,
            )) && pos < end <= data@.len(),
            Err(e) => spec_dec_usize(data@.skip(pos as int)) == Err::<(usize, int), _>(e),
        },
{
    match decode_u64(data, pos) {
        Ok((v, end)) => {
            if v <= usize::MAX as u64 {
                Ok((v as usize, end))
            } else {
                Err(DecodingError::IntegerOverflow)
            }
        },
        Err(e) => Err(e),
    }
}

// ============ Single bytes ============

/// One byte, as itself.
pub open spec fn spec_enc_u8(v: u8) -> Seq<u8> {
    seq![v]
}

/// The byte at the head of `bytes`.
pub open spec fn spec_dec_u8(bytes: Seq<u8>) -> Result<(u8, int), DecodingError> {
    if bytes.len() == 0 {
        Err(DecodingError::UnexpectedEnd { extra_len: 1 })
    } else {
        Ok((bytes[0], 1))
    }
}

/// Appends the single byte `v` to `out`.
pub fn encode_u8(v: u8, out: &mut Vec<u8>)
    ensures
        final(out)@ == old(out)@ + spec_enc_u8(v),
{
    out.push(v);
    proof {
        assert(out@ =~= old(out)@ + spec_enc_u8(v));
    }
}

/// Reads the byte at `data[pos]`.
pub fn decode_u8(data: &Vec<u8>, pos: usize) -> (r: Result<(u8, usize), DecodingError>)
    requires
        pos <= data@.len(),
    ensures
        match r {
            Ok((v, end)) => spec_dec_u8(data@.skip(pos as int)) == Ok::<_, DecodingError>((
                v,
                end - pos,
            )) && pos < end <= data@.len(),
            Err(e) => spec_dec_u8(data@.skip(pos as int)) == Err::<(u8, int), _>(e),
        },
{
    if pos >= data.len() {
        Err(DecodingError::UnexpectedEnd { extra_len: 1 })
    } else {
        proof {
            assert(data@.skip(pos as int)[0] == data@[pos as int]);
        }
        Ok((data[pos], pos + 1))
    }
}

// ============ Byte strings ============

/// A byte string: its length as a varint, then its bytes.
pub open spec fn spec_enc_bytes(b: Seq<u8>) -> Seq<u8> {
    spec_enc_varint(b.len()) + b
}

/// The length-prefixed byte string at the head of `bytes`.
pub open spec fn spec_dec_bytes(bytes: Seq<u8>) -> Result<(Seq<u8>, int), DecodingError> {
    match spec_dec_usize(bytes) {
        Err(e) => Err(e),
        Ok((len, n)) => if n + len <= bytes.len() {
            Ok((bytes.subrange(n, n + len), n + len))
        } else {
            Err(DecodingError::UnexpectedEnd { extra_len: (n + len - bytes.len()) as usize })
        },
    }
}

/// Appends the length-prefixed encoding of `b` to `out`.
pub fn encode_bytes(b: &[u8], out: &mut Vec<u8>)
    ensures
        final(out)@ == old(out)@ + spec_enc_bytes(b@),
{
    encode_usize(b.len(), out);
    let ghost mid = out@;
    let mut i: usize = 0;
    while i < b.len()
        invariant
            0 <= i <= b@.len(),
            out@ == mid + b@.subrange(0, i as int),
        decreases b@.len() - i,
    {
        out.push(b[i]);
        i = i + 1;
        proof {
            assert(out@ =~= mid + b@.subrange(0, i as int));
        }
    }
    proof {
        assert(b@.subrange(0, b@.len() as int) =~= b@);
        assert(out@ =~= old(out)@ + spec_enc_bytes(b@));
    }
}

/// Reads the length-prefixed byte string starting at `data[pos]`.
pub fn decode_bytes(data: &Vec<u8>, pos: usize) -> (r: Result<(Vec<u8>, usize), DecodingError>)
    requires
        pos <= data@.len(),
    ensures
        match r {
            Ok((v, end)) => ((spec_dec_bytes(data@.skip(pos as int)) matches Ok(t))
                && spec_dec_bytes(data@.skip(pos as int)) == Ok::<_, DecodingError>((v@, end - pos))
                && pos <= end <= data@.len()),
            Err(e) => spec_dec_bytes(data@.skip(pos as int)) == Err::<(Seq<u8>, int), _>(e),
        },
{
    let ghost s = data@.skip(pos as int);
    match decode_usize(data, pos) {
        Err(e) => Err(e),
        Ok((len, p)) => {
            if len <= data.len() - p {
                let mut v: Vec<u8> = Vec::new();
                let mut i: usize = 0;
                while i < len
                    invariant
                        0 <= i <= len,
                        p + len <= data@.len(),
                        data@.len() <= usize::MAX,
                        v@ == data@.subrange(p as int, p + i),
                    decreases len - i,
                {
                    v.push(data[p + i]);
                    i = i + 1;
                    proof {
                        assert(v@ =~= data@.subrange(p as int, p + i));
                    }
                }
                proof {
                    let n = p - pos;
                    assert(s.subrange(n, n + len) =~= data@.subrange(p as int, p + len));
                }
                Ok((v, p + len))
            } else {
                Err(DecodingError::UnexpectedEnd { extra_len: len - (data.len() - p) })
            }
        },
    }
}

// ============ Character strings ============

/// A character string: its UTF-8 bytes, length-prefixed.
pub open spec fn spec_enc_str(s: Seq<char>) -> Seq<u8> {
    spec_enc_bytes(vstd::utf8::encode_utf8(s))
}

/// The length-prefixed UTF-8 string at the head of `bytes`.
pub open spec fn spec_dec_str(bytes: Seq<u8>) -> Result<(Seq<char>, int), DecodingError> {
    match spec_dec_bytes(bytes) {
        Err(e) => Err(e),
        Ok((b, n)) => if vstd::utf8::valid_utf8(b) {
            Ok((vstd::utf8::decode_utf8(b), n))
        } else {
            Err(DecodingError::Utf8)
        },
    }
}

/// Relies on `core::str::from_utf8` and `str::to_owned`: returns the bytes as
/// a string exactly when they are valid UTF-8, and `None` otherwise.
#[verifier::external_body]
fn utf8_to_string(v: &Vec<u8>) -> (r: Option<String>)
    ensures
        r matches Some(s) ==> vstd::utf8::valid_utf8(v@) && s@ == vstd::utf8::decode_utf8(v@),
        r is None ==> !vstd::utf8::valid_utf8(v@),
{
    match core::str::from_utf8(v.as_slice()) {
        Ok(s) => Some(s.to_owned()),
        Err(_) => None,
    }
}

/// Appends the encoding of the string `v` to `out`.
pub fn encode_str(v: &str, out: &mut Vec<u8>)
    ensures
        final(out)@ == old(out)@ + spec_enc_str(v@),
{
    encode_bytes(v.as_bytes(), out);
}

/// Reads the length-prefixed UTF-8 string starting at `data[pos]`.
pub fn decode_str(data: &Vec<u8>, pos: usize) -> (r: Result<(String, usize), DecodingError>)
    requires
        pos <= data@.len(),
    ensures
        match r {
            Ok((v, end)) => ((spec_dec_str(data@.skip(pos as int)) matches Ok(t))
                && spec_dec_str(data@.skip(pos as int)) == Ok::<_, DecodingError>((v@, end - pos))
                && pos <= end <= data@.len()),
            Err(e) => spec_dec_str(data@.skip(pos as int)) == Err::<(Seq<char>, int), _>(e),
        },
{
    match decode_bytes(data, pos) {
        Err(e) => Err(e),
        Ok((b, end)) => {
            match utf8_to_string(&b) {
                Some(s) => Ok((s, end)),
                None => Err(DecodingError::Utf8),
            }
        },
    }
}


// ============ Options ============

/// An optional string: a tag byte, then the string when present.
pub open spec fn spec_enc_opt_str(o: Option<Seq<char>>) -> Seq<u8> {
    match o {
        None => seq![0u8],
        Some(s) => seq![1u8] + spec_enc_str(s),
    }
}

/// The optional string at the head of `bytes`.
pub open spec fn spec_dec_opt_str(bytes: Seq<u8>) -> Result<(Option<Seq<char>>, int), DecodingError> {
    match spec_dec_u8(bytes) {
        Err(e) => Err(e),
        Ok((tag, _)) => if tag == 0 {
            Ok((None, 1))
        } else if tag == 1 {
            match spec_dec_str(bytes.skip(1)) {
                Err(e) => Err(e),
                Ok((s, n)) => Ok((Some(s), 1 + n)),
            }
        } else {
            Err(DecodingError::UnexpectedVariant { found_byte: tag })
        },
    }
}

/// An optional `u32`: a tag byte, then the varint when present.
pub open spec fn spec_enc_opt_u32(o: Option<u32>) -> Seq<u8> {
    match o {
        None => seq![0u8],
        Some(v) => seq![1u8] + spec_enc_varint(v as nat),
    }
}

/// The optional `u32` at the head of `bytes`.
pub open spec fn spec_dec_opt_u32(bytes: Seq<u8>) -> Result<(Option<u32>, int), DecodingError> {
    match spec_dec_u8(bytes) {
        Err(e) => Err(e),
        Ok((tag, _)) => if tag == 0 {
            Ok((None, 1))
        } else if tag == 1 {
            match spec_dec_u32(bytes.skip(1)) {
                Err(e) => Err(e),
                Ok((v, n)) => Ok((Some(v), 1 + n)),
            }
        } else {
            Err(DecodingError::UnexpectedVariant { found_byte: tag })
        },
    }
}

/// An optional `u64`: a tag byte, then the varint when present.
pub open spec fn spec_enc_opt_u64(o: Option<u64>) -> Seq<u8> {
    match o {
        None => seq![0u8],
        Some(v) => seq![1u8] + spec_enc_varint(v as nat),
    }
}

/// The optional `u64` at the head of `bytes`.
pub open spec fn spec_dec_opt_u64(bytes: Seq<u8>) -> Result<(Option<u64>, int), DecodingError> {
    match spec_dec_u8(bytes) {
        Err(e) => Err(e),
        Ok((tag, _)) => if tag == 0 {
            Ok((None, 1))
        } else if tag == 1 {
            match spec_dec_u64(bytes.skip(1)) {
                Err(e) => Err(e),
                Ok((v, n)) => Ok((Some(v), 1 + n)),
            }
        } else {
            Err(DecodingError::UnexpectedVariant { found_byte: tag })
        },
    }
}

/// Appends the encoding of the optional string `o` to `out`.
pub fn encode_opt_str(o: &Option<String>, out: &mut Vec<u8>)
    ensures
        final(out)@ == old(out)@ + spec_enc_opt_str(crate::record::view_opt_string(*o)),
{
    match o {
        None => {
            encode_u8(0, out);
            proof {
                assert(out@ =~= old(out)@ + spec_enc_opt_str(crate::record::view_opt_string(*o)));
            }
        },
        Some(s) => {
            encode_u8(1, out);
            let ghost mid = out@;
            encode_str(s.as_str(), out);
            proof {
                assert(out@ =~= old(out)@ + spec_enc_opt_str(crate::record::view_opt_string(*o)));
            }
        },
    }
}

/// Reads the optional string starting at `data[pos]`.
pub fn decode_opt_str(data: &Vec<u8>, pos: usize) -> (r: Result<
    (Option<String>, usize),
    DecodingError,
>)
    requires
        pos <= data@.len(),
    ensures
        match r {
            Ok((v, end)) => ((spec_dec_opt_str(data@.skip(pos as int)) matches Ok(t))
                && spec_dec_opt_str(data@.skip(pos as int)) == Ok::<_, DecodingError>((
                crate::record::view_opt_string(v),
                end - pos,
            )) && pos <= end <= data@.len()),
            Err(e) => ((spec_dec_opt_str(data@.skip(pos as int)) matches Err(e2)) && (spec_dec_opt_str(
                data@.skip(pos as int),
            ) matches Err(e2) && e2 == e)),
        },
{
    let ghost s = data@.skip(pos as int);
    match decode_u8(data, pos) {
        Err(e) => Err(e),
        Ok((tag, p)) => {
            if tag == 0 {
                Ok((None, p))
            } else if tag == 1 {
                proof {
                    assert(s.skip(1) =~= data@.skip(p as int));
                }
                match decode_str(data, p) {
                    Err(e) => Err(e),
                    Ok((v, end)) => Ok((Some(v), end)),
                }
            } else {
                Err(DecodingError::UnexpectedVariant { found_byte: tag })
            }
        },
    }
}

/// Reads the optional `u32` starting at `data[pos]`.
pub fn decode_opt_u32(data: &Vec<u8>, pos: usize) -> (r: Result<
    (Option<u32>, usize),
    DecodingError,
>)
    requires
        pos <= data@.len(),
    ensures
        match r {
            Ok((v, end)) => (spec_dec_opt_u32(data@.skip(pos as int)) == Ok::<_, DecodingError>((
                v,
                end - pos,
            )) && pos <= end <= data@.len()),
            Err(e) => ((spec_dec_opt_u32(data@.skip(pos as int)) matches Err(e2)) && (spec_dec_opt_u32(
                data@.skip(pos as int),
            ) matches Err(e2) && e2 == e)),
        },
{
    let ghost s = data@.skip(pos as int);
    match decode_u8(data, pos) {
        Err(e) => Err(e),
        Ok((tag, p)) => {
            if tag == 0 {
                Ok((None, p))
            } else if tag == 1 {
                proof {
                    assert(s.skip(1) =~= data@.skip(p as int));
                }
                match decode_u32(data, p) {
                    Err(e) => Err(e),
                    Ok((v, end)) => Ok((Some(v), end)),
                }
            } else {
                Err(DecodingError::UnexpectedVariant { found_byte: tag })
            }
        },
    }
}

/// Appends the encoding of the optional `u32` to `out`.
pub fn encode_opt_u32(o: &Option<u32>, out: &mut Vec<u8>)
    ensures
        final(out)@ == old(out)@ + spec_enc_opt_u32(*o),
{
    match o {
        None => {
            encode_u8(0, out);
            proof {
                assert(out@ =~= old(out)@ + spec_enc_opt_u32(*o));
            }
        },
        Some(v) => {
            encode_u8(1, out);
            encode_u32(*v, out);
            proof {
                assert(out@ =~= old(out)@ + spec_enc_opt_u32(*o));
            }
        },
    }
}

/// Appends the encoding of the optional `u64` to `out`.
pub fn encode_opt_u64(o: &Option<u64>, out: &mut Vec<u8>)
    ensures
        final(out)@ == old(out)@ + spec_enc_opt_u64(*o),
{
    match o {
        None => {
            encode_u8(0, out);
            proof {
                assert(out@ =~= old(out)@ + spec_enc_opt_u64(*o));
            }
        },
        Some(v) => {
            encode_u8(1, out);
            encode_u64(*v, out);
            proof {
                assert(out@ =~= old(out)@ + spec_enc_opt_u64(*o));
            }
        },
    }
}

/// Reads the optional `u64` starting at `data[pos]`.
pub fn decode_opt_u64(data: &Vec<u8>, pos: usize) -> (r: Result<
    (Option<u64>, usize),
    DecodingError,
>)
    requires
        pos <= data@.len(),
    ensures
        match r {
            Ok((v, end)) => (spec_dec_opt_u64(data@.skip(pos as int)) == Ok::<_, DecodingError>((
                v,
                end - pos,
            )) && pos <= end <= data@.len()),
            Err(e) => ((spec_dec_opt_u64(data@.skip(pos as int)) matches Err(e2)) && (spec_dec_opt_u64(
                data@.skip(pos as int),
            ) matches Err(e2) && e2 == e)),
        },
{
    let ghost s = data@.skip(pos as int);
    match decode_u8(data, pos) {
        Err(e) => Err(e),
        Ok((tag, p)) => {
            if tag == 0 {
                Ok((None, p))
            } else if tag == 1 {
                proof {
                    assert(s.skip(1) =~= data@.skip(p as int));
                }
                match decode_u64(data, p) {
                    Err(e) => Err(e),
                    Ok((v, end)) => Ok((Some(v), end)),
                }
            } else {
                Err(DecodingError::UnexpectedVariant { found_byte: tag })
            }
        },
    }
}

// ============ Level ============

/// A level: its single-byte primitive.
pub open spec fn spec_enc_level(l: Level) -> Seq<u8> {
    seq![spec_level_primitive(l)]
}

/// The level at the head of `bytes`.
pub open spec fn spec_dec_level(bytes: Seq<u8>) -> Result<(Level, int), DecodingError> {
    match spec_dec_u8(bytes) {
        Err(e) => Err(e),
        Ok((b, n)) => match spec_level_from_primitive(b) {
            Some(l) => Ok((l, n)),
            None => Err(DecodingError::UnexpectedVariant { found_byte: b }),
        },
    }
}

/// Appends the encoding of the level to `out`.
pub fn encode_level(l: Level, out: &mut Vec<u8>)
    ensures
        final(out)@ == old(out)@ + spec_enc_level(l),
{
    encode_u8(l.primitive(), out);
}

/// Reads the level at `data[pos]`.
pub fn decode_level(data: &Vec<u8>, pos: usize) -> (r: Result<(Level, usize), DecodingError>)
    requires
        pos <= data@.len(),
    ensures
        match r {
            Ok((v, end)) => (spec_dec_level(data@.skip(pos as int)) == Ok::<_, DecodingError>((
                v,
                end - pos,
            )) && pos < end <= data@.len()),
            Err(e) => ((spec_dec_level(data@.skip(pos as int)) matches Err(e2)) && (spec_dec_level(
                data@.skip(pos as int),
            ) matches Err(e2) && e2 == e)),
        },
{
    match decode_u8(data, pos) {
        Err(e) => Err(e),
        Ok((b, p)) => match Level::from_primitive(b) {
            Some(l) => Ok((l, p)),
            None => Err(DecodingError::UnexpectedVariant { found_byte: b }),
        },
    }
}

// ============ DateTime ============

/// A datetime: its seconds (negative clamped to zero), then its nanoseconds,
/// both as varints.
pub open spec fn spec_enc_datetime(dt: DateTime) -> Seq<u8> {
    spec_enc_varint(
        if dt.secs >= 0 {
            dt.secs as nat
        } else {
            0
        },
    ) + spec_enc_varint(dt.nanos as nat)
}

/// The datetime at the head of `bytes`: out-of-range seconds or nanoseconds
/// fail with the datetime error, and seconds beyond `i64` with overflow.
pub open spec fn spec_dec_datetime(bytes: Seq<u8>) -> Result<(DateTime, int), DecodingError> {
    match spec_dec_u64(bytes) {
        Err(e) => Err(e),
        Ok((secs, n1)) => if secs > i64::MAX {
            Err(DecodingError::IntegerOverflow)
        } else {
            match spec_dec_u32(bytes.skip(n1)) {
                Err(e) => Err(e),
                Ok((nanos, n2)) => if secs <= MAX_TIMESTAMP && nanos < NANOS_PER_SEC {
                    Ok((DateTime { secs: secs as i64, nanos }, n1 + n2))
                } else {
                    Err(DecodingError::DateTime)
                },
            }
        },
    }
}

/// Appends the encoding of the datetime to `out`.
pub fn encode_datetime(dt: &DateTime, out: &mut Vec<u8>)
    ensures
        final(out)@ == old(out)@ + spec_enc_datetime(*dt),
{
    let secs: u64 = if dt.secs >= 0 {
        dt.secs as u64
    } else {
        0
    };
    encode_u64(secs, out);
    encode_u32(dt.nanos, out);
    proof {
        assert(out@ =~= old(out)@ + spec_enc_datetime(*dt));
    }
}

/// Reads the datetime starting at `data[pos]`.
pub fn decode_datetime(data: &Vec<u8>, pos: usize) -> (r: Result<
    (DateTime, usize),
    DecodingError,
>)
    requires
        pos <= data@.len(),
    ensures
        match r {
            Ok((v, end)) => (spec_dec_datetime(data@.skip(pos as int)) == Ok::<_, DecodingError>((
                v,
                end - pos,
            )) && pos < end <= data@.len() && v.wf()),
            Err(e) => ((spec_dec_datetime(data@.skip(pos as int)) matches Err(e2))
                && (spec_dec_datetime(data@.skip(pos as int)) matches Err(e2) && e2 == e)),
        },
{
    let ghost s = data@.skip(pos as int);
    match decode_u64(data, pos) {
        Err(e) => Err(e),
        Ok((secs, p1)) => {
            if secs > i64::MAX as u64 {
                Err(DecodingError::IntegerOverflow)
            } else {
                proof {
                    assert(s.skip(p1 - pos) =~= data@.skip(p1 as int));
                }
                match decode_u32(data, p1) {
                    Err(e) => Err(e),
                    Ok((nanos, p2)) => {
                        if secs <= MAX_TIMESTAMP as u64 && nanos < NANOS_PER_SEC {
                            Ok((DateTime { secs: secs as i64, nanos }, p2))
                        } else {
                            Err(DecodingError::DateTime)
                        }
                    },
                }
            }
        },
    }
}

// ============ Location ============

/// A location: its three optional fields in declaration order.
pub open spec fn spec_enc_location(loc: SpecLocation) -> Seq<u8> {
    spec_enc_opt_str(loc.file) + spec_enc_opt_str(loc.func) + spec_enc_opt_u32(loc.line)
}

/// The location at the head of `bytes`.
pub open spec fn spec_dec_location(bytes: Seq<u8>) -> Result<(SpecLocation, int), DecodingError> {
    match spec_dec_opt_str(bytes) {
        Err(e) => Err(e),
        Ok((file, n1)) => match spec_dec_opt_str(bytes.skip(n1)) {
            Err(e) => Err(e),
            Ok((func, n2)) => match spec_dec_opt_u32(bytes.skip(n1 + n2)) {
                Err(e) => Err(e),
                Ok((line, n3)) => Ok((SpecLocation { file, func, line }, n1 + n2 + n3)),
            },
        },
    }
}

/// Appends the encoding of the location to `out`.
pub fn encode_location(loc: &Location, out: &mut Vec<u8>)
    ensures
        final(out)@ == old(out)@ + spec_enc_location(loc@),
{
    encode_opt_str(&loc.file, out);
    encode_opt_str(&loc.func, out);
    encode_opt_u32(&loc.line, out);
    proof {
        assert(out@ =~= old(out)@ + spec_enc_location(loc@));
    }
}

/// Reads the location starting at `data[pos]`.
pub fn decode_location(data: &Vec<u8>, pos: usize) -> (r: Result<
    (Location, usize),
    DecodingError,
>)
    requires
        pos <= data@.len(),
    ensures
        match r {
            Ok((v, end)) => ((spec_dec_location(data@.skip(pos as int)) matches Ok(t))
                && spec_dec_location(data@.skip(pos as int)) == Ok::<_, DecodingError>((
                v@,
                end - pos,
            )) && pos <= end <= data@.len()),
            Err(e) => ((spec_dec_location(data@.skip(pos as int)) matches Err(e2))
                && (spec_dec_location(data@.skip(pos as int)) matches Err(e2) && e2 == e)),
        },
{
    let ghost s = data@.skip(pos as int);
    match decode_opt_str(data, pos) {
        Err(e) => Err(e),
        Ok((file, p1)) => {
            proof {
                assert(s.skip(p1 - pos) =~= data@.skip(p1 as int));
            }
            match decode_opt_str(data, p1) {
                Err(e) => Err(e),
                Ok((func, p2)) => {
                    proof {
                        assert(s.skip(p2 - pos) =~= data@.skip(p2 as int));
                    }
                    match decode_opt_u32(data, p2) {
                        Err(e) => Err(e),
                        Ok((line, p3)) => Ok((Location { file, func, line }, p3)),
                    }
                },
            }
        },
    }
}

// ============ Meta ============

/// A record's metadata: its five fields in declaration order.
pub open spec fn spec_enc_meta(m: SpecMeta) -> Seq<u8> {
    spec_enc_level(m.level) + spec_enc_datetime(m.datetime) + spec_enc_location(m.location)
        + spec_enc_opt_str(m.tag) + spec_enc_opt_u64(m.thread_id)
}

/// The metadata at the head of `bytes`.
pub open spec fn spec_dec_meta(bytes: Seq<u8>) -> Result<(SpecMeta, int), DecodingError> {
    match spec_dec_level(bytes) {
        Err(e) => Err(e),
        Ok((level, n1)) => match spec_dec_datetime(bytes.skip(n1)) {
            Err(e) => Err(e),
            Ok((datetime, n2)) => match spec_dec_location(bytes.skip(n1 + n2)) {
                Err(e) => Err(e),
                Ok((location, n3)) => match spec_dec_opt_str(bytes.skip(n1 + n2 + n3)) {
                    Err(e) => Err(e),
                    Ok((tag, n4)) => match spec_dec_opt_u64(bytes.skip(n1 + n2 + n3 + n4)) {
                        Err(e) => Err(e),
                        Ok((thread_id, n5)) => Ok(
                            (
                                SpecMeta { level, datetime, location, tag, thread_id },
                                n1 + n2 + n3 + n4 + n5,
                            ),
                        ),
                    },
                },
            },
        },
    }
}

/// Appends the encoding of the metadata to `out`.
pub fn encode_meta(m: &Meta, out: &mut Vec<u8>)
    ensures
        final(out)@ == old(out)@ + spec_enc_meta(m@),
{
    encode_level(m.level, out);
    encode_datetime(&m.datetime, out);
    encode_location(&m.location, out);
    encode_opt_str(&m.tag, out);
    encode_opt_u64(&m.thread_id, out);
    proof {
        assert(out@ =~= old(out)@ + spec_enc_meta(m@));
    }
}

/// Reads the metadata starting at `data[pos]`.
#[verifier::rlimit(100)]
pub fn decode_meta(data: &Vec<u8>, pos: usize) -> (r: Result<(Meta, usize), DecodingError>)
    requires
        pos <= data@.len(),
    ensures
        match r {
            Ok((v, end)) => ((spec_dec_meta(data@.skip(pos as int)) matches Ok(t))
                && spec_dec_meta(data@.skip(pos as int)) == Ok::<_, DecodingError>((
                v@,
                end - pos,
            )) && pos <= end <= data@.len()),
            Err(e) => ((spec_dec_meta(data@.skip(pos as int)) matches Err(e2)) && (spec_dec_meta(
                data@.skip(pos as int),
            ) matches Err(e2) && e2 == e)),
        },
{
    let ghost s = data@.skip(pos as int);
    match decode_level(data, pos) {
        Err(e) => Err(e),
        Ok((level, p1)) => {
            proof {
                assert(s.skip(p1 - pos) =~= data@.skip(p1 as int));
            }
            match decode_datetime(data, p1) {
                Err(e) => Err(e),
                Ok((datetime, p2)) => {
                    proof {
                        assert(s.skip(p2 - pos) =~= data@.skip(p2 as int));
                    }
                    match decode_location(data, p2) {
                        Err(e) => Err(e),
                        Ok((location, p3)) => {
                            proof {
                                assert(s.skip(p3 - pos) =~= data@.skip(p3 as int));
                            }
                            match decode_opt_str(data, p3) {
                                Err(e) => Err(e),
                                Ok((tag, p4)) => {
                                    proof {
                                        assert(s.skip(p4 - pos) =~= data@.skip(p4 as int));
                                    }
                                    match decode_opt_u64(data, p4) {
                                        Err(e) => Err(e),
                                        Ok((thread_id, p5)) => Ok(
                                            (
                                                Meta {
                                                    level,
                                                    datetime,
                                                    location,
                                                    tag,
                                                    thread_id,
                                                },
                                                p5,
                                            ),
                                        ),
                                    }
                                },
                            }
                        },
                    }
                },
            }
        },
    }
}

// ============ Record ============

/// A record: its metadata, then its content string.
pub open spec fn spec_enc_record(r: SpecRecord) -> Seq<u8> {
    spec_enc_meta(r.meta) + spec_enc_str(r.content)
}

/// The record at the head of `bytes`.
pub open spec fn spec_dec_record(bytes: Seq<u8>) -> Result<(SpecRecord, int), DecodingError> {
    match spec_dec_meta(bytes) {
        Err(e) => Err(e),
        Ok((meta, n1)) => match spec_dec_str(bytes.skip(n1)) {
            Err(e) => Err(e),
            Ok((content, n2)) => Ok((SpecRecord { meta, content }, n1 + n2)),
        },
    }
}

/// Appends the encoding of the record to `out`.
pub fn encode_record(r: &Record, out: &mut Vec<u8>)
    ensures
        final(out)@ == old(out)@ + spec_enc_record(r@),
{
    encode_meta(&r.meta, out);
    encode_str(r.content.as_str(), out);
    proof {
        assert(out@ =~= old(out)@ + spec_enc_record(r@));
    }
}

/// Reads the record starting at `data[pos]`.
pub fn decode_record(data: &Vec<u8>, pos: usize) -> (r: Result<(Record, usize), DecodingError>)
    requires
        pos <= data@.len(),
    ensures
        match r {
            Ok((v, end)) => ((spec_dec_record(data@.skip(pos as int)) matches Ok(t))
                && spec_dec_record(data@.skip(pos as int)) == Ok::<_, DecodingError>((
                v@,
                end - pos,
            )) && pos <= end <= data@.len()),
            Err(e) => ((spec_dec_record(data@.skip(pos as int)) matches Err(e2))
                && (spec_dec_record(data@.skip(pos as int)) matches Err(e2) && e2 == e)),
        },
{
    let ghost s = data@.skip(pos as int);
    match decode_meta(data, pos) {
        Err(e) => Err(e),
        Ok((meta, p1)) => {
            proof {
                assert(s.skip(p1 - pos) =~= data@.skip(p1 as int));
            }
            match decode_str(data, p1) {
                Err(e) => Err(e),
                Ok((content, p2)) => Ok((Record { meta, content }, p2)),
            }
        },
    }
}

// ============ Round trips ============

/// Decoding an encoded `u64`, followed by anything, yields it back.
pub proof fn lemma_dec_enc_u64(v: u64, rest: Seq<u8>)
    ensures
        spec_dec_u64(spec_enc_varint(v as nat) + rest) == Ok::<_, DecodingError>((
            v,
            spec_enc_varint(v as nat).len() as int,
        )),
{
    lemma_varint_roundtrip(v as nat, rest);
}

/// Decoding an encoded `u32`, followed by anything, yields it back.
pub proof fn lemma_dec_enc_u32(v: u32, rest: Seq<u8>)
    ensures
        spec_dec_u32(spec_enc_varint(v as nat) + rest) == Ok::<_, DecodingError>((
            v,
            spec_enc_varint(v as nat).len() as int,
        )),
{
    lemma_varint_roundtrip(v as nat, rest);
}

/// Decoding an encoded `usize`, followed by anything, yields it back.
pub proof fn lemma_dec_enc_usize(v: usize, rest: Seq<u8>)
    ensures
        spec_dec_usize(spec_enc_varint(v as nat) + rest) == Ok::<_, DecodingError>((
            v,
            spec_enc_varint(v as nat).len() as int,
        )),
{
    lemma_varint_roundtrip(v as nat, rest);
}

/// Decoding an encoded byte, followed by anything, yields it back.
pub proof fn lemma_dec_enc_u8(v: u8, rest: Seq<u8>)
    ensures
        spec_dec_u8(spec_enc_u8(v) + rest) == Ok::<_, DecodingError>((v, 1int)),
{
    assert((spec_enc_u8(v) + rest)[0] == v);
}

/// Decoding an encoded byte string, followed by anything, yields it back.
pub proof fn lemma_dec_enc_bytes(b: Seq<u8>, rest: Seq<u8>)
    requires
        b.len() <= usize::MAX,
    ensures
        spec_dec_bytes(spec_enc_bytes(b) + rest) == Ok::<_, DecodingError>((
            b,
            spec_enc_bytes(b).len() as int,
        )),
{
    let s = spec_enc_bytes(b) + rest;
    let lenb = spec_enc_varint(b.len());
    assert(s =~= lenb + (b + rest));
    lemma_varint_roundtrip(b.len(), b + rest);
    let n = lenb.len() as int;
    assert(spec_dec_usize(s) == Ok::<_, DecodingError>((b.len() as usize, n)));
    assert(s.subrange(n, n + b.len()) =~= b);
}

/// Decoding an encoded string, followed by anything, yields it back.
pub proof fn lemma_dec_enc_str(c: Seq<char>, rest: Seq<u8>)
    requires
        vstd::utf8::encode_utf8(c).len() <= usize::MAX,
    ensures
        spec_dec_str(spec_enc_str(c) + rest) == Ok::<_, DecodingError>((
            c,
            spec_enc_str(c).len() as int,
        )),
{
    let b = vstd::utf8::encode_utf8(c);
    lemma_dec_enc_bytes(b, rest);
    vstd::utf8::encode_utf8_valid_utf8(c);
    vstd::utf8::encode_utf8_decode_utf8(c);
}

/// Whether an optional string is short enough to encode.
pub open spec fn spec_opt_str_encodable(o: Option<Seq<char>>) -> bool {
    o matches Some(s) ==> vstd::utf8::encode_utf8(s).len() <= usize::MAX
}

/// Decoding an encoded optional string, followed by anything, yields it back.
pub proof fn lemma_dec_enc_opt_str(o: Option<Seq<char>>, rest: Seq<u8>)
    requires
        spec_opt_str_encodable(o),
    ensures
        spec_dec_opt_str(spec_enc_opt_str(o) + rest) == Ok::<_, DecodingError>((
            o,
            spec_enc_opt_str(o).len() as int,
        )),
{
    let s = spec_enc_opt_str(o) + rest;
    match o {
        None => {
            assert(s[0] == 0);
        }
        Some(c) => {
            assert(s[0] == 1);
            assert(s.skip(1) =~= spec_enc_str(c) + rest);
            lemma_dec_enc_str(c, rest);
        }
    }
}

/// Decoding an encoded optional `u32`, followed by anything, yields it back.
pub proof fn lemma_dec_enc_opt_u32(o: Option<u32>, rest: Seq<u8>)
    ensures
        spec_dec_opt_u32(spec_enc_opt_u32(o) + rest) == Ok::<_, DecodingError>((
            o,
            spec_enc_opt_u32(o).len() as int,
        )),
{
    let s = spec_enc_opt_u32(o) + rest;
    match o {
        None => {
            assert(s[0] == 0);
        }
        Some(v) => {
            assert(s[0] == 1);
            assert(s.skip(1) =~= spec_enc_varint(v as nat) + rest);
            lemma_dec_enc_u32(v, rest);
        }
    }
}

/// Decoding an encoded optional `u64`, followed by anything, yields it back.
pub proof fn lemma_dec_enc_opt_u64(o: Option<u64>, rest: Seq<u8>)
    ensures
        spec_dec_opt_u64(spec_enc_opt_u64(o) + rest) == Ok::<_, DecodingError>((
            o,
            spec_enc_opt_u64(o).len() as int,
        )),
{
    let s = spec_enc_opt_u64(o) + rest;
    match o {
        None => {
            assert(s[0] == 0);
        }
        Some(v) => {
            assert(s[0] == 1);
            assert(s.skip(1) =~= spec_enc_varint(v as nat) + rest);
            lemma_dec_enc_u64(v, rest);
        }
    }
}

/// Decoding an encoded level, followed by anything, yields it back.
pub proof fn lemma_dec_enc_level(l: Level, rest: Seq<u8>)
    ensures
        spec_dec_level(spec_enc_level(l) + rest) == Ok::<_, DecodingError>((l, 1int)),
{
    assert((spec_enc_level(l) + rest)[0] == spec_level_primitive(l));
    crate::record::lemma_level_primitive_roundtrip(l);
}

/// Decoding an encoded datetime, followed by anything, yields it back.
pub proof fn lemma_dec_enc_datetime(dt: DateTime, rest: Seq<u8>)
    requires
        dt.wf(),
    ensures
        spec_dec_datetime(spec_enc_datetime(dt) + rest) == Ok::<_, DecodingError>((
            dt,
            spec_enc_datetime(dt).len() as int,
        )),
{
    let s = spec_enc_datetime(dt) + rest;
    let e1 = spec_enc_varint(dt.secs as nat);
    let e2 = spec_enc_varint(dt.nanos as nat);
    assert(s =~= e1 + (e2 + rest));
    lemma_varint_roundtrip(dt.secs as nat, e2 + rest);
    let n1 = e1.len() as int;
    assert(s.skip(n1) =~= e2 + rest);
    lemma_varint_roundtrip(dt.nanos as nat, rest);
    assert(dt == DateTime { secs: dt.secs, nanos: dt.nanos });
}

/// Whether a location's strings are short enough to encode.
pub open spec fn spec_location_encodable(l: SpecLocation) -> bool {
    spec_opt_str_encodable(l.file) && spec_opt_str_encodable(l.func)
}

/// Decoding an encoded location, followed by anything, yields it back.
pub proof fn lemma_dec_enc_location(l: SpecLocation, rest: Seq<u8>)
    requires
        spec_location_encodable(l),
    ensures
        spec_dec_location(spec_enc_location(l) + rest) == Ok::<_, DecodingError>((
            l,
            spec_enc_location(l).len() as int,
        )),
{
    let s = spec_enc_location(l) + rest;
    let e1 = spec_enc_opt_str(l.file);
    let e2 = spec_enc_opt_str(l.func);
    let e3 = spec_enc_opt_u32(l.line);
    assert(s =~= e1 + (e2 + (e3 + rest)));
    lemma_dec_enc_opt_str(l.file, e2 + (e3 + rest));
    let n1 = e1.len() as int;
    assert(s.skip(n1) =~= e2 + (e3 + rest));
    lemma_dec_enc_opt_str(l.func, e3 + rest);
    let n2 = e2.len() as int;
    assert(s.skip(n1 + n2) =~= e3 + rest);
    lemma_dec_enc_opt_u32(l.line, rest);
    assert(l == SpecLocation { file: l.file, func: l.func, line: l.line });
}

/// Whether metadata is valid and short enough to encode.
pub open spec fn spec_meta_encodable(m: SpecMeta) -> bool {
    m.datetime.wf() && spec_location_encodable(m.location) && spec_opt_str_encodable(m.tag)
}

/// Each field's decoder, run at its position in encoded metadata followed by
/// anything, yields that field back.
#[verifier::rlimit(100)]
#[verifier::spinoff_prover]
proof fn lemma_dec_enc_meta_fields(m: SpecMeta, rest: Seq<u8>)
    requires
        spec_meta_encodable(m),
    ensures
        ({
            let s = spec_enc_meta(m) + rest;
            let n1 = spec_enc_level(m.level).len() as int;
            let n2 = spec_enc_datetime(m.datetime).len() as int;
            let n3 = spec_enc_location(m.location).len() as int;
            let n4 = spec_enc_opt_str(m.tag).len() as int;
            let n5 = spec_enc_opt_u64(m.thread_id).len() as int;
            &&& spec_dec_level(s) == Ok::<_, DecodingError>((m.level, n1))
            &&& spec_dec_datetime(s.skip(n1)) == Ok::<_, DecodingError>((m.datetime, n2))
            &&& spec_dec_location(s.skip(n1 + n2)) == Ok::<_, DecodingError>((m.location, n3))
            &&& spec_dec_opt_str(s.skip(n1 + n2 + n3)) == Ok::<_, DecodingError>((m.tag, n4))
            &&& spec_dec_opt_u64(s.skip(n1 + n2 + n3 + n4)) == Ok::<_, DecodingError>((
                m.thread_id,
                n5,
            ))
        }),
{
    let s = spec_enc_meta(m) + rest;
    let e1 = spec_enc_level(m.level);
    let e2 = spec_enc_datetime(m.datetime);
    let e3 = spec_enc_location(m.location);
    let e4 = spec_enc_opt_str(m.tag);
    let e5 = spec_enc_opt_u64(m.thread_id);
    assert(s =~= e1 + (e2 + (e3 + (e4 + (e5 + rest)))));
    lemma_dec_enc_level(m.level, e2 + (e3 + (e4 + (e5 + rest))));
    let n1 = e1.len() as int;
    assert(s.skip(n1) =~= e2 + (e3 + (e4 + (e5 + rest))));
    lemma_dec_enc_datetime(m.datetime, e3 + (e4 + (e5 + rest)));
    let n2 = e2.len() as int;
    assert(s.skip(n1 + n2) =~= e3 + (e4 + (e5 + rest)));
    lemma_dec_enc_location(m.location, e4 + (e5 + rest));
    let n3 = e3.len() as int;
    assert(s.skip(n1 + n2 + n3) =~= e4 + (e5 + rest));
    lemma_dec_enc_opt_str(m.tag, e5 + rest);
    let n4 = e4.len() as int;
    assert(s.skip(n1 + n2 + n3 + n4) =~= e5 + rest);
    lemma_dec_enc_opt_u64(m.thread_id, rest);
}

/// Decoding encoded metadata, followed by anything, yields it back.
#[verifier::rlimit(100)]
#[verifier::spinoff_prover]
pub proof fn lemma_dec_enc_meta(m: SpecMeta, rest: Seq<u8>)
    requires
        spec_meta_encodable(m),
    ensures
        spec_dec_meta(spec_enc_meta(m) + rest) == Ok::<_, DecodingError>((
            m,
            spec_enc_meta(m).len() as int,
        )),
{
    lemma_dec_enc_meta_fields(m, rest);
    assert(m == SpecMeta {
        level: m.level,
        datetime: m.datetime,
        location: m.location,
        tag: m.tag,
        thread_id: m.thread_id,
    });
}

/// Whether a record is valid and short enough to encode.
pub open spec fn spec_record_encodable(r: SpecRecord) -> bool {
    spec_meta_encodable(r.meta) && vstd::utf8::encode_utf8(r.content).len() <= usize::MAX
}

/// Encode-decode round trip: decoding an encoded record, followed by any
/// trailing bytes, yields exactly the record back and consumes exactly its
/// encoding; in particular, re-encoding the decoded record gives the prefix
/// of the bytes that was consumed.
pub proof fn lemma_dec_enc_record(r: SpecRecord, rest: Seq<u8>)
    requires
        spec_record_encodable(r),
    ensures
        spec_dec_record(spec_enc_record(r) + rest) == Ok::<_, DecodingError>((
            r,
            spec_enc_record(r).len() as int,
        )),
        spec_enc_record(r) == (spec_enc_record(r) + rest).take(spec_enc_record(r).len() as int),
{
    let s = spec_enc_record(r) + rest;
    let e1 = spec_enc_meta(r.meta);
    let e2 = spec_enc_str(r.content);
    assert(s =~= e1 + (e2 + rest));
    lemma_dec_enc_meta(r.meta, e2 + rest);
    let n1 = e1.len() as int;
    assert(s.skip(n1) =~= e2 + rest);
    lemma_dec_enc_str(r.content, rest);
    assert(r == SpecRecord { meta: r.meta, content: r.content });
    assert(spec_enc_record(r) =~= s.take(spec_enc_record(r).len() as int));
}

// ============ Consumption bounds ============

/// A decoded varint consumes at least one byte and at most the whole source.
pub proof fn lemma_dec_varint_bounds(bytes: Seq<u8>)
    ensures
        spec_dec_varint(bytes) matches Some(t) ==> 1 <= t.1 <= bytes.len(),
    decreases bytes.len(),
{
    if bytes.len() > 0 && bytes[0] >= 128 {
        lemma_dec_varint_bounds(bytes.drop_first());
    }
}

/// Every decoded integer consumes at least one byte and at most the source.
pub proof fn lemma_dec_int_bounds(bytes: Seq<u8>)
    ensures
        spec_dec_u64(bytes) matches Ok(t) ==> 1 <= t.1 <= bytes.len(),
        spec_dec_u32(bytes) matches Ok(t) ==> 1 <= t.1 <= bytes.len(),
        spec_dec_usize(bytes) matches Ok(t) ==> 1 <= t.1 <= bytes.len(),
        spec_dec_u8(bytes) matches Ok(t) ==> 1 <= t.1 <= bytes.len(),
{
    lemma_dec_varint_bounds(bytes);
}

/// A decoded byte string consumes at least one byte and at most the source.
pub proof fn lemma_dec_bytes_bounds(bytes: Seq<u8>)
    ensures
        spec_dec_bytes(bytes) matches Ok(t) ==> 1 <= t.1 <= bytes.len(),
        spec_dec_str(bytes) matches Ok(t) ==> 1 <= t.1 <= bytes.len(),
{
    lemma_dec_int_bounds(bytes);
}

/// Every decoded optional consumes at least one byte and at most the source.
pub proof fn lemma_dec_opt_bounds(bytes: Seq<u8>)
    ensures
        spec_dec_opt_str(bytes) matches Ok(t) ==> 1 <= t.1 <= bytes.len(),
        spec_dec_opt_u32(bytes) matches Ok(t) ==> 1 <= t.1 <= bytes.len(),
        spec_dec_opt_u64(bytes) matches Ok(t) ==> 1 <= t.1 <= bytes.len(),
{
    lemma_dec_int_bounds(bytes);
    if bytes.len() > 0 {
        lemma_dec_bytes_bounds(bytes.skip(1));
        lemma_dec_int_bounds(bytes.skip(1));
    }
}

/// A decoded datetime consumes at least one byte and at most the source.
pub proof fn lemma_dec_datetime_bounds(bytes: Seq<u8>)
    ensures
        spec_dec_datetime(bytes) matches Ok(t) ==> 1 <= t.1 <= bytes.len(),
        spec_dec_level(bytes) matches Ok(t) ==> 1 <= t.1 <= bytes.len(),
{
    lemma_dec_int_bounds(bytes);
    match spec_dec_u64(bytes) {
        Ok((v, n1)) => {
            lemma_dec_int_bounds(bytes.skip(n1));
        },
        Err(e) => {
        },
    }
}

/// A decoded location consumes at least one byte and at most the source.
pub proof fn lemma_dec_location_bounds(bytes: Seq<u8>)
    ensures
        spec_dec_location(bytes) matches Ok(t) ==> 1 <= t.1 <= bytes.len(),
{
    lemma_dec_opt_bounds(bytes);
    match spec_dec_opt_str(bytes) {
        Ok((f, n1)) => {
            lemma_dec_opt_bounds(bytes.skip(n1));
            match spec_dec_opt_str(bytes.skip(n1)) {
                Ok((g, n2)) => {
                    lemma_dec_opt_bounds(bytes.skip(n1 + n2));
                },
                Err(e) => {
                },
            }
        },
        Err(e) => {
        },
    }
}

/// Decoded metadata consumes at least one byte and at most the source.
pub proof fn lemma_dec_meta_bounds(bytes: Seq<u8>)
    ensures
        spec_dec_meta(bytes) matches Ok(t) ==> 1 <= t.1 <= bytes.len(),
{
    lemma_dec_datetime_bounds(bytes);
    match spec_dec_level(bytes) {
        Ok((l, n1)) => {
            lemma_dec_datetime_bounds(bytes.skip(n1));
            match spec_dec_datetime(bytes.skip(n1)) {
                Ok((d, n2)) => {
                    lemma_dec_location_bounds(bytes.skip(n1 + n2));
                    match spec_dec_location(bytes.skip(n1 + n2)) {
                        Ok((o, n3)) => {
                            lemma_dec_opt_bounds(bytes.skip(n1 + n2 + n3));
                            match spec_dec_opt_str(bytes.skip(n1 + n2 + n3)) {
                                Ok((g, n4)) => {
                                    lemma_dec_opt_bounds(bytes.skip(n1 + n2 + n3 + n4));
                                },
                                Err(e) => {
                                },
                            }
                        },
                        Err(e) => {
                        },
                    }
                },
                Err(e) => {
                },
            }
        },
        Err(e) => {
        },
    }
}

/// A decoded record consumes at least one byte and at most the source.
pub proof fn lemma_dec_record_bounds(bytes: Seq<u8>)
    ensures
        spec_dec_record(bytes) matches Ok(t) ==> 1 <= t.1 <= bytes.len(),
{
    lemma_dec_meta_bounds(bytes);
    match spec_dec_meta(bytes) {
        Ok((m, n1)) => {
            lemma_dec_bytes_bounds(bytes.skip(n1));
        },
        Err(e) => {
        },
    }
}


/// Used to accumulate the data generated during encoding and reduce the
/// hand-off frequency: encoded bytes are staged in an internal buffer and
/// delivered onward in one piece per record.
pub struct AccumulationEncoder {
    buffer: Vec<u8>,
    cap: usize,
}

impl AccumulationEncoder {
    /// Constructs a new `AccumulationEncoder` with a staging capacity.
    pub fn new(buffer_len: usize) -> (r: AccumulationEncoder)
    {
        AccumulationEncoder { buffer: Vec::new(), cap: buffer_len }
    }

    /// Encodes the record and appends the encoded bytes to `out`.
    pub fn encode(&mut self, record: &Record, out: &mut Vec<u8>)
        ensures
            final(out)@ == old(out)@ + spec_enc_record(record@),
    {
        self.buffer.clear();
        encode_record(record, &mut self.buffer);
        crate::common::append_bytes(out, self.buffer.as_slice());
        self.buffer.clear();
        proof {
            assert(out@ =~= old(out)@ + spec_enc_record(record@));
        }
    }
}


/// An optional byte: a tag byte, then the byte when present.
pub open spec fn spec_enc_opt_u8(o: Option<u8>) -> Seq<u8> {
    match o {
        None => seq![0u8],
        Some(v) => seq![1u8, v],
    }
}

/// The optional byte at the head of `bytes`.
pub open spec fn spec_dec_opt_u8(bytes: Seq<u8>) -> Result<(Option<u8>, int), DecodingError> {
    match spec_dec_u8(bytes) {
        Err(e) => Err(e),
        Ok((tag, _)) => if tag == 0 {
            Ok((None, 1))
        } else if tag == 1 {
            match spec_dec_u8(bytes.skip(1)) {
                Err(e) => Err(e),
                Ok((v, n)) => Ok((Some(v), 1 + n)),
            }
        } else {
            Err(DecodingError::UnexpectedVariant { found_byte: tag })
        },
    }
}

/// Appends the encoding of the optional byte to `out`.
pub fn encode_opt_u8(o: &Option<u8>, out: &mut Vec<u8>)
    ensures
        final(out)@ == old(out)@ + spec_enc_opt_u8(*o),
{
    match o {
        None => {
            encode_u8(0, out);
            proof {
                assert(out@ =~= old(out)@ + spec_enc_opt_u8(*o));
            }
        },
        Some(v) => {
            encode_u8(1, out);
            encode_u8(*v, out);
            proof {
                assert(out@ =~= old(out)@ + spec_enc_opt_u8(*o));
            }
        },
    }
}

/// Reads the optional byte starting at `data[pos]`.
pub fn decode_opt_u8(data: &Vec<u8>, pos: usize) -> (r: Result<
    (Option<u8>, usize),
    DecodingError,
>)
    requires
        pos <= data@.len(),
    ensures
        match r {
            Ok((v, end)) => (spec_dec_opt_u8(data@.skip(pos as int)) == Ok::<_, DecodingError>((
                v,
                end - pos,
            )) && pos <= end <= data@.len()),
            Err(e) => ((spec_dec_opt_u8(data@.skip(pos as int)) matches Err(e2))
                && (spec_dec_opt_u8(data@.skip(pos as int)) matches Err(e2) && e2 == e)),
        },
{
    let ghost s = data@.skip(pos as int);
    match decode_u8(data, pos) {
        Err(e) => Err(e),
        Ok((tag, p)) => {
            if tag == 0 {
                Ok((None, p))
            } else if tag == 1 {
                proof {
                    assert(s.skip(1) =~= data@.skip(p as int));
                }
                match decode_u8(data, p) {
                    Err(e) => Err(e),
                    Ok((v, end)) => Ok((Some(v), end)),
                }
            } else {
                Err(DecodingError::UnexpectedVariant { found_byte: tag })
            }
        },
    }
}


// ============ Truncation ============

/// Whether a decode stopped for want of more bytes.
pub open spec fn spec_is_unexpected_end<T>(r: Result<(T, int), DecodingError>) -> bool {
    r matches Err(DecodingError::UnexpectedEnd { .. })
}

/// A varint at the head of a stream reads the same from any prefix long
/// enough to hold it, and runs out of bytes on any shorter one.
pub proof fn lemma_dec_varint_prefix(bytes: Seq<u8>, k: int)
    requires
        0 <= k <= bytes.len(),
    ensures
        ({
            match spec_dec_varint(bytes) {
                Some(t) => (t.1 <= k ==> spec_dec_varint(bytes.take(k)) == spec_dec_varint(
                    bytes,
                )) && (k < t.1 ==> spec_dec_varint(bytes.take(k)) is None),
                None => true,
            }
        }),
    decreases bytes.len(),
{
    lemma_dec_varint_bounds(bytes);
    match spec_dec_varint(bytes) {
        None => {
        }
        Some((v, n)) => {
            if k == 0 {
                assert(bytes.take(0).len() == 0);
                assert(spec_dec_varint(bytes.take(0)) is None);
            } else if bytes[0] < 128 {
                assert(bytes.take(k)[0] == bytes[0]);
                assert(spec_dec_varint(bytes.take(k)) == Some((bytes[0] as nat, 1int)));
            } else {
                assert(bytes.take(k)[0] == bytes[0]);
                assert(bytes.take(k).drop_first() =~= bytes.drop_first().take(k - 1));
                lemma_dec_varint_prefix(bytes.drop_first(), k - 1);
                lemma_dec_varint_bounds(bytes.drop_first());
                match spec_dec_varint(bytes.drop_first()) {
                    None => {
                    }
                    Some((v2, n2)) => {
                        assert(n == n2 + 1);
                        if n <= k {
                            assert(spec_dec_varint(bytes.drop_first().take(k - 1))
                                == Some((v2, n2)));
                            assert(spec_dec_varint(bytes.take(k)) == Some((v, n)));
                        } else {
                            assert(spec_dec_varint(bytes.drop_first().take(k - 1)) is None);
                            assert(spec_dec_varint(bytes.take(k)) is None);
                        }
                    }
                }
            }
        }
    }
}

/// Every integer decoder reads the same from any long-enough prefix and runs
/// out on any shorter one.
pub proof fn lemma_dec_int_prefix(bytes: Seq<u8>, k: int)
    requires
        0 <= k <= bytes.len(),
    ensures
        ({
            match spec_dec_u64(bytes) {
                Ok(t) => (t.1 <= k ==> spec_dec_u64(bytes.take(k)) == spec_dec_u64(bytes)) && (
                    k < t.1 ==> spec_is_unexpected_end(spec_dec_u64(bytes.take(k)))),
                Err(e) => true,
            }
        }),
        ({
            match spec_dec_u32(bytes) {
                Ok(t) => (t.1 <= k ==> spec_dec_u32(bytes.take(k)) == spec_dec_u32(bytes)) && (
                    k < t.1 ==> spec_is_unexpected_end(spec_dec_u32(bytes.take(k)))),
                Err(e) => true,
            }
        }),
        ({
            match spec_dec_usize(bytes) {
                Ok(t) => (t.1 <= k ==> spec_dec_usize(bytes.take(k)) == spec_dec_usize(bytes)) && (
                    k < t.1 ==> spec_is_unexpected_end(spec_dec_usize(bytes.take(k)))),
                Err(e) => true,
            }
        }),
        ({
            match spec_dec_u8(bytes) {
                Ok(t) => (t.1 <= k ==> spec_dec_u8(bytes.take(k)) == spec_dec_u8(bytes)) && (
                    k < t.1 ==> spec_is_unexpected_end(spec_dec_u8(bytes.take(k)))),
                Err(e) => true,
            }
        }),
{
    lemma_dec_varint_prefix(bytes, k);
    lemma_dec_varint_bounds(bytes);
    if bytes.len() > 0 && k > 0 {
        assert(bytes.take(k)[0] == bytes[0]);
    }
}

/// A byte string or character string reads the same from any long-enough
/// prefix and runs out on any shorter one.
pub proof fn lemma_dec_bytes_prefix(bytes: Seq<u8>, k: int)
    requires
        0 <= k <= bytes.len(),
    ensures
        ({
            match spec_dec_bytes(bytes) {
                Ok(t) => (t.1 <= k ==> spec_dec_bytes(bytes.take(k)) == spec_dec_bytes(bytes)) && (
                    k < t.1 ==> spec_is_unexpected_end(spec_dec_bytes(bytes.take(k)))),
                Err(e) => true,
            }
        }),
        ({
            match spec_dec_str(bytes) {
                Ok(t) => (t.1 <= k ==> spec_dec_str(bytes.take(k)) == spec_dec_str(bytes)) && (
                    k < t.1 ==> spec_is_unexpected_end(spec_dec_str(bytes.take(k)))),
                Err(e) => true,
            }
        }),
{
    lemma_dec_int_prefix(bytes, k);
    lemma_dec_int_bounds(bytes);
    match spec_dec_usize(bytes) {
        Err(e) => {
        }
        Ok((len, n)) => {
            if n + len <= bytes.len() {
                if n + len <= k {
                    assert(bytes.take(k).subrange(n, n + len) =~= bytes.subrange(n, n + len));
                }
            }
        }
    }
}

/// An optional value reads the same from any long-enough prefix and runs out
/// on any shorter one.
pub proof fn lemma_dec_opt_prefix(bytes: Seq<u8>, k: int)
    requires
        0 <= k <= bytes.len(),
    ensures
        ({
            match spec_dec_opt_str(bytes) {
                Ok(t) => (t.1 <= k ==> spec_dec_opt_str(bytes.take(k)) == spec_dec_opt_str(bytes)) && (
                    k < t.1 ==> spec_is_unexpected_end(spec_dec_opt_str(bytes.take(k)))),
                Err(e) => true,
            }
        }),
        ({
            match spec_dec_opt_u32(bytes) {
                Ok(t) => (t.1 <= k ==> spec_dec_opt_u32(bytes.take(k)) == spec_dec_opt_u32(bytes)) && (
                    k < t.1 ==> spec_is_unexpected_end(spec_dec_opt_u32(bytes.take(k)))),
                Err(e) => true,
            }
        }),
        ({
            match spec_dec_opt_u64(bytes) {
                Ok(t) => (t.1 <= k ==> spec_dec_opt_u64(bytes.take(k)) == spec_dec_opt_u64(bytes)) && (
                    k < t.1 ==> spec_is_unexpected_end(spec_dec_opt_u64(bytes.take(k)))),
                Err(e) => true,
            }
        }),
{
    lemma_dec_int_prefix(bytes, k);
    lemma_dec_int_bounds(bytes);
    lemma_dec_opt_bounds(bytes);
    if bytes.len() > 0 && k > 0 {
        assert(bytes.take(k)[0] == bytes[0]);
        assert(bytes.take(k).skip(1) =~= bytes.skip(1).take(k - 1));
        lemma_dec_bytes_prefix(bytes.skip(1), k - 1);
        lemma_dec_int_prefix(bytes.skip(1), k - 1);
        lemma_dec_bytes_bounds(bytes.skip(1));
        lemma_dec_int_bounds(bytes.skip(1));
    }
}

/// A level or a datetime reads the same from any long-enough prefix and runs
/// out on any shorter one.
pub proof fn lemma_dec_datetime_prefix(bytes: Seq<u8>, k: int)
    requires
        0 <= k <= bytes.len(),
    ensures
        ({
            match spec_dec_level(bytes) {
                Ok(t) => (t.1 <= k ==> spec_dec_level(bytes.take(k)) == spec_dec_level(bytes)) && (
                    k < t.1 ==> spec_is_unexpected_end(spec_dec_level(bytes.take(k)))),
                Err(e) => true,
            }
        }),
        ({
            match spec_dec_datetime(bytes) {
                Ok(t) => (t.1 <= k ==> spec_dec_datetime(bytes.take(k)) == spec_dec_datetime(bytes)) && (
                    k < t.1 ==> spec_is_unexpected_end(spec_dec_datetime(bytes.take(k)))),
                Err(e) => true,
            }
        }),
{
    lemma_dec_int_prefix(bytes, k);
    lemma_dec_int_bounds(bytes);
    lemma_dec_datetime_bounds(bytes);
    match spec_dec_u64(bytes) {
        Err(e) => {
        }
        Ok((secs, n1)) => {
            lemma_dec_int_bounds(bytes.skip(n1));
            if n1 <= k {
                assert(spec_dec_u64(bytes.take(k)) == spec_dec_u64(bytes));
                assert(bytes.take(k).skip(n1) =~= bytes.skip(n1).take(k - n1));
                lemma_dec_int_prefix(bytes.skip(n1), k - n1);
                if secs <= i64::MAX {
                    match spec_dec_u32(bytes.skip(n1)) {
                        Err(e) => {
                        }
                        Ok((nanos, n2)) => {
                            if n1 + n2 <= k {
                                assert(spec_dec_u32(bytes.take(k).skip(n1)) == spec_dec_u32(
                                    bytes.skip(n1),
                                ));
                                assert(spec_dec_datetime(bytes.take(k)) == spec_dec_datetime(
                                    bytes,
                                ));
                            } else {
                                assert(spec_is_unexpected_end(
                                    spec_dec_u32(bytes.take(k).skip(n1)),
                                ));
                                assert(spec_is_unexpected_end(spec_dec_datetime(bytes.take(k))));
                            }
                        }
                    }
                }
            } else {
                assert(spec_is_unexpected_end(spec_dec_u64(bytes.take(k))));
                assert(spec_is_unexpected_end(spec_dec_datetime(bytes.take(k))));
            }
        }
    }
    if spec_dec_datetime(bytes) is Ok {
        let t = spec_dec_datetime(bytes)->Ok_0;
        assert(t.1 <= k ==> spec_dec_datetime(bytes.take(k)) == spec_dec_datetime(bytes));
        assert(k < t.1 ==> spec_is_unexpected_end(spec_dec_datetime(bytes.take(k))));
    }
}

/// A location reads the same from any long-enough prefix and runs out on any
/// shorter one.
pub proof fn lemma_dec_location_prefix(bytes: Seq<u8>, k: int)
    requires
        0 <= k <= bytes.len(),
    ensures
        ({
            match spec_dec_location(bytes) {
                Ok(t) => (t.1 <= k ==> spec_dec_location(bytes.take(k)) == spec_dec_location(bytes)) && (
                    k < t.1 ==> spec_is_unexpected_end(spec_dec_location(bytes.take(k)))),
                Err(e) => true,
            }
        }),
{
    lemma_dec_opt_prefix(bytes, k);
    lemma_dec_opt_bounds(bytes);
    lemma_dec_location_bounds(bytes);
    match spec_dec_opt_str(bytes) {
        Err(e) => {
        }
        Ok((f, n1)) => {
            lemma_dec_opt_bounds(bytes.skip(n1));
            match spec_dec_opt_str(bytes.skip(n1)) {
                Err(e) => {
                }
                Ok((g, n2)) => {
                    lemma_dec_opt_bounds(bytes.skip(n1 + n2));
                    assert(bytes.skip(n1).skip(n2) =~= bytes.skip(n1 + n2));
                }
            }
            if n1 <= k {
                assert(bytes.take(k).skip(n1) =~= bytes.skip(n1).take(k - n1));
                lemma_dec_opt_prefix(bytes.skip(n1), k - n1);
                match spec_dec_opt_str(bytes.skip(n1)) {
                    Err(e) => {
                    }
                    Ok((g, n2)) => {
                        if n1 + n2 <= k {
                            assert(bytes.take(k).skip(n1 + n2) =~= bytes.skip(n1 + n2).take(
                                k - n1 - n2,
                            ));
                            lemma_dec_opt_prefix(bytes.skip(n1 + n2), k - n1 - n2);
                        }
                    }
                }
            }
        }
    }
}

/// Metadata reads the same from any long-enough prefix and runs out on any
/// shorter one.
#[verifier::rlimit(100)]
#[verifier::spinoff_prover]
pub proof fn lemma_dec_meta_prefix(bytes: Seq<u8>, k: int)
    requires
        0 <= k <= bytes.len(),
    ensures
        ({
            match spec_dec_meta(bytes) {
                Ok(t) => (t.1 <= k ==> spec_dec_meta(bytes.take(k)) == spec_dec_meta(bytes)) && (
                    k < t.1 ==> spec_is_unexpected_end(spec_dec_meta(bytes.take(k)))),
                Err(e) => true,
            }
        }),
{
    lemma_dec_datetime_prefix(bytes, k);
    lemma_dec_datetime_bounds(bytes);
    lemma_dec_meta_bounds(bytes);
    match spec_dec_level(bytes) {
        Err(e) => {
        }
        Ok((l, n1)) => {
            lemma_dec_meta_skip_bounds(bytes, n1);
            if n1 <= k {
                assert(bytes.take(k).skip(n1) =~= bytes.skip(n1).take(k - n1));
                lemma_dec_datetime_prefix(bytes.skip(n1), k - n1);
                match spec_dec_datetime(bytes.skip(n1)) {
                    Err(e) => {
                    }
                    Ok((d, n2)) => {
                        if n1 + n2 <= k {
                            assert(bytes.take(k).skip(n1 + n2) =~= bytes.skip(n1 + n2).take(
                                k - n1 - n2,
                            ));
                            lemma_dec_location_prefix(bytes.skip(n1 + n2), k - n1 - n2);
                            lemma_dec_location_bounds(bytes.skip(n1 + n2));
                            match spec_dec_location(bytes.skip(n1 + n2)) {
                                Err(e) => {
                                }
                                Ok((o, n3)) => {
                                    if n1 + n2 + n3 <= k {
                                        assert(bytes.take(k).skip(n1 + n2 + n3) =~= bytes.skip(
                                            n1 + n2 + n3,
                                        ).take(k - n1 - n2 - n3));
                                        lemma_dec_opt_prefix(
                                            bytes.skip(n1 + n2 + n3),
                                            k - n1 - n2 - n3,
                                        );
                                        lemma_dec_opt_bounds(bytes.skip(n1 + n2 + n3));
                                        match spec_dec_opt_str(bytes.skip(n1 + n2 + n3)) {
                                            Err(e) => {
                                            }
                                            Ok((g, n4)) => {
                                                if n1 + n2 + n3 + n4 <= k {
                                                    assert(bytes.take(k).skip(
                                                        n1 + n2 + n3 + n4,
                                                    ) =~= bytes.skip(n1 + n2 + n3 + n4).take(
                                                        k - n1 - n2 - n3 - n4,
                                                    ));
                                                    lemma_dec_opt_prefix(
                                                        bytes.skip(n1 + n2 + n3 + n4),
                                                        k - n1 - n2 - n3 - n4,
                                                    );
                                                    lemma_dec_opt_bounds(
                                                        bytes.skip(n1 + n2 + n3 + n4),
                                                    );
                                                }
                                            }
                                        }
                                    }
                                }
                            }
                        }
                    }
                }
            }
        }
    }
}

/// A record reads the same from any long-enough prefix of a stream, and runs
/// out of bytes on any prefix that cuts it short.
#[verifier::rlimit(100)]
#[verifier::spinoff_prover]
pub proof fn lemma_dec_record_prefix(bytes: Seq<u8>, k: int)
    requires
        0 <= k <= bytes.len(),
    ensures
        ({
            match spec_dec_record(bytes) {
                Ok(t) => (t.1 <= k ==> spec_dec_record(bytes.take(k)) == spec_dec_record(bytes)) && (
                    k < t.1 ==> spec_is_unexpected_end(spec_dec_record(bytes.take(k)))),
                Err(e) => true,
            }
        }),
{
    lemma_dec_meta_prefix(bytes, k);
    lemma_dec_meta_bounds(bytes);
    lemma_dec_record_bounds(bytes);
    match spec_dec_meta(bytes) {
        Err(e) => {
        }
        Ok((m, n1)) => {
            lemma_dec_bytes_bounds(bytes.skip(n1));
            if n1 <= k {
                assert(bytes.take(k).skip(n1) =~= bytes.skip(n1).take(k - n1));
                lemma_dec_bytes_prefix(bytes.skip(n1), k - n1);
            }
        }
    }
}


/// The consumption bounds of every field decoder at its position in a
/// metadata stream.
proof fn lemma_dec_meta_skip_bounds(bytes: Seq<u8>, n1: int)
    requires
        0 <= n1 <= bytes.len(),
    ensures
        spec_dec_datetime(bytes.skip(n1)) matches Ok(t2) ==> 1 <= t2.1 <= bytes.len() - n1,
        ({
            match spec_dec_datetime(bytes.skip(n1)) {
                Err(e) => true,
                Ok((d, n2)) => {
                    &&& (spec_dec_location(bytes.skip(n1 + n2)) matches Ok(t3) ==> 1 <= t3.1
                        <= bytes.len() - n1 - n2)
                    &&& bytes.skip(n1).skip(n2) == bytes.skip(n1 + n2)
                    &&& (match spec_dec_location(bytes.skip(n1 + n2)) {
                        Err(e) => true,
                        Ok((o, n3)) => {
                            &&& (spec_dec_opt_str(bytes.skip(n1 + n2 + n3)) matches Ok(t4) ==> 1
                                <= t4.1 <= bytes.len() - n1 - n2 - n3)
                            &&& bytes.skip(n1 + n2).skip(n3) == bytes.skip(n1 + n2 + n3)
                            &&& (match spec_dec_opt_str(bytes.skip(n1 + n2 + n3)) {
                                Err(e) => true,
                                Ok((g, n4)) => {
                                    &&& (spec_dec_opt_u64(bytes.skip(n1 + n2 + n3 + n4))
                                        matches Ok(t5) ==> 1 <= t5.1 <= bytes.len() - n1 - n2 - n3
                                        - n4)
                                    &&& bytes.skip(n1 + n2 + n3).skip(n4) == bytes.skip(
                                        n1 + n2 + n3 + n4,
                                    )
                                },
                            })
                        },
                    })
                },
            }
        }),
{
    lemma_dec_datetime_bounds(bytes.skip(n1));
    match spec_dec_datetime(bytes.skip(n1)) {
        Err(e) => {
        }
        Ok((d, n2)) => {
            assert(bytes.skip(n1).skip(n2) =~= bytes.skip(n1 + n2));
            lemma_dec_location_bounds(bytes.skip(n1 + n2));
            match spec_dec_location(bytes.skip(n1 + n2)) {
                Err(e) => {
                }
                Ok((o, n3)) => {
                    assert(bytes.skip(n1 + n2).skip(n3) =~= bytes.skip(n1 + n2 + n3));
                    lemma_dec_opt_bounds(bytes.skip(n1 + n2 + n3));
                    match spec_dec_opt_str(bytes.skip(n1 + n2 + n3)) {
                        Err(e) => {
                        }
                        Ok((g, n4)) => {
                            assert(bytes.skip(n1 + n2 + n3).skip(n4) =~= bytes.skip(
                                n1 + n2 + n3 + n4,
                            ));
                            lemma_dec_opt_bounds(bytes.skip(n1 + n2 + n3 + n4));
                        }
                    }
                }
            }
        }
    }
}

} // verus!\n