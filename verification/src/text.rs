//! Decimal text: rendering integers as ASCII digit bytes and reading them
//! back, for logfile names and the plain-text formatter.

use vstd::prelude::*;

verus! {

/// The ASCII byte of one decimal digit.
pub open spec fn spec_digit_byte(d: int) -> u8 {
    (48 + d) as u8
}

/// The ASCII decimal digits of an unsigned value, most significant first.
pub open spec fn spec_decimal(v: nat) -> Seq<u8>
    decreases v,
{
    if v < 10 {
        seq![spec_digit_byte(v as int)]
    } else {
        spec_decimal(v / 10) + seq![spec_digit_byte((v % 10) as int)]
    }
}

/// The ASCII decimal rendering of a signed value: a minus sign before the
/// digits of its magnitude.
pub open spec fn spec_decimal_i64(v: i64) -> Seq<u8> {
    if v < 0 {
        seq![45u8] + spec_decimal((-(v as int)) as nat)
    } else {
        spec_decimal(v as nat)
    }
}

/// The digits of a value, left-padded with zeros to at least `w` digits.
pub open spec fn spec_padded(v: nat, w: nat) -> Seq<u8> {
    let d = spec_decimal(v);
    if d.len() >= w {
        d
    } else {
        Seq::new((w - d.len()) as nat, |i: int| 48u8) + d
    }
}

/// Appends the decimal digits of `v` to `out`.
pub fn push_decimal(v: u64, out: &mut Vec<u8>)
    ensures
        final(out)@ == old(out)@ + spec_decimal(v as nat),
    decreases v,
{
    if v < 10 {
        out.push((48 + v) as u8);
        proof {
            assert(out@ =~= old(out)@ + spec_decimal(v as nat));
        }
    } else {
        push_decimal(v / 10, out);
        out.push((48 + v % 10) as u8);
        proof {
            assert(out@ =~= old(out)@ + spec_decimal(v as nat));
        }
    }
}

/// Appends the decimal rendering of the signed `v` to `out`.
pub fn push_decimal_i64(v: i64, out: &mut Vec<u8>)
    ensures
        final(out)@ == old(out)@ + spec_decimal_i64(v),
{
    if v < 0 {
        out.push(45);
        let m: u64 = if v == i64::MIN {
            9223372036854775808u64
        } else {
            (-v) as u64
        };
        push_decimal(m, out);
        proof {
            assert(m as nat == (-(v as int)) as nat);
            assert(out@ =~= old(out)@ + spec_decimal_i64(v));
        }
    } else {
        push_decimal(v as u64, out);
    }
}

/// Appends the decimal digits of `v`, zero-padded to at least `w` digits,
/// to `out`.
pub fn push_padded(v: u64, w: usize, out: &mut Vec<u8>)
    requires
        w <= 16,
    ensures
        final(out)@ == old(out)@ + spec_padded(v as nat, w as nat),
{
    let mut digits: Vec<u8> = Vec::new();
    push_decimal(v, &mut digits);
    proof {
        assert(digits@ =~= spec_decimal(v as nat));
    }
    let mut pad: usize = 0;
    let need: usize = if digits.len() >= w {
        0
    } else {
        w - digits.len()
    };
    while pad < need
        invariant
            0 <= pad <= need,
            need == (if digits@.len() >= w {
                0int
            } else {
                w - digits@.len()
            }),
            digits@ == spec_decimal(v as nat),
            out@ == old(out)@ + Seq::new(pad as nat, |i: int| 48u8),
        decreases need - pad,
    {
        out.push(48);
        pad = pad + 1;
        proof {
            assert(out@ =~= old(out)@ + Seq::new(pad as nat, |i: int| 48u8));
        }
    }
    crate::common::append_bytes(out, digits.as_slice());
    proof {
        assert(out@ =~= old(out)@ + spec_padded(v as nat, w as nat));
    }
}

/// The unsigned value that a run of ASCII digits denotes: `None` when the
/// run is empty, holds a non-digit, or exceeds `u64`.
pub open spec fn spec_digits_value(s: Seq<u8>) -> Option<nat>
    decreases s.len(),
{
    if s.len() == 0 {
        None
    } else if !(48 <= s.last() <= 57) {
        None
    } else if s.len() == 1 {
        Some((s.last() - 48) as nat)
    } else {
        match spec_digits_value(s.drop_last()) {
            None => None,
            Some(h) => Some((h * 10 + (s.last() - 48)) as nat),
        }
    }
}

/// Reads a run of ASCII digits as a `u64`, or nothing when the run is empty,
/// holds a non-digit, or overflows.
pub fn parse_digits_u64(s: &[u8]) -> (r: Option<u64>)
    ensures
        match r {
            Some(v) => spec_digits_value(s@) == Some(v as nat),
            None => (spec_digits_value(s@) matches Some(v) ==> v > u64::MAX),
        },
{
    if s.len() == 0 {
        return None;
    }
    let mut v: u64 = 0;
    let mut over: bool = false;
    let mut i: usize = 0;
    proof {
        assert(s@.take(0).len() == 0);
    }
    while i < s.len()
        invariant
            0 <= i <= s@.len(),
            i == 0 ==> v == 0 && !over,
            i > 0 && !over ==> spec_digits_value(s@.take(i as int)) == Some(v as nat),
            i > 0 && over ==> (spec_digits_value(s@.take(i as int)) matches Some(w) ==> w
                > u64::MAX),
        decreases s@.len() - i,
    {
        let b = s[i];
        if b < 48 || b > 57 {
            proof {
                lemma_digits_value_bad(s@, i as int);
            }
            return None;
        }
        let d = (b - 48) as u64;
        let ghost pre = v as nat;
        let ghost pre_over = over;
        if !over {
            if v > (u64::MAX - d) / 10 {
                over = true;
                proof {
                    let q = ((u64::MAX - d) as nat) / 10;
                    vstd::arithmetic::div_mod::lemma_fundamental_div_mod(
                        (u64::MAX - d) as int,
                        10,
                    );
                    assert(pre * 10 + d > u64::MAX) by (nonlinear_arith)
                        requires
                            pre > q,
                            (u64::MAX - d) as nat == 10 * q + ((u64::MAX - d) as nat) % 10,
                            0 <= ((u64::MAX - d) as nat) % 10 < 10,
                    ;
                }
            } else {
                proof {
                    let q = ((u64::MAX - d) as nat) / 10;
                    vstd::arithmetic::div_mod::lemma_fundamental_div_mod(
                        (u64::MAX - d) as int,
                        10,
                    );
                    assert(pre * 10 + d <= u64::MAX) by (nonlinear_arith)
                        requires
                            pre <= q,
                            (u64::MAX - d) as nat == 10 * q + ((u64::MAX - d) as nat) % 10,
                            0 <= ((u64::MAX - d) as nat) % 10,
                    ;
                }
                v = v * 10 + d;
            }
        }
        i = i + 1;
        proof {
            let t = s@.take(i as int);
            assert(t.last() == s@[i - 1]);
            assert(t.drop_last() =~= s@.take(i - 1));
            if i > 1 {
                if !pre_over {
                    assert(spec_digits_value(t) == Some((pre * 10 + (b - 48)) as nat));
                } else {
                    lemma_digits_value_monotone(t);
                }
            }
        }
    }
    proof {
        assert(s@.take(s@.len() as int) =~= s@);
    }
    if over {
        None
    } else {
        Some(v)
    }
}

/// A non-digit anywhere makes the whole run worthless.
proof fn lemma_digits_value_bad(s: Seq<u8>, i: int)
    requires
        0 <= i < s.len(),
        !(48 <= s[i] <= 57),
    ensures
        spec_digits_value(s) is None,
    decreases s.len(),
{
    if s.len() > 0 && i < s.len() - 1 {
        lemma_digits_value_bad(s.drop_last(), i);
    }
}

/// A longer digit run denotes at least as large a value.
proof fn lemma_digits_value_monotone(s: Seq<u8>)
    requires
        s.len() >= 2,
    ensures
        (spec_digits_value(s) matches Some(v) ==> (spec_digits_value(s.drop_last())
            matches Some(h) && v >= h)),
{
    match spec_digits_value(s.drop_last()) {
        None => {
        }
        Some(h) => {
            if 48 <= s.last() <= 57 {
                assert(h * 10 >= h) by (nonlinear_arith)
                    requires
                        h >= 0,
                ;
            }
        }
    }
}

} // verus!
