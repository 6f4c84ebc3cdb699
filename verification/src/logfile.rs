//! Logfile naming: `<identifier>-<unix_seconds>.<extension>`, rendered and
//! read back as bytes. Opening, appending and enumerating the files
//! themselves is the caller's outside work.

use vstd::prelude::*;
use vstd::string::StringSliceAdditionalSpecFns;

use crate::text::{push_decimal_i64, spec_decimal_i64, spec_digits_value};

verus! {

/// The extension of a log file, with its dot.
pub open spec fn spec_file_ext() -> Seq<u8> {
    seq![46u8, 112u8, 105u8, 110u8, 101u8]
}

/// The name of the logfile holding chunks whose bucket starts at `secs`:
/// the identifier, a separator, the timestamp, and the extension.
pub open spec fn spec_logfile_name(id: Seq<char>, secs: i64) -> Seq<u8> {
    vstd::utf8::encode_utf8(id) + seq![45u8] + spec_decimal_i64(secs) + spec_file_ext()
}

/// Renders the name of the logfile for the bucket starting at `secs`.
pub fn logfile_name(identifier: &str, secs: i64) -> (r: Vec<u8>)
    ensures
        r@ == spec_logfile_name(identifier@, secs),
{
    let mut out: Vec<u8> = Vec::new();
    crate::common::append_bytes(&mut out, identifier.as_bytes());
    out.push(45);
    proof {
        assert(out@ =~= vstd::utf8::encode_utf8(identifier@) + seq![45u8]);
    }
    push_decimal_i64(secs, &mut out);
    out.push(46);
    out.push(112);
    out.push(105);
    out.push(110);
    out.push(101);
    proof {
        assert(out@ =~= spec_logfile_name(identifier@, secs));
    }
    out
}

/// The position of the last separator byte, if any.
pub open spec fn spec_last_dash(s: Seq<u8>) -> Option<int>
    decreases s.len(),
{
    if s.len() == 0 {
        None
    } else if s.last() == 45 {
        Some(s.len() - 1)
    } else {
        spec_last_dash(s.drop_last())
    }
}

/// The signed value a timestamp field denotes: an optional sign followed by
/// digits, within the range of the target type.
pub open spec fn spec_timestamp_value(s: Seq<u8>) -> Option<i64> {
    if s.len() > 0 && s[0] == 45 {
        match spec_digits_value(s.skip(1)) {
            Some(v) => if v <= 0x8000_0000_0000_0000 {
                Some((-(v as int)) as i64)
            } else {
                None
            },
            None => None,
        }
    } else if s.len() > 0 && s[0] == 43 {
        match spec_digits_value(s.skip(1)) {
            Some(v) => if v <= i64::MAX {
                Some(v as i64)
            } else {
                None
            },
            None => None,
        }
    } else {
        match spec_digits_value(s) {
            Some(v) => if v <= i64::MAX {
                Some(v as i64)
            } else {
                None
            },
            None => None,
        }
    }
}

/// The timestamp a file name carries for the given identifier: the name must
/// end in the extension, split at its last separator into exactly the
/// identifier and a timestamp field.
pub open spec fn spec_parse_logfile_name(name: Seq<u8>, id: Seq<char>) -> Option<i64> {
    if name.len() < 5 || name.skip(name.len() - 5) != spec_file_ext() {
        None
    } else {
        let stem = name.take(name.len() - 5);
        match spec_last_dash(stem) {
            None => None,
            Some(i) => {
                if stem.take(i) == vstd::utf8::encode_utf8(id) {
                    spec_timestamp_value(stem.skip(i + 1))
                } else {
                    None
                }
            },
        }
    }
}

/// Reads the timestamp out of a candidate file name: nothing when the
/// extension or the identifier does not match, or the timestamp field is not
/// a number in range.
pub fn parse_logfile_name(name: &str, identifier: &str) -> (r: Option<i64>)
    ensures
        r == spec_parse_logfile_name(name.spec_bytes(), identifier@),
{
    let bytes = name.as_bytes();
    let n = bytes.len();
    if n < 5 {
        return None;
    }
    let ext = &bytes[n - 5..n];
    if !(ext[0] == 46 && ext[1] == 112 && ext[2] == 105 && ext[3] == 110 && ext[4] == 101) {
        proof {
            assert(bytes@.skip(n - 5) != spec_file_ext());
        }
        return None;
    }
    proof {
        assert(bytes@.skip(n - 5) =~= spec_file_ext());
    }
    let ghost stem = bytes@.take(n - 5);
    let stem_len = n - 5;
    let mut dash: usize = 0;
    let mut found: bool = false;
    let mut i: usize = stem_len;
    while i > 0 && !found
        invariant
            0 <= i <= stem_len == bytes@.len() - 5,
            bytes@.len() <= usize::MAX,
            bytes@ == name.spec_bytes(),
            bytes@.skip(stem_len as int) == spec_file_ext(),
            stem == bytes@.take(stem_len as int),
            !found ==> forall|j: int| i <= j < stem_len ==> stem[j] != 45,
            found ==> dash < stem_len && stem[dash as int] == 45 && (forall|j: int|
                dash < j < stem_len ==> stem[j] != 45),
        decreases i + (if found {
            0int
        } else {
            1int
        }),
    {
        if bytes[i - 1] == 45 {
            dash = i - 1;
            found = true;
            proof {
                assert(forall|j: int| dash < j < stem_len ==> stem[j] != 45);
            }
        }
        i = i - 1;
    }
    proof {
        lemma_last_dash(stem, dash as int, found);
    }
    if !found {
        return None;
    }
    let id_bytes = identifier.as_bytes();
    if dash != id_bytes.len() {
        proof {
            assert(stem.take(dash as int).len() == dash);
            assert(stem.take(dash as int) != vstd::utf8::encode_utf8(identifier@));
        }
        return None;
    }
    let mut k: usize = 0;
    while k < dash
        invariant
            0 <= k <= dash < stem_len == bytes@.len() - 5,
            bytes@.len() <= usize::MAX,
            bytes@ == name.spec_bytes(),
            bytes@.skip(stem_len as int) == spec_file_ext(),
            stem == bytes@.take(stem_len as int),
            spec_last_dash(stem) == Some(dash as int),
            dash == id_bytes@.len(),
            id_bytes@ == vstd::utf8::encode_utf8(identifier@),
            forall|j: int| 0 <= j < k ==> stem[j] == id_bytes@[j],
        decreases dash - k,
    {
        if bytes[k] != id_bytes[k] {
            proof {
                assert(stem.take(dash as int)[k as int] != vstd::utf8::encode_utf8(
                    identifier@,
                )[k as int]);
            }
            return None;
        }
        k = k + 1;
    }
    proof {
        assert(stem.take(dash as int) =~= vstd::utf8::encode_utf8(identifier@));
    }
    let ts = &bytes[dash + 1..stem_len];
    proof {
        assert(ts@ =~= stem.skip(dash + 1));
    }
    parse_timestamp(ts)
}

/// Reads a signed timestamp field.
fn parse_timestamp(s: &[u8]) -> (r: Option<i64>)
    ensures
        r == spec_timestamp_value(s@),
{
    if s.len() > 0 && (s[0] == 45 || s[0] == 43) {
        let digits = &s[1..s.len()];
        proof {
            assert(digits@ =~= s@.skip(1));
        }
        match crate::text::parse_digits_u64(digits) {
            None => None,
            Some(v) => {
                if s[0] == 45 {
                    if v <= 0x8000_0000_0000_0000u64 {
                        let r: i64 = if v == 0x8000_0000_0000_0000u64 {
                            i64::MIN
                        } else {
                            -(v as i64)
                        };
                        Some(r)
                    } else {
                        None
                    }
                } else {
                    if v <= i64::MAX as u64 {
                        Some(v as i64)
                    } else {
                        None
                    }
                }
            },
        }
    } else {
        match crate::text::parse_digits_u64(s) {
            None => None,
            Some(v) => {
                if v <= i64::MAX as u64 {
                    Some(v as i64)
                } else {
                    None
                }
            },
        }
    }
}

/// The backward search above finds exactly the last separator.
proof fn lemma_last_dash(stem: Seq<u8>, dash: int, found: bool)
    requires
        forall|j: int| (if found {
            dash + 1
        } else {
            0
        }) <= j < stem.len() ==> stem[j] != 45,
        found ==> 0 <= dash < stem.len() && stem[dash] == 45,
    ensures
        found ==> spec_last_dash(stem) == Some(dash),
        !found ==> spec_last_dash(stem) is None,
    decreases stem.len(),
{
    if stem.len() == 0 {
    } else if stem.last() == 45 {
    } else {
        lemma_last_dash(stem.drop_last(), dash, found);
    }
}


/// Decimal digit bytes are never the separator.
proof fn lemma_decimal_no_dash(v: nat)
    ensures
        forall|j: int|
            0 <= j < crate::text::spec_decimal(v).len() ==> 48 <= #[trigger] crate::text::spec_decimal(
                v,
            )[j] <= 57,
    decreases v,
{
    let d = crate::text::spec_decimal(v);
    if v >= 10 {
        lemma_decimal_no_dash(v / 10);
        assert forall|j: int| 0 <= j < d.len() implies 48 <= #[trigger] d[j] <= 57 by {
            if j < d.len() - 1 {
                assert(d[j] == crate::text::spec_decimal(v / 10)[j]);
            } else {
                assert(d[j] == crate::text::spec_digit_byte((v % 10) as int));
            }
        }
    }
}

/// Appending separator-free bytes does not move the last separator.
proof fn lemma_last_dash_append(s: Seq<u8>, suffix: Seq<u8>)
    requires
        forall|j: int| 0 <= j < suffix.len() ==> suffix[j] != 45,
    ensures
        spec_last_dash(s + suffix) == spec_last_dash(s),
    decreases suffix.len(),
{
    if suffix.len() == 0 {
        assert(s + suffix =~= s);
    } else {
        assert((s + suffix).drop_last() =~= s + suffix.drop_last());
        assert(forall|j: int|
            0 <= j < suffix.drop_last().len() ==> #[trigger] suffix.drop_last()[j] == suffix[j]);
        lemma_last_dash_append(s, suffix.drop_last());
    }
}

/// The digits of a value read back as that value.
proof fn lemma_digits_value_decimal(v: nat)
    ensures
        spec_digits_value(crate::text::spec_decimal(v)) == Some(v),
    decreases v,
{
    let d = crate::text::spec_decimal(v);
    if v < 10 {
        assert(d.last() == crate::text::spec_digit_byte(v as int));
    } else {
        lemma_digits_value_decimal(v / 10);
        assert(d.drop_last() =~= crate::text::spec_decimal(v / 10));
        assert(d.last() == crate::text::spec_digit_byte((v % 10) as int));
        vstd::arithmetic::div_mod::lemma_fundamental_div_mod(v as int, 10);
    }
}

/// A name the library writes parses back to its own timestamp, whatever the
/// identifier holds: the digits carry no separator, so the last-separator
/// split lands exactly between the identifier and the timestamp field.
pub proof fn lemma_logfile_name_roundtrip(id: Seq<char>, secs: i64)
    requires
        0 <= secs,
    ensures
        spec_parse_logfile_name(spec_logfile_name(id, secs), id) == Some(secs),
{
    let name = spec_logfile_name(id, secs);
    let eid = vstd::utf8::encode_utf8(id);
    let digits = crate::text::spec_decimal(secs as nat);
    lemma_decimal_no_dash(secs as nat);
    assert(name.skip(name.len() - 5) =~= spec_file_ext());
    let stem = name.take(name.len() - 5);
    assert(stem =~= (eid + seq![45u8]) + digits);
    lemma_last_dash_append(eid + seq![45u8], digits);
    assert((eid + seq![45u8]).last() == 45);
    assert(spec_last_dash(eid + seq![45u8]) == Some(eid.len() as int));
    assert(stem.take(eid.len() as int) =~= eid);
    let field = stem.skip(eid.len() as int + 1);
    assert(field =~= digits);
    lemma_digits_value_decimal(secs as nat);
    assert(field.len() > 0) by {
        if secs as nat >= 10 {
        }
    }
    assert(48 <= field[0] <= 57);
}

} // verus!
