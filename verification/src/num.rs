//! Decimal integers as byte strings: the meaning of a digit string, parsing
//! with the exact semantics of `str::parse` (optional sign, digits only,
//! range-checked), and canonical rendering. Everything here is verified; no
//! std parser is called.

use vstd::prelude::*;

verus! {

/// One past `u64::MAX`: the saturation point of `parse_decimal`'s magnitude.
pub const MAG_CAP: u128 = 0x1_0000_0000_0000_0000;

pub open spec fn is_digit(b: u8) -> bool {
    48 <= b <= 57
}

pub open spec fn digit_val(b: u8) -> int {
    b - 48
}

pub open spec fn all_digits(s: Seq<u8>) -> bool {
    forall|i: int| 0 <= i < s.len() ==> is_digit(s[i])
}

/// The number a digit string denotes, most significant digit first.
pub open spec fn digits_val(s: Seq<u8>) -> int
    decreases s.len(),
{
    if s.len() == 0 {
        0
    } else {
        10 * digits_val(s.drop_last()) + digit_val(s.last())
    }
}

/// The integer a byte string denotes under `str::parse` rules: an optional
/// leading `+` or `-`, then one or more ASCII digits, nothing else.
pub open spec fn dec_int(s: Seq<u8>) -> Option<int> {
    if s.len() == 0 {
        None
    } else if s[0] == 43 || s[0] == 45 {
        if s.len() > 1 && all_digits(s.drop_first()) {
            if s[0] == 45 {
                Some(-digits_val(s.drop_first()))
            } else {
                Some(digits_val(s.drop_first()))
            }
        } else {
            None
        }
    } else if all_digits(s) {
        Some(digits_val(s))
    } else {
        None
    }
}

/// Canonical decimal rendering of `n`: no sign, no leading zeros.
pub open spec fn dec_repr(n: nat) -> Seq<u8>
    decreases n,
{
    if n < 10 {
        seq![(48 + n) as u8]
    } else {
        dec_repr(n / 10).push((48 + n % 10) as u8)
    }
}

pub proof fn lemma_dec_repr_digits(n: nat)
    ensures
        dec_repr(n).len() >= 1,
        all_digits(dec_repr(n)),
        digits_val(dec_repr(n)) == n,
    decreases n,
{
    if n < 10 {
        assert(dec_repr(n) == seq![(48 + n) as u8]);
        assert(digits_val(dec_repr(n)) == 10 * digits_val(dec_repr(n).drop_last()) + digit_val(
            dec_repr(n).last(),
        ));
        assert(dec_repr(n).drop_last() =~= Seq::<u8>::empty());
    } else {
        lemma_dec_repr_digits(n / 10);
        let d = (48 + n % 10) as u8;
        assert(dec_repr(n) == dec_repr(n / 10).push(d));
        assert(dec_repr(n).drop_last() =~= dec_repr(n / 10));
        assert(dec_repr(n).last() == d);
        assert(digits_val(dec_repr(n)) == 10 * digits_val(dec_repr(n / 10)) + digit_val(d));
        assert(forall|i: int|
            0 <= i < dec_repr(n).len() ==> is_digit(
                #[trigger] dec_repr(n)[i],
            )) by {
            assert(forall|i: int|
                0 <= i < dec_repr(n / 10).len() ==> is_digit(#[trigger] dec_repr(n / 10)[i]));
        }
    }
}

/// Parsing a canonical rendering gives the number back.
pub proof fn lemma_dec_repr_round_trip(n: nat)
    ensures
        dec_int(dec_repr(n)) == Some(n as int),
{
    lemma_dec_repr_digits(n);
    let s = dec_repr(n);
    assert(is_digit(s[0]));
    assert(s[0] != 43 && s[0] != 45);
}

/// Appending a digit multiplies the value by ten and adds the digit.
pub proof fn lemma_digits_val_push(s: Seq<u8>, b: u8)
    ensures
        digits_val(s.push(b)) == 10 * digits_val(s) + digit_val(b),
{
    assert(s.push(b).drop_last() =~= s);
    assert(s.push(b).last() == b);
}

/// A digit string's value is never negative.
pub proof fn lemma_digits_val_nonneg(s: Seq<u8>)
    requires
        all_digits(s),
    ensures
        digits_val(s) >= 0,
    decreases s.len(),
{
    if s.len() > 0 {
        assert(all_digits(s.drop_last())) by {
            assert(forall|i: int| 0 <= i < s.len() - 1 ==> s.drop_last()[i] == s[i]);
        }
        lemma_digits_val_nonneg(s.drop_last());
    }
}

/// Appends the decimal digits of `n` to `out`.
pub fn push_decimal(out: &mut Vec<u8>, n: u64)
    ensures
        final(out)@ == old(out)@ + dec_repr(n as nat),
    decreases n,
{
    if n < 10 {
        out.push(48 + n as u8);
        assert(out@ =~= old(out)@ + dec_repr(n as nat));
    } else {
        push_decimal(out, n / 10);
        out.push(48 + (n % 10) as u8);
        assert(out@ =~= old(out)@ + dec_repr(n as nat));
    }
}

/// Sign and magnitude of the integer `s` denotes; `None` where `s` is not a
/// decimal integer. The magnitude saturates at `MAG_CAP`, so every value a
/// caller range-checks against a machine integer is reported exactly.
pub fn parse_decimal(s: &[u8]) -> (r: Option<(bool, u128)>)
    ensures
        r.is_some() <==> dec_int(s@).is_some(),
        r matches Some((neg, mag)) ==> {
            let v = dec_int(s@).unwrap();
            &&& mag <= MAG_CAP
            &&& (if neg {
                v <= 0
            } else {
                v >= 0
            })
            &&& (mag < MAG_CAP ==> (if neg {
                v == -(mag as int)
            } else {
                v == mag as int
            }))
            &&& (mag == MAG_CAP ==> (if neg {
                v <= -(MAG_CAP as int)
            } else {
                v >= MAG_CAP as int
            }))
        },
{
    if s.len() == 0 {
        return None;
    }
    let mut start: usize = 0;
    let mut neg = false;
    if s[0] == 43 || s[0] == 45 {
        neg = s[0] == 45;
        start = 1;
    }
    if start == s.len() {
        assert(dec_int(s@).is_none());
        return None;
    }
    let ghost digits = s@.subrange(start as int, s@.len() as int);
    let mut mag: u128 = 0;
    let mut i: usize = start;
    while i < s.len()
        invariant
            start <= i <= s@.len(),
            start == 0 || start == 1,
            start == 1 ==> (s@[0] == 43 || s@[0] == 45),
            start == 0 ==> !(s@[0] == 43 || s@[0] == 45),
            start < s@.len(),
            neg <==> (start == 1 && s@[0] == 45),
            mag <= MAG_CAP,
            all_digits(s@.subrange(start as int, i as int)),
            mag < MAG_CAP ==> mag as int == digits_val(s@.subrange(start as int, i as int)),
            mag == MAG_CAP ==> digits_val(s@.subrange(start as int, i as int)) >= MAG_CAP,
        decreases s@.len() - i,
    {
        let b = s[i];
        let ghost pre = s@.subrange(start as int, i as int);
        if b < 48 || b > 57 {
            assert(!all_digits(s@.subrange(start as int, s@.len() as int))) by {
                assert(s@.subrange(start as int, s@.len() as int)[i - start] == b);
            }
            assert(start == 1 ==> s@.subrange(1, s@.len() as int) =~= s@.drop_first());
            assert(start == 0 ==> s@.subrange(0, s@.len() as int) =~= s@);
            assert(dec_int(s@).is_none());
            return None;
        }
        let d = (b - 48) as u128;
        proof {
            assert(s@.subrange(start as int, i + 1) =~= pre.push(b));
            lemma_digits_val_push(pre, b);
        }
        if mag < MAG_CAP {
            mag = mag * 10 + d;
            if mag > MAG_CAP {
                proof {
                    assert(digits_val(pre.push(b)) >= MAG_CAP);
                }
                mag = MAG_CAP;
            }
        } else {
            proof {
                lemma_digits_val_nonneg(pre);
                assert(digits_val(pre.push(b)) >= MAG_CAP);
            }
        }
        i += 1;
    }
    proof {
        if start == 1 {
            assert(s@.subrange(1, s@.len() as int) =~= s@.drop_first());
        } else {
            assert(s@.subrange(0, s@.len() as int) =~= s@);
        }
        lemma_digits_val_nonneg(s@.subrange(start as int, s@.len() as int));
    }
    Some((neg, mag))
}

/// `delete_after` as read from its config value: `str::parse::<isize>` with
/// every failure, range overflow included, mapped to `-1`.
pub open spec fn to_int_spec(s: Seq<u8>) -> int {
    match dec_int(s) {
        Some(v) => if isize::MIN <= v <= isize::MAX {
            v
        } else {
            -1
        },
        None => -1,
    }
}

/// Reads a byte string as a signed integer, `-1` where it is not one in range.
pub fn to_int_of(s: &[u8]) -> (r: isize)
    ensures
        r as int == to_int_spec(s@),
{
    match parse_decimal(s) {
        None => -1,
        Some((neg, mag)) => {
            if neg {
                if mag <= isize::MAX as u128 {
                    -(mag as isize)
                } else if mag == isize::MAX as u128 + 1 {
                    isize::MIN
                } else {
                    -1
                }
            } else {
                if mag <= isize::MAX as u128 {
                    mag as isize
                } else {
                    -1
                }
            }
        },
    }
}

/// A numeric file-name extension under `str::parse::<i32>` rules: the value
/// where `s` is a decimal integer in `i32` range, nothing otherwise.
pub open spec fn ext_int(s: Seq<u8>) -> Option<int> {
    match dec_int(s) {
        Some(v) => if i32::MIN <= v <= i32::MAX {
            Some(v)
        } else {
            None
        },
        None => None,
    }
}

/// Reads a byte string as an `i32`, `None` where it is not one in range.
pub fn parse_i32(s: &[u8]) -> (r: Option<i32>)
    ensures
        r.is_some() <==> ext_int(s@).is_some(),
        r matches Some(v) ==> ext_int(s@) == Some(v as int),
{
    match parse_decimal(s) {
        None => None,
        Some((neg, mag)) => {
            if neg {
                if mag <= i32::MAX as u128 {
                    Some(-(mag as i32))
                } else if mag == i32::MAX as u128 + 1 {
                    Some(i32::MIN)
                } else {
                    None
                }
            } else {
                if mag <= i32::MAX as u128 {
                    Some(mag as i32)
                } else {
                    None
                }
            }
        },
    }
}

/// A timestamp field of a metadata record: one or more plain digits whose
/// value fits in `u64`. No sign is accepted.
pub open spec fn u64_digits(s: Seq<u8>) -> Option<int> {
    if s.len() > 0 && all_digits(s) && digits_val(s) <= u64::MAX {
        Some(digits_val(s))
    } else {
        None
    }
}

/// Reads a plain digit string as a `u64`.
pub fn parse_u64_digits(s: &[u8]) -> (r: Option<u64>)
    ensures
        r.is_some() <==> u64_digits(s@).is_some(),
        r matches Some(v) ==> u64_digits(s@) == Some(v as int),
{
    if s.len() == 0 {
        return None;
    }
    if s[0] < 48 || s[0] > 57 {
        assert(!all_digits(s@));
        return None;
    }
    match parse_decimal(s) {
        None => {
            assert(!all_digits(s@));
            None
        },
        Some((neg, mag)) => {
            proof {
                if all_digits(s@) {
                    lemma_digits_val_nonneg(s@);
                }
            }
            if mag <= u64::MAX as u128 {
                Some(mag as u64)
            } else {
                None
            }
        },
    }
}

} // verus!
