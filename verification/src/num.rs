//! Decimal reading and writing of the numeric metadata values: plain
//! unsigned integers for review intervals, and two-decimal fixed-point
//! values (hundredths) for the ease factor.

use vstd::prelude::*;

verus! {

/// The decimal digit string of `n`, most significant digit first.
pub open spec fn dec_digits(n: int) -> Seq<u8>
    decreases n,
{
    if n < 10 {
        seq![(48 + if n >= 0 {
            n
        } else {
            0
        }) as u8]
    } else {
        dec_digits(n / 10).push((48 + n % 10) as u8)
    }
}

/// Is every byte a decimal digit (and the text nonempty)?
pub open spec fn is_digits(s: Seq<u8>) -> bool {
    s.len() >= 1 && forall|j: int| 0 <= j < s.len() ==> 48 <= #[trigger] s[j] <= 57
}

/// The value of a digit string read in base ten.
pub open spec fn dec_val(s: Seq<u8>) -> int
    decreases s.len(),
{
    if s.len() == 0 {
        0
    } else {
        dec_val(s.drop_last()) * 10 + (s.last() - 48)
    }
}

pub proof fn lemma_dec_val_nonneg(s: Seq<u8>)
    requires
        forall|j: int| 0 <= j < s.len() ==> 48 <= #[trigger] s[j] <= 57,
    ensures
        dec_val(s) >= 0,
    decreases s.len(),
{
    if s.len() > 0 {
        lemma_dec_val_nonneg(s.drop_last());
    }
}

/// Reading further digits never decreases the value.
pub proof fn lemma_dec_val_extend(s: Seq<u8>, i: int)
    requires
        0 <= i <= s.len(),
        forall|j: int| 0 <= j < s.len() ==> 48 <= #[trigger] s[j] <= 57,
    ensures
        dec_val(s) >= dec_val(s.take(i)),
    decreases s.len() - i,
{
    if i < s.len() {
        lemma_dec_val_extend(s, i + 1);
        assert(s.take(i + 1).drop_last() =~= s.take(i));
        assert(s.take(i + 1).last() == s[i]);
        lemma_dec_val_nonneg(s.take(i));
    } else {
        assert(s.take(i) =~= s);
    }
}

/// Write `n` in decimal.
pub fn format_u32(n: u32) -> (r: Vec<u8>)
    ensures
        r@ == dec_digits(n as int),
    decreases n,
{
    if n < 10 {
        let mut v: Vec<u8> = Vec::new();
        v.push(48 + (n as u8));
        proof {
            assert(v@ =~= dec_digits(n as int));
        }
        v
    } else {
        let mut v = format_u32(n / 10);
        v.push(48 + ((n % 10) as u8));
        proof {
            assert(v@ =~= dec_digits(n as int));
        }
        v
    }
}

/// Read a decimal integer; `None` when the text is not all digits or the
/// value does not fit.
pub fn parse_u32(s: &[u8]) -> (r: Option<u32>)
    ensures
        match r {
            Some(v) => is_digits(s@) && v == dec_val(s@),
            None => !is_digits(s@) || dec_val(s@) > u32::MAX,
        },
{
    let n = s.len();
    if n == 0 {
        return None;
    }
    let mut acc: u64 = 0;
    let mut i: usize = 0;
    while i < n
        invariant
            0 <= i <= n,
            n == s@.len(),
            forall|j: int| 0 <= j < i ==> 48 <= #[trigger] s@[j] <= 57,
            acc == dec_val(s@.take(i as int)),
            acc <= u32::MAX,
        decreases n - i,
    {
        let c = s[i];
        if c < 48 || c > 57 {
            return None;
        }
        acc = acc * 10 + ((c - 48) as u64);
        proof {
            assert(s@.take(i + 1).drop_last() =~= s@.take(i as int));
            assert(s@.take(i + 1).last() == s@[i as int]);
        }
        i = i + 1;
        if acc > 0xFFFF_FFFF {
            proof {
                if is_digits(s@) {
                    lemma_dec_val_extend(s@, i as int);
                }
            }
            return None;
        }
    }
    proof {
        assert(s@.take(n as int) =~= s@);
    }
    Some(acc as u32)
}

/// Index of the first `.` in `s` (or the length when there is none).
pub open spec fn first_dot(s: Seq<u8>) -> int
    decreases s.len(),
{
    if s.len() == 0 {
        0
    } else if s[0] == 46 {
        0
    } else {
        1 + first_dot(s.drop_first())
    }
}

pub proof fn lemma_first_dot(s: Seq<u8>)
    ensures
        0 <= first_dot(s) <= s.len(),
        first_dot(s) < s.len() ==> s[first_dot(s)] == 46,
        forall|j: int| 0 <= j < first_dot(s) ==> s[j] != 46,
    decreases s.len(),
{
    if s.len() > 0 && s[0] != 46 {
        lemma_first_dot(s.drop_first());
        assert forall|j: int| 0 <= j < first_dot(s) implies s[j] != 46 by {
            if j >= 1 {
                assert(s[j] == s.drop_first()[j - 1]);
            }
        }
    }
}

/// The value of `s` in hundredths, when `s` reads as digits optionally
/// followed by `.` and one or two fraction digits.
pub open spec fn centi_val(s: Seq<u8>) -> Option<int> {
    let d = first_dot(s);
    if d == s.len() {
        if is_digits(s) {
            Some(dec_val(s) * 100)
        } else {
            None
        }
    } else {
        let ip = s.take(d);
        let fp = s.skip(d + 1);
        if is_digits(ip) && is_digits(fp) && 1 <= fp.len() <= 2 {
            Some(
                dec_val(ip) * 100 + dec_val(fp) * if fp.len() == 1 {
                    10int
                } else {
                    1int
                },
            )
        } else {
            None
        }
    }
}

/// Read a fixed-point value in hundredths; `None` when malformed or too
/// large.
pub fn parse_centi(s: &[u8]) -> (r: Option<u32>)
    ensures
        match r {
            Some(v) => centi_val(s@) == Some(v as int),
            None => centi_val(s@) is None || centi_val(s@)->Some_0 > u32::MAX,
        },
{
    let n = s.len();
    let mut d: usize = 0;
    proof {
        lemma_first_dot(s@);
    }
    while d < n && s[d] != 46
        invariant
            0 <= d <= n,
            n == s@.len(),
            forall|j: int| 0 <= j < d ==> s@[j] != 46,
            first_dot(s@) >= d,
        decreases n - d,
    {
        proof {
            lemma_first_dot(s@);
        }
        d = d + 1;
        proof {
            lemma_first_dot(s@);
        }
    }
    proof {
        lemma_first_dot(s@);
        assert(first_dot(s@) == d);
    }
    if d == n {
        match parse_u32(s) {
            Some(v) => {
                if v > 42949672 {
                    proof {
                        lemma_dec_val_nonneg(s@);
                    }
                    return None;
                }
                Some(v * 100)
            },
            None => {
                proof {
                    if is_digits(s@) {
                        lemma_dec_val_nonneg(s@);
                    }
                }
                None
            },
        }
    } else {
        let ip = sub_slice_parse(s, 0, d);
        let fl = n - d - 1;
        if fl < 1 || fl > 2 {
            return None;
        }
        let fp = sub_slice_parse(s, d + 1, n);
        proof {
            assert(s@.take(d as int) =~= s@.subrange(0, d as int));
            assert(s@.skip(d + 1) =~= s@.subrange(d + 1, n as int));
        }
        match (ip, fp) {
            (Some(a), Some(b)) => {
                proof {
                    reveal_with_fuel(dec_val, 4);
                    assert(b <= 99);
                }
                let scale: u32 = if fl == 1 {
                    10
                } else {
                    1
                };
                if a > 42949672 {
                    proof {
                        lemma_dec_val_nonneg(s@.skip(d + 1));
                    }
                    return None;
                }
                let hi = a * 100;
                let v = b * scale;
                if hi > u32::MAX - v {
                    proof {
                        lemma_dec_val_nonneg(s@.take(d as int));
                        lemma_dec_val_nonneg(s@.skip(d + 1));
                    }
                    return None;
                }
                Some(hi + v)
            },
            _ => {
                proof {
                    if is_digits(s@.take(d as int)) && is_digits(s@.skip(d + 1)) {
                        lemma_dec_val_nonneg(s@.take(d as int));
                        lemma_dec_val_nonneg(s@.skip(d + 1));
                    }
                }
                None
            },
        }
    }
}

/// `parse_u32` on the byte range `[a, b)`.
fn sub_slice_parse(s: &[u8], a: usize, b: usize) -> (r: Option<u32>)
    requires
        a <= b <= s@.len(),
    ensures
        match r {
            Some(v) => is_digits(s@.subrange(a as int, b as int)) && v == dec_val(
                s@.subrange(a as int, b as int),
            ),
            None => !is_digits(s@.subrange(a as int, b as int)) || dec_val(
                s@.subrange(a as int, b as int),
            ) > u32::MAX,
        },
{
    let part = crate::text::sub_bytes(s, a, b);
    parse_u32(part.as_slice())
}

/// The fixed two-decimal rendering of a value in hundredths.
pub open spec fn centi_text(c: int) -> Seq<u8> {
    dec_digits(c / 100) + seq![46u8, (48 + (c % 100) / 10) as u8, (48 + c % 10) as u8]
}

/// Write a value in hundredths with exactly two decimals.
pub fn format_centi(c: u32) -> (r: Vec<u8>)
    ensures
        r@ == centi_text(c as int),
{
    let mut v = format_u32(c / 100);
    v.push(46);
    v.push(48 + (((c % 100) / 10) as u8));
    v.push(48 + ((c % 10) as u8));
    proof {
        assert(v@ =~= centi_text(c as int));
    }
    v
}


/// A digit string of length `k` reads below `10^k` (stated for the short
/// fields of a date).
pub proof fn lemma_dec_val_bound(s: Seq<u8>)
    requires
        forall|j: int| 0 <= j < s.len() ==> 48 <= #[trigger] s[j] <= 57,
        s.len() <= 4,
    ensures
        dec_val(s) < 10000,
    decreases s.len(),
{
    if s.len() > 0 {
        lemma_dec_val_bound(s.drop_last());
        lemma_dec_val_nonneg(s.drop_last());
        if s.len() == 1 {
            assert(dec_val(s.drop_last()) == 0);
        } else if s.len() == 2 {
            assert(dec_val(s.drop_last()) <= 9) by {
                lemma_dec_val_bound_small(s.drop_last());
            }
        } else if s.len() == 3 {
            assert(dec_val(s.drop_last()) <= 99) by {
                lemma_dec_val_bound_small(s.drop_last());
            }
        } else {
            assert(dec_val(s.drop_last()) <= 999) by {
                lemma_dec_val_bound_small(s.drop_last());
            }
        }
    }
}

/// Tight bounds for digit strings of up to three digits.
pub proof fn lemma_dec_val_bound_small(s: Seq<u8>)
    requires
        forall|j: int| 0 <= j < s.len() ==> 48 <= #[trigger] s[j] <= 57,
        s.len() <= 3,
    ensures
        s.len() <= 1 ==> dec_val(s) <= 9,
        s.len() <= 2 ==> dec_val(s) <= 99,
        dec_val(s) <= 999,
    decreases s.len(),
{
    if s.len() > 0 {
        lemma_dec_val_bound_small(s.drop_last());
        lemma_dec_val_nonneg(s.drop_last());
    }
}

/// `parse_u32` on the byte range `[a, b)` of `s`.
pub fn parse_u32_range(s: &[u8], a: usize, b: usize) -> (r: Option<u32>)
    requires
        a <= b <= s@.len(),
    ensures
        match r {
            Some(v) => is_digits(s@.subrange(a as int, b as int)) && v == dec_val(
                s@.subrange(a as int, b as int),
            ),
            None => !is_digits(s@.subrange(a as int, b as int)) || dec_val(
                s@.subrange(a as int, b as int),
            ) > u32::MAX,
        },
{
    sub_slice_parse(s, a, b)
}

} // verus!
