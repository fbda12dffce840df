//! The spaced-repetition scheduler and the review-date load balancer.
//!
//! All arithmetic is exact: the ease factor is kept in hundredths (its
//! two-decimal text form), the connectivity factor and its weight in
//! millionths, and the raw interval as an integer fraction. The fraction
//! is clamped to the interval ceiling first and rounded to the nearest
//! day once, at the end — never at intermediate steps.

use crate::date::add_days;
use crate::date::day_number;
use crate::date::days_between;
use crate::date::next_day;
use crate::date::to_day_number;
use crate::date::Date;
use vstd::arithmetic::div_mod::lemma_fundamental_div_mod;
use vstd::arithmetic::mul::lemma_mul_upper_bound;
use vstd::prelude::*;

verus! {

/// How a review went.
#[derive(Clone, Copy, Debug, PartialEq, Eq, Structural)]
pub enum Rating {
    Hard,
    Good,
    Easy,
}

/// Inputs of one scheduling step. `ease` is in hundredths;
/// `link_factor_ppm` and `link_weight_ppm` are in millionths.
pub struct SrsInput {
    pub interval: u32,
    pub ease: u32,
    pub next_review: Date,
    pub today: Date,
    pub rating: Rating,
    pub link_factor_ppm: u32,
    pub link_weight_ppm: u32,
    pub max_interval: u32,
}

/// The scheduling result. `new_ease` is in hundredths.
pub struct SrsOutput {
    pub new_interval: u32,
    pub new_ease: u32,
    pub next_review: Date,
}

/// Days overdue: zero when the review is early or on time.
pub open spec fn delayed_days(today: Date, next_review: Date) -> int {
    if day_number(today) >= day_number(next_review) {
        day_number(today) - day_number(next_review)
    } else {
        0
    }
}

/// Numerator of the raw interval fraction. The effective ease
/// `ease * (1 + weight * link_factor)` appears only in the Good and Easy
/// branches: a struggling note is not rewarded for connectivity.
pub open spec fn raw_num(rating: Rating, i: int, d: int, ease: int, w: int, lf: int) -> int {
    match rating {
        Rating::Hard => 4 * i + d,
        Rating::Good => (2 * i + d) * ease * (1000000000000 + w * lf) * 4,
        Rating::Easy => (i + d) * ease * (1000000000000 + w * lf),
    }
}

/// Denominator of the raw interval fraction.
pub open spec fn raw_den(rating: Rating) -> int {
    match rating {
        Rating::Hard => 8,
        Rating::Good => 1000000000000000,
        Rating::Easy => 100000000000000,
    }
}

/// The new ease: Hard subtracts 0.15 but never below the 1.30 floor,
/// Good keeps it, Easy adds 0.15.
pub open spec fn schedule_ease(rating: Rating, ease: int) -> int {
    match rating {
        Rating::Hard => if ease - 15 >= 130 {
            ease - 15
        } else {
            130
        },
        Rating::Good => ease,
        Rating::Easy => ease + 15,
    }
}

/// The new interval: the raw fraction (with Hard's one-day floor),
/// clamped to `max_interval`, then rounded to the nearest day once, with
/// a final floor of one day.
pub open spec fn schedule_interval(
    rating: Rating,
    i: int,
    d: int,
    ease: int,
    w: int,
    lf: int,
    max_interval: int,
) -> int {
    let num0 = raw_num(rating, i, d, ease, w, lf);
    let den = raw_den(rating);
    let num = if rating is Hard && num0 < den {
        den
    } else {
        num0
    };
    let rounded = if num > max_interval * den {
        max_interval
    } else {
        (2 * num + den) / (2 * den)
    };
    if rounded < 1 {
        1
    } else {
        rounded
    }
}

/// Quotients grow with their dividends.
proof fn lemma_div_le(a: int, b: int, q: int)
    requires
        0 <= a <= b,
        q >= 1,
    ensures
        a / q <= b / q,
{
    lemma_fundamental_div_mod(a, q);
    lemma_fundamental_div_mod(b, q);
    if a / q > b / q {
        assert(a - b == q * (a / q) - q * (b / q) + a % q - b % q);
        assert(q * (a / q) - q * (b / q) == q * (a / q - b / q)) by (nonlinear_arith);
        assert(q * (a / q - b / q) >= q) by (nonlinear_arith)
            requires
                q >= 1,
                a / q - b / q >= 1,
        ;
        assert(a % q < q && b % q >= 0);
        assert(a - b > 0);
    }
}

/// Rounding a fraction that is at most `m` gives at most `m`.
proof fn lemma_round_le(num: int, den: int, m: int)
    requires
        den >= 1,
        m >= 0,
        0 <= num <= m * den,
    ensures
        0 <= (2 * num + den) / (2 * den) <= m,
{
    let md = m * den;
    let x = 2 * num + den;
    let q = 2 * den;
    lemma_div_le(0, x, q);
    assert(x <= 2 * md + den);
    let y = (m + 1) * q - 1;
    assert(y == 2 * md + 2 * den - 1) by (nonlinear_arith)
        requires
            q == 2 * den,
            md == m * den,
            y == (m + 1) * q - 1,
    ;
    lemma_div_le(x, y, q);
    lemma_fundamental_div_mod(y, q);
    let qq = y / q;
    let rr = y % q;
    assert(y == q * qq + rr);
    assert(0 <= rr < q) by {
        vstd::arithmetic::div_mod::lemma_mod_bound(y, q);
    }
    if qq >= m + 1 {
        assert(q * qq >= q * (m + 1)) by (nonlinear_arith)
            requires
                q >= 1,
                qq >= m + 1,
        ;
        assert(q * (m + 1) == y + 1) by (nonlinear_arith)
            requires
                y == (m + 1) * q - 1,
        ;
        assert(false);
    }
    if qq <= m - 1 {
        assert(q * qq <= q * (m - 1)) by (nonlinear_arith)
            requires
                q >= 1,
                qq <= m - 1,
        ;
        assert(q * (m - 1) + q == q * m) by (nonlinear_arith);
        assert(q * m <= y) by (nonlinear_arith)
            requires
                y == (m + 1) * q - 1,
                q >= 1,
        ;
        assert(y <= q * (m - 1) + rr);
        assert(false);
    }
    assert(qq == m);
}

/// One scheduling step: exact fixed-point arithmetic, a single terminal
/// rounding, and the documented clamps and floors.
pub fn calculate(input: &SrsInput) -> (r: SrsOutput)
    requires
        input.today.is_valid(),
        input.next_review.is_valid(),
        input.link_factor_ppm <= 1000000,
        input.ease + 15 <= u32::MAX,
        day_number(input.today) + input.max_interval + 1 <= Date::max_day_number(),
    ensures
        r.new_ease == schedule_ease(input.rating, input.ease as int),
        r.new_interval == schedule_interval(
            input.rating,
            input.interval as int,
            delayed_days(input.today, input.next_review),
            input.ease as int,
            input.link_weight_ppm as int,
            input.link_factor_ppm as int,
            input.max_interval as int,
        ),
        1 <= r.new_interval,
        r.new_interval <= input.max_interval || r.new_interval == 1,
        input.max_interval >= 1 ==> r.new_interval <= input.max_interval,
        input.rating is Hard ==> r.new_ease >= 130,
        input.ease >= 130 ==> r.new_ease >= 130,
        r.next_review.is_valid(),
        day_number(r.next_review) == day_number(input.today) + r.new_interval,
{
    let diff = days_between(&input.today, &input.next_review);
    let delayed: u128 = if diff > 0 {
        diff as u128
    } else {
        0
    };
    let ghost d = delayed_days(input.today, input.next_review);
    proof {
        crate::date::lemma_day_number_range(input.today);
        crate::date::lemma_day_number_range(input.next_review);
    }
    assert(delayed == d);
    assert(d <= 3652424);

    let i = input.interval as u128;
    let ease = input.ease as u128;
    let w = input.link_weight_ppm as u128;
    let lf = input.link_factor_ppm as u128;
    let maxi = input.max_interval as u128;

    let (num0, den): (u128, u128) = match input.rating {
        Rating::Hard => (4 * i + delayed, 8),
        Rating::Good => {
            proof {
                lemma_mul_upper_bound(w as int, 0xFFFF_FFFF, lf as int, 1000000);
                lemma_mul_upper_bound(
                    (2 * i + d) as int,
                    (0x2_0000_0000 + 3652424) as int,
                    ease as int,
                    0xFFFF_FFFF,
                );
                lemma_mul_upper_bound(
                    ((2 * i + delayed) * ease) as int,
                    36909175180456641720int as int,
                    (1000000000000 + w * lf) as int,
                    4295967295000000int as int,
                );
            }
            let factor = 1000000000000 + w * lf;
            assert((2 * i + delayed) * ease <= 36909175180456641720);
            assert((2 * i + delayed) * ease * factor <= 158560609460667455994652547400000000);
            ((2 * i + delayed) * ease * factor * 4, 1000000000000000)
        },
        Rating::Easy => {
            proof {
                lemma_mul_upper_bound(w as int, 0xFFFF_FFFF, lf as int, 1000000);
                lemma_mul_upper_bound(
                    (i + d) as int,
                    (0x1_0000_0000 + 3652424) as int,
                    ease as int,
                    0xFFFF_FFFF,
                );
                lemma_mul_upper_bound(
                    ((i + delayed) * ease) as int,
                    18462431111042057400int as int,
                    (1000000000000 + w * lf) as int,
                    4295967295000000int as int,
                );
            }
            let factor = 1000000000000 + w * lf;
            assert((i + delayed) * ease <= 18462431111042057400);
            assert((i + delayed) * ease * factor <= 79314000239227191959912733000000000);
            ((i + delayed) * ease * factor, 100000000000000)
        },
    };
    assert(num0 == raw_num(input.rating, i as int, d, ease as int, w as int, lf as int));
    assert(den == raw_den(input.rating));

    let num: u128 = match input.rating {
        Rating::Hard => if num0 < den {
            den
        } else {
            num0
        },
        _ => num0,
    };

    proof {
        lemma_mul_upper_bound(maxi as int, 0xFFFF_FFFF, den as int, 1000000000000000);
    }
    let rounded: u128 = if num > maxi * den {
        maxi
    } else {
        proof {
            lemma_round_le(num as int, den as int, maxi as int);
        }
        (2 * num + den) / (2 * den)
    };
    let clamped: u32 = rounded as u32;
    let new_interval: u32 = if clamped < 1 {
        1
    } else {
        clamped
    };

    let new_ease: u32 = match input.rating {
        Rating::Hard => if input.ease >= 145 {
            input.ease - 15
        } else {
            130
        },
        Rating::Good => input.ease,
        Rating::Easy => input.ease + 15,
    };

    let next_review = add_days(&input.today, new_interval);
    SrsOutput { new_interval, new_ease, next_review }
}

/// The ease after a whole run of ratings.
pub open spec fn ease_after(ease: int, rs: Seq<Rating>) -> int
    decreases rs.len(),
{
    if rs.len() == 0 {
        ease
    } else {
        ease_after(schedule_ease(rs[0], ease), rs.drop_first())
    }
}

/// The ease floor: one Hard rating raises any ease to at least 1.30, and
/// no run of further ratings — Hard ones included — ever drives an ease
/// of at least 1.30 back below it.
pub proof fn lemma_ease_floor(ease: int, rs: Seq<Rating>)
    ensures
        ease >= 130 ==> ease_after(ease, rs) >= 130,
        rs.len() >= 1 && rs[0] is Hard ==> ease_after(ease, rs) >= 130,
    decreases rs.len(),
{
    if rs.len() >= 1 {
        lemma_ease_floor(schedule_ease(rs[0], ease), rs.drop_first());
    }
}

/// Occurrences of day number `dn` among the scheduled dates.
pub open spec fn count_dn(dates: Seq<Date>, dn: int) -> int
    decreases dates.len(),
{
    if dates.len() == 0 {
        0
    } else {
        count_dn(dates.drop_last(), dn) + if day_number(dates.last()) == dn {
            1int
        } else {
            0int
        }
    }
}

pub proof fn lemma_count_dn_nonneg(dates: Seq<Date>, dn: int)
    ensures
        count_dn(dates, dn) >= 0,
    decreases dates.len(),
{
    if dates.len() > 0 {
        lemma_count_dn_nonneg(dates.drop_last(), dn);
    }
}

/// The fuzz window half-width for a base interval: none up to a week,
/// one day up to three weeks, then five percent capped at three days.
pub open spec fn fuzz_days(base_interval: int) -> int {
    if base_interval <= 7 {
        0
    } else if base_interval <= 21 {
        1
    } else {
        let p = (base_interval + 10) / 20;
        if p < 3 {
            p
        } else {
            3
        }
    }
}

pub fn fuzz_days_exec(base_interval: u32) -> (r: u32)
    ensures
        r == fuzz_days(base_interval as int),
        r <= 3,
        base_interval >= 8 ==> r >= 1,
{
    if base_interval <= 7 {
        0
    } else if base_interval <= 21 {
        1
    } else {
        let p = ((base_interval as u64) + 10) / 20;
        if p < 3 {
            p as u32
        } else {
            3
        }
    }
}

fn count_dates(dates: &Vec<Date>, dn: u32) -> (r: usize)
    requires
        forall|j: int| 0 <= j < dates@.len() ==> (#[trigger] dates@[j]).is_valid(),
    ensures
        r == count_dn(dates@, dn as int),
{
    let n = dates.len();
    let mut c: usize = 0;
    let mut j: usize = 0;
    while j < n
        invariant
            0 <= j <= n,
            n == dates@.len(),
            forall|t: int| 0 <= t < n ==> (#[trigger] dates@[t]).is_valid(),
            c == count_dn(dates@.take(j as int), dn as int),
            c <= j,
        decreases n - j,
    {
        proof {
            lemma_count_dn_nonneg(dates@.take(j as int), dn as int);
            assert(dates@.take(j + 1).drop_last() =~= dates@.take(j as int));
            assert(dates@.take(j + 1).last() == dates@[j as int]);
        }
        let dj = to_day_number(&dates[j]);
        if dj == dn {
            c = c + 1;
        }
        j = j + 1;
    }
    proof {
        assert(dates@.take(n as int) =~= dates@);
    }
    c
}

/// Spread the review: scan the fuzz window around the ideal date and pick
/// the day with the strictly fewest scheduled reviews; ties go to the
/// earliest day. A window of zero days returns the ideal date itself.
pub fn load_balance(base_interval: u32, today: Date, existing_dates: &Vec<Date>) -> (r: Date)
    requires
        today.is_valid(),
        forall|j: int| 0 <= j < existing_dates@.len() ==> (#[trigger] existing_dates@[j]).is_valid(),
        day_number(today) + base_interval + 3 <= Date::max_day_number(),
        day_number(today) + base_interval >= fuzz_days(base_interval as int),
    ensures
        r.is_valid(),
        ({
            let base = day_number(today) + base_interval;
            let w = fuzz_days(base_interval as int);
            &&& base - w <= day_number(r) <= base + w
            &&& w == 0 ==> day_number(r) == base
            &&& forall|dn: int|
                #![trigger count_dn(existing_dates@, dn)]
                base - w <= dn <= base + w ==> count_dn(existing_dates@, day_number(r)) < count_dn(
                    existing_dates@,
                    dn,
                ) || (count_dn(existing_dates@, day_number(r)) == count_dn(existing_dates@, dn)
                    && day_number(r) <= dn)
            &&& (w >= 1 && (forall|dn: int|
                #![trigger count_dn(existing_dates@, dn)]
                base - w <= dn <= base + w ==> count_dn(existing_dates@, dn) == 0))
                ==> day_number(r) == base - w
        }),
{
    let w = fuzz_days_exec(base_interval);
    let ghost base = day_number(today) + base_interval;
    if w == 0 {
        return add_days(&today, base_interval);
    }
    let start = add_days(&today, base_interval - w);
    let span = 2 * w;
    let mut best = start;
    let mut best_count = count_dates(existing_dates, to_day_number(&start));
    let mut cur = start;
    let mut off: u32 = 0;
    while off < span
        invariant
            0 <= off <= span,
            span == 2 * w,
            1 <= w <= 3,
            day_number(today) + base_interval + 3 <= Date::max_day_number(),
            base == day_number(today) + base_interval,
            day_number(start) == base - w,
            cur.is_valid(),
            best.is_valid(),
            day_number(cur) == day_number(start) + off,
            day_number(start) <= day_number(best) <= day_number(cur),
            best_count == count_dn(existing_dates@, day_number(best)),
            forall|j: int| 0 <= j < existing_dates@.len() ==> (#[trigger] existing_dates@[j]).is_valid(),
            forall|dn: int|
                #![trigger count_dn(existing_dates@, dn)]
                day_number(start) <= dn <= day_number(start) + off ==> count_dn(
                    existing_dates@,
                    day_number(best),
                ) < count_dn(existing_dates@, dn) || (count_dn(existing_dates@, day_number(best))
                    == count_dn(existing_dates@, dn) && day_number(best) <= dn),
        decreases span - off,
    {
        cur = next_day(&cur);
        let c = count_dates(existing_dates, to_day_number(&cur));
        if c < best_count {
            best = cur;
            best_count = c;
        }
        off = off + 1;
    }
    proof {
        let base = day_number(today) + base_interval;
        if forall|dn: int|
            #![trigger count_dn(existing_dates@, dn)]
            base - w <= dn <= base + w ==> count_dn(existing_dates@, dn) == 0 {
            assert(count_dn(existing_dates@, base - w) == 0);
            lemma_count_dn_nonneg(existing_dates@, day_number(best));
            assert(count_dn(existing_dates@, day_number(best)) == 0);
            assert(day_number(best) <= base - w);
        }
    }
    best
}

} // verus!
