//! The engine's actions on a note's content: initializing metadata,
//! recording a review, promoting maturity, describing a note, and the
//! vault-wide selections (due notes, tracked notes, statistics). Each
//! action takes content and plain values in, and hands the full new file
//! text back; reading and writing files stays with the caller.

use crate::date::add_days;
use crate::date::date_text;
use crate::date::day_number;
use crate::date::format_date;
use crate::date::Date;
use crate::error::SproutError;
use crate::frontmatter::append_field;
use crate::frontmatter::append_field_spec;
use crate::frontmatter::build_new_frontmatter;
use crate::frontmatter::build_new_frontmatter_spec;
use crate::frontmatter::created_text;
use crate::frontmatter::ease_text;
use crate::frontmatter::fields_of_block;
use crate::frontmatter::has_field;
use crate::frontmatter::has_field_spec;
use crate::frontmatter::interval_text;
use crate::frontmatter::last_review_text;
use crate::frontmatter::maturity_text;
use crate::frontmatter::maturity_word;
use crate::frontmatter::next_review_text;
use crate::frontmatter::parse_note;
use crate::frontmatter::seedling_text;
use crate::frontmatter::spec_created_text;
use crate::frontmatter::spec_ease_text;
use crate::frontmatter::spec_interval_text;
use crate::frontmatter::spec_last_review_text;
use crate::frontmatter::spec_maturity_text;
use crate::frontmatter::spec_next_review_text;
use crate::frontmatter::spec_seedling_text;
use crate::frontmatter::updates_view;
use crate::frontmatter::write_back;
use crate::frontmatter::write_back_spec;
use crate::frontmatter::Maturity;
use crate::frontmatter::SproutFrontmatter;
use crate::num::centi_text;
use crate::num::dec_digits;
use crate::num::format_centi;
use crate::num::format_u32;
use crate::srs::calculate;
use crate::srs::count_dn;
use crate::srs::delayed_days;
use crate::srs::fuzz_days;
use crate::srs::load_balance;
use crate::srs::schedule_ease;
use crate::srs::schedule_interval;
use crate::srs::Rating;
use crate::srs::SrsInput;
use crate::text::normalize_crlf;
use vstd::prelude::*;

verus! {

/// The block the typed fields of `content` are read from.
pub open spec fn spec_block(content: Seq<u8>) -> Seq<u8> {
    crate::frontmatter::block_or_empty(normalize_crlf(content))
}

/// Does `content` carry a nonempty metadata block?
pub open spec fn spec_has_raw(content: Seq<u8>) -> bool {
    crate::frontmatter::has_block(normalize_crlf(content))
        && crate::frontmatter::raw_block_of(normalize_crlf(content)).len() > 0
}

/// The body of `content`.
pub open spec fn spec_body(content: Seq<u8>) -> Seq<u8> {
    crate::frontmatter::body_of(normalize_crlf(content))
}

// ---------------------------------------------------------------------
// Recording a review.

/// What a recorded review reports back.
#[derive(Debug)]
pub struct ReviewOutcome {
    pub maturity: Maturity,
    pub new_interval: u32,
    pub new_ease: u32,
    pub next_review: Date,
}

/// The four fields a review rewrites, in order.
pub open spec fn review_updates(today: Date, interval: u32, ease: u32, next: Date) -> Seq<
    (Seq<u8>, Seq<u8>),
> {
    seq![
        (spec_last_review_text(), date_text(today)),
        (spec_interval_text(), dec_digits(interval as int)),
        (spec_next_review_text(), date_text(next)),
        (spec_ease_text(), centi_text(ease as int)),
    ]
}

/// Are the fields a review needs all present?
pub open spec fn reviewable(content: Seq<u8>) -> bool {
    let f = fields_of_block(spec_block(content));
    &&& spec_has_raw(content)
    &&& f.maturity is Some
    &&& f.ease is Some
    &&& f.review_interval is Some
    &&& f.next_review is Some
}

/// Record a review: compute the new interval, ease and review date from
/// the rating, optionally spread the date over the fuzz window against
/// `balance_dates`, and rewrite exactly the four scheduling fields in the
/// note's block. Fails if and only if the note lacks a metadata block or
/// one of the required fields.
pub fn review_note(
    content: &[u8],
    path: String,
    today: Date,
    rating: Rating,
    link_factor_ppm: u32,
    link_weight_ppm: u32,
    max_interval: u32,
    balance_dates: Option<&Vec<Date>>,
) -> (r: Result<(Vec<u8>, ReviewOutcome), SproutError>)
    requires
        today.is_valid(),
        link_factor_ppm <= 1000000,
        day_number(today) + max_interval + 4 <= Date::max_day_number(),
        match balance_dates {
            Some(ds) => forall|j: int| 0 <= j < ds@.len() ==> (#[trigger] ds@[j]).is_valid(),
            None => true,
        },
    ensures
        r is Ok <==> reviewable(content@),
        match r {
            Ok((text, out)) => {
                let f = fields_of_block(spec_block(content@));
                let ease0 = f.ease->Some_0;
                &&& ease0 + 15 <= u32::MAX ==> out.new_ease == schedule_ease(
                    rating,
                    ease0 as int,
                )
                &&& ease0 + 15 <= u32::MAX ==> out.new_interval == schedule_interval(
                    rating,
                    f.review_interval->Some_0 as int,
                    delayed_days(today, f.next_review->Some_0),
                    ease0 as int,
                    link_weight_ppm as int,
                    link_factor_ppm as int,
                    max_interval as int,
                )
                &&& out.maturity == f.maturity->Some_0
                &&& out.next_review.is_valid()
                &&& 1 <= out.new_interval
                &&& max_interval >= 1 ==> out.new_interval <= max_interval
                &&& (balance_dates is None ==> day_number(out.next_review) == day_number(today)
                    + out.new_interval)
                &&& (match balance_dates {
                    Some(ds) => {
                        let base = day_number(today) + out.new_interval;
                        let w = fuzz_days(out.new_interval as int);
                        &&& base - w <= day_number(out.next_review) <= base + w
                        &&& w == 0 ==> day_number(out.next_review) == base
                        &&& forall|dn: int|
                            #![trigger count_dn(ds@, dn)]
                            base - w <= dn <= base + w ==> count_dn(
                                ds@,
                                day_number(out.next_review),
                            ) < count_dn(ds@, dn) || (count_dn(ds@, day_number(out.next_review))
                                == count_dn(ds@, dn) && day_number(out.next_review) <= dn)
                    },
                    None => true,
                })
                &&& text@ == write_back_spec(
                    crate::frontmatter::raw_block_of(normalize_crlf(content@)),
                    spec_body(content@),
                    review_updates(today, out.new_interval, out.new_ease, out.next_review),
                )
            },
            Err(e) => e matches SproutError::NoFrontmatter(p) && p@ == path@,
        },
{
    let parsed = parse_note(content);
    let maturity = match parsed.sprout.maturity {
        Some(m) => m,
        None => {
            return Err(SproutError::NoFrontmatter(path));
        },
    };
    let ease = match parsed.sprout.ease {
        Some(e) => e,
        None => {
            return Err(SproutError::NoFrontmatter(path));
        },
    };
    let interval = match parsed.sprout.review_interval {
        Some(i) => i,
        None => {
            return Err(SproutError::NoFrontmatter(path));
        },
    };
    let next_review = match parsed.sprout.next_review {
        Some(n) => n,
        None => {
            return Err(SproutError::NoFrontmatter(path));
        },
    };
    let raw = match parsed.frontmatter_raw {
        Some(r) => r,
        None => {
            return Err(SproutError::NoFrontmatter(path));
        },
    };
    let capped_ease = if ease > u32::MAX - 15 {
        u32::MAX - 15
    } else {
        ease
    };
    let srs_out = calculate(
        &SrsInput {
            interval,
            ease: capped_ease,
            next_review,
            today,
            rating,
            link_factor_ppm,
            link_weight_ppm,
            max_interval,
        },
    );
    let final_next = match balance_dates {
        Some(ds) => {
            proof {
                crate::date::lemma_day_number_range(today);
                let w = fuzz_days(srs_out.new_interval as int);
                if srs_out.new_interval <= 7 {
                    assert(w == 0);
                } else {
                    assert(w <= 3);
                }
            }
            load_balance(srs_out.new_interval, today, ds)
        },
        None => srs_out.next_review,
    };
    let mut updates: Vec<(Vec<u8>, Vec<u8>)> = Vec::new();
    updates.push((last_review_text(), format_date(&today)));
    updates.push((interval_text(), format_u32(srs_out.new_interval)));
    updates.push((next_review_text(), format_date(&final_next)));
    updates.push((ease_text(), format_centi(srs_out.new_ease)));
    proof {
        assert(updates_view(updates@) =~~= review_updates(
            today,
            srs_out.new_interval,
            srs_out.new_ease,
            final_next,
        ));
    }
    let text = write_back(raw.as_slice(), parsed.body.as_slice(), updates.as_slice());
    let out = ReviewOutcome {
        maturity,
        new_interval: srs_out.new_interval,
        new_ease: srs_out.new_ease,
        next_review: final_next,
    };
    Ok((text, out))
}

// ---------------------------------------------------------------------
// Promoting a note.

/// Change the maturity of a tracked note: rewrite only the `maturity`
/// field (an idempotent write when the maturity is unchanged) and report
/// the previous maturity. Fails if and only if the note lacks a metadata
/// block or a readable maturity.
pub fn promote_note(content: &[u8], path: String, maturity: Maturity) -> (r: Result<
    (Vec<u8>, Maturity),
    SproutError,
>)
    ensures
        r is Ok <==> (spec_has_raw(content@) && fields_of_block(spec_block(content@)).maturity
            is Some),
        match r {
            Ok((text, previous)) => {
                &&& previous == fields_of_block(spec_block(content@)).maturity->Some_0
                &&& text@ == write_back_spec(
                    crate::frontmatter::raw_block_of(normalize_crlf(content@)),
                    spec_body(content@),
                    seq![(spec_maturity_text(), maturity_word(maturity))],
                )
            },
            Err(e) => e matches SproutError::NoFrontmatter(p) && p@ == path@,
        },
{
    let parsed = parse_note(content);
    let previous = match parsed.sprout.maturity {
        Some(m) => m,
        None => {
            return Err(SproutError::NoFrontmatter(path));
        },
    };
    let raw = match parsed.frontmatter_raw {
        Some(r) => r,
        None => {
            return Err(SproutError::NoFrontmatter(path));
        },
    };
    let mut updates: Vec<(Vec<u8>, Vec<u8>)> = Vec::new();
    updates.push((maturity_text(), maturity.to_text()));
    proof {
        assert(updates_view(updates@) =~~= seq![(spec_maturity_text(), maturity_word(maturity))]);
    }
    let text = write_back(raw.as_slice(), parsed.body.as_slice(), updates.as_slice());
    Ok((text, previous))
}

// ---------------------------------------------------------------------
// Initializing a note's metadata.

/// What initialization reports back.
#[derive(Debug)]
pub struct InitResult {
    pub maturity: Maturity,
    pub review_interval: u32,
    pub next_review: Date,
    pub ease: u32,
    pub created: Date,
    pub fields_added: Option<Vec<Vec<u8>>>,
}

/// The six fields of a fresh block, with their default values.
pub open spec fn init_fields(today: Date, tomorrow: Date, ease: u32) -> Seq<(Seq<u8>, Seq<u8>)> {
    seq![
        (spec_maturity_text(), spec_seedling_text()),
        (spec_created_text(), date_text(today)),
        (spec_last_review_text(), date_text(today)),
        (spec_interval_text(), seq![49u8]),
        (spec_next_review_text(), date_text(tomorrow)),
        (spec_ease_text(), centi_text(ease as int)),
    ]
}

/// Append the default for one field unless the block already has it.
pub open spec fn append_if_missing(y: Seq<u8>, raw: Seq<u8>, key: Seq<u8>, val: Seq<u8>) -> Seq<
    u8,
> {
    if has_field_spec(raw, key) {
        y
    } else {
        append_field_spec(y, key, val)
    }
}

/// The block with defaults appended for every missing field, in field
/// order.
pub open spec fn init_filled(raw: Seq<u8>, today: Date, tomorrow: Date, ease: u32) -> Seq<u8> {
    let fs = init_fields(today, tomorrow, ease);
    let y0 = append_if_missing(raw, raw, fs[0].0, fs[0].1);
    let y1 = append_if_missing(y0, raw, fs[1].0, fs[1].1);
    let y2 = append_if_missing(y1, raw, fs[2].0, fs[2].1);
    let y3 = append_if_missing(y2, raw, fs[3].0, fs[3].1);
    let y4 = append_if_missing(y3, raw, fs[4].0, fs[4].1);
    append_if_missing(y4, raw, fs[5].0, fs[5].1)
}

/// How many of the six fields the block already has.
pub open spec fn present_count(raw: Seq<u8>) -> int {
    (if has_field_spec(raw, spec_maturity_text()) {
        1int
    } else {
        0int
    }) + (if has_field_spec(raw, spec_created_text()) {
        1int
    } else {
        0int
    }) + (if has_field_spec(raw, spec_last_review_text()) {
        1int
    } else {
        0int
    }) + (if has_field_spec(raw, spec_interval_text()) {
        1int
    } else {
        0int
    }) + (if has_field_spec(raw, spec_next_review_text()) {
        1int
    } else {
        0int
    }) + (if has_field_spec(raw, spec_ease_text()) {
        1int
    } else {
        0int
    })
}

/// Give a note its scheduling metadata. A note without a block gets a
/// fresh one with all six fields; a note whose block lacks some fields
/// has exactly the missing ones appended with defaults (reported in
/// `fields_added` when the block already had some); a note that already
/// has all six is rejected as already initialized. The body is never
/// touched.
pub fn init_note(content: &[u8], path: String, today: Date, default_ease: u32) -> (r: Result<
    (Vec<u8>, InitResult),
    SproutError,
>)
    requires
        today.is_valid(),
        day_number(today) + 1 <= Date::max_day_number(),
    ensures
        ({
            let raw = crate::frontmatter::raw_block_of(normalize_crlf(content@));
            let f = fields_of_block(spec_block(content@));
            let tomorrow_dn = day_number(today) + 1;
            match r {
                Ok((text, res)) => {
                    &&& !(spec_has_raw(content@) && present_count(raw) == 6)
                    &&& res.created.is_valid() && res.next_review.is_valid()
                    &&& (!spec_has_raw(content@) ==> {
                        &&& day_number(res.next_review) == tomorrow_dn
                        &&& text@ == build_new_frontmatter_spec(
                            init_fields(today, res.next_review, default_ease),
                            spec_body(content@),
                        )
                        &&& res.maturity == Maturity::Seedling
                        &&& res.review_interval == 1
                        &&& res.ease == default_ease
                        &&& res.created == today
                        &&& res.fields_added is None
                    })
                    &&& (spec_has_raw(content@) ==> {
                        let tomorrow = res.next_review;
                        &&& text@ == write_back_spec(
                            init_filled(raw, today, witness_tomorrow(today), default_ease),
                            spec_body(content@),
                            Seq::empty(),
                        )
                        &&& (present_count(raw) == 0 ==> res.fields_added is None)
                        &&& (present_count(raw) > 0 ==> res.fields_added is Some)
                        &&& res.maturity == (if has_field_spec(raw, spec_maturity_text()) {
                            f.maturity.unwrap_or(Maturity::Seedling)
                        } else {
                            Maturity::Seedling
                        })
                        &&& res.review_interval == (if has_field_spec(raw, spec_interval_text()) {
                            f.review_interval.unwrap_or(1)
                        } else {
                            1
                        })
                        &&& res.ease == (if has_field_spec(raw, spec_ease_text()) {
                            f.ease.unwrap_or(default_ease)
                        } else {
                            default_ease
                        })
                        &&& (if has_field_spec(raw, spec_next_review_text()) {
                            match f.next_review {
                                Some(d) => res.next_review == d,
                                None => day_number(res.next_review) == tomorrow_dn,
                            }
                        } else {
                            day_number(res.next_review) == tomorrow_dn
                        })
                        &&& (if has_field_spec(raw, spec_created_text()) {
                            res.created == f.created.unwrap_or(today)
                        } else {
                            res.created == today
                        })
                    })
                },
                Err(e) => {
                    &&& spec_has_raw(content@) && present_count(raw) == 6
                    &&& (e matches SproutError::AlreadyInitialized(p) && p@ == path@)
                },
            }
        }),
{
    let parsed = parse_note(content);
    let tomorrow = add_days(&today, 1);
    let today_str = format_date(&today);
    let tomorrow_str = format_date(&tomorrow);
    let ease_str = format_centi(default_ease);
    match parsed.frontmatter_raw {
        None => {
            let mut fields: Vec<(Vec<u8>, Vec<u8>)> = Vec::new();
            fields.push((maturity_text(), seedling_text()));
            fields.push((created_text(), crate::text::sub_bytes(today_str.as_slice(), 0, today_str.len())));
            fields.push((last_review_text(), crate::text::sub_bytes(today_str.as_slice(), 0, today_str.len())));
            let mut one: Vec<u8> = Vec::new();
            one.push(49);
            fields.push((interval_text(), one));
            fields.push((next_review_text(), crate::text::sub_bytes(tomorrow_str.as_slice(), 0, tomorrow_str.len())));
            fields.push((ease_text(), crate::text::sub_bytes(ease_str.as_slice(), 0, ease_str.len())));
            proof {
                assert(updates_view(fields@) =~~= init_fields(today, tomorrow, default_ease));
            }
            let text = build_new_frontmatter(fields.as_slice(), parsed.body.as_slice());
            let res = InitResult {
                maturity: Maturity::Seedling,
                review_interval: 1,
                next_review: tomorrow,
                ease: default_ease,
                created: today,
                fields_added: None,
            };
            Ok((text, res))
        },
        Some(raw) => {
            let mut missing: Vec<Vec<u8>> = Vec::new();
            let mut yaml = crate::text::sub_bytes(raw.as_slice(), 0, raw.len());
            let ghost raw_v = raw@;
            proof {
                assert(yaml@ =~= raw_v);
            }
            let key = maturity_text();
            let has_mat = has_field(raw.as_slice(), key.as_slice());
            if !has_mat {
                missing.push(maturity_text());
                yaml = append_field(yaml.as_slice(), key.as_slice(), seedling_text().as_slice());
            }
            let key = created_text();
            let has_created = has_field(raw.as_slice(), key.as_slice());
            if !has_created {
                missing.push(created_text());
                yaml = append_field(yaml.as_slice(), key.as_slice(), today_str.as_slice());
            }
            let key = last_review_text();
            let has_lr = has_field(raw.as_slice(), key.as_slice());
            if !has_lr {
                missing.push(last_review_text());
                yaml = append_field(yaml.as_slice(), key.as_slice(), today_str.as_slice());
            }
            let key = interval_text();
            let has_int = has_field(raw.as_slice(), key.as_slice());
            if !has_int {
                missing.push(interval_text());
                let mut one: Vec<u8> = Vec::new();
                one.push(49);
                proof {
                    assert(one@ =~= seq![49u8]);
                }
                yaml = append_field(yaml.as_slice(), key.as_slice(), one.as_slice());
            }
            let key = next_review_text();
            let has_next = has_field(raw.as_slice(), key.as_slice());
            if !has_next {
                missing.push(next_review_text());
                yaml = append_field(yaml.as_slice(), key.as_slice(), tomorrow_str.as_slice());
            }
            let key = ease_text();
            let has_ease = has_field(raw.as_slice(), key.as_slice());
            if !has_ease {
                missing.push(ease_text());
                yaml = append_field(yaml.as_slice(), key.as_slice(), ease_str.as_slice());
            }
            if missing.len() == 0 {
                return Err(SproutError::AlreadyInitialized(path));
            }
            proof {
                let wt = witness_tomorrow(today);
                assert(tomorrow.is_valid() && day_number(tomorrow) == day_number(today) + 1);
                assert(wt.is_valid() && day_number(wt) == day_number(today) + 1);
                crate::date::lemma_day_number_injective(wt, tomorrow);
            }
            assert(yaml@ == init_filled(raw_v, today, witness_tomorrow(today), default_ease));
            let all_missing = missing.len() == 6;
            let empty_updates: Vec<(Vec<u8>, Vec<u8>)> = Vec::new();
            proof {
                assert(updates_view(empty_updates@) =~~= Seq::<(Seq<u8>, Seq<u8>)>::empty());
            }
            let text = write_back(yaml.as_slice(), parsed.body.as_slice(), empty_updates.as_slice());
            let final_maturity = if has_mat {
                match parsed.sprout.maturity {
                    Some(m) => m,
                    None => Maturity::Seedling,
                }
            } else {
                Maturity::Seedling
            };
            let final_interval = if has_int {
                match parsed.sprout.review_interval {
                    Some(v) => v,
                    None => 1,
                }
            } else {
                1
            };
            let final_next = if has_next {
                match parsed.sprout.next_review {
                    Some(d) => d,
                    None => tomorrow,
                }
            } else {
                tomorrow
            };
            let final_ease = if has_ease {
                match parsed.sprout.ease {
                    Some(v) => v,
                    None => default_ease,
                }
            } else {
                default_ease
            };
            let final_created = if has_created {
                match parsed.sprout.created {
                    Some(d) => d,
                    None => today,
                }
            } else {
                today
            };
            proof {
                lemma_parsed_dates_valid(spec_block(content@));
            }
            let res = InitResult {
                maturity: final_maturity,
                review_interval: final_interval,
                next_review: final_next,
                ease: final_ease,
                created: final_created,
                fields_added: if all_missing {
                    None
                } else {
                    Some(missing)
                },
            };
            Ok((text, res))
        },
    }
}

/// The day after `today` (a specification-side name for the default next
/// review date).
pub open spec fn witness_tomorrow(today: Date) -> Date {
    choose|d: Date| d.is_valid() && day_number(d) == day_number(today) + 1
}

/// The dates a parse hands out are valid.
pub proof fn lemma_parsed_dates_valid(block: Seq<u8>)
    ensures
        ({
            let f = fields_of_block(block);
            &&& (f.created matches Some(d) ==> d.is_valid())
            &&& (f.last_review matches Some(d) ==> d.is_valid())
            &&& (f.next_review matches Some(d) ==> d.is_valid())
        }),
{
}


// ---------------------------------------------------------------------
// Describing a note.

/// What `show` reports about one note.
pub struct ShowInfo {
    pub maturity: Option<Maturity>,
    pub created: Option<Date>,
    pub last_review: Option<Date>,
    pub review_interval: Option<u32>,
    pub next_review: Option<Date>,
    pub ease: Option<u32>,
    pub is_due: bool,
    pub days_until_review: i64,
    pub link_count: usize,
}

/// Describe a note: its typed fields, whether it is due today, the days
/// until its review (negative when overdue), and its distinct link count.
pub fn show_note(content: &[u8], today: Date) -> (r: ShowInfo)
    requires
        today.is_valid(),
    ensures
        ({
            let f = fields_of_block(spec_block(content@));
            &&& r.maturity == f.maturity
            &&& r.created == f.created
            &&& r.last_review == f.last_review
            &&& r.review_interval == f.review_interval
            &&& r.next_review == f.next_review
            &&& r.ease == f.ease
            &&& r.is_due == (f.next_review matches Some(nr) && day_number(nr) <= day_number(
                today,
            ))
            &&& r.days_until_review == (match f.next_review {
                Some(nr) => day_number(nr) - day_number(today),
                None => 0,
            })
            &&& r.link_count == crate::links::link_count(spec_body(content@))
        }),
{
    let parsed = parse_note(content);
    proof {
        lemma_parsed_dates_valid(spec_block(content@));
    }
    let (is_due, days_until) = match parsed.sprout.next_review {
        Some(nr) => {
            let due = crate::date::date_le(&nr, &today);
            let days = crate::date::days_between(&nr, &today);
            (due, days)
        },
        None => (false, 0i64),
    };
    let link_count = crate::links::count_links(parsed.body.as_slice());
    ShowInfo {
        maturity: parsed.sprout.maturity,
        created: parsed.sprout.created,
        last_review: parsed.sprout.last_review,
        review_interval: parsed.sprout.review_interval,
        next_review: parsed.sprout.next_review,
        ease: parsed.sprout.ease,
        is_due,
        days_until_review: days_until,
        link_count,
    }
}

} // verus!
