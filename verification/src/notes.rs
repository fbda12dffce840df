//! Vault-wide selections over scanned notes: which notes are due, which
//! are tracked, the deterministic orders they are listed in, and the
//! collection statistics.

use crate::date::day_number;
use crate::date::date_le;
use crate::date::date_lt;
use crate::date::Date;
use crate::frontmatter::Maturity;
use crate::frontmatter::SproutFrontmatter;
use crate::text::sub_bytes;
use vstd::prelude::*;
use vstd::seq_lib::group_to_multiset_ensures;

verus! {

broadcast use group_to_multiset_ensures;

/// A scanned note: canonical path, vault-relative path, typed fields.
pub struct NoteMetaInfo {
    pub path: Vec<u8>,
    pub relative_path: Vec<u8>,
    pub sprout: SproutFrontmatter,
}

/// The mathematical value of a scanned note.
pub open spec fn meta_view(n: NoteMetaInfo) -> (Seq<u8>, Seq<u8>, SproutFrontmatter) {
    (n.path@, n.relative_path@, n.sprout)
}

pub open spec fn metas_view(s: Seq<NoteMetaInfo>) -> Seq<(Seq<u8>, Seq<u8>, SproutFrontmatter)> {
    s.map_values(|n: NoteMetaInfo| meta_view(n))
}

/// Every date a note carries is a valid calendar date.
pub open spec fn dates_valid(n: SproutFrontmatter) -> bool {
    &&& (n.created matches Some(d) ==> d.is_valid())
    &&& (n.last_review matches Some(d) ==> d.is_valid())
    &&& (n.next_review matches Some(d) ==> d.is_valid())
}

/// Due for review: tracked, fully scheduled, and not later than today.
pub open spec fn is_due(n: SproutFrontmatter, today: Date) -> bool {
    &&& n.maturity is Some
    &&& n.next_review is Some
    &&& n.ease is Some
    &&& n.review_interval is Some
    &&& day_number(n.next_review->Some_0) <= day_number(today)
}

/// Tracked, and of the wanted maturity when a filter is given.
pub open spec fn is_listed(n: SproutFrontmatter, filter: Option<Maturity>) -> bool {
    &&& n.maturity is Some
    &&& match filter {
        Some(m) => n.maturity == Some(m),
        None => true,
    }
}

/// The elements satisfying `pred`, in order. The predicate is given by
/// the two selections below.
pub open spec fn filter_metas(
    s: Seq<(Seq<u8>, Seq<u8>, SproutFrontmatter)>,
    today: Date,
    filter: Option<Maturity>,
    due_mode: bool,
) -> Seq<(Seq<u8>, Seq<u8>, SproutFrontmatter)>
    decreases s.len(),
{
    if s.len() == 0 {
        s
    } else {
        let keep = if due_mode {
            is_due(s.last().2, today)
        } else {
            is_listed(s.last().2, filter)
        };
        filter_metas(s.drop_last(), today, filter, due_mode) + if keep {
            seq![s.last()]
        } else {
            Seq::empty()
        }
    }
}

fn copy_meta(n: &NoteMetaInfo) -> (r: NoteMetaInfo)
    ensures
        meta_view(r) == meta_view(*n),
{
    NoteMetaInfo {
        path: sub_bytes(n.path.as_slice(), 0, n.path.len()),
        relative_path: sub_bytes(n.relative_path.as_slice(), 0, n.relative_path.len()),
        sprout: n.sprout,
    }
}

/// The notes due for review today (tracked, fully scheduled, and not
/// scheduled later than today), in scan order.
pub fn filter_due(notes: &Vec<NoteMetaInfo>, today: Date) -> (r: Vec<NoteMetaInfo>)
    requires
        today.is_valid(),
        forall|j: int| 0 <= j < notes@.len() ==> dates_valid((#[trigger] notes@[j]).sprout),
    ensures
        metas_view(r@) == filter_metas(metas_view(notes@), today, None, true),
        forall|j: int|
            0 <= j < r@.len() ==> is_due((#[trigger] r@[j]).sprout, today) && dates_valid(
                r@[j].sprout,
            ),
{
    let n = notes.len();
    let mut out: Vec<NoteMetaInfo> = Vec::new();
    let mut i: usize = 0;
    proof {
        assert(metas_view(notes@).take(0) =~~= Seq::<(Seq<u8>, Seq<u8>, SproutFrontmatter)>::empty());
        assert(metas_view(out@) =~~= filter_metas(
            metas_view(notes@).take(0),
            today,
            None,
            true,
        ));
    }
    while i < n
        invariant
            0 <= i <= n,
            n == notes@.len(),
            today.is_valid(),
            forall|j: int| 0 <= j < notes@.len() ==> dates_valid((#[trigger] notes@[j]).sprout),
            metas_view(out@) =~~= filter_metas(metas_view(notes@).take(i as int), today, None, true),
            forall|j: int|
                0 <= j < out@.len() ==> is_due((#[trigger] out@[j]).sprout, today) && dates_valid(
                    out@[j].sprout,
                ),
        decreases n - i,
    {
        let s = &notes[i].sprout;
        let keep = match (s.maturity, s.next_review, s.ease, s.review_interval) {
            (Some(_), Some(nr), Some(_), Some(_)) => date_le(&nr, &today),
            _ => false,
        };
        let ghost prev = metas_view(out@);
        if keep {
            out.push(copy_meta(&notes[i]));
            proof {
                assert(metas_view(out@) =~~= prev + seq![meta_view(notes@[i as int])]);
            }
        }
        proof {
            assert(metas_view(notes@).take(i + 1).drop_last() =~~= metas_view(notes@).take(
                i as int,
            ));
            assert(metas_view(notes@).take(i + 1).last() == meta_view(notes@[i as int]));
            if !keep {
                assert(metas_view(out@) + Seq::<(Seq<u8>, Seq<u8>, SproutFrontmatter)>::empty()
                    =~~= metas_view(out@));
            }
        }
        i = i + 1;
    }
    proof {
        assert(metas_view(notes@).take(n as int) =~~= metas_view(notes@));
    }
    out
}

/// The tracked notes, narrowed to one maturity when a filter is given,
/// in scan order.
pub fn filter_listed(notes: &Vec<NoteMetaInfo>, maturity_filter: Option<Maturity>) -> (r: Vec<
    NoteMetaInfo,
>)
    requires
        forall|j: int| 0 <= j < notes@.len() ==> dates_valid((#[trigger] notes@[j]).sprout),
    ensures
        metas_view(r@) == filter_metas(
            metas_view(notes@),
            Date { year: 0, month: 1, day: 1 },
            maturity_filter,
            false,
        ),
        forall|j: int|
            0 <= j < r@.len() ==> is_listed((#[trigger] r@[j]).sprout, maturity_filter)
                && dates_valid(r@[j].sprout),
{
    let ghost dummy = Date { year: 0, month: 1, day: 1 };
    let n = notes.len();
    let mut out: Vec<NoteMetaInfo> = Vec::new();
    let mut i: usize = 0;
    proof {
        assert(metas_view(out@) =~~= filter_metas(
            metas_view(notes@).take(0),
            dummy,
            maturity_filter,
            false,
        ));
    }
    while i < n
        invariant
            0 <= i <= n,
            n == notes@.len(),
            forall|j: int| 0 <= j < notes@.len() ==> dates_valid((#[trigger] notes@[j]).sprout),
            metas_view(out@) =~~= filter_metas(
                metas_view(notes@).take(i as int),
                dummy,
                maturity_filter,
                false,
            ),
            forall|j: int|
                0 <= j < out@.len() ==> is_listed((#[trigger] out@[j]).sprout, maturity_filter)
                    && dates_valid(out@[j].sprout),
        decreases n - i,
    {
        let keep = match (&notes[i].sprout.maturity, &maturity_filter) {
            (Some(m), Some(f)) => *m == *f,
            (Some(_), None) => true,
            (None, _) => false,
        };
        let ghost prev = metas_view(out@);
        if keep {
            out.push(copy_meta(&notes[i]));
            proof {
                assert(metas_view(out@) =~~= prev + seq![meta_view(notes@[i as int])]);
            }
        }
        proof {
            assert(metas_view(notes@).take(i + 1).drop_last() =~~= metas_view(notes@).take(
                i as int,
            ));
            assert(metas_view(notes@).take(i + 1).last() == meta_view(notes@[i as int]));
            if !keep {
                assert(metas_view(out@) + Seq::<(Seq<u8>, Seq<u8>, SproutFrontmatter)>::empty()
                    =~~= metas_view(out@));
            }
        }
        i = i + 1;
    }
    proof {
        assert(metas_view(notes@).take(n as int) =~~= metas_view(notes@));
    }
    out
}

/// The review date a due note is sorted by.
pub open spec fn due_key(n: NoteMetaInfo) -> int {
    day_number(n.sprout.next_review->Some_0)
}

/// Sort due notes by review date ascending — the most overdue first.
/// The result is a reordering of the input: same notes, same counts.
pub fn sort_by_next_review(notes: Vec<NoteMetaInfo>) -> (r: Vec<NoteMetaInfo>)
    requires
        forall|j: int|
            0 <= j < notes@.len() ==> (#[trigger] notes@[j]).sprout.next_review is Some
                && dates_valid(notes@[j].sprout),
    ensures
        metas_view(r@).to_multiset() == metas_view(notes@).to_multiset(),
        forall|a: int, b: int| 0 <= a <= b < r@.len() ==> due_key(r@[a]) <= due_key(r@[b]),
        forall|j: int|
            0 <= j < r@.len() ==> (#[trigger] r@[j]).sprout.next_review is Some && dates_valid(
                r@[j].sprout,
            ),
{
    let ghost orig = metas_view(notes@).to_multiset();
    let mut rest = notes;
    let mut out: Vec<NoteMetaInfo> = Vec::new();
    proof {
        assert(metas_view(out@) =~~= Seq::<(Seq<u8>, Seq<u8>, SproutFrontmatter)>::empty());
        assert(metas_view(out@).to_multiset().add(metas_view(rest@).to_multiset()) =~= orig);
    }
    while rest.len() > 0
        invariant
            metas_view(out@).to_multiset().add(metas_view(rest@).to_multiset()) == orig,
            forall|j: int|
                0 <= j < rest@.len() ==> (#[trigger] rest@[j]).sprout.next_review is Some
                    && dates_valid(rest@[j].sprout),
            forall|j: int|
                0 <= j < out@.len() ==> (#[trigger] out@[j]).sprout.next_review is Some
                    && dates_valid(out@[j].sprout),
            forall|a: int, b: int| 0 <= a <= b < out@.len() ==> due_key(out@[a]) <= due_key(out@[b]),
            forall|a: int, b: int|
                0 <= a < out@.len() && 0 <= b < rest@.len() ==> due_key(out@[a]) <= due_key(
                    rest@[b],
                ),
        decreases rest@.len(),
    {
        let m = rest.len();
        let mut mi: usize = 0;
        let mut k: usize = 1;
        while k < m
            invariant
                0 <= mi < k <= m,
                m == rest@.len(),
                forall|j: int|
                    0 <= j < rest@.len() ==> (#[trigger] rest@[j]).sprout.next_review is Some
                        && dates_valid(rest@[j].sprout),
                forall|j: int| 0 <= j < k ==> due_key(rest@[mi as int]) <= due_key(rest@[j]),
            decreases m - k,
        {
            let a = match rest[k].sprout.next_review {
                Some(d) => d,
                None => Date { year: 0, month: 1, day: 1 },
            };
            let b = match rest[mi].sprout.next_review {
                Some(d) => d,
                None => Date { year: 0, month: 1, day: 1 },
            };
            if date_lt(&a, &b) {
                mi = k;
            }
            k = k + 1;
        }
        let ghost prev_rest = rest@;
        let ghost prev_out = out@;
        let e = rest.remove(mi);
        out.push(e);
        proof {
            assert(metas_view(prev_rest.remove(mi as int)) =~~= metas_view(prev_rest).remove(
                mi as int,
            ));
            assert(metas_view(out@) =~~= metas_view(prev_out).push(meta_view(
                prev_rest[mi as int],
            )));
            assert(metas_view(prev_rest).to_multiset().count(meta_view(prev_rest[mi as int]))
                > 0) by {
                assert(metas_view(prev_rest)[mi as int] == meta_view(prev_rest[mi as int]));
                assert(metas_view(prev_rest).contains(meta_view(prev_rest[mi as int])));
            }
            assert(metas_view(out@).to_multiset().add(metas_view(rest@).to_multiset()) =~= orig);
        }
    }
    out
}

/// Byte-wise lexicographic order.
pub open spec fn lex_le(a: Seq<u8>, b: Seq<u8>) -> bool
    decreases a.len(),
{
    if a.len() == 0 {
        true
    } else if b.len() == 0 {
        false
    } else if a[0] < b[0] {
        true
    } else if a[0] > b[0] {
        false
    } else {
        lex_le(a.drop_first(), b.drop_first())
    }
}

pub proof fn lemma_lex_total(a: Seq<u8>, b: Seq<u8>)
    ensures
        lex_le(a, b) || lex_le(b, a),
    decreases a.len(),
{
    if a.len() > 0 && b.len() > 0 && a[0] == b[0] {
        lemma_lex_total(a.drop_first(), b.drop_first());
    }
}

pub proof fn lemma_lex_trans(a: Seq<u8>, b: Seq<u8>, c: Seq<u8>)
    requires
        lex_le(a, b),
        lex_le(b, c),
    ensures
        lex_le(a, c),
    decreases a.len(),
{
    if a.len() > 0 && b.len() > 0 && c.len() > 0 && a[0] == b[0] && b[0] == c[0] {
        lemma_lex_trans(a.drop_first(), b.drop_first(), c.drop_first());
    }
}

/// Compare two byte texts lexicographically.
pub fn lex_le_exec(a: &[u8], b: &[u8]) -> (r: bool)
    ensures
        r == lex_le(a@, b@),
{
    let n = a.len();
    let m = b.len();
    let mut i: usize = 0;
    proof {
        assert(a@.skip(0) =~= a@);
        assert(b@.skip(0) =~= b@);
    }
    while i < n && i < m
        invariant
            0 <= i <= n,
            0 <= i <= m,
            n == a@.len(),
            m == b@.len(),
            lex_le(a@, b@) == lex_le(a@.skip(i as int), b@.skip(i as int)),
        decreases n - i,
    {
        let ghost ta = a@.skip(i as int);
        let ghost tb = b@.skip(i as int);
        proof {
            assert(ta[0] == a@[i as int] && tb[0] == b@[i as int]);
            assert(ta.drop_first() =~= a@.skip(i + 1));
            assert(tb.drop_first() =~= b@.skip(i + 1));
        }
        if a[i] < b[i] {
            return true;
        }
        if a[i] > b[i] {
            return false;
        }
        i = i + 1;
    }
    proof {
        assert(a@.skip(i as int).len() == n - i);
        assert(b@.skip(i as int).len() == m - i);
    }
    i == n
}

/// Sort tracked notes by vault-relative path ascending. The result is a
/// reordering of the input: same notes, same counts.
pub fn sort_by_relative_path(notes: Vec<NoteMetaInfo>) -> (r: Vec<NoteMetaInfo>)
    requires
        forall|j: int| 0 <= j < notes@.len() ==> dates_valid((#[trigger] notes@[j]).sprout),
    ensures
        metas_view(r@).to_multiset() == metas_view(notes@).to_multiset(),
        forall|a: int, b: int|
            0 <= a <= b < r@.len() ==> lex_le(r@[a].relative_path@, r@[b].relative_path@),
        forall|j: int| 0 <= j < r@.len() ==> dates_valid((#[trigger] r@[j]).sprout),
{
    let ghost orig = metas_view(notes@).to_multiset();
    let mut rest = notes;
    let mut out: Vec<NoteMetaInfo> = Vec::new();
    proof {
        assert(metas_view(out@) =~~= Seq::<(Seq<u8>, Seq<u8>, SproutFrontmatter)>::empty());
        assert(metas_view(out@).to_multiset().add(metas_view(rest@).to_multiset()) =~= orig);
        assert(metas_view(rest@).to_multiset() =~= orig);
    }
    while rest.len() > 0
        invariant
            metas_view(out@).to_multiset().add(metas_view(rest@).to_multiset()) == orig,
            forall|a: int, b: int|
                0 <= a <= b < out@.len() ==> lex_le(
                    out@[a].relative_path@,
                    out@[b].relative_path@,
                ),
            forall|a: int, b: int|
                0 <= a < out@.len() && 0 <= b < rest@.len() ==> lex_le(
                    out@[a].relative_path@,
                    rest@[b].relative_path@,
                ),
            forall|j: int| 0 <= j < rest@.len() ==> dates_valid((#[trigger] rest@[j]).sprout),
            forall|j: int| 0 <= j < out@.len() ==> dates_valid((#[trigger] out@[j]).sprout),
            metas_view(notes@).to_multiset() == orig,
        decreases rest@.len(),
    {
        let m = rest.len();
        let mut mi: usize = 0;
        let mut k: usize = 1;
        proof {
            lemma_lex_total(rest@[0].relative_path@, rest@[0].relative_path@);
        }
        while k < m
            invariant
                0 <= mi < k <= m,
                m == rest@.len(),
                forall|j: int|
                    0 <= j < k ==> lex_le(rest@[mi as int].relative_path@, rest@[j].relative_path@),
            decreases m - k,
        {
            proof {
                lemma_lex_total(rest@[k as int].relative_path@, rest@[mi as int].relative_path@);
            }
            if lex_le_exec(rest[k].relative_path.as_slice(), rest[mi].relative_path.as_slice())
                && !lex_le_exec(
                rest[mi].relative_path.as_slice(),
                rest[k].relative_path.as_slice(),
            ) {
                let ghost old_mi = mi as int;
                mi = k;
                proof {
                    assert forall|j: int| 0 <= j < k + 1 implies lex_le(
                        rest@[mi as int].relative_path@,
                        rest@[j].relative_path@,
                    ) by {
                        if j < k {
                            lemma_lex_trans(
                                rest@[mi as int].relative_path@,
                                rest@[old_mi].relative_path@,
                                rest@[j].relative_path@,
                            );
                        } else {
                            lemma_lex_total(
                                rest@[mi as int].relative_path@,
                                rest@[mi as int].relative_path@,
                            );
                        }
                    }
                }
            } else {
                proof {
                    lemma_lex_total(
                        rest@[mi as int].relative_path@,
                        rest@[k as int].relative_path@,
                    );
                }
            }
            k = k + 1;
        }
        let ghost prev_rest = rest@;
        let ghost prev_out = out@;
        let e = rest.remove(mi);
        out.push(e);
        proof {
            assert(metas_view(prev_rest.remove(mi as int)) =~~= metas_view(prev_rest).remove(
                mi as int,
            ));
            assert(metas_view(out@) =~~= metas_view(prev_out).push(meta_view(
                prev_rest[mi as int],
            )));
            assert(metas_view(prev_rest).to_multiset().count(meta_view(prev_rest[mi as int]))
                > 0) by {
                assert(metas_view(prev_rest)[mi as int] == meta_view(prev_rest[mi as int]));
                assert(metas_view(prev_rest).contains(meta_view(prev_rest[mi as int])));
            }
            assert(metas_view(out@).to_multiset().add(metas_view(rest@).to_multiset()) =~= orig);
        }
    }
    out
}

/// The collection statistics.
pub struct VaultStats {
    pub total: usize,
    pub seedling: usize,
    pub budding: usize,
    pub evergreen: usize,
    pub due_today: usize,
    pub overdue: usize,
}

pub open spec fn count_tracked(s: Seq<SproutFrontmatter>) -> int
    decreases s.len(),
{
    if s.len() == 0 {
        0
    } else {
        count_tracked(s.drop_last()) + if s.last().maturity is Some {
            1int
        } else {
            0int
        }
    }
}

pub open spec fn count_maturity(s: Seq<SproutFrontmatter>, m: Maturity) -> int
    decreases s.len(),
{
    if s.len() == 0 {
        0
    } else {
        count_maturity(s.drop_last(), m) + if s.last().maturity == Some(m) {
            1int
        } else {
            0int
        }
    }
}

pub open spec fn count_due_today(s: Seq<SproutFrontmatter>, today: Date) -> int
    decreases s.len(),
{
    if s.len() == 0 {
        0
    } else {
        count_due_today(s.drop_last(), today) + if s.last().maturity is Some
            && s.last().next_review == Some(today) {
            1int
        } else {
            0int
        }
    }
}

pub open spec fn count_overdue(s: Seq<SproutFrontmatter>, today: Date) -> int
    decreases s.len(),
{
    if s.len() == 0 {
        0
    } else {
        count_overdue(s.drop_last(), today) + if s.last().maturity is Some
            && s.last().next_review is Some && day_number(s.last().next_review->Some_0)
            < day_number(today) {
            1int
        } else {
            0int
        }
    }
}

pub open spec fn sprouts_of(s: Seq<NoteMetaInfo>) -> Seq<SproutFrontmatter> {
    s.map_values(|n: NoteMetaInfo| n.sprout)
}

/// Count the collection: tracked notes in total and per maturity, those
/// due exactly today, and those overdue.
pub fn compute_stats(notes: &Vec<NoteMetaInfo>, today: Date) -> (r: VaultStats)
    requires
        today.is_valid(),
        forall|j: int| 0 <= j < notes@.len() ==> dates_valid((#[trigger] notes@[j]).sprout),
    ensures
        r.total == count_tracked(sprouts_of(notes@)),
        r.seedling == count_maturity(sprouts_of(notes@), Maturity::Seedling),
        r.budding == count_maturity(sprouts_of(notes@), Maturity::Budding),
        r.evergreen == count_maturity(sprouts_of(notes@), Maturity::Evergreen),
        r.due_today == count_due_today(sprouts_of(notes@), today),
        r.overdue == count_overdue(sprouts_of(notes@), today),
{
    let n = notes.len();
    let ghost all = sprouts_of(notes@);
    let mut total: usize = 0;
    let mut seedling: usize = 0;
    let mut budding: usize = 0;
    let mut evergreen: usize = 0;
    let mut due_today: usize = 0;
    let mut overdue: usize = 0;
    let mut i: usize = 0;
    while i < n
        invariant
            0 <= i <= n,
            n == notes@.len(),
            all == sprouts_of(notes@),
            today.is_valid(),
            forall|j: int| 0 <= j < notes@.len() ==> dates_valid((#[trigger] notes@[j]).sprout),
            total == count_tracked(all.take(i as int)),
            seedling == count_maturity(all.take(i as int), Maturity::Seedling),
            budding == count_maturity(all.take(i as int), Maturity::Budding),
            evergreen == count_maturity(all.take(i as int), Maturity::Evergreen),
            due_today == count_due_today(all.take(i as int), today),
            overdue == count_overdue(all.take(i as int), today),
            total <= i && seedling <= i && budding <= i && evergreen <= i && due_today <= i
                && overdue <= i,
        decreases n - i,
    {
        proof {
            assert(all.take(i + 1).drop_last() =~= all.take(i as int));
            assert(all.take(i + 1).last() == all[i as int]);
            assert(all[i as int] == notes@[i as int].sprout);
        }
        let s = &notes[i].sprout;
        match s.maturity {
            Some(m) => {
                total = total + 1;
                match m {
                    Maturity::Seedling => {
                        seedling = seedling + 1;
                    },
                    Maturity::Budding => {
                        budding = budding + 1;
                    },
                    Maturity::Evergreen => {
                        evergreen = evergreen + 1;
                    },
                }
                match s.next_review {
                    Some(nr) => {
                        if nr.year == today.year && nr.month == today.month && nr.day == today.day {
                            due_today = due_today + 1;
                        }
                        if date_lt(&nr, &today) {
                            overdue = overdue + 1;
                        }
                    },
                    None => {},
                }
            },
            None => {},
        }
        i = i + 1;
    }
    proof {
        assert(all.take(n as int) =~= all);
    }
    VaultStats { total, seedling, budding, evergreen, due_today, overdue }
}

} // verus!
