//! Counting distinct internal cross-references in a note body. Two forms
//! are recognized: `[[target]]` (with an optional `|display` part), and
//! `[text](path)` when not directly preceded by `!` (which marks an
//! image). External `http://` and `https://` targets are not counted.
//! Targets are trimmed and deduplicated; the count is of distinct
//! targets.

use crate::text::bytes_eq;
use crate::text::sub_bytes;
use crate::text::trim_ws;
use crate::text::trim_ws_exec;
use vstd::prelude::*;

verus! {

/// First index at or after `i` whose byte is `x1` or `x2` (or the end).
pub open spec fn run_end2(s: Seq<u8>, i: int, x1: u8, x2: u8) -> int
    decreases s.len() - i,
{
    if 0 <= i < s.len() && s[i] != x1 && s[i] != x2 {
        run_end2(s, i + 1, x1, x2)
    } else {
        i
    }
}

pub proof fn lemma_run_end2(s: Seq<u8>, i: int, x1: u8, x2: u8)
    requires
        0 <= i <= s.len(),
    ensures
        i <= run_end2(s, i, x1, x2) <= s.len(),
        run_end2(s, i, x1, x2) < s.len() ==> s[run_end2(s, i, x1, x2)] == x1 || s[run_end2(
            s,
            i,
            x1,
            x2,
        )] == x2,
    decreases s.len() - i,
{
    if i < s.len() && s[i] != x1 && s[i] != x2 {
        lemma_run_end2(s, i + 1, x1, x2);
    }
}

fn run_end2_exec(s: &[u8], i: usize, x1: u8, x2: u8) -> (r: usize)
    requires
        i <= s@.len(),
    ensures
        r == run_end2(s@, i as int, x1, x2),
        i <= r <= s@.len(),
{
    proof {
        lemma_run_end2(s@, i as int, x1, x2);
    }
    let n = s.len();
    let mut r = i;
    while r < n && s[r] != x1 && s[r] != x2
        invariant
            i <= r <= n,
            n == s@.len(),
            run_end2(s@, i as int, x1, x2) == run_end2(s@, r as int, x1, x2),
        decreases n - r,
    {
        r = r + 1;
    }
    r
}

/// Try a `[[target]]` or `[[target|display]]` reference opening at `p`:
/// the raw target and the index after the closing `]]`.
pub open spec fn wiki_match(s: Seq<u8>, p: int) -> Option<(Seq<u8>, int)> {
    let j = p + 2;
    let te = run_end2(s, j, 93, 124);
    if te == j {
        None
    } else if te < s.len() && s[te] == 124 {
        let ue = run_end2(s, te + 1, 93, 93);
        if ue > te + 1 && ue + 1 < s.len() && s[ue + 1] == 93 {
            Some((s.subrange(j, te), ue + 2))
        } else {
            None
        }
    } else if te + 1 < s.len() && s[te] == 93 && s[te + 1] == 93 {
        Some((s.subrange(j, te), te + 2))
    } else {
        None
    }
}

fn wiki_match_exec(s: &[u8], p: usize) -> (r: Option<(Vec<u8>, usize)>)
    requires
        p + 2 <= s@.len(),
    ensures
        match r {
            Some((t, end)) => wiki_match(s@, p as int) == Some((t@, end as int)) && p < end
                <= s@.len(),
            None => wiki_match(s@, p as int) is None,
        },
{
    let n = s.len();
    let j = p + 2;
    let te = run_end2_exec(s, j, 93, 124);
    proof {
        lemma_run_end2(s@, j as int, 93, 124);
    }
    if te == j {
        return None;
    }
    if te < n && s[te] == 124 {
        let ue = run_end2_exec(s, te + 1, 93, 93);
        proof {
            lemma_run_end2(s@, te + 1, 93, 93);
        }
        if ue > te + 1 && ue < n && n - ue > 1 && s[ue + 1] == 93 {
            let t = sub_bytes(s, j, te);
            return Some((t, ue + 2));
        }
        return None;
    }
    if te < n && n - te > 1 && s[te] == 93 && s[te + 1] == 93 {
        let t = sub_bytes(s, j, te);
        return Some((t, te + 2));
    }
    None
}

/// The raw `[[...]]` targets of `s`, scanning from `p`.
pub open spec fn wiki_targets(s: Seq<u8>, p: int) -> Seq<Seq<u8>>
    decreases s.len() - p,
{
    if !(0 <= p) || p + 2 > s.len() {
        Seq::empty()
    } else if s[p] == 91 && s[p + 1] == 91 {
        match wiki_match(s, p) {
            Some((t, end)) => {
                let q = if p < end <= s.len() {
                    end
                } else {
                    p + 1
                };
                seq![t] + wiki_targets(s, q)
            },
            None => wiki_targets(s, p + 1),
        }
    } else {
        wiki_targets(s, p + 1)
    }
}

/// Try a `[text](path)` reference whose `[` stands at `b`: the raw path
/// and the index after the closing `)`.
pub open spec fn md_match(s: Seq<u8>, b: int) -> Option<(Seq<u8>, int)> {
    let te = run_end2(s, b + 1, 93, 93);
    if te + 1 < s.len() && s[te] == 93 && s[te + 1] == 40 {
        let pe = run_end2(s, te + 2, 41, 41);
        if pe > te + 2 && pe < s.len() && s[pe] == 41 {
            Some((s.subrange(te + 2, pe), pe + 1))
        } else {
            None
        }
    } else {
        None
    }
}

fn md_match_exec(s: &[u8], b: usize) -> (r: Option<(Vec<u8>, usize)>)
    requires
        b < s@.len(),
    ensures
        match r {
            Some((t, end)) => md_match(s@, b as int) == Some((t@, end as int)) && b < end
                <= s@.len(),
            None => md_match(s@, b as int) is None,
        },
{
    let n = s.len();
    let te = run_end2_exec(s, b + 1, 93, 93);
    proof {
        lemma_run_end2(s@, b + 1, 93, 93);
    }
    if te < n && n - te > 1 && s[te] == 93 && s[te + 1] == 40 {
        let pe = run_end2_exec(s, te + 2, 41, 41);
        proof {
            lemma_run_end2(s@, te + 2, 41, 41);
        }
        if pe > te + 2 && pe < n && s[pe] == 41 {
            let t = sub_bytes(s, te + 2, pe);
            return Some((t, pe + 1));
        }
        return None;
    }
    None
}

/// The raw `[text](path)` paths of `s`, scanning from `p`. A reference
/// matches at the start of the text, or after any byte that is not `!`
/// (an image marker).
pub open spec fn md_targets(s: Seq<u8>, p: int) -> Seq<Seq<u8>>
    decreases s.len() - p,
{
    if !(0 <= p) || p >= s.len() {
        Seq::empty()
    } else if p == 0 && s[0] == 91 && md_match(s, 0) is Some {
        let (t, end) = md_match(s, 0)->Some_0;
        let q = if 0 < end <= s.len() {
            end
        } else {
            1
        };
        seq![t] + md_targets(s, q)
    } else if p + 1 < s.len() && s[p] != 33 && s[p + 1] == 91 && md_match(s, p + 1) is Some {
        let (t, end) = md_match(s, p + 1)->Some_0;
        let q = if p < end <= s.len() {
            end
        } else {
            p + 1
        };
        seq![t] + md_targets(s, q)
    } else {
        md_targets(s, p + 1)
    }
}

/// `http://` or `https://`.
pub open spec fn is_external(t: Seq<u8>) -> bool {
    ||| (t.len() >= 7 && t.take(7) == seq![104u8, 116u8, 116u8, 112u8, 58u8, 47u8, 47u8])
    ||| (t.len() >= 8 && t.take(8) == seq![
        104u8,
        116u8,
        116u8,
        112u8,
        115u8,
        58u8,
        47u8,
        47u8,
    ])
}

fn is_external_exec(t: &[u8]) -> (r: bool)
    ensures
        r == is_external(t@),
{
    let mut h: Vec<u8> = Vec::new();
    h.push(104);
    h.push(116);
    h.push(116);
    h.push(112);
    h.push(58);
    h.push(47);
    h.push(47);
    proof {
        assert(h@ =~= seq![104u8, 116u8, 116u8, 112u8, 58u8, 47u8, 47u8]);
    }
    let mut hs: Vec<u8> = Vec::new();
    hs.push(104);
    hs.push(116);
    hs.push(116);
    hs.push(112);
    hs.push(115);
    hs.push(58);
    hs.push(47);
    hs.push(47);
    proof {
        assert(hs@ =~= seq![104u8, 116u8, 116u8, 112u8, 115u8, 58u8, 47u8, 47u8]);
    }
    crate::text::starts_with(t, h.as_slice()) || crate::text::starts_with(t, hs.as_slice())
}

/// Targets trimmed, external ones dropped.
pub open spec fn kept_targets(ts: Seq<Seq<u8>>) -> Seq<Seq<u8>>
    decreases ts.len(),
{
    if ts.len() == 0 {
        Seq::empty()
    } else {
        let t = trim_ws(ts.last());
        kept_targets(ts.drop_last()) + if is_external(t) {
            Seq::empty()
        } else {
            seq![t]
        }
    }
}

/// The number of distinct entries.
pub open spec fn count_distinct(ts: Seq<Seq<u8>>) -> int
    decreases ts.len(),
{
    if ts.len() == 0 {
        0
    } else {
        count_distinct(ts.drop_last()) + if ts.drop_last().contains(ts.last()) {
            0int
        } else {
            1int
        }
    }
}

/// The number of distinct internal link targets in a note body.
pub open spec fn link_count(body: Seq<u8>) -> int {
    count_distinct(kept_targets(wiki_targets(body, 0)) + kept_targets(md_targets(body, 0)))
}

fn collect_wiki(s: &[u8]) -> (r: Vec<Vec<u8>>)
    ensures
        r.deep_view() == wiki_targets(s@, 0),
{
    let n = s.len();
    let mut out: Vec<Vec<u8>> = Vec::new();
    let mut p: usize = 0;
    proof {
        assert(out.deep_view() + wiki_targets(s@, 0) =~~= wiki_targets(s@, 0));
    }
    while p < n && n - p >= 2
        invariant
            0 <= p <= n,
            n == s@.len(),
            wiki_targets(s@, 0) =~~= out.deep_view() + wiki_targets(s@, p as int),
        decreases n - p,
    {
        if s[p] == 91 && s[p + 1] == 91 {
            match wiki_match_exec(s, p) {
                Some((t, end)) => {
                    let ghost prev = out.deep_view();
                    out.push(t);
                    proof {
                        crate::text::lemma_deep_view_bytes(out@[prev.len() as int]);
                        assert(out.deep_view() =~~= prev.push(out@[prev.len() as int]@));
                        assert(prev.push(out@[prev.len() as int]@) + wiki_targets(s@, end as int)
                            =~~= prev + (seq![out@[prev.len() as int]@] + wiki_targets(
                            s@,
                            end as int,
                        )));
                    }
                    p = end;
                },
                None => {
                    p = p + 1;
                },
            }
        } else {
            p = p + 1;
        }
    }
    proof {
        assert(wiki_targets(s@, p as int) =~~= Seq::<Seq<u8>>::empty());
        assert(out.deep_view() + Seq::<Seq<u8>>::empty() =~~= out.deep_view());
    }
    out
}

fn collect_md(s: &[u8]) -> (r: Vec<Vec<u8>>)
    ensures
        r.deep_view() == md_targets(s@, 0),
{
    let n = s.len();
    let mut out: Vec<Vec<u8>> = Vec::new();
    let mut p: usize = 0;
    proof {
        assert(out.deep_view() + md_targets(s@, 0) =~~= md_targets(s@, 0));
    }
    while p < n
        invariant
            0 <= p <= n,
            n == s@.len(),
            md_targets(s@, 0) =~~= out.deep_view() + md_targets(s@, p as int),
        decreases n - p,
    {
        let mut matched: Option<(Vec<u8>, usize)> = None;
        if p == 0 && s[0] == 91 {
            matched = md_match_exec(s, 0);
        }
        if matched.is_none() && p + 1 < n && s[p] != 33 && s[p + 1] == 91 {
            matched = md_match_exec(s, p + 1);
        }
        match matched {
            Some((t, end)) => {
                let ghost prev = out.deep_view();
                out.push(t);
                proof {
                    crate::text::lemma_deep_view_bytes(out@[prev.len() as int]);
                    assert(out.deep_view() =~~= prev.push(out@[prev.len() as int]@));
                    assert(prev.push(out@[prev.len() as int]@) + md_targets(s@, end as int) =~~= prev
                        + (seq![out@[prev.len() as int]@] + md_targets(s@, end as int)));
                }
                p = end;
            },
            None => {
                p = p + 1;
            },
        }
    }
    proof {
        assert(md_targets(s@, p as int) =~~= Seq::<Seq<u8>>::empty());
        assert(out.deep_view() + Seq::<Seq<u8>>::empty() =~~= out.deep_view());
    }
    out
}

fn keep_targets_exec(ts: &Vec<Vec<u8>>) -> (r: Vec<Vec<u8>>)
    ensures
        r.deep_view() == kept_targets(ts.deep_view()),
{
    let n = ts.len();
    let mut out: Vec<Vec<u8>> = Vec::new();
    let mut i: usize = 0;
    proof {
        assert(ts.deep_view().take(0) =~~= Seq::<Seq<u8>>::empty());
        assert(out.deep_view() =~~= kept_targets(ts.deep_view().take(0)));
    }
    while i < n
        invariant
            0 <= i <= n,
            n == ts@.len(),
            ts.deep_view().len() == n,
            out.deep_view() =~~= kept_targets(ts.deep_view().take(i as int)),
        decreases n - i,
    {
        proof {
            crate::text::lemma_deep_view_bytes(ts@[i as int]);
            assert(ts.deep_view().take(i + 1).drop_last() =~~= ts.deep_view().take(i as int));
            assert(ts.deep_view().take(i + 1).last() == ts.deep_view()[i as int]);
        }
        let t = trim_ws_exec(ts[i].as_slice());
        let ghost prev = out.deep_view();
        if !is_external_exec(t.as_slice()) {
            out.push(t);
            proof {
                crate::text::lemma_deep_view_bytes(out@[prev.len() as int]);
                assert(out.deep_view() =~~= prev.push(out@[prev.len() as int]@));
                assert(prev.push(out@[prev.len() as int]@) =~~= prev + seq![
                    trim_ws(ts.deep_view()[i as int]),
                ]);
            }
        } else {
            proof {
                assert(prev + Seq::<Seq<u8>>::empty() =~~= prev);
            }
        }
        i = i + 1;
    }
    proof {
        assert(ts.deep_view().take(n as int) =~~= ts.deep_view());
    }
    out
}

fn contains_bytes(seen: &Vec<Vec<u8>>, x: &[u8]) -> (r: bool)
    ensures
        r == seen.deep_view().contains(x@),
{
    let n = seen.len();
    let mut i: usize = 0;
    while i < n
        invariant
            0 <= i <= n,
            n == seen@.len(),
            seen.deep_view().len() == n,
            forall|j: int| 0 <= j < i ==> #[trigger] seen.deep_view()[j] != x@,
        decreases n - i,
    {
        proof {
            crate::text::lemma_deep_view_bytes(seen@[i as int]);
        }
        if bytes_eq(seen[i].as_slice(), x) {
            assert(seen.deep_view()[i as int] == x@);
            return true;
        }
        i = i + 1;
    }
    proof {
        if seen.deep_view().contains(x@) {
            let j = choose|j: int|
                0 <= j < seen.deep_view().len() && #[trigger] seen.deep_view()[j] == x@;
        }
    }
    false
}

/// Count the distinct internal links of a note body: both reference
/// forms, images and external URLs excluded, duplicates counted once.
pub fn count_links(body: &[u8]) -> (r: usize)
    ensures
        r == link_count(body@),
{
    let wiki = collect_wiki(body);
    let md = collect_md(body);
    let kept_w = keep_targets_exec(&wiki);
    let kept_m = keep_targets_exec(&md);
    let ghost all = kept_targets(wiki_targets(body@, 0)) + kept_targets(md_targets(body@, 0));
    let mut seen: Vec<Vec<u8>> = Vec::new();
    let mut count: usize = 0;
    let nw = kept_w.len();
    let mut i: usize = 0;
    proof {
        assert(all.take(0) =~~= Seq::<Seq<u8>>::empty());
        assert(seen.deep_view() =~~= all.take(0));
    }
    while i < nw
        invariant
            0 <= i <= nw,
            nw == kept_w@.len(),
            kept_w.deep_view() == kept_targets(wiki_targets(body@, 0)),
            kept_m.deep_view() == kept_targets(md_targets(body@, 0)),
            all == kept_targets(wiki_targets(body@, 0)) + kept_targets(md_targets(body@, 0)),
            all.len() == nw + kept_m@.len(),
            kept_m.deep_view().len() == kept_m@.len(),
            seen.deep_view() =~~= all.take(i as int),
            count == count_distinct(all.take(i as int)),
            count <= i,
        decreases nw - i,
    {
        proof {
            crate::text::lemma_deep_view_bytes(kept_w@[i as int]);
            assert(all.take(i + 1).drop_last() =~~= all.take(i as int));
            assert(all.take(i + 1).last() == all[i as int]);
            assert(all[i as int] == kept_w.deep_view()[i as int]);
        }
        if !contains_bytes(&seen, kept_w[i].as_slice()) {
            count = count + 1;
        }
        let ghost prev = seen.deep_view();
        let t = sub_bytes(kept_w[i].as_slice(), 0, kept_w[i].len());
        seen.push(t);
        proof {
            crate::text::lemma_deep_view_bytes(seen@[prev.len() as int]);
            assert(seen.deep_view() =~~= prev.push(all[i as int]));
            assert(seen.deep_view() =~~= all.take(i + 1));
        }
        i = i + 1;
    }
    let nm = kept_m.len();
    let mut k: usize = 0;
    while k < nm
        invariant
            0 <= k <= nm,
            nm == kept_m@.len(),
            nw == kept_w@.len(),
            kept_m.deep_view() == kept_targets(md_targets(body@, 0)),
            all == kept_targets(wiki_targets(body@, 0)) + kept_targets(md_targets(body@, 0)),
            all.len() == nw + nm,
            kept_w.deep_view().len() == nw,
            seen.deep_view() =~~= all.take(nw as int + k as int),
            count == count_distinct(all.take(nw as int + k as int)),
            count <= nw as int + k as int,
        decreases nm - k,
    {
        proof {
            crate::text::lemma_deep_view_bytes(kept_m@[k as int]);
            assert(all.take(nw as int + k as int + 1).drop_last() =~~= all.take(nw as int + k as int));
            assert(all.take(nw as int + k as int + 1).last() == all[nw as int + k as int]);
            assert(all[nw as int + k as int] == kept_m.deep_view()[k as int]);
        }
        let contained = contains_bytes(&seen, kept_m[k].as_slice());
        let ghost prev = seen.deep_view();
        let t = sub_bytes(kept_m[k].as_slice(), 0, kept_m[k].len());
        seen.push(t);
        proof {
            crate::text::lemma_deep_view_bytes(seen@[prev.len() as int]);
            assert(seen.deep_view() =~~= prev.push(all[nw as int + k as int]));
            assert(seen.deep_view() =~~= all.take(nw as int + k as int + 1));
        }
        if !contained {
            let sl = seen.len();
            assert(count < sl);
            count = count + 1;
        }
        k = k + 1;
    }
    proof {
        assert(all.take(nw as int + nm as int) =~~= all);
    }
    count
}

} // verus!
