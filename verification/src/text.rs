//! Byte-level text utilities: line splitting and joining, whitespace
//! trimming, and byte-sequence comparisons.
//!
//! A text is modelled as a `Seq<u8>`; its lines are the segments between
//! newline bytes. `lines_of` and `join_lines` are exact inverses, which is
//! what lets the metadata codec restrict every edit to a single line.

use vstd::prelude::*;

verus! {

/// Newline byte.
pub open spec fn nl() -> u8 {
    10
}

/// ASCII whitespace (space, tab, line feed, vertical tab, form feed,
/// carriage return).
pub open spec fn is_ws(c: u8) -> bool {
    c == 32 || c == 9 || c == 10 || c == 11 || c == 12 || c == 13
}

/// Blank bytes that may pad a line (everything above except the newline).
pub open spec fn is_line_ws(c: u8) -> bool {
    c == 32 || c == 9 || c == 11 || c == 12 || c == 13
}

pub fn is_ws_exec(c: u8) -> (r: bool)
    ensures
        r == is_ws(c),
{
    c == 32 || c == 9 || c == 10 || c == 11 || c == 12 || c == 13
}

pub fn is_line_ws_exec(c: u8) -> (r: bool)
    ensures
        r == is_line_ws(c),
{
    c == 32 || c == 9 || c == 11 || c == 12 || c == 13
}

/// The lines of `s`: splitting at every newline byte. A text always has at
/// least one line; a trailing newline yields a final empty line.
pub open spec fn lines_of(s: Seq<u8>) -> Seq<Seq<u8>>
    decreases s.len(),
{
    if s.len() == 0 {
        seq![Seq::<u8>::empty()]
    } else {
        let rest = lines_of(s.drop_first());
        if s[0] == nl() {
            seq![Seq::<u8>::empty()] + rest
        } else {
            seq![seq![s[0]] + rest[0]] + rest.drop_first()
        }
    }
}

/// The inverse of `lines_of`: lines joined with single newlines.
pub open spec fn join_lines(ls: Seq<Seq<u8>>) -> Seq<u8>
    decreases ls.len(),
{
    if ls.len() == 0 {
        Seq::<u8>::empty()
    } else if ls.len() == 1 {
        ls[0]
    } else {
        ls[0] + seq![nl()] + join_lines(ls.drop_first())
    }
}

pub proof fn lemma_lines_nonempty(s: Seq<u8>)
    ensures
        lines_of(s).len() >= 1,
    decreases s.len(),
{
    if s.len() > 0 {
        lemma_lines_nonempty(s.drop_first());
    }
}

/// No line of a text contains a newline byte.
pub proof fn lemma_lines_no_nl(s: Seq<u8>)
    ensures
        forall|i: int, j: int|
            0 <= i < lines_of(s).len() && 0 <= j < lines_of(s)[i].len() ==> lines_of(s)[i][j]
                != nl(),
    decreases s.len(),
{
    if s.len() > 0 {
        lemma_lines_no_nl(s.drop_first());
        lemma_lines_nonempty(s.drop_first());
    }
}

/// A newline-free text is a single line.
pub proof fn lemma_lines_of_no_nl(s: Seq<u8>)
    requires
        forall|j: int| 0 <= j < s.len() ==> s[j] != nl(),
    ensures
        lines_of(s) == seq![s],
    decreases s.len(),
{
    if s.len() == 0 {
        assert(lines_of(s) =~~= seq![s]);
    } else {
        lemma_lines_of_no_nl(s.drop_first());
        assert(seq![s[0]] + s.drop_first() =~= s);
        assert(lines_of(s) =~~= seq![s]);
    }
}

/// Splitting at the first newline: the head line, then the lines of the
/// remainder.
pub proof fn lemma_lines_split_first(s: Seq<u8>, i: int)
    requires
        0 <= i < s.len(),
        s[i] == nl(),
        forall|j: int| 0 <= j < i ==> s[j] != nl(),
    ensures
        lines_of(s) == seq![s.take(i)] + lines_of(s.skip(i + 1)),
    decreases i,
{
    if i == 0 {
        assert(s.take(0) =~= Seq::<u8>::empty());
        assert(s.skip(1) =~= s.drop_first());
        assert(lines_of(s) =~~= seq![s.take(0)] + lines_of(s.skip(1)));
    } else {
        let s1 = s.drop_first();
        assert(s1[i - 1] == nl());
        lemma_lines_split_first(s1, i - 1);
        lemma_lines_nonempty(s1);
        assert(seq![s[0]] + s1.take(i - 1) =~= s.take(i));
        assert(s1.skip(i) =~= s.skip(i + 1));
        assert(lines_of(s) =~~= seq![s.take(i)] + lines_of(s.skip(i + 1)));
    }
}

/// Joining lines is its own splitting inverse.
pub proof fn lemma_join_lines_of(s: Seq<u8>)
    ensures
        join_lines(lines_of(s)) == s,
    decreases s.len(),
{
    if s.len() == 0 {
    } else {
        let s1 = s.drop_first();
        lemma_join_lines_of(s1);
        lemma_lines_nonempty(s1);
        let rest = lines_of(s1);
        if s[0] == nl() {
            let all = seq![Seq::<u8>::empty()] + rest;
            assert(lines_of(s) == all);
            assert(all.drop_first() =~~= rest);
            assert(all.len() >= 2);
            assert(join_lines(all) == all[0] + seq![nl()] + join_lines(rest));
            assert(all[0] + seq![nl()] + s1 =~= s);
        } else {
            let merged = seq![s[0]] + rest[0];
            let all = seq![merged] + rest.drop_first();
            assert(lines_of(s) == all);
            if rest.len() == 1 {
                assert(all.len() == 1);
                assert(join_lines(all) == merged);
                assert(join_lines(rest) == rest[0]);
                assert(merged =~= s);
            } else {
                assert(all.drop_first() =~~= rest.drop_first());
                assert(join_lines(all) == merged + seq![nl()] + join_lines(rest.drop_first()));
                assert(join_lines(rest) == rest[0] + seq![nl()] + join_lines(rest.drop_first()));
                assert(merged + seq![nl()] + join_lines(rest.drop_first()) =~= seq![s[0]] + (
                rest[0] + seq![nl()] + join_lines(rest.drop_first())));
                assert(seq![s[0]] + s1 =~= s);
            }
        }
    }
}

/// Appending one more line to a join.
pub proof fn lemma_join_push(ls: Seq<Seq<u8>>, x: Seq<u8>)
    ensures
        join_lines(ls.push(x)) == if ls.len() == 0 {
            x
        } else {
            join_lines(ls) + seq![nl()] + x
        },
    decreases ls.len(),
{
    if ls.len() == 0 {
        assert(ls.push(x).len() == 1);
        assert(join_lines(ls.push(x)) =~= x);
    } else if ls.len() == 1 {
        assert(ls.push(x).drop_first() =~~= seq![x]);
        assert(join_lines(seq![x]) == x);
        assert(join_lines(ls.push(x)) == ls.push(x)[0] + seq![nl()] + x);
        assert(join_lines(ls) == ls[0]);
        assert(ls.push(x)[0] == ls[0]);
    } else {
        lemma_join_push(ls.drop_first(), x);
        assert(ls.push(x).drop_first() =~~= ls.drop_first().push(x));
        assert(join_lines(ls.push(x)) =~= join_lines(ls) + seq![nl()] + x);
    }
}

/// The deep view of a byte vector is its plain view.
pub proof fn lemma_deep_view_bytes(v: Vec<u8>)
    ensures
        v.deep_view() == v@,
{
    assert(v.deep_view() =~= v@);
}

/// Equality of byte slices.
pub fn bytes_eq(a: &[u8], b: &[u8]) -> (r: bool)
    ensures
        r == (a@ == b@),
{
    if a.len() != b.len() {
        assert(a@ != b@);
        return false;
    }
    let n = a.len();
    let mut i: usize = 0;
    while i < n
        invariant
            0 <= i <= n,
            n == a@.len() == b@.len(),
            forall|j: int| 0 <= j < i ==> a@[j] == b@[j],
        decreases n - i,
    {
        if a[i] != b[i] {
            return false;
        }
        i = i + 1;
    }
    assert(a@ =~= b@);
    true
}

/// Does `s` begin with `p`?
pub fn starts_with(s: &[u8], p: &[u8]) -> (r: bool)
    ensures
        r == (p@.len() <= s@.len() && s@.take(p@.len() as int) == p@),
{
    if p.len() > s.len() {
        return false;
    }
    let n = p.len();
    let mut i: usize = 0;
    while i < n
        invariant
            0 <= i <= n,
            n == p@.len() <= s@.len(),
            forall|j: int| 0 <= j < i ==> s@[j] == p@[j],
        decreases n - i,
    {
        if s[i] != p[i] {
            assert(s@.take(p@.len() as int)[i as int] != p@[i as int]);
            return false;
        }
        i = i + 1;
    }
    assert(s@.take(p@.len() as int) =~= p@);
    true
}

/// Copy of the byte range `[a, b)` of `s`.
pub fn sub_bytes(s: &[u8], a: usize, b: usize) -> (r: Vec<u8>)
    requires
        a <= b <= s@.len(),
    ensures
        r@ == s@.subrange(a as int, b as int),
{
    let mut out: Vec<u8> = Vec::new();
    let mut i: usize = a;
    while i < b
        invariant
            a <= i <= b <= s@.len(),
            out@ =~= s@.subrange(a as int, i as int),
        decreases b - i,
    {
        out.push(s[i]);
        assert(out@ =~= s@.subrange(a as int, i + 1));
        i = i + 1;
    }
    out
}

/// Append all of `src` to `dst`.
pub fn push_all(dst: &mut Vec<u8>, src: &[u8])
    ensures
        final(dst)@ == old(dst)@ + src@,
{
    let n = src.len();
    let mut i: usize = 0;
    while i < n
        invariant
            0 <= i <= n,
            n == src@.len(),
            dst@ =~= old(dst)@ + src@.take(i as int),
        decreases n - i,
    {
        dst.push(src[i]);
        assert(dst@ =~= old(dst)@ + src@.take(i + 1));
        i = i + 1;
    }
    assert(dst@ =~= old(dst)@ + src@);
}

/// Split `s` into its lines.
pub fn split_lines(s: &[u8]) -> (r: Vec<Vec<u8>>)
    ensures
        r.deep_view() == lines_of(s@),
{
    let n = s.len();
    let mut out: Vec<Vec<u8>> = Vec::new();
    let mut start: usize = 0;
    let mut i: usize = 0;
    proof {
        assert(s@.skip(0) =~= s@);
        assert(out.deep_view() =~~= Seq::<Seq<u8>>::empty());
    }
    while i < n
        invariant
            0 <= start <= i <= n,
            n == s@.len(),
            forall|j: int| start <= j < i ==> s@[j] != nl(),
            lines_of(s@) =~~= out.deep_view() + lines_of(s@.skip(start as int)),
        decreases n - i,
    {
        if s[i] == 10 {
            let line = sub_bytes(s, start, i);
            let ghost prev = out.deep_view();
            proof {
                let tail = s@.skip(start as int);
                lemma_lines_split_first(tail, i - start);
                assert(tail.take(i - start) =~= s@.subrange(start as int, i as int));
                assert(tail.skip(i - start + 1) =~= s@.skip(i + 1));
            }
            out.push(line);
            proof {
                lemma_deep_view_bytes(line);
                assert(out.deep_view() =~~= prev.push(line@));
                assert(prev.push(line@) + lines_of(s@.skip(i + 1)) =~~= prev + (seq![line@]
                    + lines_of(s@.skip(i + 1))));
            }
            start = i + 1;
        }
        i = i + 1;
    }
    let last = sub_bytes(s, start, n);
    let ghost prev = out.deep_view();
    proof {
        let tail = s@.skip(start as int);
        lemma_lines_of_no_nl(tail);
        assert(tail =~= s@.subrange(start as int, n as int));
    }
    out.push(last);
    proof {
        lemma_deep_view_bytes(last);
        assert(out.deep_view() =~~= prev.push(last@));
        assert(lines_of(s@) =~~= out.deep_view());
    }
    out
}

/// Join lines with newlines, the inverse of `split_lines`.
pub fn join_lines_exec(ls: &Vec<Vec<u8>>) -> (r: Vec<u8>)
    ensures
        r@ == join_lines(ls.deep_view()),
{
    let n = ls.len();
    let mut out: Vec<u8> = Vec::new();
    let mut k: usize = 0;
    while k < n
        invariant
            0 <= k <= n,
            n == ls@.len(),
            ls.deep_view().len() == n,
            out@ =~= join_lines(ls.deep_view().take(k as int)),
        decreases n - k,
    {
        if k > 0 {
            out.push(10);
        }
        push_all(&mut out, ls[k].as_slice());
        proof {
            lemma_deep_view_bytes(ls@[k as int]);
            let pre = ls.deep_view().take(k as int);
            lemma_join_push(pre, ls.deep_view()[k as int]);
            assert(pre.push(ls.deep_view()[k as int]) =~~= ls.deep_view().take(k + 1));
            assert(out@ =~= join_lines(ls.deep_view().take(k + 1)));
        }
        k = k + 1;
    }
    proof {
        assert(ls.deep_view().take(n as int) =~~= ls.deep_view());
    }
    out
}

/// `s` without its trailing newlines.
pub open spec fn trim_trailing_nl(s: Seq<u8>) -> Seq<u8>
    decreases s.len(),
{
    if s.len() > 0 && s.last() == nl() {
        trim_trailing_nl(s.drop_last())
    } else {
        s
    }
}

pub fn trim_trailing_nl_exec(s: &[u8]) -> (r: Vec<u8>)
    ensures
        r@ == trim_trailing_nl(s@),
{
    let mut e = s.len();
    proof {
        assert(s@.take(s@.len() as int) =~= s@);
    }
    while e > 0 && s[e - 1] == 10
        invariant
            0 <= e <= s@.len(),
            trim_trailing_nl(s@) == trim_trailing_nl(s@.take(e as int)),
        decreases e,
    {
        proof {
            assert(s@.take(e as int).drop_last() =~= s@.take(e - 1));
        }
        e = e - 1;
    }
    proof {
        assert(s@.take(e as int).len() == e);
        if e > 0 {
            assert(s@.take(e as int).last() == s@[e - 1]);
        }
        assert(trim_trailing_nl(s@.take(e as int)) == s@.take(e as int));
    }
    sub_bytes(s, 0, e)
}

/// `s` without leading or trailing ASCII whitespace.
pub open spec fn trim_ws_end(s: Seq<u8>) -> Seq<u8>
    decreases s.len(),
{
    if s.len() > 0 && is_ws(s.last()) {
        trim_ws_end(s.drop_last())
    } else {
        s
    }
}

pub open spec fn trim_ws_start(s: Seq<u8>) -> Seq<u8>
    decreases s.len(),
{
    if s.len() > 0 && is_ws(s.first()) {
        trim_ws_start(s.drop_first())
    } else {
        s
    }
}

pub open spec fn trim_ws(s: Seq<u8>) -> Seq<u8> {
    trim_ws_start(trim_ws_end(s))
}

pub fn trim_ws_exec(s: &[u8]) -> (r: Vec<u8>)
    ensures
        r@ == trim_ws(s@),
{
    let mut e = s.len();
    proof {
        assert(s@.take(s@.len() as int) =~= s@);
    }
    while e > 0 && is_ws_exec(s[e - 1])
        invariant
            0 <= e <= s@.len(),
            trim_ws_end(s@) == trim_ws_end(s@.take(e as int)),
        decreases e,
    {
        proof {
            assert(s@.take(e as int).drop_last() =~= s@.take(e - 1));
        }
        e = e - 1;
    }
    proof {
        assert(s@.take(e as int).len() == e);
        if e > 0 {
            assert(s@.take(e as int).last() == s@[e - 1]);
        }
        assert(trim_ws_end(s@) == s@.take(e as int));
    }
    let ghost te = s@.take(e as int);
    let mut b: usize = 0;
    proof {
        assert(te.skip(0) =~= te);
    }
    while b < e && is_ws_exec(s[b])
        invariant
            0 <= b <= e <= s@.len(),
            te == s@.take(e as int),
            trim_ws_end(s@) == te,
            trim_ws_start(te) == trim_ws_start(te.skip(b as int)),
        decreases e - b,
    {
        proof {
            assert(te.skip(b as int).first() == s@[b as int]);
            assert(te.skip(b as int).drop_first() =~= te.skip(b + 1));
        }
        b = b + 1;
    }
    proof {
        if b < e {
            assert(te.skip(b as int).first() == s@[b as int]);
        }
        assert(trim_ws_start(te.skip(b as int)) == te.skip(b as int));
        assert(te.skip(b as int) =~= s@.subrange(b as int, e as int));
    }
    sub_bytes(s, b, e)
}

/// A line is blank when every byte is line whitespace.
pub open spec fn is_blank_after(line: Seq<u8>, k: int) -> bool {
    forall|j: int| k <= j < line.len() ==> is_line_ws(line[j])
}

/// Does this line read `---` up to trailing blanks?
pub open spec fn is_marker_line(line: Seq<u8>) -> bool {
    line.len() >= 3 && line[0] == 45 && line[1] == 45 && line[2] == 45 && is_blank_after(line, 3)
}

pub fn is_marker_line_exec(line: &[u8]) -> (r: bool)
    ensures
        r == is_marker_line(line@),
{
    if line.len() < 3 || line[0] != 45 || line[1] != 45 || line[2] != 45 {
        return false;
    }
    let n = line.len();
    let mut j: usize = 3;
    while j < n
        invariant
            3 <= j <= n,
            n == line@.len(),
            forall|t: int| 3 <= t < j ==> is_line_ws(line@[t]),
        decreases n - j,
    {
        if !is_line_ws_exec(line[j]) {
            return false;
        }
        j = j + 1;
    }
    true
}


/// `\r\n` pairs replaced by `\n`.
pub open spec fn normalize_crlf(s: Seq<u8>) -> Seq<u8>
    decreases s.len(),
{
    if s.len() >= 2 && s[0] == 13 && s[1] == 10 {
        seq![nl()] + normalize_crlf(s.skip(2))
    } else if s.len() >= 1 {
        seq![s[0]] + normalize_crlf(s.drop_first())
    } else {
        s
    }
}

pub fn normalize_crlf_exec(s: &[u8]) -> (r: Vec<u8>)
    ensures
        r@ == normalize_crlf(s@),
{
    let n = s.len();
    let mut out: Vec<u8> = Vec::new();
    let mut i: usize = 0;
    proof {
        assert(s@.skip(0) =~= s@);
    }
    while i < n
        invariant
            0 <= i <= n,
            n == s@.len(),
            normalize_crlf(s@) =~= out@ + normalize_crlf(s@.skip(i as int)),
        decreases n - i,
    {
        let ghost tail = s@.skip(i as int);
        if s[i] == 13 && i + 1 < n && s[i + 1] == 10 {
            out.push(10);
            proof {
                assert(tail[0] == 13 && tail[1] == 10);
                assert(tail.skip(2) =~= s@.skip(i + 2));
            }
            i = i + 2;
        } else {
            out.push(s[i]);
            proof {
                assert(tail.drop_first() =~= s@.skip(i + 1));
                if tail.len() >= 2 && tail[0] == 13 && tail[1] == 10 {
                    assert(false);
                }
            }
            i = i + 1;
        }
    }
    proof {
        assert(s@.skip(n as int) =~= Seq::<u8>::empty());
        assert(out@ =~= normalize_crlf(s@));
    }
    out
}

/// Join the lines `[a, b)` of `ls` with newlines.
pub fn join_lines_range(ls: &Vec<Vec<u8>>, a: usize, b: usize) -> (r: Vec<u8>)
    requires
        a <= b <= ls@.len(),
    ensures
        r@ == join_lines(ls.deep_view().subrange(a as int, b as int)),
{
    let mut out: Vec<u8> = Vec::new();
    let mut k: usize = a;
    proof {
        assert(ls.deep_view().subrange(a as int, a as int) =~~= Seq::<Seq<u8>>::empty());
    }
    while k < b
        invariant
            a <= k <= b <= ls@.len(),
            ls.deep_view().len() == ls@.len(),
            out@ =~= join_lines(ls.deep_view().subrange(a as int, k as int)),
        decreases b - k,
    {
        if k > a {
            out.push(10);
        }
        push_all(&mut out, ls[k].as_slice());
        proof {
            lemma_deep_view_bytes(ls@[k as int]);
            let pre = ls.deep_view().subrange(a as int, k as int);
            lemma_join_push(pre, ls.deep_view()[k as int]);
            assert(pre.push(ls.deep_view()[k as int]) =~~= ls.deep_view().subrange(
                a as int,
                k + 1,
            ));
        }
        k = k + 1;
    }
    out
}

/// Joining newline-free lines then splitting gives the lines back.
pub proof fn lemma_lines_of_join(ls: Seq<Seq<u8>>)
    requires
        ls.len() >= 1,
        forall|i: int, j: int| 0 <= i < ls.len() && 0 <= j < ls[i].len() ==> ls[i][j] != nl(),
    ensures
        lines_of(join_lines(ls)) == ls,
    decreases ls.len(),
{
    if ls.len() == 1 {
        lemma_lines_of_no_nl(ls[0]);
        assert(lines_of(join_lines(ls)) =~~= ls);
    } else {
        lemma_lines_of_join(ls.drop_first());
        let rest = join_lines(ls.drop_first());
        let whole = ls[0] + seq![nl()] + rest;
        assert(join_lines(ls) == whole);
        let hd = ls[0].len() as int;
        assert(whole[hd] == nl());
        assert(forall|j: int| 0 <= j < hd ==> whole[j] != nl());
        lemma_lines_split_first(whole, hd);
        assert(whole.take(hd) =~= ls[0]);
        assert(whole.skip(hd + 1) =~= rest);
        assert(lines_of(join_lines(ls)) =~~= ls);
    }
}

/// Appending a newline appends an empty line.
pub proof fn lemma_lines_push_nl(s: Seq<u8>)
    ensures
        lines_of(s.push(nl())) == lines_of(s).push(Seq::<u8>::empty()),
    decreases s.len(),
{
    if s.len() == 0 {
        let e = Seq::<u8>::empty();
        assert(s.push(nl()).len() == 1);
        assert(s.push(nl())[0] == nl());
        assert(s.push(nl()).drop_first() =~= e);
        assert(lines_of(e) == seq![e]);
        assert(lines_of(s.push(nl())) == seq![e] + lines_of(s.push(nl()).drop_first()));
        assert(seq![e] + seq![e] =~~= seq![e].push(e));
        assert(lines_of(s) == seq![e]);
    } else {
        lemma_lines_push_nl(s.drop_first());
        lemma_lines_nonempty(s.drop_first());
        assert(s.push(nl()).drop_first() =~= s.drop_first().push(nl()));
        assert(s.push(nl())[0] == s[0]);
        let rest = lines_of(s.drop_first());
        assert(lines_of(s.drop_first().push(nl())) == rest.push(Seq::<u8>::empty()));
        if s[0] == nl() {
            assert((seq![Seq::<u8>::empty()] + rest).push(Seq::<u8>::empty()) =~~= seq![Seq::<
                u8,
            >::empty()] + rest.push(Seq::<u8>::empty()));
            assert(lines_of(s.push(nl())) =~~= lines_of(s).push(Seq::<u8>::empty()));
        } else {
            assert(rest.push(Seq::<u8>::empty())[0] == rest[0]);
            assert(rest.push(Seq::<u8>::empty()).drop_first() =~~= rest.drop_first().push(
                Seq::<u8>::empty(),
            ));
            assert(lines_of(s.push(nl())) =~~= lines_of(s).push(Seq::<u8>::empty()));
        }
    }
}

/// Trailing empty lines removed (at least one line always remains).
pub open spec fn strip_empty_suffix(ls: Seq<Seq<u8>>) -> Seq<Seq<u8>>
    decreases ls.len(),
{
    if ls.len() > 1 && ls.last().len() == 0 {
        strip_empty_suffix(ls.drop_last())
    } else {
        ls
    }
}

/// `strip_empty_suffix` only removes empty lines from the end.
pub proof fn lemma_strip_empty_suffix(ls: Seq<Seq<u8>>)
    ensures
        strip_empty_suffix(ls).len() <= ls.len(),
        ls.len() >= 1 ==> strip_empty_suffix(ls).len() >= 1,
        strip_empty_suffix(ls) == ls.take(strip_empty_suffix(ls).len() as int),
        forall|j: int| strip_empty_suffix(ls).len() <= j < ls.len() ==> ls[j].len() == 0,
    decreases ls.len(),
{
    if ls.len() > 1 && ls.last().len() == 0 {
        lemma_strip_empty_suffix(ls.drop_last());
        assert(strip_empty_suffix(ls) == strip_empty_suffix(ls.drop_last()));
        assert(ls.drop_last().take(strip_empty_suffix(ls).len() as int) =~~= ls.take(
            strip_empty_suffix(ls).len() as int,
        ));
        assert forall|j: int| strip_empty_suffix(ls).len() <= j < ls.len() implies ls[j].len()
            == 0 by {
            if j < ls.len() - 1 {
                assert(ls[j] == ls.drop_last()[j]);
            }
        }
    } else {
        assert(strip_empty_suffix(ls) =~~= ls.take(ls.len() as int));
    }
}

/// The last line of a text that does not end in a newline is nonempty.
pub proof fn lemma_last_line_nonempty(s: Seq<u8>)
    requires
        s.len() > 0,
        s.last() != nl(),
    ensures
        lines_of(s).last().len() > 0,
    decreases s.len(),
{
    if s.len() == 1 {
        assert(s.drop_first().len() == 0);
        assert(lines_of(s.drop_first()) == seq![Seq::<u8>::empty()]);
        assert(lines_of(s).last() =~= seq![s[0]]);
    } else {
        lemma_last_line_nonempty(s.drop_first());
        lemma_lines_nonempty(s.drop_first());
        let rest = lines_of(s.drop_first());
        if s[0] == nl() {
            assert(lines_of(s).last() == rest.last());
        } else {
            if rest.len() == 1 {
                assert(lines_of(s).last() == seq![s[0]] + rest[0]);
                assert(rest.last() == rest[0]);
            } else {
                assert(lines_of(s).last() == rest.drop_first().last());
                assert(rest.drop_first().last() == rest.last());
            }
        }
    }
}

/// Trimming trailing newlines strips exactly the trailing empty lines.
pub proof fn lemma_trim_nl_lines(s: Seq<u8>)
    ensures
        lines_of(trim_trailing_nl(s)) == strip_empty_suffix(lines_of(s)),
    decreases s.len(),
{
    if s.len() > 0 && s.last() == nl() {
        lemma_trim_nl_lines(s.drop_last());
        assert(s.drop_last().push(nl()) =~= s);
        lemma_lines_push_nl(s.drop_last());
        lemma_lines_nonempty(s.drop_last());
        assert(lines_of(s) == lines_of(s.drop_last()).push(Seq::<u8>::empty()));
        assert(lines_of(s).len() > 1 && lines_of(s).last().len() == 0);
        assert(lines_of(s).drop_last() =~~= lines_of(s.drop_last()));
    } else {
        if s.len() == 0 {
        } else {
            lemma_last_line_nonempty(s);
            lemma_lines_nonempty(s);
        }
    }
}

} // verus!
