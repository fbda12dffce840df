//! Template expansion: the built-in `{{title}}` and `{{date}}` variables,
//! and the framing of `{{$(...)}}` command substitutions. The engine only
//! locates and checks command spans; whoever runs them splices the
//! outputs back between the surrounding text parts.

use crate::error::SproutError;
use crate::text::push_all;
use vstd::string::StringSliceAdditionalSpecFns;
use crate::text::sub_bytes;
use vstd::prelude::*;

verus! {

/// Every occurrence of `pat` replaced by `rep`, scanning left to right
/// without rescanning what was substituted.
pub open spec fn replace_all(s: Seq<u8>, pat: Seq<u8>, rep: Seq<u8>) -> Seq<u8>
    decreases s.len(),
{
    if pat.len() == 0 || s.len() < pat.len() {
        s
    } else if s.take(pat.len() as int) == pat {
        rep + replace_all(s.skip(pat.len() as int), pat, rep)
    } else {
        seq![s[0]] + replace_all(s.drop_first(), pat, rep)
    }
}

/// Replace every occurrence of `pat` by `rep`.
pub fn replace_all_exec(s: &[u8], pat: &[u8], rep: &[u8]) -> (r: Vec<u8>)
    requires
        pat@.len() >= 1,
    ensures
        r@ == replace_all(s@, pat@, rep@),
{
    let n = s.len();
    let pl = pat.len();
    let mut out: Vec<u8> = Vec::new();
    let mut i: usize = 0;
    proof {
        assert(s@.skip(0) =~= s@);
    }
    while i < n
        invariant
            0 <= i <= n,
            n == s@.len(),
            pl == pat@.len() >= 1,
            replace_all(s@, pat@, rep@) =~= out@ + replace_all(s@.skip(i as int), pat@, rep@),
        decreases n - i,
    {
        let ghost tail = s@.skip(i as int);
        if pl <= n && i <= n - pl && crate::text::starts_with(
            sub_bytes(s, i, i + pl).as_slice(),
            pat,
        ) {
            proof {
                assert(s@.subrange(i as int, i + pl).take(pl as int) =~= s@.subrange(
                    i as int,
                    i + pl,
                ));
                assert(tail.take(pl as int) =~= s@.subrange(i as int, i + pl));
                assert(tail.skip(pl as int) =~= s@.skip(i + pl));
            }
            push_all(&mut out, rep);
            i = i + pl;
        } else {
            proof {
                if tail.len() >= pl {
                    assert(tail.take(pl as int) =~= s@.subrange(i as int, i + pl));
                    assert(s@.subrange(i as int, i + pl).take(pl as int) =~= s@.subrange(
                        i as int,
                        i + pl,
                    ));
                }
                assert(tail.drop_first() =~= s@.skip(i + 1));
                assert(tail[0] == s@[i as int]);
            }
            out.push(s[i]);
            i = i + 1;
        }
    }
    proof {
        assert(s@.skip(n as int) =~= Seq::<u8>::empty());
        assert(out@ =~= replace_all(s@, pat@, rep@));
    }
    out
}

pub open spec fn spec_title_pat() -> Seq<u8> {
    seq![123u8, 123u8, 116u8, 105u8, 116u8, 108u8, 101u8, 125u8, 125u8]
}

pub open spec fn spec_date_pat() -> Seq<u8> {
    seq![123u8, 123u8, 100u8, 97u8, 116u8, 101u8, 125u8, 125u8]
}

/// Expand the built-in variables: every `{{title}}` becomes the title,
/// then every `{{date}}` in the result becomes the date. Command spans
/// `{{$(...)}}` pass through untouched.
pub fn expand(template: &[u8], title: &[u8], date: &[u8]) -> (r: Vec<u8>)
    ensures
        r@ == replace_all(
            replace_all(template@, spec_title_pat(), title@),
            spec_date_pat(),
            date@,
        ),
{
    let mut tp: Vec<u8> = Vec::new();
    tp.push(123);
    tp.push(123);
    tp.push(116);
    tp.push(105);
    tp.push(116);
    tp.push(108);
    tp.push(101);
    tp.push(125);
    tp.push(125);
    proof {
        assert(tp@ =~= spec_title_pat());
    }
    let mut dp: Vec<u8> = Vec::new();
    dp.push(123);
    dp.push(123);
    dp.push(100);
    dp.push(97);
    dp.push(116);
    dp.push(101);
    dp.push(125);
    dp.push(125);
    proof {
        assert(dp@ =~= spec_date_pat());
    }
    let pass1 = replace_all_exec(template, tp.as_slice(), title);
    replace_all_exec(pass1.as_slice(), dp.as_slice(), date)
}

/// Index of the first occurrence of `pat` in `s`, or `s.len()` when it
/// does not occur.
pub open spec fn find_sub(s: Seq<u8>, pat: Seq<u8>) -> int
    decreases s.len(),
{
    if pat.len() == 0 {
        0
    } else if s.len() < pat.len() {
        s.len() as int
    } else if s.take(pat.len() as int) == pat {
        0
    } else {
        1 + find_sub(s.drop_first(), pat)
    }
}

pub proof fn lemma_find_sub_range(s: Seq<u8>, pat: Seq<u8>)
    requires
        pat.len() >= 1,
    ensures
        0 <= find_sub(s, pat) <= s.len(),
        find_sub(s, pat) < s.len() ==> find_sub(s, pat) + pat.len() <= s.len(),
    decreases s.len(),
{
    if s.len() >= pat.len() && s.take(pat.len() as int) != pat {
        lemma_find_sub_range(s.drop_first(), pat);
    }
}

fn find_sub_exec(s: &[u8], pat: &[u8]) -> (r: usize)
    requires
        pat@.len() >= 1,
    ensures
        r == find_sub(s@, pat@),
{
    let n = s.len();
    let pl = pat.len();
    let mut i: usize = 0;
    proof {
        assert(s@.skip(0) =~= s@);
    }
    while pl <= n && i <= n - pl
        invariant
            0 <= i <= n,
            n == s@.len(),
            pl == pat@.len() >= 1,
            find_sub(s@, pat@) == i + find_sub(s@.skip(i as int), pat@),
        decreases n - i,
    {
        let ghost tail = s@.skip(i as int);
        proof {
            assert(tail.take(pl as int) =~= s@.subrange(i as int, i + pl));
            assert(s@.subrange(i as int, i + pl).take(pl as int) =~= s@.subrange(
                i as int,
                i + pl,
            ));
            assert(tail.drop_first() =~= s@.skip(i + 1));
        }
        if crate::text::starts_with(sub_bytes(s, i, i + pl).as_slice(), pat) {
            return i;
        }
        i = i + 1;
    }
    proof {
        assert(s@.skip(i as int).len() < pl);
    }
    n
}

pub open spec fn spec_open_pat() -> Seq<u8> {
    seq![123u8, 123u8, 36u8, 40u8]
}

pub open spec fn spec_close_pat() -> Seq<u8> {
    seq![41u8, 125u8, 125u8]
}

/// The command spans of a template: pairs of (text before, command),
/// then the text after the last span. `None` when a `{{$(` is never
/// closed by `)}}`.
pub open spec fn split_cmds(s: Seq<u8>) -> Option<(Seq<(Seq<u8>, Seq<u8>)>, Seq<u8>)>
    decreases s.len(),
{
    let i = find_sub(s, spec_open_pat());
    if i == s.len() {
        Some((Seq::empty(), s))
    } else {
        let after = s.skip(i + 4);
        let j = find_sub(after, spec_close_pat());
        if j == after.len() {
            None
        } else {
            let rest = after.skip(j + 3);
            let q = if rest.len() < s.len() {
                rest
            } else {
                Seq::<u8>::empty()
            };
            match split_cmds(q) {
                Some((pairs, last)) => Some(
                    (seq![(s.take(i), after.take(j))] + pairs, last),
                ),
                None => None,
            }
        }
    }
}

/// Locate every `{{$(...)}}` span: the texts around the spans and the
/// commands inside them, or the unclosed-span error. A template with no
/// spans comes back whole as the single trailing text.
pub fn split_template_commands(template: &[u8]) -> (r: Result<
    (Vec<(Vec<u8>, Vec<u8>)>, Vec<u8>),
    SproutError,
>)
    ensures
        match r {
            Ok((pairs, last)) => split_cmds(template@) == Some(
                (crate::frontmatter::updates_view(pairs@), last@),
            ),
            Err(e) => split_cmds(template@) is None && (e matches SproutError::ParseError(p) && p@
                == "unclosed {{$(...)}} in template"@),
        },
{
    let mut op: Vec<u8> = Vec::new();
    op.push(123);
    op.push(123);
    op.push(36);
    op.push(40);
    proof {
        assert(op@ =~= spec_open_pat());
    }
    let mut cp: Vec<u8> = Vec::new();
    cp.push(41);
    cp.push(125);
    cp.push(125);
    proof {
        assert(cp@ =~= spec_close_pat());
    }
    let mut pairs: Vec<(Vec<u8>, Vec<u8>)> = Vec::new();
    let mut cur = sub_bytes(template, 0, template.len());
    proof {
        assert(cur@ =~= template@);
        assert(crate::frontmatter::updates_view(pairs@) =~~= Seq::<(Seq<u8>, Seq<u8>)>::empty());
        match split_cmds(template@) {
            Some((ps, last)) => {
                assert(crate::frontmatter::updates_view(pairs@) + ps =~~= ps);
            },
            None => {},
        }
    }
    loop
        invariant_except_break
            op@ == spec_open_pat(),
            cp@ == spec_close_pat(),
            ({
                match split_cmds(template@) {
                    Some((ps, last)) => split_cmds(cur@) matches Some((ps2, last2)) && ps
                        =~~= crate::frontmatter::updates_view(pairs@) + ps2 && last == last2,
                    None => split_cmds(cur@) is None,
                }
            }),
        ensures
            match split_cmds(template@) {
                Some((ps, last)) => ps == crate::frontmatter::updates_view(pairs@) && last == cur@,
                None => false,
            },
        decreases cur@.len(),
    {
        let i = find_sub_exec(cur.as_slice(), op.as_slice());
        proof {
            lemma_find_sub_range(cur@, spec_open_pat());
        }
        if i == cur.len() {
            proof {
                let ghost e: Seq<(Seq<u8>, Seq<u8>)> = Seq::empty();
                assert(crate::frontmatter::updates_view(pairs@) + e =~~=
                    crate::frontmatter::updates_view(pairs@));
            }
            break ;
        }
        let after = sub_bytes(cur.as_slice(), i + 4, cur.len());
        proof {
            assert(after@ =~= cur@.skip(i + 4));
        }
        let j = find_sub_exec(after.as_slice(), cp.as_slice());
        proof {
            lemma_find_sub_range(after@, spec_close_pat());
        }
        if j == after.len() {
            return Err(SproutError::ParseError("unclosed {{$(...)}} in template".to_owned()));
        }
        let text = sub_bytes(cur.as_slice(), 0, i);
        let cmd = sub_bytes(after.as_slice(), 0, j);
        let rest = sub_bytes(after.as_slice(), j + 3, after.len());
        let ghost prev_pairs = crate::frontmatter::updates_view(pairs@);
        let ghost prev_cur = cur@;
        pairs.push((text, cmd));
        cur = rest;
        proof {
            assert(text@ =~= prev_cur.take(i as int));
            assert(cmd@ =~= prev_cur.skip(i + 4).take(j as int));
            assert(cur@ =~= prev_cur.skip(i + 4).skip(j + 3));
            assert(cur@.len() < prev_cur.len());
            assert(crate::frontmatter::updates_view(pairs@) =~~= prev_pairs.push(
                (text@, cmd@),
            ));
            match split_cmds(template@) {
                Some((ps, last)) => {
                    assert(split_cmds(prev_cur) matches Some((ps2, last2)) && ps =~~= prev_pairs
                        + ps2 && last == last2);
                    let (ps2, last2) = split_cmds(prev_cur)->Some_0;
                    assert(split_cmds(prev_cur) == Some(
                        (seq![(prev_cur.take(i as int), prev_cur.skip(i + 4).take(j as int))]
                            + split_cmds(cur@)->Some_0.0, split_cmds(cur@)->Some_0.1),
                    ));
                    assert(prev_pairs + ps2 =~~= (prev_pairs + seq![(text@, cmd@)]) + split_cmds(
                        cur@,
                    )->Some_0.0);
                    assert(prev_pairs + seq![(text@, cmd@)] =~~= prev_pairs.push((text@, cmd@)));
                },
                None => {
                    assert(split_cmds(cur@) is None);
                },
            }
        }
    }
    Ok((pairs, cur))
}

/// A title is valid when it is nonempty and free of path separators, null
/// bytes, and `..` sequences.
pub open spec fn valid_title(t: Seq<u8>) -> bool {
    &&& t.len() > 0
    &&& forall|j: int| 0 <= j < t.len() ==> t[j] != 47 && t[j] != 92 && t[j] != 0
    &&& forall|j: int| 0 <= j && j + 1 < t.len() ==> !(#[trigger] t[j] == 46 && t[j + 1] == 46)
}

/// Reject titles that could escape the vault or break a file name:
/// empty, containing a slash, backslash or null byte, or containing `..`.
pub fn validate_title(title: &str) -> (r: Result<(), SproutError>)
    ensures
        r is Ok <==> valid_title(title.spec_bytes()),
        match r {
            Ok(_) => true,
            Err(e) => e matches SproutError::InvalidTitle(p) && (title.spec_bytes().len() == 0
                ==> p@ == "(empty)"@) && (title.spec_bytes().len() != 0 ==> p@ == title@),
        },
{
    let b = title.as_bytes();
    let n = b.len();
    if n == 0 {
        return Err(SproutError::InvalidTitle("(empty)".to_owned()));
    }
    let mut j: usize = 0;
    while j < n
        invariant
            0 <= j <= n,
            n == title.spec_bytes().len(),
            b@ == title.spec_bytes(),
            forall|t: int| 0 <= t < j ==> b@[t] != 47 && b@[t] != 92 && b@[t] != 0,
            forall|t: int| 0 <= t < j && t + 1 < n ==> !(#[trigger] b@[t] == 46 && b@[t + 1] == 46),
        decreases n - j,
    {
        let c = b[j];
        if c == 47 || c == 92 || c == 0 {
            return Err(SproutError::InvalidTitle(title.to_owned()));
        }
        if c == 46 && j + 1 < n && b[j + 1] == 46 {
            return Err(SproutError::InvalidTitle(title.to_owned()));
        }
        j = j + 1;
    }
    Ok(())
}

} // verus!
