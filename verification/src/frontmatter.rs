//! The metadata codec: reading a note's structured prefix block and
//! rewriting single fields inside it.
//!
//! Mutation is field-scoped textual substitution, never re-serialization:
//! only the value token of the addressed `key:` line changes, so unknown
//! keys, inline comments, ordering and spacing survive a round trip
//! untouched.

use crate::date::Date;
use crate::num::centi_val;
use crate::num::dec_val;
use crate::num::is_digits;
use crate::text::bytes_eq;
use crate::text::is_line_ws;
use crate::text::is_line_ws_exec;
use crate::text::is_marker_line;
use crate::text::is_marker_line_exec;
use crate::text::join_lines;
use crate::text::join_lines_exec;
use crate::text::lemma_deep_view_bytes;
use crate::text::lemma_join_lines_of;
use crate::text::lemma_lines_of_no_nl;
use crate::text::lemma_lines_split_first;
use crate::text::lines_of;
use crate::text::nl;
use crate::text::push_all;
use crate::text::split_lines;
use crate::text::starts_with;
use crate::text::sub_bytes;
use crate::text::trim_trailing_nl;
use crate::text::trim_trailing_nl_exec;
use vstd::prelude::*;

verus! {

// ---------------------------------------------------------------------
// The six recognized keys and the maturity words, as byte strings.

pub open spec fn spec_maturity_text() -> Seq<u8> {
    seq![109u8, 97u8, 116u8, 117u8, 114u8, 105u8, 116u8, 121u8]
}

/// The byte string `maturity`.
pub fn maturity_text() -> (r: Vec<u8>)
    ensures
        r@ == spec_maturity_text(),
{
    let mut v: Vec<u8> = Vec::new();
    v.push(109);
    v.push(97);
    v.push(116);
    v.push(117);
    v.push(114);
    v.push(105);
    v.push(116);
    v.push(121);
    proof {
        assert(v@ =~= spec_maturity_text());
    }
    v
}

pub open spec fn spec_created_text() -> Seq<u8> {
    seq![99u8, 114u8, 101u8, 97u8, 116u8, 101u8, 100u8]
}

/// The byte string `created`.
pub fn created_text() -> (r: Vec<u8>)
    ensures
        r@ == spec_created_text(),
{
    let mut v: Vec<u8> = Vec::new();
    v.push(99);
    v.push(114);
    v.push(101);
    v.push(97);
    v.push(116);
    v.push(101);
    v.push(100);
    proof {
        assert(v@ =~= spec_created_text());
    }
    v
}

pub open spec fn spec_last_review_text() -> Seq<u8> {
    seq![108u8, 97u8, 115u8, 116u8, 95u8, 114u8, 101u8, 118u8, 105u8, 101u8, 119u8]
}

/// The byte string `last_review`.
pub fn last_review_text() -> (r: Vec<u8>)
    ensures
        r@ == spec_last_review_text(),
{
    let mut v: Vec<u8> = Vec::new();
    v.push(108);
    v.push(97);
    v.push(115);
    v.push(116);
    v.push(95);
    v.push(114);
    v.push(101);
    v.push(118);
    v.push(105);
    v.push(101);
    v.push(119);
    proof {
        assert(v@ =~= spec_last_review_text());
    }
    v
}

pub open spec fn spec_interval_text() -> Seq<u8> {
    seq![114u8, 101u8, 118u8, 105u8, 101u8, 119u8, 95u8, 105u8, 110u8, 116u8, 101u8, 114u8, 118u8, 97u8, 108u8]
}

/// The byte string `review_interval`.
pub fn interval_text() -> (r: Vec<u8>)
    ensures
        r@ == spec_interval_text(),
{
    let mut v: Vec<u8> = Vec::new();
    v.push(114);
    v.push(101);
    v.push(118);
    v.push(105);
    v.push(101);
    v.push(119);
    v.push(95);
    v.push(105);
    v.push(110);
    v.push(116);
    v.push(101);
    v.push(114);
    v.push(118);
    v.push(97);
    v.push(108);
    proof {
        assert(v@ =~= spec_interval_text());
    }
    v
}

pub open spec fn spec_next_review_text() -> Seq<u8> {
    seq![110u8, 101u8, 120u8, 116u8, 95u8, 114u8, 101u8, 118u8, 105u8, 101u8, 119u8]
}

/// The byte string `next_review`.
pub fn next_review_text() -> (r: Vec<u8>)
    ensures
        r@ == spec_next_review_text(),
{
    let mut v: Vec<u8> = Vec::new();
    v.push(110);
    v.push(101);
    v.push(120);
    v.push(116);
    v.push(95);
    v.push(114);
    v.push(101);
    v.push(118);
    v.push(105);
    v.push(101);
    v.push(119);
    proof {
        assert(v@ =~= spec_next_review_text());
    }
    v
}

pub open spec fn spec_ease_text() -> Seq<u8> {
    seq![101u8, 97u8, 115u8, 101u8]
}

/// The byte string `ease`.
pub fn ease_text() -> (r: Vec<u8>)
    ensures
        r@ == spec_ease_text(),
{
    let mut v: Vec<u8> = Vec::new();
    v.push(101);
    v.push(97);
    v.push(115);
    v.push(101);
    proof {
        assert(v@ =~= spec_ease_text());
    }
    v
}

pub open spec fn spec_seedling_text() -> Seq<u8> {
    seq![115u8, 101u8, 101u8, 100u8, 108u8, 105u8, 110u8, 103u8]
}

/// The byte string `seedling`.
pub fn seedling_text() -> (r: Vec<u8>)
    ensures
        r@ == spec_seedling_text(),
{
    let mut v: Vec<u8> = Vec::new();
    v.push(115);
    v.push(101);
    v.push(101);
    v.push(100);
    v.push(108);
    v.push(105);
    v.push(110);
    v.push(103);
    proof {
        assert(v@ =~= spec_seedling_text());
    }
    v
}

pub open spec fn spec_budding_text() -> Seq<u8> {
    seq![98u8, 117u8, 100u8, 100u8, 105u8, 110u8, 103u8]
}

/// The byte string `budding`.
pub fn budding_text() -> (r: Vec<u8>)
    ensures
        r@ == spec_budding_text(),
{
    let mut v: Vec<u8> = Vec::new();
    v.push(98);
    v.push(117);
    v.push(100);
    v.push(100);
    v.push(105);
    v.push(110);
    v.push(103);
    proof {
        assert(v@ =~= spec_budding_text());
    }
    v
}

pub open spec fn spec_evergreen_text() -> Seq<u8> {
    seq![101u8, 118u8, 101u8, 114u8, 103u8, 114u8, 101u8, 101u8, 110u8]
}

/// The byte string `evergreen`.
pub fn evergreen_text() -> (r: Vec<u8>)
    ensures
        r@ == spec_evergreen_text(),
{
    let mut v: Vec<u8> = Vec::new();
    v.push(101);
    v.push(118);
    v.push(101);
    v.push(114);
    v.push(103);
    v.push(114);
    v.push(101);
    v.push(101);
    v.push(110);
    proof {
        assert(v@ =~= spec_evergreen_text());
    }
    v
}

// ---------------------------------------------------------------------
// Field grammar on a single line: `key`, optional blanks, `:`, optional
// blanks, a value token, then anything (an inline comment stays).

/// First index at or after `i` that is not a blank byte.
pub open spec fn skip_ws_from(line: Seq<u8>, i: int) -> int
    decreases line.len() - i,
{
    if 0 <= i < line.len() && is_line_ws(line[i]) {
        skip_ws_from(line, i + 1)
    } else {
        i
    }
}

/// First index at or after `i` that ends the value token (a blank byte or
/// the end of the line).
pub open spec fn token_end_from(line: Seq<u8>, i: int) -> int
    decreases line.len() - i,
{
    if 0 <= i < line.len() && !is_line_ws(line[i]) {
        token_end_from(line, i + 1)
    } else {
        i
    }
}

pub proof fn lemma_skip_ws_from(line: Seq<u8>, i: int)
    requires
        0 <= i <= line.len(),
    ensures
        i <= skip_ws_from(line, i) <= line.len(),
        forall|j: int| i <= j < skip_ws_from(line, i) ==> is_line_ws(line[j]),
        skip_ws_from(line, i) < line.len() ==> !is_line_ws(line[skip_ws_from(line, i)]),
    decreases line.len() - i,
{
    if i < line.len() && is_line_ws(line[i]) {
        lemma_skip_ws_from(line, i + 1);
    }
}

pub proof fn lemma_token_end_from(line: Seq<u8>, i: int)
    requires
        0 <= i <= line.len(),
    ensures
        i <= token_end_from(line, i) <= line.len(),
        forall|j: int| i <= j < token_end_from(line, i) ==> !is_line_ws(line[j]),
        token_end_from(line, i) < line.len() ==> is_line_ws(line[token_end_from(line, i)]),
    decreases line.len() - i,
{
    if i < line.len() && !is_line_ws(line[i]) {
        lemma_token_end_from(line, i + 1);
    }
}

fn skip_ws_from_exec(line: &[u8], i: usize) -> (r: usize)
    requires
        i <= line@.len(),
    ensures
        r == skip_ws_from(line@, i as int),
{
    let n = line.len();
    let mut r = i;
    while r < n && is_line_ws_exec(line[r])
        invariant
            i <= r <= n,
            n == line@.len(),
            skip_ws_from(line@, i as int) == skip_ws_from(line@, r as int),
        decreases n - r,
    {
        r = r + 1;
    }
    r
}

fn token_end_from_exec(line: &[u8], i: usize) -> (r: usize)
    requires
        i <= line@.len(),
    ensures
        r == token_end_from(line@, i as int),
{
    let n = line.len();
    let mut r = i;
    while r < n && !is_line_ws_exec(line[r])
        invariant
            i <= r <= n,
            n == line@.len(),
            token_end_from(line@, i as int) == token_end_from(line@, r as int),
        decreases n - r,
    {
        r = r + 1;
    }
    r
}

/// Does the line begin with `key`, then blanks, then `:`?
pub open spec fn is_key_line(line: Seq<u8>, key: Seq<u8>) -> bool {
    &&& key.len() <= line.len()
    &&& line.take(key.len() as int) == key
    &&& skip_ws_from(line, key.len() as int) < line.len()
    &&& line[skip_ws_from(line, key.len() as int)] == 58
}

/// Start of the value token: first non-blank after the colon.
pub open spec fn value_start(line: Seq<u8>, key: Seq<u8>) -> int {
    skip_ws_from(line, skip_ws_from(line, key.len() as int) + 1)
}

/// A key line whose value token exists.
pub open spec fn has_value_token(line: Seq<u8>, key: Seq<u8>) -> bool {
    is_key_line(line, key) && value_start(line, key) < line.len()
}

pub open spec fn value_end(line: Seq<u8>, key: Seq<u8>) -> int {
    token_end_from(line, value_start(line, key))
}

/// The value token of a key line.
pub open spec fn line_value(line: Seq<u8>, key: Seq<u8>) -> Seq<u8> {
    line.subrange(value_start(line, key), value_end(line, key))
}

/// The line with only its value token replaced.
pub open spec fn rewritten_line(line: Seq<u8>, key: Seq<u8>, val: Seq<u8>) -> Seq<u8> {
    line.take(value_start(line, key)) + val + line.skip(value_end(line, key))
}

pub fn is_key_line_exec(line: &[u8], key: &[u8]) -> (r: bool)
    ensures
        r == is_key_line(line@, key@),
{
    if !starts_with(line, key) {
        return false;
    }
    let c = skip_ws_from_exec(line, key.len());
    proof {
        lemma_skip_ws_from(line@, key@.len() as int);
    }
    c < line.len() && line[c] == 58
}

pub fn has_value_token_exec(line: &[u8], key: &[u8]) -> (r: bool)
    ensures
        r == has_value_token(line@, key@),
{
    if !is_key_line_exec(line, key) {
        return false;
    }
    let c = skip_ws_from_exec(line, key.len());
    proof {
        lemma_skip_ws_from(line@, key@.len() as int);
    }
    let n = line.len();
    assert(c < n);
    let vs = skip_ws_from_exec(line, c + 1);
    proof {
        lemma_skip_ws_from(line@, c + 1);
    }
    vs < line.len()
}

/// Value token bounds of a key line.
fn value_bounds(line: &[u8], key: &[u8]) -> (r: (usize, usize))
    requires
        has_value_token(line@, key@),
    ensures
        r.0 == value_start(line@, key@),
        r.1 == value_end(line@, key@),
        r.0 <= r.1 <= line@.len(),
{
    proof {
        lemma_skip_ws_from(line@, key@.len() as int);
    }
    let c = skip_ws_from_exec(line, key.len());
    let n = line.len();
    assert(c < n);
    proof {
        lemma_skip_ws_from(line@, c + 1);
    }
    let vs = skip_ws_from_exec(line, c + 1);
    proof {
        lemma_token_end_from(line@, vs as int);
    }
    let ve = token_end_from_exec(line, vs);
    (vs, ve)
}

// ---------------------------------------------------------------------
// Whole-block queries and edits.

/// Does some line of the block carry this key?
pub open spec fn has_field_spec(y: Seq<u8>, key: Seq<u8>) -> bool {
    exists|i: int| 0 <= i < lines_of(y).len() && is_key_line(#[trigger] lines_of(y)[i], key)
}

/// Index of the first line whose key matches and has a value token.
pub open spec fn first_value_line(ls: Seq<Seq<u8>>, key: Seq<u8>) -> int
    decreases ls.len(),
{
    if ls.len() == 0 {
        0
    } else if has_value_token(ls[0], key) {
        0
    } else {
        1 + first_value_line(ls.drop_first(), key)
    }
}

pub proof fn lemma_first_value_line(ls: Seq<Seq<u8>>, key: Seq<u8>)
    ensures
        0 <= first_value_line(ls, key) <= ls.len(),
        first_value_line(ls, key) < ls.len() ==> has_value_token(ls[first_value_line(ls, key)], key),
        forall|j: int| 0 <= j < first_value_line(ls, key) ==> !has_value_token(ls[j], key),
    decreases ls.len(),
{
    if ls.len() > 0 && !has_value_token(ls[0], key) {
        lemma_first_value_line(ls.drop_first(), key);
        assert forall|j: int| 0 <= j < first_value_line(ls, key) implies !has_value_token(
            ls[j],
            key,
        ) by {
            if j >= 1 {
                assert(ls[j] == ls.drop_first()[j - 1]);
            }
        }
    }
}

/// The block after `replace_field`: the first matching line rewritten, or
/// the block unchanged when no line matches.
pub open spec fn replace_field_spec(y: Seq<u8>, key: Seq<u8>, val: Seq<u8>) -> Seq<u8> {
    let ls = lines_of(y);
    let i = first_value_line(ls, key);
    if i < ls.len() {
        join_lines(ls.update(i, rewritten_line(ls[i], key, val)))
    } else {
        y
    }
}

/// Replace the value token of `key`, preserving blanks and any inline
/// comment; the block is returned unchanged when no line carries `key`
/// with a value token.
pub fn replace_field(yaml: &[u8], key: &[u8], new_value: &[u8]) -> (r: Vec<u8>)
    ensures
        r@ == replace_field_spec(yaml@, key@, new_value@),
{
    let mut ls = split_lines(yaml);
    let ghost dv = ls.deep_view();
    let n = ls.len();
    let mut i: usize = 0;
    while i < n
        invariant
            0 <= i <= n,
            n == ls@.len(),
            dv == ls.deep_view(),
            dv == lines_of(yaml@),
            forall|j: int| 0 <= j < i ==> !has_value_token(dv[j], key@),
        decreases n - i,
    {
        proof {
            lemma_deep_view_bytes(ls@[i as int]);
        }
        if has_value_token_exec(ls[i].as_slice(), key) {
            proof {
                lemma_first_value_line(dv, key@);
                let fvl = first_value_line(dv, key@);
                if fvl < i {
                    assert(!has_value_token(dv[fvl], key@));
                    assert(has_value_token(dv[fvl], key@));
                } else if fvl > i {
                    assert(!has_value_token(dv[i as int], key@));
                }
                assert(first_value_line(dv, key@) == i);
            }
            let (vs, ve) = value_bounds(ls[i].as_slice(), key);
            let mut line = sub_bytes(ls[i].as_slice(), 0, vs);
            push_all(&mut line, new_value);
            let suffix = sub_bytes(ls[i].as_slice(), ve, ls[i].len());
            push_all(&mut line, suffix.as_slice());
            proof {
                assert(line@ =~= rewritten_line(dv[i as int], key@, new_value@));
            }
            ls.set(i, line);
            proof {
                lemma_deep_view_bytes(line);
                assert(ls.deep_view() =~~= dv.update(i as int, rewritten_line(dv[i as int], key@,
                new_value@)));
            }
            let out = join_lines_exec(&ls);
            return out;
        }
        i = i + 1;
    }
    proof {
        lemma_first_value_line(dv, key@);
        assert(first_value_line(dv, key@) == n);
        lemma_join_lines_of(yaml@);
    }
    sub_bytes(yaml, 0, yaml.len())
}

/// Does the block carry `key` on some line?
pub fn has_field(yaml: &[u8], key: &[u8]) -> (r: bool)
    ensures
        r == has_field_spec(yaml@, key@),
{
    let ls = split_lines(yaml);
    let ghost dv = ls.deep_view();
    let n = ls.len();
    let mut i: usize = 0;
    while i < n
        invariant
            0 <= i <= n,
            n == ls@.len(),
            dv == ls.deep_view(),
            dv == lines_of(yaml@),
            forall|j: int| 0 <= j < i ==> !is_key_line(dv[j], key@),
        decreases n - i,
    {
        proof {
            lemma_deep_view_bytes(ls@[i as int]);
        }
        if is_key_line_exec(ls[i].as_slice(), key) {
            assert(is_key_line(lines_of(yaml@)[i as int], key@));
            return true;
        }
        i = i + 1;
    }
    false
}

/// The block after `append_field`: a fresh `key: value` line at the end,
/// after any trailing newlines are tidied away.
pub open spec fn append_field_spec(y: Seq<u8>, key: Seq<u8>, val: Seq<u8>) -> Seq<u8> {
    let t = trim_trailing_nl(y);
    if t.len() == 0 {
        key + seq![58u8, 32u8] + val + seq![nl()]
    } else {
        t + seq![nl()] + key + seq![58u8, 32u8] + val + seq![nl()]
    }
}

/// Append a `key: value` line at the end of the block.
pub fn append_field(yaml: &[u8], key: &[u8], value: &[u8]) -> (r: Vec<u8>)
    ensures
        r@ == append_field_spec(yaml@, key@, value@),
{
    let mut out = trim_trailing_nl_exec(yaml);
    if out.len() > 0 {
        out.push(10);
    }
    push_all(&mut out, key);
    out.push(58);
    out.push(32);
    push_all(&mut out, value);
    out.push(10);
    proof {
        assert(out@ =~= append_field_spec(yaml@, key@, value@));
    }
    out
}


// ---------------------------------------------------------------------
// Whole-file assembly.

/// The views of an update list's keys and values.
pub open spec fn updates_view(ups: Seq<(Vec<u8>, Vec<u8>)>) -> Seq<(Seq<u8>, Seq<u8>)> {
    Seq::new(ups.len(), |i: int| (ups[i].0@, ups[i].1@))
}

/// One update: replace where the key exists, append where it does not.
pub open spec fn apply_update(y: Seq<u8>, key: Seq<u8>, val: Seq<u8>) -> Seq<u8> {
    if has_field_spec(y, key) {
        replace_field_spec(y, key, val)
    } else {
        append_field_spec(y, key, val)
    }
}

/// Updates applied left to right; a later update to the same key wins.
pub open spec fn apply_updates(y: Seq<u8>, ups: Seq<(Seq<u8>, Seq<u8>)>) -> Seq<u8>
    decreases ups.len(),
{
    if ups.len() == 0 {
        y
    } else {
        apply_updates(apply_update(y, ups[0].0, ups[0].1), ups.drop_first())
    }
}

/// The opening and closing marker line of a metadata block.
pub open spec fn spec_marker_text() -> Seq<u8> {
    seq![45u8, 45u8, 45u8]
}

/// The full file text written back: markers, the updated block, the body.
pub open spec fn write_back_spec(y: Seq<u8>, body: Seq<u8>, ups: Seq<(Seq<u8>, Seq<u8>)>) -> Seq<
    u8,
> {
    spec_marker_text() + seq![nl()] + trim_trailing_nl(apply_updates(y, ups)) + seq![nl()]
        + spec_marker_text() + seq![nl()] + body
}

/// Apply each update to the block (replace where present, append where
/// not) and reassemble the file with its markers and untouched body.
pub fn write_back(raw_yaml: &[u8], body: &[u8], updates: &[(Vec<u8>, Vec<u8>)]) -> (r: Vec<u8>)
    ensures
        r@ == write_back_spec(raw_yaml@, body@, updates_view(updates@)),
{
    let ghost ups = updates_view(updates@);
    let mut yaml = sub_bytes(raw_yaml, 0, raw_yaml.len());
    proof {
        assert(yaml@ =~= raw_yaml@);
        assert(ups.skip(0) =~~= ups);
    }
    let n = updates.len();
    let mut k: usize = 0;
    while k < n
        invariant
            0 <= k <= n,
            n == updates@.len(),
            ups == updates_view(updates@),
            apply_updates(raw_yaml@, ups) == apply_updates(yaml@, ups.skip(k as int)),
        decreases n - k,
    {
        let ghost before = yaml@;
        let key = updates[k].0.as_slice();
        let val = updates[k].1.as_slice();
        let updated = if has_field(yaml.as_slice(), key) {
            replace_field(yaml.as_slice(), key, val)
        } else {
            append_field(yaml.as_slice(), key, val)
        };
        yaml = updated;
        proof {
            assert(ups.skip(k as int)[0] == (key@, val@));
            assert(yaml@ == apply_update(before, key@, val@));
            assert(ups.skip(k as int).drop_first() =~~= ups.skip(k + 1));
        }
        k = k + 1;
    }
    proof {
        assert(ups.skip(n as int) =~~= Seq::<(Seq<u8>, Seq<u8>)>::empty());
        assert(apply_updates(yaml@, ups.skip(n as int)) == yaml@);
    }
    let trimmed = trim_trailing_nl_exec(yaml.as_slice());
    let mut out: Vec<u8> = Vec::new();
    out.push(45);
    out.push(45);
    out.push(45);
    out.push(10);
    push_all(&mut out, trimmed.as_slice());
    out.push(10);
    out.push(45);
    out.push(45);
    out.push(45);
    out.push(10);
    push_all(&mut out, body);
    proof {
        assert(out@ =~= write_back_spec(raw_yaml@, body@, ups));
    }
    out
}

/// The lines `key: value` of a fresh block.
pub open spec fn field_lines(fs: Seq<(Seq<u8>, Seq<u8>)>) -> Seq<Seq<u8>> {
    Seq::new(fs.len(), |i: int| fs[i].0 + seq![58u8, 32u8] + fs[i].1)
}

/// A fresh file: markers around the given fields, then the body.
pub open spec fn build_new_frontmatter_spec(fs: Seq<(Seq<u8>, Seq<u8>)>, body: Seq<u8>) -> Seq<
    u8,
> {
    spec_marker_text() + seq![nl()] + join_lines(field_lines(fs)) + seq![nl()] + spec_marker_text()
        + seq![nl()] + body
}

/// Build a whole file for a note that had no metadata block.
pub fn build_new_frontmatter(fields: &[(Vec<u8>, Vec<u8>)], body: &[u8]) -> (r: Vec<u8>)
    ensures
        r@ == build_new_frontmatter_spec(updates_view(fields@), body@),
{
    let ghost fs = updates_view(fields@);
    let mut out: Vec<u8> = Vec::new();
    out.push(45);
    out.push(45);
    out.push(45);
    out.push(10);
    let ghost base = out@;
    let n = fields.len();
    let mut k: usize = 0;
    while k < n
        invariant
            0 <= k <= n,
            n == fields@.len(),
            fs == updates_view(fields@),
            base == seq![45u8, 45u8, 45u8, 10u8],
            out@ =~= base + join_lines(field_lines(fs).take(k as int)),
        decreases n - k,
    {
        if k > 0 {
            out.push(10);
        }
        push_all(&mut out, fields[k].0.as_slice());
        out.push(58);
        out.push(32);
        push_all(&mut out, fields[k].1.as_slice());
        proof {
            let pre = field_lines(fs).take(k as int);
            crate::text::lemma_join_push(pre, field_lines(fs)[k as int]);
            assert(pre.push(field_lines(fs)[k as int]) =~~= field_lines(fs).take(k + 1));
            assert(out@ =~= base + join_lines(field_lines(fs).take(k + 1)));
        }
        k = k + 1;
    }
    proof {
        assert(field_lines(fs).take(n as int) =~~= field_lines(fs));
    }
    out.push(10);
    out.push(45);
    out.push(45);
    out.push(45);
    out.push(10);
    push_all(&mut out, body);
    proof {
        assert(out@ =~= build_new_frontmatter_spec(fs, body@));
    }
    out
}


// ---------------------------------------------------------------------
// Parsing a note into its raw block, typed fields and body.

/// Maturity of a tracked note.
#[derive(Clone, Copy, Debug, PartialEq, Eq, Structural)]
pub enum Maturity {
    Seedling,
    Budding,
    Evergreen,
}

pub open spec fn maturity_word(m: Maturity) -> Seq<u8> {
    match m {
        Maturity::Seedling => spec_seedling_text(),
        Maturity::Budding => spec_budding_text(),
        Maturity::Evergreen => spec_evergreen_text(),
    }
}

pub open spec fn maturity_of_token(t: Seq<u8>) -> Option<Maturity> {
    if t == spec_seedling_text() {
        Some(Maturity::Seedling)
    } else if t == spec_budding_text() {
        Some(Maturity::Budding)
    } else if t == spec_evergreen_text() {
        Some(Maturity::Evergreen)
    } else {
        None
    }
}

impl Maturity {
    /// The word written in the metadata block.
    pub fn to_text(&self) -> (r: Vec<u8>)
        ensures
            r@ == maturity_word(*self),
    {
        match self {
            Maturity::Seedling => seedling_text(),
            Maturity::Budding => budding_text(),
            Maturity::Evergreen => evergreen_text(),
        }
    }

    /// Read a maturity word; `None` for anything else.
    pub fn from_token(t: &[u8]) -> (r: Option<Maturity>)
        ensures
            r == maturity_of_token(t@),
    {
        let w = seedling_text();
        if bytes_eq(t, w.as_slice()) {
            return Some(Maturity::Seedling);
        }
        let w = budding_text();
        if bytes_eq(t, w.as_slice()) {
            return Some(Maturity::Budding);
        }
        let w = evergreen_text();
        if bytes_eq(t, w.as_slice()) {
            return Some(Maturity::Evergreen);
        }
        None
    }
}

/// The typed fields of a note's metadata block. The ease factor is kept
/// in hundredths, exactly as its two-decimal text form.
#[derive(Clone, Copy, Debug, PartialEq)]
pub struct SproutFrontmatter {
    pub maturity: Option<Maturity>,
    pub created: Option<Date>,
    pub last_review: Option<Date>,
    pub review_interval: Option<u32>,
    pub next_review: Option<Date>,
    pub ease: Option<u32>,
}

impl SproutFrontmatter {
    /// All six fields absent: an untracked note.
    pub open spec fn spec_empty() -> SproutFrontmatter {
        SproutFrontmatter {
            maturity: None,
            created: None,
            last_review: None,
            review_interval: None,
            next_review: None,
            ease: None,
        }
    }

    pub fn empty() -> (r: SproutFrontmatter)
        ensures
            r == SproutFrontmatter::spec_empty(),
    {
        SproutFrontmatter {
            maturity: None,
            created: None,
            last_review: None,
            review_interval: None,
            next_review: None,
            ease: None,
        }
    }
}

/// A parsed note: the raw metadata block (kept verbatim for write-back),
/// its typed fields, and the body after the block.
#[derive(Debug)]
pub struct ParsedNote {
    pub frontmatter_raw: Option<Vec<u8>>,
    pub sprout: SproutFrontmatter,
    pub body: Vec<u8>,
}

/// The value token of the first line carrying `key`.
pub open spec fn field_token(y: Seq<u8>, key: Seq<u8>) -> Option<Seq<u8>> {
    let ls = lines_of(y);
    let i = first_value_line(ls, key);
    if i < ls.len() {
        Some(line_value(ls[i], key))
    } else {
        None
    }
}

/// Find the value token of `key` in the block.
pub fn field_token_exec(yaml: &[u8], key: &[u8]) -> (r: Option<Vec<u8>>)
    ensures
        match r {
            Some(t) => field_token(yaml@, key@) == Some(t@),
            None => field_token(yaml@, key@) is None,
        },
{
    let ls = split_lines(yaml);
    let ghost dv = ls.deep_view();
    let n = ls.len();
    let mut i: usize = 0;
    while i < n
        invariant
            0 <= i <= n,
            n == ls@.len(),
            dv == ls.deep_view(),
            dv == lines_of(yaml@),
            forall|j: int| 0 <= j < i ==> !has_value_token(dv[j], key@),
        decreases n - i,
    {
        proof {
            lemma_deep_view_bytes(ls@[i as int]);
        }
        if has_value_token_exec(ls[i].as_slice(), key) {
            proof {
                lemma_first_value_line(dv, key@);
                let fvl = first_value_line(dv, key@);
                if fvl < i {
                    assert(!has_value_token(dv[fvl], key@));
                } else if fvl > i {
                    assert(!has_value_token(dv[i as int], key@));
                }
                assert(first_value_line(dv, key@) == i);
            }
            let (vs, ve) = value_bounds(ls[i].as_slice(), key);
            let t = sub_bytes(ls[i].as_slice(), vs, ve);
            return Some(t);
        }
        i = i + 1;
    }
    proof {
        lemma_first_value_line(dv, key@);
        assert(first_value_line(dv, key@) == n);
    }
    None
}

/// A calendar date written `YYYY-MM-DD`.
pub open spec fn date_of_token(t: Seq<u8>) -> Option<Date> {
    if t.len() == 10 && is_digits(t.take(4)) && t[4] == 45 && is_digits(t.subrange(5, 7)) && t[7]
        == 45 && is_digits(t.subrange(8, 10)) {
        let d = Date {
            year: dec_val(t.take(4)) as u32,
            month: dec_val(t.subrange(5, 7)) as u32,
            day: dec_val(t.subrange(8, 10)) as u32,
        };
        if d.is_valid() {
            Some(d)
        } else {
            None
        }
    } else {
        None
    }
}

/// Read a `YYYY-MM-DD` date token.
pub fn parse_date_token(t: &[u8]) -> (r: Option<Date>)
    ensures
        r == date_of_token(t@),
{
    if t.len() != 10 || t[4] != 45 || t[7] != 45 {
        return None;
    }
    let yp = crate::num::parse_u32_range(t, 0, 4);
    let mp = crate::num::parse_u32_range(t, 5, 7);
    let dp = crate::num::parse_u32_range(t, 8, 10);
    proof {
        assert(t@.take(4) =~= t@.subrange(0, 4));
        if is_digits(t@.take(4)) {
            crate::num::lemma_dec_val_bound(t@.take(4));
        }
        if is_digits(t@.subrange(5, 7)) {
            crate::num::lemma_dec_val_bound(t@.subrange(5, 7));
        }
        if is_digits(t@.subrange(8, 10)) {
            crate::num::lemma_dec_val_bound(t@.subrange(8, 10));
        }
    }
    match (yp, mp, dp) {
        (Some(y), Some(m), Some(d)) => Date::new(y, m, d),
        _ => None,
    }
}

/// `ease` tokens: a two-decimal fixed-point value in hundredths.
pub open spec fn ease_of_token(t: Seq<u8>) -> Option<u32> {
    match centi_val(t) {
        Some(v) => if v <= u32::MAX {
            Some(v as u32)
        } else {
            None
        },
        None => None,
    }
}

/// `review_interval` tokens: a plain decimal.
pub open spec fn interval_of_token(t: Seq<u8>) -> Option<u32> {
    if is_digits(t) && dec_val(t) <= u32::MAX {
        Some(dec_val(t) as u32)
    } else {
        None
    }
}

/// The typed fields read out of a raw block, each tolerated
/// independently: a missing or unreadable token leaves its field absent.
pub open spec fn fields_of_block(y: Seq<u8>) -> SproutFrontmatter {
    SproutFrontmatter {
        maturity: match field_token(y, spec_maturity_text()) {
            Some(t) => maturity_of_token(t),
            None => None,
        },
        created: match field_token(y, spec_created_text()) {
            Some(t) => date_of_token(t),
            None => None,
        },
        last_review: match field_token(y, spec_last_review_text()) {
            Some(t) => date_of_token(t),
            None => None,
        },
        review_interval: match field_token(y, spec_interval_text()) {
            Some(t) => interval_of_token(t),
            None => None,
        },
        next_review: match field_token(y, spec_next_review_text()) {
            Some(t) => date_of_token(t),
            None => None,
        },
        ease: match field_token(y, spec_ease_text()) {
            Some(t) => ease_of_token(t),
            None => None,
        },
    }
}

/// Read the six typed fields from a raw block.
pub fn read_fields(yaml: &[u8]) -> (r: SproutFrontmatter)
    ensures
        r == fields_of_block(yaml@),
{
    let key = maturity_text();
    let maturity = match field_token_exec(yaml, key.as_slice()) {
        Some(t) => Maturity::from_token(t.as_slice()),
        None => None,
    };
    let key = created_text();
    let created = match field_token_exec(yaml, key.as_slice()) {
        Some(t) => parse_date_token(t.as_slice()),
        None => None,
    };
    let key = last_review_text();
    let last_review = match field_token_exec(yaml, key.as_slice()) {
        Some(t) => parse_date_token(t.as_slice()),
        None => None,
    };
    let key = interval_text();
    let review_interval = match field_token_exec(yaml, key.as_slice()) {
        Some(t) => crate::num::parse_u32(t.as_slice()),
        None => None,
    };
    let key = next_review_text();
    let next_review = match field_token_exec(yaml, key.as_slice()) {
        Some(t) => parse_date_token(t.as_slice()),
        None => None,
    };
    let key = ease_text();
    let ease = match field_token_exec(yaml, key.as_slice()) {
        Some(t) => crate::num::parse_centi(t.as_slice()),
        None => None,
    };
    SproutFrontmatter { maturity, created, last_review, review_interval, next_review, ease }
}

/// Index of the first marker line at or after `i`.
pub open spec fn first_marker_from(ls: Seq<Seq<u8>>, i: int) -> int
    decreases ls.len() - i,
{
    if !(0 <= i < ls.len()) {
        ls.len() as int
    } else if is_marker_line(ls[i]) {
        i
    } else {
        first_marker_from(ls, i + 1)
    }
}

pub proof fn lemma_first_marker_from(ls: Seq<Seq<u8>>, i: int)
    requires
        0 <= i <= ls.len(),
    ensures
        i <= first_marker_from(ls, i) <= ls.len(),
        first_marker_from(ls, i) < ls.len() ==> is_marker_line(ls[first_marker_from(ls, i)]),
        forall|j: int| i <= j < first_marker_from(ls, i) ==> !is_marker_line(ls[j]),
    decreases ls.len() - i,
{
    if i < ls.len() && !is_marker_line(ls[i]) {
        lemma_first_marker_from(ls, i + 1);
    }
}

/// Does the text open with a marker line and close it with another?
pub open spec fn has_block(s: Seq<u8>) -> bool {
    let ls = lines_of(s);
    ls.len() >= 2 && is_marker_line(ls[0]) && first_marker_from(ls, 1) < ls.len()
}

/// The raw block: the lines between the markers, trimmed.
pub open spec fn raw_block_of(s: Seq<u8>) -> Seq<u8> {
    crate::text::trim_ws(
        join_lines(lines_of(s).subrange(1, first_marker_from(lines_of(s), 1))),
    )
}

/// The body: everything after the closing marker line, byte for byte; the
/// whole text when there is no block.
pub open spec fn body_of(s: Seq<u8>) -> Seq<u8> {
    if has_block(s) {
        let ls = lines_of(s);
        join_lines(ls.skip(first_marker_from(ls, 1) + 1))
    } else {
        s
    }
}

/// The block the typed fields are read from (empty when there is none).
pub open spec fn block_or_empty(s: Seq<u8>) -> Seq<u8> {
    if has_block(s) {
        raw_block_of(s)
    } else {
        Seq::<u8>::empty()
    }
}

/// Parse a note: line endings are normalized, the optional metadata block
/// is split off and kept verbatim, its recognized fields are read, and
/// the body is preserved byte for byte. A missing or malformed block is
/// never an error: it reads as "no metadata".
pub fn parse_note(content: &[u8]) -> (r: ParsedNote)
    ensures
        ({
            let s = crate::text::normalize_crlf(content@);
            &&& r.body@ == body_of(s)
            &&& r.sprout == fields_of_block(block_or_empty(s))
            &&& match r.frontmatter_raw {
                Some(raw) => has_block(s) && raw_block_of(s).len() > 0 && raw@ == raw_block_of(s),
                None => !has_block(s) || raw_block_of(s).len() == 0,
            }
        }),
{
    let normalized = crate::text::normalize_crlf_exec(content);
    let ghost s = normalized@;
    let ls = split_lines(normalized.as_slice());
    let ghost dv = ls.deep_view();
    let n = ls.len();
    proof {
        lemma_deep_view_bytes(ls@[0]);
    }
    if n < 2 || !is_marker_line_exec(ls[0].as_slice()) {
        let sprout = read_fields(&[]);
        proof {
            assert(!has_block(s));
            assert(block_or_empty(s) =~= Seq::<u8>::empty());
        }
        return ParsedNote { frontmatter_raw: None, sprout, body: normalized };
    }
    let mut k: usize = 1;
    while k < n
        invariant
            1 <= k <= n,
            n == ls@.len(),
            n >= 2,
            dv == ls.deep_view(),
            dv == lines_of(s),
            s == crate::text::normalize_crlf(content@),
            is_marker_line(dv[0]),
            forall|j: int| 1 <= j < k ==> !is_marker_line(dv[j]),
        decreases n - k,
    {
        proof {
            lemma_deep_view_bytes(ls@[k as int]);
        }
        if is_marker_line_exec(ls[k].as_slice()) {
            proof {
                lemma_first_marker_from(dv, 1);
                let fm = first_marker_from(dv, 1);
                if fm < k {
                    assert(!is_marker_line(dv[fm]));
                } else if fm > k {
                    assert(!is_marker_line(dv[k as int]));
                }
                assert(fm == k);
                assert(has_block(s));
            }
            let raw_joined = crate::text::join_lines_range(&ls, 1, k);
            let raw = crate::text::trim_ws_exec(raw_joined.as_slice());
            let body = crate::text::join_lines_range(&ls, k + 1, n);
            proof {
                assert(dv.subrange(1, k as int) =~~= ls.deep_view().subrange(1, k as int));
                assert(raw@ == raw_block_of(s));
                assert(dv.skip(k + 1) =~~= dv.subrange(k + 1, n as int));
                assert(body@ == body_of(s));
            }
            let sprout = read_fields(raw.as_slice());
            let fr = if raw.len() > 0 {
                Some(raw)
            } else {
                None
            };
            return ParsedNote { frontmatter_raw: fr, sprout, body };
        }
        k = k + 1;
    }
    proof {
        lemma_first_marker_from(dv, 1);
        assert(first_marker_from(dv, 1) == n);
        assert(!has_block(s));
        assert(block_or_empty(s) =~= Seq::<u8>::empty());
    }
    let sprout = read_fields(&[]);
    ParsedNote { frontmatter_raw: None, sprout, body: normalized }
}


// ---------------------------------------------------------------------
// Laws of the codec.

/// Idempotence of a field update: replacing a field with the value it
/// already has leaves the block byte-identical.
pub proof fn lemma_replace_field_idempotent(y: Seq<u8>, key: Seq<u8>)
    requires
        field_token(y, key) is Some,
    ensures
        replace_field_spec(y, key, field_token(y, key)->Some_0) == y,
{
    let ls = lines_of(y);
    lemma_first_value_line(ls, key);
    let i = first_value_line(ls, key);
    let line = ls[i];
    assert(has_value_token(line, key));
    lemma_skip_ws_from(line, key.len() as int);
    lemma_skip_ws_from(line, skip_ws_from(line, key.len() as int) + 1);
    lemma_token_end_from(line, value_start(line, key));
    assert(rewritten_line(line, key, line_value(line, key)) =~= line);
    assert(ls.update(i, rewritten_line(line, key, line_value(line, key))) =~~= ls);
    lemma_join_lines_of(y);
}

/// Does the line carry one of the updated keys?
pub open spec fn line_touched(line: Seq<u8>, ups: Seq<(Seq<u8>, Seq<u8>)>) -> bool {
    exists|k: int| 0 <= k < ups.len() && is_key_line(line, (#[trigger] ups[k]).0)
}

/// A text has no newline byte.
pub open spec fn nl_free(s: Seq<u8>) -> bool {
    forall|t: int| 0 <= t < s.len() ==> s[t] != nl()
}

proof fn lemma_replace_field_lines(y: Seq<u8>, key: Seq<u8>, val: Seq<u8>)
    requires
        nl_free(val),
    ensures
        ({
            let ls = lines_of(y);
            let i = first_value_line(ls, key);
            let rs = lines_of(replace_field_spec(y, key, val));
            if i < ls.len() {
                rs == ls.update(i, rewritten_line(ls[i], key, val))
            } else {
                rs == ls
            }
        }),
{
    let ls = lines_of(y);
    lemma_first_value_line(ls, key);
    crate::text::lemma_lines_no_nl(y);
    crate::text::lemma_lines_nonempty(y);
    let i = first_value_line(ls, key);
    if i < ls.len() {
        let line = ls[i];
        lemma_skip_ws_from(line, key.len() as int);
        lemma_skip_ws_from(line, skip_ws_from(line, key.len() as int) + 1);
        lemma_token_end_from(line, value_start(line, key));
        let rw = rewritten_line(line, key, val);
        let updated = ls.update(i, rw);
        assert forall|a: int, b: int|
            0 <= a < updated.len() && 0 <= b < updated[a].len() implies updated[a][b]
            != nl() by {
            if a != i {
                assert(updated[a] == ls[a]);
            } else {
                let vs = value_start(line, key);
                let ve = value_end(line, key);
                if b < vs {
                    assert(rw[b] == line[b]);
                } else if b < vs + val.len() {
                    assert(rw[b] == val[b - vs]);
                } else {
                    assert(rw[b] == line[b - vs - val.len() + ve]);
                }
            }
        }
        crate::text::lemma_lines_of_join(updated);
    }
}

proof fn lemma_lines_append_line(t: Seq<u8>, x: Seq<u8>)
    requires
        nl_free(x),
    ensures
        lines_of(t + seq![nl()] + x + seq![nl()]) == lines_of(t) + seq![x, Seq::<u8>::empty()],
    decreases t.len(),
{
    if t.len() == 0 {
        let whole = t + seq![nl()] + x + seq![nl()];
        assert(whole[0] == nl());
        assert(whole.skip(1) =~= x.push(nl()));
        crate::text::lemma_lines_split_first(whole, 0);
        crate::text::lemma_lines_push_nl(x);
        crate::text::lemma_lines_of_no_nl(x);
        assert(whole.take(0) =~= Seq::<u8>::empty());
        assert(lines_of(whole) =~~= lines_of(t) + seq![x, Seq::<u8>::empty()]);
    } else {
        lemma_lines_append_line(t.drop_first(), x);
        crate::text::lemma_lines_nonempty(t.drop_first());
        let whole = t + seq![nl()] + x + seq![nl()];
        assert(whole[0] == t[0]);
        assert(whole.drop_first() =~= t.drop_first() + seq![nl()] + x + seq![nl()]);
        let sub = lines_of(t.drop_first() + seq![nl()] + x + seq![nl()]);
        assert(sub == lines_of(t.drop_first()) + seq![x, Seq::<u8>::empty()]);
        if t[0] == nl() {
            assert(lines_of(whole) =~~= lines_of(t) + seq![x, Seq::<u8>::empty()]);
        } else {
            assert(sub[0] == lines_of(t.drop_first())[0]);
            assert(sub.drop_first() =~~= lines_of(t.drop_first()).drop_first() + seq![
                x,
                Seq::<u8>::empty(),
            ]);
            assert(lines_of(whole) =~~= lines_of(t) + seq![x, Seq::<u8>::empty()]);
        }
    }
}

proof fn lemma_append_field_lines(y: Seq<u8>, key: Seq<u8>, val: Seq<u8>)
    requires
        nl_free(key),
        nl_free(val),
    ensures
        ({
            let appended = key + seq![58u8, 32u8] + val;
            let rs = lines_of(append_field_spec(y, key, val));
            if trim_trailing_nl(y).len() == 0 {
                rs == seq![appended, Seq::<u8>::empty()]
            } else {
                rs == crate::text::strip_empty_suffix(lines_of(y)) + seq![
                    appended,
                    Seq::<u8>::empty(),
                ]
            }
        }),
{
    let appended = key + seq![58u8, 32u8] + val;
    let t = trim_trailing_nl(y);
    crate::text::lemma_trim_nl_lines(y);
    if t.len() == 0 {
        assert(append_field_spec(y, key, val) =~= appended.push(nl()));
        crate::text::lemma_lines_push_nl(appended);
        crate::text::lemma_lines_of_no_nl(appended);
        assert(lines_of(append_field_spec(y, key, val)) =~~= seq![appended, Seq::<u8>::empty()]);
    } else {
        assert(append_field_spec(y, key, val) =~= t + seq![nl()] + appended + seq![nl()]);
        lemma_lines_append_line(t, appended);
        assert(lines_of(append_field_spec(y, key, val)) =~~= crate::text::strip_empty_suffix(
            lines_of(y),
        ) + seq![appended, Seq::<u8>::empty()]);
    }
}

proof fn lemma_apply_updates_preserve(y: Seq<u8>, ups: Seq<(Seq<u8>, Seq<u8>)>, j: int)
    requires
        forall|k: int| 0 <= k < ups.len() ==> nl_free((#[trigger] ups[k]).0),
        forall|k: int| 0 <= k < ups.len() ==> nl_free((#[trigger] ups[k]).1),
        0 <= j < lines_of(y).len(),
        lines_of(y)[j].len() > 0,
        !line_touched(lines_of(y)[j], ups),
    ensures
        j < lines_of(apply_updates(y, ups)).len(),
        lines_of(apply_updates(y, ups))[j] == lines_of(y)[j],
    decreases ups.len(),
{
    if ups.len() > 0 {
        let key = ups[0].0;
        let val = ups[0].1;
        let y1 = apply_update(y, key, val);
        let ls = lines_of(y);
        // the line at j survives this one update
        assert(!is_key_line(ls[j], key));
        if has_field_spec(y, key) {
            lemma_replace_field_lines(y, key, val);
            lemma_first_value_line(ls, key);
            let i = first_value_line(ls, key);
            if i < ls.len() {
                assert(i != j);
                assert(lines_of(y1)[j] == ls[j]);
            } else {
                assert(lines_of(y1)[j] == ls[j]);
            }
        } else {
            lemma_append_field_lines(y, key, val);
            crate::text::lemma_strip_empty_suffix(ls);
            crate::text::lemma_trim_nl_lines(y);
            if trim_trailing_nl(y).len() == 0 {
                assert(lines_of(trim_trailing_nl(y)).len() == 1);
                assert(crate::text::strip_empty_suffix(ls)[0].len() == 0);
                assert(ls[j].len() == 0);
                assert(false);
            } else {
                let stripped = crate::text::strip_empty_suffix(ls);
                assert(j < stripped.len());
                assert(stripped[j] == ls[j]);
                assert(lines_of(y1)[j] == ls[j]);
            }
        }
        // untouched by the remaining updates
        assert(!line_touched(lines_of(y1)[j], ups.drop_first())) by {
            if line_touched(lines_of(y1)[j], ups.drop_first()) {
                let k = choose|k: int|
                    0 <= k < ups.drop_first().len() && is_key_line(
                        lines_of(y1)[j],
                        (#[trigger] ups.drop_first()[k]).0,
                    );
                assert(ups.drop_first()[k] == ups[k + 1]);
                assert(is_key_line(lines_of(y)[j], ups[k + 1].0));
            }
        }
        lemma_apply_updates_preserve(y1, ups.drop_first(), j);
    }
}

/// Round-trip preservation: `write_back` replaces or appends only lines
/// that carry the updated keys. Every other nonempty line of the block —
/// unknown keys, comment lines, inline comments — stands verbatim, at
/// its position, in the block that is written out between the markers.
pub proof fn lemma_write_back_preserves_unknown_lines(y: Seq<u8>, ups: Seq<(Seq<u8>, Seq<u8>)>)
    requires
        forall|k: int| 0 <= k < ups.len() ==> nl_free((#[trigger] ups[k]).0),
        forall|k: int| 0 <= k < ups.len() ==> nl_free((#[trigger] ups[k]).1),
    ensures
        forall|j: int|
            0 <= j < lines_of(y).len() && (#[trigger] lines_of(y)[j]).len() > 0 && !line_touched(
                lines_of(y)[j],
                ups,
            ) ==> j < lines_of(trim_trailing_nl(apply_updates(y, ups))).len() && lines_of(
                trim_trailing_nl(apply_updates(y, ups)),
            )[j] == lines_of(y)[j],
{
    let out = apply_updates(y, ups);
    assert forall|j: int|
        0 <= j < lines_of(y).len() && (#[trigger] lines_of(y)[j]).len() > 0 && !line_touched(
            lines_of(y)[j],
            ups,
        ) implies j < lines_of(trim_trailing_nl(out)).len() && lines_of(trim_trailing_nl(out))[j]
        == lines_of(y)[j] by {
        lemma_apply_updates_preserve(y, ups, j);
        crate::text::lemma_trim_nl_lines(out);
        crate::text::lemma_strip_empty_suffix(lines_of(out));
        assert(j < crate::text::strip_empty_suffix(lines_of(out)).len());
        assert(crate::text::strip_empty_suffix(lines_of(out))[j] == lines_of(out)[j]);
    }
}

} // verus!
