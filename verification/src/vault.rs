//! The vault boundary and the path rules of a scan: containment of a
//! canonical path under the canonical root, vault-relative paths, the
//! note extension, exclusion by directory name, and canonical-path
//! deduplication. Walking the file system and canonicalizing paths are
//! the caller's side of the boundary; every rule applied to the resulting
//! paths is decided here.

use crate::error::SproutError;
use crate::text::bytes_eq;
use crate::text::starts_with;
use crate::text::sub_bytes;
use vstd::prelude::*;
use vstd::string::StringSliceAdditionalSpecFns;

verus! {

/// Is the canonical path `file` the canonical path `vault` itself or a
/// descendant of it? Components are honoured: `/a/bc` is not within
/// `/a/b`, and everything is within the root `/`.
pub open spec fn path_within(file: Seq<u8>, vault: Seq<u8>) -> bool {
    ||| file == vault
    ||| (vault.len() > 0 && vault.last() == 47 && file.len() > vault.len() && file.take(
        vault.len() as int,
    ) == vault)
    ||| (file.len() > vault.len() && file.take(vault.len() as int) == vault && file[vault.len() as int]
        == 47)
}

pub fn path_within_exec(file: &[u8], vault: &[u8]) -> (r: bool)
    ensures
        r == path_within(file@, vault@),
{
    if bytes_eq(file, vault) {
        return true;
    }
    if !starts_with(file, vault) {
        return false;
    }
    if file.len() == vault.len() {
        proof {
            assert(file@.take(vault@.len() as int) =~= file@);
        }
        return false;
    }
    if vault.len() > 0 && vault[vault.len() - 1] == 47 {
        return true;
    }
    file[vault.len()] == 47
}

/// The vault containment check: a file-targeted operation is allowed only
/// on a canonical path that is a descendant of the canonical vault root;
/// any other path is rejected with the outside-vault error, never a
/// crash. Both paths must already be canonical: symlink tricks are
/// resolved by canonicalization before this decision.
pub fn ensure_in_vault(file_canonical: String, vault_canonical: &str) -> (r: Result<
    (),
    SproutError,
>)
    ensures
        r is Ok <==> path_within(
            vstd::utf8::encode_utf8(file_canonical@),
            vault_canonical.spec_bytes(),
        ),
        match r {
            Ok(_) => true,
            Err(e) => e matches SproutError::OutsideVault(p) && p@ == file_canonical@,
        },
{
    if path_within_exec(file_canonical.as_str().as_bytes(), vault_canonical.as_bytes()) {
        Ok(())
    } else {
        Err(SproutError::OutsideVault(file_canonical))
    }
}

/// The suffix after the last occurrence of `c` (the whole text when `c`
/// does not occur).
pub open spec fn suffix_after_last(s: Seq<u8>, c: u8) -> Seq<u8>
    decreases s.len(),
{
    if s.len() == 0 {
        s
    } else if s.last() == c {
        Seq::<u8>::empty()
    } else {
        suffix_after_last(s.drop_last(), c).push(s.last())
    }
}

/// Does the path name a note: a file name with a final `.md` extension
/// after a nonempty stem?
pub open spec fn is_md_path(p: Seq<u8>) -> bool {
    let name = suffix_after_last(p, 47);
    let ext = suffix_after_last(name, 46);
    &&& ext.len() + 2 <= name.len()
    &&& ext == seq![109u8, 100u8]
}

fn suffix_after_last_exec(s: &[u8], c: u8) -> (r: Vec<u8>)
    ensures
        r@ == suffix_after_last(s@, c),
{
    let n = s.len();
    let mut b = n;
    proof {
        assert(s@.take(n as int) =~= s@);
        assert(suffix_after_last(s@, c) =~= suffix_after_last(s@, c) + s@.subrange(
            n as int,
            n as int,
        ));
    }
    while b > 0 && s[b - 1] != c
        invariant
            0 <= b <= n,
            n == s@.len(),
            suffix_after_last(s@, c) == suffix_after_last(s@.take(b as int), c) + s@.subrange(
                b as int,
                n as int,
            ),
        decreases b,
    {
        proof {
            let t = s@.take(b as int);
            assert(t.drop_last() =~= s@.take(b - 1));
            assert(suffix_after_last(t.drop_last(), c).push(t.last()) + s@.subrange(b as int, n as int)
                =~= suffix_after_last(t.drop_last(), c) + s@.subrange(b - 1, n as int));
        }
        b = b - 1;
    }
    proof {
        let t = s@.take(b as int);
        if b > 0 {
            assert(t.last() == s@[b - 1]);
            assert(suffix_after_last(t, c) =~= Seq::<u8>::empty());
        }
        assert(suffix_after_last(t, c) + s@.subrange(b as int, n as int) =~= s@.subrange(
            b as int,
            n as int,
        ));
    }
    sub_bytes(s, b, n)
}

/// Does this canonical path name a note file?
pub fn is_md_path_exec(p: &[u8]) -> (r: bool)
    ensures
        r == is_md_path(p@),
{
    let name = suffix_after_last_exec(p, 47);
    let ext = suffix_after_last_exec(name.as_slice(), 46);
    if name.len() < 2 || ext.len() > name.len() - 2 {
        return false;
    }
    let ok = ext.len() == 2 && ext[0] == 109 && ext[1] == 100;
    proof {
        if ok {
            assert(ext@ =~= seq![109u8, 100u8]);
        } else {
            assert(ext@ != seq![109u8, 100u8]);
        }
    }
    ok
}

/// Is the directory name one of the excluded names (exact name match)?
pub fn is_excluded_name(name: &[u8], excludes: &Vec<Vec<u8>>) -> (r: bool)
    ensures
        r == exists|k: int|
            0 <= k < excludes.deep_view().len() && #[trigger] excludes.deep_view()[k] == name@,
{
    let n = excludes.len();
    let mut k: usize = 0;
    while k < n
        invariant
            0 <= k <= n,
            n == excludes@.len(),
            excludes.deep_view().len() == n,
            forall|j: int| 0 <= j < k ==> #[trigger] excludes.deep_view()[j] != name@,
        decreases n - k,
    {
        proof {
            crate::text::lemma_deep_view_bytes(excludes@[k as int]);
        }
        if bytes_eq(excludes[k].as_slice(), name) {
            assert(excludes.deep_view()[k as int] == name@);
            return true;
        }
        k = k + 1;
    }
    false
}

/// The path of `file` relative to `vault`, for display and filtering:
/// the remainder after the vault prefix and its separator, or the whole
/// path when `file` is not under `vault`.
pub open spec fn relative_to(file: Seq<u8>, vault: Seq<u8>) -> Seq<u8> {
    if file == vault {
        Seq::<u8>::empty()
    } else if path_within(file, vault) {
        if vault.len() > 0 && vault.last() == 47 {
            file.skip(vault.len() as int)
        } else {
            file.skip(vault.len() as int + 1)
        }
    } else {
        file
    }
}

pub fn relative_to_exec(file: &[u8], vault: &[u8]) -> (r: Vec<u8>)
    ensures
        r@ == relative_to(file@, vault@),
{
    if bytes_eq(file, vault) {
        return Vec::new();
    }
    if !path_within_exec(file, vault) {
        return sub_bytes(file, 0, file.len());
    }
    let fl = file.len();
    let vl = vault.len();
    assert(vl < fl);
    if vl > 0 && vault[vl - 1] == 47 {
        sub_bytes(file, vl, fl)
    } else {
        sub_bytes(file, vl + 1, fl)
    }
}

/// A note found by a scan: its canonical path and its vault-relative
/// path.
pub struct NotePath {
    pub path: Vec<u8>,
    pub relative_path: Vec<u8>,
}

/// The canonical paths of the entries.
pub open spec fn paths_of(es: Seq<NotePath>) -> Seq<Seq<u8>> {
    es.map_values(|e: NotePath| e.path@)
}

/// Is this entry a field-for-field copy of one of `entries`?
pub open spec fn copied_from(e: NotePath, entries: Seq<NotePath>) -> bool {
    exists|j: int|
        0 <= j < entries.len() && e.path@ == (#[trigger] entries[j]).path@ && e.relative_path@
            == entries[j].relative_path@
}

/// Keep the first entry for each canonical path: a file reachable along
/// two symlink routes is processed exactly once.
pub fn dedup_by_path(entries: &Vec<NotePath>) -> (r: Vec<NotePath>)
    ensures
        forall|a: int, b: int|
            0 <= a < b < paths_of(r@).len() ==> paths_of(r@)[a] != paths_of(r@)[b],
        forall|p: Seq<u8>| paths_of(r@).contains(p) <==> paths_of(entries@).contains(p),
        forall|a: int| 0 <= a < r@.len() ==> copied_from(#[trigger] r@[a], entries@),
{
    let n = entries.len();
    let ghost all = paths_of(entries@);
    let mut out: Vec<NotePath> = Vec::new();
    let mut seen: Vec<Vec<u8>> = Vec::new();
    let mut i: usize = 0;
    while i < n
        invariant
            0 <= i <= n,
            n == entries@.len(),
            all == paths_of(entries@),
            seen.deep_view().len() == out@.len(),
            forall|a: int|
                0 <= a < out@.len() ==> #[trigger] seen.deep_view()[a] == paths_of(out@)[a],
            forall|a: int, b: int|
                0 <= a < b < out@.len() ==> paths_of(out@)[a] != paths_of(out@)[b],
            forall|p: Seq<u8>| paths_of(out@).contains(p) <==> all.take(i as int).contains(p),
            forall|a: int| 0 <= a < out@.len() ==> copied_from(#[trigger] out@[a], entries@),
        decreases n - i,
    {
        proof {
            assert(all[i as int] == entries@[i as int].path@);
        }
        let dup = is_excluded_name(entries[i].path.as_slice(), &seen);
        let ghost prev_out = out@;
        let ghost prev_seen = seen.deep_view();
        if !dup {
            let key = sub_bytes(entries[i].path.as_slice(), 0, entries[i].path.len());
            let rel = sub_bytes(entries[i].relative_path.as_slice(), 0, entries[i].relative_path.len());
            let copy = NotePath { path: key, relative_path: rel };
            out.push(copy);
            let key2 = sub_bytes(entries[i].path.as_slice(), 0, entries[i].path.len());
            seen.push(key2);
            proof {
                crate::text::lemma_deep_view_bytes(seen@[prev_seen.len() as int]);
                assert(seen.deep_view() =~~= prev_seen.push(out@[prev_out.len() as int].path@));
                assert(paths_of(out@) =~~= paths_of(prev_out).push(
                    out@[prev_out.len() as int].path@,
                ));
                assert((out@[prev_out.len() as int]).path@ == entries@[i as int].path@
                    && out@[prev_out.len() as int].relative_path@ == entries@[
                    i as int
                ].relative_path@);
                assert forall|a: int, b: int|
                    0 <= a < b < out@.len() implies paths_of(out@)[a] != paths_of(out@)[b] by {
                    if b == prev_out.len() {
                        assert(prev_seen[a] == paths_of(prev_out)[a]);
                        assert(paths_of(out@)[a] == paths_of(prev_out)[a]);
                        assert(paths_of(out@)[b] == entries@[i as int].path@);
                    } else {
                        assert(paths_of(out@)[a] == paths_of(prev_out)[a]);
                        assert(paths_of(out@)[b] == paths_of(prev_out)[b]);
                    }
                }
            }
        }
        proof {
            assert forall|a: int| 0 <= a < out@.len() implies copied_from(
                #[trigger] out@[a],
                entries@,
            ) by {
                if a < prev_out.len() {
                    assert(out@[a] == prev_out[a]);
                    assert(copied_from(prev_out[a], entries@));
                } else {
                    assert(out@[a].path@ == (#[trigger] entries@[i as int]).path@ && out@[
                    a
                    ].relative_path@ == entries@[i as int].relative_path@);
                }
            }
        }
        proof {
            assert forall|p: Seq<u8>| #[trigger]
                paths_of(out@).contains(p) <==> all.take(i + 1).contains(p) by {
                if paths_of(out@).contains(p) {
                    let a = choose|a: int| 0 <= a < paths_of(out@).len() && #[trigger] paths_of(out@)[a] == p;
                    if a < prev_out.len() {
                        assert(paths_of(prev_out)[a] == p);
                        assert(paths_of(prev_out).contains(p));
                        let b = choose|b: int| 0 <= b < i && #[trigger] all.take(i as int)[b] == p;
                        assert(all.take(i + 1)[b] == p);
                    } else {
                        assert(p == entries@[i as int].path@);
                        assert(all.take(i + 1)[i as int] == p);
                    }
                }
                if all.take(i + 1).contains(p) {
                    let b = choose|b: int| 0 <= b < i + 1 && #[trigger] all.take(i + 1)[b] == p;
                    if b < i {
                        assert(all.take(i as int)[b] == p);
                        assert(all.take(i as int).contains(p));
                        assert(paths_of(prev_out).contains(p));
                        let a = choose|a: int|
                            0 <= a < prev_out.len() && #[trigger] paths_of(prev_out)[a] == p;
                        assert(paths_of(out@)[a] == p);
                    } else {
                        assert(p == entries@[i as int].path@);
                        if dup {
                            let a = choose|a: int| 0 <= a < prev_seen.len() && #[trigger] prev_seen[a] == p;
                            assert(paths_of(out@)[a] == p);
                        } else {
                            assert(paths_of(out@)[prev_out.len() as int] == p);
                        }
                    }
                }
            }
        }
        i = i + 1;
    }
    proof {
        assert(all.take(n as int) =~~= all);
    }
    out
}

} // verus!
