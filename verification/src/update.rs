//! Choices of a self-update: the first published release that is newer than
//! the running version, the asset built for this platform, and the binary
//! among the files an archive unpacked to. Fetching, downloading and
//! replacing the executable are the caller's part.

use vstd::prelude::*;
use crate::text::{chars_of, chars_occur_at, chars_contain_from, contains_seq, starts_with, lemma_find_from_skip};

verus! {

/// What `self_update::version::bump_is_greater(current, other)` returns:
/// whether `other` is a greater semantic version than `current`, or nothing
/// when either is not a semantic version.
pub uninterp spec fn version_is_newer(current: Seq<char>, other: Seq<char>) -> Option<bool>;

/// `self_update::version::bump_is_greater`: both texts are parsed as
/// semantic versions (`semver::Version::parse`) and compared; a parse
/// failure is the error. The contract names the outcome, with the error
/// as nothing.
#[verifier::external_body]
fn bump_is_greater(current: &str, other: &str) -> (r: Option<bool>)
    ensures
        r == version_is_newer(current@, other@),
{
    self_update::version::bump_is_greater(current, other).ok()
}

/// The index of the first outcome that says "newer", if any.
pub open spec fn first_newer(outcomes: Seq<Option<bool>>) -> Option<int>
    decreases outcomes.len(),
{
    if outcomes.len() == 0 {
        None
    } else {
        match first_newer(outcomes.drop_last()) {
            Some(i) => Some(i),
            None => if outcomes.last() == Some(true) {
                Some(outcomes.len() - 1)
            } else {
                None
            },
        }
    }
}

pub open spec fn opt_index(r: Option<usize>) -> Option<int> {
    match r {
        Some(i) => Some(i as int),
        None => None,
    }
}

/// The index of the first comparison outcome that says "newer"; an outcome
/// that is no comparison counts as "not newer".
pub fn first_newer_index(outcomes: &Vec<Option<bool>>) -> (r: Option<usize>)
    ensures
        opt_index(r) == first_newer(outcomes@),
{
    let mut k: usize = 0;
    proof {
        assert(outcomes@.take(0) =~= Seq::<Option<bool>>::empty());
    }
    while k < outcomes.len()
        invariant
            0 <= k <= outcomes@.len(),
            first_newer(outcomes@.take(k as int)) is None,
        decreases outcomes@.len() - k,
    {
        proof {
            assert(outcomes@.take(k + 1).drop_last() =~= outcomes@.take(k as int));
            assert(outcomes@.take(k + 1).last() == outcomes@[k as int]);
        }
        if outcomes[k] == Some(true) {
            proof {
                lemma_first_newer_prefix(outcomes@, k + 1);
            }
            return Some(k);
        }
        k = k + 1;
    }
    proof {
        assert(outcomes@.take(k as int) =~= outcomes@);
    }
    None
}

/// The first outcome that says "newer" within a prefix is the first one overall.
proof fn lemma_first_newer_prefix(s: Seq<Option<bool>>, n: int)
    requires
        0 <= n <= s.len(),
        first_newer(s.take(n)) is Some,
    ensures
        first_newer(s) == first_newer(s.take(n)),
    decreases s.len(),
{
    if n < s.len() {
        assert(s.drop_last().take(n) =~= s.take(n));
        lemma_first_newer_prefix(s.drop_last(), n);
    } else {
        assert(s.take(n) =~= s);
    }
}

pub open spec fn newer_outcomes(current: Seq<char>, versions: Seq<String>) -> Seq<Option<bool>> {
    versions.map_values(|v: String| version_is_newer(current, v@))
}

/// The index of the first published version that is newer than `current`.
pub fn find_newer_release(current: &str, versions: &Vec<String>) -> (r: Option<usize>)
    ensures
        opt_index(r) == first_newer(newer_outcomes(current@, versions@)),
{
    let mut outcomes: Vec<Option<bool>> = Vec::new();
    let mut k: usize = 0;
    while k < versions.len()
        invariant
            0 <= k <= versions@.len(),
            outcomes@ == newer_outcomes(current@, versions@).take(k as int),
        decreases versions@.len() - k,
    {
        let o = bump_is_greater(current, versions[k].as_str());
        outcomes.push(o);
        k = k + 1;
        proof {
            assert(outcomes@ =~= newer_outcomes(current@, versions@).take(k as int));
        }
    }
    proof {
        assert(outcomes@ =~= newer_outcomes(current@, versions@));
    }
    first_newer_index(&outcomes)
}

/// Whether `p` occurs in `s`.
fn text_contains(s: &str, p: &str) -> (r: bool)
    ensures
        r == contains_seq(s@, p@),
{
    let sv = chars_of(s);
    let pv = chars_of(p);
    proof {
        lemma_find_from_skip(sv@, pv@, 0);
        assert(sv@.skip(0) =~= sv@);
    }
    chars_contain_from(&sv, 0, &pv)
}

/// Whether `s` begins with `p`.
fn text_starts_with(s: &str, p: &str) -> (r: bool)
    ensures
        r == starts_with(s@, p@),
{
    let sv = chars_of(s);
    let pv = chars_of(p);
    let b = chars_occur_at(&sv, &pv, 0);
    proof {
        assert(b == (pv@.len() <= sv@.len() && sv@.subrange(0, pv@.len() as int) == pv@));
    }
    b
}

/// An asset of this program built for the platform `target`.
pub open spec fn is_platform_asset(name: Seq<char>, target: Seq<char>) -> bool {
    starts_with(name, "swt"@) && contains_seq(name, target)
}

/// `r` is the index of the first of `names` that satisfies `pred`, or
/// nothing when none does.
pub open spec fn first_such(names: Seq<String>, pred: spec_fn(Seq<char>) -> bool, r: Option<usize>) -> bool {
    match r {
        Some(i) => i < names.len() && pred(names[i as int]@) && forall|j: int| 0 <= j < i ==> !pred(#[trigger] names[j]@),
        None => forall|j: int| 0 <= j < names.len() ==> !pred(#[trigger] names[j]@),
    }
}

/// The first asset of this program built for the platform `target`.
pub fn select_asset(names: &Vec<String>, target: &str) -> (r: Option<usize>)
    ensures
        first_such(names@, |n: Seq<char>| is_platform_asset(n, target@), r),
{
    let ghost pred = |n: Seq<char>| is_platform_asset(n, target@);
    let mut k: usize = 0;
    while k < names.len()
        invariant
            0 <= k <= names@.len(),
            pred == (|n: Seq<char>| is_platform_asset(n, target@)),
            forall|j: int| 0 <= j < k ==> !pred(#[trigger] names@[j]@),
        decreases names@.len() - k,
    {
        let name = names[k].as_str();
        if text_starts_with(name, "swt") && text_contains(name, target) {
            return Some(k);
        }
        k = k + 1;
    }
    None
}

/// A name of a packed archive.
pub open spec fn is_archive_name(name: Seq<char>) -> bool {
    contains_seq(name, ".tar"@) || contains_seq(name, ".zip"@)
}

/// Whether a downloaded asset is a packed archive that must be unpacked.
pub fn is_archive(name: &str) -> (r: bool)
    ensures
        r == is_archive_name(name@),
{
    text_contains(name, ".tar") || text_contains(name, ".zip")
}

/// An unpacked file that holds this program's binary.
pub open spec fn is_binary_name(name: Seq<char>) -> bool {
    starts_with(name, "swt"@) && !is_archive_name(name)
}

/// The first of the unpacked files that holds this program's binary.
pub fn pick_binary(names: &Vec<String>) -> (r: Option<usize>)
    ensures
        first_such(names@, |n: Seq<char>| is_binary_name(n), r),
{
    let ghost pred = |n: Seq<char>| is_binary_name(n);
    let mut k: usize = 0;
    while k < names.len()
        invariant
            0 <= k <= names@.len(),
            pred == (|n: Seq<char>| is_binary_name(n)),
            forall|j: int| 0 <= j < k ==> !pred(#[trigger] names@[j]@),
        decreases names@.len() - k,
    {
        let name = names[k].as_str();
        if text_starts_with(name, "swt") && !is_archive(name) {
            return Some(k);
        }
        k = k + 1;
    }
    None
}

} // verus!
