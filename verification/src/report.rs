//! Report data: rule violations and duplicated code.

use vstd::prelude::*;
use crate::config::thresholds::Severity;

verus! {

/// A single rule violation with its importance level.
#[derive(Debug)]
pub struct Issue {
    /// Description of the problem.
    pub message: String,
    /// Importance level.
    pub severity: Severity,
}

/// Details about a specific duplicated code chunk.
#[derive(Debug)]
pub struct RepetitionDetail {
    /// The actual code content that is repeated.
    pub content: String,
    /// Starting line number in the file.
    pub line: usize,
    /// Other places (file, line) where this same chunk appears.
    pub occurrences: Vec<(String, usize)>,
}

pub open spec fn issues_view(v: Seq<Issue>) -> Seq<(Seq<char>, Severity)> {
    v.map_values(|i: Issue| (i.message@, i.severity))
}

/// No issue is an error.
pub open spec fn all_sweet(v: Seq<Issue>) -> bool {
    forall|k: int| 0 <= k < v.len() ==> #[trigger] v[k].severity != Severity::Error
}

/// True if no Error-level thresholds were exceeded.
pub fn is_sweet(issues: &Vec<Issue>) -> (r: bool)
    ensures
        r == all_sweet(issues@),
{
    let mut k: usize = 0;
    while k < issues.len()
        invariant
            0 <= k <= issues@.len(),
            forall|j: int| 0 <= j < k ==> #[trigger] issues@[j].severity != Severity::Error,
        decreases issues@.len() - k,
    {
        if issues[k].severity == Severity::Error {
            return false;
        }
        k = k + 1;
    }
    true
}

/// How many of the files are bitter (not sweet).
pub open spec fn bitter_files(sweet: Seq<bool>) -> nat
    decreases sweet.len(),
{
    if sweet.len() == 0 {
        0
    } else {
        bitter_files(sweet.drop_last()) + if sweet.last() {
            0nat
        } else {
            1nat
        }
    }
}

/// The number of bitter files among the files' verdicts; a run fails when
/// it is not zero.
pub fn bitter_count(sweet: &Vec<bool>) -> (r: usize)
    ensures
        r == bitter_files(sweet@),
        r > 0 <==> exists|i: int| 0 <= i < sweet@.len() && !sweet@[i],
{
    let mut count: usize = 0;
    let mut k: usize = 0;
    proof {
        assert(sweet@.take(0) =~= Seq::<bool>::empty());
    }
    while k < sweet.len()
        invariant
            0 <= k <= sweet@.len(),
            count == bitter_files(sweet@.take(k as int)),
            count <= k,
            count > 0 <==> exists|i: int| 0 <= i < k && !sweet@[i],
        decreases sweet@.len() - k,
    {
        proof {
            assert(sweet@.take(k + 1).drop_last() =~= sweet@.take(k as int));
            assert(sweet@.take(k + 1).last() == sweet@[k as int]);
        }
        if !sweet[k] {
            count = count + 1;
        }
        k = k + 1;
    }
    proof {
        assert(sweet@.take(k as int) =~= sweet@);
    }
    count
}

} // verus!
