//! What `mox checkout <name or hash>` switches to.

use vstd::prelude::*;
use crate::branch::{BranchRow, BranchView, rows_view};

verus! {

/// The target of a checkout.
pub enum CheckoutTarget {
    /// Switch to this profile, restoring its last commit if it has one.
    Branch { name: String, last_commit_hash: Option<String> },
    /// Restore the commit whose hash begins with this prefix.
    CommitPrefix(String),
}

/// The index of the first row named `name`, if any.
pub open spec fn first_branch_named(rows: Seq<BranchView>, name: Seq<char>) -> Option<int> {
    if exists|i: int| 0 <= i < rows.len() && (#[trigger] rows[i]).0 == name {
        Some(
            choose|i: int|
                0 <= i < rows.len() && (#[trigger] rows[i]).0 == name && forall|k: int|
                    0 <= k < i ==> (#[trigger] rows[k]).0 != name,
        )
    } else {
        None
    }
}

proof fn lemma_first_branch_named(rows: Seq<BranchView>, name: Seq<char>, i: int)
    requires
        0 <= i < rows.len(),
        rows[i].0 == name,
        forall|k: int| 0 <= k < i ==> (#[trigger] rows[k]).0 != name,
    ensures
        first_branch_named(rows, name) == Some(i),
{
    let j = choose|j: int|
        0 <= j < rows.len() && (#[trigger] rows[j]).0 == name && forall|k: int|
            0 <= k < j ==> (#[trigger] rows[k]).0 != name;
    assert(0 <= j < rows.len() && rows[j].0 == name && forall|k: int|
        0 <= k < j ==> (#[trigger] rows[k]).0 != name);
    if j < i {
        assert(rows[j].0 != name);
    }
    if i < j {
        assert(rows[i].0 != name);
    }
}

/// Decides what `name_or_hash` designates: the profile of that name when
/// one exists (profile names take precedence), else a commit-hash prefix.
pub fn resolve_checkout(name_or_hash: &str, branches: &Vec<BranchRow>) -> (t: CheckoutTarget)
    ensures
        match t {
            CheckoutTarget::Branch { name, last_commit_hash } => {
                &&& first_branch_named(rows_view(branches@), name_or_hash@) is Some
                &&& name@ == name_or_hash@
                &&& (name@, match last_commit_hash {
                    Some(h) => Some(h@),
                    None => None,
                }) == rows_view(branches@)[first_branch_named(
                    rows_view(branches@),
                    name_or_hash@,
                )->0]
            },
            CheckoutTarget::CommitPrefix(p) => {
                &&& first_branch_named(rows_view(branches@), name_or_hash@) is None
                &&& p@ == name_or_hash@
            },
        },
{
    let wanted = String::from_str(name_or_hash);
    let ghost rv = rows_view(branches@);
    let mut i: usize = 0;
    while i < branches.len()
        invariant
            rv == rows_view(branches@),
            wanted@ == name_or_hash@,
            i <= branches@.len(),
            forall|k: int| 0 <= k < i ==> (#[trigger] rv[k]).0 != name_or_hash@,
        decreases branches@.len() - i,
    {
        if branches[i].name == wanted {
            proof {
                lemma_first_branch_named(rv, name_or_hash@, i as int);
            }
            let last = match &branches[i].last_commit_hash {
                Some(h) => Some(h.clone()),
                None => None,
            };
            return CheckoutTarget::Branch { name: wanted, last_commit_hash: last };
        }
        i = i + 1;
    }
    assert(forall|k: int| 0 <= k < rv.len() ==> (#[trigger] rv[k]).0 != name_or_hash@);
    CheckoutTarget::CommitPrefix(wanted)
}

} // verus!
