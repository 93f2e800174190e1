//! Planning for the atomic-apply step.
//!
//! Once a group has a union and a completeness vector, every incomplete
//! member must receive the union content — either in place (the caller
//! renames a temporary file onto the member's path) or as a sidecar file next
//! to it.  This module computes, from plain path strings, exactly which
//! members are written and at which destination path; the caller performs the
//! writes through its own temp-file-then-rename machinery so that no
//! half-written file is ever observable.

use vstd::prelude::*;
use vstd::string::StringExecFns;

verus! {

/// Suffix appended to a member's path to name its sidecar file.
pub open spec fn sidecar_name(p: Seq<char>) -> Seq<char> {
    p + ".merged"@
}

/// The sidecar path for a member: its own path with the fixed suffix.
pub fn sidecar_path(path: &String) -> (r: String)
    ensures
        r@ == sidecar_name(path@),
{
    let mut r = path.clone();
    r.append(".merged");
    r
}

/// One planned write: member `index` receives the union content at `dest`,
/// which is either the member's own path or its sidecar path.
pub struct ApplyTarget {
    /// Position of the member within its group.
    pub index: usize,
    /// Path the union content is persisted at.
    pub dest: String,
    /// True when `dest` is a sidecar path rather than the member's own path.
    pub sidecar: bool,
}

/// The positions of the `false` entries of a completeness vector, ascending.
pub open spec fn incomplete_indices(c: Seq<bool>) -> Seq<int>
    decreases c.len(),
{
    if c.len() == 0 {
        Seq::empty()
    } else if !c.last() {
        incomplete_indices(c.drop_last()).push(c.len() - 1)
    } else {
        incomplete_indices(c.drop_last())
    }
}

/// Plans the apply step: exactly the incomplete members are written, in
/// ascending order, each at its own path when replacing in place or at its
/// sidecar path otherwise.  Complete members are never written.
pub fn plan_apply(paths: &Vec<String>, complete: &Vec<bool>, replace: bool) -> (plan: Vec<
    ApplyTarget,
>)
    requires
        paths@.len() == complete@.len(),
    ensures
        plan@.map_values(|t: ApplyTarget| t.index as int) == incomplete_indices(complete@),
        forall|k: int|
            0 <= k < plan@.len() ==> (#[trigger] plan@[k]).index < paths@.len()
                && !complete@[plan@[k].index as int] && plan@[k].sidecar == !replace
                && plan@[k].dest@ == (if replace {
                paths@[plan@[k].index as int]@
            } else {
                sidecar_name(paths@[plan@[k].index as int]@)
            }),
{
    let n = paths.len();
    let mut plan: Vec<ApplyTarget> = Vec::new();
    let mut i: usize = 0;
    while i < n
        invariant
            n == paths@.len() == complete@.len(),
            i <= n,
            plan@.map_values(|t: ApplyTarget| t.index as int) == incomplete_indices(
                complete@.take(i as int),
            ),
            forall|k: int|
                0 <= k < plan@.len() ==> (#[trigger] plan@[k]).index < paths@.len()
                    && !complete@[plan@[k].index as int] && plan@[k].sidecar == !replace
                    && plan@[k].dest@ == (if replace {
                    paths@[plan@[k].index as int]@
                } else {
                    sidecar_name(paths@[plan@[k].index as int]@)
                }),
        decreases n - i,
    {
        proof {
            assert(complete@.take(i + 1).drop_last() =~= complete@.take(i as int));
            assert(complete@.take(i + 1).last() == complete@[i as int]);
        }
        if !complete[i] {
            let dest = if replace {
                paths[i].clone()
            } else {
                sidecar_path(&paths[i])
            };
            let ghost before = plan@;
            plan.push(ApplyTarget { index: i, dest, sidecar: !replace });
            proof {
                assert(plan@.map_values(|t: ApplyTarget| t.index as int) =~= before.map_values(
                    |t: ApplyTarget| t.index as int,
                ).push(i as int));
            }
        }
        i = i + 1;
    }
    proof {
        assert(complete@.take(n as int) =~= complete@);
    }
    plan
}

} // verus!
