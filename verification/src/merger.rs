//! Group-level merge pipeline: classification and apply planning.
//!
//! `process_group` takes a group of member contents (with the members' paths)
//! and produces the group's outcome: its classification, the synthesized
//! union, and the planned writes.  The caller is responsible for reading the
//! members' bytes beforehand and for persisting the planned writes afterwards
//! through a temp-file-then-rename step.

use vstd::prelude::*;

use crate::apply::{incomplete_indices, plan_apply, sidecar_name, ApplyTarget};
use crate::engine::{
    check_sanity_and_completes, group_ok, lemma_equal_members_union, lemma_group_ok_iff_no_conflict,
    no_conflict, same_len, union_seq, views_of, MergeError,
};

verus! {

/// Classification of one processed file group.
#[derive(Debug, Clone, Copy, PartialEq, Eq, Structural)]
pub enum GroupStatus {
    /// At least one incomplete member received the union content.
    Merged,
    /// Nothing to do: the group was trivial or every member was complete.
    Skipped,
    /// A conflict was detected; no member was touched.
    Failed,
}

/// Report for one processed file group.
#[derive(Debug)]
pub struct GroupStats {
    /// How the group was classified.
    pub status: GroupStatus,
    /// Elapsed processing time in nanoseconds, measured and filled in by the
    /// caller that owns the clock; this crate always leaves it zero.
    pub processing_time: u64,
    /// The common member length in bytes (zero for an empty group).
    pub bytes_processed: u64,
    /// Paths of the sidecar files the caller is to create; empty when
    /// replacing in place or when nothing is merged.
    pub merged_files: Vec<String>,
}

/// Every member already equals the union.
pub open spec fn all_complete(mems: Seq<Seq<u8>>) -> bool {
    forall|i: int| 0 <= i < mems.len() ==> #[trigger] mems[i] == union_seq(mems)
}

/// How a group of member contents is classified: trivial groups are skipped,
/// inconsistent groups fail, groups with an incomplete member are merged.
/// Meaningful for groups whose members share one length.
pub open spec fn spec_status(mems: Seq<Seq<u8>>) -> GroupStatus {
    if mems.len() == 0 || mems[0].len() == 0 {
        GroupStatus::Skipped
    } else if !group_ok(mems) {
        GroupStatus::Failed
    } else if all_complete(mems) {
        GroupStatus::Skipped
    } else {
        GroupStatus::Merged
    }
}

/// One member's completeness, for every member of the group.
pub open spec fn completeness_of(mems: Seq<Seq<u8>>) -> Seq<bool> {
    Seq::new(mems.len(), |i: int| mems[i] == union_seq(mems))
}

/// Everything a caller needs to finish one group: its report, the union
/// content, and the planned writes.
pub struct GroupOutcome {
    /// The group's report.
    pub stats: GroupStats,
    /// The synthesized union; empty unless the group was merged.
    pub union: Vec<u8>,
    /// The planned writes; empty unless the group was merged.
    pub targets: Vec<ApplyTarget>,
}

/// Runs one file group through the engine and the apply planner.
///
/// `paths` and `members` describe the same group member for member: the
/// member's path and its full content.  Members of unequal length are a
/// reportable error and nothing is planned.  Otherwise the group is
/// classified by `spec_status`, and exactly when it is `Merged` the outcome
/// carries the union and one planned write per incomplete member.
pub fn process_group(paths: &Vec<String>, members: &Vec<Vec<u8>>, replace: bool) -> (r: Result<
    GroupOutcome,
    MergeError,
>)
    requires
        paths@.len() == members@.len(),
    ensures
        ({
            let mems = views_of(members@);
            &&& (r is Err <==> mems.len() > 0 && mems[0].len() > 0 && !same_len(mems))
            &&& (r matches Err(e) ==> e == MergeError::SizeMismatch)
            &&& (r matches Ok(out) ==> ({
                &&& out.stats.status == spec_status(mems)
                &&& out.stats.bytes_processed == (if mems.len() == 0 {
                    0int
                } else {
                    mems[0].len() as int
                })
                &&& out.stats.processing_time == 0
                &&& (out.stats.status is Merged ==> out.union@ == union_seq(mems)
                    && out.targets@.map_values(|t: ApplyTarget| t.index as int)
                    == incomplete_indices(completeness_of(mems)) && (forall|k: int|
                    0 <= k < out.targets@.len() ==> (#[trigger] out.targets@[k]).index
                        < mems.len() && mems[out.targets@[k].index as int] != union_seq(mems)
                        && out.targets@[k].sidecar == !replace && out.targets@[k].dest@ == (
                    if replace {
                        paths@[out.targets@[k].index as int]@
                    } else {
                        sidecar_name(paths@[out.targets@[k].index as int]@)
                    })))
                &&& (out.stats.status is Merged && !replace ==> out.stats.merged_files@.len()
                    == out.targets@.len() && (forall|k: int|
                    0 <= k < out.targets@.len() ==> #[trigger] out.stats.merged_files@[k]@ == (
                    out.targets@[k]).dest@))
                &&& (out.stats.status is Merged && replace ==> out.stats.merged_files@.len() == 0)
                &&& (!(out.stats.status is Merged) ==> out.union@.len() == 0 && out.targets@.len()
                    == 0 && out.stats.merged_files@.len() == 0)
            }))
        }),
{
    let n = members.len();
    if n == 0 {
        return Ok(GroupOutcome {
            stats: GroupStats {
                status: GroupStatus::Skipped,
                processing_time: 0,
                bytes_processed: 0,
                merged_files: Vec::new(),
            },
            union: Vec::new(),
            targets: Vec::new(),
        });
    }
    let size = members[0].len();
    proof {
        assert(views_of(members@)[0].len() == size);
    }
    if size == 0 {
        return Ok(GroupOutcome {
            stats: GroupStats {
                status: GroupStatus::Skipped,
                processing_time: 0,
                bytes_processed: 0,
                merged_files: Vec::new(),
            },
            union: Vec::new(),
            targets: Vec::new(),
        });
    }
    let bytes = size as u64;
    match check_sanity_and_completes(members) {
        Err(e) => Err(e),
        Ok(None) => Ok(GroupOutcome {
            stats: GroupStats {
                status: GroupStatus::Failed,
                processing_time: 0,
                bytes_processed: bytes,
                merged_files: Vec::new(),
            },
            union: Vec::new(),
            targets: Vec::new(),
        }),
        Ok(Some((union, is_complete))) => {
            proof {
                let mems = views_of(members@);
                assert(is_complete@ =~= completeness_of(mems));
            }
            let m = is_complete.len();
            let mut any_incomplete = false;
            let mut i: usize = 0;
            while i < m
                invariant
                    m == is_complete@.len(),
                    i <= m,
                    any_incomplete == !(forall|i0: int|
                        0 <= i0 < i ==> #[trigger] is_complete@[i0]),
                decreases m - i,
            {
                if !is_complete[i] {
                    any_incomplete = true;
                }
                i = i + 1;
            }
            if !any_incomplete {
                proof {
                    let mems = views_of(members@);
                    assert forall|i0: int| 0 <= i0 < mems.len() implies #[trigger] mems[i0]
                        == union_seq(mems) by {
                        assert(is_complete@[i0]);
                    }
                    assert(all_complete(mems));
                }
                Ok(GroupOutcome {
                    stats: GroupStats {
                        status: GroupStatus::Skipped,
                        processing_time: 0,
                        bytes_processed: bytes,
                        merged_files: Vec::new(),
                    },
                    union: Vec::new(),
                    targets: Vec::new(),
                })
            } else {
                proof {
                    let mems = views_of(members@);
                    let w = choose|i0: int| 0 <= i0 < m && !is_complete@[i0];
                    assert(mems[w] != union_seq(mems));
                    assert(!all_complete(mems));
                }
                let targets = plan_apply(paths, &is_complete, replace);
                let mut merged_files: Vec<String> = Vec::new();
                if !replace {
                    let tn = targets.len();
                    let mut k: usize = 0;
                    while k < tn
                        invariant
                            tn == targets@.len(),
                            k <= tn,
                            merged_files@.len() == k,
                            forall|k0: int|
                                0 <= k0 < k ==> #[trigger] merged_files@[k0]@ == (
                                targets@[k0]).dest@,
                        decreases tn - k,
                    {
                        merged_files.push(targets[k].dest.clone());
                        k = k + 1;
                    }
                }
                Ok(GroupOutcome {
                    stats: GroupStats {
                        status: GroupStatus::Merged,
                        processing_time: 0,
                        bytes_processed: bytes,
                        merged_files,
                    },
                    union,
                    targets,
                })
            }
        },
    }
}

/// A group with a single member is always skipped: the sole member is its
/// own union, so it is complete and nothing is planned or modified.
pub proof fn lemma_single_member_skipped(mems: Seq<Seq<u8>>)
    requires
        mems.len() == 1,
    ensures
        spec_status(mems) is Skipped,
{
    if mems[0].len() > 0 {
        lemma_equal_members_union(mems, mems[0]);
    }
}

/// A group whose members all equal the element-wise union already is
/// skipped: nothing is incomplete, so nothing is planned or modified.
pub proof fn lemma_all_complete_skipped(mems: Seq<Seq<u8>>)
    requires
        mems.len() > 0,
        same_len(mems),
        all_complete(mems),
    ensures
        spec_status(mems) is Skipped,
{
    if mems[0].len() > 0 {
        assert forall|i: int, j: int|
            0 <= i < mems.len() && 0 <= j < mems[0].len() implies crate::engine::byte_ok(
            #[trigger] mems[i][j],
            crate::engine::or_fold(mems, j),
        ) by {
            assert(mems[i] == union_seq(mems));
            assert(mems[i][j] == union_seq(mems)[j]);
        }
    }
}

/// Two members carrying different non-zero bytes at the same position make
/// the whole group fail; a failed group plans no write.
pub proof fn lemma_conflict_failed(mems: Seq<Seq<u8>>, i1: int, i2: int, j: int)
    requires
        same_len(mems),
        0 <= i1 < mems.len(),
        0 <= i2 < mems.len(),
        0 <= j < mems[0].len(),
        mems[i1][j] != 0,
        mems[i2][j] != 0,
        mems[i1][j] != mems[i2][j],
    ensures
        spec_status(mems) is Failed,
{
    assert(!no_conflict(mems));
    lemma_group_ok_iff_no_conflict(mems);
}

/// Idempotence: once every member holds the union of a consistent group,
/// running the merge again classifies the group as skipped.
pub proof fn lemma_idempotent(mems: Seq<Seq<u8>>, merged: Seq<Seq<u8>>)
    requires
        mems.len() > 0,
        merged.len() == mems.len(),
        forall|i: int| 0 <= i < merged.len() ==> #[trigger] merged[i] == union_seq(mems),
    ensures
        spec_status(merged) is Skipped,
{
    lemma_equal_members_union(merged, union_seq(mems));
    lemma_all_complete_skipped(merged);
}

} // verus!
