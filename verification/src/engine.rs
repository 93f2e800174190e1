//! Consistency-check-and-merge engine.
//!
//! A file group is modelled as a sequence of equal-length byte sequences.
//! The engine computes the byte-wise union (bitwise OR across all members at
//! each position) and checks the consistency invariant: every member byte is
//! either zero ("not yet present") or equal to the union byte.  A violation
//! means two members disagree on real data and the whole group is a conflict.

use vstd::prelude::*;

verus! {

/// A member byte is acceptable against a union byte when it is either the
/// zero sentinel or carries exactly the union's value.
pub open spec fn byte_ok(b: u8, u: u8) -> bool {
    b == 0 || b == u
}

/// Bitwise OR of all members' bytes at position `j`.
pub open spec fn or_fold(mems: Seq<Seq<u8>>, j: int) -> u8
    decreases mems.len(),
{
    if mems.len() == 0 {
        0u8
    } else {
        or_fold(mems.drop_last(), j) | mems.last()[j]
    }
}

/// The views of a vector of byte vectors, as a sequence of byte sequences.
pub open spec fn views_of(members: Seq<Vec<u8>>) -> Seq<Seq<u8>> {
    Seq::new(members.len(), |i: int| members[i]@)
}

/// All members share the first member's length.
pub open spec fn same_len(mems: Seq<Seq<u8>>) -> bool {
    forall|i: int| 0 <= i < mems.len() ==> (#[trigger] mems[i]).len() == mems[0].len()
}

/// The byte-wise union of all members, over the common length.
pub open spec fn union_seq(mems: Seq<Seq<u8>>) -> Seq<u8> {
    Seq::new(mems[0].len(), |j: int| or_fold(mems, j))
}

/// The consistency invariant over byte positions `lo <= j < hi`.
pub open spec fn range_ok(mems: Seq<Seq<u8>>, lo: int, hi: int) -> bool {
    forall|i: int, j: int|
        0 <= i < mems.len() && lo <= j < hi ==> byte_ok(
            #[trigger] mems[i][j],
            or_fold(mems, j),
        )
}

/// The consistency invariant over the whole common length.
pub open spec fn group_ok(mems: Seq<Seq<u8>>) -> bool {
    range_ok(mems, 0, mems[0].len() as int)
}

/// No two members carry different non-zero bytes at the same position.
pub open spec fn no_conflict(mems: Seq<Seq<u8>>) -> bool {
    forall|i1: int, i2: int, j: int|
        0 <= i1 < mems.len() && 0 <= i2 < mems.len() && 0 <= j < mems[0].len() && #[trigger] mems[i1][j]
            != 0 && #[trigger] mems[i2][j] != 0 ==> mems[i1][j] == mems[i2][j]
}

/// Byte `k` (little-endian) of a 64-bit word.
pub open spec fn wbyte(w: u64, k: int) -> u8 {
    ((w >> (8 * k as u64)) & 0xff) as u8
}

/// Every byte of `w` is acceptable against the matching byte of `or_w`.
pub open spec fn word_ok(w: u64, or_w: u64) -> bool {
    forall|k: int| 0 <= k < 8 ==> byte_ok(#[trigger] wbyte(w, k), wbyte(or_w, k))
}

/// Checks the consistency invariant for one machine word of a member (`w`)
/// against the matching word of the union (`or_w`), eight bytes at a time.
pub fn check_word_sanity(w: u64, or_w: u64) -> (r: bool)
    ensures
        r == word_ok(w, or_w),
{
    if w == or_w {
        return true;
    }
    let mut k: u64 = 0;
    while k < 8
        invariant
            k <= 8,
            forall|k0: int| 0 <= k0 < k ==> byte_ok(#[trigger] wbyte(w, k0), wbyte(or_w, k0)),
        decreases 8 - k,
    {
        let shift: u64 = k * 8;
        let b = ((w >> shift) & 0xff) as u8;
        let or_b = ((or_w >> shift) & 0xff) as u8;
        proof {
            assert((w >> shift) & 0xff < 256) by (bit_vector);
            assert((or_w >> shift) & 0xff < 256) by (bit_vector);
        }
        if b != 0 && b != or_b {
            assert(!byte_ok(wbyte(w, k as int), wbyte(or_w, k as int)));
            return false;
        }
        k = k + 1;
    }
    true
}

/// A 64-bit word read little-endian from `s` at byte offset `off`.
pub open spec fn word_of(s: Seq<u8>, off: int) -> u64 {
    (s[off] as u64) | ((s[off + 1] as u64) << 8u64) | ((s[off + 2] as u64) << 16u64) | ((s[off
        + 3] as u64) << 24u64) | ((s[off + 4] as u64) << 32u64) | ((s[off + 5] as u64) << 40u64)
        | ((s[off + 6] as u64) << 48u64) | ((s[off + 7] as u64) << 56u64)
}

proof fn lemma_word_unpack(b0: u8, b1: u8, b2: u8, b3: u8, b4: u8, b5: u8, b6: u8, b7: u8, w: u64)
    by (bit_vector)
    requires
        w == (b0 as u64) | ((b1 as u64) << 8u64) | ((b2 as u64) << 16u64) | ((b3 as u64) << 24u64)
            | ((b4 as u64) << 32u64) | ((b5 as u64) << 40u64) | ((b6 as u64) << 48u64) | ((
        b7 as u64) << 56u64),
    ensures
        ((w >> (8 * 0u64)) & 0xff) as u8 == b0,
        ((w >> (8 * 1u64)) & 0xff) as u8 == b1,
        ((w >> (8 * 2u64)) & 0xff) as u8 == b2,
        ((w >> (8 * 3u64)) & 0xff) as u8 == b3,
        ((w >> (8 * 4u64)) & 0xff) as u8 == b4,
        ((w >> (8 * 5u64)) & 0xff) as u8 == b5,
        ((w >> (8 * 6u64)) & 0xff) as u8 == b6,
        ((w >> (8 * 7u64)) & 0xff) as u8 == b7,
{
}

fn load_word(v: &Vec<u8>, off: usize) -> (w: u64)
    requires
        off + 8 <= v.len(),
    ensures
        w == word_of(v@, off as int),
{
    (v[off] as u64) | ((v[off + 1] as u64) << 8u64) | ((v[off + 2] as u64) << 16u64) | ((v[off
        + 3] as u64) << 24u64) | ((v[off + 4] as u64) << 32u64) | ((v[off + 5] as u64) << 40u64)
        | ((v[off + 6] as u64) << 48u64) | ((v[off + 7] as u64) << 56u64)
}

/// Compares one word-sized slice of a member against the matching words of a
/// union chunk.  Returns whether the eight bytes are all equal, and whether
/// they all satisfy the consistency invariant.
fn scan_word(member: &Vec<u8>, uchunk: &Vec<u8>, start: usize, k: usize) -> (r: (bool, bool))
    requires
        start + uchunk.len() <= member.len(),
        k + 8 <= uchunk.len(),
    ensures
        r.0 == (forall|p: int| k <= p < k + 8 ==> member@[start + p] == uchunk@[p]),
        r.1 == (forall|p: int| k <= p < k + 8 ==> byte_ok(member@[start + p], uchunk@[p])),
{
    let w = load_word(member, start + k);
    let uw = load_word(uchunk, k);
    proof {
        lemma_word_unpack(
            member@[start + k],
            member@[start + k + 1],
            member@[start + k + 2],
            member@[start + k + 3],
            member@[start + k + 4],
            member@[start + k + 5],
            member@[start + k + 6],
            member@[start + k + 7],
            w,
        );
        lemma_word_unpack(
            uchunk@[k as int],
            uchunk@[k + 1],
            uchunk@[k + 2],
            uchunk@[k + 3],
            uchunk@[k + 4],
            uchunk@[k + 5],
            uchunk@[k + 6],
            uchunk@[k + 7],
            uw,
        );
        assert(wbyte(w, 0) == member@[start + k] && wbyte(uw, 0) == uchunk@[k as int]);
        assert(wbyte(w, 1) == member@[start + k + 1] && wbyte(uw, 1) == uchunk@[k + 1]);
        assert(wbyte(w, 2) == member@[start + k + 2] && wbyte(uw, 2) == uchunk@[k + 2]);
        assert(wbyte(w, 3) == member@[start + k + 3] && wbyte(uw, 3) == uchunk@[k + 3]);
        assert(wbyte(w, 4) == member@[start + k + 4] && wbyte(uw, 4) == uchunk@[k + 4]);
        assert(wbyte(w, 5) == member@[start + k + 5] && wbyte(uw, 5) == uchunk@[k + 5]);
        assert(wbyte(w, 6) == member@[start + k + 6] && wbyte(uw, 6) == uchunk@[k + 6]);
        assert(wbyte(w, 7) == member@[start + k + 7] && wbyte(uw, 7) == uchunk@[k + 7]);
    }
    if w == uw {
        proof {
            assert forall|p: int| k <= p < k + 8 implies member@[start + p] == uchunk@[p] by {
                let t = p - k;
                assert(t == 0 || t == 1 || t == 2 || t == 3 || t == 4 || t == 5 || t == 6 || t
                    == 7);
            }
        }
        (true, true)
    } else {
        let sane = check_word_sanity(w, uw);
        proof {
            assert(!(forall|p: int| k <= p < k + 8 ==> member@[start + p] == uchunk@[p])) by {
                if forall|p: int| k <= p < k + 8 ==> member@[start + p] == uchunk@[p] {
                    assert(member@[start + k] == uchunk@[k as int]);
                    assert(member@[start + k + 1] == uchunk@[k + 1]);
                    assert(member@[start + k + 2] == uchunk@[k + 2]);
                    assert(member@[start + k + 3] == uchunk@[k + 3]);
                    assert(member@[start + k + 4] == uchunk@[k + 4]);
                    assert(member@[start + k + 5] == uchunk@[k + 5]);
                    assert(member@[start + k + 6] == uchunk@[k + 6]);
                    assert(member@[start + k + 7] == uchunk@[k + 7]);
                    assert(w == uw);
                    assert(false);
                }
            }
            if sane {
                assert forall|p: int| k <= p < k + 8 implies byte_ok(
                    member@[start + p],
                    uchunk@[p],
                ) by {
                    let t = p - k;
                    assert(t == 0 || t == 1 || t == 2 || t == 3 || t == 4 || t == 5 || t == 6 || t
                        == 7);
                    assert(byte_ok(wbyte(w, t), wbyte(uw, t)));
                }
            } else {
                assert(!(forall|p: int| k <= p < k + 8 ==> byte_ok(member@[start + p], uchunk@[p])))
                    by {
                    if forall|p: int| k <= p < k + 8 ==> byte_ok(member@[start + p], uchunk@[p]) {
                        assert forall|t: int| 0 <= t < 8 implies byte_ok(
                            wbyte(w, t),
                            wbyte(uw, t),
                        ) by {
                            assert(t == 0 || t == 1 || t == 2 || t == 3 || t == 4 || t == 5 || t
                                == 6 || t == 7);
                            assert(byte_ok(member@[start + k + t], uchunk@[k + t]));
                        }
                        assert(word_ok(w, uw));
                        assert(false);
                    }
                }
            }
        }
        (false, sane)
    }
}

/// Compares the slice of `member` starting at `start` against a union chunk,
/// word by word with a byte-wise tail.  Returns whether the member slice
/// equals the chunk, and whether every byte of it satisfies the consistency
/// invariant.
pub fn check_range(member: &Vec<u8>, uchunk: &Vec<u8>, start: usize) -> (r: (bool, bool))
    requires
        start + uchunk.len() <= member.len(),
    ensures
        r.0 == (forall|p: int| 0 <= p < uchunk@.len() ==> member@[start + p] == uchunk@[p]),
        r.1 == (forall|p: int| 0 <= p < uchunk@.len() ==> byte_ok(member@[start + p], uchunk@[p])),
{
    let len = uchunk.len();
    let words = len / 8;
    let mut complete = true;
    let mut wk: usize = 0;
    while wk < words
        invariant
            words == len / 8,
            wk <= words,
            len == uchunk@.len(),
            start + len <= member.len(),
            complete == (forall|p: int| 0 <= p < 8 * wk ==> member@[start + p] == uchunk@[p]),
            forall|p: int| 0 <= p < 8 * wk ==> byte_ok(member@[start + p], uchunk@[p]),
        decreases words - wk,
    {
        let k = wk * 8;
        let (eq, sane) = scan_word(member, uchunk, start, k);
        if !sane {
            return (false, false);
        }
        if !eq {
            complete = false;
        }
        wk = wk + 1;
    }
    let mut k: usize = words * 8;
    while k < len
        invariant
            words * 8 <= k <= len == uchunk@.len(),
            start + len <= member.len(),
            complete == (forall|p: int| 0 <= p < k ==> member@[start + p] == uchunk@[p]),
            forall|p: int| 0 <= p < k ==> byte_ok(member@[start + p], uchunk@[p]),
        decreases len - k,
    {
        let b = member[start + k];
        let ub = uchunk[k];
        if b != 0 && b != ub {
            return (false, false);
        }
        if b != ub {
            complete = false;
        }
        k = k + 1;
    }
    (complete, true)
}

/// Computes the byte-wise OR across all members over positions
/// `start <= p < start + len`.
pub fn or_range(members: &Vec<Vec<u8>>, start: usize, len: usize) -> (u: Vec<u8>)
    requires
        members@.len() > 0,
        forall|i: int| 0 <= i < members@.len() ==> start + len <= (#[trigger] members@[i]).len(),
    ensures
        u@.len() == len,
        forall|p: int| 0 <= p < len ==> u@[p] == or_fold(views_of(members@), start + p),
{
    let n = members.len();
    let mut u: Vec<u8> = vec![0u8; len];
    let mut i: usize = 0;
    while i < n
        invariant
            n == members@.len(),
            i <= n,
            u@.len() == len,
            forall|i0: int|
                0 <= i0 < members@.len() ==> start + len <= (#[trigger] members@[i0]).len(),
            forall|p: int|
                0 <= p < len ==> u@[p] == or_fold(views_of(members@).take(i as int), start + p),
        decreases n - i,
    {
        let mut p: usize = 0;
        while p < len
            invariant
                n == members@.len(),
                i < n,
                p <= len,
                u@.len() == len,
                forall|i0: int|
                    0 <= i0 < members@.len() ==> start + len <= (#[trigger] members@[i0]).len(),
                forall|q: int|
                    0 <= q < p ==> u@[q] == or_fold(views_of(members@).take(i as int + 1), start
                        + q),
                forall|q: int|
                    p <= q < len ==> u@[q] == or_fold(views_of(members@).take(i as int), start + q),
            decreases len - p,
        {
            let b = members[i][start + p];
            u[p] = u[p] | b;
            proof {
                let mems = views_of(members@);
                assert(mems.take(i as int + 1).drop_last() =~= mems.take(i as int));
                assert(mems.take(i as int + 1).last() == mems[i as int]);
                assert(b == mems[i as int][start + p]);
            }
            p = p + 1;
        }
        i = i + 1;
    }
    proof {
        assert(views_of(members@).take(n as int) =~= views_of(members@));
    }
    u
}

/// A group-level error: the members do not share one length.
#[derive(Debug, Clone, Copy, PartialEq, Eq, Structural)]
pub enum MergeError {
    SizeMismatch,
}

/// Number of bytes processed per lockstep round.
pub const CHUNK_SIZE: usize = 1048576;

/// Member `i` agrees with the union at every position below `hi`.
pub open spec fn complete_upto(mems: Seq<Seq<u8>>, i: int, hi: int) -> bool {
    forall|j: int| 0 <= j < hi ==> #[trigger] mems[i][j] == or_fold(mems, j)
}

/// Member `i` satisfies the consistency invariant over `lo <= j < hi`.
pub open spec fn member_range_ok(mems: Seq<Seq<u8>>, i: int, lo: int, hi: int) -> bool {
    forall|j: int| lo <= j < hi ==> byte_ok(#[trigger] mems[i][j], or_fold(mems, j))
}

/// Streams all members in lockstep and either produces the byte-wise union
/// together with one completeness flag per member, or reports that the group
/// cannot be merged.
///
/// * An empty group, or one whose first member is empty, carries nothing to
///   merge: the result is `Ok(None)`.
/// * Members of unequal length are a reportable error, not a conflict.
/// * A consistency violation (two members with different non-zero bytes at
///   one position) yields `Ok(None)`: the whole group is a conflict.
/// * Otherwise the union and the completeness vector are returned.
pub fn check_sanity_and_completes(members: &Vec<Vec<u8>>) -> (r: Result<
    Option<(Vec<u8>, Vec<bool>)>,
    MergeError,
>)
    ensures
        ({
            let mems = views_of(members@);
            &&& (members@.len() == 0 ==> (r matches Ok(o) && o is None))
            &&& (members@.len() > 0 && mems[0].len() == 0 ==> (r matches Ok(o) && o is None))
            &&& (members@.len() > 0 && mems[0].len() > 0 && !same_len(mems) ==> (r matches Err(e)
                && e == MergeError::SizeMismatch))
            &&& (members@.len() > 0 && mems[0].len() > 0 && same_len(mems) && !group_ok(mems)
                ==> (r matches Ok(o) && o is None))
            &&& (members@.len() > 0 && mems[0].len() > 0 && same_len(mems) && group_ok(mems)
                ==> (r matches Ok(Some((u, c))) && u@ == union_seq(mems) && c@.len() == mems.len()
                && (forall|i: int|
                0 <= i < c@.len() ==> (#[trigger] c@[i] <==> mems[i] == union_seq(mems)))))
        }),
{
    let n = members.len();
    if n == 0 {
        return Ok(None);
    }
    let size = members[0].len();
    if size == 0 {
        return Ok(None);
    }
    let mut i: usize = 1;
    while i < n
        invariant
            n == members@.len(),
            1 <= i <= n,
            0 < size,
            size == members@[0].len(),
            forall|i0: int| 0 <= i0 < i ==> (#[trigger] members@[i0]).len() == size,
        decreases n - i,
    {
        if members[i].len() != size {
            proof {
                let mems = views_of(members@);
                assert(mems[0].len() == size);
                assert(mems[i as int].len() != mems[0].len());
                assert(!same_len(mems));
            }
            return Err(MergeError::SizeMismatch);
        }
        i = i + 1;
    }
    proof {
        assert(same_len(views_of(members@)));
    }
    let mut is_complete: Vec<bool> = vec![true; n];
    let mut union: Vec<u8> = Vec::new();
    let mut processed: usize = 0;
    while processed < size
        invariant
            n == members@.len(),
            0 < n,
            size == members@[0].len(),
            same_len(views_of(members@)),
            processed <= size,
            union@.len() == processed,
            forall|j: int|
                0 <= j < processed ==> #[trigger] union@[j] == or_fold(views_of(members@), j),
            is_complete@.len() == n,
            forall|i0: int|
                0 <= i0 < n ==> (#[trigger] is_complete@[i0] <==> complete_upto(
                    views_of(members@),
                    i0,
                    processed as int,
                )),
            range_ok(views_of(members@), 0, processed as int),
        decreases size - processed,
    {
        let chunk = if size - processed < CHUNK_SIZE {
            size - processed
        } else {
            CHUNK_SIZE
        };
        proof {
            let mems = views_of(members@);
            assert forall|i0: int|
                0 <= i0 < members@.len() implies processed + chunk <= (#[trigger] members@[i0]).len() by {
                assert(mems[i0].len() == mems[0].len());
            }
        }
        let mut u = or_range(members, processed, chunk);
        let mut i: usize = 0;
        while i < n
            invariant
                n == members@.len(),
                0 < n,
                i <= n,
                size == members@[0].len(),
                same_len(views_of(members@)),
                processed + chunk <= size,
                0 < chunk,
                u@.len() == chunk,
                forall|p: int|
                    0 <= p < chunk ==> #[trigger] u@[p] == or_fold(
                        views_of(members@),
                        processed + p,
                    ),
                is_complete@.len() == n,
                forall|i0: int|
                    0 <= i0 < i ==> (#[trigger] is_complete@[i0] <==> complete_upto(
                        views_of(members@),
                        i0,
                        processed + chunk,
                    )),
                forall|i0: int|
                    i <= i0 < n ==> (#[trigger] is_complete@[i0] <==> complete_upto(
                        views_of(members@),
                        i0,
                        processed as int,
                    )),
                range_ok(views_of(members@), 0, processed as int),
                forall|i0: int|
                    0 <= i0 < i ==> #[trigger] member_range_ok(
                        views_of(members@),
                        i0,
                        processed as int,
                        processed + chunk,
                    ),
            decreases n - i,
        {
            proof {
                let mems = views_of(members@);
                assert(mems[i as int].len() == mems[0].len());
                assert(processed + chunk <= members@[i as int].len());
            }
            let (eq, sane) = check_range(&members[i], &u, processed);
            if !sane {
                proof {
                    let mems = views_of(members@);
                    assert(exists|p: int|
                        0 <= p < chunk && !byte_ok(mems[i as int][processed + p], u@[p]));
                    let p = choose|p: int|
                        0 <= p < chunk && !byte_ok(mems[i as int][processed + p], u@[p]);
                    assert(!byte_ok(mems[i as int][processed + p], or_fold(mems, processed + p)));
                    assert(!group_ok(mems));
                }
                return Ok(None);
            }
            if !eq {
                is_complete[i] = false;
            }
            proof {
                let mems = views_of(members@);
                assert forall|i0: int|
                    0 <= i0 < i + 1 implies #[trigger] member_range_ok(
                    mems,
                    i0,
                    processed as int,
                    processed + chunk,
                ) by {
                    if i0 == i {
                        assert forall|j: int|
                            processed <= j < processed + chunk implies byte_ok(
                            #[trigger] mems[i0][j],
                            or_fold(mems, j),
                        ) by {
                            assert(byte_ok(mems[i0][processed + (j - processed)], u@[j
                                - processed]));
                        }
                    }
                }
                assert forall|i0: int|
                    0 <= i0 < i + 1 implies (#[trigger] is_complete@[i0] <==> complete_upto(
                    mems,
                    i0,
                    processed + chunk,
                )) by {
                    if i0 == i {
                        if eq {
                            if is_complete@[i0] {
                                assert forall|j: int| 0 <= j < processed + chunk implies #[trigger]
                                    mems[i0][j] == or_fold(mems, j) by {
                                    if processed <= j {
                                        let p = j - processed;
                                        assert(0 <= p < chunk);
                                        assert(members@[i0]@[processed + p] == u@[p]);
                                        assert(mems[i0][processed + p] == u@[p]);
                                        assert(u@[p] == or_fold(mems, processed + p));
                                    } else {
                                        assert(complete_upto(mems, i0, processed as int));
                                        assert(mems[i0][j] == or_fold(mems, j));
                                    }
                                }
                            } else {
                                let j0 = choose|j: int|
                                    0 <= j < processed && mems[i0][j] != or_fold(mems, j);
                                assert(mems[i0][j0] != or_fold(mems, j0));
                            }
                        } else {
                            let p = choose|p: int|
                                0 <= p < chunk && mems[i as int][processed + p] != u@[p];
                            assert(mems[i0][processed + p] != or_fold(mems, processed + p));
                        }
                    }
                }
            }
            i = i + 1;
        }
        proof {
            let mems = views_of(members@);
            assert forall|i0: int, j: int|
                0 <= i0 < mems.len() && 0 <= j < processed + chunk implies byte_ok(
                #[trigger] mems[i0][j],
                or_fold(mems, j),
            ) by {
                if processed <= j {
                    assert(member_range_ok(mems, i0, processed as int, processed + chunk));
                    assert(byte_ok(mems[i0][j], or_fold(mems, j)));
                }
            }
        }
        union.append(&mut u);
        processed = processed + chunk;
    }
    proof {
        let mems = views_of(members@);
        assert(union@ =~= union_seq(mems));
        assert forall|i0: int|
            0 <= i0 < is_complete@.len() implies (#[trigger] is_complete@[i0] <==> mems[i0]
            == union_seq(mems)) by {
            if is_complete@[i0] {
                assert(mems[i0] =~= union_seq(mems));
            } else {
                let p = choose|j: int| 0 <= j < size && mems[i0][j] != or_fold(mems, j);
                assert(mems[i0][p] != union_seq(mems)[p]);
            }
        }
    }
    Ok(Some((union, is_complete)))
}

proof fn lemma_or_fold_zero_or(mems: Seq<Seq<u8>>, j: int, v: u8)
    requires
        forall|i: int| 0 <= i < mems.len() ==> (#[trigger] mems[i][j]) == 0 || mems[i][j] == v,
    ensures
        or_fold(mems, j) == 0 || or_fold(mems, j) == v,
    decreases mems.len(),
{
    if mems.len() > 0 {
        assert forall|i: int|
            0 <= i < mems.drop_last().len() implies (#[trigger] mems.drop_last()[i][j]) == 0
            || mems.drop_last()[i][j] == v by {
            assert(mems.drop_last()[i] == mems[i]);
        }
        lemma_or_fold_zero_or(mems.drop_last(), j, v);
        let r = or_fold(mems.drop_last(), j);
        let l = mems.last()[j];
        assert(mems[mems.len() - 1][j] == 0 || mems[mems.len() - 1][j] == v);
        assert(0u8 | 0u8 == 0u8) by (bit_vector);
        assert(v | 0u8 == v) by (bit_vector);
        assert(0u8 | v == v) by (bit_vector);
        assert(v | v == v) by (bit_vector);
    }
}

proof fn lemma_or_fold_witness(mems: Seq<Seq<u8>>, j: int, v: u8, w: int)
    requires
        0 <= w < mems.len(),
        mems[w][j] == v,
        forall|i: int| 0 <= i < mems.len() ==> (#[trigger] mems[i][j]) == 0 || mems[i][j] == v,
    ensures
        or_fold(mems, j) == v,
    decreases mems.len(),
{
    assert forall|i: int|
        0 <= i < mems.drop_last().len() implies (#[trigger] mems.drop_last()[i][j]) == 0
        || mems.drop_last()[i][j] == v by {
        assert(mems.drop_last()[i] == mems[i]);
    }
    assert(mems[mems.len() - 1][j] == 0 || mems[mems.len() - 1][j] == v);
    if w == mems.len() - 1 {
        lemma_or_fold_zero_or(mems.drop_last(), j, v);
    } else {
        assert(mems.drop_last()[w] == mems[w]);
        lemma_or_fold_witness(mems.drop_last(), j, v, w);
    }
    assert(0u8 | 0u8 == 0u8) by (bit_vector);
    assert(v | 0u8 == v) by (bit_vector);
    assert(0u8 | v == v) by (bit_vector);
    assert(v | v == v) by (bit_vector);
}

/// The consistency invariant holds exactly when no two members disagree on a
/// non-zero byte: checking each member against the running union is the same
/// as checking every pair of members against each other.
pub proof fn lemma_group_ok_iff_no_conflict(mems: Seq<Seq<u8>>)
    requires
        mems.len() > 0,
        same_len(mems),
    ensures
        group_ok(mems) <==> no_conflict(mems),
{
    if group_ok(mems) {
        assert forall|i1: int, i2: int, j: int|
            0 <= i1 < mems.len() && 0 <= i2 < mems.len() && 0 <= j < mems[0].len()
                && #[trigger] mems[i1][j] != 0 && #[trigger] mems[i2][j] != 0 implies mems[i1][j]
            == mems[i2][j] by {
            assert(byte_ok(mems[i1][j], or_fold(mems, j)));
            assert(byte_ok(mems[i2][j], or_fold(mems, j)));
        }
    }
    if no_conflict(mems) {
        assert forall|i: int, j: int|
            0 <= i < mems.len() && 0 <= j < mems[0].len() implies byte_ok(
            #[trigger] mems[i][j],
            or_fold(mems, j),
        ) by {
            if mems[i][j] != 0 {
                let v = mems[i][j];
                assert forall|i2: int|
                    0 <= i2 < mems.len() implies (#[trigger] mems[i2][j]) == 0 || mems[i2][j]
                    == v by {
                    if mems[i2][j] != 0 {
                        assert(mems[i][j] == mems[i2][j]);
                    }
                }
                lemma_or_fold_witness(mems, j, v, i);
            }
        }
    }
}

/// Merge correctness: at every position the union byte is the one non-zero
/// value the members agree on, or zero where every member is zero.
pub proof fn lemma_union_correct(mems: Seq<Seq<u8>>, j: int)
    requires
        mems.len() > 0,
        same_len(mems),
        group_ok(mems),
        0 <= j < mems[0].len(),
    ensures
        (forall|i: int| 0 <= i < mems.len() ==> (#[trigger] mems[i][j]) == 0) ==> union_seq(
            mems,
        )[j] == 0,
        forall|i: int|
            0 <= i < mems.len() && (#[trigger] mems[i][j]) != 0 ==> union_seq(mems)[j]
                == mems[i][j],
{
    if forall|i: int| 0 <= i < mems.len() ==> (#[trigger] mems[i][j]) == 0 {
        lemma_or_fold_zero_or(mems, j, 0);
    }
    assert forall|i: int|
        0 <= i < mems.len() && (#[trigger] mems[i][j]) != 0 implies union_seq(mems)[j]
        == mems[i][j] by {
        assert(byte_ok(mems[i][j], or_fold(mems, j)));
    }
}

/// A group whose members all hold one and the same content is consistent,
/// and its union is exactly that content.
pub proof fn lemma_equal_members_union(mems: Seq<Seq<u8>>, m: Seq<u8>)
    requires
        mems.len() > 0,
        forall|i: int| 0 <= i < mems.len() ==> #[trigger] mems[i] == m,
    ensures
        same_len(mems),
        union_seq(mems) == m,
        group_ok(mems),
{
    assert(mems[0] == m);
    assert forall|j: int| 0 <= j < m.len() implies or_fold(mems, j) == m[j] by {
        assert forall|i: int|
            0 <= i < mems.len() implies (#[trigger] mems[i][j]) == 0 || mems[i][j] == m[j] by {
            assert(mems[i] == m);
        }
        assert(mems[0][j] == m[j]);
        lemma_or_fold_witness(mems, j, m[j], 0);
    }
    assert(union_seq(mems) =~= m);
}

/// Incremental lockstep scanner for callers that stream group members chunk
/// by chunk instead of holding whole files in memory.  Each `feed` takes one
/// equal-length chunk per member and yields the union chunk for that round;
/// `None` means the chunks conflict and the whole group must be abandoned
/// (the completeness flags carry no meaning after that).
pub struct MergeScan {
    /// One flag per member: true while every byte fed for that member has
    /// equalled the union of what was fed at the same position.
    pub complete: Vec<bool>,
}

impl MergeScan {
    /// A fresh scanner for a group of `n` members, all presumed complete
    /// until a fed chunk shows otherwise.
    pub fn new(n: usize) -> (s: Self)
        ensures
            s.complete@.len() == n,
            forall|i: int| 0 <= i < n ==> #[trigger] s.complete@[i],
    {
        MergeScan { complete: vec![true; n] }
    }

    /// Feeds one lockstep round of chunks, one per member, all of one length.
    /// Returns the union of the chunks, or `None` when they conflict.
    pub fn feed(&mut self, chunks: &Vec<Vec<u8>>) -> (r: Option<Vec<u8>>)
        requires
            chunks@.len() == old(self).complete@.len(),
            chunks@.len() > 0,
            same_len(views_of(chunks@)),
        ensures
            final(self).complete@.len() == old(self).complete@.len(),
            r is None <==> !group_ok(views_of(chunks@)),
            r matches Some(u) ==> u@ == union_seq(views_of(chunks@)) && (forall|i: int|
                0 <= i < final(self).complete@.len() ==> (#[trigger] final(self).complete@[i]
                    <==> old(self).complete@[i] && chunks@[i]@ == union_seq(views_of(chunks@)))),
    {
        let n = chunks.len();
        let clen = chunks[0].len();
        proof {
            let mems = views_of(chunks@);
            assert forall|i0: int|
                0 <= i0 < chunks@.len() implies clen <= (#[trigger] chunks@[i0]).len() by {
                assert(mems[i0].len() == mems[0].len());
            }
        }
        let u = or_range(chunks, 0, clen);
        let mut i: usize = 0;
        while i < n
            invariant
                n == chunks@.len(),
                0 < n,
                i <= n,
                clen == chunks@[0].len(),
                same_len(views_of(chunks@)),
                u@.len() == clen,
                forall|p: int|
                    0 <= p < clen ==> #[trigger] u@[p] == or_fold(views_of(chunks@), p),
                self.complete@.len() == n,
                old(self).complete@.len() == n,
                forall|i0: int|
                    i <= i0 < n ==> #[trigger] self.complete@[i0] == old(self).complete@[i0],
                forall|i0: int|
                    0 <= i0 < i ==> (#[trigger] self.complete@[i0] <==> old(self).complete@[i0]
                        && chunks@[i0]@ == u@),
                forall|i0: int|
                    0 <= i0 < i ==> #[trigger] member_range_ok(
                        views_of(chunks@),
                        i0,
                        0,
                        clen as int,
                    ),
            decreases n - i,
        {
            proof {
                let mems = views_of(chunks@);
                assert(mems[i as int].len() == mems[0].len());
                assert(clen <= chunks@[i as int].len());
            }
            let (eq, sane) = check_range(&chunks[i], &u, 0);
            if !sane {
                proof {
                    let mems = views_of(chunks@);
                    assert(exists|p: int| 0 <= p < clen && !byte_ok(mems[i as int][p], u@[p]));
                    let p = choose|p: int| 0 <= p < clen && !byte_ok(mems[i as int][p], u@[p]);
                    assert(!byte_ok(mems[i as int][p], or_fold(mems, p)));
                    assert(!group_ok(mems));
                }
                return None;
            }
            if !eq {
                self.complete[i] = false;
            }
            proof {
                let mems = views_of(chunks@);
                assert forall|i0: int|
                    0 <= i0 < i + 1 implies #[trigger] member_range_ok(mems, i0, 0, clen as int) by {
                    if i0 == i {
                        assert forall|j: int|
                            0 <= j < clen implies byte_ok(#[trigger] mems[i0][j], or_fold(mems, j)) by {
                            assert(byte_ok(chunks@[i0]@[0 + j], u@[j]));
                        }
                    }
                }
                assert forall|i0: int|
                    0 <= i0 < i + 1 implies (#[trigger] self.complete@[i0] <==> old(
                    self,
                ).complete@[i0] && chunks@[i0]@ == u@) by {
                    if i0 == i {
                        if eq {
                            assert forall|p: int| 0 <= p < clen implies chunks@[i0]@[p] == u@[p] by {
                                assert(chunks@[i0]@[0 + p] == u@[p]);
                            }
                            assert(chunks@[i0]@ =~= u@);
                        } else {
                            let p = choose|p: int| 0 <= p < clen && chunks@[i0]@[0 + p] != u@[p];
                            assert(chunks@[i0]@[p] != u@[p]);
                        }
                    }
                }
            }
            i = i + 1;
        }
        proof {
            let mems = views_of(chunks@);
            assert forall|i0: int, j: int|
                0 <= i0 < mems.len() && 0 <= j < clen implies byte_ok(
                #[trigger] mems[i0][j],
                or_fold(mems, j),
            ) by {
                assert(member_range_ok(mems, i0, 0, clen as int));
            }
            assert(group_ok(mems));
            assert(u@ =~= union_seq(mems));
        }
        Some(u)
    }
}

} // verus!
