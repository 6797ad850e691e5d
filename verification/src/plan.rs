//! Which files go into which pack.

use crate::model::{MdFile, PackPlan, PACK_BASE_OVERHEAD, PER_FILE_OVERHEAD};
use crate::order::{is_newest_first, ranks_before};
use crate::text::{decimal, digits};
use vstd::prelude::*;

verus! {

/// Bytes that a file takes up in a pack.
pub open spec fn item_cost(file: MdFile) -> nat {
    file.size as nat + PER_FILE_OVERHEAD as nat
}

/// Bytes that the files from `start` up to `end` take up together.
pub open spec fn total_cost(files: Seq<MdFile>, start: int, end: int) -> nat
    decreases end - start,
{
    if start >= end {
        0
    } else {
        total_cost(files, start, end - 1) + item_cost(files[end - 1])
    }
}

/// Estimated size of the pack that holds the files from `start` up to `end`.
pub open spec fn pack_size(files: Seq<MdFile>, start: int, end: int) -> nat {
    PACK_BASE_OVERHEAD as nat + total_cost(files, start, end)
}

/// Whether `size` bytes are within the capacity. Sizes saturate at the largest
/// `u64`, so a capacity of that value is no limit.
pub open spec fn fits(size: nat, available_bytes: u64) -> bool {
    size <= available_bytes || available_bytes == u64::MAX
}

/// Whether a file is too large to share a pack with anything.
pub open spec fn oversized(file: MdFile, available_bytes: u64) -> bool {
    !fits(PACK_BASE_OVERHEAD as nat + item_cost(file), available_bytes)
}

/// Whether `packs` cuts the first `len` files into consecutive, non-empty runs.
pub open spec fn covers(packs: Seq<(usize, usize)>, len: int) -> bool {
    &&& packs.len() == 0 <==> len == 0
    &&& packs.len() > 0 ==> packs[0].0 == 0 && packs.last().1 == len
    &&& forall|k: int| 0 <= k < packs.len() ==> (#[trigger] packs[k]).0 < packs[k].1
    &&& forall|j: int, k: int|
        0 <= j < packs.len() && k == j + 1 && k < packs.len()
            ==> (#[trigger] packs[j]).1 == (#[trigger] packs[k]).0
}

/// Whether every pack is within the capacity or holds a single file.
pub open spec fn within_capacity(
    files: Seq<MdFile>,
    packs: Seq<(usize, usize)>,
    available_bytes: u64,
) -> bool {
    forall|k: int|
        0 <= k < packs.len() ==> {
            let (start, end) = #[trigger] packs[k];
            fits(pack_size(files, start as int, end as int), available_bytes) || end == start + 1
        }
}

/// Whether no pack has room for the file that follows it.
pub open spec fn filled(
    files: Seq<MdFile>,
    packs: Seq<(usize, usize)>,
    available_bytes: u64,
) -> bool {
    forall|k: int|
        0 <= k < packs.len() ==> {
            let (start, end) = #[trigger] packs[k];
            end < files.len() ==> !fits(
                pack_size(files, start as int, end + 1),
                available_bytes,
            )
        }
}

/// The plan that takes the files in order and opens a new pack only when the
/// next file does not fit.
pub open spec fn is_greedy_plan(
    files: Seq<MdFile>,
    packs: Seq<(usize, usize)>,
    available_bytes: u64,
) -> bool {
    &&& covers(packs, files.len() as int)
    &&& within_capacity(files, packs, available_bytes)
    &&& filled(files, packs, available_bytes)
}

/// `n`, or the largest `u64` where `n` is larger.
pub open spec fn saturated(n: nat) -> nat {
    if n > u64::MAX {
        u64::MAX as nat
    } else {
        n
    }
}

proof fn lemma_total_cost_splits(files: Seq<MdFile>, start: int, mid: int, end: int)
    requires
        start <= mid <= end,
    ensures
        total_cost(files, start, end) == total_cost(files, start, mid) + total_cost(
            files,
            mid,
            end,
        ),
    decreases end - mid,
{
    if mid < end {
        lemma_total_cost_splits(files, start, mid, end - 1);
    }
}

/// Packs the files in order, each pack as full as the capacity allows. A file
/// that exceeds the capacity by itself gets a pack of its own.
pub fn plan_packs(files: &[MdFile], available_bytes: u64) -> (plan: PackPlan)
    ensures
        is_greedy_plan(files@, plan.boundaries@, available_bytes),
{
    let mut boundaries: Vec<(usize, usize)> = Vec::new();
    let n = files.len();
    let mut start: usize = 0;
    let mut current_size: u64 = PACK_BASE_OVERHEAD;
    let mut i: usize = 0;
    while i < n
        invariant
            n == files@.len(),
            start <= i <= n,
            covers(boundaries@, start as int),
            within_capacity(files@, boundaries@, available_bytes),
            filled(files@, boundaries@, available_bytes),
            current_size == saturated(pack_size(files@, start as int, i as int)),
            start < i ==> fits(pack_size(files@, start as int, i as int), available_bytes),
        decreases n - i,
    {
        let item: u64 = files[i].size.saturating_add(PER_FILE_OVERHEAD);
        assert(item == saturated(item_cost(files@[i as int])));
        assert(total_cost(files@, i as int, i + 1) == item_cost(files@[i as int])) by {
            assert(total_cost(files@, i as int, i as int) == 0);
        }
        proof {
            lemma_total_cost_splits(files@, start as int, i as int, i + 1);
        }
        if PACK_BASE_OVERHEAD.saturating_add(item) > available_bytes {
            assert(oversized(files@[i as int], available_bytes));
            if start < i {
                boundaries.push((start, i));
            }
            boundaries.push((i, i + 1));
            assert(i + 1 < n ==> pack_size(files@, i as int, i + 2) >= pack_size(
                files@,
                i as int,
                i + 1,
            ));
            start = i + 1;
            current_size = PACK_BASE_OVERHEAD;
        } else if current_size.saturating_add(item) > available_bytes {
            boundaries.push((start, i));
            start = i;
            current_size = PACK_BASE_OVERHEAD.saturating_add(item);
        } else {
            current_size = current_size.saturating_add(item);
        }
        i = i + 1;
    }
    if start < n {
        boundaries.push((start, n));
    }
    PackPlan { boundaries }
}

/// Estimates the size of the pack that holds the files from `start` up to
/// `end`; the estimate saturates at the largest `u64`.
pub fn pack_estimate(files: &[MdFile], start: usize, end: usize) -> (size: u64)
    requires
        start <= end <= files@.len(),
    ensures
        size == saturated(pack_size(files@, start as int, end as int)),
{
    let mut size: u64 = PACK_BASE_OVERHEAD;
    let mut i: usize = start;
    while i < end
        invariant
            start <= i <= end <= files@.len(),
            size == saturated(pack_size(files@, start as int, i as int)),
        decreases end - i,
    {
        size = size.saturating_add(files[i].size.saturating_add(PER_FILE_OVERHEAD));
        i = i + 1;
    }
    size
}

/// Whether every pack of the plan is within the capacity or holds a single
/// file.
pub fn plan_within_capacity(files: &[MdFile], plan: &PackPlan, available_bytes: u64) -> (r: bool)
    requires
        forall|k: int|
            0 <= k < plan.boundaries@.len() ==> (#[trigger] plan.boundaries@[k]).0
                <= plan.boundaries@[k].1 <= files@.len(),
    ensures
        r == within_capacity(files@, plan.boundaries@, available_bytes),
{
    let mut k: usize = 0;
    while k < plan.boundaries.len()
        invariant
            k <= plan.boundaries@.len(),
            forall|j: int|
                0 <= j < plan.boundaries@.len() ==> (#[trigger] plan.boundaries@[j]).0
                    <= plan.boundaries@[j].1 <= files@.len(),
            within_capacity(files@, plan.boundaries@.take(k as int), available_bytes),
        decreases plan.boundaries@.len() - k,
    {
        let (start, end) = plan.boundaries[k];
        assert(plan.boundaries@[k as int] == (start, end));
        let size = pack_estimate(files, start, end);
        if size > available_bytes && end - start != 1 {
            return false;
        }
        assert forall|j: int| 0 <= j < k + 1 implies {
            let (s, e) = #[trigger] plan.boundaries@.take(k + 1)[j];
            fits(pack_size(files@, s as int, e as int), available_bytes) || e == s + 1
        } by {
            if j < k {
                assert(plan.boundaries@.take(k as int)[j] == plan.boundaries@.take(k + 1)[j]);
            }
        }
        k = k + 1;
    }
    assert(plan.boundaries@.take(k as int) =~= plan.boundaries@);
    true
}

/// The warning for a file that is too large to share a pack.
pub open spec fn oversize_warning_text(file: MdFile, available_bytes: u64) -> Seq<char> {
    "Warning: File '"@ + file.rel_unix@ + "' ("@ + digits(
        saturated(PACK_BASE_OVERHEAD as nat + item_cost(file)),
    ) + " bytes total, including "@ + digits(
        PER_FILE_OVERHEAD as nat + PACK_BASE_OVERHEAD as nat,
    ) + " bytes overhead) exceeds capacity ("@ + digits(available_bytes as nat)
        + " bytes). Placed in dedicated pack."@
}

/// Words the warning for a file that is too large to share a pack.
pub fn oversize_warning(file: &MdFile, available_bytes: u64) -> (text: String)
    ensures
        text@ == oversize_warning_text(*file, available_bytes),
{
    let total: u64 = file.size.saturating_add(PER_FILE_OVERHEAD).saturating_add(PACK_BASE_OVERHEAD);
    let mut text = "Warning: File '".to_owned();
    text.append(file.rel_unix.as_str());
    text.append("' (");
    text.append(decimal(total).as_str());
    text.append(" bytes total, including ");
    text.append(decimal(PER_FILE_OVERHEAD + PACK_BASE_OVERHEAD).as_str());
    text.append(" bytes overhead) exceeds capacity (");
    text.append(decimal(available_bytes).as_str());
    text.append(" bytes). Placed in dedicated pack.");
    text
}

/// The indices of the files that are too large to share a pack, in order.
pub open spec fn oversized_indices(files: Seq<MdFile>, available_bytes: u64) -> Seq<int>
    decreases files.len(),
{
    if files.len() == 0 {
        Seq::empty()
    } else {
        let rest = oversized_indices(files.drop_last(), available_bytes);
        if oversized(files.last(), available_bytes) {
            rest.push(files.len() - 1)
        } else {
            rest
        }
    }
}

/// The warnings that planning calls for, one for each file that gets a pack of
/// its own because of its size; none where `quiet` is set.
pub fn oversize_warnings(files: &[MdFile], available_bytes: u64, quiet: bool) -> (warnings: Vec<
    String,
>)
    ensures
        quiet ==> warnings@.len() == 0,
        !quiet ==> warnings@.map_values(|w: String| w@) == oversized_indices(
            files@,
            available_bytes,
        ).map_values(|i: int| oversize_warning_text(files@[i], available_bytes)),
{
    let mut warnings: Vec<String> = Vec::new();
    if quiet {
        return warnings;
    }
    let ghost shown = |w: String| w@;
    let ghost worded = |i: int| oversize_warning_text(files@[i], available_bytes);
    let mut i: usize = 0;
    assert(warnings@.map_values(shown) =~= oversized_indices(
        files@.take(0),
        available_bytes,
    ).map_values(worded));
    while i < files.len()
        invariant
            i <= files@.len(),
            worded == |i: int| oversize_warning_text(files@[i], available_bytes),
            shown == |w: String| w@,
            warnings@.map_values(shown) == oversized_indices(
                files@.take(i as int),
                available_bytes,
            ).map_values(worded),
        decreases files@.len() - i,
    {
        let ghost before = warnings@;
        let ghost indices = oversized_indices(files@.take(i as int), available_bytes);
        assert(files@.take(i + 1).drop_last() =~= files@.take(i as int));
        let item: u64 = files[i].size.saturating_add(PER_FILE_OVERHEAD);
        if PACK_BASE_OVERHEAD.saturating_add(item) > available_bytes {
            warnings.push(oversize_warning(&files[i], available_bytes));
            assert(warnings@.map_values(shown) =~= before.map_values(shown).push(
                worded(i as int),
            ));
            assert(indices.push(i as int).map_values(worded) =~= indices.map_values(worded).push(
                worded(i as int),
            ));
        }
        i = i + 1;
    }
    assert(files@.take(files@.len() as int) =~= files@);
    warnings
}

proof fn lemma_total_cost_grows(files: Seq<MdFile>, s: int, e: int, start: int, end: int)
    requires
        start <= s <= e <= end,
    ensures
        total_cost(files, s, e) <= total_cost(files, start, end),
{
    lemma_total_cost_splits(files, start, s, end);
    lemma_total_cost_splits(files, s, e, end);
}

/// The packs of a plan follow each other.
pub proof fn lemma_cover_order(packs: Seq<(usize, usize)>, len: int, j: int, k: int)
    requires
        covers(packs, len),
        0 <= j < k < packs.len(),
    ensures
        packs[j].1 <= packs[k].0,
    decreases k - j,
{
    assert(packs[k - 1].1 == packs[k].0);
    if j < k - 1 {
        lemma_cover_order(packs, len, j, k - 1);
        assert(packs[k - 1].0 < packs[k - 1].1);
    }
}

/// Every file is in exactly one pack of a plan.
pub proof fn law_each_file_in_one_pack(packs: Seq<(usize, usize)>, len: int, i: int)
    requires
        covers(packs, len),
        0 <= i < len,
    ensures
        exists|k: int| 0 <= k < packs.len() && (#[trigger] packs[k]).0 <= i < packs[k].1,
        forall|j: int, k: int|
            0 <= j < packs.len() && 0 <= k < packs.len() && (#[trigger] packs[j]).0 <= i
                < packs[j].1 && (#[trigger] packs[k]).0 <= i < packs[k].1 ==> j == k,
{
    assert forall|j: int, k: int|
        0 <= j < packs.len() && 0 <= k < packs.len() && (#[trigger] packs[j]).0 <= i < packs[j].1
            && (#[trigger] packs[k]).0 <= i < packs[k].1 implies j == k by {
        if j < k {
            lemma_cover_order(packs, len, j, k);
        } else if k < j {
            lemma_cover_order(packs, len, k, j);
        }
    }
    lemma_some_pack_holds(packs, len, i, packs.len() - 1);
}

proof fn lemma_some_pack_holds(packs: Seq<(usize, usize)>, len: int, i: int, k: int)
    requires
        covers(packs, len),
        0 <= k < packs.len(),
        0 <= i < packs[k].1,
    ensures
        exists|j: int| 0 <= j < packs.len() && (#[trigger] packs[j]).0 <= i < packs[j].1,
    decreases k,
{
    if i < packs[k].0 {
        assert(packs[k - 1].1 == packs[k].0);
        lemma_some_pack_holds(packs, len, i, k - 1);
    }
}

/// Packs of files in order go from new to old: no file of a pack is older than
/// one of a later pack.
pub proof fn law_packs_are_chronological(
    files: Seq<MdFile>,
    packs: Seq<(usize, usize)>,
    j: int,
    k: int,
    i: int,
    l: int,
)
    requires
        is_newest_first(files),
        covers(packs, files.len() as int),
        0 <= j < k < packs.len(),
        packs[j].0 <= i < packs[j].1,
        packs[k].0 <= l < packs[k].1,
    ensures
        files[i].mtime >= files[l].mtime,
{
    lemma_cover_order(packs, files.len() as int, j, k);
    if k < packs.len() - 1 {
        lemma_cover_order(packs, files.len() as int, k, packs.len() - 1);
        assert(packs[packs.len() - 1].0 < packs[packs.len() - 1].1);
    }
    assert(ranks_before(files[i], files[l]));
}

/// A file that exceeds the capacity by itself shares its pack with no other.
pub proof fn law_oversized_file_is_alone(
    files: Seq<MdFile>,
    packs: Seq<(usize, usize)>,
    available_bytes: u64,
    k: int,
    i: int,
)
    requires
        is_greedy_plan(files, packs, available_bytes),
        0 <= k < packs.len(),
        packs[k].0 <= i < packs[k].1,
        oversized(files[i], available_bytes),
    ensures
        packs[k].0 == i,
        packs[k].1 == i + 1,
{
    assert(total_cost(files, i, i) == 0);
    assert(total_cost(files, i, i + 1) == item_cost(files[i]));
    lemma_total_cost_grows(files, i, i + 1, packs[k].0 as int, packs[k].1 as int);
}

/// The files and the capacity determine the plan.
pub proof fn law_plan_is_determined(
    files: Seq<MdFile>,
    p: Seq<(usize, usize)>,
    q: Seq<(usize, usize)>,
    available_bytes: u64,
)
    requires
        is_greedy_plan(files, p, available_bytes),
        is_greedy_plan(files, q, available_bytes),
    ensures
        p == q,
{
    law_plan_uses_fewest_packs(files, p, q, available_bytes);
    law_plan_uses_fewest_packs(files, q, p, available_bytes);
    assert forall|k: int| 0 <= k < p.len() implies p[k] == q[k] by {
        lemma_greedy_reaches_furthest(files, p, q, available_bytes, k);
        lemma_greedy_reaches_furthest(files, q, p, available_bytes, k);
    }
    assert(p =~= q);
}

proof fn lemma_greedy_reaches_furthest(
    files: Seq<MdFile>,
    p: Seq<(usize, usize)>,
    q: Seq<(usize, usize)>,
    available_bytes: u64,
    k: int,
)
    requires
        is_greedy_plan(files, p, available_bytes),
        covers(q, files.len() as int),
        within_capacity(files, q, available_bytes),
        0 <= k < p.len(),
        k < q.len(),
    ensures
        p[k].0 >= q[k].0,
        p[k].1 >= q[k].1,
    decreases k,
{
    if k > 0 {
        lemma_greedy_reaches_furthest(files, p, q, available_bytes, k - 1);
        assert(p[k - 1].1 == p[k].0);
        assert(q[k - 1].1 == q[k].0);
    }
    let (start, end) = p[k];
    if end < q[k].1 {
        if k < q.len() - 1 {
            lemma_cover_order(q, files.len() as int, k, q.len() - 1);
        }
        lemma_total_cost_grows(
            files,
            start as int,
            end + 1,
            q[k].0 as int,
            q[k].1 as int,
        );
    }
}

/// No plan that keeps the files in order and within the capacity has fewer
/// packs.
pub proof fn law_plan_uses_fewest_packs(
    files: Seq<MdFile>,
    packs: Seq<(usize, usize)>,
    other: Seq<(usize, usize)>,
    available_bytes: u64,
)
    requires
        is_greedy_plan(files, packs, available_bytes),
        covers(other, files.len() as int),
        within_capacity(files, other, available_bytes),
    ensures
        packs.len() <= other.len(),
{
    if packs.len() > other.len() && other.len() > 0 {
        let k = other.len() - 1;
        lemma_greedy_reaches_furthest(files, packs, other, available_bytes, k);
        lemma_cover_order(packs, files.len() as int, k, packs.len() - 1);
        assert(packs.last().0 < packs.last().1);
    }
}

} // verus!
