//! The packs that files are cut into.

use crate::laws::texts::lemma_shortest_numeral;
use crate::model::{MdFile, PackPlan};
use crate::plan::{
    lemma_cover_order, oversize_warning, oversize_warnings, oversized, oversized_indices,
    pack_estimate, pack_size, plan_packs, plan_within_capacity, saturated, total_cost,
    within_capacity,
};
use crate::text::{digits, is_numeral, numeral_value};
use vstd::prelude::*;

verus! {

proof fn lemma_total_cost_is_sum(files: Seq<MdFile>, start: int, end: int)
    requires 0 <= start <= end <= files.len(),
    ensures
        total_cost(files, start, end) == files.subrange(start, end).fold_left(
            0int,
            |sum: int, file: MdFile| sum + file.size + 256,
        ),
    decreases end - start,
{
    if start < end {
        lemma_total_cost_is_sum(files, start, end - 1);
        assert(files.subrange(start, end).drop_last() =~= files.subrange(start, end - 1));
    }
}
/// Packs are consecutive, not empty, and hold all files. Below the largest `u64`
/// no pack has room for the file behind it, and none that holds more than one file
/// exceeds the capacity: 512 bytes, and 256 and its size for each file. The largest
/// `u64` is no limit, and all files go into one pack.
pub proof fn law_plan_packs(files: &[MdFile], available_bytes: u64, plan: PackPlan)
    requires
        call_ensures(plan_packs, (files, available_bytes), plan),
    ensures
        ({
            let packs = plan.boundaries@;
            let n = files@.len() as int;
            &&& packs.len() == 0 <==> n == 0
            &&& packs.len() > 0 ==> packs[0].0 == 0 && packs[packs.len() - 1].1 == n
            &&& forall|k: int| 0 <= k < packs.len() ==> (#[trigger] packs[k]).0 < packs[k].1 <= n
            &&& forall|k: int|
                0 <= k < packs.len() - 1 ==> (#[trigger] packs[k]).1 == packs[k + 1].0
            &&& available_bytes < u64::MAX ==> forall|k: int|
                0 <= k < packs.len() && (#[trigger] packs[k]).1 < n ==> 512 + files@.subrange(
                    packs[k].0 as int,
                    packs[k].1 + 1,
                ).fold_left(0int, |sum: int, file: MdFile| sum + file.size + 256) > available_bytes
            &&& available_bytes < u64::MAX ==> forall|k: int|
                0 <= k < packs.len() && (#[trigger] packs[k]).1 > packs[k].0 + 1 ==> 512
                    + files@.subrange(packs[k].0 as int, packs[k].1 as int).fold_left(
                    0int,
                    |sum: int, file: MdFile| sum + file.size + 256,
                ) <= available_bytes
            &&& available_bytes == u64::MAX && n > 0 ==> packs.len() == 1
        }),
{
    let packs = plan.boundaries@;
    let n = files@.len() as int;
    assert forall|k: int| 0 <= k < packs.len() implies (#[trigger] packs[k]).0 < packs[k].1 <= n by {
        if k < packs.len() - 1 {
            lemma_cover_order(packs, n, k, packs.len() - 1);
            assert(packs[packs.len() - 1].0 < packs[packs.len() - 1].1);
        }
    }
    assert forall|k: int| 0 <= k < packs.len() implies {
        &&& packs[k].1 < n ==> pack_size(files@, (#[trigger] packs[k]).0 as int, packs[k].1 + 1) == 512
            + files@.subrange(packs[k].0 as int, packs[k].1 + 1).fold_left(
            0int,
            |sum: int, file: MdFile| sum + file.size + 256,
        )
        &&& pack_size(files@, packs[k].0 as int, packs[k].1 as int) == 512
            + files@.subrange(packs[k].0 as int, packs[k].1 as int).fold_left(
            0int,
            |sum: int, file: MdFile| sum + file.size + 256,
        )
    } by {
        lemma_total_cost_is_sum(files@, packs[k].0 as int, packs[k].1 as int);
        if packs[k].1 < n {
            lemma_total_cost_is_sum(files@, packs[k].0 as int, packs[k].1 + 1);
        }
    }
    if available_bytes == u64::MAX && n > 0 && packs.len() > 1 {
        assert(packs[0].1 == packs[1].0);
        assert(packs[1].0 < packs[1].1 <= n);
    }
}

/// The estimate of a pack is 512 bytes, and 256 and its size for each file, and at
/// most the largest `u64`.
pub proof fn law_pack_estimate(files: &[MdFile], start: usize, end: usize, size: u64)
    requires
        start <= end <= files@.len(),
        call_ensures(pack_estimate, (files, start, end), size),
    ensures
        ({
            let sum = 512 + files@.subrange(start as int, end as int).fold_left(
                0int,
                |sum: int, file: MdFile| sum + file.size + 256,
            );
            size == if sum <= u64::MAX {
                sum
            } else {
                u64::MAX as int
            }
        }),
{
    lemma_total_cost_is_sum(files@, start as int, end as int);
}

/// A plan passes exactly if each pack that does not hold a single file is within
/// the capacity; the largest `u64` is no limit.
pub proof fn law_plan_within_capacity(
    files: &[MdFile],
    plan: &PackPlan,
    available_bytes: u64,
    r: bool,
)
    requires
        forall|k: int|
            0 <= k < plan.boundaries@.len() ==> (#[trigger] plan.boundaries@[k]).0
                <= plan.boundaries@[k].1 <= files@.len(),
        call_ensures(plan_within_capacity, (files, plan, available_bytes), r),
    ensures
        r <==> available_bytes == u64::MAX || forall|k: int|
            0 <= k < plan.boundaries@.len() && (#[trigger] plan.boundaries@[k]).1
                != plan.boundaries@[k].0 + 1 ==> 512 + files@.subrange(
                plan.boundaries@[k].0 as int,
                plan.boundaries@[k].1 as int,
            ).fold_left(0int, |sum: int, file: MdFile| sum + file.size + 256) <= available_bytes,
{
    let packs = plan.boundaries@;
    assert forall|k: int| 0 <= k < packs.len() implies pack_size(
        files@,
        (#[trigger] packs[k]).0 as int,
        packs[k].1 as int,
    ) == 512 + files@.subrange(packs[k].0 as int, packs[k].1 as int).fold_left(
        0int,
        |sum: int, file: MdFile| sum + file.size + 256,
    ) by {
        lemma_total_cost_is_sum(files@, packs[k].0 as int, packs[k].1 as int);
    }
    if within_capacity(files@, packs, available_bytes) && available_bytes < u64::MAX {
        assert forall|k: int|
            0 <= k < packs.len() && (#[trigger] packs[k]).1 != packs[k].0 + 1 implies 512
            + files@.subrange(packs[k].0 as int, packs[k].1 as int).fold_left(
            0int,
            |sum: int, file: MdFile| sum + file.size + 256,
        ) <= available_bytes by {
            let (start, end) = packs[k];
        }
    }
}

proof fn lemma_oversized_index(files: Seq<MdFile>, available_bytes: u64, i: int)
    ensures
        oversized_indices(files, available_bytes).contains(i) <==> 0 <= i < files.len()
            && available_bytes < u64::MAX && files[i].size + 768 > available_bytes,
    decreases files.len(),
{
    let indices = oversized_indices(files, available_bytes);
    if files.len() > 0 {
        let rest = files.drop_last();
        let earlier = oversized_indices(rest, available_bytes);
        let last = files.len() - 1;
        lemma_oversized_index(rest, available_bytes, i);
        if oversized(files.last(), available_bytes) {
            assert(indices == earlier.push(last));
            if earlier.contains(i) {
                let j = choose|j: int| 0 <= j < earlier.len() && earlier[j] == i;
                assert(indices[j] == i);
            }
            if i == last {
                assert(indices[earlier.len() as int] == i);
            }
            if indices.contains(i) && i != last {
                let j = choose|j: int| 0 <= j < indices.len() && indices[j] == i;
                assert(earlier[j] == i);
            }
        }
    }
}

proof fn lemma_indices_increase(files: Seq<MdFile>, available_bytes: u64)
    ensures
        forall|i: int, j: int|
            0 <= i < j < oversized_indices(files, available_bytes).len() ==> (
            #[trigger] oversized_indices(files, available_bytes)[i])
                < #[trigger] oversized_indices(files, available_bytes)[j],
        forall|i: int|
            0 <= i < oversized_indices(files, available_bytes).len() ==> 0
                <= #[trigger] oversized_indices(files, available_bytes)[i] < files.len(),
    decreases files.len(),
{
    if files.len() > 0 {
        lemma_indices_increase(files.drop_last(), available_bytes);
        let earlier = oversized_indices(files.drop_last(), available_bytes);
        let indices = oversized_indices(files, available_bytes);
        assert forall|i: int| 0 <= i < indices.len() implies 0 <= #[trigger] indices[i]
            < files.len() by {
            if i < earlier.len() {
                assert(indices[i] == earlier[i]);
            }
        }
        assert forall|i: int, j: int| 0 <= i < j < indices.len() implies (#[trigger] indices[i])
            < #[trigger] indices[j] by {
            assert(indices[i] == earlier[i]);
            if j < earlier.len() {
                assert(indices[j] == earlier[j]);
            }
        }
    }
}

/// A warning comes for each file that with 768 bytes of overhead exceeds the
/// capacity, in the order of the files, and for no other; none comes where they are
/// not wanted. Each is the one that `oversize_warning` words for its file.
pub proof fn law_oversize_warnings(
    files: &[MdFile],
    available_bytes: u64,
    quiet: bool,
    warnings: Vec<String>,
)
    requires
        call_ensures(oversize_warnings, (files, available_bytes, quiet), warnings),
    ensures
        quiet ==> warnings@.len() == 0,
        !quiet ==> exists|at: Seq<int>|
            {
                &&& (#[trigger] at.len()) == warnings@.len()
                &&& forall|i: int, j: int| 0 <= i < j < at.len() ==> at[i] < at[j]
                &&& forall|i: int|
                    at.contains(i) <==> 0 <= i < files@.len() && available_bytes < u64::MAX
                        && files@[i].size + 768 > available_bytes
                &&& forall|j: int, text: String|
                    0 <= j < at.len() && call_ensures(
                        oversize_warning,
                        (&files@[at[j]], available_bytes),
                        text,
                    ) ==> (#[trigger] text@) == (#[trigger] warnings@[j])@
            },
{
    if !quiet {
        let at = oversized_indices(files@, available_bytes);
        lemma_indices_increase(files@, available_bytes);
        assert forall|i: int|
            at.contains(i) <==> 0 <= i < files@.len() && available_bytes < u64::MAX
                && files@[i].size + 768 > available_bytes by {
            lemma_oversized_index(files@, available_bytes, i);
        }
        let shown = warnings@.map_values(|w: String| w@);
        assert(shown.len() == at.len());
        assert forall|j: int, text: String|
            0 <= j < at.len() && call_ensures(
                oversize_warning,
                (&files@[at[j]], available_bytes),
                text,
            ) implies (#[trigger] text@) == (#[trigger] warnings@[j])@ by {
            assert(shown[j] == warnings@[j]@);
        }
    }
}

/// The warning names the file, its size with 768 bytes of overhead, that overhead
/// and the capacity.
pub proof fn law_oversize_warning(file: &MdFile, available_bytes: u64, text: String)
    requires
        call_ensures(oversize_warning, (file, available_bytes), text),
    ensures
        exists|total: Seq<char>, capacity: Seq<char>|
            {
                &&& #[trigger] is_numeral(total)
                &&& #[trigger] is_numeral(capacity)
                &&& total.len() > 1 ==> total[0] != '0'
                &&& capacity.len() > 1 ==> capacity[0] != '0'
                &&& numeral_value(total) == (if file.size + 768 <= u64::MAX {
                    file.size + 768
                } else {
                    u64::MAX as int
                })
                &&& numeral_value(capacity) == available_bytes
                &&& text@ == "Warning: File '"@ + file.rel_unix@ + "' ("@ + total
                    + " bytes total, including "@ + seq!['7', '6', '8']
                    + " bytes overhead) exceeds capacity ("@ + capacity
                    + " bytes). Placed in dedicated pack."@
            },
{
    let total = digits(saturated((file.size + 768) as nat));
    let capacity = digits(available_bytes as nat);
    lemma_shortest_numeral(saturated((file.size + 768) as nat));
    lemma_shortest_numeral(available_bytes as nat);
    assert(digits(768) =~= seq!['7', '6', '8']) by {
        reveal_with_fuel(digits, 4);
    }
    assert(is_numeral(total) && is_numeral(capacity));
}

} // verus!
