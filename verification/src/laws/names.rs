//! Names and numbers of the files that a run writes.

use crate::laws::texts::lemma_padded_numeral;
use crate::model::{PackOptions, PackPlan};
use crate::naming::{
    clean_existing_pack_outputs, find_highest_pack_index, first_pack_num, highest_index,
    is_pack_name,
    law_highest_index_bounds, law_highest_index_occurs, left_by_run, manifest_name,
    number_shown, pack_file_name, pack_index, pack_index_of, pack_jobs, pack_prefix,
    unsigned_part, PackJob,
};
use crate::text::{is_digit, is_numeral, numeral_value, zero_padded};
use vstd::prelude::*;

verus! {

/// The packs of a vault begin with its name and `_pack_`.
pub proof fn law_pack_prefix(vault_name: &str, prefix: String)
    requires
        call_ensures(pack_prefix, (vault_name,), prefix),
    ensures
        prefix@ == vault_name@ + "_pack_"@,
{
}

/// The manifest of a vault has its name and `_manifest.md`.
pub proof fn law_manifest_name(vault_name: &str, name: String)
    requires
        call_ensures(manifest_name, (vault_name,), name),
    ensures
        name@ == vault_name@ + "_manifest.md"@,
{
}

/// The name of a pack is the prefix, the shortest numeral of its number that has at
/// least four digits, and `.md`.
pub proof fn law_pack_file_name(prefix: &str, pack_num: usize, name: String)
    requires
        call_ensures(pack_file_name, (prefix, pack_num), name),
    ensures
        exists|d: Seq<char>|
            {
                &&& #[trigger] is_numeral(d)
                &&& numeral_value(d) == pack_num
                &&& d.len() >= 4
                &&& d.len() > 4 ==> d[0] != '0'
                &&& name@ == prefix@ + d + ".md"@
            },
{
    lemma_padded_numeral(pack_num as nat, 4);
    assert(is_numeral(zero_padded(pack_num as nat, 4)));
}

/// A name shows a pack number exactly where it is the prefix, a numeral of that
/// value, perhaps behind a plus sign, and `.md`.
pub proof fn law_pack_index_of(name: Seq<char>, prefix: Seq<char>, num: usize)
    ensures
        pack_index_of(name, prefix) == Some(num) <==> exists|d: Seq<char>|
            {
                &&& #[trigger] is_numeral(d)
                &&& numeral_value(d) == num
                &&& name == prefix + d + ".md"@ || name == prefix + seq!['+'] + d + ".md"@
            },
{
    reveal_strlit(".md");
    let p = prefix.len() as int;
    if pack_index_of(name, prefix) == Some(num) {
        let rest = name.skip(p);
        let number = rest.take(rest.len() - 3);
        let d = unsigned_part(number);
        assert(name =~= prefix + rest) by {
            assert(name.subrange(0, p) == prefix);
            assert forall|i: int| 0 <= i < p implies name[i] == prefix[i] by {
                assert(name.subrange(0, p)[i] == prefix[i]);
            }
        }
        assert(rest =~= number + ".md"@) by {
            let tail = rest.subrange(rest.len() - 3, rest.len() as int);
            assert(tail == ".md"@);
            assert forall|i: int| rest.len() - 3 <= i < rest.len() implies rest[i]
                == ".md"@[i - (rest.len() - 3)] by {
                assert(tail[i - (rest.len() - 3)] == rest[i]);
            }
        }
        assert(is_numeral(d) && numeral_value(d) == num);
        if number.len() > 0 && number[0] == '+' {
            assert(number =~= seq!['+'] + d);
            assert(name =~= prefix + seq!['+'] + d + ".md"@);
        } else {
            assert(name =~= prefix + d + ".md"@);
        }
    }
    if exists|d: Seq<char>|
        {
            &&& #[trigger] is_numeral(d)
            &&& numeral_value(d) == num
            &&& name == prefix + d + ".md"@ || name == prefix + seq!['+'] + d + ".md"@
        } {
        let d = choose|d: Seq<char>|
            {
                &&& #[trigger] is_numeral(d)
                &&& numeral_value(d) == num
                &&& name == prefix + d + ".md"@ || name == prefix + seq!['+'] + d + ".md"@
            };
        assert(is_digit(d[0]));
        if name == prefix + d + ".md"@ {
            lemma_name_is_read(name, prefix, d);
            assert(unsigned_part(d) == d);
        } else {
            let number = seq!['+'] + d;
            assert(name =~= prefix + number + ".md"@);
            lemma_name_is_read(name, prefix, number);
            assert(unsigned_part(number) =~= d);
        }
    }
}

proof fn lemma_name_is_read(name: Seq<char>, prefix: Seq<char>, number: Seq<char>)
    requires
        name == prefix + number + ".md"@,
    ensures
        pack_index_of(name, prefix) == number_shown(number),
{
    reveal_strlit(".md");
    let rest = name.skip(prefix.len() as int);
    assert(name.subrange(0, prefix.len() as int) =~= prefix);
    assert(rest =~= number + ".md"@);
    assert(rest.subrange(rest.len() - 3, rest.len() as int) =~= ".md"@);
    assert(rest.take(rest.len() - 3) =~= number);
}

/// `pack_index` reads the number that stands between the prefix and `.md`.
pub proof fn law_pack_index(name: &str, prefix: &str, r: Option<usize>, num: usize)
    requires
        call_ensures(pack_index, (name, prefix), r),
    ensures
        r == Some(num) <==> exists|d: Seq<char>|
            {
                &&& #[trigger] is_numeral(d)
                &&& numeral_value(d) == num
                &&& name@ == prefix@ + d + ".md"@ || name@ == prefix@ + seq!['+'] + d + ".md"@
            },
{
    law_pack_index_of(name@, prefix@, num);
}

/// The highest pack number is at least the one that `pack_index` reads off any of
/// the names, and is read off one of them where it is not 0.
pub proof fn law_find_highest_pack_index(
    names: &[String],
    prefix: &str,
    highest: usize,
    i: int,
    name: &str,
    num: usize,
)
    requires
        call_ensures(find_highest_pack_index, (names, prefix), highest),
        0 <= i < names@.len(),
        name@ == names@[i]@,
        call_ensures(pack_index, (name, prefix), Some(num)),
    ensures
        num <= highest,
{
    law_highest_index_bounds(names@, prefix@, i);
}

/// Where the highest pack number is not 0, one of the names is that of the pack.
pub proof fn law_highest_pack_index_is_read_off_a_name(
    names: &[String],
    prefix: &str,
    highest: usize,
)
    requires
        call_ensures(find_highest_pack_index, (names, prefix), highest),
        highest != 0,
    ensures
        exists|i: int, d: Seq<char>|
            {
                &&& 0 <= i < names@.len()
                &&& #[trigger] is_numeral(d)
                &&& numeral_value(d) == highest
                &&& (#[trigger] names@[i])@ == prefix@ + d + ".md"@ || names@[i]@ == prefix@
                    + seq!['+'] + d + ".md"@
            },
{
    law_highest_index_occurs(names@, prefix@);
    let i = choose|i: int|
        0 <= i < names@.len() && pack_index_of((#[trigger] names@[i])@, prefix@) == Some(
            highest_index(names@, prefix@),
        );
    law_pack_index_of(names@[i]@, prefix@, highest);
    let d = choose|d: Seq<char>|
        {
            &&& #[trigger] is_numeral(d)
            &&& numeral_value(d) == highest
            &&& names@[i]@ == prefix@ + d + ".md"@ || names@[i]@ == prefix@ + seq!['+'] + d
                + ".md"@
        };
    assert(is_numeral(d));
}

/// A run that resumes numbers its packs on from the highest; any other starts with 1.
pub proof fn law_first_pack_num(opts: &PackOptions, highest: usize, num: usize)
    requires
        opts.resume ==> highest < usize::MAX,
        call_ensures(first_pack_num, (opts, highest), num),
    ensures
        opts.resume ==> num == highest + 1,
        !opts.resume ==> num == 1,
{
}

/// A name is taken for that of a pack exactly where it begins with the prefix and
/// ends in `.md`.
pub proof fn law_is_pack_name(name: &str, prefix: &str, r: bool)
    requires
        call_ensures(is_pack_name, (name, prefix), r),
    ensures
        r <==> {
            &&& prefix@.len() <= name@.len()
            &&& name@.take(prefix@.len() as int) == prefix@
            &&& name@.len() >= 3
            &&& name@.skip(name@.len() - 3) == ".md"@
        },
{
    reveal_strlit(".md");
    if prefix@.len() <= name@.len() {
        assert(name@.take(prefix@.len() as int) =~= name@.subrange(0, prefix@.len() as int));
    }
    if name@.len() >= 3 {
        assert(name@.skip(name@.len() - 3) =~= name@.subrange(
            name@.len() - 3,
            name@.len() as int,
        ));
    }
}

/// Of the names exactly those are to be removed, in their order, that begin with
/// the prefix and end in `.md`, or are that of the manifest.
pub proof fn law_clean_existing_pack_outputs(
    names: &[String],
    prefix: &str,
    manifest: &str,
    stale: Vec<String>,
)
    requires
        call_ensures(clean_existing_pack_outputs, (names, prefix, manifest), stale),
    ensures
        stale@ == names@.filter(
            |name: String|
                (prefix@.is_prefix_of(name@) && ".md"@.is_suffix_of(name@)) || name@ == manifest@,
        ),
{
    assert(left_by_run(prefix@, manifest@) =~= |name: String|
        (prefix@.is_prefix_of(name@) && ".md"@.is_suffix_of(name@)) || name@ == manifest@);
}

/// The packs of a plan are numbered on from the first number, in order, and named
/// after the vault and their numbers.
pub proof fn law_pack_jobs(
    plan: &PackPlan,
    opts: &PackOptions,
    first_num: usize,
    jobs: Vec<PackJob>,
    i: int,
)
    requires
        plan.boundaries@.len() > 0 ==> first_num + plan.boundaries@.len() - 1 <= usize::MAX,
        call_ensures(pack_jobs, (plan, opts, first_num), jobs),
        0 <= i < plan.boundaries@.len(),
    ensures
        jobs@.len() == plan.boundaries@.len(),
        jobs@[i].start == plan.boundaries@[i].0,
        jobs@[i].end == plan.boundaries@[i].1,
        jobs@[i].pack_num == first_num + i,
        exists|d: Seq<char>|
            {
                &&& #[trigger] is_numeral(d)
                &&& numeral_value(d) == first_num + i
                &&& d.len() >= 4
                &&& d.len() > 4 ==> d[0] != '0'
                &&& jobs@[i].file_name@ == opts.vault_name@ + "_pack_"@ + d + ".md"@
            },
{
    let job = jobs@[i];
    lemma_padded_numeral((first_num + i) as nat, 4);
    assert(is_numeral(zero_padded((first_num + i) as nat, 4)));
}

} // verus!
