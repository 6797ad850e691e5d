//! Names and numbers of the files that a run writes.

use crate::model::{PackOptions, PackPlan};
use crate::text::{
    chars_of, has_prefix, has_suffix, is_digit, is_numeral, lemma_padded_shows, numeral_value,
    padded_decimal, same_text, zero_padded,
};
use vstd::prelude::*;
use vstd::slice::slice_subrange;

verus! {

/// What the name of every pack of the vault begins with.
pub open spec fn pack_prefix_text(vault_name: Seq<char>) -> Seq<char> {
    vault_name + "_pack_"@
}

/// The name of the vault's manifest.
pub open spec fn manifest_name_text(vault_name: Seq<char>) -> Seq<char> {
    vault_name + "_manifest.md"@
}

/// The name of a pack: its number in at least four digits behind the prefix.
pub open spec fn pack_file_name_text(pack_prefix: Seq<char>, pack_num: nat) -> Seq<char> {
    pack_prefix + zero_padded(pack_num, 4) + ".md"@
}

/// What the name of every pack of the vault begins with.
pub fn pack_prefix(vault_name: &str) -> (prefix: String)
    ensures
        prefix@ == pack_prefix_text(vault_name@),
{
    let mut prefix = vault_name.to_owned();
    prefix.append("_pack_");
    prefix
}

/// The name of the vault's manifest.
pub fn manifest_name(vault_name: &str) -> (name: String)
    ensures
        name@ == manifest_name_text(vault_name@),
{
    let mut name = vault_name.to_owned();
    name.append("_manifest.md");
    name
}

/// The name of a pack.
pub fn pack_file_name(pack_prefix: &str, pack_num: usize) -> (name: String)
    ensures
        name@ == pack_file_name_text(pack_prefix@, pack_num as nat),
{
    let mut name = pack_prefix.to_owned();
    name.append(padded_decimal(pack_num as u64, 4).as_str());
    name.append(".md");
    name
}

/// `s` without a leading plus sign.
pub open spec fn unsigned_part(s: Seq<char>) -> Seq<char> {
    if s.len() > 0 && s[0] == '+' {
        s.skip(1)
    } else {
        s
    }
}

/// The number that `s` shows: decimal digits, perhaps behind a plus sign, of a
/// value that a `usize` holds.
pub open spec fn number_shown(s: Seq<char>) -> Option<usize> {
    let numeral = unsigned_part(s);
    if is_numeral(numeral) && numeral_value(numeral) <= usize::MAX {
        Some(numeral_value(numeral) as usize)
    } else {
        None
    }
}

proof fn lemma_prefix_value(s: Seq<char>, len: int)
    requires
        is_numeral(s),
        0 <= len <= s.len(),
    ensures
        numeral_value(s.take(len)) <= numeral_value(s),
    decreases s.len() - len,
{
    if len < s.len() {
        lemma_prefix_value(s, len + 1);
        assert(s.take(len + 1).drop_last() =~= s.take(len));
        assert(is_digit(s[len]));
    } else {
        assert(s.take(len) =~= s);
    }
}

/// Reads a number.
fn read_number(s: &[char]) -> (r: Option<usize>)
    ensures
        r == number_shown(s@),
{
    let from: usize = if s.len() > 0 && s[0] == '+' {
        1
    } else {
        0
    };
    let numeral = slice_subrange(s, from, s.len());
    assert(numeral@ =~= unsigned_part(s@));
    if numeral.len() == 0 {
        return None;
    }
    let mut value: usize = 0;
    let mut i: usize = 0;
    while i < numeral.len()
        invariant
            i <= numeral@.len(),
            numeral@.len() > 0,
            numeral@ == unsigned_part(s@),
            forall|j: int| 0 <= j < i ==> is_digit(#[trigger] numeral@[j]),
            value == numeral_value(numeral@.take(i as int)),
        decreases numeral@.len() - i,
    {
        let c = numeral[i];
        if c < '0' || c > '9' {
            assert(!is_digit(numeral@[i as int]));
            return None;
        }
        assert(numeral@.take(i + 1).drop_last() =~= numeral@.take(i as int));
        proof {
            if is_numeral(numeral@) {
                lemma_prefix_value(numeral@, i + 1);
            }
        }
        let d: usize = (c as u32 - '0' as u32) as usize;
        value = match value.checked_mul(10) {
            Some(tens) => match tens.checked_add(d) {
                Some(sum) => sum,
                None => return None,
            },
            None => return None,
        };
        i = i + 1;
    }
    assert(numeral@.take(i as int) =~= numeral@);
    Some(value)
}

/// The number of the pack that has the name, where it is the name of a pack.
pub open spec fn pack_index_of(name: Seq<char>, pack_prefix: Seq<char>) -> Option<usize> {
    if pack_prefix.is_prefix_of(name) {
        let rest = name.skip(pack_prefix.len() as int);
        if ".md"@.is_suffix_of(rest) {
            number_shown(rest.take(rest.len() - ".md"@.len()))
        } else {
            None
        }
    } else {
        None
    }
}

/// Reads the number of a pack off its name.
pub fn pack_index(name: &str, pack_prefix: &str) -> (r: Option<usize>)
    ensures
        r == pack_index_of(name@, pack_prefix@),
{
    let name = chars_of(name);
    let prefix = chars_of(pack_prefix);
    let suffix = chars_of(".md");
    if !has_prefix(&name, &prefix) {
        return None;
    }
    let rest = slice_subrange(&name, prefix.len(), name.len());
    assert(rest@ =~= name@.skip(prefix@.len() as int));
    if !has_suffix(rest, &suffix) {
        return None;
    }
    let number = slice_subrange(rest, 0, rest.len() - suffix.len());
    assert(number@ =~= rest@.take(rest@.len() - suffix@.len()));
    read_number(number)
}

/// The highest pack number among `names`, and 0 where there is none.
pub open spec fn highest_index(names: Seq<String>, pack_prefix: Seq<char>) -> usize
    decreases names.len(),
{
    if names.len() == 0 {
        0
    } else {
        let rest = highest_index(names.drop_last(), pack_prefix);
        match pack_index_of(names.last()@, pack_prefix) {
            Some(num) if num > rest => num,
            _ => rest,
        }
    }
}

/// Finds the highest pack number among the names in the output directory, and 0
/// where there is none.
pub fn find_highest_pack_index(names: &[String], pack_prefix: &str) -> (highest: usize)
    ensures
        highest == highest_index(names@, pack_prefix@),
{
    let mut highest: usize = 0;
    let mut i: usize = 0;
    while i < names.len()
        invariant
            i <= names@.len(),
            highest == highest_index(names@.take(i as int), pack_prefix@),
        decreases names@.len() - i,
    {
        assert(names@.take(i + 1).drop_last() =~= names@.take(i as int));
        if let Some(num) = pack_index(names[i].as_str(), pack_prefix) {
            if num > highest {
                highest = num;
            }
        }
        i = i + 1;
    }
    assert(names@.take(i as int) =~= names@);
    highest
}

/// The number of the first pack of a run: 1, or the next after the highest
/// where the run resumes an earlier one.
pub fn first_pack_num(opts: &PackOptions, highest: usize) -> (num: usize)
    requires
        opts.resume ==> highest < usize::MAX,
    ensures
        num == (if opts.resume {
            highest + 1
        } else {
            1
        }),
{
    if opts.resume {
        highest + 1
    } else {
        1
    }
}

/// Whether `name` begins and ends as the name of a pack does.
pub open spec fn is_pack_name_text(name: Seq<char>, pack_prefix: Seq<char>) -> bool {
    pack_prefix.is_prefix_of(name) && ".md"@.is_suffix_of(name)
}

/// Whether `name` begins and ends as the name of a pack does.
pub fn is_pack_name(name: &str, pack_prefix: &str) -> (r: bool)
    ensures
        r == is_pack_name_text(name@, pack_prefix@),
{
    let name = chars_of(name);
    has_prefix(&name, &chars_of(pack_prefix)) && has_suffix(&name, &chars_of(".md"))
}

/// Whether `name` is that of a pack or of the manifest.
pub open spec fn is_run_output(
    name: Seq<char>,
    pack_prefix: Seq<char>,
    manifest_name: Seq<char>,
) -> bool {
    is_pack_name_text(name, pack_prefix) || name == manifest_name
}

/// Tells the names that a run leaves.
pub open spec fn left_by_run(
    pack_prefix: Seq<char>,
    manifest_name: Seq<char>,
) -> spec_fn(String) -> bool {
    |name: String| is_run_output(name@, pack_prefix, manifest_name)
}

/// The names, among those of the files in the output directory, that an
/// earlier run left: its packs and its manifest. They are to be removed.
pub fn clean_existing_pack_outputs(
    names: &[String],
    pack_prefix: &str,
    manifest_name: &str,
) -> (stale: Vec<String>)
    ensures
        stale@ == names@.filter(left_by_run(pack_prefix@, manifest_name@)),
{
    let mut stale: Vec<String> = Vec::new();
    let ghost left = left_by_run(pack_prefix@, manifest_name@);
    let mut i: usize = 0;
    assert(names@.take(0).filter(left) =~= Seq::empty());
    while i < names.len()
        invariant
            i <= names@.len(),
            left == left_by_run(pack_prefix@, manifest_name@),
            stale@ == names@.take(i as int).filter(left),
        decreases names@.len() - i,
    {
        assert(names@.take(i + 1) =~= names@.take(i as int).push(names@[i as int]));
        proof {
            names@.take(i as int).lemma_filter_push(names@[i as int], left);
        }
        let name = names[i].as_str();
        if is_pack_name(name, pack_prefix) || same_text(name, manifest_name) {
            stale.push(names[i].clone());
        }
        i = i + 1;
    }
    assert(names@.take(i as int) =~= names@);
    stale
}

/// A pack that is to be written.
#[derive(Debug)]
pub struct PackJob {
    /// Name of the pack's file.
    pub file_name: String,
    /// Number of the pack.
    pub pack_num: usize,
    /// Index of its first file.
    pub start: usize,
    /// Index behind its last file.
    pub end: usize,
}

/// Numbers and names the packs of a plan, in order.
pub fn pack_jobs(plan: &PackPlan, opts: &PackOptions, first_num: usize) -> (jobs: Vec<PackJob>)
    requires
        plan.boundaries@.len() > 0 ==> first_num + plan.boundaries@.len() - 1 <= usize::MAX,
    ensures
        jobs@.len() == plan.boundaries@.len(),
        forall|i: int|
            0 <= i < jobs@.len() ==> {
                &&& (#[trigger] jobs@[i]).pack_num == first_num + i
                &&& jobs@[i].file_name@ == pack_file_name_text(
                    pack_prefix_text(opts.vault_name@),
                    (first_num + i) as nat,
                )
                &&& (jobs@[i].start, jobs@[i].end) == plan.boundaries@[i]
            },
{
    let prefix = pack_prefix(opts.vault_name);
    let mut jobs: Vec<PackJob> = Vec::new();
    let mut i: usize = 0;
    while i < plan.boundaries.len()
        invariant
            prefix@ == pack_prefix_text(opts.vault_name@),
            i == jobs@.len(),
            i <= plan.boundaries@.len(),
            plan.boundaries@.len() > 0 ==> first_num + plan.boundaries@.len() - 1 <= usize::MAX,
            forall|j: int|
                0 <= j < i ==> {
                    &&& (#[trigger] jobs@[j]).pack_num == first_num + j
                    &&& jobs@[j].file_name@ == pack_file_name_text(
                        pack_prefix_text(opts.vault_name@),
                        (first_num + j) as nat,
                    )
                    &&& (jobs@[j].start, jobs@[j].end) == plan.boundaries@[j]
                },
        decreases plan.boundaries@.len() - i,
    {
        let (start, end) = plan.boundaries[i];
        let pack_num: usize = first_num + i;
        jobs.push(PackJob { file_name: pack_file_name(prefix.as_str(), pack_num), pack_num, start, end });
        i = i + 1;
    }
    jobs
}

/// The number of a pack can be read off its name.
pub proof fn law_pack_name_shows_number(pack_prefix: Seq<char>, pack_num: usize)
    ensures
        pack_index_of(pack_file_name_text(pack_prefix, pack_num as nat), pack_prefix) == Some(
            pack_num,
        ),
{
    let numeral = zero_padded(pack_num as nat, 4);
    let name = pack_file_name_text(pack_prefix, pack_num as nat);
    let rest = name.skip(pack_prefix.len() as int);
    lemma_padded_shows(pack_num as nat, 4);
    assert(name.subrange(0, pack_prefix.len() as int) =~= pack_prefix);
    assert(rest =~= numeral + ".md"@);
    assert(rest.subrange(numeral.len() as int, rest.len() as int) =~= ".md"@);
    assert(rest.take(numeral.len() as int) =~= numeral);
    assert(is_digit(numeral[0]));
    assert(unsigned_part(numeral) == numeral);
}

/// Packs of different numbers have different names.
pub proof fn law_pack_names_differ(pack_prefix: Seq<char>, m: usize, n: usize)
    requires
        m != n,
    ensures
        pack_file_name_text(pack_prefix, m as nat) != pack_file_name_text(pack_prefix, n as nat),
{
    law_pack_name_shows_number(pack_prefix, m);
    law_pack_name_shows_number(pack_prefix, n);
}

/// The highest number is at least that of every pack among the names.
pub proof fn law_highest_index_bounds(names: Seq<String>, pack_prefix: Seq<char>, i: int)
    requires
        0 <= i < names.len(),
    ensures
        pack_index_of(names[i]@, pack_prefix) matches Some(num) ==> num <= highest_index(
            names,
            pack_prefix,
        ),
    decreases names.len(),
{
    if i < names.len() - 1 {
        law_highest_index_bounds(names.drop_last(), pack_prefix, i);
    }
}

/// The highest number is that of a pack among the names, or 0.
pub proof fn law_highest_index_occurs(names: Seq<String>, pack_prefix: Seq<char>)
    ensures
        highest_index(names, pack_prefix) == 0 || exists|i: int|
            0 <= i < names.len() && pack_index_of((#[trigger] names[i])@, pack_prefix) == Some(
                highest_index(names, pack_prefix),
            ),
    decreases names.len(),
{
    if names.len() > 0 {
        let rest = names.drop_last();
        law_highest_index_occurs(rest, pack_prefix);
        let highest = highest_index(names, pack_prefix);
        if highest == highest_index(rest, pack_prefix) && highest != 0 {
            let i = choose|i: int|
                0 <= i < rest.len() && pack_index_of((#[trigger] rest[i])@, pack_prefix) == Some(
                    highest,
                );
            assert(names[i] == rest[i]);
        } else if highest != 0 {
            assert(names[names.len() - 1] == names.last());
        }
    }
}

/// A run that resumes overwrites no pack: none of the names that it finds is
/// that of a pack that it writes.
pub proof fn law_resumed_run_overwrites_nothing(
    names: Seq<String>,
    pack_prefix: Seq<char>,
    pack_num: usize,
    i: int,
)
    requires
        pack_num > highest_index(names, pack_prefix),
        0 <= i < names.len(),
    ensures
        names[i]@ != pack_file_name_text(pack_prefix, pack_num as nat),
{
    law_highest_index_bounds(names, pack_prefix, i);
    law_pack_name_shows_number(pack_prefix, pack_num);
}

/// Whatever a run writes is what the next one takes for its output: each pack
/// and the manifest.
pub proof fn law_run_output_is_recognised(vault_name: Seq<char>, pack_num: usize)
    ensures
        is_run_output(
            pack_file_name_text(pack_prefix_text(vault_name), pack_num as nat),
            pack_prefix_text(vault_name),
            manifest_name_text(vault_name),
        ),
        is_pack_name_text(
            pack_file_name_text(pack_prefix_text(vault_name), pack_num as nat),
            pack_prefix_text(vault_name),
        ),
        is_run_output(
            manifest_name_text(vault_name),
            pack_prefix_text(vault_name),
            manifest_name_text(vault_name),
        ),
{
    let prefix = pack_prefix_text(vault_name);
    let name = pack_file_name_text(prefix, pack_num as nat);
    assert(name.subrange(0, prefix.len() as int) =~= prefix);
    assert(name.subrange(name.len() - ".md"@.len(), name.len() as int) =~= ".md"@);
}

/// The manifest is never taken for a pack.
pub proof fn law_manifest_is_no_pack(vault_name: Seq<char>)
    ensures
        !is_pack_name_text(manifest_name_text(vault_name), pack_prefix_text(vault_name)),
{
    reveal_strlit("_pack_");
    reveal_strlit("_manifest.md");
    let prefix = pack_prefix_text(vault_name);
    let name = manifest_name_text(vault_name);
    let at = vault_name.len() + 1;
    assert(prefix[at as int] == 'p');
    assert(name[at as int] == 'm');
    if prefix.is_prefix_of(name) {
        assert(name.subrange(0, prefix.len() as int)[at as int] == 'p');
    }
}

} // verus!
