//! The documents that a run writes.

use crate::document::{
    body_bytes, lemma_bar_separates_cells, lemma_pack_entries,
    lemma_plain_text_separates_no_cells, manifest_entries, manifest_is_due, manifest_row,
    manifest_rows_bytes, manifest_start_bytes, pack_entries, preamble_text, render_manifest, render_pack, section_bytes,
    section_head_text, sections_bytes, PriorManifest,
};
use crate::escape::{bare_pipes, escaped, law_escaped_text_separates_no_cells};
use crate::laws::texts::{lemma_padded_numeral, lemma_shortest_numeral};
use crate::model::{ManifestEntry, MdFile, PackOptions, PackPlan};
use crate::naming::PackJob;
use crate::round_trip::lemma_sections_hold;
use crate::text::{digits, is_digit, is_numeral, numeral_value, zero_padded};
use crate::timestamp::{
    format_unix_timestamp, is_timestamp_char, law_timestamp_text_is_plain, timestamp_text,
};
use vstd::prelude::*;
use vstd::utf8::encode_utf8;

verus! {

/// A pack without files is its preamble: the vault name, the pack number in
/// decimal, and the generation date.
pub proof fn law_pack_without_files(
    opts: &PackOptions,
    job: &PackJob,
    generation: &str,
    files: &[MdFile],
    contents: &[Option<Vec<u8>>],
    document: Vec<u8>,
)
    requires
        job.start == job.end,
        job.end <= files@.len(),
        contents@.len() == 0,
        call_ensures(render_pack, (opts, job, generation, files, contents), document),
    ensures
        exists|d: Seq<char>|
            {
                &&& #[trigger] is_numeral(d)
                &&& numeral_value(d) == job.pack_num
                &&& d.len() > 1 ==> d[0] != '0'
                &&& document@ == encode_utf8(
                    "# Vault Pack: "@ + opts.vault_name@ + "\n<!-- Pack Number: "@ + d
                        + " -->\n<!-- Generation Date: "@ + generation@ + " -->\n\n"@,
                )
            },
{
    let d = digits(job.pack_num as nat);
    lemma_shortest_numeral(job.pack_num as nat);
    assert(is_numeral(d));
    let opening = encode_utf8(preamble_text(opts.vault_name@, job.pack_num as nat, generation@));
    assert(document@ =~= opening);
}

proof fn lemma_sections_of_same_contents(
    files: Seq<MdFile>,
    start: int,
    end: int,
    contents: Seq<Option<Vec<u8>>>,
    other: Seq<Option<Vec<u8>>>,
)
    requires
        forall|i: int| 0 <= i < end - start ==> #[trigger] contents[i] == other[i],
    ensures
        sections_bytes(files, start, end, contents) == sections_bytes(files, start, end, other),
    decreases end - start,
{
    if start < end {
        lemma_sections_of_same_contents(files, start, end - 1, contents, other);
        assert(contents[end - 1 - start] == other[end - 1 - start]);
    }
}

/// With one file more, a pack has one section more behind the others: the two lines
/// that name the file and its time, a blank line, its contents byte for byte, and a
/// rule. Where the contents could not be read, and only there, a note stands for
/// them.
pub proof fn law_pack_grows_by_a_section(
    opts: &PackOptions,
    job: &PackJob,
    larger: &PackJob,
    generation: &str,
    files: &[MdFile],
    contents: &[Option<Vec<u8>>],
    more: &[Option<Vec<u8>>],
    document: Vec<u8>,
    grown: Vec<u8>,
    time: String,
)
    requires
        job.start <= job.end < files@.len(),
        larger.start == job.start,
        larger.end == job.end + 1,
        larger.pack_num == job.pack_num,
        contents@.len() == job.end - job.start,
        more@.len() == contents@.len() + 1,
        more@.drop_last() == contents@,
        call_ensures(render_pack, (opts, job, generation, files, contents), document),
        call_ensures(render_pack, (opts, larger, generation, files, more), grown),
        call_ensures(format_unix_timestamp, (files@[job.end as int].mtime,), time),
    ensures
        ({
            let rel = files@[job.end as int].rel_unix@;
            grown@ == document@ + encode_utf8(
                "<!-- File: "@ + rel + " | Last Modified: "@ + time@ + " -->"@ + "\n## Path: "@
                    + rel + "\n\n"@,
            ) + (match more@.last() {
                Some(bytes) => bytes@,
                None => encode_utf8("*[File contents unreadable]*\n"@),
            }) + encode_utf8("\n---\n\n"@)
        }),
{
    let start = job.start as int;
    let end = job.end as int;
    let opening = encode_utf8(preamble_text(opts.vault_name@, job.pack_num as nat, generation@));
    assert forall|i: int| 0 <= i < end - start implies #[trigger] more@[i] == contents@[i] by {
        assert(more@.drop_last()[i] == more@[i]);
    }
    lemma_sections_of_same_contents(files@, start, end, more@, contents@);
    let before = sections_bytes(files@, start, end, contents@);
    let head = encode_utf8(section_head_text(files@[end]));
    let body = body_bytes(more@.last());
    let tail = encode_utf8("\n---\n\n"@);
    assert(more@[end - start] == more@.last());
    assert(grown@ =~= opening + (before + (head + body + tail)));
    assert(grown@ =~= document@ + head + body + tail);
}

/// The contents of each file that could be read stand in its pack byte for byte,
/// whatever they are, between the head of the file's section and its rule. A note
/// stands there for those that could not be read.
pub proof fn law_contents_stand_verbatim(
    opts: &PackOptions,
    job: &PackJob,
    generation: &str,
    files: &[MdFile],
    contents: &[Option<Vec<u8>>],
    document: Vec<u8>,
    i: int,
    time: String,
)
    requires
        job.start <= i < job.end <= files@.len(),
        contents@.len() == job.end - job.start,
        call_ensures(render_pack, (opts, job, generation, files, contents), document),
        call_ensures(format_unix_timestamp, (files@[i].mtime,), time),
    ensures
        ({
            let rel = files@[i].rel_unix@;
            let head = encode_utf8(
                "<!-- File: "@ + rel + " | Last Modified: "@ + time@ + " -->"@ + "\n## Path: "@
                    + rel + "\n\n"@,
            );
            let tail = encode_utf8("\n---\n\n"@);
            match contents@[i - job.start] {
                Some(bytes) => exists|front: Seq<u8>, back: Seq<u8>|
                    document@ == #[trigger] (front + (head + bytes@ + tail) + back),
                None => exists|front: Seq<u8>, back: Seq<u8>|
                    document@ == #[trigger] (front + (head + encode_utf8(
                        "*[File contents unreadable]*\n"@,
                    ) + tail) + back),
            }
        }),
{
    let start = job.start as int;
    let end = job.end as int;
    let opening = encode_utf8(preamble_text(opts.vault_name@, job.pack_num as nat, generation@));
    let before = sections_bytes(files@, start, i, contents@);
    let own = section_bytes(files@[i], contents@[i - start]);
    let back = lemma_sections_hold(files@, start, end, contents@, i);
    let front = opening + before;
    assert(document@ =~= front + own + back);
}

/// The entries of the manifest of a run without packs are none; with one pack more
/// there is one more for each of its files, in order, with the number that follows
/// those of the other packs.
pub proof fn law_entries_grow_by_a_pack(
    plan: &PackPlan,
    larger: &PackPlan,
    first_num: usize,
    entries: Vec<ManifestEntry>,
    more: Vec<ManifestEntry>,
    start: usize,
    end: usize,
)
    requires
        larger.boundaries@ == plan.boundaries@.push((start, end)),
        start <= end,
        first_num + plan.boundaries@.len() <= usize::MAX,
        call_ensures(manifest_entries, (plan, first_num), entries),
        call_ensures(manifest_entries, (larger, first_num), more),
    ensures
        plan.boundaries@.len() == 0 ==> entries@.len() == 0,
        more@.len() == entries@.len() + (end - start),
        more@.take(entries@.len() as int) == entries@,
        forall|i: int|
            0 <= i < end - start ==> {
                &&& (#[trigger] more@[entries@.len() + i]).file_idx == start + i
                &&& more@[entries@.len() + i].pack_num == first_num + plan.boundaries@.len()
            },
{
    let pack_num = (first_num + plan.boundaries@.len()) as usize;
    assert(larger.boundaries@.drop_last() =~= plan.boundaries@);
    lemma_pack_entries(start as int, end as int, pack_num);
    let own = pack_entries(start as int, end as int, pack_num);
    assert(more@ == entries@ + own);
    assert(more@.take(entries@.len() as int) =~= entries@);
    assert forall|i: int| 0 <= i < end - start implies {
        &&& (#[trigger] more@[entries@.len() + i]).file_idx == start + i
        &&& more@[entries@.len() + i].pack_num == first_num + plan.boundaries@.len()
    } by {
        assert(more@[entries@.len() + i] == own[i]);
    }
}

/// A manifest is written exactly where it is wanted and there is something to list.
pub proof fn law_manifest_is_due(opts: &PackOptions, entries: &[ManifestEntry], r: bool)
    requires
        call_ensures(manifest_is_due, (opts, entries), r),
    ensures
        r <==> opts.write_manifest && entries@.len() > 0,
{
}

/// The row of a file has the escaped path, the escaped name of the pack, the time,
/// and as its last cell, between the fourth bar that separates cells and the fifth,
/// the file's size in bytes as a decimal numeral.
pub proof fn law_manifest_row(
    file: &MdFile,
    vault_name: &str,
    pack_num: usize,
    text: String,
    time: String,
)
    requires
        call_ensures(manifest_row, (file, vault_name, pack_num), text),
        call_ensures(format_unix_timestamp, (file.mtime,), time),
    ensures
        exists|size: Seq<char>, number: Seq<char>|
            {
                let front = "| "@ + escaped(file.rel_unix@) + " | "@ + escaped(
                    vault_name@ + "_pack_"@ + number + ".md"@,
                ) + " | "@ + time@ + " | "@;
                &&& #[trigger] is_numeral(size)
                &&& numeral_value(size) == file.size
                &&& size.len() > 1 ==> size[0] != '0'
                &&& #[trigger] is_numeral(number)
                &&& numeral_value(number) == pack_num
                &&& number.len() >= 4
                &&& number.len() > 4 ==> number[0] != '0'
                &&& text@ == front + size + " |\n"@
                &&& bare_pipes(front) == 4
                &&& bare_pipes(text@) == 5
            },
{
    let size = digits(file.size as nat);
    let number = zero_padded(pack_num as nat, 4);
    let name = vault_name@ + "_pack_"@ + number + ".md"@;
    lemma_shortest_numeral(file.size as nat);
    lemma_padded_numeral(pack_num as nat, 4);
    let front = "| "@ + escaped(file.rel_unix@) + " | "@ + escaped(name) + " | "@ + time@ + " | "@;
    lemma_bars_before(file.rel_unix@, name, file.mtime, Seq::empty());
    assert("| "@ + (escaped(file.rel_unix@) + (" | "@ + (escaped(name) + (" | "@ + (timestamp_text(
        file.mtime,
    ) + (" | "@ + Seq::empty())))))) =~= front);
    let rest = size + " |\n"@;
    lemma_bars_before(file.rel_unix@, name, file.mtime, rest);
    assert("| "@ + (escaped(file.rel_unix@) + (" | "@ + (escaped(name) + (" | "@ + (timestamp_text(
        file.mtime,
    ) + (" | "@ + rest)))))) =~= front + size + " |\n"@);
    assert forall|i: int| 0 <= i < size.len() implies size[i] != '\\' && size[i] != '|' by {
        assert(is_digit(size[i]));
    }
    lemma_plain_text_separates_no_cells(size, " |\n"@);
    assert(bare_pipes(" |\n"@) == 1) by {
        reveal_strlit(" |\n");
        reveal_with_fuel(bare_pipes, 4);
    }
    assert(bare_pipes(Seq::<char>::empty()) == 0);
    assert(is_numeral(size) && is_numeral(number));
    assert(text@ =~= front + size + " |\n"@);
}

proof fn lemma_bars_before(rel: Seq<char>, name: Seq<char>, mtime: i64, rest: Seq<char>)
    ensures
        bare_pipes(
            "| "@ + (escaped(rel) + (" | "@ + (escaped(name) + (" | "@ + (timestamp_text(mtime) + (
            " | "@ + rest)))))),
        ) == 4 + bare_pipes(rest),
{
    let time = timestamp_text(mtime);
    let d = " | "@ + rest;
    let c = time + d;
    let b = escaped(name) + (" | "@ + c);
    let a = escaped(rel) + (" | "@ + b);
    lemma_bar_separates_cells(rest);
    law_timestamp_text_is_plain(mtime);
    assert forall|i: int| 0 <= i < time.len() implies time[i] != '\\' && time[i] != '|' by {
        assert(is_timestamp_char(time[i]));
    }
    lemma_plain_text_separates_no_cells(time, d);
    lemma_bar_separates_cells(c);
    law_escaped_text_separates_no_cells(name, " | "@ + c);
    lemma_bar_separates_cells(b);
    law_escaped_text_separates_no_cells(rel, " | "@ + b);
    let whole = "| "@ + a;
    assert(bare_pipes(whole) == 1 + bare_pipes(a)) by {
        reveal_strlit("| ");
        assert(whole.skip(1) =~= seq![' '] + a);
        assert((seq![' '] + a).skip(1) =~= a);
        reveal_with_fuel(bare_pipes, 3);
    }
}

/// A manifest without rows is what a run finds and a line feed, where the run
/// resumes and finds a manifest; nothing, where it resumes and cannot open what it
/// finds; and otherwise a head with the vault name, the date and the columns.
pub proof fn law_manifest_without_rows(
    opts: &PackOptions,
    generation: &str,
    prior: &PriorManifest,
    files: &[MdFile],
    entries: &[ManifestEntry],
    document: Vec<u8>,
)
    requires
        entries@.len() == 0,
        call_ensures(render_manifest, (opts, generation, prior, files, entries), document),
    ensures
        opts.resume && *prior is Unreadable ==> document@.len() == 0,
        opts.resume ==> (*prior matches PriorManifest::Present(bytes) ==> document@ == bytes@
            + encode_utf8("\n"@)),
        !opts.resume || *prior is Absent ==> document@ == encode_utf8(
            "# Manifest for "@ + opts.vault_name@ + "\n<!-- Generation Date: "@ + generation@
                + " -->\n\n| Relative Path | Pack File | Last Modified | Size (bytes) |\n| :--- | :--- | :--- | :--- |\n"@,
        ),
{
    assert(manifest_rows_bytes(files@, entries@, opts.vault_name@) =~= Seq::empty());
    assert(document@ =~= manifest_start_bytes(
        opts.vault_name@,
        generation@,
        opts.resume,
        *prior,
    ));
}

/// With one entry more, a manifest has one row more behind the others: the one that
/// `manifest_row` words for the file and the pack of the entry.
pub proof fn law_manifest_grows_by_a_row(
    opts: &PackOptions,
    generation: &str,
    prior: &PriorManifest,
    files: &[MdFile],
    entries: &[ManifestEntry],
    more: &[ManifestEntry],
    document: Vec<u8>,
    grown: Vec<u8>,
    row: String,
)
    requires
        forall|i: int| 0 <= i < more@.len() ==> (#[trigger] more@[i]).file_idx < files@.len(),
        more@.len() == entries@.len() + 1,
        more@.drop_last() == entries@,
        call_ensures(render_manifest, (opts, generation, prior, files, entries), document),
        call_ensures(render_manifest, (opts, generation, prior, files, more), grown),
        call_ensures(
            manifest_row,
            (&files@[more@.last().file_idx as int], opts.vault_name, more@.last().pack_num),
            row,
        ),
    ensures
        grown@ == document@ + encode_utf8(row@),
{
    let start = manifest_start_bytes(
        opts.vault_name@,
        generation@,
        opts.resume,
        *prior,
    );
    let rows = manifest_rows_bytes(files@, entries@, opts.vault_name@);
    assert forall|i: int| 0 <= i < entries@.len() implies (#[trigger] entries@[i]).file_idx
        < files@.len() by {
        assert(more@.drop_last()[i] == more@[i]);
    }
    assert(grown@ =~= start + (rows + encode_utf8(row@)));
}

} // verus!
