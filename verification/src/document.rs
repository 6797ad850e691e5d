//! The documents that a run writes: packs and the manifest.

use crate::escape::{
    bare_pipes, escape_md_cell, escaped, is_line_break, law_escaped_text_has_no_line_break,
    law_escaped_text_separates_no_cells,
};
use crate::model::{ManifestEntry, MdFile, PackOptions, PackPlan};
use crate::naming::{
    pack_file_name, pack_file_name_text, pack_prefix, pack_prefix_text, PackJob,
};
use crate::plan::covers;
use crate::text::{decimal, digits, is_digit, lemma_digits_show};
use crate::timestamp::{
    format_unix_timestamp, is_timestamp_char, law_timestamp_text_is_plain, timestamp_text,
};
use vstd::prelude::*;
use vstd::utf8::encode_utf8;

verus! {

/// Appends the UTF-8 bytes of a text.
fn append_text(document: &mut Vec<u8>, text: &str)
    ensures
        final(document)@ == old(document)@ + encode_utf8(text@),
{
    append_bytes(document, text.as_bytes());
}

/// Appends bytes.
fn append_bytes(document: &mut Vec<u8>, bytes: &[u8])
    ensures
        final(document)@ == old(document)@ + bytes@,
{
    document.extend_from_slice(bytes);
    assert(document@ =~= old(document)@ + bytes@);
}

/// What a pack begins with.
pub open spec fn preamble_text(
    vault_name: Seq<char>,
    pack_num: nat,
    generation: Seq<char>,
) -> Seq<char> {
    "# Vault Pack: "@ + vault_name + "\n<!-- Pack Number: "@ + digits(pack_num)
        + " -->\n<!-- Generation Date: "@ + generation + " -->\n\n"@
}

/// The line that names a file.
pub open spec fn file_line_text(file: MdFile) -> Seq<char> {
    "<!-- File: "@ + file.rel_unix@ + " | Last Modified: "@ + timestamp_text(file.mtime) + " -->"@
}

/// What stands before the contents of a file.
pub open spec fn section_head_text(file: MdFile) -> Seq<char> {
    file_line_text(file) + "\n## Path: "@ + file.rel_unix@ + "\n\n"@
}

/// What stands in place of contents that could not be read.
pub open spec fn unreadable_text() -> Seq<char> {
    "*[File contents unreadable]*\n"@
}

/// What stands behind the contents of a file.
pub open spec fn section_tail_text() -> Seq<char> {
    "\n---\n\n"@
}

/// The contents of a file as they stand in a pack.
pub open spec fn body_bytes(contents: Option<Vec<u8>>) -> Seq<u8> {
    match contents {
        Some(bytes) => bytes@,
        None => encode_utf8(unreadable_text()),
    }
}

/// The part of a pack that holds one file.
pub open spec fn section_bytes(file: MdFile, contents: Option<Vec<u8>>) -> Seq<u8> {
    encode_utf8(section_head_text(file)) + body_bytes(contents) + encode_utf8(section_tail_text())
}

/// The part of a pack that holds the files from `start` up to `end`.
/// `contents[i]` are those of the file `start + i`.
pub open spec fn sections_bytes(
    files: Seq<MdFile>,
    start: int,
    end: int,
    contents: Seq<Option<Vec<u8>>>,
) -> Seq<u8>
    decreases end - start,
{
    if start >= end {
        Seq::empty()
    } else {
        sections_bytes(files, start, end - 1, contents) + section_bytes(
            files[end - 1],
            contents[end - 1 - start],
        )
    }
}

/// A pack.
pub open spec fn pack_bytes(
    vault_name: Seq<char>,
    pack_num: nat,
    generation: Seq<char>,
    files: Seq<MdFile>,
    start: int,
    end: int,
    contents: Seq<Option<Vec<u8>>>,
) -> Seq<u8> {
    encode_utf8(preamble_text(vault_name, pack_num, generation)) + sections_bytes(
        files,
        start,
        end,
        contents,
    )
}

/// Writes what a pack begins with.
fn preamble(vault_name: &str, pack_num: usize, generation: &str) -> (text: String)
    ensures
        text@ == preamble_text(vault_name@, pack_num as nat, generation@),
{
    let mut text = "# Vault Pack: ".to_owned();
    text.append(vault_name);
    text.append("\n<!-- Pack Number: ");
    text.append(decimal(pack_num as u64).as_str());
    text.append(" -->\n<!-- Generation Date: ");
    text.append(generation);
    text.append(" -->\n\n");
    text
}

/// Writes what stands before the contents of a file.
fn section_head(file: &MdFile) -> (text: String)
    ensures
        text@ == section_head_text(*file),
{
    let mut text = "<!-- File: ".to_owned();
    text.append(file.rel_unix.as_str());
    text.append(" | Last Modified: ");
    text.append(format_unix_timestamp(file.mtime).as_str());
    text.append(" -->");
    text.append("\n## Path: ");
    text.append(file.rel_unix.as_str());
    text.append("\n\n");
    text
}

/// Writes a pack. `contents` holds what was read of each of its files, or `None`
/// where a file could not be opened.
pub fn render_pack(
    opts: &PackOptions,
    job: &PackJob,
    generation: &str,
    files: &[MdFile],
    contents: &[Option<Vec<u8>>],
) -> (document: Vec<u8>)
    requires
        job.start <= job.end <= files@.len(),
        contents@.len() == job.end - job.start,
    ensures
        document@ == pack_bytes(
            opts.vault_name@,
            job.pack_num as nat,
            generation@,
            files@,
            job.start as int,
            job.end as int,
            contents@,
        ),
{
    let start = job.start;
    let end = job.end;
    let mut document: Vec<u8> = Vec::new();
    append_text(&mut document, preamble(opts.vault_name, job.pack_num, generation).as_str());
    let ghost opening = document@;
    assert(opening =~= encode_utf8(
        preamble_text(opts.vault_name@, job.pack_num as nat, generation@),
    ));
    let mut i: usize = start;
    assert(document@ =~= opening + sections_bytes(files@, start as int, i as int, contents@));
    while i < end
        invariant
            start <= i <= end <= files@.len(),
            contents@.len() == end - start,
            document@ == opening + sections_bytes(files@, start as int, i as int, contents@),
        decreases end - i,
    {
        append_text(&mut document, section_head(&files[i]).as_str());
        match &contents[i - start] {
            Some(bytes) => append_bytes(&mut document, bytes),
            None => append_text(&mut document, "*[File contents unreadable]*\n"),
        }
        append_text(&mut document, "\n---\n\n");
        i = i + 1;
        assert(document@ =~= opening + sections_bytes(files@, start as int, i as int, contents@));
    }
    document
}

/// The manifest entries of the files from `start` up to `end`, which are in the
/// pack `pack_num`.
pub open spec fn pack_entries(start: int, end: int, pack_num: usize) -> Seq<ManifestEntry>
    decreases end - start,
{
    if start >= end {
        Seq::empty()
    } else {
        pack_entries(start, end - 1, pack_num).push(
            ManifestEntry { file_idx: (end - 1) as usize, pack_num },
        )
    }
}

/// The manifest entries of a run whose first pack has the number `first_num`:
/// pack by pack, and file by file within a pack.
pub open spec fn run_entries(packs: Seq<(usize, usize)>, first_num: int) -> Seq<ManifestEntry>
    decreases packs.len(),
{
    if packs.len() == 0 {
        Seq::empty()
    } else {
        let (start, end) = packs.last();
        run_entries(packs.drop_last(), first_num) + pack_entries(
            start as int,
            end as int,
            (first_num + packs.len() - 1) as usize,
        )
    }
}

/// Lists which file is in which pack.
pub fn manifest_entries(plan: &PackPlan, first_num: usize) -> (entries: Vec<ManifestEntry>)
    requires
        plan.boundaries@.len() > 0 ==> first_num + plan.boundaries@.len() - 1 <= usize::MAX,
    ensures
        entries@ == run_entries(plan.boundaries@, first_num as int),
{
    let mut entries: Vec<ManifestEntry> = Vec::new();
    let mut k: usize = 0;
    while k < plan.boundaries.len()
        invariant
            k <= plan.boundaries@.len(),
            plan.boundaries@.len() > 0 ==> first_num + plan.boundaries@.len() - 1 <= usize::MAX,
            entries@ == run_entries(plan.boundaries@.take(k as int), first_num as int),
        decreases plan.boundaries@.len() - k,
    {
        let (start, end) = plan.boundaries[k];
        let pack_num: usize = first_num + k;
        let ghost before = entries@;
        let mut i: usize = start;
        assert(entries@ =~= before + pack_entries(start as int, i as int, pack_num));
        while i < end
            invariant
                start <= i,
                start <= end ==> i <= end,
                start > end ==> i == start,
                entries@ == before + pack_entries(start as int, i as int, pack_num),
            decreases end - i,
        {
            entries.push(ManifestEntry { file_idx: i, pack_num });
            i = i + 1;
            assert(entries@ =~= before + pack_entries(start as int, i as int, pack_num));
        }
        assert(entries@ == before + pack_entries(start as int, end as int, pack_num));
        assert(plan.boundaries@.take(k + 1).drop_last() =~= plan.boundaries@.take(k as int));
        assert(plan.boundaries@.take(k + 1).last() == (start, end));
        k = k + 1;
    }
    assert(plan.boundaries@.take(k as int) =~= plan.boundaries@);
    entries
}

/// Whether a manifest is written: it is asked for, and there is something to
/// list.
pub fn manifest_is_due(opts: &PackOptions, entries: &[ManifestEntry]) -> (r: bool)
    ensures
        r == (opts.write_manifest && entries@.len() > 0),
{
    opts.write_manifest && entries.len() > 0
}

/// What is found where the manifest goes.
#[derive(Debug)]
pub enum PriorManifest {
    /// Nothing.
    Absent,
    /// A manifest that cannot be opened.
    Unreadable,
    /// A manifest with these contents.
    Present(Vec<u8>),
}

/// What a new manifest begins with.
pub open spec fn manifest_head_text(vault_name: Seq<char>, generation: Seq<char>) -> Seq<char> {
    "# Manifest for "@ + vault_name + "\n<!-- Generation Date: "@ + generation
        + " -->\n\n| Relative Path | Pack File | Last Modified | Size (bytes) |\n| :--- | :--- | :--- | :--- |\n"@
}

/// What stands before the rows of a run: a run that resumes continues the
/// manifest it finds, and nothing stands before its rows where that cannot be
/// opened.
pub open spec fn manifest_start_bytes(
    vault_name: Seq<char>,
    generation: Seq<char>,
    resume: bool,
    prior: PriorManifest,
) -> Seq<u8> {
    match prior {
        PriorManifest::Present(bytes) if resume => bytes@ + encode_utf8("\n"@),
        PriorManifest::Unreadable if resume => Seq::empty(),
        _ => encode_utf8(manifest_head_text(vault_name, generation)),
    }
}

/// The row of a file in the manifest.
pub open spec fn manifest_row_text(
    file: MdFile,
    vault_name: Seq<char>,
    pack_num: nat,
) -> Seq<char> {
    "| "@ + escaped(file.rel_unix@) + " | "@ + escaped(
        pack_file_name_text(pack_prefix_text(vault_name), pack_num),
    ) + " | "@ + timestamp_text(file.mtime) + " | "@ + digits(file.size as nat) + " |\n"@
}

/// The rows of the entries, in order.
pub open spec fn manifest_rows_bytes(
    files: Seq<MdFile>,
    entries: Seq<ManifestEntry>,
    vault_name: Seq<char>,
) -> Seq<u8>
    decreases entries.len(),
{
    if entries.len() == 0 {
        Seq::empty()
    } else {
        manifest_rows_bytes(files, entries.drop_last(), vault_name) + encode_utf8(
            manifest_row_text(
                files[entries.last().file_idx as int],
                vault_name,
                entries.last().pack_num as nat,
            ),
        )
    }
}

/// Writes what a new manifest begins with.
fn manifest_head(vault_name: &str, generation: &str) -> (text: String)
    ensures
        text@ == manifest_head_text(vault_name@, generation@),
{
    let mut text = "# Manifest for ".to_owned();
    text.append(vault_name);
    text.append("\n<!-- Generation Date: ");
    text.append(generation);
    text.append(
        " -->\n\n| Relative Path | Pack File | Last Modified | Size (bytes) |\n| :--- | :--- | :--- | :--- |\n",
    );
    text
}

/// Writes the row of a file in the manifest.
pub fn manifest_row(file: &MdFile, vault_name: &str, pack_num: usize) -> (text: String)
    ensures
        text@ == manifest_row_text(*file, vault_name@, pack_num as nat),
{
    let name = pack_file_name(pack_prefix(vault_name).as_str(), pack_num);
    let mut text = "| ".to_owned();
    text.append(escape_md_cell(file.rel_unix.as_str()).as_str());
    text.append(" | ");
    text.append(escape_md_cell(name.as_str()).as_str());
    text.append(" | ");
    text.append(format_unix_timestamp(file.mtime).as_str());
    text.append(" | ");
    text.append(decimal(file.size).as_str());
    text.append(" |\n");
    text
}

/// The manifest of a run.
pub open spec fn manifest_bytes(
    vault_name: Seq<char>,
    generation: Seq<char>,
    resume: bool,
    prior: PriorManifest,
    files: Seq<MdFile>,
    entries: Seq<ManifestEntry>,
) -> Seq<u8> {
    manifest_start_bytes(vault_name, generation, resume, prior) + manifest_rows_bytes(
        files,
        entries,
        vault_name,
    )
}

/// Writes the manifest: what it begins with, and a row for each entry.
pub fn render_manifest(
    opts: &PackOptions,
    generation: &str,
    prior: &PriorManifest,
    files: &[MdFile],
    entries: &[ManifestEntry],
) -> (document: Vec<u8>)
    requires
        forall|i: int| 0 <= i < entries@.len() ==> (#[trigger] entries@[i]).file_idx < files@.len(),
    ensures
        document@ == manifest_bytes(
            opts.vault_name@,
            generation@,
            opts.resume,
            *prior,
            files@,
            entries@,
        ),
{
    let vault_name = opts.vault_name;
    let resume = opts.resume;
    let mut document: Vec<u8> = Vec::new();
    match prior {
        PriorManifest::Present(bytes) if resume => {
            append_bytes(&mut document, bytes);
            append_text(&mut document, "\n");
        },
        PriorManifest::Unreadable if resume => {},
        _ => append_text(&mut document, manifest_head(vault_name, generation).as_str()),
    }
    let ghost opening = document@;
    assert(opening =~= manifest_start_bytes(vault_name@, generation@, resume, *prior));
    let mut i: usize = 0;
    assert(document@ =~= opening + manifest_rows_bytes(files@, entries@.take(0), vault_name@));
    while i < entries.len()
        invariant
            i <= entries@.len(),
            forall|j: int|
                0 <= j < entries@.len() ==> (#[trigger] entries@[j]).file_idx < files@.len(),
            document@ == opening + manifest_rows_bytes(
                files@,
                entries@.take(i as int),
                vault_name@,
            ),
        decreases entries@.len() - i,
    {
        assert(entries@.take(i + 1).drop_last() =~= entries@.take(i as int));
        let entry = entries[i];
        assert(entries@[i as int].file_idx < files@.len());
        let row = manifest_row(&files[entry.file_idx], vault_name, entry.pack_num);
        append_text(&mut document, row.as_str());
        i = i + 1;
        assert(document@ =~= opening + manifest_rows_bytes(
            files@,
            entries@.take(i as int),
            vault_name@,
        ));
    }
    assert(entries@.take(i as int) =~= entries@);
    document
}

/// A run that resumes keeps the manifest that it finds and writes behind it.
pub proof fn law_resumed_manifest_is_kept(
    vault_name: Seq<char>,
    generation: Seq<char>,
    bytes: Vec<u8>,
    files: Seq<MdFile>,
    entries: Seq<ManifestEntry>,
)
    ensures
        bytes@.is_prefix_of(
            manifest_bytes(
                vault_name,
                generation,
                true,
                PriorManifest::Present(bytes),
                files,
                entries,
            ),
        ),
{
    let whole = manifest_bytes(
        vault_name,
        generation,
        true,
        PriorManifest::Present(bytes),
        files,
        entries,
    );
    assert(whole.subrange(0, bytes@.len() as int) =~= bytes@);
}

/// The entries of a pack, one by one.
pub proof fn lemma_pack_entries(start: int, end: int, pack_num: usize)
    requires
        0 <= start <= end <= usize::MAX,
    ensures
        pack_entries(start, end, pack_num).len() == end - start,
        forall|i: int|
            0 <= i < end - start ==> (#[trigger] pack_entries(start, end, pack_num)[i])
                == (ManifestEntry { file_idx: (start + i) as usize, pack_num }),
    decreases end - start,
{
    if start < end {
        lemma_pack_entries(start, end - 1, pack_num);
    }
}

/// A run lists every file once, in order, with the number of the pack that
/// holds it.
pub proof fn law_manifest_lists_every_file_once(
    packs: Seq<(usize, usize)>,
    len: int,
    first_num: usize,
)
    requires
        covers(packs, len),
        packs.len() > 0 ==> first_num + packs.len() - 1 <= usize::MAX,
    ensures
        run_entries(packs, first_num as int).len() == len,
        forall|i: int|
            0 <= i < len ==> (#[trigger] run_entries(packs, first_num as int)[i]).file_idx == i,
        forall|i: int, k: int|
            0 <= k < packs.len() && (#[trigger] packs[k]).0 <= i < packs[k].1 ==> (
            #[trigger] run_entries(packs, first_num as int)[i]).pack_num == first_num + k,
    decreases packs.len(),
{
    if packs.len() > 0 {
        let before = packs.drop_last();
        let (start, end) = packs.last();
        let last = packs.len() - 1;
        let pack_num = (first_num + last) as usize;
        assert(packs[last] == (start, end));
        if last > 0 {
            assert(packs[last - 1].1 == packs[last].0);
            assert(before.last() == packs[last - 1]);
            assert(before[0] == packs[0]);
        }
        assert(covers(before, start as int));
        law_manifest_lists_every_file_once(before, start as int, first_num);
        lemma_pack_entries(start as int, end as int, pack_num);
        let entries = run_entries(packs, first_num as int);
        let earlier = run_entries(before, first_num as int);
        let own = pack_entries(start as int, end as int, pack_num);
        assert(entries == earlier + own);
        assert forall|i: int| 0 <= i < len implies (#[trigger] entries[i]).file_idx == i by {
            if i < start {
                assert(entries[i] == earlier[i]);
            } else {
                assert(entries[i] == own[i - start]);
            }
        }
        assert forall|i: int, k: int|
            0 <= k < packs.len() && (#[trigger] packs[k]).0 <= i < packs[k].1 implies (
        #[trigger] entries[i]).pack_num == first_num + k by {
            if k < last {
                crate::plan::lemma_cover_order(packs, len, k, last);
                assert(before[k] == packs[k]);
                assert(entries[i] == earlier[i]);
            } else {
                assert(entries[i] == own[i - start]);
            }
        }
    }
}

/// Text without bars and backslashes separates no cells.
pub proof fn lemma_plain_text_separates_no_cells(s: Seq<char>, rest: Seq<char>)
    requires
        forall|i: int| 0 <= i < s.len() ==> s[i] != '\\' && s[i] != '|',
    ensures
        bare_pipes(s + rest) == bare_pipes(rest),
    decreases s.len(),
{
    let t = s + rest;
    if s.len() == 0 {
        assert(t =~= rest);
    } else {
        lemma_plain_text_separates_no_cells(s.skip(1), rest);
        assert(t[0] == s[0]);
        assert(t.skip(1) =~= s.skip(1) + rest);
    }
}

/// A bar between spaces separates two cells.
pub proof fn lemma_bar_separates_cells(rest: Seq<char>)
    ensures
        bare_pipes(" | "@ + rest) == 1 + bare_pipes(rest),
{
    reveal_strlit(" | ");
    let t = " | "@ + rest;
    assert(t.skip(1).skip(1) =~= seq![' '] + rest);
    assert((seq![' '] + rest).skip(1) =~= rest);
    reveal_with_fuel(bare_pipes, 4);
}

/// A row of the manifest has four cells, whatever the names hold: five bars
/// separate them.
pub proof fn law_manifest_row_has_four_cells(file: MdFile, vault_name: Seq<char>, pack_num: nat)
    ensures
        bare_pipes(manifest_row_text(file, vault_name, pack_num)) == 5,
{
    let name = pack_file_name_text(pack_prefix_text(vault_name), pack_num);
    let time = timestamp_text(file.mtime);
    let size = digits(file.size as nat);
    let e = " |\n"@;
    let d = size + e;
    let c = time + (" | "@ + d);
    let b = escaped(name) + (" | "@ + c);
    let a = escaped(file.rel_unix@) + (" | "@ + b);
    assert(bare_pipes(e) == 1) by {
        reveal_strlit(" |\n");
        reveal_with_fuel(bare_pipes, 4);
    }
    lemma_digits_show(file.size as nat);
    assert forall|i: int| 0 <= i < size.len() implies size[i] != '\\' && size[i] != '|' by {
        assert(is_digit(size[i]));
    }
    lemma_plain_text_separates_no_cells(size, e);
    lemma_bar_separates_cells(d);
    law_timestamp_text_is_plain(file.mtime);
    assert forall|i: int| 0 <= i < time.len() implies time[i] != '\\' && time[i] != '|' by {
        assert(is_timestamp_char(time[i]));
    }
    lemma_plain_text_separates_no_cells(time, " | "@ + d);
    lemma_bar_separates_cells(c);
    law_escaped_text_separates_no_cells(name, " | "@ + c);
    lemma_bar_separates_cells(b);
    law_escaped_text_separates_no_cells(file.rel_unix@, " | "@ + b);
    let row = manifest_row_text(file, vault_name, pack_num);
    assert(row =~= "| "@ + a);
    assert(bare_pipes(row) == 1 + bare_pipes(a)) by {
        reveal_strlit("| ");
        assert(row.skip(1) =~= seq![' '] + a);
        assert((seq![' '] + a).skip(1) =~= a);
        reveal_with_fuel(bare_pipes, 3);
    }
}

spec fn on_a_line(s: Seq<char>) -> bool {
    forall|i: int| 0 <= i < s.len() ==> !is_line_break(#[trigger] s[i])
}

/// A row of the manifest is one line, whatever the names hold.
pub proof fn law_manifest_row_is_one_line(file: MdFile, vault_name: Seq<char>, pack_num: nat)
    ensures
        ({
            let row = manifest_row_text(file, vault_name, pack_num);
            &&& row.len() > 0
            &&& row.last() == '\n'
            &&& forall|i: int| 0 <= i < row.len() - 1 ==> !is_line_break(#[trigger] row[i])
        }),
{
    let rel = escaped(file.rel_unix@);
    let name = escaped(pack_file_name_text(pack_prefix_text(vault_name), pack_num));
    let time = timestamp_text(file.mtime);
    let size = digits(file.size as nat);
    assert(on_a_line("| "@) && on_a_line(" | "@)) by {
        reveal_strlit("| ");
        reveal_strlit(" | ");
    }
    assert(on_a_line(rel)) by {
        assert forall|i: int| 0 <= i < rel.len() implies !is_line_break(#[trigger] rel[i]) by {
            law_escaped_text_has_no_line_break(file.rel_unix@, i);
        }
    }
    assert(on_a_line(name)) by {
        assert forall|i: int| 0 <= i < name.len() implies !is_line_break(#[trigger] name[i]) by {
            law_escaped_text_has_no_line_break(
                pack_file_name_text(pack_prefix_text(vault_name), pack_num),
                i,
            );
        }
    }
    assert(on_a_line(time)) by {
        law_timestamp_text_is_plain(file.mtime);
        assert forall|i: int| 0 <= i < time.len() implies !is_line_break(#[trigger] time[i]) by {
            assert(is_timestamp_char(time[i]));
        }
    }
    assert(on_a_line(size)) by {
        lemma_digits_show(file.size as nat);
        assert forall|i: int| 0 <= i < size.len() implies !is_line_break(#[trigger] size[i]) by {
            assert(is_digit(size[i]));
        }
    }
    let a = "| "@ + rel + " | "@ + name;
    let b = a + " | "@ + time;
    let c = b + " | "@ + size;
    assert(on_a_line(a));
    assert(on_a_line(b));
    assert(on_a_line(c));
    reveal_strlit(" |\n");
    assert(manifest_row_text(file, vault_name, pack_num) == c + " |\n"@);
}

} // verus!
