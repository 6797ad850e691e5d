//! The size of a pack document against the capacity that it was planned for.

use crate::document::{
    body_bytes, pack_bytes, preamble_text, section_bytes, section_head_text, section_tail_text,
    sections_bytes,
};
use crate::model::{MdFile, PACK_BASE_OVERHEAD, PER_FILE_OVERHEAD};
use crate::plan::{fits, pack_size, total_cost, within_capacity};
use crate::round_trip::lemma_encode_joins;
use crate::text::{digits, is_digit, lemma_digits_show};
use crate::timestamp::{
    is_timestamp_char, law_timestamp_text_is_plain, law_timestamp_text_is_short, timestamp_text,
};
use vstd::prelude::*;
use vstd::utf8::{encode_utf8, is_ascii_chars, is_ascii_chars_encode_utf8};

verus! {

/// Bytes that a vault name may have for the estimate to hold.
pub open spec fn max_vault_name_bytes() -> nat {
    402
}

/// Bytes that a path may have for the estimate to hold.
pub open spec fn max_path_bytes() -> nat {
    90
}

proof fn lemma_digits_grow(m: nat, n: nat)
    requires
        m <= n,
    ensures
        digits(m).len() <= digits(n).len(),
    decreases n,
{
    if m >= 10 {
        lemma_digits_grow(m / 10, n / 10);
    }
}

/// The numeral of a `usize` has at most 20 digits.
proof fn lemma_number_is_short(n: usize)
    ensures
        digits(n as nat).len() <= 20,
{
    lemma_digits_grow(n as nat, u64::MAX as nat);
    reveal_with_fuel(digits, 21);
}

proof fn lemma_plain_bytes(n: usize, ts: i64)
    ensures
        encode_utf8(digits(n as nat)).len() <= 20,
        encode_utf8(timestamp_text(ts)).len() <= 24,
{
    let number = digits(n as nat);
    let time = timestamp_text(ts);
    lemma_number_is_short(n);
    lemma_digits_show(n as nat);
    assert(is_ascii_chars(number)) by {
        assert forall|i: int| 0 <= i < number.len() implies '\0' <= #[trigger] number[i]
            <= '\u{7f}' by {
            assert(is_digit(number[i]));
        }
    }
    is_ascii_chars_encode_utf8(number);
    law_timestamp_text_is_short(ts);
    law_timestamp_text_is_plain(ts);
    assert(is_ascii_chars(time)) by {
        assert forall|i: int| 0 <= i < time.len() implies '\0' <= #[trigger] time[i]
            <= '\u{7f}' by {
            assert(is_timestamp_char(time[i]));
        }
    }
    is_ascii_chars_encode_utf8(time);
}

proof fn lemma_preamble_bytes(vault_name: Seq<char>, pack_num: usize, generated: i64)
    requires
        encode_utf8(vault_name).len() <= max_vault_name_bytes(),
    ensures
        encode_utf8(
            preamble_text(vault_name, pack_num as nat, timestamp_text(generated)),
        ).len() <= PACK_BASE_OVERHEAD,
{
    let number = digits(pack_num as nat);
    let time = timestamp_text(generated);
    reveal_strlit("# Vault Pack: ");
    reveal_strlit("\n<!-- Pack Number: ");
    reveal_strlit(" -->\n<!-- Generation Date: ");
    reveal_strlit(" -->\n\n");
    lemma_plain_bytes(pack_num, generated);
    is_ascii_chars_encode_utf8("# Vault Pack: "@);
    is_ascii_chars_encode_utf8("\n<!-- Pack Number: "@);
    is_ascii_chars_encode_utf8(" -->\n<!-- Generation Date: "@);
    is_ascii_chars_encode_utf8(" -->\n\n"@);
    let a = "# Vault Pack: "@;
    let b = a + vault_name;
    let c = b + "\n<!-- Pack Number: "@;
    let d = c + number;
    let e = d + " -->\n<!-- Generation Date: "@;
    let f = e + time;
    lemma_encode_joins(a, vault_name);
    lemma_encode_joins(b, "\n<!-- Pack Number: "@);
    lemma_encode_joins(c, number);
    lemma_encode_joins(d, " -->\n<!-- Generation Date: "@);
    lemma_encode_joins(e, time);
    lemma_encode_joins(f, " -->\n\n"@);
}

proof fn lemma_section_bytes(file: MdFile, contents: Option<Vec<u8>>)
    requires
        encode_utf8(file.rel_unix@).len() <= max_path_bytes(),
        body_bytes(contents).len() <= file.size,
    ensures
        section_bytes(file, contents).len() <= file.size + PER_FILE_OVERHEAD,
{
    let rel = file.rel_unix@;
    let time = timestamp_text(file.mtime);
    reveal_strlit("<!-- File: ");
    reveal_strlit(" | Last Modified: ");
    reveal_strlit(" -->");
    reveal_strlit("\n## Path: ");
    reveal_strlit("\n\n");
    reveal_strlit("\n---\n\n");
    lemma_plain_bytes(0, file.mtime);
    is_ascii_chars_encode_utf8("<!-- File: "@);
    is_ascii_chars_encode_utf8(" | Last Modified: "@);
    is_ascii_chars_encode_utf8(" -->"@);
    is_ascii_chars_encode_utf8("\n## Path: "@);
    is_ascii_chars_encode_utf8("\n\n"@);
    is_ascii_chars_encode_utf8("\n---\n\n"@);
    let a = "<!-- File: "@;
    let b = a + rel;
    let c = b + " | Last Modified: "@;
    let d = c + time;
    let e = d + " -->"@;
    let f = e + "\n## Path: "@;
    let g = f + rel;
    lemma_encode_joins(a, rel);
    lemma_encode_joins(b, " | Last Modified: "@);
    lemma_encode_joins(c, time);
    lemma_encode_joins(d, " -->"@);
    lemma_encode_joins(e, "\n## Path: "@);
    lemma_encode_joins(f, rel);
    lemma_encode_joins(g, "\n\n"@);
    assert(section_head_text(file) == g + "\n\n"@);
    assert(section_tail_text() == "\n---\n\n"@);
}

/// Whether the paths of the files from `start` up to `end` are short enough for
/// the estimate, and what stands for their contents has at most the recorded
/// sizes.
pub open spec fn as_estimated(
    files: Seq<MdFile>,
    start: int,
    end: int,
    contents: Seq<Option<Vec<u8>>>,
) -> bool {
    forall|i: int|
        start <= i < end ==> {
            &&& encode_utf8((#[trigger] files[i]).rel_unix@).len() <= max_path_bytes()
            &&& body_bytes(contents[i - start]).len() <= files[i].size
        }
}

proof fn lemma_sections_bytes(
    files: Seq<MdFile>,
    start: int,
    end: int,
    contents: Seq<Option<Vec<u8>>>,
)
    requires
        as_estimated(files, start, end, contents),
    ensures
        sections_bytes(files, start, end, contents).len() <= total_cost(files, start, end),
    decreases end - start,
{
    if start < end {
        let last = end - 1;
        assert(as_estimated(files, start, last, contents));
        lemma_sections_bytes(files, start, last, contents);
        assert(encode_utf8(files[last].rel_unix@).len() <= max_path_bytes());
        lemma_section_bytes(files[last], contents[last - start]);
    }
}

/// A pack document is no larger than estimated, if the vault name has at most
/// 402 bytes, each path at most 90, and the contents at most the recorded sizes.
pub proof fn law_document_is_within_estimate(
    vault_name: Seq<char>,
    pack_num: usize,
    generated: i64,
    files: Seq<MdFile>,
    start: int,
    end: int,
    contents: Seq<Option<Vec<u8>>>,
)
    requires
        encode_utf8(vault_name).len() <= max_vault_name_bytes(),
        as_estimated(files, start, end, contents),
    ensures
        pack_bytes(
            vault_name,
            pack_num as nat,
            timestamp_text(generated),
            files,
            start,
            end,
            contents,
        ).len() <= pack_size(files, start, end),
{
    lemma_preamble_bytes(vault_name, pack_num, generated);
    lemma_sections_bytes(files, start, end, contents);
}

/// Under the same conditions each pack document of a plan is within the
/// capacity, but for one that holds a single file. A capacity of the largest
/// `u64` is no limit.
pub proof fn law_documents_are_within_capacity(
    vault_name: Seq<char>,
    pack_num: usize,
    generated: i64,
    files: Seq<MdFile>,
    packs: Seq<(usize, usize)>,
    available_bytes: u64,
    k: int,
    contents: Seq<Option<Vec<u8>>>,
)
    requires
        within_capacity(files, packs, available_bytes),
        0 <= k < packs.len(),
        encode_utf8(vault_name).len() <= max_vault_name_bytes(),
        as_estimated(files, packs[k].0 as int, packs[k].1 as int, contents),
    ensures
        packs[k].1 == packs[k].0 + 1 || fits(
            pack_bytes(
                vault_name,
                pack_num as nat,
                timestamp_text(generated),
                files,
                packs[k].0 as int,
                packs[k].1 as int,
                contents,
            ).len(),
            available_bytes,
        ),
{
    let (start, end) = packs[k];
    law_document_is_within_estimate(
        vault_name,
        pack_num,
        generated,
        files,
        start as int,
        end as int,
        contents,
    );
}

} // verus!
