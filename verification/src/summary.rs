//! What a run would pack, in short.

use crate::model::MdFile;
use crate::order::{is_newest_first, ranks_before};
use crate::text::{decimal, digits, padded_decimal, zero_padded};
use crate::timestamp::{format_unix_timestamp, timestamp_text};
use vstd::prelude::*;

verus! {

/// A pack in short.
#[derive(Debug, Clone, Copy)]
pub struct PackSummary {
    /// How many files it holds.
    pub files: usize,
    /// How many bytes their contents have together.
    pub raw_bytes: u64,
    /// When the first of them was modified; 0 where there is none.
    pub newest: i64,
    /// When the last of them was modified; 0 where there is none.
    pub oldest: i64,
}

/// Bytes that the contents of the files from `start` up to `end` have together.
pub open spec fn raw_total(files: Seq<MdFile>, start: int, end: int) -> nat
    decreases end - start,
{
    if start >= end {
        0
    } else {
        raw_total(files, start, end - 1) + files[end - 1].size as nat
    }
}

proof fn lemma_raw_total_grows(files: Seq<MdFile>, start: int, mid: int, end: int)
    requires
        start <= mid <= end,
    ensures
        raw_total(files, start, mid) <= raw_total(files, start, end),
    decreases end - mid,
{
    if mid < end {
        lemma_raw_total_grows(files, start, mid, end - 1);
    }
}

/// Sums up the pack that holds the files from `start` up to `end`; `None` where
/// their contents have more bytes than a `u64` counts.
pub fn summarize_pack(files: &[MdFile], start: usize, end: usize) -> (r: Option<PackSummary>)
    requires
        start <= end <= files@.len(),
    ensures
        match r {
            Some(summary) => {
                &&& summary.files == end - start
                &&& summary.raw_bytes == raw_total(files@, start as int, end as int)
                &&& summary.newest == (if start < end {
                    files@[start as int].mtime
                } else {
                    0
                })
                &&& summary.oldest == (if start < end {
                    files@[end - 1].mtime
                } else {
                    0
                })
            },
            None => raw_total(files@, start as int, end as int) > u64::MAX,
        },
{
    let mut raw_bytes: u64 = 0;
    let mut i: usize = start;
    while i < end
        invariant
            start <= i <= end <= files@.len(),
            raw_bytes == raw_total(files@, start as int, i as int),
        decreases end - i,
    {
        proof {
            lemma_raw_total_grows(files@, start as int, i + 1, end as int);
        }
        raw_bytes = match raw_bytes.checked_add(files[i].size) {
            Some(sum) => sum,
            None => return None,
        };
        i = i + 1;
    }
    let (newest, oldest): (i64, i64) = if start < end {
        (files[start].mtime, files[end - 1].mtime)
    } else {
        (0, 0)
    };
    Some(PackSummary { files: end - start, raw_bytes, newest, oldest })
}

/// The line that shows a pack in short.
pub open spec fn summary_line_text(number: nat, summary: PackSummary) -> Seq<char> {
    "  Pack "@ + zero_padded(number, 4) + ": "@ + digits(summary.files as nat) + " files, "@
        + digits(summary.raw_bytes as nat) + " raw content bytes, mtime span ["@ + timestamp_text(
        summary.oldest,
    ) + " to "@ + timestamp_text(summary.newest) + "]"@
}

/// Writes the line that shows a pack in short.
pub fn summary_line(number: usize, summary: &PackSummary) -> (line: String)
    ensures
        line@ == summary_line_text(number as nat, *summary),
{
    let mut line = "  Pack ".to_owned();
    line.append(padded_decimal(number as u64, 4).as_str());
    line.append(": ");
    line.append(decimal(summary.files as u64).as_str());
    line.append(" files, ");
    line.append(decimal(summary.raw_bytes).as_str());
    line.append(" raw content bytes, mtime span [");
    line.append(format_unix_timestamp(summary.oldest).as_str());
    line.append(" to ");
    line.append(format_unix_timestamp(summary.newest).as_str());
    line.append("]");
    line
}

/// The span of a pack holds the time of each of its files, if the files are in
/// order.
pub proof fn law_span_holds_every_time(files: Seq<MdFile>, start: int, end: int, i: int)
    requires
        is_newest_first(files),
        0 <= start <= i < end <= files.len(),
    ensures
        files[end - 1].mtime <= files[i].mtime <= files[start].mtime,
{
    assert(start < i ==> ranks_before(files[start], files[i]));
    assert(i < end - 1 ==> ranks_before(files[i], files[end - 1]));
}

} // verus!
