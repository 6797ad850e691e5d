//! Retries, reports and summaries.

use crate::globs::invalid_pattern_message;
use crate::laws::texts::{lemma_padded_numeral, lemma_shortest_numeral};
use crate::model::MdFile;
use crate::retry::{
    after_persist_attempt, failure_passes, kind_of, os_code_of, persist_failure, should_retry,
    FailureKind, PersistStep,
};
use crate::run::{after_scan, resume_report, AfterScan};
use crate::scan::walk_warning;
use crate::summary::{raw_total, summarize_pack, summary_line, PackSummary};
use crate::text::{digits, is_numeral, numeral_value, occurs_at, occurs_in, zero_padded};
use crate::timestamp::format_unix_timestamp;
use vstd::prelude::*;

verus! {

/// A failure may pass exactly where permission is denied or the code is 32 or 33.
pub proof fn law_failure_passes(kind: FailureKind, code: Option<i32>, r: bool)
    requires
        call_ensures(failure_passes, (kind, code), r),
    ensures
        r <==> kind is PermissionDenied || code == Some(32i32) || code == Some(33i32),
{
}

/// A write is worth another attempt exactly where permission was denied or the
/// operating system's code is 32 or 33.
pub proof fn law_should_retry(err: &std::io::Error, r: bool)
    requires
        call_ensures(should_retry, (err,), r),
    ensures
        r <==> kind_of(*err) is PermissionDenied || os_code_of(*err) == Some(32i32) || os_code_of(
            *err,
        ) == Some(33i32),
{
}

/// An attempt that succeeded is the last. One that failed hands back its file and
/// its error, for another attempt exactly where the failure may pass.
pub proof fn law_after_persist_attempt<T>(
    attempt: Result<(), (T, std::io::Error)>,
    step: PersistStep<T>,
)
    requires
        call_ensures(after_persist_attempt::<T>, (attempt,), step),
    ensures
        attempt is Ok <==> step is Done,
        attempt matches Err((temp, error)) ==> {
            let again = kind_of(error) is PermissionDenied || os_code_of(error) == Some(32i32)
                || os_code_of(error) == Some(33i32);
            &&& again ==> step == (PersistStep::Retry { temp, error })
            &&& !again ==> step == (PersistStep::Fail { temp, error })
        },
{
}

/// The report names the target and the cause.
pub proof fn law_persist_failure(target: &str, cause: &str, text: String)
    requires
        call_ensures(persist_failure, (target, cause), text),
    ensures
        text@ == "Failed to persist '"@ + target@ + "': "@ + cause@,
{
}

/// The report names the pattern.
pub proof fn law_invalid_pattern_message(pattern: &str, text: String)
    requires
        call_ensures(invalid_pattern_message, (pattern,), text),
    ensures
        text@ == "Invalid glob pattern: '"@ + pattern@ + "'"@,
{
}

/// The warning names the path where the message says that something does not exist
/// or that a path is too long, and repeats the message otherwise.
pub proof fn law_walk_warning(message: &str, path: Option<&str>, text: String)
    requires
        call_ensures(walk_warning, (message, path), text),
    ensures
        ({
            let long = exists|at: int|
                {
                    ||| 0 <= at <= message@.len() - 14 && (#[trigger] message@.skip(at)).take(14)
                        == "does not exist"@
                    ||| 0 <= at <= message@.len() - 13 && message@.skip(at).take(13)
                        == "path too long"@
                };
            text@ == if long {
                "Warning: Cannot traverse path (likely exceeds Windows MAX_PATH): "@ + (match path {
                    Some(path) => path@,
                    None => Seq::<char>::empty(),
                })
            } else {
                "Warning: Skipping unreadable entry during scan: "@ + message@
            }
        }),
{
    reveal_strlit("does not exist");
    reveal_strlit("path too long");
    let m = message@;
    assert forall|at: int| 0 <= at <= m.len() - 14 implies (#[trigger] m.skip(at)).take(14)
        == m.subrange(at, at + 14) by {
        assert(m.skip(at).take(14) =~= m.subrange(at, at + 14));
    }
    assert forall|at: int| 0 <= at <= m.len() - 13 implies (#[trigger] m.skip(at)).take(13)
        == m.subrange(at, at + 13) by {
        assert(m.skip(at).take(13) =~= m.subrange(at, at + 13));
    }
    if occurs_in(m, "does not exist"@) {
        let at = choose|at: int| occurs_at(m, "does not exist"@, at);
        assert(m.skip(at).take(14) == "does not exist"@);
    }
    if occurs_in(m, "path too long"@) {
        let at = choose|at: int| occurs_at(m, "path too long"@, at);
        assert(m.skip(at).take(13) == "path too long"@);
    }
    if exists|at: int|
        {
            ||| 0 <= at <= m.len() - 14 && (#[trigger] m.skip(at)).take(14) == "does not exist"@
            ||| 0 <= at <= m.len() - 13 && m.skip(at).take(13) == "path too long"@
        } {
        let at = choose|at: int|
            {
                ||| 0 <= at <= m.len() - 14 && (#[trigger] m.skip(at)).take(14)
                    == "does not exist"@
                ||| 0 <= at <= m.len() - 13 && m.skip(at).take(13) == "path too long"@
            };
        if 0 <= at <= m.len() - 14 && m.skip(at).take(14) == "does not exist"@ {
            assert(occurs_at(m, "does not exist"@, at));
        } else {
            assert(occurs_at(m, "path too long"@, at));
        }
    }
}

/// A run ends where nothing was found, skips what is packed where it resumes, and
/// otherwise removes earlier outputs unless it is to write nothing.
pub proof fn law_after_scan(found: usize, resume: bool, dry_run: bool, step: AfterScan)
    requires
        call_ensures(after_scan, (found, resume, dry_run), step),
    ensures
        found == 0 ==> step is NothingFound,
        found > 0 && resume ==> step is SkipPacked,
        found > 0 && !resume && !dry_run ==> step is CleanOutputs,
        found > 0 && !resume && dry_run ==> step is PlanOnly,
{
}

/// A run that resumes reports how many files it skips and how many are left, where
/// some pack names a file.
pub proof fn law_resume_report(none_packed: bool, before: usize, left: usize, text: String)
    requires
        left <= before,
        call_ensures(resume_report, (none_packed, before, left), text),
    ensures
        none_packed ==> text@
            == "--resume specified, but no existing manifest or packs were found. Proceeding with full scan."@,
        !none_packed ==> exists|skipped: Seq<char>, active: Seq<char>|
            {
                &&& #[trigger] is_numeral(skipped)
                &&& #[trigger] is_numeral(active)
                &&& numeral_value(skipped) == before - left
                &&& numeral_value(active) == left
                &&& skipped.len() > 1 ==> skipped[0] != '0'
                &&& active.len() > 1 ==> active[0] != '0'
                &&& text@ == "Resuming run: skipped "@ + skipped + " already-packed files. "@
                    + active + " active files remaining."@
            },
{
    lemma_shortest_numeral((before - left) as nat);
    lemma_shortest_numeral(left as nat);
    assert(is_numeral(digits((before - left) as nat)) && is_numeral(digits(left as nat)));
}

proof fn lemma_raw_total_is_sum(files: Seq<MdFile>, start: int, end: int)
    requires
        0 <= start <= end <= files.len(),
    ensures
        raw_total(files, start, end) == files.subrange(start, end).fold_left(
            0int,
            |sum: int, file: MdFile| sum + file.size,
        ),
    decreases end - start,
{
    if start < end {
        lemma_raw_total_is_sum(files, start, end - 1);
        assert(files.subrange(start, end).drop_last() =~= files.subrange(start, end - 1));
    }
}

/// A pack in short: how many files it holds, the sum of their sizes, and the times
/// of the first and the last. There is none exactly where the sum exceeds the
/// largest `u64`.
pub proof fn law_summarize_pack(
    files: &[MdFile],
    start: usize,
    end: usize,
    r: Option<PackSummary>,
)
    requires
        start <= end <= files@.len(),
        call_ensures(summarize_pack, (files, start, end), r),
    ensures
        ({
            let sum = files@.subrange(start as int, end as int).fold_left(
                0int,
                |sum: int, file: MdFile| sum + file.size,
            );
            &&& r is Some <==> sum <= u64::MAX
            &&& r matches Some(summary) ==> {
                &&& summary.files == end - start
                &&& summary.raw_bytes == sum
                &&& start < end ==> summary.newest == files@[start as int].mtime
                &&& start < end ==> summary.oldest == files@[end - 1].mtime
                &&& start == end ==> summary.newest == 0 && summary.oldest == 0
            }
        }),
{
    lemma_raw_total_is_sum(files@, start as int, end as int);
}

/// The line shows the number in at least four digits, the counts in decimal, and the
/// two times, the older first.
pub proof fn law_summary_line(
    number: usize,
    summary: &PackSummary,
    line: String,
    oldest: String,
    newest: String,
)
    requires
        call_ensures(summary_line, (number, summary), line),
        call_ensures(format_unix_timestamp, (summary.oldest,), oldest),
        call_ensures(format_unix_timestamp, (summary.newest,), newest),
    ensures
        exists|n: Seq<char>, count: Seq<char>, bytes: Seq<char>|
            {
                &&& #[trigger] is_numeral(n)
                &&& #[trigger] is_numeral(count)
                &&& #[trigger] is_numeral(bytes)
                &&& numeral_value(n) == number
                &&& n.len() >= 4
                &&& n.len() > 4 ==> n[0] != '0'
                &&& numeral_value(count) == summary.files
                &&& count.len() > 1 ==> count[0] != '0'
                &&& numeral_value(bytes) == summary.raw_bytes
                &&& bytes.len() > 1 ==> bytes[0] != '0'
                &&& line@ == "  Pack "@ + n + ": "@ + count + " files, "@ + bytes
                    + " raw content bytes, mtime span ["@ + oldest@ + " to "@ + newest@ + "]"@
            },
{
    lemma_padded_numeral(number as nat, 4);
    lemma_shortest_numeral(summary.files as nat);
    lemma_shortest_numeral(summary.raw_bytes as nat);
    let n = zero_padded(number as nat, 4);
    let count = digits(summary.files as nat);
    let bytes = digits(summary.raw_bytes as nat);
    assert(is_numeral(n) && is_numeral(count) && is_numeral(bytes));
}

} // verus!
