//! What an earlier run has packed already.

use crate::model::MdFile;
use crate::order::{is_newest_first, law_filtering_keeps_order};
use crate::text::{chars_of, find, has_prefix, occurs_at, occurs_in, string_of};
use vstd::hash_set::StringHashSet;
use vstd::prelude::*;
use vstd::slice::slice_subrange;
use vstd::utf8::{decode_utf8, encode_utf8, encode_utf8_decode_utf8, valid_utf8};

verus! {

/// `std::str::Utf8Error`; nothing is claimed of it.
#[verifier::external_type_specification]
#[verifier::external_body]
pub struct ExUtf8Error(std::str::Utf8Error);

/// `std::str::from_utf8` takes the bytes as text where they are valid UTF-8, and
/// fails otherwise.
pub assume_specification[ std::str::from_utf8 ](v: &[u8]) -> (r: Result<
    &str,
    std::str::Utf8Error,
>)
    ensures
        r is Ok <==> valid_utf8(v@),
        r matches Ok(s) ==> encode_utf8(s@) == v@,
;

/// What the line that names a file begins with.
pub open spec fn file_mark() -> Seq<char> {
    "<!-- File: "@
}

/// What follows the path on the line that names a file.
pub open spec fn path_end() -> Seq<char> {
    " | "@
}

/// Whether `at` is the first place where `pattern` occurs in `text`.
pub open spec fn is_first_place(text: Seq<char>, pattern: Seq<char>, at: int) -> bool {
    occurs_at(text, pattern, at) && forall|j: int| 0 <= j < at ==> !occurs_at(text, pattern, j)
}

/// `text` up to the first place where `pattern` occurs, or all of it.
pub open spec fn head(text: Seq<char>, pattern: Seq<char>) -> Seq<char> {
    if occurs_in(text, pattern) {
        text.take(choose|at: int| is_first_place(text, pattern, at))
    } else {
        text
    }
}

/// The path of the file that the line names, where it names one.
pub open spec fn listed_path(line: Seq<char>) -> Option<Seq<char>> {
    if file_mark().is_prefix_of(line) {
        Some(head(line.skip(file_mark().len() as int), path_end()))
    } else {
        None
    }
}

/// The first place where a pattern occurs is where the head of a text ends.
pub proof fn lemma_head_ends_at(text: Seq<char>, pattern: Seq<char>, at: int)
    requires
        is_first_place(text, pattern, at),
    ensures
        head(text, pattern) == text.take(at),
{
    let first = choose|at: int| is_first_place(text, pattern, at);
    assert(is_first_place(text, pattern, first));
    assert(first == at);
}

/// Reads the path off a line that names a file.
pub fn path_on_line(line: &str) -> (r: Option<String>)
    ensures
        match r {
            Some(path) => listed_path(line@) == Some(path@),
            None => listed_path(line@) is None,
        },
{
    let line = chars_of(line);
    let mark = chars_of("<!-- File: ");
    if !has_prefix(&line, &mark) {
        return None;
    }
    let rest = slice_subrange(&line, mark.len(), line.len());
    assert(rest@ =~= line@.skip(mark@.len() as int));
    match find(rest, &chars_of(" | ")) {
        Some(at) => {
            proof {
                lemma_head_ends_at(rest@, path_end(), at as int);
            }
            assert(rest@.subrange(0, at as int) =~= rest@.take(at as int));
            Some(string_of(slice_subrange(rest, 0, at)))
        },
        None => Some(string_of(rest)),
    }
}

/// Where the first line feed of `bytes` stands, or their number where there is
/// none.
pub open spec fn line_feed_at(bytes: Seq<u8>) -> int
    decreases bytes.len(),
{
    if bytes.len() == 0 || bytes[0] == 10 {
        0
    } else {
        1 + line_feed_at(bytes.skip(1))
    }
}

/// The first line of `bytes`, without the line feed that ends it, or the
/// carriage return and the line feed.
pub open spec fn first_line(bytes: Seq<u8>) -> Seq<u8> {
    let line = bytes.take(line_feed_at(bytes));
    if line_feed_at(bytes) < bytes.len() && line.len() > 0 && line.last() == 13 {
        line.drop_last()
    } else {
        line
    }
}

/// What follows the first line of `bytes`.
pub open spec fn other_lines(bytes: Seq<u8>) -> Seq<u8> {
    if line_feed_at(bytes) < bytes.len() {
        bytes.skip(line_feed_at(bytes) + 1)
    } else {
        Seq::empty()
    }
}

/// The paths of the files that the lines of `bytes` name. Nothing is read
/// beyond a line that is not valid UTF-8.
pub open spec fn listed_paths(bytes: Seq<u8>) -> Set<Seq<char>>
    decreases bytes.len(),
    via listed_paths_decreases
{
    if bytes.len() == 0 || !valid_utf8(first_line(bytes)) {
        Set::empty()
    } else {
        match listed_path(decode_utf8(first_line(bytes))) {
            Some(path) => listed_paths(other_lines(bytes)).insert(path),
            None => listed_paths(other_lines(bytes)),
        }
    }
}

/// Where the first line feed stands.
pub proof fn lemma_line_feed_place(bytes: Seq<u8>)
    ensures
        0 <= line_feed_at(bytes) <= bytes.len(),
        line_feed_at(bytes) < bytes.len() ==> bytes[line_feed_at(bytes)] == 10,
        forall|i: int| 0 <= i < line_feed_at(bytes) ==> bytes[i] != 10,
    decreases bytes.len(),
{
    if bytes.len() > 0 && bytes[0] != 10 {
        let rest = bytes.skip(1);
        lemma_line_feed_place(rest);
        assert forall|i: int| 0 <= i < line_feed_at(bytes) implies bytes[i] != 10 by {
            if i > 0 {
                assert(rest[i - 1] == bytes[i]);
            }
        }
    }
}

#[via_fn]
proof fn listed_paths_decreases(bytes: Seq<u8>) {
    lemma_line_feed_place(bytes);
}

/// A line feed behind none is the first.
pub proof fn lemma_line_feed_found(bytes: Seq<u8>, at: int)
    requires
        0 <= at <= bytes.len(),
        at < bytes.len() ==> bytes[at] == 10,
        forall|i: int| 0 <= i < at ==> bytes[i] != 10,
    ensures
        line_feed_at(bytes) == at,
{
    lemma_line_feed_place(bytes);
}

/// Paths of files that are packed already.
pub struct PackedPaths {
    paths: StringHashSet,
}

impl View for PackedPaths {
    type V = Set<Seq<char>>;

    closed spec fn view(&self) -> Set<Seq<char>> {
        self.paths@
    }
}

impl PackedPaths {
    /// No paths.
    pub fn new() -> (found: Self)
        ensures
            found@ == Set::<Seq<char>>::empty(),
    {
        PackedPaths { paths: StringHashSet::new() }
    }

    /// Whether there are no paths.
    pub fn is_empty(&self) -> (r: bool)
        ensures
            r == (self@ == Set::<Seq<char>>::empty()),
    {
        let r = self.paths.is_empty();
        assert(self@.is_empty() <==> self@ =~= Set::<Seq<char>>::empty());
        r
    }

    /// Whether the file of this path is packed already.
    pub fn contains(&self, rel_unix: &str) -> (r: bool)
        ensures
            r == self@.contains(rel_unix@),
    {
        self.paths.contains(rel_unix)
    }

    /// Adds a path.
    pub fn insert(&mut self, rel_unix: String)
        ensures
            final(self)@ == old(self)@.insert(rel_unix@),
    {
        self.paths.insert(rel_unix);
    }
}

/// Adds the paths of the files that a pack document names to `found`.
pub fn read_already_packed_rel_paths(document: &[u8], found: &mut PackedPaths)
    ensures
        final(found)@ == old(found)@.union(listed_paths(document@)),
{
    let len = document.len();
    let mut pos: usize = 0;
    assert(document@.skip(0) =~= document@);
    while pos < len
        invariant
            len == document@.len(),
            pos <= len,
            old(found)@.union(listed_paths(document@)) == found@.union(
                listed_paths(document@.skip(pos as int)),
            ),
        decreases len - pos,
    {
        let ghost left = document@.skip(pos as int);
        let ghost before = found@;
        let mut end: usize = pos;
        while end < len && document[end] != 10
            invariant
                len == document@.len(),
                pos <= end <= len,
                left == document@.skip(pos as int),
                forall|i: int| 0 <= i < end - pos ==> left[i] != 10,
            decreases len - end,
        {
            assert(left[end - pos] == document@[end as int]);
            end = end + 1;
        }
        proof {
            lemma_line_feed_found(left, end - pos);
        }
        let mut stop: usize = end;
        if end < len && pos < end && document[end - 1] == 13 {
            stop = end - 1;
        }
        let line = slice_subrange(document, pos, stop);
        assert(line@ =~= first_line(left));
        match std::str::from_utf8(line) {
            Ok(text) => {
                proof {
                    encode_utf8_decode_utf8(text@);
                }
                if let Some(path) = path_on_line(text) {
                    found.insert(path);
                }
            },
            Err(_) => {
                assert(listed_paths(left) == Set::<Seq<char>>::empty());
                assert(found@.union(listed_paths(left)) =~= found@);
                return;
            },
        }
        pos = if end < len {
            end + 1
        } else {
            end
        };
        assert(document@.skip(pos as int) =~= other_lines(left));
        assert(before.union(listed_paths(left)) =~= found@.union(
            listed_paths(document@.skip(pos as int)),
        ));
    }
    assert(document@.skip(pos as int) =~= Seq::empty());
    assert(found@.union(listed_paths(document@.skip(pos as int))) =~= found@);
}

/// Tells the files whose paths are not among those found.
pub open spec fn not_packed(found: Set<Seq<char>>) -> spec_fn(MdFile) -> bool {
    |file: MdFile| !found.contains(file.rel_unix@)
}

/// Leaves out the files that are packed already; the others keep their order.
pub fn skip_already_packed(files: Vec<MdFile>, found: &PackedPaths) -> (active: Vec<MdFile>)
    ensures
        active@ == files@.filter(not_packed(found@)),
{
    let ghost all = files@;
    let mut behind = files;
    let mut ahead: Vec<MdFile> = Vec::new();
    let ghost p = not_packed(found@);
    assert(all.subrange(all.len() as int, all.len() as int).filter(p) =~= ahead@.reverse());
    while behind.len() > 0
        invariant
            p == not_packed(found@),
            behind@.len() <= all.len(),
            behind@ == all.take(behind@.len() as int),
            all.filter(p) == behind@.filter(p) + ahead@.reverse(),
        decreases behind@.len(),
    {
        let ghost before = behind@;
        let ghost kept = ahead@;
        if let Some(file) = behind.pop() {
            assert(before =~= behind@.push(file));
            proof {
                behind@.lemma_filter_push(file, p);
            }
            if !found.contains(file.rel_unix.as_str()) {
                ahead.push(file);
                assert(before.filter(p) + kept.reverse() =~= behind@.filter(p)
                    + ahead@.reverse());
            }
        }
    }
    assert(behind@.filter(p) + ahead@.reverse() =~= ahead@.reverse());
    let mut active: Vec<MdFile> = Vec::new();
    while ahead.len() > 0
        invariant
            all.filter(p) == active@ + ahead@.reverse(),
        decreases ahead@.len(),
    {
        let ghost (done, left) = (active@, ahead@);
        if let Some(file) = ahead.pop() {
            active.push(file);
            assert(done + left.reverse() =~= active@ + ahead@.reverse());
        }
    }
    assert(active@ + ahead@.reverse() =~= active@);
    active
}

/// Leaving out files that are packed already keeps the others in order.
pub proof fn law_skipping_keeps_order(files: Seq<MdFile>, found: Set<Seq<char>>)
    requires
        is_newest_first(files),
    ensures
        is_newest_first(files.filter(not_packed(found))),
{
    law_filtering_keeps_order(files, not_packed(found));
}

/// Where nothing is packed yet, no file is left out.
pub proof fn law_fresh_vault_is_packed_whole(files: Seq<MdFile>)
    ensures
        files.filter(not_packed(Set::empty())) == files,
    decreases files.len(),
{
    let p = not_packed(Set::empty());
    if files.len() > 0 {
        let rest = files.drop_last();
        law_fresh_vault_is_packed_whole(rest);
        assert(files =~= rest.push(files.last()));
        rest.lemma_filter_push(files.last(), p);
    } else {
        assert(files.filter(p) =~= files);
    }
}

} // verus!
