//! Finding what is packed already.

use crate::model::MdFile;
use crate::resume::{
    file_mark, is_first_place, lemma_head_ends_at, lemma_line_feed_found, listed_path,
    listed_paths, not_packed, other_lines, path_end, path_on_line, skip_already_packed,
    PackedPaths,
};
use crate::text::{occurs_at, occurs_in};
use vstd::prelude::*;
use vstd::utf8::{decode_utf8, valid_utf8};

verus! {

proof fn lemma_filter_members(
    files: Seq<MdFile>,
    keep: spec_fn(MdFile) -> bool,
    file: MdFile,
)
    ensures
        files.filter(keep).contains(file) <==> files.contains(file) && keep(file),
    decreases files.len(),
{
    if files.filter(keep).contains(file) {
        files.lemma_filter_contains_rev(keep, file);
        let i = choose|i: int| 0 <= i < files.filter(keep).len() && files.filter(keep)[i] == file;
        files.lemma_filter_pred(keep, i);
    }
    if files.contains(file) && keep(file) {
        let i = choose|i: int| 0 <= i < files.len() && files[i] == file;
        files.lemma_filter_contains(keep, i);
    }
}

/// A run that resumes keeps exactly the files whose paths are not among those
/// found, each as often as it was given and in the same order. Nothing else about a
/// file matters, nor which other paths were found.
pub proof fn law_skip_already_packed(
    files: Vec<MdFile>,
    found: &PackedPaths,
    active: Vec<MdFile>,
    file: MdFile,
)
    requires
        call_ensures(skip_already_packed, (files, found), active),
    ensures
        active@.contains(file) <==> files@.contains(file) && !found@.contains(file.rel_unix@),
        active@ == files@.filter(|f: MdFile| !found@.contains(f.rel_unix@)),
{
    lemma_filter_members(files@, not_packed(found@), file);
    assert(not_packed(found@) =~= |f: MdFile| !found@.contains(f.rel_unix@));
}

/// A line names a file exactly where it begins with the mark. The path is what
/// follows, up to the first bar between spaces, or to the end of the line.
pub proof fn law_listed_path(line: Seq<char>, j: int)
    requires
        0 <= j,
    ensures
        listed_path(line) is Some <==> line.len() >= 11 && line.take(11) == "<!-- File: "@,
        listed_path(line) matches Some(path) ==> {
            let rest = line.skip(11);
            &&& path.len() <= rest.len()
            &&& path == rest.take(path.len() as int)
            &&& path.len() == rest.len() || (path.len() + 3 <= rest.len() && rest.subrange(
                path.len() as int,
                (path.len() + 3) as int,
            ) == " | "@)
            &&& j < path.len() && j + 3 <= rest.len() ==> rest.subrange(j, j + 3) != " | "@
        },
{
    reveal_strlit("<!-- File: ");
    reveal_strlit(" | ");
    assert(file_mark().len() == 11);
    if line.len() >= 11 {
        assert(line.take(11) =~= line.subrange(0, 11));
    }
    if file_mark().is_prefix_of(line) {
        let rest = line.skip(11);
        if occurs_in(rest, path_end()) {
            lemma_first_place_exists(rest, path_end());
            let at = choose|at: int| is_first_place(rest, path_end(), at);
            lemma_head_ends_at(rest, path_end(), at);
            assert(occurs_at(rest, path_end(), at));
            if j < at && j + 3 <= rest.len() {
                assert(!occurs_at(rest, path_end(), j));
            }
        } else {
            assert(rest =~= rest.take(rest.len() as int));
            if j + 3 <= rest.len() {
                assert(!occurs_at(rest, path_end(), j));
            }
        }
    }
}

proof fn lemma_first_place_exists(text: Seq<char>, pattern: Seq<char>)
    requires
        occurs_in(text, pattern),
    ensures
        exists|at: int| is_first_place(text, pattern, at),
{
    let at = choose|at: int| occurs_at(text, pattern, at);
    lemma_first_place_before(text, pattern, at);
}

proof fn lemma_first_place_before(text: Seq<char>, pattern: Seq<char>, at: int)
    requires
        occurs_at(text, pattern, at),
    ensures
        exists|first: int| is_first_place(text, pattern, first),
    decreases at,
{
    if exists|j: int| 0 <= j < at && occurs_at(text, pattern, j) {
        let j = choose|j: int| 0 <= j < at && occurs_at(text, pattern, j);
        lemma_first_place_before(text, pattern, j);
    } else {
        assert(is_first_place(text, pattern, at));
    }
}

/// `path_on_line` reads the path that stands between the mark and the first bar
/// between spaces, or the end of the line.
pub proof fn law_path_on_line(line: &str, r: Option<String>, j: int)
    requires
        0 <= j,
        call_ensures(path_on_line, (line,), r),
    ensures
        r is Some <==> line@.len() >= 11 && line@.take(11) == "<!-- File: "@,
        r matches Some(path) ==> {
            let rest = line@.skip(11);
            &&& path@.len() <= rest.len()
            &&& path@ == rest.take(path@.len() as int)
            &&& path@.len() == rest.len() || (path@.len() + 3 <= rest.len() && rest.subrange(
                path@.len() as int,
                (path@.len() + 3) as int,
            ) == " | "@)
            &&& j < path@.len() && j + 3 <= rest.len() ==> rest.subrange(j, j + 3) != " | "@
        },
{
    law_listed_path(line@, j);
}

/// A document is read line by line. A line ends with a line feed; a carriage return
/// before that does not belong to it. Nothing is read from a line on that is not
/// valid UTF-8.
pub proof fn law_document_is_read_by_line(line: Seq<u8>, rest: Seq<u8>)
    requires
        !line.contains(10),
    ensures
        ({
            let stripped = if line.len() > 0 && line[line.len() - 1] == 13 {
                line.take(line.len() - 1)
            } else {
                line
            };
            listed_paths(line + seq![10u8] + rest) == if !valid_utf8(stripped) {
                Set::<Seq<char>>::empty()
            } else {
                match listed_path(decode_utf8(stripped)) {
                    Some(path) => listed_paths(rest).insert(path),
                    None => listed_paths(rest),
                }
            }
        }),
        listed_paths(line) == if line.len() == 0 || !valid_utf8(line) {
            Set::<Seq<char>>::empty()
        } else {
            match listed_path(decode_utf8(line)) {
                Some(path) => set![path],
                None => Set::<Seq<char>>::empty(),
            }
        },
{
    let n = line.len() as int;
    assert forall|i: int| 0 <= i < n implies line[i] != 10 by {
        assert(line.contains(line[i]));
    }
    let whole = line + seq![10u8] + rest;
    assert forall|i: int| 0 <= i < n implies whole[i] != 10 by {
        assert(whole[i] == line[i]);
    }
    assert(whole[n] == 10);
    lemma_line_feed_found(whole, n);
    assert(whole.take(n) =~= line);
    assert(whole.skip(n + 1) =~= rest);
    if n > 0 {
        assert(line.drop_last() =~= line.take(n - 1));
    }
    lemma_line_feed_found(line, n);
    assert(line.take(n) =~= line);
    assert(listed_paths(Seq::<u8>::empty()) =~= Set::<Seq<char>>::empty());
    if n > 0 && valid_utf8(line) {
        assert(other_lines(line) == Seq::<u8>::empty());
        assert(listed_paths(line) =~= match listed_path(decode_utf8(line)) {
            Some(path) => set![path],
            None => Set::<Seq<char>>::empty(),
        });
    }
}

} // verus!
