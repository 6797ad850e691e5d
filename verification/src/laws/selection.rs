//! Which entries of the vault are listed, and in what order.

use crate::globs::{
    all_portable, build_glob_set, builder_texts, effective, excluded_by, glob_matches, is_excluded,
    is_taken, is_white_space, matched_paths, parses_to, set_texts, trim, trimmed, GlobSetError,
};
use crate::laws::texts::law_text_order;
use crate::listing::{is_met, list_files, lists, meets_entry, owned_text, record_of, Entry};
use crate::model::MdFile;
use crate::order::{has_key, newest_first, ranks_before, with_key};
use crate::scan::{
    file_record, has_packable_extension, is_listed, is_listed_extension, is_walked, lower_case,
    screen_entry, text_of, to_unix_path, unix_path, walks_entry, PACKABLE_EXTENSIONS,
};
use globset::{Glob, GlobSet, GlobSetBuilder};
use std::path::PathBuf;
use vstd::prelude::*;

verus! {

/// Text loses the white space at its ends and nothing else.
pub proof fn law_trimmed(s: Seq<char>)
    ensures
        exists|a: Seq<char>, b: Seq<char>|
            {
                &&& s == #[trigger] (a + trimmed(s) + b)
                &&& forall|i: int| 0 <= i < a.len() ==> is_white_space(#[trigger] a[i])
                &&& forall|i: int| 0 <= i < b.len() ==> is_white_space(#[trigger] b[i])
            },
        trimmed(s).len() > 0 ==> !is_white_space(trimmed(s)[0]) && !is_white_space(
            trimmed(s).last(),
        ),
    decreases s.len(),
{
    if s.len() == 0 {
        assert(s =~= Seq::<char>::empty() + trimmed(s) + Seq::<char>::empty());
    } else if is_white_space(s[0]) {
        let rest = s.skip(1);
        law_trimmed(rest);
        let (a, b) = choose|a: Seq<char>, b: Seq<char>|
            {
                &&& rest == #[trigger] (a + trimmed(rest) + b)
                &&& forall|i: int| 0 <= i < a.len() ==> is_white_space(#[trigger] a[i])
                &&& forall|i: int| 0 <= i < b.len() ==> is_white_space(#[trigger] b[i])
            };
        assert(s =~= seq![s[0]] + rest);
        assert(s =~= (seq![s[0]] + a) + trimmed(s) + b);
    } else if is_white_space(s.last()) {
        let rest = s.drop_last();
        law_trimmed(rest);
        let (a, b) = choose|a: Seq<char>, b: Seq<char>|
            {
                &&& rest == #[trigger] (a + trimmed(rest) + b)
                &&& forall|i: int| 0 <= i < a.len() ==> is_white_space(#[trigger] a[i])
                &&& forall|i: int| 0 <= i < b.len() ==> is_white_space(#[trigger] b[i])
            };
        assert(s =~= rest.push(s.last()));
        assert(s =~= a + trimmed(s) + b.push(s.last()));
    } else {
        assert(s =~= Seq::<char>::empty() + trimmed(s) + Seq::<char>::empty());
    }
}

/// White space is what Unicode says it is.
pub proof fn law_white_space(c: char)
    ensures
        is_white_space(c) <==> {
            let u = c as u32;
            ||| 9 <= u <= 13
            ||| u == 32
            ||| u == 133
            ||| u == 160
            ||| u == 5760
            ||| 8192 <= u <= 8202
            ||| u == 8232
            ||| u == 8233
            ||| u == 8239
            ||| u == 8287
            ||| u == 12288
        },
{
}

/// `trim` cuts the white space off both ends and nothing else.
pub proof fn law_trim(s: &str, out: String)
    requires
        call_ensures(trim, (s,), out),
    ensures
        exists|a: Seq<char>, b: Seq<char>|
            {
                &&& s@ == #[trigger] (a + out@ + b)
                &&& forall|i: int| 0 <= i < a.len() ==> is_white_space(#[trigger] a[i])
                &&& forall|i: int| 0 <= i < b.len() ==> is_white_space(#[trigger] b[i])
            },
        out@.len() > 0 ==> !is_white_space(out@[0]) && !is_white_space(out@.last()),
{
    law_trimmed(s@);
}

/// The patterns that count are the given ones in their order, trimmed, without those
/// that are empty then.
pub proof fn law_effective(patterns: Seq<String>, pattern: String)
    ensures
        effective(Seq::empty()) == Seq::<Seq<char>>::empty(),
        trimmed(pattern@).len() == 0 ==> effective(patterns.push(pattern)) == effective(patterns),
        trimmed(pattern@).len() > 0 ==> effective(patterns.push(pattern)) == effective(
            patterns,
        ).push(trimmed(pattern@)),
{
    assert(patterns.push(pattern).drop_last() =~= patterns);
}

/// A text is taken where `Glob::new` may give a pattern for it.
pub proof fn law_is_taken(text: Seq<char>)
    ensures
        is_taken(text) <==> exists|glob: Glob, taken: &str| #[trigger]
            call_ensures(Glob::new, (taken,), Ok(glob)) && taken@ == text,
{
    if is_taken(text) {
        let glob = choose|glob: Glob| parses_to(text, Ok(glob));
        let taken = choose|taken: &str| #[trigger]
            call_ensures(Glob::new, (taken,), Ok::<Glob, globset::Error>(glob)) && taken@ == text;
        assert(call_ensures(Glob::new, (taken,), Ok::<Glob, globset::Error>(glob)));
    }
    if exists|glob: Glob, taken: &str| #[trigger]
        call_ensures(Glob::new, (taken,), Ok(glob)) && taken@ == text {
        let (glob, taken) = choose|glob: Glob, taken: &str| #[trigger]
            call_ensures(Glob::new, (taken,), Ok(glob)) && taken@ == text;
        assert(parses_to(text, Ok(glob)));
    }
}

/// Every outcome is that of `globset` on the patterns that count: a set is what
/// `GlobSetBuilder::build` gives for exactly these patterns, each of which
/// `Glob::new` takes. The set is refused only where `GlobSetBuilder::build` refuses
/// these patterns, and a pattern only where it is one of them and `Glob::new`
/// refuses it, but takes those before it.
pub proof fn law_build_glob_set(
    patterns: &[String],
    r: Result<Option<GlobSet>, GlobSetError>,
)
    requires
        call_ensures(build_glob_set, (patterns,), r),
    ensures
        r matches Ok(None) <==> patterns@.len() == 0,
        r matches Ok(Some(set)) ==> exists|builder: GlobSetBuilder|
            {
                &&& #[trigger] call_ensures(GlobSetBuilder::build, (&builder,), Ok(set))
                &&& builder_texts(builder) == effective(patterns@)
            },
        r matches Err(GlobSetError::Unbuildable { cause }) ==> exists|builder: GlobSetBuilder|
            {
                &&& #[trigger] call_ensures(GlobSetBuilder::build, (&builder,), Err(cause))
                &&& builder_texts(builder) == effective(patterns@)
            },
        r matches Err(GlobSetError::InvalidPattern { pattern, cause }) ==> {
            &&& exists|text: &str|
                {
                    &&& #[trigger] call_ensures(Glob::new, (text,), Err(cause))
                    &&& text@ == pattern@
                }
            &&& exists|n: int|
                {
                    &&& 0 <= n < effective(patterns@).len()
                    &&& (#[trigger] effective(patterns@)[n]) == pattern@
                    &&& forall|i: int| 0 <= i < n ==> is_taken(#[trigger] effective(patterns@)[i])
                }
        },
        !(r matches Err(GlobSetError::InvalidPattern { .. })) ==> forall|i: int|
            0 <= i < effective(patterns@).len() ==> is_taken(#[trigger] effective(patterns@)[i]),
{
    if patterns@.len() == 0 {
        assert(effective(patterns@).len() == 0);
    }
}

/// A path without a backslash is excluded exactly where there is a set and
/// `GlobSet::is_match` says that it matches; where no pattern holds a backslash,
/// that is where one of the patterns matches.
pub proof fn law_is_excluded(exclude_globs: Option<&GlobSet>, rel_unix: &str, r: bool)
    requires
        !rel_unix@.contains('\\'),
        call_ensures(is_excluded, (exclude_globs, rel_unix), r),
    ensures
        exclude_globs is None ==> !r,
        exclude_globs matches Some(set) ==> {
            &&& r == matched_paths(*set).contains(rel_unix@)
            &&& (forall|i: int|
                0 <= i < set_texts(*set).len() ==> !(#[trigger] set_texts(*set)[i]).contains('\\'))
                ==> (r <==> exists|i: int|
                0 <= i < set_texts(*set).len() && glob_matches(
                    #[trigger] set_texts(*set)[i],
                    rel_unix@,
                ))
        },
{
    assert(exclude_globs matches Some(set) ==> (excluded_by(exclude_globs)(rel_unix@)
        <==> matched_paths(*set).contains(rel_unix@)));
    if let Some(set) = exclude_globs {
        if forall|i: int|
            0 <= i < set_texts(*set).len() ==> !(#[trigger] set_texts(*set)[i]).contains('\\') {
            assert(all_portable(set_texts(*set)));
        }
    }
}

/// The extensions of files that are packed.
pub proof fn law_listed_extensions(x: Seq<char>)
    ensures
        is_listed(x) <==> x == "md"@ || x == "markdown"@ || x == "txt"@ || x == "rs"@ || x == "py"@
            || x == "js"@ || x == "mjs"@ || x == "cjs"@ || x == "ts"@ || x == "mts"@
            || x == "cts"@ || x == "c"@ || x == "h"@ || x == "cpp"@ || x == "cxx"@ || x == "cc"@
            || x == "hpp"@ || x == "hh"@ || x == "cs"@ || x == "go"@ || x == "java"@
            || x == "json"@ || x == "yaml"@ || x == "yml"@ || x == "toml"@ || x == "sh"@
            || x == "bash"@ || x == "ps1"@ || x == "psm1"@ || x == "html"@ || x == "htm"@
            || x == "css"@ || x == "sql"@ || x == "xml"@ || x == "csv"@ || x == "log"@
            || x == "rst"@ || x == "adoc"@,
{
    if is_listed(x) {
        let i = choose|i: int|
            0 <= i < PACKABLE_EXTENSIONS@.len() && (#[trigger] PACKABLE_EXTENSIONS@[i])@ == x;
        lemma_extension(i);
    }
    lemma_extensions();
}

proof fn lemma_extensions()
    ensures
        is_listed("md"@),
        is_listed("markdown"@),
        is_listed("txt"@),
        is_listed("rs"@),
        is_listed("py"@),
        is_listed("js"@),
        is_listed("mjs"@),
        is_listed("cjs"@),
        is_listed("ts"@),
        is_listed("mts"@),
        is_listed("cts"@),
        is_listed("c"@),
        is_listed("h"@),
        is_listed("cpp"@),
        is_listed("cxx"@),
        is_listed("cc"@),
        is_listed("hpp"@),
        is_listed("hh"@),
        is_listed("cs"@),
        is_listed("go"@),
        is_listed("java"@),
        is_listed("json"@),
        is_listed("yaml"@),
        is_listed("yml"@),
        is_listed("toml"@),
        is_listed("sh"@),
        is_listed("bash"@),
        is_listed("ps1"@),
        is_listed("psm1"@),
        is_listed("html"@),
        is_listed("htm"@),
        is_listed("css"@),
        is_listed("sql"@),
        is_listed("xml"@),
        is_listed("csv"@),
        is_listed("log"@),
        is_listed("rst"@),
        is_listed("adoc"@),
{
    assert(PACKABLE_EXTENSIONS@[0]@ == "md"@);
    assert(PACKABLE_EXTENSIONS@[1]@ == "markdown"@);
    assert(PACKABLE_EXTENSIONS@[2]@ == "txt"@);
    assert(PACKABLE_EXTENSIONS@[3]@ == "rs"@);
    assert(PACKABLE_EXTENSIONS@[4]@ == "py"@);
    assert(PACKABLE_EXTENSIONS@[5]@ == "js"@);
    assert(PACKABLE_EXTENSIONS@[6]@ == "mjs"@);
    assert(PACKABLE_EXTENSIONS@[7]@ == "cjs"@);
    assert(PACKABLE_EXTENSIONS@[8]@ == "ts"@);
    assert(PACKABLE_EXTENSIONS@[9]@ == "mts"@);
    assert(PACKABLE_EXTENSIONS@[10]@ == "cts"@);
    assert(PACKABLE_EXTENSIONS@[11]@ == "c"@);
    assert(PACKABLE_EXTENSIONS@[12]@ == "h"@);
    assert(PACKABLE_EXTENSIONS@[13]@ == "cpp"@);
    assert(PACKABLE_EXTENSIONS@[14]@ == "cxx"@);
    assert(PACKABLE_EXTENSIONS@[15]@ == "cc"@);
    assert(PACKABLE_EXTENSIONS@[16]@ == "hpp"@);
    assert(PACKABLE_EXTENSIONS@[17]@ == "hh"@);
    assert(PACKABLE_EXTENSIONS@[18]@ == "cs"@);
    assert(PACKABLE_EXTENSIONS@[19]@ == "go"@);
    assert(PACKABLE_EXTENSIONS@[20]@ == "java"@);
    assert(PACKABLE_EXTENSIONS@[21]@ == "json"@);
    assert(PACKABLE_EXTENSIONS@[22]@ == "yaml"@);
    assert(PACKABLE_EXTENSIONS@[23]@ == "yml"@);
    assert(PACKABLE_EXTENSIONS@[24]@ == "toml"@);
    assert(PACKABLE_EXTENSIONS@[25]@ == "sh"@);
    assert(PACKABLE_EXTENSIONS@[26]@ == "bash"@);
    assert(PACKABLE_EXTENSIONS@[27]@ == "ps1"@);
    assert(PACKABLE_EXTENSIONS@[28]@ == "psm1"@);
    assert(PACKABLE_EXTENSIONS@[29]@ == "html"@);
    assert(PACKABLE_EXTENSIONS@[30]@ == "htm"@);
    assert(PACKABLE_EXTENSIONS@[31]@ == "css"@);
    assert(PACKABLE_EXTENSIONS@[32]@ == "sql"@);
    assert(PACKABLE_EXTENSIONS@[33]@ == "xml"@);
    assert(PACKABLE_EXTENSIONS@[34]@ == "csv"@);
    assert(PACKABLE_EXTENSIONS@[35]@ == "log"@);
    assert(PACKABLE_EXTENSIONS@[36]@ == "rst"@);
    assert(PACKABLE_EXTENSIONS@[37]@ == "adoc"@);
}

proof fn lemma_extension(i: int)
    requires
        0 <= i < PACKABLE_EXTENSIONS@.len(),
    ensures
        ({
            let x = PACKABLE_EXTENSIONS@[i]@;
            x == "md"@ || x == "markdown"@ || x == "txt"@ || x == "rs"@ || x == "py"@
                || x == "js"@ || x == "mjs"@ || x == "cjs"@ || x == "ts"@ || x == "mts"@
                || x == "cts"@ || x == "c"@ || x == "h"@ || x == "cpp"@ || x == "cxx"@
                || x == "cc"@ || x == "hpp"@ || x == "hh"@ || x == "cs"@ || x == "go"@
                || x == "java"@ || x == "json"@ || x == "yaml"@ || x == "yml"@ || x == "toml"@
                || x == "sh"@ || x == "bash"@ || x == "ps1"@ || x == "psm1"@ || x == "html"@
                || x == "htm"@ || x == "css"@ || x == "sql"@ || x == "xml"@ || x == "csv"@
                || x == "log"@ || x == "rst"@ || x == "adoc"@
        }),
{
    assert(PACKABLE_EXTENSIONS@[0]@ == "md"@);
    assert(PACKABLE_EXTENSIONS@[1]@ == "markdown"@);
    assert(PACKABLE_EXTENSIONS@[2]@ == "txt"@);
    assert(PACKABLE_EXTENSIONS@[3]@ == "rs"@);
    assert(PACKABLE_EXTENSIONS@[4]@ == "py"@);
    assert(PACKABLE_EXTENSIONS@[5]@ == "js"@);
    assert(PACKABLE_EXTENSIONS@[6]@ == "mjs"@);
    assert(PACKABLE_EXTENSIONS@[7]@ == "cjs"@);
    assert(PACKABLE_EXTENSIONS@[8]@ == "ts"@);
    assert(PACKABLE_EXTENSIONS@[9]@ == "mts"@);
    assert(PACKABLE_EXTENSIONS@[10]@ == "cts"@);
    assert(PACKABLE_EXTENSIONS@[11]@ == "c"@);
    assert(PACKABLE_EXTENSIONS@[12]@ == "h"@);
    assert(PACKABLE_EXTENSIONS@[13]@ == "cpp"@);
    assert(PACKABLE_EXTENSIONS@[14]@ == "cxx"@);
    assert(PACKABLE_EXTENSIONS@[15]@ == "cc"@);
    assert(PACKABLE_EXTENSIONS@[16]@ == "hpp"@);
    assert(PACKABLE_EXTENSIONS@[17]@ == "hh"@);
    assert(PACKABLE_EXTENSIONS@[18]@ == "cs"@);
    assert(PACKABLE_EXTENSIONS@[19]@ == "go"@);
    assert(PACKABLE_EXTENSIONS@[20]@ == "java"@);
    assert(PACKABLE_EXTENSIONS@[21]@ == "json"@);
    assert(PACKABLE_EXTENSIONS@[22]@ == "yaml"@);
    assert(PACKABLE_EXTENSIONS@[23]@ == "yml"@);
    assert(PACKABLE_EXTENSIONS@[24]@ == "toml"@);
    assert(PACKABLE_EXTENSIONS@[25]@ == "sh"@);
    assert(PACKABLE_EXTENSIONS@[26]@ == "bash"@);
    assert(PACKABLE_EXTENSIONS@[27]@ == "ps1"@);
    assert(PACKABLE_EXTENSIONS@[28]@ == "psm1"@);
    assert(PACKABLE_EXTENSIONS@[29]@ == "html"@);
    assert(PACKABLE_EXTENSIONS@[30]@ == "htm"@);
    assert(PACKABLE_EXTENSIONS@[31]@ == "css"@);
    assert(PACKABLE_EXTENSIONS@[32]@ == "sql"@);
    assert(PACKABLE_EXTENSIONS@[33]@ == "xml"@);
    assert(PACKABLE_EXTENSIONS@[34]@ == "csv"@);
    assert(PACKABLE_EXTENSIONS@[35]@ == "log"@);
    assert(PACKABLE_EXTENSIONS@[36]@ == "rst"@);
    assert(PACKABLE_EXTENSIONS@[37]@ == "adoc"@);
}

/// An extension in lower case is looked up as it is.
pub proof fn law_is_listed_extension(lower: &str, r: bool)
    requires
        call_ensures(is_listed_extension, (lower,), r),
    ensures
        r == is_listed(lower@),
{
}

/// An extension counts as `str::to_lowercase` gives it.
pub proof fn law_has_packable_extension(extension: &str, r: bool)
    requires
        call_ensures(has_packable_extension, (extension,), r),
    ensures
        r == is_listed(lower_case(extension@)),
{
}

/// The walk goes on to every entry where hidden ones are wanted, and otherwise to
/// those whose names are no text or do not begin with a dot.
pub proof fn law_walks_entry(name: Option<&str>, include_hidden: bool, r: bool)
    requires
        call_ensures(walks_entry, (name, include_hidden), r),
    ensures
        r <==> include_hidden || name is None || name->0@.len() == 0 || name->0@[0] != '.',
{
}

/// A path keeps its characters, but for backslashes, which become slashes.
pub proof fn law_unix_path(path: Seq<char>)
    ensures
        unix_path(path).len() == path.len(),
        forall|i: int|
            0 <= i < path.len() ==> (#[trigger] unix_path(path)[i]) == (if path[i] == '\\' {
                '/'
            } else {
                path[i]
            }),
{
}

/// `to_unix_path` keeps the characters, but for backslashes, which become slashes.
pub proof fn law_to_unix_path(path: &str, out: String, i: int)
    requires
        call_ensures(to_unix_path, (path,), out),
        0 <= i < path@.len(),
    ensures
        out@.len() == path@.len(),
        out@[i] == (if path@[i] == '\\' {
            '/'
        } else {
            path@[i]
        }),
{
    law_unix_path(path@);
}

/// An entry is packed exactly where it is a file below the root, its extension, in
/// lower case, is listed, and its path with slashes is not matched. It gets that
/// path.
pub proof fn law_screen_entry(
    is_file: bool,
    extension: Option<&str>,
    rel: Option<&str>,
    exclude_globs: Option<&GlobSet>,
    r: Option<String>,
)
    requires
        call_ensures(screen_entry, (is_file, extension, rel, exclude_globs), r),
    ensures
        r is Some <==> {
            &&& is_file
            &&& extension matches Some(e) && is_listed(lower_case(e@))
            &&& rel matches Some(p) && !(exclude_globs matches Some(set) && matched_paths(
                *set,
            ).contains(unix_path(p@)))
        },
        r matches Some(path) ==> rel matches Some(p) && path@ == unix_path(p@),
{
    if let Some(p) = rel {
        assert(excluded_by(exclude_globs)(unix_path(p@)) <==> (exclude_globs matches Some(set)
            && matched_paths(*set).contains(unix_path(p@))));
    }
}

/// A record holds what it is given. Its time is the seconds as a signed number of 64
/// bits, and 0 where they are not known.
pub proof fn law_file_record(
    abs: PathBuf,
    rel_unix: String,
    size: u64,
    modified_secs: Option<u64>,
    file: MdFile,
)
    requires
        call_ensures(file_record, (abs, rel_unix, size, modified_secs), file),
    ensures
        file.abs == abs,
        file.rel_unix == rel_unix,
        file.size == size,
        modified_secs is None ==> file.mtime == 0,
        modified_secs matches Some(secs) ==> (file.mtime - secs) % 0x1_0000_0000_0000_0000 == 0,
{
}

/// Files are put in order of their times, newest first, and of their paths by code
/// points where the times are the same.
pub proof fn law_newest_first(
    files: Vec<MdFile>,
    out: Vec<MdFile>,
    i: int,
    j: int,
)
    requires
        call_ensures(newest_first, (files,), out),
        0 <= i < j < out@.len(),
    ensures
        ({
            let (a, b) = (out@[i].rel_unix@, out@[j].rel_unix@);
            out@[i].mtime > out@[j].mtime || (out@[i].mtime == out@[j].mtime && ((a.len() <= b.len()
                && a == b.take(a.len() as int)) || exists|k: int|
                0 <= k < a.len() && k < b.len() && #[trigger] a.take(k) == b.take(k) && a[k]
                    < b[k]))
        }),
{
    assert(ranks_before(out@[i], out@[j]));
    law_text_order(out@[i].rel_unix@, out@[j].rel_unix@);
}

/// Putting files in order loses none and adds none, and keeps those of one time and
/// path in their order.
pub proof fn law_ordering_keeps_files(
    files: Vec<MdFile>,
    out: Vec<MdFile>,
    mtime: i64,
    rel: Seq<char>,
)
    requires
        call_ensures(newest_first, (files,), out),
    ensures
        out@.to_multiset() == files@.to_multiset(),
        out@.filter(|f: MdFile| f.mtime == mtime && f.rel_unix@ == rel) == files@.filter(
            |f: MdFile| f.mtime == mtime && f.rel_unix@ == rel,
        ),
{
    assert(with_key(files@, mtime, rel) == with_key(out@, mtime, rel));
    assert(has_key(mtime, rel) =~= |f: MdFile| f.mtime == mtime && f.rel_unix@ == rel);
}

/// The walk comes to an entry exactly where hidden ones are wanted, or neither the
/// root nor any name on the way is text that begins with a dot.
pub proof fn law_meets_entry(root: Option<&str>, entry: &Entry, include_hidden: bool, r: bool)
    requires
        call_ensures(meets_entry, (root, entry, include_hidden), r),
    ensures
        r <==> include_hidden || {
            &&& !(root matches Some(name) && name@.len() > 0 && name@[0] == '.')
            &&& forall|k: int|
                0 <= k < entry.names@.len() ==> !((#[trigger] entry.names@[k]) matches Some(name)
                    && name@.len() > 0 && name@[0] == '.')
        },
{
    lemma_met_in_plain_words(root, *entry, include_hidden);
}

/// A scan lists the records of exactly those entries that the walk comes to, that
/// are files with listed extensions below the root, whose paths are not matched, and
/// whose sizes were read, each once for each such entry.
pub proof fn law_list_files(
    root: Option<&str>,
    entries: Vec<Entry>,
    include_hidden: bool,
    exclude_globs: Option<&GlobSet>,
    files: Vec<MdFile>,
)
    requires
        call_ensures(list_files, (root, entries, include_hidden, exclude_globs), files),
    ensures
        files@.to_multiset() == entries@.filter(
            |entry: Entry|
                {
                    &&& include_hidden || {
                        &&& !(root matches Some(name) && name@.len() > 0 && name@[0] == '.')
                        &&& forall|k: int|
                            0 <= k < entry.names@.len() ==> !((
                            #[trigger] entry.names@[k]) matches Some(name) && name@.len() > 0
                                && name@[0] == '.')
                    }
                    &&& entry.is_file
                    &&& entry.extension matches Some(e) && is_listed(lower_case(e@))
                    &&& entry.rel matches Some(p) && !(exclude_globs matches Some(set)
                        && matched_paths(*set).contains(unix_path(p@)))
                    &&& entry.record is Some
                },
        ).map_values(|entry: Entry| entry.record->0).to_multiset(),
        forall|i: int, j: int|
            0 <= i < j < files@.len() ==> (#[trigger] files@[i]).mtime >= (
            #[trigger] files@[j]).mtime,
{
    let listed = lists(text_of(root), include_hidden, excluded_by(exclude_globs));
    let plain = |entry: Entry|
        {
            &&& include_hidden || {
                &&& !(root matches Some(name) && name@.len() > 0 && name@[0] == '.')
                &&& forall|k: int|
                    0 <= k < entry.names@.len() ==> !((#[trigger] entry.names@[k]) matches Some(name)
                        && name@.len() > 0 && name@[0] == '.')
            }
            &&& entry.is_file
            &&& entry.extension matches Some(e) && is_listed(lower_case(e@))
            &&& entry.rel matches Some(p) && !(exclude_globs matches Some(set) && matched_paths(
                *set,
            ).contains(unix_path(p@)))
            &&& entry.record is Some
        };
    assert forall|entry: Entry| #[trigger] listed(entry) == plain(entry) by {
        lemma_met_in_plain_words(root, entry, include_hidden);
        if let Some(p) = entry.rel {
            assert(excluded_by(exclude_globs)(unix_path(p@)) <==> (exclude_globs matches Some(set)
                && matched_paths(*set).contains(unix_path(p@))));
        }
    }
    assert(listed =~= plain);
    assert(record_of() =~= |entry: Entry| entry.record->0);
    assert forall|i: int, j: int| 0 <= i < j < files@.len() implies (#[trigger] files@[i]).mtime
        >= (#[trigger] files@[j]).mtime by {
        assert(ranks_before(files@[i], files@[j]));
    }
}

proof fn lemma_met_in_plain_words(root: Option<&str>, entry: Entry, include_hidden: bool)
    ensures
        is_met(text_of(root), entry, include_hidden)
            <==> include_hidden || {
            &&& !(root matches Some(name) && name@.len() > 0 && name@[0] == '.')
            &&& forall|k: int|
                0 <= k < entry.names@.len() ==> !((#[trigger] entry.names@[k]) matches Some(name)
                    && name@.len() > 0 && name@[0] == '.')
        },
{
    if is_met(text_of(root), entry, include_hidden)
        && !include_hidden {
        assert forall|k: int| 0 <= k < entry.names@.len() implies !((
        #[trigger] entry.names@[k]) matches Some(name) && name@.len() > 0 && name@[0] == '.') by {
            assert(is_walked(
                owned_text(entry.names@[k]),
                include_hidden,
            ));
        }
    }
}

} // verus!
