//! Which entries of the vault are packed, and how they are recorded.

use crate::globs::{
    all_portable, excluded_by, excluding_texts, is_excluded, is_portable, matched_by,
};
use crate::model::MdFile;
use crate::text::{chars_of, find, occurs_in, same_text};
use globset::GlobSet;
use std::path::PathBuf;
use vstd::prelude::*;

verus! {

/// The extensions, in lower case, of the files that are packed.
pub const PACKABLE_EXTENSIONS: [&'static str; 38] = [
    "md", "markdown", "txt", "rs", "py", "js", "mjs", "cjs", "ts", "mts", "cts", "c", "h", "cpp",
    "cxx", "cc", "hpp", "hh", "cs", "go", "java", "json", "yaml", "yml", "toml", "sh", "bash",
    "ps1", "psm1", "html", "htm", "css", "sql", "xml", "csv", "log", "rst", "adoc",
];

/// What `str::to_lowercase` makes of `s`.
pub uninterp spec fn lower_case(s: Seq<char>) -> Seq<char>;

/// `c`, or the small letter where `c` is a capital ASCII letter.
pub open spec fn ascii_lower(c: char) -> char {
    if 'A' <= c <= 'Z' {
        (c as u32 + 32) as char
    } else {
        c
    }
}

/// `str::to_lowercase` gives the text in lower case, as Unicode defines it. In
/// an ASCII text each capital letter becomes the small one and nothing else
/// changes.
pub assume_specification[ str::to_lowercase ](s: &str) -> (out: String)
    ensures
        out@ == lower_case(s@),
        vstd::utf8::is_ascii_chars(s@) ==> out@ == s@.map_values(|c: char| ascii_lower(c)),
;

/// Whether `lower`, an extension in lower case, is that of files that are packed.
pub open spec fn is_listed(lower: Seq<char>) -> bool {
    exists|i: int|
        0 <= i < PACKABLE_EXTENSIONS@.len() && (#[trigger] PACKABLE_EXTENSIONS@[i])@ == lower
}

/// Whether `extension` is that of a file that is packed.
pub open spec fn is_packable(extension: Seq<char>) -> bool {
    is_listed(lower_case(extension))
}

/// Whether files with the extension, which is in lower case, are packed.
pub fn is_listed_extension(lower: &str) -> (r: bool)
    ensures
        r == is_listed(lower@),
{
    let mut i: usize = 0;
    while i < PACKABLE_EXTENSIONS.len()
        invariant
            i <= PACKABLE_EXTENSIONS@.len(),
            forall|j: int| 0 <= j < i ==> (#[trigger] PACKABLE_EXTENSIONS@[j])@ != lower@,
        decreases PACKABLE_EXTENSIONS@.len() - i,
    {
        if same_text(PACKABLE_EXTENSIONS[i], lower) {
            return true;
        }
        i = i + 1;
    }
    false
}

/// Whether files with the extension are packed, in whatever case it is written.
pub fn has_packable_extension(extension: &str) -> (r: bool)
    ensures
        r == is_packable(extension@),
        vstd::utf8::is_ascii_chars(extension@) ==> r == is_listed(
            extension@.map_values(|c: char| ascii_lower(c)),
        ),
{
    is_listed_extension(extension.to_lowercase().as_str())
}

/// Whether the walk goes on to an entry of this name. Names that begin with a
/// dot are hidden; a name that is no text is not.
pub open spec fn is_walked(name: Option<Seq<char>>, include_hidden: bool) -> bool {
    include_hidden || match name {
        Some(name) => !(name.len() > 0 && name[0] == '.'),
        None => true,
    }
}

/// Decides whether the walk goes on to an entry. A directory that it does not go
/// on to is left out with all it holds.
pub fn walks_entry(name: Option<&str>, include_hidden: bool) -> (r: bool)
    ensures
        r == is_walked(
            match name {
                Some(name) => Some(name@),
                None => None,
            },
            include_hidden,
        ),
{
    if include_hidden {
        return true;
    }
    match name {
        Some(name) => {
            let chars = chars_of(name);
            !(chars.len() > 0 && chars[0] == '.')
        },
        None => true,
    }
}

/// The warning for an entry that the walk could not read.
pub open spec fn walk_warning_text(message: Seq<char>, path: Option<Seq<char>>) -> Seq<char> {
    if occurs_in(message, "does not exist"@) || occurs_in(message, "path too long"@) {
        "Warning: Cannot traverse path (likely exceeds Windows MAX_PATH): "@ + match path {
            Some(path) => path,
            None => Seq::empty(),
        }
    } else {
        "Warning: Skipping unreadable entry during scan: "@ + message
    }
}

/// Words the warning for an entry that the walk could not read, from the
/// failure's own message and the path that it names.
pub fn walk_warning(message: &str, path: Option<&str>) -> (text: String)
    ensures
        text@ == walk_warning_text(
            message@,
            match path {
                Some(path) => Some(path@),
                None => None,
            },
        ),
{
    let chars = chars_of(message);
    let missing = find(&chars, &chars_of("does not exist"));
    let too_long = find(&chars, &chars_of("path too long"));
    if missing.is_some() || too_long.is_some() {
        let mut text =
            "Warning: Cannot traverse path (likely exceeds Windows MAX_PATH): ".to_owned();
        match path {
            Some(path) => text.append(path),
            None => assert(text@ + Seq::empty() =~= text@),
        }
        text
    } else {
        let mut text = "Warning: Skipping unreadable entry during scan: ".to_owned();
        text.append(message);
        text
    }
}

/// A path with `/` for each backslash.
pub open spec fn unix_path(path: Seq<char>) -> Seq<char> {
    path.map_values(
        |c: char|
            if c == '\\' {
                '/'
            } else {
                c
            },
    )
}

/// Writes `/` for each backslash.
pub fn to_unix_path(path: &str) -> (out: String)
    ensures
        out@ == unix_path(path@),
{
    let mut out = String::new();
    for c in it: path.chars()
        invariant
            it.seq() == path@,
            out@ == unix_path(path@.take(it.index())),
    {
        let ghost before = out@;
        out.push(
            if c == '\\' {
                '/'
            } else {
                c
            },
        );
        assert(out@ =~= unix_path(path@.take(it.index() + 1)));
    }
    assert(path@.take(path@.len() as int) =~= path@);
    out
}

/// A path with `/` for each backslash means the same on every platform.
pub proof fn law_unix_path_is_portable(path: Seq<char>)
    ensures
        is_portable(unix_path(path)),
{
}

/// The text, where there is one.
pub open spec fn text_of(text: Option<&str>) -> Option<Seq<char>> {
    match text {
        Some(text) => Some(text@),
        None => None,
    }
}

/// The path that an entry has in the packs, where it is packed: it is a file
/// with an extension of the kind that is packed, and its path is not excluded.
/// It has no `extension` where that is no text either, and no `rel` where it is
/// not below the vault root.
pub open spec fn screened(
    is_file: bool,
    extension: Option<Seq<char>>,
    rel: Option<Seq<char>>,
    excluded: spec_fn(Seq<char>) -> bool,
) -> Option<Seq<char>> {
    match (extension, rel) {
        (Some(e), Some(r)) => if is_file && is_packable(e) && !excluded(unix_path(r)) {
            Some(unix_path(r))
        } else {
            None
        },
        _ => None,
    }
}

/// Decides whether an entry of the vault is packed, and gives the path that it
/// has in the packs.
pub fn screen_entry(
    is_file: bool,
    extension: Option<&str>,
    rel: Option<&str>,
    exclude_globs: Option<&GlobSet>,
) -> (r: Option<String>)
    ensures
        match r {
            Some(path) => screened(
                is_file,
                text_of(extension),
                text_of(rel),
                excluded_by(exclude_globs),
            ) == Some(path@),
            None => screened(
                is_file,
                text_of(extension),
                text_of(rel),
                excluded_by(exclude_globs),
            ) is None,
        },
        all_portable(excluding_texts(exclude_globs)) ==> match r {
            Some(path) => screened(
                is_file,
                text_of(extension),
                text_of(rel),
                matched_by(excluding_texts(exclude_globs)),
            ) == Some(path@),
            None => screened(
                is_file,
                text_of(extension),
                text_of(rel),
                matched_by(excluding_texts(exclude_globs)),
            ) is None,
        },
{
    if !is_file {
        return None;
    }
    let extension = match extension {
        Some(extension) => extension,
        None => return None,
    };
    if !has_packable_extension(extension) {
        return None;
    }
    let rel = match rel {
        Some(rel) => rel,
        None => return None,
    };
    let rel_unix = to_unix_path(rel);
    proof {
        law_unix_path_is_portable(rel@);
    }
    if is_excluded(exclude_globs, rel_unix.as_str()) {
        None
    } else {
        Some(rel_unix)
    }
}

/// The modification time that is recorded: 0 where none is known or it lies
/// before the epoch. Seconds beyond the range of an `i64` wrap around.
pub open spec fn recorded_mtime(modified_secs: Option<u64>) -> int {
    match modified_secs {
        Some(secs) if secs <= i64::MAX => secs as int,
        Some(secs) => secs - 0x1_0000_0000_0000_0000,
        None => 0,
    }
}

/// Records a file that is packed. `modified_secs` holds the whole seconds from
/// the epoch to its last modification, where they are known and not negative.
pub fn file_record(
    abs: PathBuf,
    rel_unix: String,
    size: u64,
    modified_secs: Option<u64>,
) -> (file: MdFile)
    ensures
        file.abs == abs,
        file.rel_unix == rel_unix,
        file.size == size,
        file.mtime == recorded_mtime(modified_secs),
{
    let mtime: i64 = match modified_secs {
        Some(secs) => {
            assert(secs > 0x7fff_ffff_ffff_ffff ==> secs as i64 == secs - 0x1_0000_0000_0000_0000)
                by (bit_vector);
            secs as i64
        },
        None => 0,
    };
    MdFile { abs, rel_unix, size, mtime }
}

} // verus!
