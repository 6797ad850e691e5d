//! Patterns of paths that stay out of the packs.

use crate::text::{chars_of, string_of};
use globset::{Glob, GlobSet, GlobSetBuilder};
use vstd::prelude::*;
use vstd::slice::slice_subrange;

verus! {

/// A pattern of `globset`.
#[verifier::external_type_specification]
#[verifier::external_body]
pub struct ExGlob(Glob);

/// Patterns of `globset`, ready to be matched.
#[verifier::external_type_specification]
#[verifier::external_body]
pub struct ExGlobSet(GlobSet);

/// Patterns of `globset` that are still being collected.
#[verifier::external_type_specification]
#[verifier::external_body]
pub struct ExGlobSetBuilder(GlobSetBuilder);

/// Why `globset` rejects a pattern.
#[verifier::external_type_specification]
#[verifier::external_body]
pub struct ExGlobError(globset::Error);

/// The text that a pattern was made from.
pub uninterp spec fn glob_text(glob: Glob) -> Seq<char>;

/// The texts of the patterns collected so far, in order.
pub uninterp spec fn builder_texts(builder: GlobSetBuilder) -> Seq<Seq<char>>;

/// The texts of the patterns of a set, in the order in which they were added.
pub uninterp spec fn set_texts(set: GlobSet) -> Seq<Seq<char>>;

/// Whether `globset::Glob::new` takes the text, which holds no backslash.
pub uninterp spec fn glob_parses(text: Seq<char>) -> bool;

/// Whether the pattern of the text matches the path, for `globset`; neither
/// holds a backslash.
pub uninterp spec fn glob_matches(text: Seq<char>, path: Seq<char>) -> bool;

/// The paths without a backslash that `globset::GlobSet::is_match` says the set
/// matches.
pub uninterp spec fn matched_paths(set: GlobSet) -> Set<Seq<char>>;

/// Whether `c` has the Unicode property `White_Space`.
pub open spec fn is_white_space(c: char) -> bool {
    let u = c as u32;
    ||| 0x9 <= u <= 0xd
    ||| u == 0x20
    ||| u == 0x85
    ||| u == 0xa0
    ||| u == 0x1680
    ||| 0x2000 <= u <= 0x200a
    ||| u == 0x2028
    ||| u == 0x2029
    ||| u == 0x202f
    ||| u == 0x205f
    ||| u == 0x3000
}

/// Whether `s` means the same on every platform: a backslash separates
/// components on some and makes the next character literal on others.
pub open spec fn is_portable(s: Seq<char>) -> bool {
    !s.contains('\\')
}

/// Whether all texts mean the same on every platform.
pub open spec fn all_portable(texts: Seq<Seq<char>>) -> bool {
    forall|i: int| 0 <= i < texts.len() ==> is_portable(#[trigger] texts[i])
}

/// Whether the pattern of one of the texts matches the path.
pub open spec fn some_matches(texts: Seq<Seq<char>>, path: Seq<char>) -> bool {
    exists|i: int| 0 <= i < texts.len() && glob_matches(#[trigger] texts[i], path)
}

/// Tells the paths that the pattern of one of the texts matches.
pub open spec fn matched_by(texts: Seq<Seq<char>>) -> spec_fn(Seq<char>) -> bool {
    |path: Seq<char>| some_matches(texts, path)
}

/// Whether `c` stands for itself in a pattern, on every platform and wherever no
/// class and no alternative is open.
pub open spec fn is_plain_char(c: char) -> bool {
    c != '?' && c != '*' && c != '[' && c != '{' && c != '}' && c != '\\'
}

/// Whether `text` is a literal: it is not empty, and each character stands for
/// itself or is a backslash before one that does. Such a backslash makes that
/// character literal on some platforms and is a separator on others.
pub open spec fn is_literal(text: Seq<char>) -> bool {
    text.len() > 0 && forall|i: int|
        0 <= i < text.len() ==> is_plain_char(#[trigger] text[i]) || (text[i] == '\\' && i + 1
            < text.len() && is_plain_char(text[i + 1]))
}

/// Whether `text` is a star before a literal, which is not just a separator.
pub open spec fn is_suffix_pattern(text: Seq<char>) -> bool {
    &&& text.len() > 1
    &&& text[0] == '*'
    &&& is_literal(text.skip(1))
    &&& text.skip(1) != seq!['/']
    &&& text.skip(1) != seq!['\\', '/']
}

/// Whether `text` is a literal before a star, or one that ends in a slash before
/// two stars.
pub open spec fn is_prefix_pattern(text: Seq<char>) -> bool {
    let len = text.len() as int;
    ||| len > 1 && text[len - 1] == '*' && is_literal(text.take(len - 1))
    ||| len > 2 && text[len - 1] == '*' && text[len - 2] == '*' && text[len - 3] == '/'
        && is_literal(text.take(len - 2))
}

/// Whether the pattern of `text` is compared without a regular expression: it is
/// a literal, or one with stars at its beginning or its end.
pub open spec fn is_simple(text: Seq<char>) -> bool {
    ||| is_literal(text)
    ||| is_prefix_pattern(text)
    ||| is_suffix_pattern(text)
    ||| {
        &&& text.len() > 3
        &&& text.take(3) == seq!['*', '*', '/']
        &&& is_literal(text.skip(3)) || is_suffix_pattern(text.skip(3))
    }
}

/// Whether the pattern of each text is compared without a regular expression.
pub open spec fn all_simple(texts: Seq<Seq<char>>) -> bool {
    forall|i: int| 0 <= i < texts.len() ==> is_simple(#[trigger] texts[i])
}

/// `char::is_whitespace` tells the characters with the Unicode property
/// `White_Space`.
pub assume_specification[ char::is_whitespace ](c: char) -> (r: bool)
    ensures
        r == is_white_space(c),
;

/// `globset::Glob::new` parses a pattern and keeps its text. Whether it takes
/// the text depends on the text alone where that holds no backslash; a backslash
/// is an escape on some platforms only. A literal is taken on all of them, also
/// with stars at its beginning or its end; of other texts with a backslash nothing
/// is claimed.
pub assume_specification[ Glob::new ](glob: &str) -> (r: Result<Glob, globset::Error>)
    ensures
        r matches Ok(parsed) ==> glob_text(parsed) == glob@,
        is_portable(glob@) ==> (r is Ok <==> glob_parses(glob@)),
        is_simple(glob@) ==> r is Ok,
;

/// `globset::GlobSetBuilder::new` holds no patterns.
pub assume_specification[ GlobSetBuilder::new ]() -> (builder: GlobSetBuilder)
    ensures
        builder_texts(builder) == Seq::<Seq<char>>::empty(),
;

/// `globset::GlobSetBuilder::add` puts the pattern behind those collected so
/// far.
#[verifier::external_body]
fn add_glob(builder: &mut GlobSetBuilder, glob: Glob)
    ensures
        builder_texts(*final(builder)) == builder_texts(*old(builder)).push(glob_text(glob)),
{
    builder.add(glob);
}

/// `globset::GlobSetBuilder::build` makes the set of the patterns collected so
/// far. It succeeds where each of them is a literal or one with stars at its
/// beginning or its end, and so where there are none: such patterns are compared
/// without regular expressions. For others it may make regular expressions, and
/// fails where these take more memory than `globset` allows, which differs
/// between machines, or are nested too deeply: when it does is not stated.
pub assume_specification[ GlobSetBuilder::build ](builder: &GlobSetBuilder) -> (r: Result<
    GlobSet,
    globset::Error,
>)
    ensures
        r matches Ok(set) ==> set_texts(set) == builder_texts(*builder),
        all_simple(builder_texts(*builder)) ==> r is Ok,
;

/// `globset::GlobSet::is_match` says whether some pattern of the set matches the
/// path. That depends on the set and the path alone where the path holds no
/// backslash; where no pattern holds one either, each pattern matches by its text
/// alone. Of paths with a backslash nothing is claimed, but that an empty set
/// matches none.
#[verifier::external_body]
fn set_matches(set: &GlobSet, path: &str) -> (r: bool)
    ensures
        set_texts(*set).len() == 0 ==> !r,
        is_portable(path@) ==> r == matched_paths(*set).contains(path@),
        is_portable(path@) && all_portable(set_texts(*set)) ==> r == (exists|i: int|
            0 <= i && i < set_texts(*set).len() && glob_matches(
                #[trigger] set_texts(*set)[i],
                path@,
            )),
{
    set.is_match(path)
}

/// `s` without the white space at its ends.
pub open spec fn trimmed(s: Seq<char>) -> Seq<char>
    decreases s.len(),
{
    if s.len() == 0 {
        s
    } else if is_white_space(s[0]) {
        trimmed(s.skip(1))
    } else if is_white_space(s.last()) {
        trimmed(s.drop_last())
    } else {
        s
    }
}

/// Cuts the white space off both ends.
pub fn trim(s: &str) -> (out: String)
    ensures
        out@ == trimmed(s@),
{
    let chars = chars_of(s);
    let mut start: usize = 0;
    let mut end: usize = chars.len();
    assert(chars@.subrange(0, end as int) =~= s@);
    while start < end && chars[start].is_whitespace()
        invariant
            start <= end <= chars@.len(),
            trimmed(s@) == trimmed(chars@.subrange(start as int, end as int)),
        decreases end - start,
    {
        assert(chars@.subrange(start as int, end as int).skip(1) =~= chars@.subrange(
            start + 1,
            end as int,
        ));
        start = start + 1;
    }
    while start < end && chars[end - 1].is_whitespace()
        invariant
            start <= end <= chars@.len(),
            start < end ==> !is_white_space(chars@[start as int]),
            trimmed(s@) == trimmed(chars@.subrange(start as int, end as int)),
        decreases end - start,
    {
        assert(chars@.subrange(start as int, end as int).drop_last() =~= chars@.subrange(
            start as int,
            end - 1,
        ));
        end = end - 1;
    }
    string_of(slice_subrange(&chars, start, end))
}

/// The patterns that count: each without the white space at its ends, and
/// without those that are empty then.
pub open spec fn effective(patterns: Seq<String>) -> Seq<Seq<char>>
    decreases patterns.len(),
{
    if patterns.len() == 0 {
        Seq::empty()
    } else {
        let before = effective(patterns.drop_last());
        let pattern = trimmed(patterns.last()@);
        if pattern.len() == 0 {
            before
        } else {
            before.push(pattern)
        }
    }
}

/// Whether `globset` takes the text, as far as that is the same everywhere.
pub open spec fn may_parse(text: Seq<char>) -> bool {
    is_portable(text) ==> glob_parses(text)
}

/// Whether `globset::Glob::new` may give `r` for the text.
pub open spec fn parses_to(text: Seq<char>, r: Result<Glob, globset::Error>) -> bool {
    exists|glob: &str| #[trigger] call_ensures(Glob::new, (glob,), r) && glob@ == text
}

/// Whether `globset::Glob::new` may take the text.
pub open spec fn is_taken(text: Seq<char>) -> bool {
    exists|glob: Glob| parses_to(text, Ok(glob))
}

/// Whether `globset::GlobSetBuilder::build` may give `r` for patterns of the texts.
pub open spec fn builds_to(texts: Seq<Seq<char>>, r: Result<GlobSet, globset::Error>) -> bool {
    exists|builder: GlobSetBuilder| #[trigger] call_ensures(
        GlobSetBuilder::build,
        (&builder,),
        r,
    ) && builder_texts(builder) == texts
}

/// Why the excluded paths cannot be told.
#[derive(Debug)]
pub enum GlobSetError {
    /// A pattern is malformed.
    InvalidPattern { pattern: String, cause: globset::Error },
    /// The patterns cannot be matched together.
    Unbuildable { cause: globset::Error },
}

/// Makes the set of the patterns that count; `None` where no pattern is given.
/// The first malformed pattern is reported.
pub fn build_glob_set(patterns: &[String]) -> (r: Result<Option<GlobSet>, GlobSetError>)
    ensures
        r matches Ok(None) <==> patterns@.len() == 0,
        all_simple(effective(patterns@)) ==> r is Ok,
        match r {
            Ok(None) => true,
            Ok(Some(set)) => {
                &&& set_texts(set) == effective(patterns@)
                &&& builds_to(effective(patterns@), Ok(set))
                &&& forall|i: int|
                    0 <= i < effective(patterns@).len() ==> may_parse(
                        #[trigger] effective(patterns@)[i],
                    ) && is_taken(effective(patterns@)[i])
            },
            Err(GlobSetError::InvalidPattern { pattern, cause }) => exists|n: int|
                {
                    &&& 0 <= n < effective(patterns@).len()
                    &&& pattern@ == #[trigger] effective(patterns@)[n]
                    &&& is_portable(pattern@) ==> !glob_parses(pattern@)
                    &&& parses_to(pattern@, Err(cause))
                    &&& forall|i: int|
                        0 <= i < n ==> may_parse(#[trigger] effective(patterns@)[i]) && is_taken(
                            effective(patterns@)[i],
                        )
                },
            Err(GlobSetError::Unbuildable { cause }) => {
                &&& effective(patterns@).len() > 0
                &&& builds_to(effective(patterns@), Err(cause))
                &&& forall|i: int|
                    0 <= i < effective(patterns@).len() ==> may_parse(
                        #[trigger] effective(patterns@)[i],
                    ) && is_taken(effective(patterns@)[i])
            },
        },
{
    if patterns.len() == 0 {
        return Ok(None);
    }
    let mut builder = GlobSetBuilder::new();
    let mut i: usize = 0;
    while i < patterns.len()
        invariant
            i <= patterns@.len(),
            patterns@.len() > 0,
            builder_texts(builder) == effective(patterns@.take(i as int)),
            forall|j: int|
                0 <= j < builder_texts(builder).len() ==> may_parse(
                    #[trigger] builder_texts(builder)[j],
                ) && is_taken(builder_texts(builder)[j]),
        decreases patterns@.len() - i,
    {
        assert(patterns@.take(i + 1).drop_last() =~= patterns@.take(i as int));
        let trimmed_pattern = trim(patterns[i].as_str());
        if !trimmed_pattern.as_str().is_empty() {
            match Glob::new(trimmed_pattern.as_str()) {
                Ok(glob) => {
                    assert(parses_to(trimmed_pattern@, Ok(glob)));
                    add_glob(&mut builder, glob);
                },
                Err(cause) => {
                    proof {
                        let n = effective(patterns@.take(i as int)).len() as int;
                        lemma_effective_extends(patterns@, i + 1);
                        assert(effective(patterns@)[n] == trimmed_pattern@);
                        assert forall|j: int| 0 <= j < n implies may_parse(
                            #[trigger] effective(patterns@)[j],
                        ) && is_taken(effective(patterns@)[j]) by {
                            assert(effective(patterns@)[j] == builder_texts(builder)[j]);
                        }
                    }
                    return Err(GlobSetError::InvalidPattern { pattern: trimmed_pattern, cause });
                },
            }
        }
        i = i + 1;
    }
    assert(patterns@.take(i as int) =~= patterns@);
    match builder.build() {
        Ok(set) => Ok(Some(set)),
        Err(cause) => Err(GlobSetError::Unbuildable { cause }),
    }
}

proof fn lemma_effective_extends(patterns: Seq<String>, len: int)
    requires
        0 <= len <= patterns.len(),
    ensures
        effective(patterns.take(len)).len() <= effective(patterns).len(),
        forall|i: int|
            0 <= i < effective(patterns.take(len)).len() ==> #[trigger] effective(patterns)[i]
                == effective(patterns.take(len))[i],
    decreases patterns.len() - len,
{
    if len < patterns.len() {
        lemma_effective_extends(patterns, len + 1);
        assert(patterns.take(len + 1).drop_last() =~= patterns.take(len));
    } else {
        assert(patterns.take(len) =~= patterns);
    }
}

/// The report of a malformed pattern.
pub open spec fn invalid_pattern_text(pattern: Seq<char>) -> Seq<char> {
    "Invalid glob pattern: '"@ + pattern + "'"@
}

/// Words the report of a malformed pattern.
pub fn invalid_pattern_message(pattern: &str) -> (text: String)
    ensures
        text@ == invalid_pattern_text(pattern@),
{
    let mut text = "Invalid glob pattern: '".to_owned();
    text.append(pattern);
    text.append("'");
    text
}

/// The texts of the patterns that leave paths out.
pub open spec fn excluding_texts(exclude_globs: Option<&GlobSet>) -> Seq<Seq<char>> {
    match exclude_globs {
        Some(set) => set_texts(*set),
        None => Seq::empty(),
    }
}

/// Tells the paths, without a backslash, that the patterns leave out.
pub open spec fn excluded_by(exclude_globs: Option<&GlobSet>) -> spec_fn(Seq<char>) -> bool {
    |path: Seq<char>| exclude_globs matches Some(set) && matched_paths(*set).contains(path)
}

/// Whether the patterns leave the path out. Without patterns none is left out.
pub fn is_excluded(exclude_globs: Option<&GlobSet>, rel_unix: &str) -> (r: bool)
    ensures
        excluding_texts(exclude_globs).len() == 0 ==> !r,
        is_portable(rel_unix@) ==> r == excluded_by(exclude_globs)(rel_unix@),
        is_portable(rel_unix@) && all_portable(excluding_texts(exclude_globs)) ==> r
            == some_matches(excluding_texts(exclude_globs), rel_unix@),
{
    match exclude_globs {
        None => false,
        Some(set) => set_matches(set, rel_unix),
    }
}

} // verus!
