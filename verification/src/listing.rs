//! What a scan of the whole vault lists.

use crate::globs::excluded_by;
use crate::model::MdFile;
use crate::order::{
    is_newest_first, law_filtering_and_ordering_commute, newest_first, stable_rearrangement,
};
use crate::scan::{is_walked, screen_entry, screened, text_of, unix_path, walks_entry};
use globset::GlobSet;
use vstd::prelude::*;

verus! {

/// An entry of the vault.
pub struct Entry {
    /// The names of the directories below the vault root that lead to it, and its
    /// own; `None` for a name that is no text.
    pub names: Vec<Option<String>>,
    /// Whether it is a file.
    pub is_file: bool,
    /// Its extension, where it has one that is text.
    pub extension: Option<String>,
    /// Its path below the vault root.
    pub rel: Option<String>,
    /// What is recorded of it, where its size was read.
    pub record: Option<MdFile>,
}

/// The text, where there is one.
pub open spec fn owned_text(text: Option<String>) -> Option<Seq<char>> {
    match text {
        Some(text) => Some(text@),
        None => None,
    }
}

/// Whether each record holds the path that its entry has in the packs.
pub open spec fn records_hold_paths(entries: Seq<Entry>) -> bool {
    forall|i: int|
        0 <= i < entries.len() ==> match ((#[trigger] entries[i]).record, entries[i].rel) {
            (Some(file), Some(rel)) => file.rel_unix@ == unix_path(rel@),
            _ => true,
        }
}

/// Whether the walk from a root of the name `root` comes to the entry.
pub open spec fn is_met(root: Option<Seq<char>>, entry: Entry, include_hidden: bool) -> bool {
    is_walked(root, include_hidden) && forall|k: int|
        0 <= k < entry.names@.len() ==> is_walked(
            owned_text(#[trigger] entry.names@[k]),
            include_hidden,
        )
}

/// Tells the entries that a scan lists.
pub open spec fn lists(
    root: Option<Seq<char>>,
    include_hidden: bool,
    excluded: spec_fn(Seq<char>) -> bool,
) -> spec_fn(Entry) -> bool {
    |entry: Entry|
        {
            &&& is_met(root, entry, include_hidden)
            &&& screened(
                entry.is_file,
                owned_text(entry.extension),
                owned_text(entry.rel),
                excluded,
            ) is Some
            &&& entry.record is Some
        }
}

/// What is recorded of an entry.
pub open spec fn record_of() -> spec_fn(Entry) -> MdFile {
    |entry: Entry| entry.record->0
}

/// The files that a scan finds, in the order of the walk.
pub open spec fn found_files(
    root: Option<Seq<char>>,
    entries: Seq<Entry>,
    include_hidden: bool,
    excluded: spec_fn(Seq<char>) -> bool,
) -> Seq<MdFile> {
    entries.filter(lists(root, include_hidden, excluded)).map_values(record_of())
}

/// Whether `files` is what a scan lists.
pub open spec fn is_scan(
    root: Option<Seq<char>>,
    entries: Seq<Entry>,
    include_hidden: bool,
    excluded: spec_fn(Seq<char>) -> bool,
    files: Seq<MdFile>,
) -> bool {
    &&& is_newest_first(files)
    &&& stable_rearrangement(found_files(root, entries, include_hidden, excluded), files)
}

/// The text, where there is one.
fn borrowed(text: &Option<String>) -> (r: Option<&str>)
    ensures
        text_of(r) == owned_text(*text),
{
    match text {
        Some(text) => Some(text.as_str()),
        None => None,
    }
}

/// Whether the walk from a root of the name `root` comes to the entry.
pub fn meets_entry(root: Option<&str>, entry: &Entry, include_hidden: bool) -> (r: bool)
    ensures
        r == is_met(text_of(root), *entry, include_hidden),
{
    if !walks_entry(root, include_hidden) {
        return false;
    }
    let mut k: usize = 0;
    while k < entry.names.len()
        invariant
            k <= entry.names@.len(),
            forall|j: int|
                0 <= j < k ==> is_walked(owned_text(#[trigger] entry.names@[j]), include_hidden),
        decreases entry.names@.len() - k,
    {
        if !walks_entry(borrowed(&entry.names[k]), include_hidden) {
            assert(!is_walked(owned_text(entry.names@[k as int]), include_hidden));
            return false;
        }
        k = k + 1;
    }
    true
}

/// Lists the files of the entries that a scan finds, newest first: those that
/// the walk from a root of the name `root` comes to, that are packed and not
/// excluded, and whose sizes were read.
pub fn list_files(
    root: Option<&str>,
    entries: Vec<Entry>,
    include_hidden: bool,
    exclude_globs: Option<&GlobSet>,
) -> (files: Vec<MdFile>)
    ensures
        is_scan(text_of(root), entries@, include_hidden, excluded_by(exclude_globs), files@),
{
    let ghost all = entries@;
    let ghost listed = lists(text_of(root), include_hidden, excluded_by(exclude_globs));
    let ghost record = record_of();
    let mut found: Vec<MdFile> = Vec::new();
    assert(all.take(0).filter(listed).map_values(record) =~= Seq::empty());
    for entry in it: entries.into_iter()
        invariant
            it.seq() == all,
            listed == lists(text_of(root), include_hidden, excluded_by(exclude_globs)),
            record == record_of(),
            found@ == all.take(it.index()).filter(listed).map_values(record),
    {
        let ghost before = all.take(it.index());
        assert(all.take(it.index() + 1) =~= before.push(entry));
        proof {
            before.lemma_filter_push(entry, listed);
        }
        let met = meets_entry(root, &entry, include_hidden);
        let path = screen_entry(
            entry.is_file,
            borrowed(&entry.extension),
            borrowed(&entry.rel),
            exclude_globs,
        );
        if met && path.is_some() {
            if let Some(file) = entry.record {
                found.push(file);
            }
        }
        assert(found@ =~= all.take(it.index() + 1).filter(listed).map_values(record));
    }
    assert(all.take(all.len() as int) =~= all);
    newest_first(found)
}

proof fn lemma_narrower_listing(
    entries: Seq<Entry>,
    wide: spec_fn(Entry) -> bool,
    narrow: spec_fn(Entry) -> bool,
    keep: spec_fn(MdFile) -> bool,
)
    requires
        forall|i: int|
            0 <= i < entries.len() ==> (narrow(#[trigger] entries[i]) <==> wide(entries[i])
                && keep(record_of()(entries[i]))),
    ensures
        entries.filter(narrow).map_values(record_of()) == entries.filter(wide).map_values(
            record_of(),
        ).filter(keep),
    decreases entries.len(),
{
    let record = record_of();
    if entries.len() > 0 {
        let rest = entries.drop_last();
        let last = entries.last();
        assert forall|i: int| 0 <= i < rest.len() implies (narrow(#[trigger] rest[i]) <==> wide(
            rest[i],
        ) && keep(record(rest[i]))) by {
            assert(rest[i] == entries[i]);
        }
        lemma_narrower_listing(rest, wide, narrow, keep);
        assert(entries =~= rest.push(last));
        assert(last == entries[entries.len() - 1]);
        rest.lemma_filter_push(last, wide);
        rest.lemma_filter_push(last, narrow);
        let (w, n) = (rest.filter(wide), rest.filter(narrow));
        assert(w.push(last).map_values(record) =~= w.map_values(record).push(record(last)));
        assert(n.push(last).map_values(record) =~= n.map_values(record).push(record(last)));
        w.map_values(record).lemma_filter_push(record(last), keep);
    } else {
        assert(entries.filter(wide).map_values(record) =~= Seq::empty());
        assert(entries.filter(narrow).map_values(record) =~= Seq::empty());
        assert(Seq::<MdFile>::empty().filter(keep) =~= Seq::empty());
    }
}

/// Tells the files whose paths are not excluded.
pub open spec fn not_excluded(excluded: spec_fn(Seq<char>) -> bool) -> spec_fn(MdFile) -> bool {
    |file: MdFile| !excluded(file.rel_unix@)
}

/// Patterns only filter: a scan with them lists what a scan without them lists,
/// in the same order, but for the files whose paths they match. This holds
/// whatever `excluded` says of a path.
pub proof fn law_patterns_only_filter(
    root: Option<Seq<char>>,
    entries: Seq<Entry>,
    include_hidden: bool,
    excluded: spec_fn(Seq<char>) -> bool,
    all: Seq<MdFile>,
    kept: Seq<MdFile>,
)
    requires
        records_hold_paths(entries),
        is_scan(root, entries, include_hidden, excluded_by(None), all),
        is_scan(root, entries, include_hidden, excluded, kept),
    ensures
        kept == all.filter(not_excluded(excluded)),
{
    let none = excluded_by(None);
    let wide = lists(root, include_hidden, none);
    let narrow = lists(root, include_hidden, excluded);
    let keep = not_excluded(excluded);
    assert forall|i: int| 0 <= i < entries.len() implies (narrow(#[trigger] entries[i]) <==> wide(
        entries[i],
    ) && keep(record_of()(entries[i]))) by {
        let entry = entries[i];
        if entry.rel is Some {
            assert(!none(unix_path(entry.rel->0@)));
        }
    }
    lemma_narrower_listing(entries, wide, narrow, keep);
    law_filtering_and_ordering_commute(
        found_files(root, entries, include_hidden, none),
        all,
        kept,
        keep,
    );
}

/// The names with `separator` between them.
pub open spec fn joined(names: Seq<Seq<char>>, separator: char) -> Seq<char>
    decreases names.len(),
{
    if names.len() == 0 {
        Seq::empty()
    } else if names.len() == 1 {
        names[0]
    } else {
        joined(names.drop_last(), separator).push(separator) + names.last()
    }
}

/// Whether `name` can be the name of an entry: it holds no separator.
pub open spec fn is_name(name: Seq<char>) -> bool {
    !name.contains('/') && !name.contains('\\')
}

/// Whether all of `names` can be names of entries.
pub open spec fn all_names(names: Seq<Seq<char>>) -> bool {
    forall|k: int| 0 <= k < names.len() ==> is_name(#[trigger] names[k])
}

/// Whether a component of the path begins with a dot.
pub open spec fn has_hidden_component(path: Seq<char>) -> bool {
    exists|i: int| begins_hidden_component(path, i)
}

/// Whether a component that begins with a dot stands at `i`.
pub open spec fn begins_hidden_component(path: Seq<char>, i: int) -> bool {
    0 <= i < path.len() && path[i] == '.' && (i == 0 || path[i - 1] == '/')
}

/// Whether the walk comes to all of `names` when hidden ones are left out.
pub open spec fn all_walked(names: Seq<Seq<char>>) -> bool {
    forall|k: int| 0 <= k < names.len() ==> is_walked(Some(#[trigger] names[k]), false)
}

/// The walk leaves hidden names out on the way to an entry exactly where some
/// component of its path begins with a dot.
pub proof fn law_hidden_names_show_in_path(names: Seq<Seq<char>>)
    requires
        all_names(names),
    ensures
        all_walked(names) <==> !has_hidden_component(joined(names, '/')),
    decreases names.len(),
{
    let path = joined(names, '/');
    if names.len() == 1 {
        let name = names[0];
        if name.len() > 0 && name[0] == '.' {
            assert(begins_hidden_component(path, 0));
        }
        if has_hidden_component(path) {
            let i = choose|i: int| begins_hidden_component(path, i);
            if i > 0 {
                assert(name.contains(name[i - 1]));
            }
        }
    } else if names.len() > 1 {
        let before = names.drop_last();
        let front = joined(before, '/');
        let name = names.last();
        let at = front.len() + 1;
        assert(all_names(before)) by {
            assert forall|k: int| 0 <= k < before.len() implies is_name(#[trigger] before[k]) by {
                assert(before[k] == names[k]);
            }
        }
        law_hidden_names_show_in_path(before);
        assert(name == names[names.len() - 1]);
        assert(is_name(name));
        assert(path =~= front.push('/') + name);
        assert(all_walked(names) <==> all_walked(before) && is_walked(Some(name), false)) by {
            if all_walked(names) {
                assert forall|k: int| 0 <= k < before.len() implies is_walked(
                    Some(#[trigger] before[k]),
                    false,
                ) by {
                    assert(before[k] == names[k]);
                }
            }
            if all_walked(before) && is_walked(Some(name), false) {
                assert forall|k: int| 0 <= k < names.len() implies is_walked(
                    Some(#[trigger] names[k]),
                    false,
                ) by {
                    if k < before.len() {
                        assert(before[k] == names[k]);
                    }
                }
            }
        }
        if has_hidden_component(front) {
            let i = choose|i: int| begins_hidden_component(front, i);
            assert(begins_hidden_component(path, i));
        }
        if !is_walked(Some(name), false) {
            assert(begins_hidden_component(path, at as int));
        }
        if has_hidden_component(path) {
            let i = choose|i: int| begins_hidden_component(path, i);
            if i < front.len() {
                assert(begins_hidden_component(front, i));
            } else if i > at {
                assert(path[i - 1] == name[i - 1 - at]);
                assert(name.contains(name[i - 1 - at]));
            }
        }
    }
}

proof fn lemma_unix_path_of_names(names: Seq<Seq<char>>, separator: char)
    requires
        all_names(names),
        separator == '/' || separator == '\\',
    ensures
        unix_path(joined(names, separator)) == joined(names, '/'),
    decreases names.len(),
{
    let path = joined(names, separator);
    if names.len() > 0 {
        let name = names.last();
        assert(is_name(names[names.len() - 1]));
        assert(unix_path(name) =~= name) by {
            assert forall|i: int| 0 <= i < name.len() implies unix_path(name)[i] == name[i] by {
                assert(name.contains(name[i]));
            }
        }
        if names.len() > 1 {
            let before = names.drop_last();
            assert forall|k: int| 0 <= k < before.len() implies is_name(#[trigger] before[k]) by {
                assert(before[k] == names[k]);
            }
            lemma_unix_path_of_names(before, separator);
            let front = joined(before, separator);
            assert(unix_path(front.push(separator) + name) =~= unix_path(front).push('/')
                + unix_path(name));
        }
    } else {
        assert(unix_path(path) =~= path);
    }
}

/// The names, which are text.
pub open spec fn texts_of(names: Seq<Option<String>>) -> Seq<Seq<char>> {
    names.map_values(|name: Option<String>| name->0@)
}

/// Whether the path of each entry is made of its names, which are text.
pub open spec fn paths_are_joined_names(entries: Seq<Entry>, separator: char) -> bool {
    forall|i: int|
        0 <= i < entries.len() ==> {
            let names = (#[trigger] entries[i]).names@;
            &&& forall|k: int| 0 <= k < names.len() ==> (#[trigger] names[k]) is Some
            &&& all_names(texts_of(names))
            &&& owned_text(entries[i].rel) == Some(joined(texts_of(names), separator))
        }
}

/// Tells the files of whose paths no component begins with a dot.
pub open spec fn not_hidden() -> spec_fn(MdFile) -> bool {
    |file: MdFile| !has_hidden_component(file.rel_unix@)
}

/// Leaving hidden names out only filters: a scan that does lists what a scan
/// with them lists, in the same order, but for the files of whose paths some
/// component begins with a dot. The vault root itself is not hidden.
pub proof fn law_hidden_names_only_filter(
    root: Option<Seq<char>>,
    entries: Seq<Entry>,
    separator: char,
    excluded: spec_fn(Seq<char>) -> bool,
    all: Seq<MdFile>,
    kept: Seq<MdFile>,
)
    requires
        records_hold_paths(entries),
        separator == '/' || separator == '\\',
        paths_are_joined_names(entries, separator),
        is_walked(root, false),
        is_scan(root, entries, true, excluded, all),
        is_scan(root, entries, false, excluded, kept),
    ensures
        kept == all.filter(not_hidden()),
{
    let wide = lists(root, true, excluded);
    let narrow = lists(root, false, excluded);
    let keep = not_hidden();
    assert forall|i: int| 0 <= i < entries.len() implies (narrow(#[trigger] entries[i]) <==> wide(
        entries[i],
    ) && keep(record_of()(entries[i]))) by {
        let entry = entries[i];
        let names = texts_of(entry.names@);
        lemma_unix_path_of_names(names, separator);
        law_hidden_names_show_in_path(names);
        assert(is_met(root, entry, false) <==> all_walked(names)) by {
            assert forall|k: int| 0 <= k < names.len() implies owned_text(entry.names@[k]) == Some(
                #[trigger] names[k],
            ) by {
                assert(entry.names@[k] is Some);
            }
            if all_walked(names) {
                assert forall|k: int| 0 <= k < entry.names@.len() implies is_walked(
                    owned_text(#[trigger] entry.names@[k]),
                    false,
                ) by {
                    assert(owned_text(entry.names@[k]) == Some(names[k]));
                }
            }
            if is_met(root, entry, false) {
                assert forall|k: int| 0 <= k < names.len() implies is_walked(
                    Some(#[trigger] names[k]),
                    false,
                ) by {
                    assert(is_walked(owned_text(entry.names@[k]), false));
                }
            }
        }
    }
    lemma_narrower_listing(entries, wide, narrow, keep);
    law_filtering_and_ordering_commute(
        found_files(root, entries, true, excluded),
        all,
        kept,
        keep,
    );
}

} // verus!
