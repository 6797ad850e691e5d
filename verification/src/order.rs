//! The order in which files are packed: newest first.

use crate::model::MdFile;
use crate::text::{
    lemma_lex_antisymmetric, lemma_lex_total, lemma_lex_transitive, lex_le, text_le,
};
use vstd::prelude::*;

verus! {

/// Whether `a` may stand before `b`: it is newer, or as old and first by path.
pub open spec fn ranks_before(a: MdFile, b: MdFile) -> bool {
    a.mtime > b.mtime || (a.mtime == b.mtime && lex_le(a.rel_unix@, b.rel_unix@))
}

/// Whether every file may stand before those behind it.
pub open spec fn is_newest_first(files: Seq<MdFile>) -> bool {
    forall|i: int, j: int|
        0 <= i < j < files.len() ==> ranks_before(#[trigger] files[i], #[trigger] files[j])
}

/// Tells the files of a given time and path.
pub open spec fn has_key(mtime: i64, rel: Seq<char>) -> spec_fn(MdFile) -> bool {
    |f: MdFile| f.mtime == mtime && f.rel_unix@ == rel
}

/// The files of a given time and path, in their order.
pub open spec fn with_key(files: Seq<MdFile>, mtime: i64, rel: Seq<char>) -> Seq<MdFile> {
    files.filter(has_key(mtime, rel))
}

/// Whether `a` and `b` hold the same files, and those of the same time and path
/// in the same order.
pub open spec fn stable_rearrangement(a: Seq<MdFile>, b: Seq<MdFile>) -> bool {
    &&& a.to_multiset() == b.to_multiset()
    &&& forall|mtime: i64, rel: Seq<char>|
        #[trigger] with_key(a, mtime, rel) == with_key(b, mtime, rel)
}

/// Two ordered runs of files as one.
spec fn merged(a: Seq<MdFile>, b: Seq<MdFile>) -> Seq<MdFile>
    decreases a.len() + b.len(),
{
    if a.len() == 0 {
        b
    } else if b.len() == 0 {
        a
    } else if ranks_before(a.last(), b.last()) {
        merged(a, b.drop_last()).push(b.last())
    } else {
        merged(a.drop_last(), b).push(a.last())
    }
}

proof fn lemma_ranks_total(a: MdFile, b: MdFile)
    ensures
        ranks_before(a, b) || ranks_before(b, a),
{
    lemma_lex_total(a.rel_unix@, b.rel_unix@);
}

proof fn lemma_ranks_transitive(a: MdFile, b: MdFile, c: MdFile)
    requires
        ranks_before(a, b),
        ranks_before(b, c),
    ensures
        ranks_before(a, c),
{
    if a.mtime == b.mtime && b.mtime == c.mtime {
        lemma_lex_transitive(a.rel_unix@, b.rel_unix@, c.rel_unix@);
    }
}

proof fn lemma_merged_holds_both(a: Seq<MdFile>, b: Seq<MdFile>)
    ensures
        merged(a, b).to_multiset() == a.to_multiset().add(b.to_multiset()),
    decreases a.len() + b.len(),
{
    broadcast use vstd::seq_lib::group_to_multiset_ensures;

    if a.len() == 0 {
        assert(a.to_multiset() =~= vstd::multiset::Multiset::empty());
        assert(merged(a, b).to_multiset() =~= a.to_multiset().add(b.to_multiset()));
    } else if b.len() == 0 {
        assert(b.to_multiset() =~= vstd::multiset::Multiset::empty());
        assert(merged(a, b).to_multiset() =~= a.to_multiset().add(b.to_multiset()));
    } else if ranks_before(a.last(), b.last()) {
        lemma_merged_holds_both(a, b.drop_last());
        assert(b =~= b.drop_last().push(b.last()));
        assert(merged(a, b).to_multiset() =~= a.to_multiset().add(b.to_multiset()));
    } else {
        lemma_merged_holds_both(a.drop_last(), b);
        assert(a =~= a.drop_last().push(a.last()));
        assert(merged(a, b).to_multiset() =~= a.to_multiset().add(b.to_multiset()));
    }
}

proof fn lemma_merged_below(a: Seq<MdFile>, b: Seq<MdFile>, top: MdFile)
    requires
        forall|i: int| 0 <= i < a.len() ==> ranks_before(#[trigger] a[i], top),
        forall|i: int| 0 <= i < b.len() ==> ranks_before(#[trigger] b[i], top),
    ensures
        forall|i: int| 0 <= i < merged(a, b).len() ==> ranks_before(#[trigger] merged(a, b)[i], top),
    decreases a.len() + b.len(),
{
    if a.len() > 0 && b.len() > 0 {
        let m = merged(a, b);
        assert(ranks_before(a[a.len() - 1], top) && ranks_before(b[b.len() - 1], top));
        if ranks_before(a.last(), b.last()) {
            lemma_merged_below(a, b.drop_last(), top);
            assert(m == merged(a, b.drop_last()).push(b.last()));
        } else {
            lemma_merged_below(a.drop_last(), b, top);
            assert(m == merged(a.drop_last(), b).push(a.last()));
        }
    }
}

proof fn lemma_merged_ordered(a: Seq<MdFile>, b: Seq<MdFile>)
    requires
        is_newest_first(a),
        is_newest_first(b),
    ensures
        is_newest_first(merged(a, b)),
    decreases a.len() + b.len(),
{
    if a.len() > 0 && b.len() > 0 {
        let x = a.last();
        let y = b.last();
        lemma_ranks_total(x, y);
        lemma_ranks_total(x, x);
        lemma_ranks_total(y, y);
        if ranks_before(x, y) {
            lemma_merged_ordered(a, b.drop_last());
            assert forall|i: int| 0 <= i < a.len() implies ranks_before(#[trigger] a[i], y) by {
                if i < a.len() - 1 {
                    lemma_ranks_transitive(a[i], x, y);
                }
            }
            lemma_merged_below(a, b.drop_last(), y);
        } else {
            lemma_merged_ordered(a.drop_last(), b);
            assert forall|i: int| 0 <= i < b.len() implies ranks_before(#[trigger] b[i], x) by {
                if i < b.len() - 1 {
                    lemma_ranks_transitive(b[i], y, x);
                }
            }
            lemma_merged_below(a.drop_last(), b, x);
        }
    }
}

proof fn lemma_merged_keeps_ties(a: Seq<MdFile>, b: Seq<MdFile>, mtime: i64, rel: Seq<char>)
    requires
        is_newest_first(b),
    ensures
        with_key(merged(a, b), mtime, rel) == with_key(a, mtime, rel) + with_key(b, mtime, rel),
    decreases a.len() + b.len(),
{
    broadcast use Seq::lemma_filter_push;

    let p = has_key(mtime, rel);
    let whole = with_key(a, mtime, rel) + with_key(b, mtime, rel);
    if a.len() == 0 {
        assert(a.filter(p) =~= Seq::empty());
        assert(with_key(merged(a, b), mtime, rel) =~= whole);
    } else if b.len() == 0 {
        assert(b.filter(p) =~= Seq::empty());
        assert(with_key(merged(a, b), mtime, rel) =~= whole);
    } else if ranks_before(a.last(), b.last()) {
        lemma_merged_keeps_ties(a, b.drop_last(), mtime, rel);
        assert(b =~= b.drop_last().push(b.last()));
        assert(with_key(merged(a, b), mtime, rel) =~= whole);
    } else {
        lemma_merged_keeps_ties(a.drop_last(), b, mtime, rel);
        assert(a =~= a.drop_last().push(a.last()));
        if p(a.last()) {
            assert forall|i: int| 0 <= i < b.len() implies !p(#[trigger] b[i]) by {
                if p(b[i]) {
                    lemma_lex_total(rel, rel);
                    if i < b.len() - 1 {
                        lemma_ranks_transitive(a.last(), b[i], b.last());
                    }
                }
            }
            lemma_none_selected(b, p);
        }
        assert(with_key(a, mtime, rel) == (if p(a.last()) {
            with_key(a.drop_last(), mtime, rel).push(a.last())
        } else {
            with_key(a.drop_last(), mtime, rel)
        }));
        assert(with_key(merged(a, b), mtime, rel) =~= whole);
    }
}

proof fn lemma_none_selected(s: Seq<MdFile>, p: spec_fn(MdFile) -> bool)
    requires
        forall|i: int| 0 <= i < s.len() ==> !p(#[trigger] s[i]),
    ensures
        s.filter(p) == Seq::<MdFile>::empty(),
    decreases s.len(),
{
    broadcast use Seq::lemma_filter_push;

    if s.len() > 0 {
        lemma_none_selected(s.drop_last(), p);
        assert(s =~= s.drop_last().push(s.last()));
    } else {
        assert(s.filter(p) =~= Seq::empty());
    }
}

/// Whether `a` may stand before `b`.
fn file_ranks_before(a: &MdFile, b: &MdFile) -> (r: bool)
    ensures
        r == ranks_before(*a, *b),
{
    if a.mtime == b.mtime {
        text_le(a.rel_unix.as_str(), b.rel_unix.as_str())
    } else {
        a.mtime > b.mtime
    }
}

/// Merges two ordered runs; of files that rank alike, those of `left` come
/// first.
fn merge(left: Vec<MdFile>, right: Vec<MdFile>) -> (out: Vec<MdFile>)
    ensures
        out@ == merged(left@, right@),
{
    let mut a = left;
    let mut b = right;
    let mut back: Vec<MdFile> = Vec::new();
    assert(merged(left@, right@) =~= merged(a@, b@) + back@.reverse());
    while a.len() > 0 && b.len() > 0
        invariant
            merged(left@, right@) == merged(a@, b@) + back@.reverse(),
        decreases a@.len() + b@.len(),
    {
        let ghost whole = merged(a@, b@);
        let ghost behind = back@;
        let from_right = file_ranks_before(&a[a.len() - 1], &b[b.len() - 1]);
        let next = if from_right {
            b.pop()
        } else {
            a.pop()
        };
        if let Some(file) = next {
            back.push(file);
            assert(whole == merged(a@, b@).push(file));
            assert(whole + behind.reverse() =~= merged(a@, b@) + back@.reverse());
        }
    }
    let ghost front = merged(a@, b@);
    let mut out = a;
    out.append(&mut b);
    assert(out@ =~= front);
    while back.len() > 0
        invariant
            merged(left@, right@) == out@ + back@.reverse(),
        decreases back@.len(),
    {
        let ghost ahead = out@;
        let ghost behind = back@;
        if let Some(file) = back.pop() {
            out.push(file);
            assert(ahead + behind.reverse() =~= out@ + back@.reverse());
        }
    }
    assert(out@ + back@.reverse() =~= out@);
    out
}

/// Puts the files in order: newest first, and by path where the times are the
/// same. Files that agree in both keep their order.
pub fn newest_first(files: Vec<MdFile>) -> (out: Vec<MdFile>)
    ensures
        is_newest_first(out@),
        stable_rearrangement(files@, out@),
    decreases files@.len(),
{
    if files.len() <= 1 {
        return files;
    }
    let mut left = files;
    let mid = left.len() / 2;
    let right = left.split_off(mid);
    let ghost (l, r) = (left@, right@);
    assert(files@ =~= l + r);
    let a = newest_first(left);
    let b = newest_first(right);
    let out = merge(a, b);
    proof {
        lemma_merged_ordered(a@, b@);
        lemma_merged_holds_both(a@, b@);
        vstd::seq_lib::lemma_multiset_commutative(l, r);
        assert forall|mtime: i64, rel: Seq<char>|
            #[trigger] with_key(files@, mtime, rel) == with_key(out@, mtime, rel) by {
            lemma_merged_keeps_ties(a@, b@, mtime, rel);
            Seq::filter_distributes_over_add(l, r, has_key(mtime, rel));
            assert(with_key(l, mtime, rel) == with_key(a@, mtime, rel));
            assert(with_key(r, mtime, rel) == with_key(b@, mtime, rel));
        }
    }
    out
}

/// The order leaves no choice: there is one way to put given files newest first
/// and keep those of the same time and path as they were.
pub proof fn law_order_is_determined(a: Seq<MdFile>, b: Seq<MdFile>)
    requires
        is_newest_first(a),
        is_newest_first(b),
        stable_rearrangement(a, b),
    ensures
        a == b,
    decreases a.len(),
{
    broadcast use {vstd::seq_lib::group_to_multiset_ensures, Seq::lemma_filter_push};

    assert(a.len() == b.len()) by {
        assert(a.to_multiset().len() == b.to_multiset().len());
    }
    if a.len() > 0 {
        let x = a.last();
        let y = b.last();
        let key = has_key(x.mtime, x.rel_unix@);
        assert(a =~= a.drop_last().push(x));
        assert(b =~= b.drop_last().push(y));
        lemma_ranks_total(x, x);
        lemma_ranks_total(y, y);
        assert(ranks_before(x, y)) by {
            assert(b.to_multiset().count(x) > 0);
            assert(b.contains(x));
            let i = choose|i: int| 0 <= i < b.len() && b[i] == x;
            assert(i < b.len() - 1 ==> ranks_before(b[i], b[b.len() - 1]));
        }
        assert(ranks_before(y, x)) by {
            assert(a.to_multiset().count(y) > 0);
            assert(a.contains(y));
            let i = choose|i: int| 0 <= i < a.len() && a[i] == y;
            assert(i < a.len() - 1 ==> ranks_before(a[i], a[a.len() - 1]));
        }
        lemma_lex_antisymmetric(x.rel_unix@, y.rel_unix@);
        assert(with_key(a, x.mtime, x.rel_unix@).last() == x);
        assert(with_key(b, x.mtime, x.rel_unix@).last() == y);
        assert(x == y);
        let (c, d) = (a.drop_last(), b.drop_last());
        assert(c.to_multiset() =~= a.to_multiset().remove(x));
        assert(d.to_multiset() =~= b.to_multiset().remove(x));
        assert forall|mtime: i64, rel: Seq<char>|
            #[trigger] with_key(c, mtime, rel) == with_key(d, mtime, rel) by {
            let (whole_a, whole_b) = (with_key(a, mtime, rel), with_key(b, mtime, rel));
            if has_key(mtime, rel)(x) {
                assert(whole_a == with_key(c, mtime, rel).push(x));
                assert(whole_b == with_key(d, mtime, rel).push(x));
                assert(with_key(c, mtime, rel) =~= whole_a.drop_last());
                assert(with_key(d, mtime, rel) =~= whole_b.drop_last());
            }
        }
        law_order_is_determined(c, d);
    }
    assert(a =~= b);
}

/// Leaving files out keeps the others in order.
pub proof fn law_filtering_keeps_order(files: Seq<MdFile>, keep: spec_fn(MdFile) -> bool)
    requires
        is_newest_first(files),
    ensures
        is_newest_first(files.filter(keep)),
    decreases files.len(),
{
    if files.len() > 0 {
        let rest = files.drop_last();
        let last = files.last();
        assert forall|i: int, j: int| 0 <= i < j < rest.len() implies ranks_before(
            #[trigger] rest[i],
            #[trigger] rest[j],
        ) by {
            assert(ranks_before(files[i], files[j]));
        }
        law_filtering_keeps_order(rest, keep);
        assert(files =~= rest.push(last));
        rest.lemma_filter_push(last, keep);
        assert forall|i: int| 0 <= i < rest.filter(keep).len() implies ranks_before(
            #[trigger] rest.filter(keep)[i],
            last,
        ) by {
            assert(rest.filter(keep).contains(rest.filter(keep)[i]));
            rest.lemma_filter_contains_rev(keep, rest.filter(keep)[i]);
            let j = choose|j: int| 0 <= j < rest.len() && rest[j] == rest.filter(keep)[i];
            assert(ranks_before(files[j], files[files.len() - 1]));
        }
    } else {
        assert(files.filter(keep) =~= Seq::empty());
    }
}

proof fn lemma_filters_commute(
    files: Seq<MdFile>,
    p: spec_fn(MdFile) -> bool,
    q: spec_fn(MdFile) -> bool,
)
    ensures
        files.filter(p).filter(q) == files.filter(q).filter(p),
    decreases files.len(),
{
    if files.len() > 0 {
        let rest = files.drop_last();
        let last = files.last();
        lemma_filters_commute(rest, p, q);
        assert(files =~= rest.push(last));
        rest.lemma_filter_push(last, p);
        rest.lemma_filter_push(last, q);
        rest.filter(p).lemma_filter_push(last, q);
        rest.filter(q).lemma_filter_push(last, p);
    } else {
        assert(files.filter(p) =~= files);
        assert(files.filter(q) =~= files);
    }
}

proof fn lemma_filter_counts(files: Seq<MdFile>, keep: spec_fn(MdFile) -> bool, file: MdFile)
    ensures
        files.filter(keep).to_multiset().count(file) == (if keep(file) {
            files.to_multiset().count(file)
        } else {
            0
        }),
    decreases files.len(),
{
    broadcast use vstd::seq_lib::group_to_multiset_ensures;

    if files.len() > 0 {
        let rest = files.drop_last();
        let last = files.last();
        lemma_filter_counts(rest, keep, file);
        assert(files =~= rest.push(last));
        rest.lemma_filter_push(last, keep);
    } else {
        assert(files.filter(keep) =~= files);
    }
}

/// It is the same to leave files out before they are put in order or after.
pub proof fn law_filtering_and_ordering_commute(
    all: Seq<MdFile>,
    sorted: Seq<MdFile>,
    sorted_kept: Seq<MdFile>,
    keep: spec_fn(MdFile) -> bool,
)
    requires
        is_newest_first(sorted),
        stable_rearrangement(all, sorted),
        is_newest_first(sorted_kept),
        stable_rearrangement(all.filter(keep), sorted_kept),
    ensures
        sorted_kept == sorted.filter(keep),
{
    let kept = sorted.filter(keep);
    law_filtering_keeps_order(sorted, keep);
    assert(kept.to_multiset() =~= all.filter(keep).to_multiset()) by {
        assert forall|file: MdFile|
            kept.to_multiset().count(file) == all.filter(keep).to_multiset().count(file) by {
            lemma_filter_counts(sorted, keep, file);
            lemma_filter_counts(all, keep, file);
        }
    }
    assert forall|mtime: i64, rel: Seq<char>|
        #[trigger] with_key(kept, mtime, rel) == with_key(sorted_kept, mtime, rel) by {
        let key = has_key(mtime, rel);
        lemma_filters_commute(sorted, keep, key);
        lemma_filters_commute(all, keep, key);
        assert(with_key(all, mtime, rel) == with_key(sorted, mtime, rel));
        assert(with_key(all.filter(keep), mtime, rel) == with_key(sorted_kept, mtime, rel));
    }
    law_order_is_determined(kept, sorted_kept);
}

} // verus!
