//! Numerals, comparison, search and escaping.

use crate::escape::{bare_pipes, escape_md_cell, escaped};
use crate::text::{
    decimal, digits, find, is_digit, is_numeral, lemma_digits_show, lemma_padded_shows, lex_le,
    numeral_value, occurs_at, padded_decimal, text_le, zero_padded,
};
use vstd::prelude::*;

verus! {

/// A numeral is made of the characters from `0` to `9`. A further digit behind it
/// multiplies its value by ten and adds its own.
pub proof fn law_numerals(s: Seq<char>, c: char)
    requires
        '0' <= c <= '9',
    ensures
        is_numeral(s) <==> s.len() > 0 && forall|i: int|
            0 <= i < s.len() ==> '0' <= #[trigger] s[i] <= '9',
        numeral_value(Seq::empty()) == 0,
        is_numeral(s) ==> numeral_value(s.push(c)) == 10 * numeral_value(s) + (c as int - 48),
        numeral_value(seq![c]) == c as int - 48,
{
    assert(s.push(c).drop_last() =~= s);
    assert(seq![c].drop_last() =~= Seq::<char>::empty());
    assert(numeral_value(Seq::<char>::empty()) == 0);
    if is_numeral(s) {
        assert forall|i: int| 0 <= i < s.len() implies '0' <= #[trigger] s[i] <= '9' by {
            assert(is_digit(s[i]));
        }
    }
    if s.len() > 0 && forall|i: int| 0 <= i < s.len() ==> '0' <= #[trigger] s[i] <= '9' {
        assert forall|i: int| 0 <= i < s.len() implies is_digit(#[trigger] s[i]) by {}
    }
}

proof fn lemma_digits_lead(n: nat)
    requires
        n > 0,
    ensures
        digits(n).len() > 0,
        digits(n)[0] != '0',
    decreases n,
{
    if n >= 10 {
        lemma_digits_lead(n / 10);
    }
}

/// The shortest numeral of a number.
pub proof fn lemma_shortest_numeral(n: nat)
    ensures
        is_numeral(digits(n)),
        numeral_value(digits(n)) == n,
        digits(n).len() > 1 ==> digits(n)[0] != '0',
{
    lemma_digits_show(n);
    if n > 0 {
        lemma_digits_lead(n);
    }
}

/// The shortest numeral of a number that has at least `width` digits.
pub proof fn lemma_padded_numeral(n: nat, width: nat)
    ensures
        is_numeral(zero_padded(n, width)),
        numeral_value(zero_padded(n, width)) == n,
        zero_padded(n, width).len() >= width,
        zero_padded(n, width).len() > width && zero_padded(n, width).len() > 1
            ==> zero_padded(n, width)[0] != '0',
{
    lemma_padded_shows(n, width);
    lemma_shortest_numeral(n);
}

/// A number is written as the shortest numeral that has its value.
pub proof fn law_decimal(n: u64, s: String)
    requires
        call_ensures(decimal, (n,), s),
    ensures
        is_numeral(s@),
        numeral_value(s@) == n,
        s@.len() > 1 ==> s@[0] != '0',
{
    lemma_shortest_numeral(n as nat);
}

/// A padded number is written as the shortest numeral that has its value and at
/// least `width` digits.
pub proof fn law_padded_decimal(n: u64, width: usize, s: String)
    requires
        call_ensures(padded_decimal, (n, width), s),
    ensures
        is_numeral(s@),
        numeral_value(s@) == n,
        s@.len() >= width,
        s@.len() > width && s@.len() > 1 ==> s@[0] != '0',
{
    lemma_padded_numeral(n as nat, width as nat);
}

/// One text is at most another if it is a beginning of it, or has the smaller
/// character at the first place where they differ.
pub proof fn law_text_order(a: Seq<char>, b: Seq<char>)
    ensures
        lex_le(a, b) <==> (a.len() <= b.len() && a == b.take(a.len() as int)) || exists|k: int|
            0 <= k < a.len() && k < b.len() && #[trigger] a.take(k) == b.take(k) && a[k] < b[k],
    decreases a.len(),
{
    if a.len() == 0 {
        assert(a =~= b.take(0));
    } else if b.len() > 0 {
        let (c, d) = (a.drop_first(), b.drop_first());
        law_text_order(c, d);
        if a[0] == b[0] {
            if c.len() <= d.len() && c == d.take(c.len() as int) {
                assert(a =~= b.take(a.len() as int)) by {
                    assert forall|i: int| 0 <= i < a.len() implies a[i] == b[i] by {
                        if i > 0 {
                            assert(c[i - 1] == d.take(c.len() as int)[i - 1]);
                        }
                    }
                }
            }
            if a.len() <= b.len() && a == b.take(a.len() as int) {
                assert(c =~= d.take(c.len() as int)) by {
                    assert forall|i: int| 0 <= i < c.len() implies c[i] == d[i] by {
                        assert(a[i + 1] == b.take(a.len() as int)[i + 1]);
                    }
                }
            }
            if exists|k: int|
                0 <= k < c.len() && k < d.len() && #[trigger] c.take(k) == d.take(k) && c[k] < d[k] {
                let k = choose|k: int|
                    0 <= k < c.len() && k < d.len() && #[trigger] c.take(k) == d.take(k) && c[k]
                        < d[k];
                assert(a.take(k + 1) =~= b.take(k + 1)) by {
                    assert forall|i: int| 0 <= i < k + 1 implies a[i] == b[i] by {
                        if i > 0 {
                            assert(c.take(k)[i - 1] == d.take(k)[i - 1]);
                        }
                    }
                }
            }
            if exists|k: int|
                0 <= k < a.len() && k < b.len() && #[trigger] a.take(k) == b.take(k) && a[k] < b[k] {
                let k = choose|k: int|
                    0 <= k < a.len() && k < b.len() && #[trigger] a.take(k) == b.take(k) && a[k]
                        < b[k];
                assert(k > 0);
                assert(c.take(k - 1) =~= d.take(k - 1)) by {
                    assert forall|i: int| 0 <= i < k - 1 implies c[i] == d[i] by {
                        assert(a.take(k)[i + 1] == b.take(k)[i + 1]);
                    }
                }
            }
        } else {
            assert(a.take(0) =~= b.take(0));
            assert(a.len() <= b.len() ==> a[0] != b.take(a.len() as int)[0]);
            if exists|k: int|
                0 <= k < a.len() && k < b.len() && #[trigger] a.take(k) == b.take(k) && a[k] < b[k] {
                let k = choose|k: int|
                    0 <= k < a.len() && k < b.len() && #[trigger] a.take(k) == b.take(k) && a[k]
                        < b[k];
                if k > 0 {
                    assert(a.take(k)[0] == b.take(k)[0]);
                }
            }
        }
    }
}

/// `text_le` compares by the first place where the texts differ.
pub proof fn law_text_le(a: &str, b: &str, r: bool)
    requires
        call_ensures(text_le, (a, b), r),
    ensures
        r <==> (a@.len() <= b@.len() && a@ == b@.take(a@.len() as int)) || exists|k: int|
            0 <= k < a@.len() && k < b@.len() && #[trigger] a@.take(k) == b@.take(k) && a@[k]
                < b@[k],
{
    law_text_order(a@, b@);
}

/// `find` gives the first place where the pattern stands, and none where it stands
/// nowhere.
pub proof fn law_find(text: &[char], pattern: &[char], r: Option<usize>, j: int)
    requires
        call_ensures(find, (text, pattern), r),
        0 <= j,
        j + pattern@.len() <= text@.len(),
    ensures
        match r {
            Some(at) => {
                &&& at + pattern@.len() <= text@.len()
                &&& text@.subrange(at as int, at + pattern@.len()) == pattern@
                &&& j < at ==> text@.subrange(j, j + pattern@.len()) != pattern@
            },
            None => text@.subrange(j, j + pattern@.len()) != pattern@,
        },
{
    match r {
        Some(at) => {
            assert(occurs_at(text@, pattern@, at as int));
            assert(j < at ==> !occurs_at(text@, pattern@, j));
        },
        None => {
            assert(!occurs_at(text@, pattern@, j));
        },
    }
}

/// What stands in a cell for a text: a backslash goes before each of the seven
/// characters that mean something there, a space stands for each line break, and
/// every other character stays.
pub proof fn law_escaped_text(s: Seq<char>)
    ensures
        escaped(s) == s.fold_left(
            Seq::<char>::empty(),
            |out: Seq<char>, c: char|
                if c == '\\' || c == '|' || c == '`' || c == '*' || c == '_' || c == '[' || c
                    == ']' {
                    out.push('\\').push(c)
                } else if c == '\n' || c == '\r' {
                    out.push(' ')
                } else {
                    out.push(c)
                },
        ),
    decreases s.len(),
{
    if s.len() > 0 {
        law_escaped_text(s.drop_last());
        let before = escaped(s.drop_last());
        let c = s.last();
        assert(before + seq!['\\', c] =~= before.push('\\').push(c));
        assert(before + seq![' '] =~= before.push(' '));
        assert(before + seq![c] =~= before.push(c));
    }
}

/// Escaping goes through the text character by character: a backslash goes before
/// each of the seven characters that mean something in a cell, a space stands for
/// each line break, and every other character stays.
pub proof fn law_escape_md_cell(s: &str, out: String)
    requires
        call_ensures(escape_md_cell, (s,), out),
    ensures
        out@ == s@.fold_left(
            Seq::<char>::empty(),
            |out: Seq<char>, c: char|
                if c == '\\' || c == '|' || c == '`' || c == '*' || c == '_' || c == '[' || c
                    == ']' {
                    out.push('\\').push(c)
                } else if c == '\n' || c == '\r' {
                    out.push(' ')
                } else {
                    out.push(c)
                },
        ),
{
    law_escaped_text(s@);
}

/// Every bar separates cells, but for one behind a backslash that does not itself
/// stand behind another.
pub proof fn law_bare_pipes(c: char, t: Seq<char>)
    ensures
        bare_pipes(Seq::empty()) == 0,
        c == '|' ==> bare_pipes(seq![c] + t) == 1 + bare_pipes(t),
        c != '|' && c != '\\' ==> bare_pipes(seq![c] + t) == bare_pipes(t),
        bare_pipes(seq!['\\', c] + t) == bare_pipes(t),
        bare_pipes(seq!['\\']) == 0,
{
    assert((seq![c] + t).skip(1) =~= t);
    assert((seq!['\\', c] + t).skip(2) =~= t);
    assert(seq!['\\'].skip(1) =~= Seq::<char>::empty());
    assert(bare_pipes(Seq::<char>::empty()) == 0);
}

} // verus!
