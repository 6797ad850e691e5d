//! Characters, strings and decimal numerals.

use vstd::prelude::*;
use vstd::slice::slice_subrange;

verus! {

/// `String::push` puts one character at the end of the string.
pub assume_specification[ String::push ](s: &mut String, c: char)
    ensures
        final(s)@ == old(s)@.push(c),
;

/// The characters of `s`, in order.
pub fn chars_of(s: &str) -> (v: Vec<char>)
    ensures
        v@ == s@,
{
    let mut v: Vec<char> = Vec::new();
    for c in it: s.chars()
        invariant
            it.seq() == s@,
            v@ == s@.take(it.index()),
    {
        assert(s@.take(it.index() + 1) =~= s@.take(it.index()).push(c));
        v.push(c);
    }
    assert(s@.take(s@.len() as int) =~= s@);
    v
}

/// The string made of `chars`, in order.
pub fn string_of(chars: &[char]) -> (s: String)
    ensures
        s@ == chars@,
{
    let mut s = String::new();
    let mut i: usize = 0;
    while i < chars.len()
        invariant
            i <= chars@.len(),
            s@ == chars@.take(i as int),
        decreases chars@.len() - i,
    {
        assert(chars@.take(i + 1) =~= chars@.take(i as int).push(chars@[i as int]));
        s.push(chars[i]);
        i = i + 1;
    }
    assert(chars@.take(chars@.len() as int) =~= chars@);
    s
}

/// The character that shows the decimal digit `d`.
pub open spec fn digit_char(d: nat) -> char {
    (48 + d) as char
}

/// The decimal numeral of `n`, without leading zeros.
pub open spec fn digits(n: nat) -> Seq<char>
    decreases n,
{
    if n < 10 {
        seq![digit_char(n)]
    } else {
        digits(n / 10).push(digit_char(n % 10))
    }
}

/// The decimal numeral of `n`, with leading zeros up to `width` characters.
pub open spec fn zero_padded(n: nat, width: nat) -> Seq<char> {
    let numeral = digits(n);
    if numeral.len() < width {
        Seq::new((width - numeral.len()) as nat, |i: int| '0') + numeral
    } else {
        numeral
    }
}

/// Writes the decimal numeral of `n`.
pub fn decimal(n: u64) -> (s: String)
    ensures
        s@ == digits(n as nat),
    decreases n,
{
    let d = (n % 10) as u8;
    let c = (48u8 + d) as char;
    if n < 10 {
        let mut s = String::new();
        s.push(c);
        assert(s@ =~= seq![digit_char(n as nat)]);
        s
    } else {
        let mut s = decimal(n / 10);
        s.push(c);
        s
    }
}

/// Writes the decimal numeral of `n`, with leading zeros up to `width`
/// characters.
pub fn padded_decimal(n: u64, width: usize) -> (s: String)
    ensures
        s@ == zero_padded(n as nat, width as nat),
{
    let numeral = decimal(n);
    let count = numeral.as_str().unicode_len();
    let mut s = String::new();
    let mut i: usize = count;
    while i < width
        invariant
            count == numeral@.len(),
            count <= i,
            count <= width ==> i <= width,
            count > width ==> i == count,
            s@ == Seq::new((i - count) as nat, |j: int| '0'),
        decreases width - i,
    {
        s.push('0');
        i = i + 1;
        assert(s@ =~= Seq::new((i - count) as nat, |j: int| '0'));
    }
    s.append(numeral.as_str());
    assert(s@ =~= zero_padded(n as nat, width as nat));
    s
}

/// Whether `c` is a decimal digit.
pub open spec fn is_digit(c: char) -> bool {
    '0' <= c <= '9'
}

/// Whether `s` is one decimal digit or more.
pub open spec fn is_numeral(s: Seq<char>) -> bool {
    s.len() > 0 && forall|i: int| 0 <= i < s.len() ==> is_digit(#[trigger] s[i])
}

/// The number that a numeral shows.
pub open spec fn numeral_value(s: Seq<char>) -> nat
    decreases s.len(),
{
    if s.len() == 0 {
        0
    } else {
        (numeral_value(s.drop_last()) * 10 + (s.last() as int - '0' as int)) as nat
    }
}

proof fn lemma_digit_shown(d: nat)
    requires
        d < 10,
    ensures
        is_digit(digit_char(d)),
        digit_char(d) as int - '0' as int == d,
{
}

/// The numeral of a number shows it.
pub proof fn lemma_digits_show(n: nat)
    ensures
        is_numeral(digits(n)),
        numeral_value(digits(n)) == n,
    decreases n,
{
    let s = digits(n);
    lemma_digit_shown(n % 10);
    if n < 10 {
        assert(s.drop_last() =~= Seq::empty());
        assert(numeral_value(s.drop_last()) == 0);
    } else {
        lemma_digits_show(n / 10);
        assert(s.drop_last() =~= digits(n / 10));
    }
}

proof fn lemma_zeros_show_nothing(zeros: nat, s: Seq<char>)
    requires
        is_numeral(s),
    ensures
        is_numeral(Seq::new(zeros, |i: int| '0') + s),
        numeral_value(Seq::new(zeros, |i: int| '0') + s) == numeral_value(s),
    decreases s.len() + zeros,
{
    let lead = Seq::new(zeros, |i: int| '0');
    let whole = lead + s;
    assert forall|i: int| 0 <= i < whole.len() implies is_digit(#[trigger] whole[i]) by {
        if i >= zeros {
            assert(is_digit(s[i - zeros]));
        }
    }
    assert(whole.drop_last() =~= lead + s.drop_last());
    if s.len() == 1 {
        assert(lead + s.drop_last() =~= lead);
        lemma_zeros_are_zero(zeros);
        assert(numeral_value(s.drop_last()) == 0);
    } else {
        assert forall|i: int| 0 <= i < s.len() - 1 implies is_digit(
            #[trigger] s.drop_last()[i],
        ) by {
            assert(is_digit(s[i]));
        }
        lemma_zeros_show_nothing(zeros, s.drop_last());
    }
}

proof fn lemma_zeros_are_zero(zeros: nat)
    ensures
        numeral_value(Seq::new(zeros, |i: int| '0')) == 0,
    decreases zeros,
{
    if zeros > 0 {
        let lead = Seq::new(zeros, |i: int| '0');
        assert(lead.drop_last() =~= Seq::new((zeros - 1) as nat, |i: int| '0'));
        lemma_zeros_are_zero((zeros - 1) as nat);
    }
}

/// A padded numeral shows its number.
pub proof fn lemma_padded_shows(n: nat, width: nat)
    ensures
        is_numeral(zero_padded(n, width)),
        numeral_value(zero_padded(n, width)) == n,
{
    lemma_digits_show(n);
    if digits(n).len() < width {
        lemma_zeros_show_nothing((width - digits(n).len()) as nat, digits(n));
    }
}

/// Whether `a` comes before `b`, or equals it, in the order of their code
/// points.
pub open spec fn lex_le(a: Seq<char>, b: Seq<char>) -> bool
    decreases a.len(),
{
    if a.len() == 0 {
        true
    } else if b.len() == 0 {
        false
    } else if a[0] == b[0] {
        lex_le(a.drop_first(), b.drop_first())
    } else {
        a[0] < b[0]
    }
}

/// Every two texts are in order, one way or the other.
pub proof fn lemma_lex_total(a: Seq<char>, b: Seq<char>)
    ensures
        lex_le(a, b) || lex_le(b, a),
    decreases a.len(),
{
    if a.len() > 0 && b.len() > 0 {
        lemma_lex_total(a.drop_first(), b.drop_first());
    }
}

/// Two texts that are in order both ways are the same.
pub proof fn lemma_lex_antisymmetric(a: Seq<char>, b: Seq<char>)
    requires
        lex_le(a, b),
        lex_le(b, a),
    ensures
        a == b,
    decreases a.len(),
{
    if a.len() > 0 && b.len() > 0 {
        lemma_lex_antisymmetric(a.drop_first(), b.drop_first());
        assert(a =~= seq![a[0]] + a.drop_first());
        assert(b =~= seq![b[0]] + b.drop_first());
    } else {
        assert(a =~= b);
    }
}

/// The order of texts is transitive.
pub proof fn lemma_lex_transitive(a: Seq<char>, b: Seq<char>, c: Seq<char>)
    requires
        lex_le(a, b),
        lex_le(b, c),
    ensures
        lex_le(a, c),
    decreases a.len(),
{
    if a.len() > 0 && b.len() > 0 && c.len() > 0 && a[0] == b[0] && b[0] == c[0] {
        lemma_lex_transitive(a.drop_first(), b.drop_first(), c.drop_first());
    }
}

/// Compares two strings by their code points.
pub fn text_le(a: &str, b: &str) -> (r: bool)
    ensures
        r == lex_le(a@, b@),
{
    let x = chars_of(a);
    let y = chars_of(b);
    let mut i: usize = 0;
    assert(a@.skip(0) =~= a@);
    assert(b@.skip(0) =~= b@);
    while i < x.len() && i < y.len()
        invariant
            x@ == a@,
            y@ == b@,
            i <= x@.len(),
            i <= y@.len(),
            lex_le(a@, b@) == lex_le(a@.skip(i as int), b@.skip(i as int)),
        decreases x@.len() - i,
    {
        assert(a@.skip(i as int).drop_first() =~= a@.skip(i + 1));
        assert(b@.skip(i as int).drop_first() =~= b@.skip(i + 1));
        if x[i] != y[i] {
            return x[i] < y[i];
        }
        i = i + 1;
    }
    i == x.len()
}

/// Whether two strings hold the same characters.
pub fn same_text(a: &str, b: &str) -> (r: bool)
    ensures
        r == (a@ == b@),
{
    let x = chars_of(a);
    let y = chars_of(b);
    if x.len() != y.len() {
        return false;
    }
    assert(x@.subrange(0, x@.len() as int) =~= x@);
    has_prefix(&x, &y)
}

/// Whether `text` begins with `prefix`.
pub fn has_prefix(text: &[char], prefix: &[char]) -> (r: bool)
    ensures
        r == prefix@.is_prefix_of(text@),
{
    if text.len() < prefix.len() {
        return false;
    }
    let mut i: usize = 0;
    while i < prefix.len()
        invariant
            i <= prefix@.len() <= text@.len(),
            forall|j: int| 0 <= j < i ==> prefix@[j] == text@[j],
        decreases prefix@.len() - i,
    {
        if prefix[i] != text[i] {
            assert(text@.subrange(0, prefix@.len() as int)[i as int] != prefix@[i as int]);
            return false;
        }
        i = i + 1;
    }
    true
}

/// Whether `text` ends with `suffix`.
pub fn has_suffix(text: &[char], suffix: &[char]) -> (r: bool)
    ensures
        r == suffix@.is_suffix_of(text@),
{
    if text.len() < suffix.len() {
        return false;
    }
    let len: usize = text.len();
    let from: usize = len - suffix.len();
    let mut i: usize = 0;
    while i < suffix.len()
        invariant
            i <= suffix@.len() <= text@.len(),
            len == text@.len(),
            from == len - suffix@.len(),
            forall|j: int| 0 <= j < i ==> suffix@[j] == text@[from + j],
        decreases suffix@.len() - i,
    {
        if suffix[i] != text[from + i] {
            assert(text@.subrange(from as int, text@.len() as int)[i as int] != suffix@[i as int]);
            return false;
        }
        i = i + 1;
    }
    assert(suffix@ =~= text@.subrange(from as int, text@.len() as int));
    true
}

/// Whether `pattern` occurs in `text` at `at`.
pub open spec fn occurs_at(text: Seq<char>, pattern: Seq<char>, at: int) -> bool {
    0 <= at && at + pattern.len() <= text.len() && text.subrange(at, at + pattern.len()) == pattern
}

/// Whether `pattern` occurs somewhere in `text`.
pub open spec fn occurs_in(text: Seq<char>, pattern: Seq<char>) -> bool {
    exists|at: int| occurs_at(text, pattern, at)
}

/// Finds the first place where `pattern` occurs in `text`.
pub fn find(text: &[char], pattern: &[char]) -> (r: Option<usize>)
    ensures
        match r {
            Some(at) => occurs_at(text@, pattern@, at as int) && forall|j: int|
                0 <= j < at ==> !occurs_at(text@, pattern@, j),
            None => !occurs_in(text@, pattern@),
        },
{
    if text.len() < pattern.len() {
        return None;
    }
    let last: usize = text.len() - pattern.len();
    let mut at: usize = 0;
    loop
        invariant
            last == text@.len() - pattern@.len(),
            at <= last,
            forall|j: int| 0 <= j < at ==> !occurs_at(text@, pattern@, j),
        decreases last - at,
    {
        let rest = slice_subrange(text, at, text.len());
        let here = has_prefix(rest, pattern);
        assert(rest@.subrange(0, pattern@.len() as int) =~= text@.subrange(
            at as int,
            at + pattern@.len(),
        ));
        if here {
            return Some(at);
        }
        if at == last {
            return None;
        }
        at = at + 1;
    }
}

} // verus!
