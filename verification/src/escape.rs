//! Text that stands in a cell of a Markdown table.

use vstd::prelude::*;

verus! {

/// Whether `c` means something to Markdown inside a table cell.
pub open spec fn is_markup(c: char) -> bool {
    c == '\\' || c == '|' || c == '`' || c == '*' || c == '_' || c == '[' || c == ']'
}

/// Whether `c` ends a line.
pub open spec fn is_line_break(c: char) -> bool {
    c == '\n' || c == '\r'
}

/// What stands in a cell for `c`: markup behind a backslash, a space for a line
/// break, anything else as it is.
pub open spec fn escaped_char(c: char) -> Seq<char> {
    if is_markup(c) {
        seq!['\\', c]
    } else if is_line_break(c) {
        seq![' ']
    } else {
        seq![c]
    }
}

/// What stands in a cell for `s`.
pub open spec fn escaped(s: Seq<char>) -> Seq<char>
    decreases s.len(),
{
    if s.len() == 0 {
        Seq::empty()
    } else {
        escaped(s.drop_last()) + escaped_char(s.last())
    }
}

/// Escapes `s` so that it fills one cell of a Markdown table.
pub fn escape_md_cell(s: &str) -> (out: String)
    ensures
        out@ == escaped(s@),
{
    let mut out = String::new();
    for c in it: s.chars()
        invariant
            it.seq() == s@,
            out@ == escaped(s@.take(it.index())),
    {
        assert(s@.take(it.index() + 1).drop_last() =~= s@.take(it.index()));
        let ghost before = out@;
        match c {
            '\\' | '|' | '`' | '*' | '_' | '[' | ']' => {
                out.push('\\');
                out.push(c);
            },
            '\n' | '\r' => out.push(' '),
            _ => out.push(c),
        }
        assert(out@ =~= before + escaped_char(c));
    }
    assert(s@.take(s@.len() as int) =~= s@);
    out
}

/// The text that a reader of Markdown sees: a backslash makes the character
/// behind it stand for itself.
pub open spec fn unescaped(t: Seq<char>) -> Seq<char>
    decreases t.len(),
{
    if t.len() == 0 {
        Seq::empty()
    } else if t[0] == '\\' && t.len() >= 2 {
        seq![t[1]] + unescaped(t.skip(2))
    } else {
        seq![t[0]] + unescaped(t.skip(1))
    }
}

/// `s` with a space for each line break.
pub open spec fn on_one_line(s: Seq<char>) -> Seq<char> {
    s.map_values(
        |c: char|
            if is_line_break(c) {
                ' '
            } else {
                c
            },
    )
}

/// How many `|` of `t` separate cells, because no backslash makes them stand
/// for themselves.
pub open spec fn bare_pipes(t: Seq<char>) -> nat
    decreases t.len(),
{
    if t.len() == 0 {
        0
    } else if t[0] == '\\' && t.len() >= 2 {
        bare_pipes(t.skip(2))
    } else if t[0] == '|' {
        1 + bare_pipes(t.skip(1))
    } else {
        bare_pipes(t.skip(1))
    }
}

/// Escaping goes character by character.
pub proof fn lemma_escaped_front(s: Seq<char>)
    requires
        s.len() > 0,
    ensures
        escaped(s) == escaped_char(s[0]) + escaped(s.skip(1)),
    decreases s.len(),
{
    if s.len() == 1 {
        assert(escaped(s.drop_last()) =~= Seq::empty());
        assert(escaped(s.skip(1)) =~= Seq::empty());
        assert(escaped(s) =~= escaped_char(s[0]) + escaped(s.skip(1)));
    } else {
        lemma_escaped_front(s.drop_last());
        assert(s.drop_last().skip(1) =~= s.skip(1).drop_last());
        assert(escaped(s) =~= escaped_char(s[0]) + escaped(s.skip(1)));
    }
}

/// A reader sees the escaped text as it was, but for line breaks, which are
/// shown as spaces.
pub proof fn law_escaping_is_read_back(s: Seq<char>)
    ensures
        unescaped(escaped(s)) == on_one_line(s),
    decreases s.len(),
{
    if s.len() == 0 {
        assert(on_one_line(s) =~= Seq::empty());
    } else {
        law_escaping_is_read_back(s.skip(1));
        lemma_escaped_front(s);
        let rest = escaped(s.skip(1));
        let t = escaped(s);
        if is_markup(s[0]) {
            assert(t.skip(2) =~= rest);
        } else {
            assert(t.skip(1) =~= rest);
        }
        assert(on_one_line(s) =~= seq![on_one_line(s)[0]] + on_one_line(s.skip(1)));
    }
}

/// An escaped text stays on one line.
pub proof fn law_escaped_text_has_no_line_break(s: Seq<char>, i: int)
    requires
        0 <= i < escaped(s).len(),
    ensures
        !is_line_break(escaped(s)[i]),
    decreases s.len(),
{
    let rest = escaped(s.drop_last());
    if i < rest.len() {
        law_escaped_text_has_no_line_break(s.drop_last(), i);
    }
}

/// An escaped text separates no cells, whatever follows it.
pub proof fn law_escaped_text_separates_no_cells(s: Seq<char>, rest: Seq<char>)
    ensures
        bare_pipes(escaped(s) + rest) == bare_pipes(rest),
    decreases s.len(),
{
    let t = escaped(s) + rest;
    if s.len() == 0 {
        assert(t =~= rest);
    } else {
        law_escaped_text_separates_no_cells(s.skip(1), rest);
        lemma_escaped_front(s);
        if is_markup(s[0]) {
            assert(t.skip(2) =~= escaped(s.skip(1)) + rest);
        } else {
            assert(t.skip(1) =~= escaped(s.skip(1)) + rest);
        }
    }
}

} // verus!
