//! A later run finds what an earlier one has packed.

use crate::document::{
    body_bytes, file_line_text, pack_bytes, preamble_text, section_bytes, section_head_text,
    section_tail_text, sections_bytes, unreadable_text,
};
use crate::model::MdFile;
use crate::plan::{covers, law_each_file_in_one_pack, lemma_cover_order};
use crate::resume::{
    file_mark, first_line, is_first_place, lemma_head_ends_at, lemma_line_feed_found,
    lemma_line_feed_place, line_feed_at, listed_path, listed_paths, not_packed, other_lines,
    path_end,
};
use crate::text::{digits, is_digit, lemma_digits_show, occurs_at, occurs_in};
use crate::timestamp::{is_timestamp_char, law_timestamp_text_is_plain, timestamp_text};
use vstd::prelude::*;
use vstd::utf8::{
    decode_utf8, decode_utf8_encode_utf8, encode_scalar, encode_utf8, encode_utf8_decode_utf8,
    encode_utf8_valid_utf8, is_char_boundary_iff_not_is_continuation_byte, pop_first_scalar,
    valid_utf8, valid_utf8_concat, valid_utf8_split,
};

verus! {

/// Whether a path can be told from what follows it on the line that names the
/// file: it stays on that line and holds nothing like the end of a path.
pub open spec fn is_recoverable(rel: Seq<char>) -> bool {
    !rel.contains('\n') && !occurs_in(rel + " "@, path_end())
}

/// Whether contents are text, or could not be read.
pub open spec fn is_text(contents: Option<Vec<u8>>) -> bool {
    contents matches Some(bytes) ==> valid_utf8(bytes@)
}

/// The bytes of two texts stand one after the other.
pub proof fn lemma_encode_joins(a: Seq<char>, b: Seq<char>)
    ensures
        encode_utf8(a + b) == encode_utf8(a) + encode_utf8(b),
    decreases a.len(),
{
    if a.len() == 0 {
        assert(a + b =~= b);
        assert(encode_utf8(a) + encode_utf8(b) =~= encode_utf8(b));
    } else {
        lemma_encode_joins(a.drop_first(), b);
        assert((a + b).drop_first() =~= a.drop_first() + b);
        assert(encode_utf8(a + b) =~= encode_utf8(a) + encode_utf8(b));
    }
}

proof fn lemma_scalar_bytes(c: char)
    ensures
        encode_scalar(c as u32).len() > 0,
        c as u32 <= 0x7f ==> encode_scalar(c as u32) == seq![c as u8],
        c != '\n' ==> forall|i: int|
            0 <= i < encode_scalar(c as u32).len() ==> #[trigger] encode_scalar(c as u32)[i] != 10,
{
    let u = c as u32;
    assert(u <= 0x7f ==> (u & 0x7f) as u8 == u as u8) by (bit_vector);
    assert(0xC0u8 | ((u >> 6) & 0x1F) as u8 >= 0x80u8) by (bit_vector);
    assert(0xE0u8 | ((u >> 12) & 0x0F) as u8 >= 0x80u8) by (bit_vector);
    assert(0xF0u8 | ((u >> 18) & 0x7) as u8 >= 0x80u8) by (bit_vector);
    assert(0x80u8 | (u & 0x3F) as u8 >= 0x80u8) by (bit_vector);
    assert(0x80u8 | ((u >> 6) & 0x3F) as u8 >= 0x80u8) by (bit_vector);
    assert(0x80u8 | ((u >> 12) & 0x3F) as u8 >= 0x80u8) by (bit_vector);
}

proof fn lemma_no_line_feed_encoded(s: Seq<char>)
    requires
        !s.contains('\n'),
    ensures
        forall|i: int| 0 <= i < encode_utf8(s).len() ==> #[trigger] encode_utf8(s)[i] != 10,
    decreases s.len(),
{
    if s.len() > 0 {
        let rest = s.drop_first();
        let lead = encode_scalar(s[0] as u32);
        assert(!rest.contains('\n')) by {
            if rest.contains('\n') {
                let i = choose|i: int| 0 <= i < rest.len() && rest[i] == '\n';
                assert(s[i + 1] == '\n');
            }
        }
        lemma_no_line_feed_encoded(rest);
        lemma_scalar_bytes(s[0]);
        assert(s[0] != '\n') by {
            assert(s.contains(s[0]));
        }
        assert(encode_utf8(s) == lead + encode_utf8(rest));
        assert forall|i: int| 0 <= i < encode_utf8(s).len() implies #[trigger] encode_utf8(s)[i]
            != 10 by {
            if i < lead.len() {
                assert(encode_utf8(s)[i] == lead[i]);
            } else {
                assert(encode_utf8(s)[i] == encode_utf8(rest)[i - lead.len()]);
            }
        }
    }
}

/// Whether `bytes` are whole lines of text.
spec fn whole_lines(bytes: Seq<u8>) -> bool {
    valid_utf8(bytes) && (bytes.len() == 0 || bytes.last() == 10)
}

proof fn lemma_valid_around_line_feed(bytes: Seq<u8>, at: int)
    requires
        valid_utf8(bytes),
        0 <= at < bytes.len(),
        bytes[at] == 10,
    ensures
        valid_utf8(bytes.take(at)),
        valid_utf8(bytes.skip(at + 1)),
{
    is_char_boundary_iff_not_is_continuation_byte(bytes, at);
    valid_utf8_split(bytes, at);
    let tail = bytes.subrange(at, bytes.len() as int);
    assert(bytes.subrange(0, at) =~= bytes.take(at));
    assert(tail[0] == 10);
    assert(pop_first_scalar(tail) =~= bytes.skip(at + 1));
}

proof fn lemma_valid_without_return(line: Seq<u8>)
    requires
        valid_utf8(line),
        line.len() > 0,
        line.last() == 13,
    ensures
        valid_utf8(line.drop_last()),
{
    let at = line.len() - 1;
    is_char_boundary_iff_not_is_continuation_byte(line, at);
    valid_utf8_split(line, at);
    assert(line.subrange(0, at) =~= line.drop_last());
}

proof fn lemma_lines_add_up(front: Seq<u8>, back: Seq<u8>)
    requires
        whole_lines(front),
    ensures
        listed_paths(front + back) == listed_paths(front).union(listed_paths(back)),
    decreases front.len(),
{
    let all = front + back;
    if front.len() == 0 {
        assert(all =~= back);
        assert(listed_paths(front).union(listed_paths(back)) =~= listed_paths(back));
    } else {
        lemma_line_feed_place(front);
        let at = line_feed_at(front);
        assert(at < front.len()) by {
            if at == front.len() {
                assert(front[front.len() - 1] != 10);
            }
        }
        assert forall|i: int| 0 <= i < at implies all[i] != 10 by {
            assert(all[i] == front[i]);
        }
        lemma_line_feed_found(all, at);
        lemma_valid_around_line_feed(front, at);
        assert(all.take(at) =~= front.take(at));
        assert(first_line(all) == first_line(front));
        if front.take(at).len() > 0 && front.take(at).last() == 13 {
            lemma_valid_without_return(front.take(at));
        }
        assert(valid_utf8(first_line(all)));
        let rest = other_lines(front);
        assert(other_lines(all) =~= rest + back);
        if rest.len() > 0 {
            assert(rest.last() == front.last());
        }
        lemma_lines_add_up(rest, back);
        assert(listed_paths(all) =~= listed_paths(front).union(listed_paths(back)));
    }
}

proof fn lemma_file_line_lists(file: MdFile)
    requires
        is_recoverable(file.rel_unix@),
    ensures
        listed_path(file_line_text(file)) == Some(file.rel_unix@),
        !file_line_text(file).contains('\n'),
        file_line_text(file).len() > 0,
        file_line_text(file).last() == '>',
{
    let rel = file.rel_unix@;
    let time = timestamp_text(file.mtime);
    let line = file_line_text(file);
    reveal_strlit("<!-- File: ");
    reveal_strlit(" | Last Modified: ");
    reveal_strlit(" -->");
    reveal_strlit(" | ");
    reveal_strlit(" ");
    assert(line.subrange(0, file_mark().len() as int) =~= file_mark());
    let rest = line.skip(file_mark().len() as int);
    assert(rest =~= rel + " | Last Modified: "@ + time + " -->"@);
    let at = rel.len() as int;
    assert(rest.subrange(at, at + 3) =~= " | "@);
    assert forall|j: int| 0 <= j < at implies !occurs_at(rest, path_end(), j) by {
        if occurs_at(rest, path_end(), j) {
            let found = rest.subrange(j, j + 3);
            assert(found[0] == ' ' && found[1] == '|' && found[2] == ' ');
            assert(rest[j] == ' ' && rest[j + 1] == '|' && rest[j + 2] == ' ');
            assert(rest[at] == ' ');
            assert(j + 1 != at);
            assert((rel + " "@).subrange(j, j + 3) =~= " | "@);
            assert(occurs_at(rel + " "@, path_end(), j));
        }
    }
    assert(is_first_place(rest, path_end(), at));
    assert(occurs_in(rest, path_end()));
    lemma_head_ends_at(rest, path_end(), at);
    assert(rest.take(at) =~= rel);
    law_timestamp_text_is_plain(file.mtime);
    assert forall|i: int| 0 <= i < line.len() implies line[i] != '\n' by {
        let m = file_mark().len() as int;
        let b = m + rel.len();
        let t = b + " | Last Modified: "@.len();
        let e = t + time.len();
        if i < m {
            assert(line[i] == "<!-- File: "@[i]);
        } else if i < b {
            assert(line[i] == rel[i - m]);
            assert(rel.contains(rel[i - m]));
        } else if i < t {
            assert(line[i] == " | Last Modified: "@[i - b]);
        } else if i < e {
            assert(line[i] == time[i - t]);
            assert(is_timestamp_char(time[i - t]));
        } else {
            assert(line[i] == " -->"@[i - e]);
        }
    }
}

proof fn lemma_section_is_read(file: MdFile, tail: Seq<u8>)
    requires
        is_recoverable(file.rel_unix@),
    ensures
        listed_paths(encode_utf8(section_head_text(file)) + tail).contains(file.rel_unix@),
{
    let line = file_line_text(file);
    let head = section_head_text(file);
    let after = "\n## Path: "@ + file.rel_unix@ + "\n\n"@;
    lemma_file_line_lists(file);
    assert(head =~= line + after);
    lemma_encode_joins(line, after);
    let l = encode_utf8(line);
    let a = encode_utf8(after);
    let bytes = encode_utf8(head) + tail;
    lemma_no_line_feed_encoded(line);
    assert(a.len() > 0 && a[0] == 10) by {
        reveal_strlit("\n## Path: ");
        assert(after[0] == '\n');
        lemma_scalar_bytes('\n');
        assert(a == encode_scalar(after[0] as u32) + encode_utf8(after.drop_first()));
    }
    assert(bytes =~= l + a + tail);
    assert forall|i: int| 0 <= i < l.len() implies bytes[i] != 10 by {
        assert(bytes[i] == l[i]);
    }
    assert(bytes[l.len() as int] == a[0]);
    lemma_line_feed_found(bytes, l.len() as int);
    assert(bytes.take(l.len() as int) =~= l);
    assert(l.len() > 0 && l.last() != 13) by {
        let c = line.last();
        lemma_encode_joins(line.drop_last(), seq![c]);
        assert(line =~= line.drop_last() + seq![c]);
        lemma_ascii_encoded(c);
        assert(l.last() == c as u8);
    }
    assert(first_line(bytes) == l);
    encode_utf8_valid_utf8(line);
    encode_utf8_decode_utf8(line);
}

proof fn lemma_sections_are_whole_lines(
    files: Seq<MdFile>,
    start: int,
    end: int,
    contents: Seq<Option<Vec<u8>>>,
)
    requires
        forall|i: int| 0 <= i < end - start ==> is_text(#[trigger] contents[i]),
    ensures
        whole_lines(sections_bytes(files, start, end, contents)),
    decreases end - start,
{
    if start < end {
        lemma_sections_are_whole_lines(files, start, end - 1, contents);
        let file = files[end - 1];
        let body = body_bytes(contents[end - 1 - start]);
        let before = sections_bytes(files, start, end - 1, contents);
        let head = encode_utf8(section_head_text(file));
        let tail = encode_utf8(section_tail_text());
        assert(is_text(contents[end - 1 - start]));
        encode_utf8_valid_utf8(unreadable_text());
        encode_utf8_valid_utf8(section_head_text(file));
        encode_utf8_valid_utf8(section_tail_text());
        valid_utf8_concat(head, body);
        valid_utf8_concat(head + body, tail);
        valid_utf8_concat(before, head + body + tail);
        assert(section_tail_text().len() > 0 && section_tail_text().last() == '\n') by {
            reveal_strlit("\n---\n\n");
        }
        lemma_ends_with_line_feed(section_tail_text());
    }
}

proof fn lemma_ascii_encoded(c: char)
    requires
        c as u32 <= 0x7f,
    ensures
        encode_utf8(seq![c]) == seq![c as u8],
{
    lemma_scalar_bytes(c);
    let one = seq![c];
    assert(one.drop_first() =~= Seq::<char>::empty());
    assert(encode_utf8(one.drop_first()) =~= Seq::<u8>::empty());
    assert(encode_utf8(one) == encode_scalar(one[0] as u32) + encode_utf8(one.drop_first()));
    assert(encode_utf8(one) =~= seq![c as u8]);
}

proof fn lemma_ends_with_line_feed(text: Seq<char>)
    requires
        text.len() > 0,
        text.last() == '\n',
    ensures
        encode_utf8(text).len() > 0,
        encode_utf8(text).last() == 10,
{
    lemma_encode_joins(text.drop_last(), seq!['\n']);
    assert(text =~= text.drop_last() + seq!['\n']);
    lemma_ascii_encoded('\n');
}

/// A pack holds the section of each of its files behind those of the files before
/// it.
pub proof fn lemma_sections_hold(
    files: Seq<MdFile>,
    start: int,
    end: int,
    contents: Seq<Option<Vec<u8>>>,
    i: int,
) -> (rest: Seq<u8>)
    requires
        start <= i < end,
    ensures
        sections_bytes(files, start, end, contents) == sections_bytes(files, start, i, contents) + (
        section_bytes(files[i], contents[i - start]) + rest),
    decreases end - i,
{
    let before = sections_bytes(files, start, i, contents);
    let own = section_bytes(files[i], contents[i - start]);
    if i == end - 1 {
        assert(before + own =~= before + (own + Seq::<u8>::empty()));
        Seq::empty()
    } else {
        let rest = lemma_sections_hold(files, start, end - 1, contents, i);
        let last = section_bytes(files[end - 1], contents[end - 1 - start]);
        assert(before + (own + rest) + last =~= before + (own + (rest + last)));
        rest + last
    }
}

/// What a run packs, a later one finds in the pack: the path of each file is
/// among those that the pack's lines name, if it can be told from what follows
/// it there and the contents before it in the pack are text.
pub proof fn law_packed_file_is_found(
    vault_name: Seq<char>,
    pack_num: nat,
    generation: Seq<char>,
    files: Seq<MdFile>,
    start: int,
    end: int,
    contents: Seq<Option<Vec<u8>>>,
    i: int,
)
    requires
        start <= i < end,
        is_recoverable(files[i].rel_unix@),
        forall|j: int| 0 <= j < i - start ==> is_text(#[trigger] contents[j]),
    ensures
        listed_paths(
            pack_bytes(vault_name, pack_num, generation, files, start, end, contents),
        ).contains(files[i].rel_unix@),
{
    let file = files[i];
    let text = preamble_text(vault_name, pack_num, generation);
    let opening = encode_utf8(text);
    let before = sections_bytes(files, start, i, contents);
    let rest = lemma_sections_hold(files, start, end, contents, i);
    let head = encode_utf8(section_head_text(file));
    let body = body_bytes(contents[i - start]);
    let tail = encode_utf8(section_tail_text());
    lemma_sections_are_whole_lines(files, start, i, contents);
    assert(text.len() > 0 && text.last() == '\n') by {
        reveal_strlit(" -->\n\n");
    }
    lemma_ends_with_line_feed(text);
    encode_utf8_valid_utf8(text);
    valid_utf8_concat(opening, before);
    assert(whole_lines(opening + before));
    let back = head + (body + tail + rest);
    lemma_section_is_read(file, body + tail + rest);
    lemma_lines_add_up(opening + before, back);
    assert(pack_bytes(vault_name, pack_num, generation, files, start, end, contents) =~= opening
        + before + back);
}

/// When all packs of a run are written and read again, a run that resumes finds
/// nothing left to pack.
pub proof fn law_finished_run_leaves_nothing(
    vault_name: Seq<char>,
    first_num: nat,
    generation: Seq<char>,
    files: Seq<MdFile>,
    packs: Seq<(usize, usize)>,
    contents: Seq<Seq<Option<Vec<u8>>>>,
    found: Set<Seq<char>>,
)
    requires
        covers(packs, files.len() as int),
        forall|i: int| 0 <= i < files.len() ==> is_recoverable((#[trigger] files[i]).rel_unix@),
        forall|k: int, j: int|
            0 <= k < packs.len() && 0 <= j < packs[k].1 - packs[k].0 - 1 ==> is_text(
                #[trigger] contents[k][j],
            ),
        forall|k: int|
            0 <= k < packs.len() ==> listed_paths(
                pack_bytes(
                    vault_name,
                    first_num + k as nat,
                    generation,
                    files,
                    (#[trigger] packs[k]).0 as int,
                    packs[k].1 as int,
                    contents[k],
                ),
            ).subset_of(found),
    ensures
        files.filter(not_packed(found)) == Seq::<MdFile>::empty(),
{
    assert forall|i: int| 0 <= i < files.len() implies found.contains(
        (#[trigger] files[i]).rel_unix@,
    ) by {
        law_each_file_in_one_pack(packs, files.len() as int, i);
        let k = choose|k: int|
            0 <= k < packs.len() && (#[trigger] packs[k]).0 <= i < packs[k].1;
        law_packed_file_is_found(
            vault_name,
            first_num + k as nat,
            generation,
            files,
            packs[k].0 as int,
            packs[k].1 as int,
            contents[k],
            i,
        );
    }
    lemma_all_skipped(files, found);
}

proof fn lemma_all_skipped(files: Seq<MdFile>, found: Set<Seq<char>>)
    requires
        forall|i: int| 0 <= i < files.len() ==> found.contains((#[trigger] files[i]).rel_unix@),
    ensures
        files.filter(not_packed(found)) == Seq::<MdFile>::empty(),
    decreases files.len(),
{
    if files.len() > 0 {
        let rest = files.drop_last();
        assert forall|i: int| 0 <= i < rest.len() implies found.contains(
            (#[trigger] rest[i]).rel_unix@,
        ) by {
            assert(rest[i] == files[i]);
        }
        lemma_all_skipped(rest, found);
        assert(files =~= rest.push(files.last()));
        assert(files[files.len() - 1] == files.last());
        rest.lemma_filter_push(files.last(), not_packed(found));
    } else {
        assert(files.filter(not_packed(found)) =~= Seq::empty());
    }
}

/// Whether `bytes` are text of which no line names a file.
pub open spec fn names_no_file(bytes: Seq<u8>) -> bool {
    valid_utf8(bytes) && listed_paths(bytes) == Set::<Seq<char>>::empty()
}

proof fn lemma_marked_without_return(line: Seq<u8>)
    requires
        valid_utf8(line),
        line.len() > 0,
        line.last() == 13,
        listed_path(decode_utf8(line)) is None,
    ensures
        listed_path(decode_utf8(line.drop_last())) is None,
{
    lemma_valid_without_return(line);
    let s = decode_utf8(line.drop_last());
    decode_utf8_encode_utf8(line.drop_last());
    lemma_encode_joins(s, seq!['\r']);
    lemma_ascii_encoded('\r');
    let t = s + seq!['\r'];
    assert(encode_utf8(t) =~= line);
    encode_utf8_decode_utf8(t);
    if file_mark().is_prefix_of(s) {
        assert(t.subrange(0, file_mark().len() as int) =~= file_mark());
    }
}

/// A line feed at the end of text makes no line name a file.
proof fn lemma_ended_names_no_file(bytes: Seq<u8>)
    requires
        names_no_file(bytes),
    ensures
        names_no_file(bytes.push(10)),
        whole_lines(bytes.push(10)),
    decreases bytes.len(),
{
    let ended = bytes.push(10);
    lemma_line_feed_place(bytes);
    lemma_ascii_encoded('\n');
    encode_utf8_valid_utf8(seq!['\n']);
    valid_utf8_concat(bytes, seq![10u8]);
    assert(ended =~= bytes + seq![10u8]);
    let at = line_feed_at(bytes);
    assert forall|i: int| 0 <= i < at implies ended[i] != 10 by {
        assert(ended[i] == bytes[i]);
    }
    lemma_line_feed_found(ended, at);
    assert(ended.take(at) =~= bytes.take(at));
    if at < bytes.len() {
        lemma_valid_around_line_feed(bytes, at);
        assert(first_line(ended) == first_line(bytes));
        if bytes.take(at).len() > 0 && bytes.take(at).last() == 13 {
            lemma_valid_without_return(bytes.take(at));
        }
        let rest = other_lines(bytes);
        assert(other_lines(ended) =~= rest.push(10));
        assert(listed_paths(rest) =~= Set::<Seq<char>>::empty()) by {
            assert(listed_paths(rest).subset_of(listed_paths(bytes)));
        }
        assert(listed_path(decode_utf8(first_line(bytes))) is None) by {
            match listed_path(decode_utf8(first_line(bytes))) {
                Some(path) => {
                    assert(listed_paths(bytes).contains(path));
                },
                None => {},
            }
        }
        lemma_ended_names_no_file(rest);
    } else {
        assert(bytes.take(at) =~= bytes);
        assert(other_lines(ended) =~= Seq::<u8>::empty());
        if bytes.len() == 0 {
            reveal_strlit("<!-- File: ");
            assert(first_line(ended) =~= Seq::<u8>::empty());
            assert(decode_utf8(first_line(ended)).len() == 0) by {
                assert(encode_utf8(Seq::<char>::empty()) =~= Seq::<u8>::empty());
                encode_utf8_decode_utf8(Seq::<char>::empty());
            }
        } else {
            assert(first_line(bytes) == bytes);
            assert(listed_path(decode_utf8(bytes)) is None) by {
                match listed_path(decode_utf8(bytes)) {
                    Some(path) => {
                        assert(listed_paths(bytes).contains(path));
                    },
                    None => {},
                }
            }
            if bytes.last() == 13 {
                lemma_marked_without_return(bytes);
                lemma_valid_without_return(bytes);
            }
        }
        assert(listed_paths(other_lines(ended)) =~= Set::<Seq<char>>::empty());
    }
    assert(listed_paths(ended) =~= Set::<Seq<char>>::empty());
}

/// A line of text that does not name a file, and the line feed that ends it.
proof fn lemma_other_line(line: Seq<char>)
    requires
        !line.contains('\n'),
        listed_path(line) is None,
    ensures
        names_no_file(encode_utf8(line + seq!['\n'])),
        whole_lines(encode_utf8(line + seq!['\n'])),
{
    let bytes = encode_utf8(line);
    lemma_no_line_feed_encoded(line);
    lemma_line_feed_found(bytes, bytes.len() as int);
    assert(bytes.take(bytes.len() as int) =~= bytes);
    encode_utf8_valid_utf8(line);
    encode_utf8_decode_utf8(line);
    assert(listed_paths(other_lines(bytes)) =~= Set::<Seq<char>>::empty());
    assert(listed_paths(bytes) =~= Set::<Seq<char>>::empty());
    lemma_ended_names_no_file(bytes);
    lemma_encode_joins(line, seq!['\n']);
    lemma_ascii_encoded('\n');
    assert(encode_utf8(line + seq!['\n']) =~= bytes.push(10));
}

/// Lines that name no file, one after the other.
proof fn lemma_other_lines_join(a: Seq<u8>, b: Seq<u8>)
    requires
        names_no_file(a),
        whole_lines(a),
        names_no_file(b),
        whole_lines(b),
    ensures
        names_no_file(a + b),
        whole_lines(a + b),
{
    lemma_lines_add_up(a, b);
    valid_utf8_concat(a, b);
    assert(listed_paths(a).union(listed_paths(b)) =~= Set::<Seq<char>>::empty());
    if b.len() == 0 {
        assert(a + b =~= a);
    }
}

proof fn lemma_preamble_names_no_file(vault_name: Seq<char>, pack_num: nat, generated: i64)
    requires
        !vault_name.contains('\n'),
    ensures
        names_no_file(encode_utf8(preamble_text(vault_name, pack_num, timestamp_text(generated)))),
        whole_lines(encode_utf8(preamble_text(vault_name, pack_num, timestamp_text(generated)))),
{
    let time = timestamp_text(generated);
    let number = digits(pack_num);
    let feed = seq!['\n'];
    reveal_strlit("<!-- File: ");
    reveal_strlit("# Vault Pack: ");
    reveal_strlit("\n<!-- Pack Number: ");
    reveal_strlit(" -->\n<!-- Generation Date: ");
    reveal_strlit(" -->\n\n");
    reveal_strlit("<!-- Pack Number: ");
    reveal_strlit("<!-- Generation Date: ");
    reveal_strlit(" -->");
    let a = "# Vault Pack: "@ + vault_name;
    let b = "<!-- Pack Number: "@ + number + " -->"@;
    let c = "<!-- Generation Date: "@ + time + " -->"@;
    let d = Seq::<char>::empty();
    assert(!number.contains('\n')) by {
        lemma_digits_show(pack_num);
        if number.contains('\n') {
            let i = choose|i: int| 0 <= i < number.len() && number[i] == '\n';
            assert(is_digit(number[i]));
        }
    }
    assert(!time.contains('\n')) by {
        law_timestamp_text_is_plain(generated);
        if time.contains('\n') {
            let i = choose|i: int| 0 <= i < time.len() && time[i] == '\n';
            assert(is_timestamp_char(time[i]));
        }
    }
    lemma_no_line_feed_joins("# Vault Pack: "@, vault_name);
    lemma_no_line_feed_joins("<!-- Pack Number: "@, number);
    lemma_no_line_feed_joins("<!-- Pack Number: "@ + number, " -->"@);
    lemma_no_line_feed_joins("<!-- Generation Date: "@, time);
    lemma_no_line_feed_joins("<!-- Generation Date: "@ + time, " -->"@);
    lemma_unmarked(a, 0);
    lemma_unmarked(b, 5);
    lemma_unmarked(c, 5);
    assert(listed_path(d) is None);
    lemma_other_line(a);
    lemma_other_line(b);
    lemma_other_line(c);
    lemma_other_line(d);
    lemma_encode_joins(a + feed, b + feed);
    lemma_encode_joins(a + feed + (b + feed), c + feed);
    lemma_encode_joins(a + feed + (b + feed) + (c + feed), d + feed);
    lemma_other_lines_join(encode_utf8(a + feed), encode_utf8(b + feed));
    lemma_other_lines_join(encode_utf8(a + feed + (b + feed)), encode_utf8(c + feed));
    lemma_other_lines_join(
        encode_utf8(a + feed + (b + feed) + (c + feed)),
        encode_utf8(d + feed),
    );
    assert(preamble_text(vault_name, pack_num, time) =~= a + feed + (b + feed) + (c + feed) + (d
        + feed));
}

/// A line that differs from the mark at `i` does not name a file.
proof fn lemma_unmarked(line: Seq<char>, i: int)
    requires
        0 <= i < file_mark().len(),
        i < line.len(),
        line[i] != file_mark()[i],
    ensures
        listed_path(line) is None,
{
    if file_mark().is_prefix_of(line) {
        assert(line.subrange(0, file_mark().len() as int)[i] == line[i]);
    }
}

proof fn lemma_no_line_feed_joins(a: Seq<char>, b: Seq<char>)
    requires
        !a.contains('\n'),
        !b.contains('\n'),
    ensures
        !(a + b).contains('\n'),
{
    let t = a + b;
    if t.contains('\n') {
        let i = choose|i: int| 0 <= i < t.len() && t[i] == '\n';
        if i < a.len() {
            assert(a[i] == '\n');
        } else {
            assert(b[i - a.len()] == '\n');
        }
    }
}

/// The lines of a section name its file and no other.
proof fn lemma_section_names_its_file(file: MdFile, contents: Option<Vec<u8>>)
    requires
        is_recoverable(file.rel_unix@),
        contents matches Some(bytes) ==> names_no_file(bytes@),
    ensures
        listed_paths(section_bytes(file, contents)) == set![file.rel_unix@],
{
    let rel = file.rel_unix@;
    let feed = seq!['\n'];
    let none = Seq::<char>::empty();
    reveal_strlit("<!-- File: ");
    reveal_strlit("\n## Path: ");
    reveal_strlit("\n\n");
    reveal_strlit("\n---\n\n");
    reveal_strlit("## Path: ");
    reveal_strlit("---");
    reveal_strlit("*[File contents unreadable]*\n");
    reveal_strlit("*[File contents unreadable]*");
    let line = file_line_text(file);
    let path = "## Path: "@ + rel;
    let body = body_bytes(contents);
    let rule = "---"@;
    lemma_file_line_lists(file);
    lemma_no_line_feed_joins("## Path: "@, rel);
    lemma_unmarked(path, 0);
    lemma_unmarked(rule, 0);
    lemma_unmarked("*[File contents unreadable]*"@, 0);
    lemma_other_line(path);
    lemma_other_line(rule);
    lemma_other_line(none);
    lemma_other_line("*[File contents unreadable]*"@);
    assert(unreadable_text() =~= "*[File contents unreadable]*"@ + feed);
    assert(names_no_file(body));
    lemma_ended_names_no_file(body);
    // What stands behind the line that names the file.
    let p = encode_utf8(path + feed);
    let n = encode_utf8(none + feed);
    let r = encode_utf8(rule + feed);
    let b = body.push(10);
    lemma_other_lines_join(p, n);
    lemma_other_lines_join(p + n, b);
    lemma_other_lines_join(p + n + b, r);
    lemma_other_lines_join(p + n + b + r, n);
    let after = p + n + b + r + n;
    // The line itself.
    let l = encode_utf8(line);
    let whole = section_bytes(file, contents);
    lemma_ascii_encoded('\n');
    lemma_encode_joins(line, feed);
    lemma_encode_joins(line + feed, path + feed);
    lemma_encode_joins(line + feed + (path + feed), none + feed);
    assert(section_head_text(file) =~= line + feed + (path + feed) + (none + feed));
    lemma_encode_joins(feed, rule + feed);
    lemma_encode_joins(feed + (rule + feed), none + feed);
    assert(section_tail_text() =~= feed + (rule + feed) + (none + feed));
    assert(whole =~= l.push(10) + after);
    lemma_no_line_feed_encoded(line);
    assert forall|i: int| 0 <= i < l.len() implies whole[i] != 10 by {
        assert(whole[i] == l[i]);
    }
    lemma_line_feed_found(whole, l.len() as int);
    assert(whole.take(l.len() as int) =~= l);
    assert(l.len() > 0 && l.last() != 13) by {
        let c = line.last();
        lemma_encode_joins(line.drop_last(), seq![c]);
        assert(line =~= line.drop_last() + seq![c]);
        lemma_ascii_encoded(c);
        assert(l.last() == c as u8);
    }
    assert(first_line(whole) == l);
    encode_utf8_valid_utf8(line);
    encode_utf8_decode_utf8(line);
    assert(other_lines(whole) =~= after);
    assert(listed_paths(whole) =~= set![rel]);
}

/// The paths of the files from `start` up to `end`.
pub open spec fn packed_paths(files: Seq<MdFile>, start: int, end: int) -> Set<Seq<char>> {
    files.subrange(start, end).map_values(|file: MdFile| file.rel_unix@).to_set()
}

proof fn lemma_packed_path(files: Seq<MdFile>, start: int, end: int, path: Seq<char>)
    requires
        0 <= start <= end <= files.len(),
    ensures
        packed_paths(files, start, end).contains(path) <==> exists|i: int|
            start <= i < end && (#[trigger] files[i]).rel_unix@ == path,
{
    let paths = files.subrange(start, end).map_values(|file: MdFile| file.rel_unix@);
    if packed_paths(files, start, end).contains(path) {
        let j = choose|j: int| 0 <= j < paths.len() && paths[j] == path;
        assert(files[start + j].rel_unix@ == path);
    }
    if exists|i: int| start <= i < end && (#[trigger] files[i]).rel_unix@ == path {
        let i = choose|i: int| start <= i < end && (#[trigger] files[i]).rel_unix@ == path;
        assert(paths[i - start] == path);
        assert(paths.contains(path));
    }
}

proof fn lemma_sections_name_their_files(
    files: Seq<MdFile>,
    start: int,
    end: int,
    contents: Seq<Option<Vec<u8>>>,
)
    requires
        0 <= start <= end <= files.len(),
        forall|i: int| start <= i < end ==> is_recoverable((#[trigger] files[i]).rel_unix@),
        forall|i: int|
            0 <= i < end - start ==> ((#[trigger] contents[i]) matches Some(bytes)
                ==> names_no_file(bytes@)),
    ensures
        listed_paths(sections_bytes(files, start, end, contents)) == packed_paths(
            files,
            start,
            end,
        ),
    decreases end - start,
{
    if start < end {
        let last = end - 1;
        let before = sections_bytes(files, start, last, contents);
        let own = section_bytes(files[last], contents[last - start]);
        lemma_sections_name_their_files(files, start, last, contents);
        assert forall|i: int| 0 <= i < last - start implies is_text(#[trigger] contents[i]) by {}
        lemma_sections_are_whole_lines(files, start, last, contents);
        lemma_section_names_its_file(files[last], contents[last - start]);
        lemma_lines_add_up(before, own);
        assert forall|path: Seq<char>|
            listed_paths(before + own).contains(path) <==> #[trigger] packed_paths(
                files,
                start,
                end,
            ).contains(path) by {
            lemma_packed_path(files, start, last, path);
            lemma_packed_path(files, start, end, path);
        }
        assert(listed_paths(before + own) =~= packed_paths(files, start, end));
    } else {
        assert(sections_bytes(files, start, end, contents) =~= Seq::empty());
        assert(packed_paths(files, start, end) =~= Set::empty()) by {
            assert forall|path: Seq<char>| !(#[trigger] packed_paths(files, start, end).contains(
                path,
            )) by {
                lemma_packed_path(files, start, end, path);
            }
        }
    }
}

/// A pack reads back exactly: the paths that its lines name are those of its
/// files and no others, if the vault name is one line, each path can be told
/// from what follows it, and the contents are text of which no line names a
/// file.
pub proof fn law_pack_reads_back_exactly(
    vault_name: Seq<char>,
    pack_num: nat,
    generated: i64,
    files: Seq<MdFile>,
    start: int,
    end: int,
    contents: Seq<Option<Vec<u8>>>,
)
    requires
        0 <= start <= end <= files.len(),
        !vault_name.contains('\n'),
        forall|i: int| start <= i < end ==> is_recoverable((#[trigger] files[i]).rel_unix@),
        forall|i: int|
            0 <= i < end - start ==> ((#[trigger] contents[i]) matches Some(bytes)
                ==> names_no_file(bytes@)),
    ensures
        listed_paths(
            pack_bytes(
                vault_name,
                pack_num,
                timestamp_text(generated),
                files,
                start,
                end,
                contents,
            ),
        ) == packed_paths(files, start, end),
{
    let opening = encode_utf8(preamble_text(vault_name, pack_num, timestamp_text(generated)));
    let sections = sections_bytes(files, start, end, contents);
    lemma_preamble_names_no_file(vault_name, pack_num, generated);
    lemma_sections_name_their_files(files, start, end, contents);
    lemma_lines_add_up(opening, sections);
    assert(listed_paths(opening).union(listed_paths(sections)) =~= listed_paths(sections));
}

/// The paths that the first `count` packs of a run name together.
pub open spec fn run_paths(
    vault_name: Seq<char>,
    first_num: nat,
    generation: Seq<char>,
    files: Seq<MdFile>,
    packs: Seq<(usize, usize)>,
    contents: Seq<Seq<Option<Vec<u8>>>>,
    count: nat,
) -> Set<Seq<char>>
    decreases count,
{
    if count == 0 {
        Set::empty()
    } else {
        let k = (count - 1) as nat;
        run_paths(vault_name, first_num, generation, files, packs, contents, k).union(
            listed_paths(
                pack_bytes(
                    vault_name,
                    first_num + k,
                    generation,
                    files,
                    packs[k as int].0 as int,
                    packs[k as int].1 as int,
                    contents[k as int],
                ),
            ),
        )
    }
}

/// A run reads back exactly: when all its packs are written and read again, the
/// paths found are those of its files and no others, under the conditions on
/// which each pack reads back exactly.
pub proof fn law_run_reads_back_exactly(
    vault_name: Seq<char>,
    first_num: nat,
    generated: i64,
    files: Seq<MdFile>,
    packs: Seq<(usize, usize)>,
    contents: Seq<Seq<Option<Vec<u8>>>>,
)
    requires
        covers(packs, files.len() as int),
        !vault_name.contains('\n'),
        forall|i: int| 0 <= i < files.len() ==> is_recoverable((#[trigger] files[i]).rel_unix@),
        forall|k: int, j: int|
            0 <= k < packs.len() && 0 <= j < packs[k].1 - packs[k].0 ==> ((
            #[trigger] contents[k][j]) matches Some(bytes) ==> names_no_file(bytes@)),
    ensures
        run_paths(
            vault_name,
            first_num,
            timestamp_text(generated),
            files,
            packs,
            contents,
            packs.len(),
        ) == packed_paths(files, 0, files.len() as int),
{
    if packs.len() > 0 {
        lemma_first_packs_read_back(
            vault_name,
            first_num,
            generated,
            files,
            packs,
            contents,
            packs.len(),
        );
    } else {
        assert(packed_paths(files, 0, 0) =~= Set::empty()) by {
            assert forall|path: Seq<char>| !(#[trigger] packed_paths(files, 0, 0).contains(
                path,
            )) by {
                lemma_packed_path(files, 0, 0, path);
            }
        }
    }
}

proof fn lemma_first_packs_read_back(
    vault_name: Seq<char>,
    first_num: nat,
    generated: i64,
    files: Seq<MdFile>,
    packs: Seq<(usize, usize)>,
    contents: Seq<Seq<Option<Vec<u8>>>>,
    count: nat,
)
    requires
        covers(packs, files.len() as int),
        0 < count <= packs.len(),
        !vault_name.contains('\n'),
        forall|i: int| 0 <= i < files.len() ==> is_recoverable((#[trigger] files[i]).rel_unix@),
        forall|k: int, j: int|
            0 <= k < packs.len() && 0 <= j < packs[k].1 - packs[k].0 ==> ((
            #[trigger] contents[k][j]) matches Some(bytes) ==> names_no_file(bytes@)),
    ensures
        run_paths(
            vault_name,
            first_num,
            timestamp_text(generated),
            files,
            packs,
            contents,
            count,
        ) == packed_paths(files, 0, packs[count - 1].1 as int),
    decreases count,
{
    let generation = timestamp_text(generated);
    let k = (count - 1) as nat;
    let (start, end) = packs[k as int];
    let (start, end) = (start as int, end as int);
    let earlier = run_paths(vault_name, first_num, generation, files, packs, contents, k);
    let all = run_paths(vault_name, first_num, generation, files, packs, contents, count);
    if k < packs.len() - 1 {
        lemma_cover_order(packs, files.len() as int, k as int, packs.len() - 1);
        assert(packs[packs.len() - 1].0 < packs[packs.len() - 1].1);
    }
    assert(start < end <= files.len());
    law_pack_reads_back_exactly(
        vault_name,
        first_num + k,
        generated,
        files,
        start,
        end,
        contents[k as int],
    );
    if k > 0 {
        assert(packs[k - 1].1 == packs[k as int].0);
        lemma_first_packs_read_back(
            vault_name,
            first_num,
            generated,
            files,
            packs,
            contents,
            k,
        );
    }
    assert forall|path: Seq<char>|
        all.contains(path) <==> #[trigger] packed_paths(files, 0, end).contains(path) by {
        lemma_packed_path(files, 0, start, path);
        lemma_packed_path(files, start, end, path);
        lemma_packed_path(files, 0, end, path);
        if k == 0 {
            assert(!earlier.contains(path));
        }
    }
    assert(all =~= packed_paths(files, 0, end));
}

} // verus!
