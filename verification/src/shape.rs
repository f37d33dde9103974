//! The shape of what the reader gives: whatever the document, every
//! setting read from it is stored under its own map key, its key and value
//! are trimmed and hold no separator, and no field holds the line break.

use crate::codec::{
    decode, is_header, line_break_of, lines_of, read_line, read_lines, start, Reader,
};
use crate::setting::{lemma_without_unchanged, setting_of, SettingView, KEY_VALUE_SEPARATOR};
use crate::table::{key_of, well_keyed};
use crate::text::{
    contains, find, is_trimmed, is_whitespace, lemma_find, occurs_at, split, trim, trim_end,
    trim_start,
};
use vstd::prelude::*;

verus! {

/// Whether a setting has the shape of one read from a document whose line
/// break is `line_break`.
pub open spec fn readable(setting: SettingView, line_break: Seq<char>) -> bool {
    &&& !setting.key.contains(KEY_VALUE_SEPARATOR)
    &&& !setting.value.contains(KEY_VALUE_SEPARATOR)
    &&& is_trimmed(setting.key)
    &&& is_trimmed(setting.value)
    &&& !contains(setting.category, line_break)
    &&& !contains(setting.key, line_break)
    &&& !contains(setting.value, line_break)
}

/// What stands in a part of a sequence stands in the sequence.
proof fn lemma_part_contains(s: Seq<char>, lo: int, hi: int, pat: Seq<char>)
    requires
        0 <= lo <= hi <= s.len(),
        !contains(s, pat),
    ensures
        !contains(s.subrange(lo, hi), pat),
{
    let part = s.subrange(lo, hi);
    lemma_find(s, pat);
    lemma_find(part, pat);
    if let Some(i) = find(part, pat) {
        assert(part.subrange(i, i + pat.len()) =~= s.subrange(lo + i, lo + i + pat.len()));
        assert(occurs_at(s, pat, lo + i));
    }
}

/// Without its leading whitespace a sequence is one of its own ends, and
/// begins with no whitespace.
proof fn lemma_trim_start_shape(s: Seq<char>) -> (lo: int)
    ensures
        0 <= lo <= s.len(),
        trim_start(s) == s.subrange(lo, s.len() as int),
        lo < s.len() ==> !is_whitespace(s[lo]),
    decreases s.len(),
{
    if s.len() > 0 && is_whitespace(s.first()) {
        let lo = lemma_trim_start_shape(s.drop_first());
        assert(s.drop_first().subrange(lo, s.len() - 1) =~= s.subrange(lo + 1, s.len() as int));
        lo + 1
    } else {
        assert(s.subrange(0, s.len() as int) =~= s);
        0
    }
}

/// Without its trailing whitespace a sequence is one of its own
/// beginnings, and ends with no whitespace.
proof fn lemma_trim_end_shape(s: Seq<char>) -> (hi: int)
    ensures
        0 <= hi <= s.len(),
        trim_end(s) == s.subrange(0, hi),
        0 < hi ==> !is_whitespace(s[hi - 1]),
    decreases s.len(),
{
    if s.len() > 0 && is_whitespace(s.last()) {
        let hi = lemma_trim_end_shape(s.drop_last());
        assert(s.drop_last().subrange(0, hi) =~= s.subrange(0, hi));
        hi
    } else {
        assert(s.subrange(0, s.len() as int) =~= s);
        s.len() as int
    }
}

/// A trimmed sequence is a part of the sequence, and is trimmed.
proof fn lemma_trim_shape(s: Seq<char>) -> (ends: (int, int))
    ensures
        0 <= ends.0 <= ends.1 <= s.len(),
        trim(s) == s.subrange(ends.0, ends.1),
        is_trimmed(trim(s)),
{
    let lo = lemma_trim_start_shape(s);
    let rest = s.subrange(lo, s.len() as int);
    let hi = lemma_trim_end_shape(rest);
    assert(rest.subrange(0, hi) =~= s.subrange(lo, lo + hi));
    if hi > 0 {
        assert(trim(s).first() == s[lo]);
        assert(trim(s).last() == rest[hi - 1]);
    }
    (lo, lo + hi)
}

/// A part of a sequence holds no character that the sequence does not hold.
proof fn lemma_part_holds(s: Seq<char>, lo: int, hi: int, c: char)
    requires
        0 <= lo <= hi <= s.len(),
        !s.contains(c),
    ensures
        !s.subrange(lo, hi).contains(c),
{
    let part = s.subrange(lo, hi);
    if part.contains(c) {
        let i = choose|i: int| 0 <= i < part.len() && part[i] == c;
        assert(s[lo + i] == c);
    }
}

/// A split has a piece at least, and no piece holds the pattern.
proof fn lemma_split_pieces(s: Seq<char>, pat: Seq<char>)
    requires
        pat.len() > 0,
    ensures
        split(s, pat).len() >= 1,
        forall|i: int| 0 <= i < split(s, pat).len() ==> !contains(#[trigger] split(s, pat)[i], pat),
    decreases s.len(),
{
    lemma_find(s, pat);
    match find(s, pat) {
        Some(at) => {
            let first = s.take(at);
            let rest = s.skip(at + pat.len());
            lemma_split_pieces(rest, pat);
            lemma_find(first, pat);
            if let Some(j) = find(first, pat) {
                assert(first.subrange(j, j + pat.len()) =~= s.subrange(j, j + pat.len()));
                assert(occurs_at(s, pat, j));
            }
            assert forall|i: int| 0 <= i < split(s, pat).len() implies !contains(
                #[trigger] split(s, pat)[i],
                pat,
            ) by {
                if i > 0 {
                    assert(split(s, pat)[i] == split(rest, pat)[i - 1]);
                }
            }
        },
        None => {},
    }
}

/// The two parts of a line with exactly one separator hold none.
proof fn lemma_parts_hold_no_separator(line: Seq<char>)
    requires
        split(line, seq![KEY_VALUE_SEPARATOR]).len() == 2,
    ensures
        !split(line, seq![KEY_VALUE_SEPARATOR])[0].contains(KEY_VALUE_SEPARATOR),
        !split(line, seq![KEY_VALUE_SEPARATOR])[1].contains(KEY_VALUE_SEPARATOR),
        exists|at: int|
            0 <= at < line.len() && split(line, seq![KEY_VALUE_SEPARATOR])[0] == line.subrange(
                0,
                at,
            ) && #[trigger] split(line, seq![KEY_VALUE_SEPARATOR])[1] == line.subrange(
                at + 1,
                line.len() as int,
            ),
{
    let pat = seq![KEY_VALUE_SEPARATOR];
    let parts = split(line, pat);
    lemma_split_pieces(line, pat);
    assert forall|i: int| 0 <= i < 2 implies !(#[trigger] parts[i]).contains(
        KEY_VALUE_SEPARATOR,
    ) by {
        let part = parts[i];
        lemma_find(part, pat);
        if part.contains(KEY_VALUE_SEPARATOR) {
            let j = choose|j: int| 0 <= j < part.len() && part[j] == KEY_VALUE_SEPARATOR;
            assert(part.subrange(j, j + 1) =~= pat);
            assert(occurs_at(part, pat, j));
        }
    }
    assert(!parts[0].contains(KEY_VALUE_SEPARATOR));
    assert(!parts[1].contains(KEY_VALUE_SEPARATOR));
    lemma_find(line, pat);
    let at = find(line, pat)->0;
    let rest = line.skip(at + 1);
    lemma_find(rest, pat);
    assert(parts == seq![line.take(at)] + split(rest, pat));
    if let Some(next) = find(rest, pat) {
        lemma_split_pieces(rest.skip(next + 1), pat);
        assert(split(rest, pat).len() >= 2);
    }
    assert(split(rest, pat) == seq![rest]);
    assert(parts[0] == line.take(at));
    assert(parts[1] == rest);
    assert(line.take(at) =~= line.subrange(0, at));
    assert(rest =~= line.subrange(at + 1, line.len() as int));
}

/// What holds of a reader all along a document whose line break is
/// `line_break`.
spec fn reader_keeps(reader: Reader, line_break: Seq<char>) -> bool {
    &&& well_keyed(reader.settings)
    &&& !contains(reader.category, line_break)
    &&& forall|k: Seq<char>| #[trigger]
        reader.settings.contains_key(k) ==> readable(reader.settings[k], line_break)
}

proof fn lemma_read_line_keeps(reader: Reader, line: Seq<char>, line_break: Seq<char>)
    requires
        reader_keeps(reader, line_break),
        !contains(line, line_break),
    ensures
        reader_keeps(read_line(reader, line), line_break),
{
    let after = read_line(reader, line);
    if line.len() == 0 {
    } else if is_header(line) {
        lemma_part_contains(line, 1, line.len() - 1, line_break);
    } else {
        let parts = split(line, seq![KEY_VALUE_SEPARATOR]);
        if parts.len() == 2 {
            lemma_parts_hold_no_separator(line);
            let at = choose|at: int|
                0 <= at < line.len() && split(line, seq![KEY_VALUE_SEPARATOR])[0] == line.subrange(
                    0,
                    at,
                ) && #[trigger] split(line, seq![KEY_VALUE_SEPARATOR])[1] == line.subrange(
                    at + 1,
                    line.len() as int,
                );
            let key_ends = lemma_trim_shape(parts[0]);
            let value_ends = lemma_trim_shape(parts[1]);
            let key = trim(parts[0]);
            let value = trim(parts[1]);
            lemma_part_holds(parts[0], key_ends.0, key_ends.1, KEY_VALUE_SEPARATOR);
            lemma_part_holds(parts[1], value_ends.0, value_ends.1, KEY_VALUE_SEPARATOR);
            lemma_without_unchanged(key, KEY_VALUE_SEPARATOR);
            lemma_part_contains(line, 0, at, line_break);
            lemma_part_contains(line, at + 1, line.len() as int, line_break);
            lemma_part_contains(parts[0], key_ends.0, key_ends.1, line_break);
            lemma_part_contains(parts[1], value_ends.0, value_ends.1, line_break);
            let setting = setting_of(reader.category, key, value);
            assert(readable(setting, line_break));
            assert(after.settings == reader.settings.insert(key_of(setting), setting));
            assert forall|k: Seq<char>| #[trigger] after.settings.contains_key(k) implies key_of(
                after.settings[k],
            ) == k && readable(after.settings[k], line_break) by {
                if k != key_of(setting) {
                    assert(reader.settings.contains_key(k));
                }
            }
        }
    }
}

proof fn lemma_read_lines_keep(reader: Reader, lines: Seq<Seq<char>>, line_break: Seq<char>)
    requires
        reader_keeps(reader, line_break),
        forall|i: int| 0 <= i < lines.len() ==> !contains(#[trigger] lines[i], line_break),
    ensures
        reader_keeps(read_lines(reader, lines), line_break),
    decreases lines.len(),
{
    if lines.len() > 0 {
        assert(!contains(lines[0], line_break));
        lemma_read_line_keeps(reader, lines.first(), line_break);
        assert forall|i: int| 0 <= i < lines.drop_first().len() implies !contains(
            #[trigger] lines.drop_first()[i],
            line_break,
        ) by {
            assert(lines.drop_first()[i] == lines[i + 1]);
        }
        lemma_read_lines_keep(read_line(reader, lines.first()), lines.drop_first(), line_break);
    }
}

/// Whatever the document, the settings read from it are finitely many,
/// each stored under its own map key, and each has the shape of a setting
/// read with the line break of the document.
pub proof fn lemma_decode_shape(text: Seq<char>)
    ensures
        well_keyed(decode(text)),
        forall|k: Seq<char>| #[trigger]
            decode(text).contains_key(k) ==> readable(decode(text)[k], line_break_of(text)),
{
    let line_break = line_break_of(text);
    lemma_split_pieces(text, line_break);
    lemma_find(Seq::<char>::empty(), line_break);
    assert(reader_keeps(start(), line_break));
    lemma_read_lines_keep(start(), lines_of(text), line_break);
}

} // verus!
