//! Writing a store and reading the document back gives the same settings.

use crate::codec::{
    decode, document_lines, encode, header, in_order, is_header, lemma_read_lines_concat,
    lemma_read_lines_one, lemma_terminated_concat, lemma_terminated_one, line_break_of, lines_at,
    read_line, read_lines, render, separator, setting_line, start, terminated, Reader,
    CATEGORY_END, CATEGORY_START,
};
use crate::line_ending::LineEnding;
use crate::setting::{lemma_without_unchanged, setting_of, SettingView, KEY_VALUE_SEPARATOR};
use crate::config::Config;
use crate::order::lemma_sorted_settings;
use crate::table::{key_of, well_keyed};
use crate::text::{
    contains, find, is_trimmed, is_whitespace, lemma_find, lemma_find_first, lemma_find_none,
    occurs_at, split, trim, trim_end, trim_start,
};
use vstd::prelude::*;

verus! {

/// Whether a field can stand in a document written with `line_ending`: it
/// holds no line ending, and under `LF` no carriage return either, which
/// a reader would take for the line break.
pub open spec fn unbroken(field: Seq<char>, line_ending: LineEnding) -> bool {
    &&& !contains(field, line_ending.text())
    &&& line_ending == LineEnding::LF ==> !contains(field, LineEnding::CR.text())
}

/// Whether the line of a setting looks like one that opens a category: the
/// key begins with the opening bracket and the value ends with the
/// closing one.
pub open spec fn looks_like_header(setting: SettingView) -> bool {
    &&& setting.key.len() > 0
    &&& setting.key.first() == CATEGORY_START
    &&& setting.value.len() > 0
    &&& setting.value.last() == CATEGORY_END
}

/// Whether a setting fits in a document written with `line_ending`: no
/// field breaks a line, and neither key nor value holds a separator or
/// has whitespace around it.
pub open spec fn fits(setting: SettingView, line_ending: LineEnding) -> bool {
    &&& unbroken(setting.category, line_ending)
    &&& unbroken(setting.key, line_ending)
    &&& unbroken(setting.value, line_ending)
    &&& !setting.key.contains(KEY_VALUE_SEPARATOR)
    &&& !setting.value.contains(KEY_VALUE_SEPARATOR)
    &&& is_trimmed(setting.key)
    &&& is_trimmed(setting.value)
}

/// Whether a setting comes back from a document written with
/// `line_ending` as it went in: it fits, and its line does not look like
/// one that opens a category.
pub open spec fn survives(setting: SettingView, line_ending: LineEnding) -> bool {
    fits(setting, line_ending) && !looks_like_header(setting)
}

/// Whether the line ending stands in `s` at position `i`, character by
/// character.
pub open spec fn breaks_at(s: Seq<char>, line_ending: LineEnding, i: int) -> bool {
    match line_ending {
        LineEnding::LF => 0 <= i < s.len() && s[i] == '\n',
        LineEnding::CR => 0 <= i < s.len() && s[i] == '\r',
        LineEnding::CRLF => 0 <= i && i + 1 < s.len() && s[i] == '\r' && s[i + 1] == '\n',
    }
}

/// A line ending stands at `i` where its characters do.
pub proof fn lemma_breaks_at(s: Seq<char>, line_ending: LineEnding, i: int)
    ensures
        occurs_at(s, line_ending.text(), i) <==> breaks_at(s, line_ending, i),
{
    let pat = line_ending.text();
    if 0 <= i && i + pat.len() <= s.len() {
        let part = s.subrange(i, i + pat.len());
        assert(part[0] == s[i]);
        if line_ending == LineEnding::CRLF {
            assert(part[1] == s[i + 1]);
        }
        if breaks_at(s, line_ending, i) {
            assert(part =~= pat);
        }
    }
}

/// What the proofs ask of a line of a document: no line ending stands in
/// it; under `LF` it holds no carriage return; under `CR` it does not
/// begin with a line feed.
pub open spec fn line_fits(line: Seq<char>, line_ending: LineEnding) -> bool {
    &&& forall|j: int| !breaks_at(line, line_ending, j)
    &&& line_ending == LineEnding::LF ==> forall|j: int| 0 <= j < line.len() ==> line[j] != '\r'
    &&& line_ending == LineEnding::CR ==> (line.len() > 0 ==> line[0] != '\n')
}

/// Whether every line fits.
pub open spec fn lines_fit(lines: Seq<Seq<char>>, line_ending: LineEnding) -> bool {
    forall|i: int| 0 <= i < lines.len() ==> line_fits(#[trigger] lines[i], line_ending)
}

/// In a line followed by the line ending, the line ending is first found
/// where the line ends.
proof fn lemma_find_line_end(line: Seq<char>, line_ending: LineEnding, rest: Seq<char>)
    requires
        line_fits(line, line_ending),
    ensures
        find(line + line_ending.text() + rest, line_ending.text()) == Some(line.len() as int),
{
    let pat = line_ending.text();
    let s = line + pat + rest;
    assert(s.subrange(line.len() as int, (line.len() + pat.len()) as int) =~= pat);
    assert forall|j: int| 0 <= j < line.len() implies !occurs_at(s, pat, j) by {
        lemma_breaks_at(s, line_ending, j);
        assert(!breaks_at(line, line_ending, j));
        if breaks_at(s, line_ending, j) {
            assert(s[j] == line[j]);
            if j + 1 < line.len() {
                assert(s[j + 1] == line[j + 1]);
            } else {
                assert(s[j + 1] == pat[0]);
            }
        }
    }
    lemma_find_first(s, pat, line.len() as int);
}

/// The text of a first line and of those that follow.
proof fn lemma_terminated_first(lines: Seq<Seq<char>>, line_break: Seq<char>)
    requires
        lines.len() > 0,
    ensures
        terminated(lines, line_break) == lines.first() + line_break + terminated(
            lines.drop_first(),
            line_break,
        ),
{
    assert(lines =~= seq![lines.first()] + lines.drop_first());
    lemma_terminated_concat(seq![lines.first()], lines.drop_first(), line_break);
    lemma_terminated_one(lines.first(), line_break);
}

/// Splitting the text of lines at the line ending gives the lines back,
/// and an empty piece after the last.
pub proof fn lemma_split_terminated(lines: Seq<Seq<char>>, line_ending: LineEnding)
    requires
        lines_fit(lines, line_ending),
    ensures
        split(terminated(lines, line_ending.text()), line_ending.text()) == lines.push(
            Seq::<char>::empty(),
        ),
    decreases lines.len(),
{
    let pat = line_ending.text();
    let text = terminated(lines, pat);
    if lines.len() == 0 {
        assert forall|j: int| !occurs_at(text, pat, j) by {}
        lemma_find_none(text, pat);
        assert(split(text, pat) =~= lines.push(Seq::<char>::empty()));
    } else {
        let line = lines.first();
        let rest = terminated(lines.drop_first(), pat);
        lemma_terminated_first(lines, pat);
        assert(line_fits(lines[0], line_ending));
        lemma_find_line_end(line, line_ending, rest);
        assert(lines_fit(lines.drop_first(), line_ending)) by {
            assert forall|i: int| 0 <= i < lines.drop_first().len() implies line_fits(
                #[trigger] lines.drop_first()[i],
                line_ending,
            ) by {
                assert(lines.drop_first()[i] == lines[i + 1]);
            }
        }
        lemma_split_terminated(lines.drop_first(), line_ending);
        assert(text.take(line.len() as int) =~= line);
        assert(text.skip((line.len() + pat.len()) as int) =~= rest);
        assert(split(text, pat) =~= seq![line] + split(rest, pat));
        assert(seq![line] + lines.drop_first().push(Seq::<char>::empty()) =~= lines.push(
            Seq::<char>::empty(),
        ));
    }
}

/// Whether no carriage return is followed by a line feed inside `line`,
/// nor can be where `line` meets the line ending before or behind it.
pub open spec fn pair_free(line: Seq<char>, line_ending: LineEnding) -> bool {
    &&& forall|j: int| !breaks_at(line, LineEnding::CRLF, j)
    &&& line_ending == LineEnding::CR ==> (line.len() > 0 ==> line[0] != '\n')
    &&& line_ending == LineEnding::LF ==> (line.len() > 0 ==> line.last() != '\r')
}

/// Whether `line` holds no carriage return.
pub open spec fn without_cr(line: Seq<char>) -> bool {
    forall|j: int| 0 <= j < line.len() ==> line[j] != '\r'
}

/// In the text of pair-free lines that end in one character, no carriage
/// return is followed by a line feed.
pub proof fn lemma_text_pair_free(lines: Seq<Seq<char>>, line_ending: LineEnding)
    requires
        line_ending != LineEnding::CRLF,
        forall|i: int| 0 <= i < lines.len() ==> pair_free(#[trigger] lines[i], line_ending),
    ensures
        forall|p: int| !breaks_at(terminated(lines, line_ending.text()), LineEnding::CRLF, p),
        lines.len() > 0 ==> terminated(lines, line_ending.text()).len() > 0 && terminated(
            lines,
            line_ending.text(),
        ).last() == line_ending.text()[0],
    decreases lines.len(),
{
    if lines.len() > 0 {
        let pat = line_ending.text();
        let before = terminated(lines.drop_last(), pat);
        let line = lines.last();
        let text = terminated(lines, pat);
        assert forall|i: int| 0 <= i < lines.drop_last().len() implies pair_free(
            #[trigger] lines.drop_last()[i],
            line_ending,
        ) by {
            assert(lines.drop_last()[i] == lines[i]);
        }
        lemma_text_pair_free(lines.drop_last(), line_ending);
        assert(pair_free(lines[lines.len() - 1], line_ending));
        assert(text == before + line + pat);
        assert(lines.drop_last().len() == 0 ==> before.len() == 0);
        assert forall|p: int| !breaks_at(text, LineEnding::CRLF, p) by {
            if 0 <= p && p + 1 < text.len() && text[p] == '\r' && text[p + 1] == '\n' {
                if p + 1 < before.len() {
                    assert(breaks_at(before, LineEnding::CRLF, p));
                } else if p < before.len() {
                    assert(text[p] == before.last());
                    if line.len() > 0 {
                        assert(text[p + 1] == line[0]);
                    } else {
                        assert(text[p + 1] == pat[0]);
                    }
                } else if p + 1 < before.len() + line.len() {
                    assert(text[p] == line[p - before.len()]);
                    assert(text[p + 1] == line[p + 1 - before.len()]);
                    assert(breaks_at(line, LineEnding::CRLF, p - before.len()));
                } else {
                    assert(text[p] == line.last());
                    assert(text[p + 1] == pat[0]);
                }
            }
        }
    }
}

/// The text of lines without a carriage return, ended by line feeds,
/// holds no carriage return.
pub proof fn lemma_text_without_cr(lines: Seq<Seq<char>>)
    requires
        forall|i: int| 0 <= i < lines.len() ==> without_cr(#[trigger] lines[i]),
    ensures
        without_cr(terminated(lines, LineEnding::LF.text())),
    decreases lines.len(),
{
    if lines.len() > 0 {
        let pat = LineEnding::LF.text();
        let before = terminated(lines.drop_last(), pat);
        let line = lines.last();
        let text = terminated(lines, pat);
        assert forall|i: int| 0 <= i < lines.drop_last().len() implies without_cr(
            #[trigger] lines.drop_last()[i],
        ) by {
            assert(lines.drop_last()[i] == lines[i]);
        }
        lemma_text_without_cr(lines.drop_last());
        assert(without_cr(lines[lines.len() - 1]));
        assert(text == before + line + pat);
        assert forall|p: int| 0 <= p < text.len() implies text[p] != '\r' by {
            if p < before.len() {
                assert(text[p] == before[p]);
            } else if p < before.len() + line.len() {
                assert(text[p] == line[p - before.len()]);
            } else {
                assert(text[p] == pat[p - before.len() - line.len()]);
            }
        }
    }
}

/// The line break of the text of fitting lines is the line ending they
/// were written with.
proof fn lemma_line_break_of_terminated(lines: Seq<Seq<char>>, line_ending: LineEnding)
    requires
        lines.len() > 0,
        lines_fit(lines, line_ending),
    ensures
        line_break_of(terminated(lines, line_ending.text())) == line_ending.text(),
{
    let crlf = LineEnding::CRLF.text();
    let cr = LineEnding::CR.text();
    let pat = line_ending.text();
    let text = terminated(lines, pat);
    let before = terminated(lines.drop_last(), pat) + lines.last();
    assert(text == before + pat);
    assert(seq!['\r', '\n'] == crlf && seq!['\r'] == cr && seq!['\n'] == LineEnding::LF.text());
    lemma_find(text, crlf);
    lemma_find(text, cr);
    match line_ending {
        LineEnding::LF => {
            assert forall|i: int| 0 <= i < lines.len() implies without_cr(#[trigger] lines[i]) by {
                assert(line_fits(lines[i], line_ending));
            }
            lemma_text_without_cr(lines);
            assert forall|j: int| !occurs_at(text, crlf, j) by {
                lemma_breaks_at(text, LineEnding::CRLF, j);
            }
            assert forall|j: int| !occurs_at(text, cr, j) by {
                lemma_breaks_at(text, LineEnding::CR, j);
            }
        },
        LineEnding::CR => {
            assert forall|i: int| 0 <= i < lines.len() implies pair_free(
                #[trigger] lines[i],
                line_ending,
            ) by {
                assert(line_fits(lines[i], line_ending));
                assert forall|j: int| !breaks_at(lines[i], LineEnding::CRLF, j) by {
                    assert(!breaks_at(lines[i], LineEnding::CR, j));
                }
            }
            lemma_text_pair_free(lines, line_ending);
            assert forall|j: int| !occurs_at(text, crlf, j) by {
                lemma_breaks_at(text, LineEnding::CRLF, j);
            }
            lemma_breaks_at(text, LineEnding::CR, text.len() - 1);
            assert(occurs_at(text, cr, text.len() - 1));
        },
        LineEnding::CRLF => {
            assert(text[text.len() - 2] == pat[0]);
            assert(text[text.len() - 1] == pat[1]);
            lemma_breaks_at(text, LineEnding::CRLF, text.len() - 2);
            assert(occurs_at(text, crlf, text.len() - 2));
        },
    }
}

/// An unbroken field, character by character.
pub proof fn lemma_unbroken(field: Seq<char>, line_ending: LineEnding)
    requires
        unbroken(field, line_ending),
    ensures
        forall|j: int| !breaks_at(field, line_ending, j),
        line_ending == LineEnding::LF ==> forall|j: int|
            0 <= j < field.len() ==> field[j] != '\r',
{
    lemma_find(field, line_ending.text());
    assert forall|j: int| !breaks_at(field, line_ending, j) by {
        lemma_breaks_at(field, line_ending, j);
    }
    if line_ending == LineEnding::LF {
        lemma_find(field, LineEnding::CR.text());
        assert forall|j: int| 0 <= j < field.len() implies field[j] != '\r' by {
            lemma_breaks_at(field, LineEnding::CR, j);
        }
    }
}

/// The line that opens an unbroken category fits.
proof fn lemma_header_fits(category: Seq<char>, line_ending: LineEnding)
    requires
        unbroken(category, line_ending),
    ensures
        line_fits(header(category), line_ending),
{
    let line = header(category);
    lemma_unbroken(category, line_ending);
    assert forall|j: int| !breaks_at(line, line_ending, j) by {
        if breaks_at(line, line_ending, j) {
            assert(line[j] == category[j - 1]);
            if line_ending == LineEnding::CRLF {
                assert(line[j + 1] == category[j]);
            }
            assert(breaks_at(category, line_ending, j - 1));
        }
    }
    if line_ending == LineEnding::LF {
        assert forall|j: int| 0 <= j < line.len() implies line[j] != '\r' by {
            if 1 <= j <= category.len() {
                assert(line[j] == category[j - 1]);
            }
        }
    }
}

/// The line of a setting that fits, fits.
proof fn lemma_setting_line_fits(setting: SettingView, padding: bool, line_ending: LineEnding)
    requires
        fits(setting, line_ending),
    ensures
        line_fits(setting_line(setting, padding), line_ending),
{
    let key = setting.key;
    let value = setting.value;
    let between = separator(padding);
    let line = setting_line(setting, padding);
    let v0 = key.len() + between.len();
    lemma_unbroken(key, line_ending);
    lemma_unbroken(value, line_ending);
    assert forall|j: int| 0 <= j < line.len() implies line[j] == (if j < key.len() {
        key[j]
    } else if j < v0 {
        between[j - key.len()]
    } else {
        value[j - v0]
    }) by {}
    assert forall|j: int| !breaks_at(line, line_ending, j) by {
        if breaks_at(line, line_ending, j) {
            if j < key.len() {
                assert(line[j] == key[j]);
                if line_ending == LineEnding::CRLF {
                    if j + 1 < key.len() {
                        assert(line[j + 1] == key[j + 1]);
                    } else {
                        assert(line[j + 1] == between[0]);
                    }
                }
                assert(breaks_at(key, line_ending, j));
            } else if j < v0 {
                assert(line[j] == between[j - key.len()]);
            } else {
                assert(line[j] == value[j - v0]);
                if line_ending == LineEnding::CRLF {
                    assert(line[j + 1] == value[j + 1 - v0]);
                }
                assert(breaks_at(value, line_ending, j - v0));
            }
        }
    }
    if line_ending == LineEnding::CR {
        if key.len() > 0 {
            assert(line[0] == key[0]);
            assert(is_whitespace('\n'));
        } else {
            assert(line[0] == between[0]);
        }
    }
}

/// The lines of the document of settings that fit, fit.
pub proof fn lemma_document_lines_fit(
    settings: Seq<SettingView>,
    n: int,
    padding: bool,
    line_ending: LineEnding,
)
    requires
        0 <= n <= settings.len(),
        forall|i: int| 0 <= i < n ==> fits(#[trigger] settings[i], line_ending),
    ensures
        lines_fit(document_lines(settings, n, padding), line_ending),
    decreases n,
{
    if n > 0 {
        let before = document_lines(settings, n - 1, padding);
        let added = lines_at(settings, n - 1, padding);
        let lines = document_lines(settings, n, padding);
        lemma_document_lines_fit(settings, n - 1, padding, line_ending);
        assert(fits(settings[n - 1], line_ending));
        lemma_header_fits(settings[n - 1].category, line_ending);
        lemma_setting_line_fits(settings[n - 1], padding, line_ending);
        assert(line_fits(Seq::<char>::empty(), line_ending));
        assert forall|i: int| 0 <= i < added.len() implies line_fits(
            #[trigger] added[i],
            line_ending,
        ) by {}
        assert forall|i: int| 0 <= i < lines.len() implies line_fits(
            #[trigger] lines[i],
            line_ending,
        ) by {
            if i < before.len() {
                assert(lines[i] == before[i]);
            } else {
                assert(lines[i] == added[i - before.len()]);
            }
        }
    }
}

/// Reading the line that opens a category makes it the current one.
pub proof fn lemma_read_header(reader: Reader, category: Seq<char>)
    ensures
        read_line(reader, header(category)) == (Reader { category, ..reader }),
{
    let line = header(category);
    assert(line.first() == CATEGORY_START);
    assert(line.last() == CATEGORY_END);
    assert(line.subrange(1, line.len() - 1) =~= category);
}

/// A separator stands at `i` where the character at `i` is one.
proof fn lemma_separator_at(s: Seq<char>, i: int)
    ensures
        occurs_at(s, seq![KEY_VALUE_SEPARATOR], i) <==> 0 <= i < s.len() && s[i]
            == KEY_VALUE_SEPARATOR,
{
    if 0 <= i < s.len() {
        assert(s.subrange(i, i + 1)[0] == s[i]);
        if s[i] == KEY_VALUE_SEPARATOR {
            assert(s.subrange(i, i + 1) =~= seq![KEY_VALUE_SEPARATOR]);
        }
    }
}

/// Trimming takes off the space that padding puts behind a key.
proof fn lemma_trim_key_part(key: Seq<char>, padding: bool)
    requires
        is_trimmed(key),
    ensures
        trim(
            if padding {
                key + seq![' ']
            } else {
                key
            },
        ) == key,
{
    assert(is_whitespace(' '));
    if padding {
        let part = key + seq![' '];
        assert(part.last() == ' ');
        assert(part.drop_last() =~= key);
        if key.len() == 0 {
            assert(part.first() == ' ');
            assert(part.drop_first() =~= key);
            assert(trim_start(part) == trim_start(key));
        } else {
            assert(part.first() == key.first());
            assert(trim_start(part) == part);
            assert(trim_end(part) == trim_end(key));
        }
    }
}

/// Trimming takes off the space that padding puts before a value.
proof fn lemma_trim_value_part(value: Seq<char>, padding: bool)
    requires
        is_trimmed(value),
    ensures
        trim(
            if padding {
                seq![' '] + value
            } else {
                value
            },
        ) == value,
{
    assert(is_whitespace(' '));
    if padding {
        let part = seq![' '] + value;
        assert(part.first() == ' ');
        assert(part.drop_first() =~= value);
        assert(trim_start(part) == trim_start(value));
    }
}

/// The line of a setting that fits splits at its separator into the key
/// and the value, each with the space that padding put beside it.
proof fn lemma_split_setting_line(setting: SettingView, padding: bool, line_ending: LineEnding)
    requires
        fits(setting, line_ending),
    ensures
        split(setting_line(setting, padding), seq![KEY_VALUE_SEPARATOR]) == seq![
            if padding {
                setting.key + seq![' ']
            } else {
                setting.key
            },
            if padding {
                seq![' '] + setting.value
            } else {
                setting.value
            },
        ],
{
    let key = setting.key;
    let value = setting.value;
    let pat = seq![KEY_VALUE_SEPARATOR];
    let line = setting_line(setting, padding);
    let left = if padding {
        key + seq![' ']
    } else {
        key
    };
    let right = if padding {
        seq![' '] + value
    } else {
        value
    };
    assert(line =~= left + pat + right);
    let at = left.len() as int;
    assert forall|j: int| 0 <= j < at implies !occurs_at(line, pat, j) by {
        lemma_separator_at(line, j);
        if j < key.len() {
            assert(line[j] == key[j]);
            assert(key.contains(key[j]));
        } else {
            assert(line[j] == ' ');
        }
    }
    lemma_separator_at(line, at);
    assert(line[at] == KEY_VALUE_SEPARATOR);
    lemma_find_first(line, pat, at);
    assert(line.take(at) =~= left);
    assert(line.skip(at + pat.len()) =~= right);
    assert forall|j: int| !occurs_at(right, pat, j) by {
        lemma_separator_at(right, j);
        if 0 <= j < right.len() {
            if padding && j == 0 {
                assert(right[j] == ' ');
            } else {
                let p = if padding {
                    j - 1
                } else {
                    j
                };
                assert(right[j] == value[p]);
                assert(value.contains(value[p]));
            }
        }
    }
    lemma_find_none(right, pat);
    assert(split(right, pat) =~= seq![right]);
    assert(split(line, pat) =~= seq![left] + split(right, pat));
    assert(seq![left] + seq![right] =~= seq![left, right]);
}

/// Reading the line of a setting that survives stores the setting under
/// the current category.
pub proof fn lemma_read_setting_line(
    reader: Reader,
    setting: SettingView,
    padding: bool,
    line_ending: LineEnding,
)
    requires
        survives(setting, line_ending),
    ensures
        read_line(reader, setting_line(setting, padding)) == (Reader {
            settings: reader.settings.insert(
                key_of(SettingView { category: reader.category, ..setting }),
                SettingView { category: reader.category, ..setting },
            ),
            ..reader
        }),
{
    let key = setting.key;
    let value = setting.value;
    let between = separator(padding);
    let line = setting_line(setting, padding);
    assert(line.len() > 0);
    assert(!is_header(line)) by {
        if key.len() > 0 {
            assert(line.first() == key.first());
        } else {
            assert(line.first() == between[0]);
        }
        if value.len() > 0 {
            assert(line.last() == value.last());
        } else {
            assert(line.last() == between.last());
        }
    }
    lemma_split_setting_line(setting, padding, line_ending);
    lemma_trim_key_part(key, padding);
    lemma_trim_value_part(value, padding);
    lemma_without_unchanged(key, KEY_VALUE_SEPARATOR);
    let parts = split(line, seq![KEY_VALUE_SEPARATOR]);
    assert(parts.len() == 2);
    assert(trim(parts[0]) == key);
    assert(trim(parts[1]) == value);
    assert(setting_of(reader.category, key, value) == (SettingView {
        category: reader.category,
        ..setting
    }));
}

/// The settings of a sequence, each stored under its map key, a later one
/// in place of an earlier one under the same key.
pub open spec fn settings_of(settings: Seq<SettingView>) -> Map<Seq<char>, SettingView>
    decreases settings.len(),
{
    if settings.len() == 0 {
        Map::empty()
    } else {
        settings_of(settings.drop_last()).insert(key_of(settings.last()), settings.last())
    }
}

/// Reading the document of the first `n` settings gives those settings,
/// and leaves the category of the last as the current one.
proof fn lemma_read_document(
    settings: Seq<SettingView>,
    n: int,
    padding: bool,
    line_ending: LineEnding,
)
    requires
        0 <= n <= settings.len(),
        forall|i: int| 0 <= i < n ==> survives(#[trigger] settings[i], line_ending),
    ensures
        read_lines(start(), document_lines(settings, n, padding)) == (Reader {
            category: if n == 0 {
                Seq::empty()
            } else {
                settings[n - 1].category
            },
            settings: settings_of(settings.take(n)),
        }),
    decreases n,
{
    if n == 0 {
        assert(settings.take(0) =~= Seq::<SettingView>::empty());
    } else {
        let i = n - 1;
        let setting = settings[i];
        let before = document_lines(settings, i, padding);
        let reader = read_lines(start(), before);
        let own = setting_line(setting, padding);
        let opening = header(setting.category);
        let blank = Seq::<char>::empty();
        lemma_read_document(settings, i, padding, line_ending);
        lemma_read_lines_concat(start(), before, lines_at(settings, i, padding));
        assert(survives(settings[i], line_ending));
        let opened = Reader { category: setting.category, ..reader };
        assert(read_lines(reader, lines_at(settings, i, padding)) == read_line(opened, own)) by {
            lemma_read_lines_one(opened, own);
            lemma_read_lines_one(reader, opening);
            lemma_read_lines_one(reader, blank);
            lemma_read_header(reader, setting.category);
            if i == 0 {
                lemma_read_lines_concat(reader, seq![opening], seq![own]);
            } else if settings[i - 1].category != setting.category {
                assert(seq![blank, opening] + seq![own] =~= seq![blank] + (seq![opening] + seq![
                    own,
                ]));
                lemma_read_lines_concat(reader, seq![blank], seq![opening] + seq![own]);
                lemma_read_lines_concat(reader, seq![opening], seq![own]);
            } else {
                assert(opened == reader);
            }
        }
        lemma_read_setting_line(opened, setting, padding, line_ending);
        assert((SettingView { category: opened.category, ..setting }) == setting);
        assert(settings.take(n).drop_last() =~= settings.take(i));
        assert(settings.take(n).last() == setting);
    }
}

/// Where no two settings of a sequence share a map key, every one of them
/// is found under its map key, and nothing else is.
proof fn lemma_settings_of(settings: Seq<SettingView>)
    requires
        forall|i: int, j: int|
            0 <= i < j < settings.len() ==> key_of(#[trigger] settings[i]) != key_of(
                #[trigger] settings[j],
            ),
    ensures
        forall|i: int|
            0 <= i < settings.len() ==> settings_of(settings).contains_key(
                key_of(#[trigger] settings[i]),
            ) && settings_of(settings)[key_of(settings[i])] == settings[i],
        forall|k: Seq<char>| #[trigger]
            settings_of(settings).contains_key(k) ==> exists|i: int|
                0 <= i < settings.len() && key_of(#[trigger] settings[i]) == k,
    decreases settings.len(),
{
    if settings.len() > 0 {
        let before = settings.drop_last();
        let n = settings.len() - 1;
        assert forall|i: int, j: int| 0 <= i < j < before.len() implies key_of(
            #[trigger] before[i],
        ) != key_of(#[trigger] before[j]) by {
            assert(before[i] == settings[i] && before[j] == settings[j]);
        }
        lemma_settings_of(before);
        assert forall|i: int| 0 <= i < settings.len() implies settings_of(settings).contains_key(
            key_of(#[trigger] settings[i]),
        ) && settings_of(settings)[key_of(settings[i])] == settings[i] by {
            if i < n {
                assert(before[i] == settings[i]);
                assert(key_of(settings[i]) != key_of(settings[n]));
            }
        }
        assert forall|k: Seq<char>| #[trigger]
            settings_of(settings).contains_key(k) implies exists|i: int|
            0 <= i < settings.len() && key_of(#[trigger] settings[i]) == k by {
            if k == key_of(settings[n]) {
            } else {
                assert(settings_of(before).contains_key(k));
                let i = choose|i: int| 0 <= i < before.len() && key_of(#[trigger] before[i]) == k;
                assert(before[i] == settings[i]);
            }
        }
    }
}

/// The settings of a well-keyed collection, taken in order and stored
/// anew, are the collection.
proof fn lemma_settings_of_in_order(settings: Map<Seq<char>, SettingView>)
    requires
        well_keyed(settings),
    ensures
        settings_of(in_order(settings)) == settings,
{
    let sorted = in_order(settings);
    vstd::map_lib::lemma_values_finite(settings);
    lemma_sorted_settings(settings.values());
    assert forall|i: int| 0 <= i < sorted.len() implies settings.contains_key(
        key_of(#[trigger] sorted[i]),
    ) && settings[key_of(sorted[i])] == sorted[i] by {
        assert(sorted.to_set().contains(sorted[i]));
        assert(settings.values().contains(sorted[i]));
        let k = choose|k: Seq<char>| settings.contains_key(k) && settings[k] == sorted[i];
        assert(key_of(settings[k]) == k);
    }
    assert forall|i: int, j: int| 0 <= i < j < sorted.len() implies key_of(#[trigger] sorted[i])
        != key_of(#[trigger] sorted[j]) by {
        assert(settings[key_of(sorted[i])] == sorted[i]);
        assert(settings[key_of(sorted[j])] == sorted[j]);
    }
    lemma_settings_of(sorted);
    assert forall|k: Seq<char>| settings.contains_key(k) implies settings_of(
        sorted,
    ).contains_key(k) && settings_of(sorted)[k] == settings[k] by {
        assert(settings.values().contains(settings[k]));
        assert(sorted.to_set().contains(settings[k]));
        let i = choose|i: int| 0 <= i < sorted.len() && sorted[i] == settings[k];
        assert(key_of(sorted[i]) == k);
    }
    assert forall|k: Seq<char>| settings_of(sorted).contains_key(k) implies settings.contains_key(
        k,
    ) by {
        let i = choose|i: int| 0 <= i < sorted.len() && key_of(#[trigger] sorted[i]) == k;
        assert(settings.contains_key(key_of(sorted[i])));
    }
    assert(settings_of(sorted) =~= settings);
}

/// Reading the document of settings that survive gives those settings,
/// in whatever order they were written.
pub proof fn lemma_decode_render(
    settings: Seq<SettingView>,
    line_ending: LineEnding,
    padding: bool,
)
    requires
        forall|i: int| 0 <= i < settings.len() ==> survives(#[trigger] settings[i], line_ending),
    ensures
        decode(render(settings, line_ending.text(), padding)) == settings_of(settings),
{
    let n = settings.len() as int;
    let lines = document_lines(settings, n, padding);
    let text = render(settings, line_ending.text(), padding);
    let blank = Seq::<char>::empty();
    lemma_document_lines_fit(settings, n, padding, line_ending);
    lemma_read_document(settings, n, padding, line_ending);
    assert(settings.take(n) =~= settings);
    lemma_read_lines_concat(start(), lines, seq![blank]);
    lemma_read_lines_one(read_lines(start(), lines), blank);
    assert(lines.push(blank) =~= lines + seq![blank]);
    if n == 0 {
        assert(lines_fit(lines, LineEnding::LF));
        assert(text == terminated(lines, LineEnding::LF.text()));
        lemma_find(text, LineEnding::CRLF.text());
        lemma_find(text, LineEnding::CR.text());
        assert(seq!['\r', '\n'] == LineEnding::CRLF.text() && seq!['\r'] == LineEnding::CR.text()
            && seq!['\n'] == LineEnding::LF.text());
        assert(line_break_of(text) == LineEnding::LF.text());
        lemma_split_terminated(lines, LineEnding::LF);
    } else {
        assert(lines.len() > 0) by {
            assert(lines == document_lines(settings, n - 1, padding) + lines_at(
                settings,
                n - 1,
                padding,
            ));
        }
        lemma_line_break_of_terminated(lines, line_ending);
        lemma_split_terminated(lines, line_ending);
    }
}

/// Writing the settings of a well-keyed collection and reading the
/// document back gives the collection, provided every setting survives.
pub proof fn lemma_decode_encode(
    settings: Map<Seq<char>, SettingView>,
    line_ending: LineEnding,
    padding: bool,
)
    requires
        well_keyed(settings),
        forall|k: Seq<char>| #[trigger]
            settings.contains_key(k) ==> survives(settings[k], line_ending),
    ensures
        decode(encode(settings, line_ending, padding)) == settings,
{
    let sorted = in_order(settings);
    vstd::map_lib::lemma_values_finite(settings);
    lemma_sorted_settings(settings.values());
    assert forall|i: int| 0 <= i < sorted.len() implies survives(
        #[trigger] sorted[i],
        line_ending,
    ) by {
        assert(sorted.to_set().contains(sorted[i]));
        assert(settings.values().contains(sorted[i]));
    }
    lemma_decode_render(sorted, line_ending, padding);
    lemma_settings_of_in_order(settings);
}

/// Saving a store and loading what was saved gives the store back:
/// `reload` on the text that `save` returned leaves the settings as they
/// were, provided every setting survives the store's line ending.
pub proof fn lemma_save_reload(config: Config, saved: Seq<char>)
    requires
        config.wf(),
        saved == encode(config@, config.ending(), config.padded()),
        forall|k: Seq<char>| #[trigger]
            config@.contains_key(k) ==> survives(config@[k], config.ending()),
    ensures
        decode(saved) == config@,
{
    config.lemma_well_keyed();
    lemma_decode_encode(config@, config.ending(), config.padded());
}

/// Two stores that hold the same settings and write alike save the same
/// text, under whatever map keys the settings lie and in whatever order
/// they came.
pub proof fn lemma_save_deterministic(a: Config, b: Config)
    requires
        a@.values() == b@.values(),
        a.ending() == b.ending(),
        a.padded() == b.padded(),
    ensures
        encode(a@, a.ending(), a.padded()) == encode(b@, b.ending(), b.padded()),
{
}

/// Saving twice a store that did not change in between gives the same
/// text twice.
pub proof fn lemma_save_idempotent(config: Config, first: Seq<char>, second: Seq<char>)
    requires
        first == encode(config@, config.ending(), config.padded()),
        second == encode(config@, config.ending(), config.padded()),
    ensures
        first == second,
{
}

} // verus!
