//! Only settings that survive come back: what the round trip asks of a
//! store is also what it needs.

use crate::config::Config;
use crate::codec::{
    decode, document_lines, encode, header, in_order, is_header, lemma_lines_at_text,
    lemma_read_lines_concat, lemma_read_lines_one, lemma_terminated_concat, line_break_of,
    lines_at, lines_of, read_line, read_lines, separator, setting_line, start, terminated, Reader,
    CATEGORY_END, CATEGORY_START,
};
use crate::line_ending::LineEnding;
use crate::order::lemma_sorted_settings;
use crate::round_trip::{
    breaks_at, fits, lemma_breaks_at, lemma_decode_encode, lemma_document_lines_fit,
    lemma_read_header, lemma_read_setting_line, lemma_split_terminated, lemma_text_pair_free,
    lemma_text_without_cr, looks_like_header, pair_free, survives, without_cr,
};
use crate::setting::SettingView;
use crate::shape::{lemma_decode_shape, readable};
use crate::table::well_keyed;
use crate::text::{contains, is_trimmed, is_whitespace, lemma_find, lemma_find_none, occurs_at};
use vstd::prelude::*;

verus! {

/// Whether no carriage return is followed by a line feed inside `field`.
spec fn field_pair_free(field: Seq<char>) -> bool {
    forall|j: int| !breaks_at(field, LineEnding::CRLF, j)
}

/// Whether the fields of a setting are pair-free, and its key and value
/// trimmed.
spec fn setting_pair_free(setting: SettingView) -> bool {
    &&& field_pair_free(setting.category)
    &&& field_pair_free(setting.key)
    &&& field_pair_free(setting.value)
    &&& is_trimmed(setting.key)
    &&& is_trimmed(setting.value)
}

/// Whether no field of a setting holds a carriage return.
spec fn setting_without_cr(setting: SettingView) -> bool {
    without_cr(setting.category) && without_cr(setting.key) && without_cr(setting.value)
}

/// The characters of the line of a setting, place by place.
proof fn lemma_setting_line_chars(setting: SettingView, padding: bool)
    ensures
        forall|j: int|
            0 <= j < setting_line(setting, padding).len() ==> #[trigger] setting_line(
                setting,
                padding,
            )[j] == (if j < setting.key.len() {
                setting.key[j]
            } else if j < setting.key.len() + separator(padding).len() {
                separator(padding)[j - setting.key.len()]
            } else {
                setting.value[j - setting.key.len() - separator(padding).len()]
            }),
        setting_line(setting, padding).len() == setting.key.len() + separator(padding).len()
            + setting.value.len(),
{
}

/// The lines that a pair-free setting adds are pair-free.
proof fn lemma_lines_at_pair_free(
    settings: Seq<SettingView>,
    i: int,
    padding: bool,
    line_ending: LineEnding,
)
    requires
        0 <= i < settings.len(),
        setting_pair_free(settings[i]),
    ensures
        forall|a: int|
            0 <= a < lines_at(settings, i, padding).len() ==> pair_free(
                #[trigger] lines_at(settings, i, padding)[a],
                line_ending,
            ),
{
    let setting = settings[i];
    let key = setting.key;
    let value = setting.value;
    let between = separator(padding);
    let own = setting_line(setting, padding);
    let opening = header(setting.category);
    let v0 = key.len() + between.len();
    assert(is_whitespace('\n') && is_whitespace('\r'));
    lemma_setting_line_chars(setting, padding);
    assert(pair_free(own, line_ending)) by {
        assert forall|j: int| !breaks_at(own, LineEnding::CRLF, j) by {
            if breaks_at(own, LineEnding::CRLF, j) {
                if j + 1 < key.len() {
                    assert(breaks_at(key, LineEnding::CRLF, j));
                } else if j < key.len() {
                    assert(own[j + 1] == between[0]);
                } else if j < v0 {
                    assert(own[j] == between[j - key.len()]);
                } else {
                    assert(own[j] == value[j - v0]);
                    assert(own[j + 1] == value[j + 1 - v0]);
                    assert(breaks_at(value, LineEnding::CRLF, j - v0));
                }
            }
        }
        if key.len() > 0 {
            assert(own[0] == key[0]);
        } else {
            assert(own[0] == between[0]);
        }
        if value.len() > 0 {
            assert(own.last() == value.last());
        } else {
            assert(own.last() == between.last());
        }
    }
    assert(pair_free(opening, line_ending)) by {
        assert forall|j: int| !breaks_at(opening, LineEnding::CRLF, j) by {
            if breaks_at(opening, LineEnding::CRLF, j) {
                assert(opening[j] == setting.category[j - 1]);
                assert(opening[j + 1] == setting.category[j]);
                assert(breaks_at(setting.category, LineEnding::CRLF, j - 1));
            }
        }
        assert(opening[0] == CATEGORY_START);
        assert(opening.last() == CATEGORY_END);
    }
    assert(pair_free(Seq::<char>::empty(), line_ending));
}

/// The lines that a setting without a carriage return adds hold none.
proof fn lemma_lines_at_without_cr(settings: Seq<SettingView>, i: int, padding: bool)
    requires
        0 <= i < settings.len(),
        setting_without_cr(settings[i]),
    ensures
        forall|a: int|
            0 <= a < lines_at(settings, i, padding).len() ==> without_cr(
                #[trigger] lines_at(settings, i, padding)[a],
            ),
{
    let setting = settings[i];
    let own = setting_line(setting, padding);
    let opening = header(setting.category);
    lemma_setting_line_chars(setting, padding);
    assert(without_cr(own));
    assert(without_cr(opening)) by {
        assert forall|j: int| 0 <= j < opening.len() implies opening[j] != '\r' by {
            if 1 <= j <= setting.category.len() {
                assert(opening[j] == setting.category[j - 1]);
            }
        }
    }
    assert(without_cr(Seq::<char>::empty()));
}

/// The lines of a document have what each setting gives to its own lines.
proof fn lemma_document_lines_all(
    settings: Seq<SettingView>,
    n: int,
    padding: bool,
    holds: spec_fn(Seq<char>) -> bool,
)
    requires
        0 <= n <= settings.len(),
        forall|i: int, a: int|
            0 <= i < n && 0 <= a < lines_at(settings, i, padding).len() ==> holds(
                #[trigger] lines_at(settings, i, padding)[a],
            ),
    ensures
        forall|b: int|
            0 <= b < document_lines(settings, n, padding).len() ==> holds(
                #[trigger] document_lines(settings, n, padding)[b],
            ),
    decreases n,
{
    if n > 0 {
        let before = document_lines(settings, n - 1, padding);
        let added = lines_at(settings, n - 1, padding);
        let lines = document_lines(settings, n, padding);
        lemma_document_lines_all(settings, n - 1, padding, holds);
        assert forall|b: int| 0 <= b < lines.len() implies holds(#[trigger] lines[b]) by {
            if b < before.len() {
                assert(lines[b] == before[b]);
            } else {
                assert(lines[b] == added[b - before.len()]);
                assert(holds(lines_at(settings, n - 1, padding)[b - before.len()]));
            }
        }
    }
}

/// A character of a field of one of the first `n` settings stands in the
/// text of their document.
proof fn lemma_field_in_text(
    settings: Seq<SettingView>,
    n: int,
    padding: bool,
    line_break: Seq<char>,
    i: int,
    c: char,
)
    requires
        0 <= i < n <= settings.len(),
        settings[i].category.contains(c) || settings[i].key.contains(c)
            || settings[i].value.contains(c),
    ensures
        terminated(document_lines(settings, n, padding), line_break).contains(c),
    decreases n,
{
    let before = terminated(document_lines(settings, n - 1, padding), line_break);
    let added = terminated(lines_at(settings, n - 1, padding), line_break);
    let text = terminated(document_lines(settings, n, padding), line_break);
    let last = settings[n - 1];
    let own = setting_line(last, padding);
    let opening = header(last.category);
    lemma_terminated_concat(
        document_lines(settings, n - 1, padding),
        lines_at(settings, n - 1, padding),
        line_break,
    );
    lemma_lines_at_text(settings, n - 1, padding, line_break);
    lemma_setting_line_chars(last, padding);
    assert(text == before + added);
    if i < n - 1 || (n - 1 > 0 && settings[n - 2].category == last.category
        && last.category.contains(c)) {
        let j = if i < n - 1 {
            i
        } else {
            n - 2
        };
        lemma_field_in_text(settings, n - 1, padding, line_break, j, c);
        let p = choose|p: int| 0 <= p < before.len() && before[p] == c;
        assert(text[p] == c);
    } else {
        let lead = added.len() - own.len() - line_break.len();
        assert(added.subrange(lead, lead + own.len()) =~= own);
        if last.key.contains(c) {
            let q = choose|q: int| 0 <= q < last.key.len() && last.key[q] == c;
            assert(own[q] == c);
            assert(added[lead + q] == c);
            assert(text[before.len() + lead + q] == c);
        } else if last.value.contains(c) {
            let q = choose|q: int| 0 <= q < last.value.len() && last.value[q] == c;
            let at = last.key.len() + separator(padding).len() + q;
            assert(own[at] == c);
            assert(added[lead + at] == c);
            assert(text[before.len() + lead + at] == c);
        } else {
            let q = choose|q: int| 0 <= q < last.category.len() && last.category[q] == c;
            let first = if n - 1 == 0 {
                0
            } else {
                line_break.len() as int
            };
            assert(opening[q + 1] == c);
            assert(added.subrange(first, first + opening.len()) =~= opening);
            assert(added[first + q + 1] == c);
            assert(text[before.len() + first + q + 1] == c);
        }
    }
}

/// A field that does not hold the pattern of `\r\n` is pair-free; one
/// that does not hold that of `\r` holds no carriage return.
proof fn lemma_field_readable(field: Seq<char>, line_break: Seq<char>)
    requires
        !contains(field, line_break),
    ensures
        line_break == LineEnding::CRLF.text() ==> field_pair_free(field),
        line_break == LineEnding::CR.text() ==> without_cr(field),
{
    lemma_find(field, line_break);
    if line_break == LineEnding::CRLF.text() {
        assert forall|j: int| !breaks_at(field, LineEnding::CRLF, j) by {
            lemma_breaks_at(field, LineEnding::CRLF, j);
        }
    }
    if line_break == LineEnding::CR.text() {
        assert forall|j: int| 0 <= j < field.len() implies field[j] != '\r' by {
            lemma_breaks_at(field, LineEnding::CR, j);
        }
    }
}

/// The line break of the document of settings that have the shape of
/// settings read from it is the line ending it was written with.
proof fn lemma_line_break_of_rendered(
    settings: Seq<SettingView>,
    line_ending: LineEnding,
    padding: bool,
)
    requires
        settings.len() > 0,
        forall|i: int|
            0 <= i < settings.len() ==> readable(
                #[trigger] settings[i],
                line_break_of(
                    terminated(
                        document_lines(settings, settings.len() as int, padding),
                        line_ending.text(),
                    ),
                ),
            ),
    ensures
        line_break_of(
            terminated(
                document_lines(settings, settings.len() as int, padding),
                line_ending.text(),
            ),
        ) == line_ending.text(),
{
    let n = settings.len() as int;
    let lines = document_lines(settings, n, padding);
    let pat = line_ending.text();
    let text = terminated(lines, pat);
    let found = line_break_of(text);
    let crlf = LineEnding::CRLF.text();
    let cr = LineEnding::CR.text();
    assert(seq!['\r', '\n'] == crlf && seq!['\r'] == cr && seq!['\n'] == LineEnding::LF.text());
    assert(lines.len() > 0) by {
        assert(lines == document_lines(settings, n - 1, padding) + lines_at(
            settings,
            n - 1,
            padding,
        ));
    }
    assert(text == terminated(lines.drop_last(), pat) + lines.last() + pat);
    lemma_find(text, crlf);
    lemma_find(text, cr);
    assert forall|i: int| 0 <= i < n implies (found == crlf ==> setting_pair_free(
        #[trigger] settings[i],
    )) && (found == cr ==> setting_without_cr(settings[i])) by {
        assert(readable(settings[i], found));
        lemma_field_readable(settings[i].category, found);
        lemma_field_readable(settings[i].key, found);
        lemma_field_readable(settings[i].value, found);
    }
    if line_ending == LineEnding::CRLF {
        assert(text[text.len() - 2] == pat[0]);
        assert(text[text.len() - 1] == pat[1]);
        lemma_breaks_at(text, LineEnding::CRLF, text.len() - 2);
        assert(occurs_at(text, crlf, text.len() - 2));
    } else {
        if found == crlf {
            assert forall|i: int, a: int|
                0 <= i < n && 0 <= a < lines_at(settings, i, padding).len() implies pair_free(
                #[trigger] lines_at(settings, i, padding)[a],
                line_ending,
            ) by {
                assert(setting_pair_free(settings[i]));
                lemma_lines_at_pair_free(settings, i, padding, line_ending);
            }
            lemma_document_lines_all(
                settings,
                n,
                padding,
                |line: Seq<char>| pair_free(line, line_ending),
            );
            lemma_text_pair_free(lines, line_ending);
            assert forall|j: int| !occurs_at(text, crlf, j) by {
                lemma_breaks_at(text, LineEnding::CRLF, j);
            }
            assert(false);
        }
        if line_ending == LineEnding::CR {
            assert(text[text.len() - 1] == pat[0]);
            lemma_breaks_at(text, LineEnding::CR, text.len() - 1);
            assert(occurs_at(text, cr, text.len() - 1));
        } else {
            if found == cr {
                assert forall|i: int, a: int|
                    0 <= i < n && 0 <= a < lines_at(settings, i, padding).len() implies without_cr(
                    #[trigger] lines_at(settings, i, padding)[a],
                ) by {
                    assert(setting_without_cr(settings[i]));
                    lemma_lines_at_without_cr(settings, i, padding);
                }
                lemma_document_lines_all(settings, n, padding, |line: Seq<char>| without_cr(line));
                lemma_text_without_cr(lines);
                assert forall|j: int| !occurs_at(text, cr, j) by {
                    lemma_breaks_at(text, LineEnding::CR, j);
                }
                assert(false);
            }
        }
    }
}

/// Settings that have the shape of settings read from their own document
/// fit in it.
proof fn lemma_readable_fits(settings: Seq<SettingView>, line_ending: LineEnding, padding: bool)
    requires
        forall|i: int|
            0 <= i < settings.len() ==> readable(
                #[trigger] settings[i],
                line_break_of(
                    terminated(
                        document_lines(settings, settings.len() as int, padding),
                        line_ending.text(),
                    ),
                ),
            ),
    ensures
        forall|i: int| 0 <= i < settings.len() ==> fits(#[trigger] settings[i], line_ending),
{
    let n = settings.len() as int;
    let pat = line_ending.text();
    let text = terminated(document_lines(settings, n, padding), pat);
    let cr = LineEnding::CR.text();
    if n > 0 {
        lemma_line_break_of_rendered(settings, line_ending, padding);
        assert forall|i: int| 0 <= i < n implies fits(#[trigger] settings[i], line_ending) by {
            assert(readable(settings[i], pat));
            if line_ending == LineEnding::LF {
                assert(seq!['\r', '\n'] == LineEnding::CRLF.text() && seq!['\r'] == cr);
                assert(LineEnding::CRLF.text().len() == 2 && cr[0] == '\r' && pat[0] == '\n');
                assert(!contains(text, cr));
                lemma_find(text, cr);
                assert forall|c: char|
                    settings[i].category.contains(c) || settings[i].key.contains(c)
                        || settings[i].value.contains(c) implies c != '\r' by {
                    lemma_field_in_text(settings, n, padding, pat, i, c);
                    let p = choose|p: int| 0 <= p < text.len() && text[p] == c;
                    lemma_breaks_at(text, LineEnding::CR, p);
                }
                lemma_holds_no_cr(settings[i].category);
                lemma_holds_no_cr(settings[i].key);
                lemma_holds_no_cr(settings[i].value);
            }
        }
    }
}

/// A field without the character `\r` does not hold the pattern of it.
proof fn lemma_holds_no_cr(field: Seq<char>)
    requires
        !field.contains('\r'),
    ensures
        !contains(field, LineEnding::CR.text()),
{
    assert forall|j: int| !occurs_at(field, LineEnding::CR.text(), j) by {
        lemma_breaks_at(field, LineEnding::CR, j);
        if 0 <= j < field.len() {
            assert(field.contains(field[j]));
        }
    }
    lemma_find_none(field, LineEnding::CR.text());
}

/// Whether no setting of a reader looks like a line that opens a category.
spec fn plain_settings(reader: Reader) -> bool {
    forall|k: Seq<char>| #[trigger]
        reader.settings.contains_key(k) ==> !looks_like_header(reader.settings[k])
}

/// The line of a setting that looks like one that opens a category is
/// read as one.
proof fn lemma_read_header_look(reader: Reader, setting: SettingView, padding: bool)
    requires
        looks_like_header(setting),
    ensures
        read_line(reader, setting_line(setting, padding)).settings == reader.settings,
{
    let line = setting_line(setting, padding);
    lemma_setting_line_chars(setting, padding);
    assert(line.first() == setting.key.first());
    assert(line.last() == setting.value.last());
    assert(is_header(line));
}

/// Reading the document of settings that fit stores no setting that
/// looks like a line that opens a category.
proof fn lemma_read_document_plain(
    settings: Seq<SettingView>,
    n: int,
    padding: bool,
    line_ending: LineEnding,
)
    requires
        0 <= n <= settings.len(),
        forall|i: int| 0 <= i < n ==> fits(#[trigger] settings[i], line_ending),
    ensures
        plain_settings(read_lines(start(), document_lines(settings, n, padding))),
    decreases n,
{
    if n > 0 {
        let i = n - 1;
        let setting = settings[i];
        let before = document_lines(settings, i, padding);
        let reader = read_lines(start(), before);
        let own = setting_line(setting, padding);
        let opening = header(setting.category);
        let blank = Seq::<char>::empty();
        lemma_read_document_plain(settings, i, padding, line_ending);
        lemma_read_lines_concat(start(), before, lines_at(settings, i, padding));
        assert(fits(settings[i], line_ending));
        let opened = if i == 0 || settings[i - 1].category != setting.category {
            Reader { category: setting.category, ..reader }
        } else {
            reader
        };
        assert(read_lines(reader, lines_at(settings, i, padding)) == read_line(opened, own)) by {
            lemma_read_lines_one(opened, own);
            lemma_read_lines_one(reader, opening);
            lemma_read_lines_one(reader, blank);
            lemma_read_header(reader, setting.category);
            if i == 0 {
                lemma_read_lines_concat(reader, seq![opening], seq![own]);
            } else if settings[i - 1].category != setting.category {
                assert(seq![blank, opening] + seq![own] =~= seq![blank] + (seq![opening] + seq![
                    own,
                ]));
                lemma_read_lines_concat(reader, seq![blank], seq![opening] + seq![own]);
                lemma_read_lines_concat(reader, seq![opening], seq![own]);
            }
        }
        if looks_like_header(setting) {
            lemma_read_header_look(opened, setting, padding);
        } else {
            lemma_read_setting_line(opened, setting, padding, line_ending);
        }
    }
}

/// Settings come back from their document only if they are a well-keyed
/// collection and every one of them survives.
pub proof fn lemma_decode_encode_only_if(
    settings: Map<Seq<char>, SettingView>,
    line_ending: LineEnding,
    padding: bool,
)
    requires
        decode(encode(settings, line_ending, padding)) == settings,
    ensures
        well_keyed(settings),
        forall|k: Seq<char>| #[trigger]
            settings.contains_key(k) ==> survives(settings[k], line_ending),
{
    let text = encode(settings, line_ending, padding);
    let sorted = in_order(settings);
    let n = sorted.len() as int;
    let lines = document_lines(sorted, n, padding);
    let blank = Seq::<char>::empty();
    lemma_decode_shape(text);
    vstd::map_lib::lemma_values_finite(settings);
    lemma_sorted_settings(settings.values());
    assert forall|i: int| 0 <= i < n implies readable(
        #[trigger] sorted[i],
        line_break_of(text),
    ) by {
        assert(sorted.to_set().contains(sorted[i]));
        assert(settings.values().contains(sorted[i]));
    }
    lemma_readable_fits(sorted, line_ending, padding);
    assert forall|k: Seq<char>| #[trigger] settings.contains_key(k) implies survives(
        settings[k],
        line_ending,
    ) by {
        assert(settings.values().contains(settings[k]));
        assert(sorted.to_set().contains(settings[k]));
        let i = choose|i: int| 0 <= i < n && sorted[i] == settings[k];
        assert(fits(sorted[i], line_ending));
        lemma_line_break_of_rendered(sorted, line_ending, padding);
        lemma_document_lines_fit(sorted, n, padding, line_ending);
        lemma_split_terminated(lines, line_ending);
        lemma_read_document_plain(sorted, n, padding, line_ending);
        lemma_read_lines_concat(start(), lines, seq![blank]);
        lemma_read_lines_one(read_lines(start(), lines), blank);
        assert(lines.push(blank) =~= lines + seq![blank]);
        assert(lines_of(text) == lines.push(blank));
        assert(decode(text) == read_lines(start(), lines).settings);
    }
}

/// Settings come back from their document if and only if they are a
/// well-keyed collection and every one of them survives.
pub proof fn lemma_decode_encode_iff(
    settings: Map<Seq<char>, SettingView>,
    line_ending: LineEnding,
    padding: bool,
)
    ensures
        decode(encode(settings, line_ending, padding)) == settings <==> well_keyed(settings)
            && forall|k: Seq<char>| #[trigger]
            settings.contains_key(k) ==> survives(settings[k], line_ending),
{
    if decode(encode(settings, line_ending, padding)) == settings {
        lemma_decode_encode_only_if(settings, line_ending, padding);
    }
    if well_keyed(settings) && forall|k: Seq<char>| #[trigger]
        settings.contains_key(k) ==> survives(settings[k], line_ending) {
        lemma_decode_encode(settings, line_ending, padding);
    }
}

/// A store comes back from what it saved only if every setting survives
/// the store's line ending.
pub proof fn lemma_save_reload_only_if(config: Config, saved: Seq<char>)
    requires
        saved == encode(config@, config.ending(), config.padded()),
        decode(saved) == config@,
    ensures
        forall|k: Seq<char>| #[trigger]
            config@.contains_key(k) ==> survives(config@[k], config.ending()),
{
    lemma_decode_encode_only_if(config@, config.ending(), config.padded());
}

} // verus!
