//! The text form of a collection of settings, and the way back.
//!
//! A document is a list of lines. A line `[category]` opens a category; the
//! lines `key=value` that follow belong to it; a blank line stands between
//! two categories. Every line ends with the line ending.

use crate::line_ending::LineEnding;
use crate::order::{
    arranged, lemma_sorted_settings_unique, record_of, record_views, sort_order, sorted_settings,
    Record,
};
use crate::setting::{setting_of, Setting, SettingView, KEY_VALUE_SEPARATOR};
use crate::table::{key_of, SettingTable};
use crate::text::{
    chars_of, contains, find_from, push_chars, rank_text, slice_of, split, split_text, trim,
    trim_text, views, Rank,
};
use vstd::prelude::*;

verus! {

/// The character that opens a category line.
pub const CATEGORY_START: char = '[';

/// The character that closes a category line.
pub const CATEGORY_END: char = ']';

/// The line that opens `category`.
pub open spec fn header(category: Seq<char>) -> Seq<char> {
    seq![CATEGORY_START] + category + seq![CATEGORY_END]
}

/// What stands between a key and its value: the separator, with a space on
/// each side if `padding` is set.
pub open spec fn separator(padding: bool) -> Seq<char> {
    if padding {
        seq![' ', KEY_VALUE_SEPARATOR, ' ']
    } else {
        seq![KEY_VALUE_SEPARATOR]
    }
}

/// The line of a setting.
pub open spec fn setting_line(setting: SettingView, padding: bool) -> Seq<char> {
    setting.key + separator(padding) + setting.value
}

/// The lines that the setting at place `i` adds to the document: its own
/// line, and before it, where it is the first of its category, the line
/// that opens the category, after a blank line unless the document begins
/// here.
pub open spec fn lines_at(settings: Seq<SettingView>, i: int, padding: bool) -> Seq<Seq<char>> {
    let own = seq![setting_line(settings[i], padding)];
    if i == 0 {
        seq![header(settings[i].category)] + own
    } else if settings[i - 1].category != settings[i].category {
        seq![Seq::<char>::empty(), header(settings[i].category)] + own
    } else {
        own
    }
}

/// The lines of the document of the first `n` settings.
pub open spec fn document_lines(settings: Seq<SettingView>, n: int, padding: bool) -> Seq<
    Seq<char>,
>
    decreases n,
{
    if n <= 0 {
        Seq::empty()
    } else {
        document_lines(settings, n - 1, padding) + lines_at(settings, n - 1, padding)
    }
}

/// The lines one after the other, each followed by `line_break`.
pub open spec fn terminated(lines: Seq<Seq<char>>, line_break: Seq<char>) -> Seq<char>
    decreases lines.len(),
{
    if lines.len() == 0 {
        Seq::empty()
    } else {
        terminated(lines.drop_last(), line_break) + lines.last() + line_break
    }
}

/// The document of `settings`, taken in the order given.
pub open spec fn render(settings: Seq<SettingView>, line_break: Seq<char>, padding: bool) -> Seq<
    char,
> {
    terminated(document_lines(settings, settings.len() as int, padding), line_break)
}

/// The settings of a collection in the order of settings.
pub open spec fn in_order(settings: Map<Seq<char>, SettingView>) -> Seq<SettingView> {
    sorted_settings(settings.values())
}

/// The document of a collection of settings: categories in order, and in
/// each category the keys in order.
pub open spec fn encode(
    settings: Map<Seq<char>, SettingView>,
    line_ending: LineEnding,
    padding: bool,
) -> Seq<char> {
    render(in_order(settings), line_ending.text(), padding)
}

/// The line break of a document: the first of `\r\n`, `\r` and `\n` that
/// stands anywhere in it, and `\n` if none does.
pub open spec fn line_break_of(text: Seq<char>) -> Seq<char> {
    if contains(text, seq!['\r', '\n']) {
        seq!['\r', '\n']
    } else if contains(text, seq!['\r']) {
        seq!['\r']
    } else {
        seq!['\n']
    }
}

/// What has been read of a document: the category that the next setting
/// falls under, and the settings so far.
pub ghost struct Reader {
    pub category: Seq<char>,
    pub settings: Map<Seq<char>, SettingView>,
}

/// The state before the first line: the empty category and no setting.
pub open spec fn start() -> Reader {
    Reader { category: Seq::empty(), settings: Map::empty() }
}

/// Whether `line` opens a category.
pub open spec fn is_header(line: Seq<char>) -> bool {
    line.len() > 0 && line.first() == CATEGORY_START && line.last() == CATEGORY_END
}

/// The state after `line`. A blank line changes nothing. A line that
/// opens a category makes it the current one. Any other line with exactly
/// one separator gives a setting of the current category, key and value
/// without the whitespace around them, stored under its map key in place
/// of what was there. Any other line is passed over.
pub open spec fn read_line(reader: Reader, line: Seq<char>) -> Reader {
    if line.len() == 0 {
        reader
    } else if is_header(line) {
        Reader { category: line.subrange(1, line.len() - 1), ..reader }
    } else {
        let parts = split(line, seq![KEY_VALUE_SEPARATOR]);
        if parts.len() == 2 {
            let setting = setting_of(reader.category, trim(parts[0]), trim(parts[1]));
            Reader { settings: reader.settings.insert(key_of(setting), setting), ..reader }
        } else {
            reader
        }
    }
}

/// The state after `lines`, read from first to last.
pub open spec fn read_lines(reader: Reader, lines: Seq<Seq<char>>) -> Reader
    decreases lines.len(),
{
    if lines.len() == 0 {
        reader
    } else {
        read_lines(read_line(reader, lines.first()), lines.drop_first())
    }
}

/// The lines of a document: its pieces between the line breaks.
pub open spec fn lines_of(text: Seq<char>) -> Seq<Seq<char>> {
    split(text, line_break_of(text))
}

/// The settings that a document holds.
pub open spec fn decode(text: Seq<char>) -> Map<Seq<char>, SettingView> {
    read_lines(start(), lines_of(text)).settings
}

/// Whether `line` is one that the reader passes over: it is not blank, it
/// opens no category, and it does not hold exactly one separator.
pub open spec fn is_malformed(line: Seq<char>) -> bool {
    line.len() > 0 && !is_header(line) && split(line, seq![KEY_VALUE_SEPARATOR]).len() != 2
}

/// A line that the reader passes over changes nothing.
pub proof fn lemma_malformed_line_is_passed_over(reader: Reader, line: Seq<char>)
    requires
        is_malformed(line),
    ensures
        read_line(reader, line) == reader,
{
}

/// Reading some lines and then others is reading them all.
pub proof fn lemma_read_lines_concat(reader: Reader, a: Seq<Seq<char>>, b: Seq<Seq<char>>)
    ensures
        read_lines(reader, a + b) == read_lines(read_lines(reader, a), b),
    decreases a.len(),
{
    if a.len() == 0 {
        assert(a + b =~= b);
    } else {
        assert((a + b).first() == a.first());
        assert((a + b).drop_first() =~= a.drop_first() + b);
        lemma_read_lines_concat(read_line(reader, a.first()), a.drop_first(), b);
    }
}

/// Reading one line.
pub proof fn lemma_read_lines_one(reader: Reader, line: Seq<char>)
    ensures
        read_lines(reader, seq![line]) == read_line(reader, line),
{
    assert(seq![line].drop_first() =~= Seq::<Seq<char>>::empty());
    assert(read_lines(read_line(reader, line), seq![line].drop_first()) == read_line(
        reader,
        line,
    ));
}

/// A line that the reader passes over can as well be left out: the lines
/// before it and behind it are read as if it were not there.
pub proof fn lemma_malformed_line_is_dropped(
    reader: Reader,
    before: Seq<Seq<char>>,
    line: Seq<char>,
    behind: Seq<Seq<char>>,
)
    requires
        is_malformed(line),
    ensures
        read_lines(reader, before + seq![line] + behind) == read_lines(reader, before + behind),
{
    let read = read_lines(reader, before);
    lemma_read_lines_concat(reader, before + seq![line], behind);
    lemma_read_lines_concat(reader, before, seq![line]);
    lemma_read_lines_one(read, line);
    lemma_read_lines_concat(reader, before, behind);
}

/// Finds the line break of a document.
pub fn detect_line_break(text: &Vec<char>) -> (line_break: Vec<char>)
    ensures
        line_break@ == line_break_of(text@),
        line_break.len() > 0,
{
    let crlf = LineEnding::CRLF.chars();
    let cr = LineEnding::CR.chars();
    proof {
        assert(text@.skip(0) =~= text@);
    }
    if find_from(text, &crlf, 0).is_some() {
        crlf
    } else if find_from(text, &cr, 0).is_some() {
        cr
    } else {
        LineEnding::LF.chars()
    }
}

/// Reads one line into the table.
fn read_line_into(line: &Vec<char>, category: &mut Vec<char>, table: &mut SettingTable)
    requires
        old(table).wf(),
    ensures
        final(table).wf(),
        (Reader { category: final(category)@, settings: final(table)@ }) == read_line(
            Reader { category: old(category)@, settings: old(table)@ },
            line@,
        ),
{
    let n = line.len();
    if n == 0 {
        return;
    }
    if line[0] == CATEGORY_START && line[n - 1] == CATEGORY_END {
        *category = slice_of(line, 1, n - 1);
        return;
    }
    let pattern = vec![KEY_VALUE_SEPARATOR];
    proof {
        assert(pattern@ =~= seq![KEY_VALUE_SEPARATOR]);
    }
    let parts = split_text(line, &pattern);
    proof {
        assert(views(parts@).len() == parts@.len());
    }
    if parts.len() == 2 {
        assert(views(parts@)[0] == parts@[0]@);
        assert(views(parts@)[1] == parts@[1]@);
        let key = trim_text(&parts[0]);
        let value = trim_text(&parts[1]);
        table.insert(Setting::from_chars(category, &key, &value));
    }
}

/// Reads the settings that a document holds.
pub fn decode_text(text: &str) -> (table: SettingTable)
    ensures
        table.wf(),
        table@ == decode(text@),
{
    let chars = chars_of(text);
    let line_break = detect_line_break(&chars);
    let lines = split_text(&chars, &line_break);
    let mut table = SettingTable::new();
    let mut category: Vec<char> = Vec::new();
    let mut i: usize = 0;
    proof {
        assert(views(lines@).skip(0) =~= views(lines@));
    }
    while i < lines.len()
        invariant
            i <= lines.len(),
            table.wf(),
            read_lines(
                Reader { category: category@, settings: table@ },
                views(lines@).skip(i as int),
            ) == read_lines(start(), views(lines@)),
        decreases lines.len() - i,
    {
        proof {
            let rest = views(lines@).skip(i as int);
            assert(rest.first() == lines@[i as int]@);
            assert(rest.drop_first() =~= views(lines@).skip(i + 1));
        }
        read_line_into(&lines[i], &mut category, &mut table);
        i = i + 1;
    }
    table
}

/// The text of some lines followed by the text of others is the text of
/// them all.
pub proof fn lemma_terminated_concat(a: Seq<Seq<char>>, b: Seq<Seq<char>>, line_break: Seq<char>)
    ensures
        terminated(a + b, line_break) == terminated(a, line_break) + terminated(b, line_break),
    decreases b.len(),
{
    if b.len() == 0 {
        assert(a + b =~= a);
        assert(terminated(a, line_break) + terminated(b, line_break) =~= terminated(
            a,
            line_break,
        ));
    } else {
        lemma_terminated_concat(a, b.drop_last(), line_break);
        assert((a + b).drop_last() =~= a + b.drop_last());
        assert((a + b).last() == b.last());
        assert(terminated(a + b, line_break) =~= terminated(a, line_break) + terminated(
            b,
            line_break,
        ));
    }
}

/// The text of one line.
pub proof fn lemma_terminated_one(line: Seq<char>, line_break: Seq<char>)
    ensures
        terminated(seq![line], line_break) == line + line_break,
{
    assert(seq![line].drop_last() =~= Seq::<Seq<char>>::empty());
    assert(terminated(seq![line].drop_last(), line_break) =~= Seq::<char>::empty());
    assert(terminated(seq![line], line_break) =~= line + line_break);
}

/// The records of the settings of a table, place by place.
fn records_of(table: &SettingTable) -> (records: Vec<Record>)
    requires
        table.wf(),
    ensures
        record_views(records@) == table.listed(),
{
    let n = table.len();
    let mut records: Vec<Record> = Vec::new();
    let mut i: usize = 0;
    while i < n
        invariant
            i <= n,
            n == table.listed().len(),
            records@.len() == i,
            forall|j: int| 0 <= j < i ==> (#[trigger] records@[j])@ == table.listed()[j],
        decreases n - i,
    {
        records.push(record_of(table.setting_at(i)));
        i = i + 1;
    }
    assert(record_views(records@) =~= table.listed());
    records
}

/// The text of the lines that the setting at place `i` adds.
pub proof fn lemma_lines_at_text(
    settings: Seq<SettingView>,
    i: int,
    padding: bool,
    line_break: Seq<char>,
)
    ensures
        terminated(lines_at(settings, i, padding), line_break) == if i == 0 {
            (header(settings[i].category) + line_break) + (setting_line(settings[i], padding)
                + line_break)
        } else if settings[i - 1].category != settings[i].category {
            line_break + ((header(settings[i].category) + line_break) + (setting_line(
                settings[i],
                padding,
            ) + line_break))
        } else {
            setting_line(settings[i], padding) + line_break
        },
{
    let own = setting_line(settings[i], padding);
    let opening = header(settings[i].category);
    let blank = Seq::<char>::empty();
    lemma_terminated_one(own, line_break);
    lemma_terminated_one(opening, line_break);
    lemma_terminated_one(blank, line_break);
    lemma_terminated_concat(seq![opening], seq![own], line_break);
    lemma_terminated_concat(seq![blank], seq![opening] + seq![own], line_break);
    assert(seq![blank, opening] + seq![own] =~= seq![blank] + (seq![opening] + seq![own]));
    assert(blank + line_break =~= line_break);
}

/// Appends a line break to `out`.
fn push_break(out: &mut String, line_break: &Vec<char>)
    ensures
        final(out)@ == old(out)@ + line_break@,
{
    assert(line_break@.subrange(0, line_break@.len() as int) =~= line_break@);
    push_chars(out, line_break, 0, line_break.len());
}

/// Appends to `out` the line that opens `category`.
fn push_header(out: &mut String, category: &Vec<char>, line_break: &Vec<char>)
    ensures
        final(out)@ == old(out)@ + (header(category@) + line_break@),
{
    assert(category@.subrange(0, category@.len() as int) =~= category@);
    out.push(CATEGORY_START);
    push_chars(out, category, 0, category.len());
    out.push(CATEGORY_END);
    push_break(out, line_break);
    assert(out@ =~= old(out)@ + (header(category@) + line_break@));
}

/// Appends to `out` the line of a setting.
fn push_setting_line(out: &mut String, record: &Record, padding: bool, line_break: &Vec<char>)
    ensures
        final(out)@ == old(out)@ + (setting_line(record@, padding) + line_break@),
{
    assert(record.key@.subrange(0, record.key@.len() as int) =~= record.key@);
    assert(record.value@.subrange(0, record.value@.len() as int) =~= record.value@);
    push_chars(out, &record.key, 0, record.key.len());
    if padding {
        out.push(' ');
    }
    out.push(KEY_VALUE_SEPARATOR);
    if padding {
        out.push(' ');
    }
    let ghost keyed = out@;
    assert(keyed =~= old(out)@ + (record@.key + separator(padding)));
    push_chars(out, &record.value, 0, record.value.len());
    push_break(out, line_break);
    assert(out@ =~= old(out)@ + (setting_line(record@, padding) + line_break@));
}

/// Appends to `out` the lines that the setting at place `i` of the sorted
/// arrangement adds to the document.
fn push_lines_at(
    out: &mut String,
    records: &Vec<Record>,
    order: &Vec<usize>,
    i: usize,
    line_break: &Vec<char>,
    padding: bool,
)
    requires
        i < order@.len(),
        forall|j: int| 0 <= j < order@.len() ==> order@[j] < records@.len(),
    ensures
        final(out)@ == old(out)@ + terminated(
            lines_at(arranged(record_views(records@), order@), i as int, padding),
            line_break@,
        ),
{
    let ghost sorted = arranged(record_views(records@), order@);
    let ghost eol = line_break@;
    let record = &records[order[i]];
    assert(record@ == sorted[i as int]);
    proof {
        lemma_lines_at_text(sorted, i as int, padding, eol);
    }
    if i == 0 {
        push_header(out, &record.category, line_break);
    } else {
        assert(records@[order@[i - 1] as int]@ == sorted[i - 1]);
        if rank_text(&records[order[i - 1]].category, &record.category) != Rank::Same {
            push_break(out, line_break);
            push_header(out, &record.category, line_break);
        }
    }
    push_setting_line(out, record, padding, line_break);
    assert(out@ =~= old(out)@ + terminated(lines_at(sorted, i as int, padding), eol));
}

/// Writes the document of the settings of a table.
pub fn encode_table(table: &SettingTable, line_ending: LineEnding, padding: bool) -> (text: String)
    requires
        table.wf(),
    ensures
        text@ == encode(table@, line_ending, padding),
{
    let records = records_of(table);
    let order = sort_order(&records);
    let line_break = line_ending.chars();
    let ghost sorted = arranged(record_views(records@), order@);
    proof {
        let listed = table.listed();
        table.lemma_listed();
        vstd::seq_lib::seq_to_set_is_finite(listed);
        assert forall|a: int, b: int| 0 <= a < sorted.len() && 0 <= b < sorted.len() && a
            != b implies sorted[a] != sorted[b] by {
            assert(order@[a] != order@[b]);
        }
        assert forall|x: SettingView| sorted.to_set().contains(x) <==> listed.to_set().contains(
            x,
        ) by {
            if sorted.to_set().contains(x) {
                let a = choose|a: int| 0 <= a < sorted.len() && sorted[a] == x;
                assert(listed[order@[a] as int] == x);
            }
            if listed.to_set().contains(x) {
                let p = choose|p: int| 0 <= p < listed.len() && listed[p] == x;
                assert(order@.contains(p as usize));
                let a = choose|a: int| 0 <= a < order@.len() && order@[a] == p as usize;
                assert(sorted[a] == x);
            }
        }
        assert(sorted.to_set() =~= table@.values());
        lemma_sorted_settings_unique(table@.values(), sorted);
    }
    let mut out = String::new();
    let mut i: usize = 0;
    while i < order.len()
        invariant
            i <= order@.len(),
            sorted == arranged(record_views(records@), order@),
            forall|j: int| 0 <= j < order@.len() ==> order@[j] < records@.len(),
            out@ == terminated(document_lines(sorted, i as int, padding), line_break@),
        decreases order.len() - i,
    {
        push_lines_at(&mut out, &records, &order, i, &line_break, padding);
        proof {
            lemma_terminated_concat(
                document_lines(sorted, i as int, padding),
                lines_at(sorted, i as int, padding),
                line_break@,
            );
        }
        i = i + 1;
    }
    out
}

/// The numbers of the lines of a document that the reader passes over,
/// counted from one, in rising order.
pub fn malformed_lines(text: &str) -> (numbers: Vec<usize>)
    ensures
        forall|n: usize|
            numbers@.contains(n) <==> 1 <= n <= lines_of(text@).len() && is_malformed(
                #[trigger] lines_of(text@)[n - 1],
            ),
        forall|i: int, j: int| 0 <= i < j < numbers@.len() ==> numbers@[i] < numbers@[j],
{
    let chars = chars_of(text);
    let line_break = detect_line_break(&chars);
    let lines = split_text(&chars, &line_break);
    let pattern = vec![KEY_VALUE_SEPARATOR];
    proof {
        assert(pattern@ =~= seq![KEY_VALUE_SEPARATOR]);
    }
    let ghost all = lines_of(text@);
    let mut numbers: Vec<usize> = Vec::new();
    let mut i: usize = 0;
    while i < lines.len()
        invariant
            i <= lines.len(),
            all == views(lines@),
            pattern@ == seq![KEY_VALUE_SEPARATOR],
            forall|n: usize|
                numbers@.contains(n) <==> 1 <= n <= i && is_malformed(#[trigger] all[n - 1]),
            forall|a: int| 0 <= a < numbers@.len() ==> 1 <= #[trigger] numbers@[a] <= i,
            forall|a: int, b: int| 0 <= a < b < numbers@.len() ==> numbers@[a] < numbers@[b],
        decreases lines.len() - i,
    {
        let line = &lines[i];
        let n = line.len();
        assert(all[i as int] == line@);
        let ghost before = numbers@;
        let mut malformed = false;
        if n > 0 && !(line[0] == CATEGORY_START && line[n - 1] == CATEGORY_END) {
            let parts = split_text(line, &pattern);
            assert(views(parts@).len() == parts@.len());
            malformed = parts.len() != 2;
        }
        if malformed {
            numbers.push(i + 1);
        }
        proof {
            assert forall|k: usize|
                numbers@.contains(k) <==> 1 <= k <= i + 1 && is_malformed(
                    #[trigger] all[k - 1],
                ) by {
                if malformed {
                    assert(numbers@ =~= before.push((i + 1) as usize));
                    assert(numbers@[before.len() as int] == i + 1);
                    if before.contains(k) {
                        let a = choose|a: int| 0 <= a < before.len() && before[a] == k;
                        assert(numbers@[a] == k);
                    }
                    if numbers@.contains(k) && k != i + 1 {
                        let a = choose|a: int| 0 <= a < numbers@.len() && numbers@[a] == k;
                        assert(before[a] == k);
                    }
                } else {
                    assert(numbers@ == before);
                }
            }
        }
        i = i + 1;
    }
    numbers
}

} // verus!
