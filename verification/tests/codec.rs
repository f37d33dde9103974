use cconfig::codec::{decode_text, detect_line_break, encode_table, malformed_lines};
use cconfig::table::SettingTable;
use cconfig::{LineEnding, Setting};

fn value_at(table: &SettingTable, map_key: &str) -> Option<String> {
    table.get(map_key).map(|setting| setting.get_value_string().clone())
}

fn table_of(settings: &[(&str, &str, &str)]) -> SettingTable {
    let mut table = SettingTable::new();
    for (category, key, value) in settings {
        table.insert(Setting::from_text(category, key, value));
    }
    table
}

#[test]
fn decode_reads_categories_and_settings() {
    let table = decode_text("[a]\nk1=v1\nk2 = v2\n\n[b]\nk3=v3\n");
    assert_eq!(table.len(), 3);
    assert_eq!(value_at(&table, "ak1"), Some(String::from("v1")));
    assert_eq!(value_at(&table, "ak2"), Some(String::from("v2")));
    assert_eq!(value_at(&table, "bk3"), Some(String::from("v3")));
    let setting = table.get("ak2").unwrap();
    assert_eq!(setting.get_category(), "a");
    assert_eq!(setting.get_key(), "k2");
}

#[test]
fn decode_passes_over_a_malformed_line() {
    let table = decode_text("novalue\nk=v");
    assert_eq!(table.len(), 1);
    let setting = table.get("k").unwrap();
    assert_eq!(setting.get_category(), "");
    assert_eq!(setting.get_key(), "k");
    assert_eq!(setting.get_value_string(), "v");
}

#[test]
fn decode_rejects_a_line_with_two_separators() {
    let table = decode_text("[c]\na=b=c\nd=e\n=\n");
    assert_eq!(table.len(), 2);
    assert_eq!(value_at(&table, "cd"), Some(String::from("e")));
    assert_eq!(value_at(&table, "c"), Some(String::from("")));
    assert!(table.get("ca").is_none());
}

#[test]
fn decode_of_nothing_is_empty() {
    assert_eq!(decode_text("").len(), 0);
    assert_eq!(decode_text("\n\n\n").len(), 0);
    assert_eq!(decode_text("[only]\n").len(), 0);
}

#[test]
fn decode_trims_key_and_value_but_not_the_category() {
    let table = decode_text("[ c ]\n \t key \u{a0}=  some value \n");
    assert_eq!(table.len(), 1);
    let setting = table.get(" c key").unwrap();
    assert_eq!(setting.get_category(), " c ");
    assert_eq!(setting.get_key(), "key");
    assert_eq!(setting.get_value_string(), "some value");
}

#[test]
fn decode_takes_a_bracketed_line_for_a_category() {
    let table = decode_text("[a=b]\nk=v\n[]\nk=w\n[\nx=1\n]\n[x]y\n");
    assert_eq!(table.len(), 3);
    assert_eq!(table.get("a=bk").unwrap().get_category(), "a=b");
    assert_eq!(value_at(&table, "k"), Some(String::from("w")));
    assert_eq!(table.get("k").unwrap().get_category(), "");
    assert_eq!(value_at(&table, "x"), Some(String::from("1")));
}

#[test]
fn decode_lets_a_later_line_win() {
    let table = decode_text("[c]\nk=1\nk=2\n[c]\nk=3\n");
    assert_eq!(table.len(), 1);
    assert_eq!(value_at(&table, "ck"), Some(String::from("3")));
}

#[test]
fn decode_stores_by_the_joined_category_and_key() {
    let table = decode_text("[ab]\nc=1\n[a]\nbc=2\n");
    assert_eq!(table.len(), 1);
    let setting = table.get("abc").unwrap();
    assert_eq!(setting.get_category(), "a");
    assert_eq!(setting.get_key(), "bc");
    assert_eq!(setting.get_value_string(), "2");
}

#[test]
fn decode_finds_the_line_break() {
    let crlf = decode_text("[c]\r\nk=1\r\nj=2");
    assert_eq!(crlf.len(), 2);
    assert_eq!(value_at(&crlf, "ck"), Some(String::from("1")));
    let cr = decode_text("[c]\rk=1\rj=2\r");
    assert_eq!(cr.len(), 2);
    assert_eq!(value_at(&cr, "cj"), Some(String::from("2")));
    let mixed = decode_text("[c]\nk=1\r\nj=2\nh=3\r\n");
    assert_eq!(mixed.len(), 1);
    assert!(mixed.get("cj").is_none());
    assert!(mixed.get("[c]\nk").is_some());
    assert_eq!(value_at(&mixed, "[c]\nk"), Some(String::from("1")));
}

#[test]
fn detect_line_break_prefers_crlf_then_cr() {
    let chars = |text: &str| text.chars().collect::<Vec<char>>();
    assert_eq!(detect_line_break(&chars("a\nb\r\nc\rd")), vec!['\r', '\n']);
    assert_eq!(detect_line_break(&chars("a\nb\rc")), vec!['\r']);
    assert_eq!(detect_line_break(&chars("a\nb")), vec!['\n']);
    assert_eq!(detect_line_break(&chars("ab")), vec!['\n']);
    assert_eq!(detect_line_break(&chars("")), vec!['\n']);
}

#[test]
fn encode_sorts_categories_and_keys() {
    let table = table_of(&[
        ("zeta", "b", "4"),
        ("alpha", "y", "2"),
        ("zeta", "a", "3"),
        ("alpha", "x", "1"),
        ("Beta", "k", "0"),
    ]);
    assert_eq!(
        encode_table(&table, LineEnding::LF, false),
        "[Beta]\nk=0\n\n[alpha]\nx=1\ny=2\n\n[zeta]\na=3\nb=4\n"
    );
}

#[test]
fn encode_pads_the_separator() {
    let table = table_of(&[("c", "k", "v"), ("c", "", "")]);
    assert_eq!(encode_table(&table, LineEnding::LF, true), "[c]\n = \nk = v\n");
    assert_eq!(encode_table(&table, LineEnding::LF, false), "[c]\n=\nk=v\n");
}

#[test]
fn encode_writes_the_line_ending() {
    let table = table_of(&[("a", "k", "1"), ("b", "k", "2")]);
    assert_eq!(encode_table(&table, LineEnding::CRLF, false), "[a]\r\nk=1\r\n\r\n[b]\r\nk=2\r\n");
    assert_eq!(encode_table(&table, LineEnding::CR, true), "[a]\rk = 1\r\r[b]\rk = 2\r");
}

#[test]
fn encode_of_nothing_is_empty() {
    assert_eq!(encode_table(&SettingTable::new(), LineEnding::CRLF, true), "");
}

#[test]
fn encode_opens_the_empty_category_too() {
    let table = table_of(&[("", "k", "1"), ("c", "k", "2")]);
    assert_eq!(encode_table(&table, LineEnding::LF, false), "[]\nk=1\n\n[c]\nk=2\n");
}

#[test]
fn encode_orders_text_by_code_point() {
    let table = table_of(&[("c", "é", "1"), ("c", "z", "2"), ("c", "Z", "3"), ("c", "a b", "4")]);
    assert_eq!(encode_table(&table, LineEnding::LF, false), "[c]\nZ=3\na b=4\nz=2\né=1\n");
}

#[test]
fn encode_handles_many_settings() {
    let mut table = SettingTable::new();
    let mut expected = String::new();
    let mut i = 300;
    while i > 0 {
        i -= 1;
        table.insert(Setting::from_text("c", &format!("k{:03}", (i * 7) % 300), &format!("{}", i)));
    }
    expected.push_str("[c]\n");
    for k in 0..300 {
        let i = (0..300).find(|i| (i * 7) % 300 == k).unwrap();
        expected.push_str(&format!("k{:03}={}\n", k, i));
    }
    assert_eq!(encode_table(&table, LineEnding::LF, false), expected);
}

#[test]
fn malformed_lines_are_numbered_from_one() {
    assert_eq!(malformed_lines("novalue\nk=v"), vec![1]);
    assert_eq!(malformed_lines("[c]\n\nk=v\na=b=c\n[\n]\n=\nx\n"), vec![4, 5, 6, 8]);
    assert_eq!(malformed_lines("[c]\r\nbad\r\nk=v\r\n"), vec![2]);
    assert_eq!(malformed_lines("a\rb\nc=d\r"), vec![1]);
    assert_eq!(malformed_lines(""), Vec::<usize>::new());
    assert_eq!(malformed_lines("[c]\nk=v\n\n"), Vec::<usize>::new());
}
