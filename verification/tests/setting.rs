use cconfig::text::Rank;
use cconfig::Setting;

fn owned(value: &str) -> String {
    String::from(value)
}

#[test]
fn new_keeps_category_and_value() {
    let setting = Setting::new(&owned("cat"), &owned("key"), &20u128);
    assert_eq!(setting.get_category(), "cat");
    assert_eq!(setting.get_key(), "key");
    assert_eq!(setting.get_value_string(), "20");
}

#[test]
fn new_strips_separators_from_the_key() {
    let setting = Setting::new(&owned("cat"), &owned("a=b"), &1);
    assert_eq!(setting.get_key(), "ab");
    let setting = Setting::new(&owned("c=d"), &owned("=x==y="), &"v=w");
    assert_eq!(setting.get_key(), "xy");
    assert_eq!(setting.get_category(), "c=d");
    assert_eq!(setting.get_value_string(), "v=w");
}

#[test]
fn new_does_not_trim_the_value() {
    let setting = Setting::new(&owned("cat"), &owned("k"), &"  padded ");
    assert_eq!(setting.get_value_string(), "  padded ");
}

#[test]
fn from_text_makes_the_same_setting_as_new() {
    let made = Setting::from_text("cat", "a=b", "7");
    assert_eq!(made.get_category(), "cat");
    assert_eq!(made.get_key(), "ab");
    assert_eq!(made.get_value_string(), "7");
}

#[test]
fn from_chars_strips_separators_from_the_key() {
    let category: Vec<char> = "c".chars().collect();
    let key: Vec<char> = "k=".chars().collect();
    let value: Vec<char> = "v".chars().collect();
    let made = Setting::from_chars(&category, &key, &value);
    assert_eq!(made.get_category(), "c");
    assert_eq!(made.get_key(), "k");
    assert_eq!(made.get_value_string(), "v");
}

#[test]
fn get_value_parses_the_text() {
    let setting = Setting::new(&owned("cat"), &owned("k"), &42);
    assert_eq!(setting.get_value::<i32>(5), 42);
    assert_eq!(setting.get_value::<u128>(5), 42);
    assert_eq!(setting.get_value::<String>(owned("d")), "42");
    let flag = Setting::new(&owned("cat"), &owned("k"), &true);
    assert!(flag.get_value::<bool>(false));
}

#[test]
fn get_value_falls_back_to_the_default() {
    let setting = Setting::new(&owned("cat"), &owned("k"), &"abc");
    assert_eq!(setting.get_value::<i32>(5), 5);
    let negative = Setting::new(&owned("cat"), &owned("k"), &-1);
    assert_eq!(negative.get_value::<u8>(9), 9);
    let empty = Setting::new(&owned("cat"), &owned("k"), &"");
    assert_eq!(empty.get_value::<i64>(-3), -3);
}

#[test]
fn value_or_picks_the_parsed_value_or_the_default() {
    assert_eq!(Setting::value_or(Some(3), 5), 3);
    assert_eq!(Setting::value_or(None, 5), 5);
}

#[test]
fn set_value_replaces_and_trims() {
    let mut setting = Setting::new(&owned("cat"), &owned("k"), &1);
    setting.set_value(31u8);
    assert_eq!(setting.get_value_string(), "31");
    setting.set_value("  spaced out \t");
    assert_eq!(setting.get_value_string(), "spaced out");
    setting.set_value("   ");
    assert_eq!(setting.get_value_string(), "");
    assert_eq!(setting.get_category(), "cat");
    assert_eq!(setting.get_key(), "k");
}

#[test]
fn set_value_text_replaces_and_trims() {
    let mut setting = Setting::from_text("cat", "k", "1");
    setting.set_value_text("\u{a0}x y\n");
    assert_eq!(setting.get_value_string(), "x y");
}

#[test]
fn clone_copies_the_three_texts() {
    let setting = Setting::from_text("cat", "k", "v");
    let copy = setting.clone();
    assert_eq!(copy.get_category(), "cat");
    assert_eq!(copy.get_key(), "k");
    assert_eq!(copy.get_value_string(), "v");
}

#[test]
fn rank_orders_by_category_then_key_then_value() {
    let a = Setting::from_text("a", "z", "9");
    let b = Setting::from_text("b", "a", "0");
    assert_eq!(a.rank(&b), Rank::Before);
    assert_eq!(b.rank(&a), Rank::After);
    let c = Setting::from_text("a", "zz", "0");
    assert_eq!(a.rank(&c), Rank::Before);
    let d = Setting::from_text("a", "z", "90");
    assert_eq!(a.rank(&d), Rank::Before);
    assert_eq!(d.rank(&a), Rank::After);
    assert_eq!(a.rank(&a.clone()), Rank::Same);
    let split_one = Setting::from_text("ab", "c", "1");
    let split_two = Setting::from_text("a", "bc", "1");
    assert_eq!(split_one.rank(&split_two), Rank::After);
}
