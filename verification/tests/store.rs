use cconfig::{Config, LineEnding, Setting};

fn text(value: &str) -> String {
    String::from(value)
}

fn empty_store(line_ending: LineEnding, padding: bool) -> Config {
    Config::new(&text("test/foo.txt"), line_ending, padding, None)
}

fn triples(config: &Config, names: &[(&str, &str)]) -> Vec<(String, String, String)> {
    let mut found = Vec::new();
    for (category, key) in names {
        if let Some(setting) = config.get(&text(category), &text(key)) {
            found.push((
                setting.get_category().clone(),
                setting.get_key().clone(),
                setting.get_value_string().clone(),
            ));
        }
    }
    found
}

#[test]
fn key_stripping() {
    let mut config = empty_store(LineEnding::LF, false);
    config.add(&text("cat"), &text("a=b"), &1);
    let setting = config.get(&text("cat"), &text("ab")).unwrap();
    assert_eq!(setting.get_key(), "ab");
    assert_eq!(setting.get_category(), "cat");
    assert_eq!(setting.get_value_string(), "1");
    assert!(!config.has_setting(&text("cat"), &text("a=b")));
    assert_eq!(config.save(), "[cat]\nab=1\n");
}

#[test]
fn default_fallback() {
    let mut config = empty_store(LineEnding::LF, false);
    config.add(&text("cat"), &text("k"), &"abc");
    let setting = config.get(&text("cat"), &text("k")).unwrap();
    assert_eq!(setting.get_value::<i32>(5), 5);
}

#[test]
fn tolerant_decode() {
    let config = Config::new(&text("f"), LineEnding::LF, false, Some("novalue\nk=v\n"));
    assert_eq!(config.len(), 1);
    let setting = config.get(&text(""), &text("k")).unwrap();
    assert_eq!(setting.get_value_string(), "v");
}

#[test]
fn missing_file_construction() {
    let config = empty_store(LineEnding::LF, true);
    assert_eq!(config.len(), 0);
    assert_eq!(config.save(), "");
    assert_eq!(config.file_path(), "test/foo.txt");
    assert_eq!(config.line_ending(), LineEnding::LF);
    assert!(config.padding());
    let created = Config::new(&text("f"), LineEnding::CR, false, Some(""));
    assert_eq!(created.len(), 0);
}

#[test]
fn example_scenario() {
    let mut config = empty_store(LineEnding::LF, true);
    config.add(&text("cat1"), &text("k1"), &20);
    config.add(&text("cat1"), &text("k2"), &30);
    let saved = config.save();
    assert_eq!(saved, "[cat1]\nk1 = 20\nk2 = 30\n");
    config.reload(Some(saved.as_str()));
    assert_eq!(config.len(), 2);
    let setting = config.get(&text("cat1"), &text("k1")).unwrap();
    assert_eq!(setting.get_value_string(), "20");
    assert_eq!(setting.get_value::<u128>(1), 20);
}

#[test]
fn add_overwrites_under_the_same_category_and_key() {
    let mut config = empty_store(LineEnding::LF, false);
    config.add(&text("c"), &text("k"), &1);
    config.add(&text("c"), &text("k"), &2);
    assert_eq!(config.len(), 1);
    assert_eq!(config.get(&text("c"), &text("k")).unwrap().get_value_string(), "2");
}

#[test]
fn add_overwrites_under_the_same_joined_key() {
    let mut config = empty_store(LineEnding::LF, false);
    config.add(&text("ab"), &text("c"), &1);
    config.add(&text("a"), &text("bc"), &2);
    assert_eq!(config.len(), 1);
    let setting = config.get(&text("ab"), &text("c")).unwrap();
    assert_eq!(setting.get_category(), "a");
    assert_eq!(setting.get_key(), "bc");
    assert_eq!(setting.get_value_string(), "2");
}

#[test]
fn add_setting_stores_under_the_settings_own_names() {
    let mut config = empty_store(LineEnding::LF, false);
    config.add_setting(Setting::new(&text("c"), &text("k=="), &"v"));
    assert!(config.has_setting(&text("c"), &text("k")));
    assert_eq!(Config::get_setting_key(&text("c"), &text("k")), "ck");
}

#[test]
fn get_returns_nothing_for_what_is_not_there() {
    let mut config = empty_store(LineEnding::LF, false);
    assert!(config.get(&text("c"), &text("k")).is_none());
    assert!(config.get_mut(&text("c"), &text("k")).is_none());
    assert!(config.remove(&text("c"), &text("k")).is_none());
    assert!(!config.has_setting(&text("c"), &text("k")));
    assert_eq!(config.len(), 0);
}

#[test]
fn get_mut_changes_in_place() {
    let mut config = empty_store(LineEnding::CRLF, false);
    config.add(&text("b"), &text("k"), &1);
    config.add(&text("a"), &text("z"), &2);
    config.add(&text("a"), &text("y"), &3);
    config.get_mut(&text("a"), &text("z")).unwrap().set_value("  7 ");
    assert!(config.get_mut(&text("a"), &text("none")).is_none());
    assert_eq!(config.save(), "[a]\r\ny=3\r\nz=7\r\n\r\n[b]\r\nk=1\r\n");
}

#[test]
fn remove_takes_one_setting_out() {
    let mut config = empty_store(LineEnding::LF, false);
    config.add(&text("a"), &text("x"), &1);
    config.add(&text("a"), &text("y"), &2);
    config.add(&text("b"), &text("z"), &3);
    let removed = config.remove(&text("a"), &text("x")).unwrap();
    assert_eq!(removed.get_value_string(), "1");
    assert_eq!(config.len(), 2);
    assert!(!config.has_setting(&text("a"), &text("x")));
    assert!(config.has_setting(&text("a"), &text("y")));
    assert!(config.has_setting(&text("b"), &text("z")));
    assert_eq!(config.get(&text("b"), &text("z")).unwrap().get_value_string(), "3");
    assert_eq!(config.save(), "[a]\ny=2\n\n[b]\nz=3\n");
    let last = config.remove(&text("b"), &text("z")).unwrap();
    assert_eq!(last.get_key(), "z");
    assert_eq!(config.remove(&text("a"), &text("y")).unwrap().get_value_string(), "2");
    assert_eq!(config.len(), 0);
    assert_eq!(config.save(), "");
}

#[test]
fn reload_replaces_every_setting() {
    let mut config = empty_store(LineEnding::LF, false);
    config.add(&text("old"), &text("k"), &1);
    config.reload(Some("[new]\nj=2\n"));
    assert_eq!(config.len(), 1);
    assert!(!config.has_setting(&text("old"), &text("k")));
    assert_eq!(config.get(&text("new"), &text("j")).unwrap().get_value_string(), "2");
    config.reload(None);
    assert_eq!(config.len(), 0);
    assert_eq!(config.file_path(), "test/foo.txt");
}

#[test]
fn save_then_reload_gives_the_settings_back() {
    let names = [("net", "host"), ("net", "port"), ("", "top"), ("ui", "theme"), ("ui", "")];
    for line_ending in [LineEnding::LF, LineEnding::CRLF, LineEnding::CR] {
        for padding in [false, true] {
            let mut config = empty_store(line_ending, padding);
            config.add(&text("ui"), &text("theme"), &"dark mode");
            config.add(&text("net"), &text("port"), &8080);
            config.add(&text(""), &text("top"), &true);
            config.add(&text("net"), &text("host"), &"example.org");
            config.add(&text("ui"), &text(""), &"");
            let before = triples(&config, &names);
            assert_eq!(before.len(), 5);
            let saved = config.save();
            config.reload(Some(saved.as_str()));
            assert_eq!(config.len(), 5);
            assert_eq!(triples(&config, &names), before);
            assert_eq!(config.save(), saved);
        }
    }
}

#[test]
fn a_lone_line_feed_survives_other_line_endings() {
    for line_ending in [LineEnding::CRLF, LineEnding::CR] {
        let mut config = empty_store(line_ending, false);
        config.add(&text("c"), &text("k"), &"one\ntwo");
        let saved = config.save();
        config.reload(Some(saved.as_str()));
        assert_eq!(config.get(&text("c"), &text("k")).unwrap().get_value_string(), "one\ntwo");
    }
}

#[test]
fn a_lone_carriage_return_survives_crlf() {
    let mut config = empty_store(LineEnding::CRLF, true);
    config.add(&text("c\rd"), &text("k"), &"one\rtwo");
    let saved = config.save();
    assert_eq!(saved, "[c\rd]\r\nk = one\rtwo\r\n");
    config.reload(Some(saved.as_str()));
    assert_eq!(config.len(), 1);
    assert_eq!(config.get(&text("c\rd"), &text("k")).unwrap().get_value_string(), "one\rtwo");
}

#[test]
fn what_does_not_survive_a_round_trip() {
    let mut config = empty_store(LineEnding::LF, false);
    config.add(&text("c"), &text("eq"), &"a=b");
    config.add(&text("c"), &text("sp"), &" x ");
    config.add(&text("c"), &text("nl"), &"one\ntwo");
    config.add(&text("c"), &text("ok"), &"fine");
    let saved = config.save();
    assert_eq!(saved, "[c]\neq=a=b\nnl=one\ntwo\nok=fine\nsp= x \n");
    config.reload(Some(saved.as_str()));
    assert_eq!(config.len(), 3);
    assert!(!config.has_setting(&text("c"), &text("eq")));
    assert_eq!(config.get(&text("c"), &text("sp")).unwrap().get_value_string(), "x");
    assert_eq!(config.get(&text("c"), &text("nl")).unwrap().get_value_string(), "one");
    assert_eq!(config.get(&text("c"), &text("ok")).unwrap().get_value_string(), "fine");
}

#[test]
fn a_line_that_looks_like_a_category_is_read_as_one() {
    let mut config = empty_store(LineEnding::LF, false);
    config.add(&text("c"), &text("[k"), &"v]");
    config.add(&text("c"), &text("z"), &1);
    let saved = config.save();
    assert_eq!(saved, "[c]\n[k=v]\nz=1\n");
    config.reload(Some(saved.as_str()));
    assert_eq!(config.len(), 1);
    assert!(!config.has_setting(&text("c"), &text("[k")));
    assert_eq!(config.get(&text("k=v"), &text("z")).unwrap().get_value_string(), "1");
}

#[test]
fn a_carriage_return_does_not_survive_line_feeds() {
    let mut config = empty_store(LineEnding::LF, false);
    config.add(&text("c"), &text("k"), &"one\rtwo");
    let saved = config.save();
    config.reload(Some(saved.as_str()));
    assert!(!config.has_setting(&text("c"), &text("k")));
}

#[test]
fn stores_with_the_same_settings_save_the_same_text() {
    let mut first = empty_store(LineEnding::LF, true);
    first.add(&text("b"), &text("k"), &1);
    first.add(&text("a"), &text("z"), &2);
    first.add(&text("a"), &text("y"), &3);
    let mut second = Config::new(&text("elsewhere"), LineEnding::LF, true, None);
    second.add(&text("a"), &text("y"), &0);
    second.add(&text("gone"), &text("k"), &0);
    second.add(&text("a"), &text("z"), &2);
    second.add(&text("a"), &text("y"), &3);
    second.add(&text("b"), &text("k"), &1);
    second.remove(&text("gone"), &text("k"));
    assert_eq!(first.save(), second.save());
    assert_eq!(first.save(), "[a]\ny = 3\nz = 2\n\n[b]\nk = 1\n");
}

#[test]
fn saving_twice_gives_the_same_text() {
    let mut config = empty_store(LineEnding::CR, false);
    config.add(&text("c"), &text("k"), &1);
    config.add(&text("d"), &text("k"), &2);
    let first = config.save();
    let second = config.save();
    assert_eq!(first, second);
    assert_eq!(first, "[c]\rk=1\r\r[d]\rk=2\r");
}

#[test]
fn many_settings_come_back() {
    let mut config = empty_store(LineEnding::LF, true);
    let mut value: u128 = 20;
    for i in 0..200 {
        let category = format!("this-category-{}", i);
        for j in 0..100 {
            let key = format!("this-key-{}", j);
            config.add(&category, &key, &value);
            value += j;
        }
    }
    for i in 0..200 {
        let category = format!("this-category-{}", i);
        for j in 0..100 {
            let key = format!("this-key-{}", j);
            let setting = config.get_mut(&category, &key).unwrap();
            let value = setting.get_value(1u128) + 1;
            setting.set_value(value);
        }
    }
    assert_eq!(config.len(), 20000);
    let saved = config.save();
    assert!(saved.starts_with("[this-category-0]\nthis-key-0 = 21\nthis-key-1 = 21\nthis-key-10 = 66\n"));
    assert_eq!(saved.lines().count(), 20000 + 200 + 199);
    config.reload(Some(saved.as_str()));
    assert_eq!(config.len(), 20000);
    let last = config.get(&text("this-category-199"), &text("this-key-99")).unwrap();
    assert_eq!(last.get_value::<u128>(0), 20 + (0..100u128).sum::<u128>() * 200 - 99 + 1);
    assert_eq!(config.save(), saved);
}
