use cconfig::table::{get_setting_key, SettingTable};
use cconfig::Setting;
use std::collections::HashMap;

#[test]
fn get_setting_key_joins_category_and_key() {
    assert_eq!(get_setting_key("cat", "key"), "catkey");
    assert_eq!(get_setting_key("", "key"), "key");
    assert_eq!(get_setting_key("cat", ""), "cat");
    assert_eq!(get_setting_key("a=", "=b"), "a==b");
}

#[test]
fn table_starts_empty() {
    let table = SettingTable::new();
    assert_eq!(table.len(), 0);
    assert!(!table.contains_key("ck"));
    assert!(table.get("ck").is_none());
}

#[test]
fn insert_stores_under_the_joined_key() {
    let mut table = SettingTable::new();
    table.insert(Setting::from_text("c", "k", "1"));
    table.insert(Setting::from_text("c", "j", "2"));
    assert_eq!(table.len(), 2);
    assert!(table.contains_key("ck"));
    assert_eq!(table.get("cj").unwrap().get_value_string(), "2");
    assert_eq!(table.setting_at(0).get_key(), "k");
    assert_eq!(table.setting_at(1).get_key(), "j");
    table.insert(Setting::from_text("c", "k", "3"));
    assert_eq!(table.len(), 2);
    assert_eq!(table.get("ck").unwrap().get_value_string(), "3");
}

#[test]
fn get_mut_reaches_the_stored_setting() {
    let mut table = SettingTable::new();
    table.insert(Setting::from_text("c", "k", "1"));
    table.get_mut("ck").unwrap().set_value(2);
    assert_eq!(table.get("ck").unwrap().get_value_string(), "2");
    assert!(table.get_mut("kc").is_none());
}

#[test]
fn remove_keeps_the_others_findable() {
    let mut table = SettingTable::new();
    for key in ["a", "b", "c", "d"] {
        table.insert(Setting::from_text("x", key, key));
    }
    assert_eq!(table.remove("xb").unwrap().get_value_string(), "b");
    assert!(table.remove("xb").is_none());
    assert_eq!(table.len(), 3);
    for key in ["a", "c", "d"] {
        assert_eq!(table.get(&format!("x{}", key)).unwrap().get_value_string(), key);
    }
    assert_eq!(table.remove("xd").unwrap().get_key(), "d");
    assert_eq!(table.remove("xa").unwrap().get_key(), "a");
    assert_eq!(table.remove("xc").unwrap().get_key(), "c");
    assert_eq!(table.len(), 0);
}

#[test]
fn table_agrees_with_a_hash_map() {
    let mut table = SettingTable::new();
    let mut model: HashMap<String, String> = HashMap::new();
    let mut state: u64 = 12345;
    for step in 0..4000 {
        state = state.wrapping_mul(6364136223846793005).wrapping_add(1442695040888963407);
        let category = format!("c{}", (state >> 33) % 5);
        let key = format!("k{}", (state >> 40) % 9);
        let map_key = get_setting_key(&category, &key);
        match (state >> 50) % 4 {
            0 | 1 => {
                let value = format!("{}", step);
                table.insert(Setting::from_text(&category, &key, &value));
                model.insert(map_key.clone(), value);
            }
            2 => {
                let removed = table.remove(&map_key).map(|s| s.get_value_string().clone());
                assert_eq!(removed, model.remove(&map_key));
            }
            _ => {
                if let Some(setting) = table.get_mut(&map_key) {
                    setting.set_value(step);
                    model.insert(map_key.clone(), format!("{}", step));
                }
            }
        }
        assert_eq!(table.len(), model.len());
        assert_eq!(table.contains_key(&map_key), model.contains_key(&map_key));
        assert_eq!(table.get(&map_key).map(|s| s.get_value_string().clone()), model.get(&map_key).cloned());
    }
    for (map_key, value) in &model {
        assert_eq!(table.get(map_key).unwrap().get_value_string(), value);
    }
    let mut listed: Vec<String> = (0..table.len())
        .map(|i| {
            let s = table.setting_at(i);
            get_setting_key(s.get_category(), s.get_key())
        })
        .collect();
    listed.sort();
    let mut expected: Vec<String> = model.keys().cloned().collect();
    expected.sort();
    assert_eq!(listed, expected);
}
