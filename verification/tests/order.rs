use cconfig::order::{rank_records, record_of, sort_order, Record};
use cconfig::text::Rank;
use cconfig::Setting;

fn record(category: &str, key: &str, value: &str) -> Record {
    record_of(&Setting::from_text(category, key, value))
}

fn triple(record: &Record) -> (String, String, String) {
    (
        record.category.iter().collect(),
        record.key.iter().collect(),
        record.value.iter().collect(),
    )
}

#[test]
fn record_of_copies_the_three_texts() {
    let made = record("cat", "k=", "v é");
    assert_eq!(triple(&made), (String::from("cat"), String::from("k"), String::from("v é")));
}

#[test]
fn rank_records_goes_by_category_then_key_then_value() {
    assert_eq!(rank_records(&record("a", "z", "9"), &record("b", "a", "0")), Rank::Before);
    assert_eq!(rank_records(&record("a", "b", "9"), &record("a", "a", "0")), Rank::After);
    assert_eq!(rank_records(&record("a", "a", "1"), &record("a", "a", "10")), Rank::Before);
    assert_eq!(rank_records(&record("a", "a", "1"), &record("a", "a", "1")), Rank::Same);
}

#[test]
fn sort_order_names_every_place_once_in_order() {
    let mut records: Vec<Record> = Vec::new();
    let mut state: u64 = 99;
    for _ in 0..500 {
        state = state.wrapping_mul(6364136223846793005).wrapping_add(1442695040888963407);
        let category = format!("c{}", (state >> 33) % 7);
        let key = format!("k{}", (state >> 40) % 50);
        let value = format!("{}", (state >> 50) % 3);
        records.push(record(&category, &key, &value));
    }
    let order = sort_order(&records);
    assert_eq!(order.len(), records.len());
    let mut seen = vec![false; records.len()];
    for place in &order {
        assert!(!seen[*place]);
        seen[*place] = true;
    }
    let sorted: Vec<(String, String, String)> = order.iter().map(|p| triple(&records[*p])).collect();
    let mut expected: Vec<(String, String, String)> = records.iter().map(triple).collect();
    expected.sort();
    assert_eq!(sorted, expected);
}

#[test]
fn sort_order_of_nothing_and_of_one() {
    assert_eq!(sort_order(&Vec::new()), Vec::<usize>::new());
    assert_eq!(sort_order(&vec![record("c", "k", "v")]), vec![0]);
}
