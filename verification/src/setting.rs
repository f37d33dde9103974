//! One setting: a category, a key and a value, all kept as text.

use crate::text::{
    chars_of, lemma_text_le_antisymmetric, lemma_text_le_reflexive, lemma_text_le_total,
    lemma_text_le_transitive, rank_text, string_of, text_le, trim, trim_text, without,
    without_char, Rank,
};
use std::fmt::Display;
use std::str::FromStr;
use vstd::prelude::*;
use vstd::relations::total_ordering;
use vstd::string::to_string_from_display_ensures;

verus! {

/// The character between a key and its value. No key holds it.
pub const KEY_VALUE_SEPARATOR: char = '=';

/// What a setting is: three character sequences.
pub ghost struct SettingView {
    pub category: Seq<char>,
    pub key: Seq<char>,
    pub value: Seq<char>,
}

/// A category-scoped key with its value. The value is text; typed access
/// converts on the way in and out.
#[derive(Debug)]
pub struct Setting {
    category: String,
    key: String,
    value: String,
}

impl View for Setting {
    type V = SettingView;

    closed spec fn view(&self) -> SettingView {
        SettingView { category: self.category@, key: self.key@, value: self.value@ }
    }
}

/// The setting made of three texts: every separator is taken out of the key.
pub open spec fn setting_of(category: Seq<char>, key: Seq<char>, value: Seq<char>) -> SettingView {
    SettingView { category, key: without(key, KEY_VALUE_SEPARATOR), value }
}

impl Clone for Setting {
    fn clone(&self) -> (copy: Setting)
        ensures
            copy@ == self@,
    {
        proof {
            use_type_invariant(self);
        }
        Setting {
            category: self.category.clone(),
            key: self.key.clone(),
            value: self.value.clone(),
        }
    }
}

/// The order of settings: by category, then by key, then by value, each
/// compared as text.
pub open spec fn setting_le(a: SettingView, b: SettingView) -> bool {
    if a.category != b.category {
        text_le(a.category, b.category)
    } else if a.key != b.key {
        text_le(a.key, b.key)
    } else {
        text_le(a.value, b.value)
    }
}

/// `setting_le` as a relation.
pub open spec fn setting_order() -> spec_fn(SettingView, SettingView) -> bool {
    |a: SettingView, b: SettingView| setting_le(a, b)
}

/// The order of settings is total: reflexive, antisymmetric, transitive,
/// and any two settings are comparable.
pub proof fn lemma_setting_order_total()
    ensures
        total_ordering(setting_order()),
{
    let r = setting_order();
    assert forall|a: SettingView| #[trigger] r(a, a) by {
        lemma_text_le_reflexive(a.value);
    }
    assert forall|a: SettingView, b: SettingView| #[trigger] r(a, b) && #[trigger] r(b, a) implies a
        == b by {
        if a.category != b.category {
            lemma_text_le_antisymmetric(a.category, b.category);
        } else if a.key != b.key {
            lemma_text_le_antisymmetric(a.key, b.key);
        } else {
            lemma_text_le_antisymmetric(a.value, b.value);
        }
    }
    assert forall|a: SettingView, b: SettingView, c: SettingView| #[trigger]
        r(a, b) && #[trigger] r(b, c) implies r(a, c) by {
        lemma_setting_le_transitive(a, b, c);
    }
    assert forall|a: SettingView, b: SettingView| #[trigger] r(a, b) || #[trigger] r(b, a) by {
        lemma_text_le_total(a.category, b.category);
        lemma_text_le_total(a.key, b.key);
        lemma_text_le_total(a.value, b.value);
    }
}

/// The order of settings is transitive.
pub proof fn lemma_setting_le_transitive(a: SettingView, b: SettingView, c: SettingView)
    requires
        setting_le(a, b),
        setting_le(b, c),
    ensures
        setting_le(a, c),
{
    lemma_text_le_reflexive(a.category);
    lemma_text_le_reflexive(b.category);
    lemma_text_le_transitive(a.category, b.category, c.category);
    if a.category == c.category {
        lemma_text_le_antisymmetric(a.category, b.category);
        lemma_text_le_reflexive(a.key);
        lemma_text_le_reflexive(b.key);
        lemma_text_le_transitive(a.key, b.key, c.key);
        if a.key == c.key {
            lemma_text_le_antisymmetric(a.key, b.key);
            lemma_text_le_transitive(a.value, b.value, c.value);
        }
    }
}

/// Nothing is left of `c` once it has been taken out.
pub proof fn lemma_without_absent(s: Seq<char>, c: char)
    ensures
        !without(s, c).contains(c),
    decreases s.len(),
{
    if s.len() > 0 {
        lemma_without_absent(s.drop_last(), c);
    }
}

/// Taking out what is not there changes nothing.
pub proof fn lemma_without_unchanged(s: Seq<char>, c: char)
    requires
        !s.contains(c),
    ensures
        without(s, c) == s,
    decreases s.len(),
{
    if s.len() > 0 {
        assert(s.last() == s[s.len() - 1]);
        assert forall|x: char| s.drop_last().contains(x) implies s.contains(x) by {
            let i = choose|i: int| 0 <= i < s.drop_last().len() && s.drop_last()[i] == x;
            assert(s[i] == x);
        }
        lemma_without_unchanged(s.drop_last(), c);
        assert(s.drop_last().push(s.last()) =~= s);
    }
}

/// Taken on trust from the standard library: calls `str::parse`, which
/// hands the text to `T::from_str`, and gives `None` for its error. What
/// comes back depends on `T`, so nothing is claimed of it.
#[verifier::external_body]
fn parse_text<T: FromStr>(text: &str) -> (parsed: Option<T>) {
    text.parse::<T>().ok()
}

impl Setting {
    #[verifier::type_invariant]
    spec fn key_has_no_separator(self) -> bool {
        !self.key@.contains(KEY_VALUE_SEPARATOR)
    }

    /// Makes a setting from three character vectors. Every separator is
    /// taken out of the key; category and value are kept as they are.
    pub fn from_chars(category: &Vec<char>, key: &Vec<char>, value: &Vec<char>) -> (setting:
        Setting)
        ensures
            setting@ == setting_of(category@, key@, value@),
    {
        let kept = without_char(key, KEY_VALUE_SEPARATOR);
        proof {
            lemma_without_absent(key@, KEY_VALUE_SEPARATOR);
            assert(kept@.subrange(0, kept.len() as int) =~= kept@);
            assert(category@.subrange(0, category.len() as int) =~= category@);
            assert(value@.subrange(0, value.len() as int) =~= value@);
        }
        Setting {
            category: string_of(category, 0, category.len()),
            key: string_of(&kept, 0, kept.len()),
            value: string_of(value, 0, value.len()),
        }
    }

    /// Makes a setting from three texts. Every separator is taken out of
    /// the key; category and value are kept as they are.
    pub fn from_text(category: &str, key: &str, value: &str) -> (setting: Setting)
        ensures
            setting@ == setting_of(category@, key@, value@),
    {
        let kept = without_char(&chars_of(key), KEY_VALUE_SEPARATOR);
        proof {
            lemma_without_absent(key@, KEY_VALUE_SEPARATOR);
            assert(kept@.subrange(0, kept.len() as int) =~= kept@);
        }
        Setting {
            category: category.to_owned(),
            key: string_of(&kept, 0, kept.len()),
            value: value.to_owned(),
        }
    }

    /// Makes a setting whose value is `value` as `Display` renders it.
    /// Every separator is taken out of the key.
    pub fn new<T: Display>(category: &String, key: &String, value: &T) -> (setting: Setting)
        ensures
            setting@.category == category@,
            setting@.key == without(key@, KEY_VALUE_SEPARATOR),
            exists|shown: String| #[trigger]
                to_string_from_display_ensures::<T>(value, shown) && setting@.value == shown@,
    {
        let shown = value.to_string();
        Setting::from_text(category.as_str(), key.as_str(), shown.as_str())
    }

    /// The key. It holds no separator.
    pub fn get_key(&self) -> (key: &String)
        ensures
            key@ == self@.key,
            !key@.contains(KEY_VALUE_SEPARATOR),
    {
        proof {
            use_type_invariant(self);
        }
        &self.key
    }

    /// The category.
    pub fn get_category(&self) -> (category: &String)
        ensures
            category@ == self@.category,
    {
        &self.category
    }

    /// The value, as text.
    pub fn get_value_string(&self) -> (value: &String)
        ensures
            value@ == self@.value,
    {
        &self.value
    }

    /// Replaces the value by `text` without the whitespace around it.
    pub fn set_value_text(&mut self, text: &str)
        ensures
            final(self)@ == (SettingView { value: trim(text@), ..old(self)@ }),
    {
        proof {
            use_type_invariant(&*self);
        }
        let trimmed = trim_text(&chars_of(text));
        proof {
            assert(trimmed@.subrange(0, trimmed.len() as int) =~= trimmed@);
        }
        self.value = string_of(&trimmed, 0, trimmed.len());
    }

    /// Replaces the value by `value` as `Display` renders it, without the
    /// whitespace around it.
    pub fn set_value<T: Display>(&mut self, value: T)
        ensures
            final(self)@.category == old(self)@.category,
            final(self)@.key == old(self)@.key,
            exists|shown: String| #[trigger]
                to_string_from_display_ensures::<T>(&value, shown) && final(self)@.value == trim(
                    shown@,
                ),
    {
        let shown = value.to_string();
        self.set_value_text(shown.as_str());
    }

    /// What is returned for a parsed value: the value itself, or the
    /// default where parsing failed.
    pub fn value_or<T>(parsed: Option<T>, default_value: T) -> (value: T)
        ensures
            value == (match parsed {
                Some(v) => v,
                None => default_value,
            }),
    {
        match parsed {
            Some(v) => v,
            None => default_value,
        }
    }

    /// The value parsed as a `T`, or `default_value` where the text is no `T`.
    pub fn get_value<T: FromStr>(&self, default_value: T) -> T {
        Setting::value_or(parse_text::<T>(self.value.as_str()), default_value)
    }

    /// Tells how this setting stands to `other` in the order of settings.
    pub fn rank(&self, other: &Setting) -> (r: Rank)
        ensures
            r == setting_rank(self@, other@),
    {
        let by_category = rank_text(&chars_of(self.category.as_str()), &chars_of(other.category.as_str()));
        if by_category != Rank::Same {
            return by_category;
        }
        let by_key = rank_text(&chars_of(self.key.as_str()), &chars_of(other.key.as_str()));
        if by_key != Rank::Same {
            return by_key;
        }
        rank_text(&chars_of(self.value.as_str()), &chars_of(other.value.as_str()))
    }
}

/// How `a` stands to `b` in the order of settings.
pub open spec fn setting_rank(a: SettingView, b: SettingView) -> Rank {
    if a == b {
        Rank::Same
    } else if setting_le(a, b) {
        Rank::Before
    } else {
        Rank::After
    }
}

} // verus!
