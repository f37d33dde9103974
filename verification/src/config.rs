//! The store: settings by category and key, with the options that fix how
//! they are written.
//!
//! The store neither reads nor writes files. Whoever owns the file hands
//! its text to `new` and `reload`, and writes what `save` returns.

use crate::codec::{decode, decode_text, encode, encode_table};
use crate::line_ending::LineEnding;
use crate::setting::{setting_of, Setting, SettingView};
use crate::table::{key_of, setting_key, well_keyed, SettingTable};
use std::fmt::Display;
use vstd::prelude::*;
use vstd::string::to_string_from_display_ensures;

verus! {

/// A store of settings, bound to a file path and to a way of writing.
pub struct Config {
    file_path: String,
    line_ending: LineEnding,
    padding: bool,
    settings: SettingTable,
}

impl View for Config {
    type V = Map<Seq<char>, SettingView>;

    closed spec fn view(&self) -> Map<Seq<char>, SettingView> {
        self.settings@
    }
}

/// What a store holds once it has been loaded: the settings of the text of
/// its file, and nothing where the file could not be read.
pub open spec fn loaded(contents: Option<&str>) -> Map<Seq<char>, SettingView> {
    match contents {
        Some(text) => decode(text@),
        None => Map::empty(),
    }
}

impl Config {
    /// The invariant of the store: every setting is stored under the map
    /// key of its own category and key.
    pub closed spec fn wf(&self) -> bool {
        self.settings.wf()
    }

    /// The path of the file of the store.
    pub closed spec fn path_text(&self) -> Seq<char> {
        self.file_path@
    }

    /// The line ending that the store writes.
    pub closed spec fn ending(&self) -> LineEnding {
        self.line_ending
    }

    /// Whether the store writes a space on each side of the separator.
    pub closed spec fn padded(&self) -> bool {
        self.padding
    }

    /// The settings of a well-formed store are finitely many, each stored
    /// under its own map key.
    pub proof fn lemma_well_keyed(&self)
        requires
            self.wf(),
        ensures
            well_keyed(self@),
    {
        self.settings.lemma_listed();
    }

    /// Reads the settings of a file's text; there are none where the file
    /// could not be read.
    fn load(contents: Option<&str>) -> (settings: SettingTable)
        ensures
            settings.wf(),
            settings@ == loaded(contents),
    {
        match contents {
            Some(text) => decode_text(text),
            None => SettingTable::new(),
        }
    }

    /// Makes the store of the file at `file_path`, loaded from `contents`:
    /// the text of the file, or `None` where it could not be read.
    pub fn new(
        file_path: &String,
        line_ending: LineEnding,
        padding: bool,
        contents: Option<&str>,
    ) -> (config: Config)
        ensures
            config.wf(),
            config@ == loaded(contents),
            config.path_text() == file_path@,
            config.ending() == line_ending,
            config.padded() == padding,
    {
        let settings = Config::load(contents);
        Config { file_path: file_path.clone(), line_ending, padding, settings }
    }

    /// The path of the file of the store.
    pub fn file_path(&self) -> (file_path: &String)
        ensures
            file_path@ == self.path_text(),
    {
        &self.file_path
    }

    /// The line ending that the store writes.
    pub fn line_ending(&self) -> (line_ending: LineEnding)
        ensures
            line_ending == self.ending(),
    {
        self.line_ending
    }

    /// Whether the store writes a space on each side of the separator.
    pub fn padding(&self) -> (padding: bool)
        ensures
            padding == self.padded(),
    {
        self.padding
    }

    /// The number of settings.
    pub fn len(&self) -> (n: usize)
        requires
            self.wf(),
        ensures
            n == self@.len(),
    {
        self.settings.len()
    }

    /// The text to write to the file: the document of the settings, in
    /// the store's line ending and padding. It replaces what the file held.
    pub fn save(&self) -> (text: String)
        requires
            self.wf(),
        ensures
            text@ == encode(self@, self.ending(), self.padded()),
    {
        encode_table(&self.settings, self.line_ending, self.padding)
    }

    /// Drops every setting and loads the store anew from `contents`: the
    /// text of the file, or `None` where it could not be read.
    pub fn reload(&mut self, contents: Option<&str>)
        ensures
            final(self).wf(),
            final(self)@ == loaded(contents),
            final(self).path_text() == old(self).path_text(),
            final(self).ending() == old(self).ending(),
            final(self).padded() == old(self).padded(),
    {
        self.settings = Config::load(contents);
    }

    /// The key under which the setting of `category` and `key` is stored.
    pub fn get_setting_key(category: &String, key: &String) -> (map_key: String)
        ensures
            map_key@ == setting_key(category@, key@),
    {
        crate::table::get_setting_key(category.as_str(), key.as_str())
    }

    /// The setting of `category` and `key`, if the store holds one.
    pub fn get(&self, category: &String, key: &String) -> (found: Option<&Setting>)
        requires
            self.wf(),
        ensures
            match found {
                Some(setting) => self@.contains_key(setting_key(category@, key@)) && setting@
                    == self@[setting_key(category@, key@)],
                None => !self@.contains_key(setting_key(category@, key@)),
            },
    {
        let map_key = Config::get_setting_key(category, key);
        self.settings.get(map_key.as_str())
    }

    /// The setting of `category` and `key`, if the store holds one, for
    /// change in place. The store stays well-formed as long as the
    /// category and the key of the setting stay what they are.
    pub fn get_mut(&mut self, category: &String, key: &String) -> (found: Option<&mut Setting>)
        requires
            old(self).wf(),
        ensures
            final(self).path_text() == old(self).path_text(),
            final(self).ending() == old(self).ending(),
            final(self).padded() == old(self).padded(),
            match found {
                Some(setting) => {
                    &&& old(self)@.contains_key(setting_key(category@, key@))
                    &&& setting@ == old(self)@[setting_key(category@, key@)]
                    &&& final(self)@ == old(self)@.insert(
                        setting_key(category@, key@),
                        final(setting)@,
                    )
                    &&& final(setting)@.category == setting@.category && final(setting)@.key
                        == setting@.key ==> final(self).wf()
                },
                None => !old(self)@.contains_key(setting_key(category@, key@)) && final(self)@
                    == old(self)@ && final(self).wf(),
            },
    {
        let map_key = Config::get_setting_key(category, key);
        self.settings.get_mut(map_key.as_str())
    }

    /// Stores `setting` under its own category and key, in place of what
    /// was stored under that map key.
    pub fn add_setting(&mut self, setting: Setting)
        requires
            old(self).wf(),
        ensures
            final(self).wf(),
            final(self)@ == old(self)@.insert(key_of(setting@), setting@),
            final(self).path_text() == old(self).path_text(),
            final(self).ending() == old(self).ending(),
            final(self).padded() == old(self).padded(),
    {
        self.settings.insert(setting);
    }

    /// Stores the setting of `category`, `key` and `value`: the key
    /// without its separators, the value as `Display` renders it.
    pub fn add<T: Display>(&mut self, category: &String, key: &String, value: &T)
        requires
            old(self).wf(),
        ensures
            final(self).wf(),
            exists|shown: String| #[trigger]
                to_string_from_display_ensures::<T>(value, shown) && final(self)@ == old(self)@.insert(
                    key_of(setting_of(category@, key@, shown@)),
                    setting_of(category@, key@, shown@),
                ),
            final(self).path_text() == old(self).path_text(),
            final(self).ending() == old(self).ending(),
            final(self).padded() == old(self).padded(),
    {
        let setting = Setting::new(category, key, value);
        proof {
            let shown = choose|shown: String| #[trigger]
                to_string_from_display_ensures::<T>(value, shown) && setting@.value == shown@;
            assert(setting@ == setting_of(category@, key@, shown@));
        }
        self.add_setting(setting);
    }

    /// Takes out the setting of `category` and `key` and returns it, if
    /// the store holds one.
    pub fn remove(&mut self, category: &String, key: &String) -> (removed: Option<Setting>)
        requires
            old(self).wf(),
        ensures
            final(self).wf(),
            final(self)@ == old(self)@.remove(setting_key(category@, key@)),
            match removed {
                Some(setting) => old(self)@.contains_key(setting_key(category@, key@))
                    && setting@ == old(self)@[setting_key(category@, key@)],
                None => !old(self)@.contains_key(setting_key(category@, key@)),
            },
            final(self).path_text() == old(self).path_text(),
            final(self).ending() == old(self).ending(),
            final(self).padded() == old(self).padded(),
    {
        let map_key = Config::get_setting_key(category, key);
        self.settings.remove(map_key.as_str())
    }

    /// Tells whether the store holds a setting of `category` and `key`.
    pub fn has_setting(&self, category: &String, key: &String) -> (found: bool)
        ensures
            found == self@.contains_key(setting_key(category@, key@)),
    {
        let map_key = Config::get_setting_key(category, key);
        self.settings.contains_key(map_key.as_str())
    }
}

} // verus!
