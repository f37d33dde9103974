//! The collection of settings of a store: at most one setting under each
//! map key, found in constant expected time.

use crate::setting::{Setting, SettingView};
use vstd::hash_map::StringHashMap;
use vstd::prelude::*;
use vstd::string::StringExecFns;

verus! {

/// The key under which a setting is stored: its category followed by its
/// key. Two different pairs may give the same map key.
pub open spec fn setting_key(category: Seq<char>, key: Seq<char>) -> Seq<char> {
    category + key
}

/// The map key of a setting.
pub open spec fn key_of(setting: SettingView) -> Seq<char> {
    setting_key(setting.category, setting.key)
}

/// Whether every setting of `settings` is stored under its own map key,
/// and there are finitely many.
pub open spec fn well_keyed(settings: Map<Seq<char>, SettingView>) -> bool {
    &&& settings.dom().finite()
    &&& forall|k: Seq<char>| #[trigger] settings.contains_key(k) ==> key_of(settings[k]) == k
}

/// Computes the map key of a category and a key.
pub fn get_setting_key(category: &str, key: &str) -> (map_key: String)
    ensures
        map_key@ == setting_key(category@, key@),
{
    let mut map_key = category.to_owned();
    map_key.append(key);
    map_key
}

struct Entry {
    map_key: String,
    setting: Setting,
}

/// Settings by map key. The settings lie in a vector, in no particular
/// order; an index gives the place of each map key in it.
pub struct SettingTable {
    entries: Vec<Entry>,
    index: StringHashMap<usize>,
}

impl View for SettingTable {
    type V = Map<Seq<char>, SettingView>;

    closed spec fn view(&self) -> Map<Seq<char>, SettingView> {
        Map::new(
            |k: Seq<char>| self.index@.contains_key(k),
            |k: Seq<char>| self.entries@[self.index@[k] as int].setting@,
        )
    }
}

impl SettingTable {
    spec fn key_at(&self, i: int) -> Seq<char> {
        self.entries@[i].map_key@
    }

    /// The invariant of the table: the index and the vector agree, and
    /// every setting is stored under its own map key.
    pub closed spec fn wf(&self) -> bool {
        &&& forall|i: int|
            0 <= i < self.entries@.len() ==> self.index@.contains_key(#[trigger] self.key_at(i))
                && self.index@[self.key_at(i)] == i
        &&& forall|k: Seq<char>| #[trigger]
            self.index@.contains_key(k) ==> self.index@[k] < self.entries@.len() && self.key_at(
                self.index@[k] as int,
            ) == k
        &&& forall|i: int|
            0 <= i < self.entries@.len() ==> #[trigger] self.key_at(i) == key_of(
                self.entries@[i].setting@,
            )
    }

    /// The settings in the order in which they lie in the table.
    pub closed spec fn listed(&self) -> Seq<SettingView> {
        Seq::new(self.entries@.len(), |i: int| self.entries@[i].setting@)
    }

    /// The listed settings are those of the view, each once.
    pub proof fn lemma_listed(&self)
        requires
            self.wf(),
        ensures
            well_keyed(self@),
            self.listed().no_duplicates(),
            self.listed().to_set() == self@.values(),
    {
        let listed = self.listed();
        assert forall|i: int, j: int| 0 <= i < listed.len() && 0 <= j < listed.len() && i
            != j implies listed[i] != listed[j] by {
            assert(self.index@[self.key_at(i)] == i);
            assert(self.index@[self.key_at(j)] == j);
        }
        assert forall|x: SettingView| listed.to_set().contains(x) <==> self@.values().contains(
            x,
        ) by {
            if listed.to_set().contains(x) {
                let i = choose|i: int| 0 <= i < listed.len() && listed[i] == x;
                let k = self.key_at(i);
                assert(self@.contains_key(k) && self@[k] == x);
            }
            if self@.values().contains(x) {
                let k = choose|k: Seq<char>| self@.contains_key(k) && self@[k] == x;
                assert(self.index@.contains_key(k));
                assert(listed[self.index@[k] as int] == x);
            }
        }
        assert(listed.to_set() =~= self@.values());
        let slots = Set::new(|i: int| 0 <= i < self.entries@.len());
        let keys = slots.map(|i: int| self.key_at(i));
        assert(slots =~= vstd::set_lib::set_int_range(0, self.entries@.len() as int));
        vstd::set_lib::lemma_int_range(0, self.entries@.len() as int);
        slots.lemma_map_finite(|i: int| self.key_at(i));
        assert forall|k: Seq<char>| self@.dom().contains(k) <==> keys.contains(k) by {
            if self@.dom().contains(k) {
                assert(self.index@.contains_key(k));
                assert(slots.contains(self.index@[k] as int));
                assert(self.key_at(self.index@[k] as int) == k);
            }
            if keys.contains(k) {
                let i = choose|i: int| slots.contains(i) && k == self.key_at(i);
                assert(self.index@.contains_key(self.key_at(i)));
            }
        }
        assert(self@.dom() =~= keys);
        assert forall|k: Seq<char>| #[trigger] self@.contains_key(k) implies key_of(self@[k])
            == k by {
            assert(self.index@.contains_key(k));
            assert(self.key_at(self.index@[k] as int) == k);
        }
    }

    /// An empty table.
    pub fn new() -> (table: SettingTable)
        ensures
            table.wf(),
            table@ == Map::<Seq<char>, SettingView>::empty(),
    {
        let table = SettingTable { entries: Vec::new(), index: StringHashMap::new() };
        assert(table@ =~= Map::<Seq<char>, SettingView>::empty());
        table
    }

    /// The number of settings.
    pub fn len(&self) -> (n: usize)
        requires
            self.wf(),
        ensures
            n == self@.len(),
            n == self.listed().len(),
    {
        proof {
            self.lemma_len();
        }
        self.entries.len()
    }

    proof fn lemma_len(&self)
        requires
            self.wf(),
        ensures
            self@.dom().finite(),
            self@.dom().len() == self.entries@.len(),
    {
        self.lemma_listed();
        let listed = self.listed();
        listed.unique_seq_to_set();
        assert(self@.is_injective()) by {
            assert forall|a: Seq<char>, b: Seq<char>|
                a != b && self@.dom().contains(a) && self@.dom().contains(b) implies #[trigger] self@[a]
                != #[trigger] self@[b] by {
                assert(key_of(self@[a]) == a);
                assert(key_of(self@[b]) == b);
            }
        }
        self@.lemma_injective_values_len();
    }

    /// The setting that lies at place `i`.
    pub fn setting_at(&self, i: usize) -> (setting: &Setting)
        requires
            i < self.listed().len(),
        ensures
            setting@ == self.listed()[i as int],
    {
        &self.entries[i].setting
    }

    /// Tells whether a setting is stored under `map_key`.
    pub fn contains_key(&self, map_key: &str) -> (found: bool)
        ensures
            found == self@.contains_key(map_key@),
    {
        self.index.contains_key(map_key)
    }

    fn slot_of(&self, map_key: &str) -> (slot: Option<usize>)
        ensures
            match slot {
                Some(i) => self.index@.contains_key(map_key@) && self.index@[map_key@] == i,
                None => !self.index@.contains_key(map_key@),
            },
    {
        match self.index.get(map_key) {
            Some(i) => Some(*i),
            None => None,
        }
    }

    /// The setting stored under `map_key`, if there is one.
    pub fn get(&self, map_key: &str) -> (found: Option<&Setting>)
        requires
            self.wf(),
        ensures
            match found {
                Some(setting) => self@.contains_key(map_key@) && setting@ == self@[map_key@],
                None => !self@.contains_key(map_key@),
            },
    {
        match self.slot_of(map_key) {
            Some(i) => Some(&self.entries[i].setting),
            None => None,
        }
    }

    /// The setting stored under `map_key`, if there is one, for change in
    /// place. The table stays well-formed as long as the category and the
    /// key of the setting stay what they are.
    pub fn get_mut(&mut self, map_key: &str) -> (found: Option<&mut Setting>)
        requires
            old(self).wf(),
        ensures
            match found {
                Some(setting) => {
                    &&& old(self)@.contains_key(map_key@)
                    &&& setting@ == old(self)@[map_key@]
                    &&& final(self)@ == old(self)@.insert(map_key@, final(setting)@)
                    &&& final(setting)@.category == setting@.category && final(setting)@.key
                        == setting@.key ==> final(self).wf()
                },
                None => !old(self)@.contains_key(map_key@) && *final(self) == *old(self),
            },
    {
        match self.slot_of(map_key) {
            Some(i) => {
                proof {
                    let before = *self;
                    assert forall|after: SettingTable| before.changed_at(after, i as int) implies (
                    #[trigger] after@) == before@.insert(
                        map_key@,
                        after.entries@[i as int].setting@,
                    ) by {
                        before.lemma_changed_at(after, i as int);
                    }
                    assert forall|after: SettingTable|
                        before.changed_at(after, i as int) && key_of(
                            after.entries@[i as int].setting@,
                        ) == key_of(before.entries@[i as int].setting@)
                        implies #[trigger] after.wf() by {
                        before.lemma_changed_at(after, i as int);
                    }
                }
                Some(&mut self.entries[i].setting)
            },
            None => None,
        }
    }

    /// Whether `after` is this table with another setting at place `i`.
    spec fn changed_at(&self, after: SettingTable, i: int) -> bool {
        &&& after.index == self.index
        &&& after.entries@ == self.entries@.update(
            i,
            Entry { map_key: self.entries@[i].map_key, setting: after.entries@[i].setting },
        )
    }

    proof fn lemma_changed_at(&self, after: SettingTable, i: int)
        requires
            self.wf(),
            0 <= i < self.entries@.len(),
            self.changed_at(after, i),
        ensures
            after@ == self@.insert(self.key_at(i), after.entries@[i].setting@),
            key_of(after.entries@[i].setting@) == self.key_at(i) ==> after.wf(),
    {
        assert(forall|j: int|
            0 <= j < self.entries@.len() ==> after.key_at(j) == self.key_at(j));
        assert(after@ =~= self@.insert(self.key_at(i), after.entries@[i].setting@));
    }

    /// Stores `setting` under its own map key, in place of what was stored
    /// there.
    pub fn insert(&mut self, setting: Setting)
        requires
            old(self).wf(),
        ensures
            final(self).wf(),
            final(self)@ == old(self)@.insert(key_of(setting@), setting@),
    {
        let map_key = get_setting_key(setting.get_category().as_str(), setting.get_key().as_str());
        match self.slot_of(map_key.as_str()) {
            Some(i) => {
                self.entries[i].setting = setting;
                assert(forall|j: int|
                    0 <= j < self.entries@.len() ==> self.key_at(j) == old(self).key_at(j));
                assert(self@ =~= old(self)@.insert(key_of(setting@), setting@));
            },
            None => {
                let slot = self.entries.len();
                let entry = Entry { map_key: map_key.clone(), setting };
                self.entries.push(entry);
                self.index.insert(map_key, slot);
                assert(forall|j: int|
                    0 <= j < old(self).entries@.len() ==> self.key_at(j) == old(self).key_at(j));
                assert(self@ =~= old(self)@.insert(key_of(setting@), setting@));
            },
        }
    }

    /// Takes out the setting stored under `map_key` and returns it, if
    /// there is one.
    pub fn remove(&mut self, map_key: &str) -> (removed: Option<Setting>)
        requires
            old(self).wf(),
        ensures
            final(self).wf(),
            final(self)@ == old(self)@.remove(map_key@),
            match removed {
                Some(setting) => old(self)@.contains_key(map_key@) && setting@ == old(
                    self,
                )@[map_key@],
                None => !old(self)@.contains_key(map_key@),
            },
    {
        match self.slot_of(map_key) {
            Some(i) => {
                let last = self.entries.len() - 1;
                let entry = self.entries.swap_remove(i);
                self.index.remove(map_key);
                if i < last {
                    let moved = self.entries[i].map_key.clone();
                    assert(moved@ == old(self).key_at(last as int));
                    self.index.insert(moved, i);
                }
                assert(forall|j: int|
                    0 <= j < self.entries@.len() && j != i ==> self.key_at(j) == old(self).key_at(
                        j,
                    ));
                assert(self@ =~= old(self)@.remove(map_key@));
                Some(entry.setting)
            },
            None => {
                assert(self@ =~= old(self)@.remove(map_key@));
                None
            },
        }
    }
}

} // verus!
