//! Putting settings in order: a merge sort on places, and the facts that
//! make the result the one sorted arrangement there is.

use crate::setting::{
    lemma_setting_le_transitive, lemma_setting_order_total, setting_le, setting_order,
    setting_rank, Setting, SettingView,
};
use crate::text::{chars_of, lemma_text_le_reflexive, lemma_text_le_total, rank_text, Rank};
use vstd::prelude::*;
use vstd::relations::sorted_by;
use vstd::seq_lib::lemma_sorted_unique;

verus! {

/// A setting as three character vectors, ready to be compared.
pub struct Record {
    pub category: Vec<char>,
    pub key: Vec<char>,
    pub value: Vec<char>,
}

impl View for Record {
    type V = SettingView;

    open spec fn view(&self) -> SettingView {
        SettingView { category: self.category@, key: self.key@, value: self.value@ }
    }
}

/// The settings that `records` stand for.
pub open spec fn record_views(records: Seq<Record>) -> Seq<SettingView> {
    Seq::new(records.len(), |i: int| records[i]@)
}

/// The settings at the places that `order` names, in that order.
pub open spec fn arranged(settings: Seq<SettingView>, order: Seq<usize>) -> Seq<SettingView> {
    Seq::new(order.len(), |i: int| settings[order[i] as int])
}

/// The places from `lo` up to `hi`.
pub open spec fn places(lo: int, hi: int) -> Seq<usize> {
    Seq::new((hi - lo) as nat, |i: int| (lo + i) as usize)
}

/// Whether every place that `order` names lies below `n`.
pub open spec fn within(order: Seq<usize>, n: int) -> bool {
    forall|i: int| 0 <= i < order.len() ==> order[i] < n
}

/// The record of a setting.
pub fn record_of(setting: &Setting) -> (record: Record)
    ensures
        record@ == setting@,
{
    Record {
        category: chars_of(setting.get_category().as_str()),
        key: chars_of(setting.get_key().as_str()),
        value: chars_of(setting.get_value_string().as_str()),
    }
}

/// Tells how `a` stands to `b` in the order of settings.
pub fn rank_records(a: &Record, b: &Record) -> (r: Rank)
    ensures
        r == setting_rank(a@, b@),
        r != Rank::After <==> setting_le(a@, b@),
{
    proof {
        lemma_text_le_reflexive(a@.value);
        lemma_text_le_total(a@.category, b@.category);
        lemma_text_le_total(a@.key, b@.key);
        lemma_text_le_total(a@.value, b@.value);
    }
    let by_category = rank_text(&a.category, &b.category);
    if by_category != Rank::Same {
        return by_category;
    }
    let by_key = rank_text(&a.key, &b.key);
    if by_key != Rank::Same {
        return by_key;
    }
    rank_text(&a.value, &b.value)
}

/// Merges two sorted runs of places into one.
fn merge(records: &Vec<Record>, left: &Vec<usize>, right: &Vec<usize>) -> (merged: Vec<usize>)
    requires
        within(left@, records@.len() as int),
        within(right@, records@.len() as int),
        sorted_by(arranged(record_views(records@), left@), setting_order()),
        sorted_by(arranged(record_views(records@), right@), setting_order()),
    ensures
        within(merged@, records@.len() as int),
        sorted_by(arranged(record_views(records@), merged@), setting_order()),
        merged@.to_multiset() == left@.to_multiset().add(right@.to_multiset()),
{
    broadcast use vstd::multiset::group_multiset_axioms;
    broadcast use vstd::seq_lib::group_to_multiset_ensures;

    let ghost settings = record_views(records@);
    let mut merged: Vec<usize> = Vec::new();
    let mut i: usize = 0;
    let mut j: usize = 0;
    proof {
        assert(left@.take(0) =~= Seq::<usize>::empty());
        assert(right@.take(0) =~= Seq::<usize>::empty());
        assert(merged@.to_multiset() =~= left@.take(0).to_multiset().add(
            right@.take(0).to_multiset(),
        ));
    }
    while i < left.len() || j < right.len()
        invariant
            i <= left.len(),
            j <= right.len(),
            settings == record_views(records@),
            within(left@, records@.len() as int),
            within(right@, records@.len() as int),
            within(merged@, records@.len() as int),
            sorted_by(arranged(settings, left@), setting_order()),
            sorted_by(arranged(settings, right@), setting_order()),
            sorted_by(arranged(settings, merged@), setting_order()),
            merged@.to_multiset() == left@.take(i as int).to_multiset().add(
                right@.take(j as int).to_multiset(),
            ),
            forall|k: int, p: int|
                0 <= k < merged@.len() && i <= p < left@.len() ==> setting_le(
                    #[trigger] settings[merged@[k] as int],
                    #[trigger] settings[left@[p] as int],
                ),
            forall|k: int, p: int|
                0 <= k < merged@.len() && j <= p < right@.len() ==> setting_le(
                    #[trigger] settings[merged@[k] as int],
                    #[trigger] settings[right@[p] as int],
                ),
        decreases left.len() - i + right.len() - j,
    {
        let take_left = if i == left.len() {
            false
        } else if j == right.len() {
            true
        } else {
            rank_records(&records[left[i]], &records[right[j]]) != Rank::After
        };
        let ghost before = merged@;
        if take_left {
            let x = left[i];
            merged.push(x);
            proof {
                assert(left@.take(i + 1) =~= left@.take(i as int).push(x));
                assert(merged@ =~= before.push(x));
                before.to_multiset_ensures();
                left@.take(i as int).to_multiset_ensures();
                assert(merged@.to_multiset() =~= left@.take(i + 1).to_multiset().add(
                    right@.take(j as int).to_multiset(),
                ));
                assert forall|k: int, p: int|
                    0 <= k < merged@.len() && i + 1 <= p < left@.len() implies setting_le(
                    #[trigger] settings[merged@[k] as int],
                    #[trigger] settings[left@[p] as int],
                ) by {
                    if k == before.len() {
                        assert(setting_order()(
                            arranged(settings, left@)[i as int],
                            arranged(settings, left@)[p],
                        ));
                    }
                }
                assert forall|k: int, p: int|
                    0 <= k < merged@.len() && j <= p < right@.len() implies setting_le(
                    #[trigger] settings[merged@[k] as int],
                    #[trigger] settings[right@[p] as int],
                ) by {
                    if k == before.len() {
                        lemma_setting_order_total();
                        let b = settings[right@[j as int] as int];
                        assert(setting_le(settings[x as int], b));
                        assert(setting_order()(b, b));
                        assert(setting_order()(
                            arranged(settings, right@)[j as int],
                            arranged(settings, right@)[p],
                        ) || p == j);
                        lemma_setting_le_transitive(
                            settings[x as int],
                            settings[right@[j as int] as int],
                            settings[right@[p] as int],
                        );
                    }
                }
            }
            i = i + 1;
        } else {
            let x = right[j];
            merged.push(x);
            proof {
                lemma_setting_order_total();
                assert(right@.take(j + 1) =~= right@.take(j as int).push(x));
                assert(merged@ =~= before.push(x));
                before.to_multiset_ensures();
                right@.take(j as int).to_multiset_ensures();
                assert(merged@.to_multiset() =~= left@.take(i as int).to_multiset().add(
                    right@.take(j + 1).to_multiset(),
                ));
                assert forall|k: int, p: int|
                    0 <= k < merged@.len() && j + 1 <= p < right@.len() implies setting_le(
                    #[trigger] settings[merged@[k] as int],
                    #[trigger] settings[right@[p] as int],
                ) by {
                    if k == before.len() {
                        assert(setting_order()(
                            arranged(settings, right@)[j as int],
                            arranged(settings, right@)[p],
                        ));
                    }
                }
                assert forall|k: int, p: int|
                    0 <= k < merged@.len() && i <= p < left@.len() implies setting_le(
                    #[trigger] settings[merged@[k] as int],
                    #[trigger] settings[left@[p] as int],
                ) by {
                    if k == before.len() {
                        let a = settings[left@[i as int] as int];
                        let b = settings[x as int];
                        assert(setting_order()(a, b) || setting_order()(b, a));
                        assert(setting_order()(a, a));
                        assert(setting_le(b, a));
                        assert(setting_order()(
                            arranged(settings, left@)[i as int],
                            arranged(settings, left@)[p],
                        ) || p == i);
                        lemma_setting_le_transitive(b, a, settings[left@[p] as int]);
                    }
                }
            }
            j = j + 1;
        }
        proof {
            let now = arranged(settings, merged@);
            assert forall|a: int, b: int| 0 <= a < b < now.len() implies setting_order()(
                now[a],
                now[b],
            ) by {
                if b < before.len() {
                    assert(setting_order()(
                        arranged(settings, before)[a],
                        arranged(settings, before)[b],
                    ));
                }
            }
        }
    }
    proof {
        assert(left@.take(left.len() as int) =~= left@);
        assert(right@.take(right.len() as int) =~= right@);
    }
    merged
}

/// The places from `lo` up to `hi`, sorted by the settings that lie there.
fn sort_between(records: &Vec<Record>, lo: usize, hi: usize) -> (order: Vec<usize>)
    requires
        lo <= hi <= records@.len(),
    ensures
        within(order@, records@.len() as int),
        sorted_by(arranged(record_views(records@), order@), setting_order()),
        order@.to_multiset() == places(lo as int, hi as int).to_multiset(),
    decreases hi - lo,
{
    broadcast use vstd::multiset::group_multiset_axioms;
    broadcast use vstd::seq_lib::group_to_multiset_ensures;

    if hi - lo == 0 {
        let order: Vec<usize> = Vec::new();
        assert(order@ =~= places(lo as int, hi as int));
        order
    } else if hi - lo == 1 {
        let order: Vec<usize> = vec![lo];
        assert(order@ =~= places(lo as int, hi as int));
        order
    } else {
        let mid = lo + (hi - lo) / 2;
        let left = sort_between(records, lo, mid);
        let right = sort_between(records, mid, hi);
        proof {
            assert(places(lo as int, hi as int) =~= places(lo as int, mid as int) + places(
                mid as int,
                hi as int,
            ));
            vstd::seq_lib::lemma_multiset_commutative(
                places(lo as int, mid as int),
                places(mid as int, hi as int),
            );
        }
        merge(records, &left, &right)
    }
}

/// The places of `records`, sorted by the settings that lie there: every
/// place once, each setting before or equal to the next.
pub fn sort_order(records: &Vec<Record>) -> (order: Vec<usize>)
    ensures
        order@.len() == records@.len(),
        within(order@, records@.len() as int),
        order@.no_duplicates(),
        forall|p: usize| p < records@.len() ==> #[trigger] order@.contains(p),
        sorted_by(arranged(record_views(records@), order@), setting_order()),
{
    broadcast use vstd::multiset::group_multiset_axioms;
    broadcast use vstd::seq_lib::group_to_multiset_ensures;

    let order = sort_between(records, 0, records.len());
    proof {
        let all = places(0, records@.len() as int);
        assert(all.no_duplicates());
        all.to_multiset_ensures();
        order@.to_multiset_ensures();
        all.lemma_multiset_has_no_duplicates();
        order@.lemma_multiset_has_no_duplicates_conv();
        assert forall|p: usize| p < records@.len() implies #[trigger] order@.contains(p) by {
            assert(all[p as int] == p);
            assert(all.contains(p));
            assert(all.to_multiset().count(p) > 0);
            assert(order@.to_multiset().count(p) > 0);
        }
    }
    order
}

/// Every element of a finite set stands once in its sequence.
pub proof fn lemma_to_seq_no_duplicates<A>(s: Set<A>)
    requires
        s.finite(),
    ensures
        s.to_seq().no_duplicates(),
        s.to_seq().to_set() == s,
    decreases s.len(),
{
    broadcast use vstd::set::group_set_axioms;

    s.lemma_to_seq_to_set_id();
    if s.len() != 0 {
        let x = s.choose();
        let rest = s.remove(x).to_seq();
        lemma_to_seq_no_duplicates(s.remove(x));
        assert(!rest.contains(x)) by {
            if rest.contains(x) {
                assert(rest.to_set().contains(x));
            }
        }
        assert(s.to_seq() =~= seq![x] + rest);
    }
}

/// Two sequences without duplicates that hold the same elements hold each
/// as often as the other.
pub proof fn lemma_same_elements<A>(a: Seq<A>, b: Seq<A>)
    requires
        a.no_duplicates(),
        b.no_duplicates(),
        a.to_set() == b.to_set(),
    ensures
        a.to_multiset() == b.to_multiset(),
{
    broadcast use vstd::multiset::group_multiset_axioms;
    broadcast use vstd::seq_lib::group_to_multiset_ensures;

    a.lemma_multiset_has_no_duplicates();
    b.lemma_multiset_has_no_duplicates();
    assert forall|x: A| a.to_multiset().count(x) == b.to_multiset().count(x) by {
        assert(a.contains(x) <==> a.to_set().contains(x));
        assert(b.contains(x) <==> b.to_set().contains(x));
    }
    assert(a.to_multiset() =~= b.to_multiset());
}

/// The settings of a finite set in the order of settings.
pub open spec fn sorted_settings(settings: Set<SettingView>) -> Seq<SettingView> {
    settings.to_seq().sort_by(setting_order())
}

/// The sorted settings of a finite set are sorted, and hold each setting
/// of the set once.
pub proof fn lemma_sorted_settings(settings: Set<SettingView>)
    requires
        settings.finite(),
    ensures
        sorted_by(sorted_settings(settings), setting_order()),
        sorted_settings(settings).no_duplicates(),
        sorted_settings(settings).to_set() == settings,
{
    broadcast use vstd::multiset::group_multiset_axioms;
    broadcast use vstd::seq_lib::group_to_multiset_ensures;

    let listed = settings.to_seq();
    let sorted = sorted_settings(settings);
    lemma_setting_order_total();
    lemma_to_seq_no_duplicates(settings);
    listed.lemma_sort_by_ensures(setting_order());
    listed.lemma_multiset_has_no_duplicates();
    sorted.lemma_multiset_has_no_duplicates_conv();
    assert forall|x: SettingView| sorted.to_set().contains(x) <==> settings.contains(x) by {
        assert(sorted.contains(x) <==> sorted.to_multiset().count(x) > 0);
        assert(listed.contains(x) <==> listed.to_multiset().count(x) > 0);
        assert(listed.to_set().contains(x) <==> listed.contains(x));
    }
    assert(sorted.to_set() =~= settings);
}

/// A sorted sequence that holds each setting of a finite set once is the
/// sequence of its sorted settings.
pub proof fn lemma_sorted_settings_unique(settings: Set<SettingView>, sorted: Seq<SettingView>)
    requires
        settings.finite(),
        sorted_by(sorted, setting_order()),
        sorted.no_duplicates(),
        sorted.to_set() == settings,
    ensures
        sorted == sorted_settings(settings),
{
    lemma_setting_order_total();
    lemma_sorted_settings(settings);
    lemma_same_elements(sorted, sorted_settings(settings));
    lemma_sorted_unique(sorted, sorted_settings(settings), setting_order());
}

} // verus!
