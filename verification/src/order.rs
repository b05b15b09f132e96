//! Result ordering: linearize a frequency map into a deterministic sequence
//! of (character, count) entries, ascending by character or descending by
//! count with ties broken by ascending character.
use vstd::prelude::*;

use itertools::Itertools;

use crate::count::FrequencyMap;
use crate::count::lemma_char_value_injective;

verus! {

use core::cmp::Ordering;

/// The key that selects the comparator used to linearize a frequency map.
#[derive(Clone, Copy, PartialEq, Eq, Structural, Debug)]
pub enum SortKey {
    ByChar,
    ByCount,
}

/// The key an optional request selects: `ByChar` when none was given.
pub fn resolve_sort_key(requested: Option<SortKey>) -> (k: SortKey)
    ensures
        k == match requested {
            Some(k0) => k0,
            None => SortKey::ByChar,
        },
{
    match requested {
        Some(k0) => k0,
        None => SortKey::ByChar,
    }
}

/// The total preorder each key selects on entries: `ByChar` is ascending by
/// scalar value; `ByCount` is descending by count, with ties ascending by
/// scalar value.
pub open spec fn entry_le(key: SortKey, a: (char, usize), b: (char, usize)) -> bool {
    match key {
        SortKey::ByChar => (a.0 as u32) <= (b.0 as u32),
        SortKey::ByCount => a.1 > b.1 || (a.1 == b.1 && (a.0 as u32) <= (b.0 as u32)),
    }
}

/// The ordering of two entries under `key`: `Greater` exactly when `a` must
/// come after `b`, `Less` exactly when `b` must come after `a`.
pub(crate) fn compare_entries(key: &SortKey, a: &(char, usize), b: &(char, usize)) -> (r:
    Ordering)
    ensures
        (r == Ordering::Greater) <==> !entry_le(*key, *a, *b),
        (r == Ordering::Less) <==> !entry_le(*key, *b, *a),
{
    match key {
        SortKey::ByChar => {
            let x = a.0 as u32;
            let y = b.0 as u32;
            if x < y {
                Ordering::Less
            } else if x == y {
                Ordering::Equal
            } else {
                Ordering::Greater
            }
        },
        SortKey::ByCount => {
            if a.1 > b.1 {
                Ordering::Less
            } else if a.1 < b.1 {
                Ordering::Greater
            } else if (a.0 as u32) < (b.0 as u32) {
                Ordering::Less
            } else if (a.0 as u32) == (b.0 as u32) {
                Ordering::Equal
            } else {
                Ordering::Greater
            }
        },
    }
}

/// Relies on `itertools::Itertools::sorted_by`: it collects the iterator's
/// items into a vector and sorts them with the given comparator (through
/// `slice::sort_by`), so the result holds exactly the input's items and no
/// item compares `Greater` to a later one.
#[verifier::external_body]
fn sort_entries(entries: &Vec<(char, usize)>, key: &SortKey) -> (r: Vec<(char, usize)>)
    ensures
        r@.to_multiset() == entries@.to_multiset(),
        forall|i: int, j: int| 0 <= i < j < r@.len() ==> entry_le(*key, r@[i], r@[j]),
{
    entries.iter().copied().sorted_by(|a, b| compare_entries(key, a, b)).collect()
}

/// Linearize the map into a sequence holding every entry exactly once,
/// ordered by `key`: `ByChar` strictly ascending by scalar value; `ByCount`
/// non-increasing by count, equal counts strictly ascending by scalar value.
pub fn order_entries(m: &FrequencyMap, key: SortKey) -> (r: Vec<(char, usize)>)
    requires
        m.wf(),
    ensures
        r@.to_multiset() == m.entries_seq().to_multiset(),
        r@.len() == m.entries_seq().len(),
        forall|i: int, j: int| 0 <= i < j < r@.len() ==> entry_le(key, r@[i], r@[j]),
        forall|i: int, j: int|
            0 <= i < j < r@.len() ==> (#[trigger] r@[i]).0 != (#[trigger] r@[j]).0,
        key == SortKey::ByChar ==> forall|i: int, j: int|
            0 <= i < j < r@.len() ==> ((#[trigger] r@[i]).0 as u32) < ((#[trigger] r@[j]).0
                as u32),
        key == SortKey::ByCount ==> forall|i: int, j: int|
            0 <= i < j < r@.len() ==> (#[trigger] r@[i]).1 >= (#[trigger] r@[j]).1,
{
    let r = sort_entries(m.entries(), &key);
    proof {
        let e = m.entries_seq();
        vstd::seq_lib::to_multiset_len(r@);
        vstd::seq_lib::to_multiset_len(e);
        assert(r@.len() == e.len());
        assert forall|i: int, j: int|
            0 <= i < e.len() && 0 <= j < e.len() && i != j implies e[i] != e[j] by {
            if i < j {
                assert((e[i].0 as u32) < (e[j].0 as u32));
            } else {
                assert((e[j].0 as u32) < (e[i].0 as u32));
            }
        }
        e.lemma_multiset_has_no_duplicates();
        r@.lemma_multiset_has_no_duplicates_conv();
        assert forall|i: int, j: int|
            0 <= i < j < r@.len() implies (#[trigger] r@[i]).0 != (#[trigger] r@[j]).0 by {
            assert(r@[i] != r@[j]);
            if r@[i].0 == r@[j].0 {
                assert(r@.contains(r@[i]));
                assert(r@.contains(r@[j]));
                vstd::seq_lib::to_multiset_contains(r@, r@[i]);
                vstd::seq_lib::to_multiset_contains(r@, r@[j]);
                vstd::seq_lib::to_multiset_contains(e, r@[i]);
                vstd::seq_lib::to_multiset_contains(e, r@[j]);
                let k1 = choose|k: int| 0 <= k < e.len() && e[k] == r@[i];
                let k2 = choose|k: int| 0 <= k < e.len() && e[k] == r@[j];
                assert(k1 != k2);
                if k1 < k2 {
                    assert((e[k1].0 as u32) < (e[k2].0 as u32));
                } else {
                    assert((e[k2].0 as u32) < (e[k1].0 as u32));
                }
            }
        }
        if key == SortKey::ByChar {
            assert forall|i: int, j: int|
                0 <= i < j < r@.len() implies ((#[trigger] r@[i]).0 as u32) < ((
            #[trigger] r@[j]).0 as u32) by {
                assert(entry_le(key, r@[i], r@[j]));
                lemma_char_value_injective(r@[i].0, r@[j].0);
            }
        }
        if key == SortKey::ByCount {
            assert forall|i: int, j: int|
                0 <= i < j < r@.len() implies (#[trigger] r@[i]).1 >= (#[trigger] r@[j]).1 by {
                assert(entry_le(key, r@[i], r@[j]));
            }
        }
    }
    r
}

} // verus!
