//! The full computation the tool performs for one input: count, order,
//! render.
use vstd::prelude::*;

use crate::count;
use crate::order;
use crate::order::SortKey;
use crate::present;
use crate::present::DisplayMode;
use crate::text::is_ws;

verus! {

/// `r` is an ordered entry sequence for `text` under `key`: it records,
/// for every character, exactly its number of non-whitespace occurrences
/// in `text`; lists each character at most once, never whitespace, always
/// with a positive count; and is ordered by the key's comparator.
pub open spec fn is_ordering_of(text: Seq<char>, key: SortKey, r: Seq<(char, usize)>) -> bool {
    &&& forall|c: char| #[trigger] count::count_of(r, c) == count::occurrences(text, c)
    &&& count::entries_wf(r)
    &&& forall|i: int, j: int|
        0 <= i < j < r.len() ==> (#[trigger] r[i]).0 != (#[trigger] r[j]).0
    &&& forall|i: int, j: int| 0 <= i < j < r.len() ==> order::entry_le(key, r[i], r[j])
}

/// The lines owed for `text` under `key` and `mode`: the rendering, under
/// `mode`, of an ordered entry sequence for `text`.
pub open spec fn pipeline_lines_ok(
    text: Seq<char>,
    key: SortKey,
    mode: DisplayMode,
    lines: Seq<Seq<char>>,
) -> bool {
    exists|r: Seq<(char, usize)>|
        (#[trigger] is_ordering_of(text, key, r)) && lines == present::spec_render(r, mode)
}

proof fn lemma_sorted_entries_unique(key: SortKey, r1: Seq<(char, usize)>, r2: Seq<(char, usize)>)
    requires
        forall|c: char| #[trigger] count::count_of(r1, c) == count::count_of(r2, c),
        count::counts_positive(r1),
        count::counts_positive(r2),
        forall|i: int, j: int|
            0 <= i < j < r1.len() ==> (#[trigger] r1[i]).0 != (#[trigger] r1[j]).0,
        forall|i: int, j: int|
            0 <= i < j < r2.len() ==> (#[trigger] r2[i]).0 != (#[trigger] r2[j]).0,
        forall|i: int, j: int| 0 <= i < j < r1.len() ==> order::entry_le(key, r1[i], r1[j]),
        forall|i: int, j: int| 0 <= i < j < r2.len() ==> order::entry_le(key, r2[i], r2[j]),
    ensures
        r1 == r2,
    decreases r1.len(),
{
    if r1.len() == 0 && r2.len() == 0 {
        assert(r1 =~= r2);
    } else if r1.len() == 0 {
        assert(count::count_of(r2, r2[0].0) >= r2[0].1);
        assert(count::count_of(r1, r2[0].0) == 0);
        assert(false);
    } else if r2.len() == 0 {
        assert(count::count_of(r1, r1[0].0) >= r1[0].1);
        assert(count::count_of(r2, r1[0].0) == 0);
        assert(false);
    } else {
        let c1 = r1[0].0;
        let c2 = r2[0].0;
        assert(count::count_of(r2, c2) >= r2[0].1);
        count::lemma_count_positive_has_key(r1, c2);
        let k = choose|k: int| 0 <= k < r1.len() && (#[trigger] r1[k]).0 == c2;
        assert(count::count_of(r1, c1) >= r1[0].1);
        count::lemma_count_positive_has_key(r2, c1);
        let j = choose|j: int| 0 <= j < r2.len() && (#[trigger] r2[j]).0 == c1;
        count::lemma_count_of_key_distinct(r1, k);
        count::lemma_count_of_key_distinct(r2, 0);
        assert(r1[k].1 == r2[0].1);
        assert(r1[k] == r2[0]);
        count::lemma_count_of_key_distinct(r2, j);
        count::lemma_count_of_key_distinct(r1, 0);
        assert(r2[j].1 == r1[0].1);
        assert(r2[j] == r1[0]);
        if k > 0 {
            assert(order::entry_le(key, r1[0], r1[k]));
        }
        if j > 0 {
            assert(order::entry_le(key, r2[0], r2[j]));
        }
        assert(order::entry_le(key, r1[0], r2[0]));
        assert(order::entry_le(key, r2[0], r1[0]));
        count::lemma_char_value_injective(c1, c2);
        assert(c1 == c2);
        assert(r1[0] == r2[0]);
        let t1 = r1.drop_first();
        let t2 = r2.drop_first();
        assert forall|c: char| #[trigger]
            count::count_of(t1, c) == count::count_of(t2, c) by {
            if c == c1 {
                assert forall|p: int| 0 <= p < t1.len() implies (#[trigger] t1[p]).0 != c by {
                    assert(t1[p] == r1[p + 1]);
                }
                count::lemma_count_of_absent(t1, c);
                assert forall|p: int| 0 <= p < t2.len() implies (#[trigger] t2[p]).0 != c by {
                    assert(t2[p] == r2[p + 1]);
                }
                count::lemma_count_of_absent(t2, c);
            } else {
                assert(count::count_of(r1, c) == count::count_of(t1, c));
                assert(count::count_of(r2, c) == count::count_of(t2, c));
            }
        }
        assert(forall|p: int| 0 <= p < t1.len() ==> (#[trigger] t1[p]) == r1[p + 1]);
        assert(forall|p: int| 0 <= p < t2.len() ==> (#[trigger] t2[p]) == r2[p + 1]);
        lemma_sorted_entries_unique(key, t1, t2);
        assert(r1.len() == r2.len());
        assert forall|i: int| 0 <= i < r1.len() implies r1[i] == r2[i] by {
            if i > 0 {
                assert(r1[i] == t1[i - 1]);
                assert(r2[i] == t2[i - 1]);
            }
        }
        assert(r1 =~= r2);
    }
}

/// Orderings are unique: two ordered entry sequences for the same text
/// under the same key are equal, so the lines the pipeline owes are
/// determined by its inputs.
pub proof fn lemma_ordering_unique(
    text: Seq<char>,
    key: SortKey,
    r1: Seq<(char, usize)>,
    r2: Seq<(char, usize)>,
)
    requires
        is_ordering_of(text, key, r1),
        is_ordering_of(text, key, r2),
    ensures
        r1 == r2,
{
    assert forall|c: char| #[trigger]
        count::count_of(r1, c) == count::count_of(r2, c) by {
        assert(count::count_of(r1, c) == count::occurrences(text, c));
        assert(count::count_of(r2, c) == count::occurrences(text, c));
    }
    lemma_sorted_entries_unique(key, r1, r2);
}

/// Count the characters of `text` (whitespace excluded), order the entries
/// by `key`, and render them under `mode`: one output line per surviving
/// entry.
pub fn run_pipeline(text: &str, key: SortKey, mode: DisplayMode) -> (lines: Vec<String>)
    ensures
        pipeline_lines_ok(text@, key, mode, lines@.map_values(|s: String| s@)),
{
    let m = count::create_counter(text);
    let entries = order::order_entries(&m, key);
    proof {
        let e = m.entries_seq();
        assert forall|i: int| 0 <= i < entries@.len() implies !is_ws((#[trigger] entries@[i]).0)
            && entries@[i].1 >= 1 by {
            assert(entries@.contains(entries@[i]));
            vstd::seq_lib::to_multiset_contains(entries@, entries@[i]);
            vstd::seq_lib::to_multiset_contains(e, entries@[i]);
            assert(e.contains(entries@[i]));
            let k = choose|k: int| 0 <= k < e.len() && e[k] == entries@[i];
        }
        assert forall|c: char| #[trigger]
            count::count_of(entries@, c) == count::occurrences(text@, c) by {
            count::lemma_count_of_permutation(entries@, e, c);
            assert(m.spec_count(c) == count::occurrences(text@, c));
        }
        count::lemma_total_of_permutation(entries@, e);
        assert(count::total_of(entries@) <= usize::MAX);
        assert(is_ordering_of(text@, key, entries@));
    }
    let lines = present::render(&entries, mode);
    proof {
        assert(is_ordering_of(text@, key, entries@) && lines@.map_values(|s: String| s@)
            == present::spec_render(entries@, mode));
    }
    lines
}

} // verus!
