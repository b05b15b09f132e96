//! The frequency aggregator: builds a map from character to occurrence
//! count over a string's Unicode scalar values, excluding whitespace.
use vstd::prelude::*;

use crate::text;
use crate::text::is_ws;

verus! {

/// Number of non-whitespace characters in `s`.
pub open spec fn nonws_count(s: Seq<char>) -> nat
    decreases s.len(),
{
    if s.len() == 0 {
        0
    } else {
        nonws_count(s.drop_last()) + if is_ws(s.last()) {
            0nat
        } else {
            1nat
        }
    }
}

/// Number of occurrences of `c` in `s`, counting only non-whitespace
/// characters (zero whenever `c` is whitespace).
pub open spec fn occurrences(s: Seq<char>, c: char) -> nat
    decreases s.len(),
{
    if s.len() == 0 {
        0
    } else {
        occurrences(s.drop_last(), c) + if s.last() == c && !is_ws(c) {
            1nat
        } else {
            0nat
        }
    }
}

/// Count recorded for character `c` by an entry sequence: the sum of the
/// counts of entries whose character is `c`.
pub open spec fn count_of(s: Seq<(char, usize)>, c: char) -> nat
    decreases s.len(),
{
    if s.len() == 0 {
        0
    } else {
        (if s[0].0 == c {
            s[0].1 as nat
        } else {
            0nat
        }) + count_of(s.drop_first(), c)
    }
}

/// Sum of all counts in an entry sequence.
pub open spec fn total_of(s: Seq<(char, usize)>) -> nat
    decreases s.len(),
{
    if s.len() == 0 {
        0
    } else {
        s[0].1 as nat + total_of(s.drop_first())
    }
}

/// Entries strictly ascending by character scalar value; keys are unique.
pub open spec fn sorted_by_char(s: Seq<(char, usize)>) -> bool {
    forall|i: int, j: int| 0 <= i < j < s.len() ==> (s[i].0 as u32) < (s[j].0 as u32)
}

/// Every entry has a positive count.
pub open spec fn counts_positive(s: Seq<(char, usize)>) -> bool {
    forall|i: int| 0 <= i < s.len() ==> (#[trigger] s[i]).1 >= 1
}

/// Every entry has a non-whitespace character and a positive count.
pub open spec fn entries_wf(s: Seq<(char, usize)>) -> bool {
    forall|i: int| 0 <= i < s.len() ==> !is_ws((#[trigger] s[i]).0) && s[i].1 >= 1
}

pub proof fn lemma_count_of_concat(a: Seq<(char, usize)>, b: Seq<(char, usize)>, c: char)
    ensures
        count_of(a + b, c) == count_of(a, c) + count_of(b, c),
    decreases a.len(),
{
    if a.len() == 0 {
        assert(a + b =~= b);
    } else {
        assert((a + b).drop_first() =~= a.drop_first() + b);
        lemma_count_of_concat(a.drop_first(), b, c);
        assert((a + b)[0] == a[0]);
    }
}

pub proof fn lemma_total_of_concat(a: Seq<(char, usize)>, b: Seq<(char, usize)>)
    ensures
        total_of(a + b) == total_of(a) + total_of(b),
    decreases a.len(),
{
    if a.len() == 0 {
        assert(a + b =~= b);
    } else {
        assert((a + b).drop_first() =~= a.drop_first() + b);
        lemma_total_of_concat(a.drop_first(), b);
        assert((a + b)[0] == a[0]);
    }
}

/// A sequence splits around any of its indices.
pub proof fn lemma_split3(s: Seq<(char, usize)>, i: int)
    requires
        0 <= i < s.len(),
    ensures
        s =~= s.subrange(0, i) + seq![s[i]] + s.subrange(i + 1, s.len() as int),
{
}

pub proof fn lemma_count_of_singleton(e: (char, usize), c: char)
    ensures
        count_of(seq![e], c) == if e.0 == c {
            e.1 as nat
        } else {
            0nat
        },
{
    reveal_with_fuel(count_of, 2);
    assert(seq![e].drop_first() =~= Seq::<(char, usize)>::empty());
}

pub proof fn lemma_total_of_singleton(e: (char, usize))
    ensures
        total_of(seq![e]) == e.1 as nat,
{
    reveal_with_fuel(total_of, 2);
    assert(seq![e].drop_first() =~= Seq::<(char, usize)>::empty());
}

/// Distinct characters have distinct scalar values.
pub proof fn lemma_char_value_injective(a: char, b: char)
    ensures
        (a as u32) == (b as u32) ==> a == b,
{
}

/// A character that no entry carries has count zero.
pub proof fn lemma_count_of_absent(s: Seq<(char, usize)>, c: char)
    requires
        forall|k: int| 0 <= k < s.len() ==> (#[trigger] s[k]).0 != c,
    ensures
        count_of(s, c) == 0,
    decreases s.len(),
{
    if s.len() > 0 {
        lemma_count_of_absent(s.drop_first(), c);
    }
}

/// Each entry's count is at most the sum of all counts.
pub proof fn lemma_entry_le_total(s: Seq<(char, usize)>, i: int)
    requires
        0 <= i < s.len(),
    ensures
        s[i].1 <= total_of(s),
    decreases s.len(),
{
    if i == 0 {
    } else {
        lemma_entry_le_total(s.drop_first(), i - 1);
    }
}

/// With unique keys, the count recorded for an entry's character is exactly
/// that entry's count.
pub proof fn lemma_count_of_key(s: Seq<(char, usize)>, i: int)
    requires
        sorted_by_char(s),
        0 <= i < s.len(),
    ensures
        count_of(s, s[i].0) == s[i].1,
{
    lemma_split3(s, i);
    lemma_count_of_concat(s.subrange(0, i) + seq![s[i]], s.subrange(i + 1, s.len() as int), s[i].0);
    lemma_count_of_concat(s.subrange(0, i), seq![s[i]], s[i].0);
    lemma_count_of_singleton(s[i], s[i].0);
    assert forall|k: int| 0 <= k < s.subrange(0, i).len() implies (#[trigger] s.subrange(0, i)[k]).0
        != s[i].0 by {
        assert((s[k].0 as u32) < (s[i].0 as u32));
    }
    lemma_count_of_absent(s.subrange(0, i), s[i].0);
    assert forall|k: int|
        0 <= k < s.subrange(i + 1, s.len() as int).len() implies (#[trigger] s.subrange(
        i + 1,
        s.len() as int,
    )[k]).0 != s[i].0 by {
        assert((s[i].0 as u32) < (s[k + i + 1].0 as u32));
    }
    lemma_count_of_absent(s.subrange(i + 1, s.len() as int), s[i].0);
}

/// With pairwise distinct keys, the count recorded for an entry's
/// character is exactly that entry's count.
pub proof fn lemma_count_of_key_distinct(s: Seq<(char, usize)>, i: int)
    requires
        forall|p: int, q: int|
            0 <= p < q < s.len() ==> (#[trigger] s[p]).0 != (#[trigger] s[q]).0,
        0 <= i < s.len(),
    ensures
        count_of(s, s[i].0) == s[i].1,
{
    lemma_split3(s, i);
    lemma_count_of_concat(s.subrange(0, i) + seq![s[i]], s.subrange(i + 1, s.len() as int), s[i].0);
    lemma_count_of_concat(s.subrange(0, i), seq![s[i]], s[i].0);
    lemma_count_of_singleton(s[i], s[i].0);
    assert forall|k: int| 0 <= k < s.subrange(0, i).len() implies (#[trigger] s.subrange(0, i)[k]).0
        != s[i].0 by {
        assert(s[k].0 != s[i].0);
    }
    lemma_count_of_absent(s.subrange(0, i), s[i].0);
    assert forall|k: int|
        0 <= k < s.subrange(i + 1, s.len() as int).len() implies (#[trigger] s.subrange(
        i + 1,
        s.len() as int,
    )[k]).0 != s[i].0 by {
        assert(s[i].0 != s[k + i + 1].0);
    }
    lemma_count_of_absent(s.subrange(i + 1, s.len() as int), s[i].0);
}

/// A character with a positive count is carried by some entry.
pub proof fn lemma_count_positive_has_key(s: Seq<(char, usize)>, c: char)
    requires
        count_of(s, c) > 0,
    ensures
        exists|k: int| 0 <= k < s.len() && (#[trigger] s[k]).0 == c,
{
    if !(exists|k: int| 0 <= k < s.len() && (#[trigger] s[k]).0 == c) {
        assert(forall|k: int| 0 <= k < s.len() ==> (#[trigger] s[k]).0 != c);
        lemma_count_of_absent(s, c);
        assert(false);
    }
}

/// The number of non-whitespace characters is at most the string's length.
pub proof fn lemma_nonws_le_len(s: Seq<char>)
    ensures
        nonws_count(s) <= s.len(),
    decreases s.len(),
{
    if s.len() > 0 {
        lemma_nonws_le_len(s.drop_last());
    }
}

/// A frequency map: characters paired with occurrence counts, kept strictly
/// ascending by scalar value, whitespace excluded, every count positive.
pub struct FrequencyMap {
    entries: Vec<(char, usize)>,
}

impl FrequencyMap {
    /// The entry sequence, ascending by character.
    pub closed spec fn entries_seq(self) -> Seq<(char, usize)> {
        self.entries@
    }

    /// Well-formedness: strictly sorted by character, no whitespace keys,
    /// all counts positive.
    pub open spec fn wf(self) -> bool {
        &&& sorted_by_char(self.entries_seq())
        &&& entries_wf(self.entries_seq())
    }

    /// The count recorded for `c`, zero when `c` is absent.
    pub open spec fn spec_count(self, c: char) -> nat {
        count_of(self.entries_seq(), c)
    }

    /// Sum of all counts in the map.
    pub open spec fn spec_total(self) -> nat {
        total_of(self.entries_seq())
    }

    /// Number of distinct characters in the map.
    pub open spec fn spec_len(self) -> nat {
        self.entries_seq().len()
    }

    /// Number of distinct characters recorded.
    pub fn len(&self) -> (n: usize)
        ensures
            n == self.spec_len(),
    {
        self.entries.len()
    }

    /// True when no character was recorded.
    pub fn is_empty(&self) -> (b: bool)
        ensures
            b == (self.spec_len() == 0),
    {
        self.entries.is_empty()
    }

    /// The entries, ascending by character scalar value.
    pub fn entries(&self) -> (r: &Vec<(char, usize)>)
        ensures
            r@ == self.entries_seq(),
    {
        &self.entries
    }

    /// The count recorded for `c`: `Some` exactly when `c` occurs.
    pub fn get(&self, c: char) -> (r: Option<usize>)
        requires
            self.wf(),
        ensures
            r == if self.spec_count(c) > 0 {
                Some(self.spec_count(c) as usize)
            } else {
                None::<usize>
            },
    {
        let n = self.entries.len();
        let mut k: usize = 0;
        while k < n
            invariant
                n == self.entries_seq().len(),
                k <= n,
                self.wf(),
                forall|j: int| 0 <= j < k ==> (#[trigger] self.entries_seq()[j]).0 != c,
            decreases n - k,
        {
            let (ch, cnt) = self.entries[k];
            if ch == c {
                proof {
                    lemma_count_of_key(self.entries_seq(), k as int);
                }
                return Some(cnt);
            }
            k += 1;
        }
        proof {
            lemma_count_of_absent(self.entries_seq(), c);
        }
        None
    }
}

/// Record one more occurrence of the non-whitespace character `c`.
fn bump(entries: &mut Vec<(char, usize)>, c: char)
    requires
        sorted_by_char(old(entries)@),
        entries_wf(old(entries)@),
        !is_ws(c),
        total_of(old(entries)@) < usize::MAX,
    ensures
        sorted_by_char(final(entries)@),
        entries_wf(final(entries)@),
        count_of(final(entries)@, c) == count_of(old(entries)@, c) + 1,
        forall|d: char| d != c ==> count_of(final(entries)@, d) == count_of(old(entries)@, d),
        total_of(final(entries)@) == total_of(old(entries)@) + 1,
{
    let ghost s0 = entries@;
    let n = entries.len();
    let mut i: usize = 0;
    while i < n && (entries[i].0 as u32) < (c as u32)
        invariant
            entries@ == s0,
            n == s0.len(),
            i <= n,
            forall|k: int| 0 <= k < i ==> ((#[trigger] s0[k]).0 as u32) < (c as u32),
        decreases n - i,
    {
        i += 1;
    }
    let ghost pre = s0.subrange(0, i as int);
    let ghost post_old = s0.subrange(i as int, s0.len() as int);
    if i < n && entries[i].0 == c {
        let cnt = entries[i].1;
        proof {
            lemma_entry_le_total(s0, i as int);
        }
        entries.set(i, (c, cnt + 1));
        proof {
            let ghost tail = s0.subrange(i as int + 1, s0.len() as int);
            lemma_split3(s0, i as int);
            lemma_split3(entries@, i as int);
            assert(entries@.subrange(0, i as int) =~= pre);
            assert(entries@.subrange(i as int + 1, s0.len() as int) =~= tail);
            assert(s0[i as int] == (c, cnt));
            assert(entries@[i as int] == (c, (cnt + 1) as usize));
            assert forall|d: char| true implies count_of(entries@, d) == count_of(s0, d) + (
            if d == c {
                1int
            } else {
                0int
            }) by {
                lemma_count_of_concat(pre + seq![s0[i as int]], tail, d);
                lemma_count_of_concat(pre, seq![s0[i as int]], d);
                lemma_count_of_singleton(s0[i as int], d);
                lemma_count_of_concat(pre + seq![entries@[i as int]], tail, d);
                lemma_count_of_concat(pre, seq![entries@[i as int]], d);
                lemma_count_of_singleton(entries@[i as int], d);
            }
            lemma_total_of_concat(pre + seq![s0[i as int]], tail);
            lemma_total_of_concat(pre, seq![s0[i as int]]);
            lemma_total_of_singleton(s0[i as int]);
            lemma_total_of_concat(pre + seq![entries@[i as int]], tail);
            lemma_total_of_concat(pre, seq![entries@[i as int]]);
            lemma_total_of_singleton(entries@[i as int]);
            assert(forall|k: int| 0 <= k < entries@.len() ==> (#[trigger] entries@[k]).0 == s0[k].0);
        }
    } else {
        proof {
            if i < n {
                lemma_char_value_injective(s0[i as int].0, c);
                assert((c as u32) < (s0[i as int].0 as u32));
            }
        }
        entries.insert(i, (c, 1));
        proof {
            assert(entries@ =~= pre + seq![(c, 1usize)] + post_old);
            assert(s0 =~= pre + post_old);
            assert forall|d: char| true implies count_of(entries@, d) == count_of(s0, d) + (
            if d == c {
                1int
            } else {
                0int
            }) by {
                lemma_count_of_concat(pre + seq![(c, 1usize)], post_old, d);
                lemma_count_of_concat(pre, seq![(c, 1usize)], d);
                lemma_count_of_singleton((c, 1usize), d);
                lemma_count_of_concat(pre, post_old, d);
            }
            lemma_total_of_concat(pre + seq![(c, 1usize)], post_old);
            lemma_total_of_concat(pre, seq![(c, 1usize)]);
            lemma_total_of_singleton((c, 1usize));
            lemma_total_of_concat(pre, post_old);
            assert forall|p: int, q: int| 0 <= p < q < entries@.len() implies ((
            #[trigger] entries@[p]).0 as u32) < ((#[trigger] entries@[q]).0 as u32) by {
                if q < i {
                } else if p == i as int {
                    assert(entries@[q] == s0[q - 1]);
                    if q - 1 > i {
                        assert((s0[i as int].0 as u32) < (s0[q - 1].0 as u32));
                    }
                } else if q == i as int {
                    assert(entries@[p] == s0[p]);
                } else if p < i && q > i {
                    assert(entries@[p] == s0[p]);
                    assert(entries@[q] == s0[q - 1]);
                    if q - 1 == i {
                    } else {
                        assert((s0[p].0 as u32) < (s0[q - 1].0 as u32));
                    }
                } else {
                    assert(entries@[p] == s0[p - 1]);
                    assert(entries@[q] == s0[q - 1]);
                }
            }
            assert(entries_wf(entries@));
        }
    }
}

/// The count recorded for a character depends only on the entries'
/// multiset, not on their order.
pub proof fn lemma_count_of_permutation(s: Seq<(char, usize)>, t: Seq<(char, usize)>, c: char)
    requires
        s.to_multiset() == t.to_multiset(),
    ensures
        count_of(s, c) == count_of(t, c),
    decreases s.len(),
{
    vstd::seq_lib::to_multiset_len(s);
    vstd::seq_lib::to_multiset_len(t);
    if s.len() > 0 {
        let x = s[0];
        assert(s.contains(x));
        vstd::seq_lib::to_multiset_contains(s, x);
        vstd::seq_lib::to_multiset_contains(t, x);
        assert(t.contains(x));
        let k = choose|k: int| 0 <= k < t.len() && t[k] == x;
        vstd::seq_lib::to_multiset_remove(s, 0);
        vstd::seq_lib::to_multiset_remove(t, k);
        lemma_count_of_permutation(s.remove(0), t.remove(k), c);
        assert(s.remove(0) =~= s.drop_first());
        lemma_split3(t, k);
        lemma_count_of_concat(
            t.subrange(0, k) + seq![t[k]],
            t.subrange(k + 1, t.len() as int),
            c,
        );
        lemma_count_of_concat(t.subrange(0, k), seq![t[k]], c);
        lemma_count_of_singleton(t[k], c);
        assert(t.remove(k) =~= t.subrange(0, k) + t.subrange(k + 1, t.len() as int));
        lemma_count_of_concat(t.subrange(0, k), t.subrange(k + 1, t.len() as int), c);
    }
}

/// The sum of all counts depends only on the entries' multiset.
pub proof fn lemma_total_of_permutation(s: Seq<(char, usize)>, t: Seq<(char, usize)>)
    requires
        s.to_multiset() == t.to_multiset(),
    ensures
        total_of(s) == total_of(t),
    decreases s.len(),
{
    vstd::seq_lib::to_multiset_len(s);
    vstd::seq_lib::to_multiset_len(t);
    if s.len() > 0 {
        let x = s[0];
        assert(s.contains(x));
        vstd::seq_lib::to_multiset_contains(s, x);
        vstd::seq_lib::to_multiset_contains(t, x);
        assert(t.contains(x));
        let k = choose|k: int| 0 <= k < t.len() && t[k] == x;
        vstd::seq_lib::to_multiset_remove(s, 0);
        vstd::seq_lib::to_multiset_remove(t, k);
        lemma_total_of_permutation(s.remove(0), t.remove(k));
        assert(s.remove(0) =~= s.drop_first());
        lemma_split3(t, k);
        lemma_total_of_concat(t.subrange(0, k) + seq![t[k]], t.subrange(k + 1, t.len() as int));
        lemma_total_of_concat(t.subrange(0, k), seq![t[k]]);
        lemma_total_of_singleton(t[k]);
        assert(t.remove(k) =~= t.subrange(0, k) + t.subrange(k + 1, t.len() as int));
        lemma_total_of_concat(t.subrange(0, k), t.subrange(k + 1, t.len() as int));
    }
}

proof fn lemma_counts_determine_entries(a: Seq<(char, usize)>, b: Seq<(char, usize)>)
    requires
        sorted_by_char(a),
        sorted_by_char(b),
        entries_wf(a),
        entries_wf(b),
        forall|c: char| #[trigger] count_of(a, c) == count_of(b, c),
    ensures
        a == b,
    decreases a.len(),
{
    if a.len() == 0 && b.len() == 0 {
        assert(a =~= b);
    } else if a.len() == 0 {
        lemma_count_of_key(b, 0);
        assert(count_of(a, b[0].0) == 0);
        assert(false);
    } else if b.len() == 0 {
        lemma_count_of_key(a, 0);
        assert(count_of(b, a[0].0) == 0);
        assert(false);
    } else {
        let ca = a[0].0;
        let cb = b[0].0;
        if (ca as u32) < (cb as u32) {
            lemma_count_of_key(a, 0);
            assert forall|k: int| 0 <= k < b.len() implies (#[trigger] b[k]).0 != ca by {
                lemma_char_value_injective(b[k].0, ca);
                if k > 0 {
                    assert((b[0].0 as u32) < (b[k].0 as u32));
                }
            }
            lemma_count_of_absent(b, ca);
            assert(false);
        }
        if (cb as u32) < (ca as u32) {
            lemma_count_of_key(b, 0);
            assert forall|k: int| 0 <= k < a.len() implies (#[trigger] a[k]).0 != cb by {
                lemma_char_value_injective(a[k].0, cb);
                if k > 0 {
                    assert((a[0].0 as u32) < (a[k].0 as u32));
                }
            }
            lemma_count_of_absent(a, cb);
            assert(false);
        }
        lemma_char_value_injective(ca, cb);
        assert(ca == cb);
        lemma_count_of_key(a, 0);
        lemma_count_of_key(b, 0);
        assert(a[0] == b[0]);
        let ta = a.drop_first();
        let tb = b.drop_first();
        assert forall|c: char| #[trigger] count_of(ta, c) == count_of(tb, c) by {
            if c == ca {
                assert forall|k: int| 0 <= k < ta.len() implies (#[trigger] ta[k]).0 != c by {
                    lemma_char_value_injective(ta[k].0, c);
                    assert((a[0].0 as u32) < (a[k + 1].0 as u32));
                }
                lemma_count_of_absent(ta, c);
                assert forall|k: int| 0 <= k < tb.len() implies (#[trigger] tb[k]).0 != c by {
                    lemma_char_value_injective(tb[k].0, c);
                    assert((b[0].0 as u32) < (b[k + 1].0 as u32));
                }
                lemma_count_of_absent(tb, c);
            } else {
                assert(count_of(a, c) == count_of(ta, c));
                assert(count_of(b, c) == count_of(tb, c));
            }
        }
        assert(forall|i: int, j: int|
            0 <= i < j < ta.len() ==> ((#[trigger] ta[i]).0 as u32) < ((#[trigger] ta[j]).0
                as u32));
        assert(forall|i: int, j: int|
            0 <= i < j < tb.len() ==> ((#[trigger] tb[i]).0 as u32) < ((#[trigger] tb[j]).0
                as u32));
        assert(forall|i: int| 0 <= i < ta.len() ==> !is_ws((#[trigger] ta[i]).0) && ta[i].1 >= 1);
        assert(forall|i: int| 0 <= i < tb.len() ==> !is_ws((#[trigger] tb[i]).0) && tb[i].1 >= 1);
        lemma_counts_determine_entries(ta, tb);
        assert(a.len() == b.len());
        assert forall|i: int| 0 <= i < a.len() implies a[i] == b[i] by {
            if i > 0 {
                assert(a[i] == ta[i - 1]);
                assert(b[i] == tb[i - 1]);
            }
        }
        assert(a =~= b);
    }
}

/// Counting is a function of the counts alone: two well-formed frequency
/// maps that record the same count for every character hold identical
/// entries. In particular, counting the same input twice yields an
/// identical map.
pub proof fn lemma_counts_determine_map(m1: FrequencyMap, m2: FrequencyMap)
    requires
        m1.wf(),
        m2.wf(),
        forall|c: char| #[trigger] m1.spec_count(c) == m2.spec_count(c),
    ensures
        m1.entries_seq() == m2.entries_seq(),
{
    assert forall|c: char| #[trigger] count_of(m1.entries_seq(), c) == count_of(
        m2.entries_seq(),
        c,
    ) by {
        assert(m1.spec_count(c) == m2.spec_count(c));
    }
    lemma_counts_determine_entries(m1.entries_seq(), m2.entries_seq());
}

/// Build the frequency map of `text`: decompose it into Unicode scalar
/// values, drop whitespace, and count each remaining character.
///
/// The resulting map records, for every character, exactly its number of
/// non-whitespace occurrences in the input, and the counts sum to the
/// number of non-whitespace characters of the input.
pub fn create_counter(text: &str) -> (m: FrequencyMap)
    ensures
        m.wf(),
        forall|c: char| #[trigger] m.spec_count(c) == occurrences(text@, c),
        m.spec_total() == nonws_count(text@),
        m.spec_total() <= usize::MAX,
{
    let cs = text::chars_of(text);
    let n = cs.len();
    let mut entries: Vec<(char, usize)> = Vec::new();
    let mut idx: usize = 0;
    while idx < n
        invariant
            cs@ == text@,
            n == cs@.len(),
            idx <= n,
            sorted_by_char(entries@),
            entries_wf(entries@),
            forall|c: char| #[trigger] count_of(entries@, c) == occurrences(
                cs@.take(idx as int),
                c,
            ),
            total_of(entries@) == nonws_count(cs@.take(idx as int)),
        decreases n - idx,
    {
        let ch = cs[idx];
        let ghost prefix = cs@.take(idx as int);
        let ghost prefix1 = cs@.take(idx as int + 1);
        proof {
            assert(prefix1.drop_last() =~= prefix);
            assert(prefix1.last() == cs@[idx as int]);
            lemma_nonws_le_len(prefix);
        }
        if !text::is_whitespace(ch) {
            bump(&mut entries, ch);
        }
        idx += 1;
    }
    proof {
        assert(cs@.take(n as int) =~= cs@);
        lemma_nonws_le_len(cs@);
    }
    FrequencyMap { entries }
}

} // verus!
