//! Result presentation: the display modes, their selection precedence,
//! integer percentage arithmetic, decimal formatting, and the rendering of
//! ordered entries into output lines.
use vstd::prelude::*;

use crate::count::lemma_entry_le_total;
use crate::count::lemma_total_of_concat;
use crate::count::lemma_total_of_singleton;
use crate::count::total_of;
use crate::text;

verus! {

use vstd::math::min;

/// The single active display mode: at most one shapes the output.
#[derive(Clone, Copy, PartialEq, Eq, Structural, Debug)]
pub enum DisplayMode {
    Plain,
    Percentage,
    TopN(usize),
    MoreThan(usize),
    LessThan(usize),
    ExactlyN(usize),
}

/// The mode the raw option set selects, under the fixed precedence:
/// percentage first, then top-N, then the three threshold filters in
/// order, then plain.
pub open spec fn spec_select_mode(
    show_percent: bool,
    top_n: Option<usize>,
    more_than: Option<usize>,
    less_than: Option<usize>,
    exactly: Option<usize>,
) -> DisplayMode {
    if show_percent {
        DisplayMode::Percentage
    } else if top_n is Some {
        DisplayMode::TopN(top_n->0)
    } else if more_than is Some {
        DisplayMode::MoreThan(more_than->0)
    } else if less_than is Some {
        DisplayMode::LessThan(less_than->0)
    } else if exactly is Some {
        DisplayMode::ExactlyN(exactly->0)
    } else {
        DisplayMode::Plain
    }
}

/// Choose the single active display mode from the raw option set.
pub fn select_mode(
    show_percent: bool,
    top_n: Option<usize>,
    more_than: Option<usize>,
    less_than: Option<usize>,
    exactly: Option<usize>,
) -> (m: DisplayMode)
    ensures
        m == spec_select_mode(show_percent, top_n, more_than, less_than, exactly),
{
    if show_percent {
        DisplayMode::Percentage
    } else if let Some(n) = top_n {
        DisplayMode::TopN(n)
    } else if let Some(n) = more_than {
        DisplayMode::MoreThan(n)
    } else if let Some(n) = less_than {
        DisplayMode::LessThan(n)
    } else if let Some(n) = exactly {
        DisplayMode::ExactlyN(n)
    } else {
        DisplayMode::Plain
    }
}

/// The decimal digit character for `d`.
pub open spec fn spec_digit(d: nat) -> char
    recommends
        d < 10,
{
    if d == 0 {
        '0'
    } else if d == 1 {
        '1'
    } else if d == 2 {
        '2'
    } else if d == 3 {
        '3'
    } else if d == 4 {
        '4'
    } else if d == 5 {
        '5'
    } else if d == 6 {
        '6'
    } else if d == 7 {
        '7'
    } else if d == 8 {
        '8'
    } else {
        '9'
    }
}

/// The decimal representation of `n`, most significant digit first, with
/// no leading zeros (a single `'0'` for zero).
pub open spec fn spec_dec_digits(n: nat) -> Seq<char>
    decreases n,
{
    if n < 10 {
        seq![spec_digit(n)]
    } else {
        spec_dec_digits(n / 10).push(spec_digit(n % 10))
    }
}

/// One plain output line: the character, a colon and a space, then the
/// count in decimal.
pub open spec fn plain_line(e: (char, usize)) -> Seq<char> {
    seq![e.0, ':', ' '] + spec_dec_digits(e.1 as nat)
}

/// `count / total` as a share of 100, scaled to hundredths and rounded
/// half away from zero.
pub open spec fn spec_percent_scaled(count: nat, total: nat) -> nat
    recommends
        total > 0,
{
    (count * 20000 + total) / (2 * total)
}

/// One percentage output line: the character, a colon and a space, then
/// the percentage with exactly two decimal digits.
pub open spec fn percent_line(e: (char, usize), total: nat) -> Seq<char> {
    let p = spec_percent_scaled(e.1 as nat, total);
    seq![e.0, ':', ' '] + spec_dec_digits(p / 100) + seq![
        '.',
        spec_digit((p / 10) % 10),
        spec_digit(p % 10),
    ]
}

/// The entries whose count is strictly greater than `n`, in order.
pub open spec fn keep_more(s: Seq<(char, usize)>, n: usize) -> Seq<(char, usize)>
    decreases s.len(),
{
    if s.len() == 0 {
        Seq::empty()
    } else {
        keep_more(s.drop_last(), n) + if s.last().1 > n {
            seq![s.last()]
        } else {
            Seq::empty()
        }
    }
}

/// The entries whose count is strictly less than `n`, in order.
pub open spec fn keep_less(s: Seq<(char, usize)>, n: usize) -> Seq<(char, usize)>
    decreases s.len(),
{
    if s.len() == 0 {
        Seq::empty()
    } else {
        keep_less(s.drop_last(), n) + if s.last().1 < n {
            seq![s.last()]
        } else {
            Seq::empty()
        }
    }
}

/// The entries whose count equals `n`, in order.
pub open spec fn keep_exact(s: Seq<(char, usize)>, n: usize) -> Seq<(char, usize)>
    decreases s.len(),
{
    if s.len() == 0 {
        Seq::empty()
    } else {
        keep_exact(s.drop_last(), n) + if s.last().1 == n {
            seq![s.last()]
        } else {
            Seq::empty()
        }
    }
}

/// The output lines the active mode produces from the ordered entries.
pub open spec fn spec_render(entries: Seq<(char, usize)>, mode: DisplayMode) -> Seq<Seq<char>> {
    match mode {
        DisplayMode::Plain => entries.map_values(|e: (char, usize)| plain_line(e)),
        DisplayMode::Percentage => entries.map_values(
            |e: (char, usize)| percent_line(e, total_of(entries)),
        ),
        DisplayMode::TopN(n) => entries.take(min(n as int, entries.len() as int)).map_values(
            |e: (char, usize)| plain_line(e),
        ),
        DisplayMode::MoreThan(n) => keep_more(entries, n).map_values(
            |e: (char, usize)| plain_line(e),
        ),
        DisplayMode::LessThan(n) => keep_less(entries, n).map_values(
            |e: (char, usize)| plain_line(e),
        ),
        DisplayMode::ExactlyN(n) => keep_exact(entries, n).map_values(
            |e: (char, usize)| plain_line(e),
        ),
    }
}

/// The decimal digit character for `d`, matching `spec_digit`.
fn digit_of(d: usize) -> (c: char)
    requires
        d < 10,
    ensures
        c == spec_digit(d as nat),
{
    if d == 0 {
        '0'
    } else if d == 1 {
        '1'
    } else if d == 2 {
        '2'
    } else if d == 3 {
        '3'
    } else if d == 4 {
        '4'
    } else if d == 5 {
        '5'
    } else if d == 6 {
        '6'
    } else if d == 7 {
        '7'
    } else if d == 8 {
        '8'
    } else {
        '9'
    }
}

/// The decimal digits of `n`, most significant first.
fn dec_digits_vec(n: usize) -> (v: Vec<char>)
    ensures
        v@ == spec_dec_digits(n as nat),
{
    let mut low: Vec<char> = Vec::new();
    let mut m: usize = n;
    while m >= 10
        invariant
            spec_dec_digits(n as nat) == spec_dec_digits(m as nat) + low@.reverse(),
        decreases m,
    {
        let d = m % 10;
        proof {
            assert(low@.push(spec_digit(d as nat)).reverse() =~= seq![spec_digit(d as nat)]
                + low@.reverse());
            assert(spec_dec_digits((m / 10) as nat).push(spec_digit((m % 10) as nat)) + low@
                .reverse() =~= spec_dec_digits((m / 10) as nat) + (seq![spec_digit(d as nat)]
                + low@.reverse()));
        }
        low.push(digit_of(d));
        m = m / 10;
    }
    proof {
        assert(low@.push(spec_digit(m as nat)).reverse() =~= seq![spec_digit(m as nat)]
            + low@.reverse());
    }
    low.push(digit_of(m));
    let ghost full = spec_dec_digits(n as nat);
    let mut v: Vec<char> = Vec::new();
    let mut k: usize = low.len();
    proof {
        assert(full =~= low@.reverse());
        assert(full.len() == low@.len());
    }
    while k > 0
        invariant
            k <= low@.len(),
            full.len() == low@.len(),
            v@.len() == low@.len() - k,
            forall|i: int| 0 <= i < v@.len() ==> v@[i] == full[i],
            forall|i: int| 0 <= i < low@.len() ==> full[i] == low@[low@.len() - 1 - i],
        decreases k,
    {
        k = k - 1;
        v.push(low[k]);
    }
    proof {
        assert(v@ =~= full);
    }
    v
}

/// The count scaled to hundredths of a percent of `total`, rounded half
/// away from zero; at most `10000` when the count is within the total.
fn percent_scaled_exec(count: usize, total: usize) -> (p: usize)
    requires
        0 < total,
        count <= total,
    ensures
        p == spec_percent_scaled(count as nat, total as nat),
        p <= 10000,
{
    let num: u128 = 20000u128 * (count as u128) + (total as u128);
    let den: u128 = 2u128 * (total as u128);
    let q: u128 = num / den;
    proof {
        assert(num as nat == (count as nat) * 20000 + total as nat) by (nonlinear_arith)
            requires
                num == 20000u128 * (count as u128) + (total as u128),
                count <= usize::MAX,
                total <= usize::MAX,
        ;
        assert(q <= 10000) by (nonlinear_arith)
            requires
                q == num as nat / (2 * total as nat),
                num as nat == (count as nat) * 20000 + total as nat,
                count <= total,
                0 < total,
        ;
    }
    q as usize
}

/// Sum of the counts of the entries.
fn total_exec(entries: &Vec<(char, usize)>) -> (t: usize)
    requires
        total_of(entries@) <= usize::MAX,
    ensures
        t as nat == total_of(entries@),
{
    let n = entries.len();
    let mut t: usize = 0;
    let mut i: usize = 0;
    while i < n
        invariant
            n == entries@.len(),
            i <= n,
            total_of(entries@) <= usize::MAX,
            t as nat == total_of(entries@.take(i as int)),
        decreases n - i,
    {
        proof {
            assert(entries@.take(i as int + 1) =~= entries@.take(i as int) + seq![
                entries@[i as int],
            ]);
            lemma_total_of_concat(entries@.take(i as int), seq![entries@[i as int]]);
            lemma_total_of_singleton(entries@[i as int]);
            assert(entries@ =~= entries@.take(i as int + 1) + entries@.skip(i as int + 1));
            lemma_total_of_concat(entries@.take(i as int + 1), entries@.skip(i as int + 1));
        }
        t = t + entries[i].1;
        i = i + 1;
    }
    proof {
        assert(entries@.take(n as int) =~= entries@);
    }
    t
}

/// One plain line, as a string.
fn plain_line_exec(c: char, count: usize) -> (s: String)
    ensures
        s@ == plain_line((c, count)),
{
    let mut v: Vec<char> = Vec::new();
    v.push(c);
    v.push(':');
    v.push(' ');
    let mut digits = dec_digits_vec(count);
    v.append(&mut digits);
    proof {
        assert(v@ =~= plain_line((c, count)));
    }
    text::chars_to_string(&v)
}

/// One percentage line, as a string.
fn percent_line_exec(c: char, count: usize, total: usize) -> (s: String)
    requires
        0 < total,
        count <= total,
    ensures
        s@ == percent_line((c, count), total as nat),
{
    let p = percent_scaled_exec(count, total);
    let mut v: Vec<char> = Vec::new();
    v.push(c);
    v.push(':');
    v.push(' ');
    let mut whole = dec_digits_vec(p / 100);
    v.append(&mut whole);
    v.push('.');
    v.push(digit_of((p / 10) % 10));
    v.push(digit_of(p % 10));
    proof {
        assert(v@ =~= percent_line((c, count), total as nat));
    }
    text::chars_to_string(&v)
}

/// Render the ordered entries under the active display mode, one line per
/// surviving entry. A top-N mode emits exactly `min(n, number of entries)`
/// lines; the threshold modes emit the entries their comparison keeps; the
/// percentage mode shares the sum of all counts as its denominator.
pub fn render(entries: &Vec<(char, usize)>, mode: DisplayMode) -> (lines: Vec<String>)
    requires
        crate::count::counts_positive(entries@),
        total_of(entries@) <= usize::MAX,
    ensures
        lines@.map_values(|s: String| s@) == spec_render(entries@, mode),
        mode matches DisplayMode::TopN(n) ==> lines@.len() == min(
            n as int,
            entries@.len() as int,
        ),
{
    let n_entries = entries.len();
    let mut lines: Vec<String> = Vec::new();
    match mode {
        DisplayMode::Plain => {
            let mut i: usize = 0;
            while i < n_entries
                invariant
                    n_entries == entries@.len(),
                    i <= n_entries,
                    lines@.len() == i,
                    forall|k: int| 0 <= k < i ==> (#[trigger] lines@[k])@ == plain_line(
                        entries@[k],
                    ),
                decreases n_entries - i,
            {
                let (c, cnt) = entries[i];
                lines.push(plain_line_exec(c, cnt));
                i += 1;
            }
            proof {
                assert(lines@.map_values(|s: String| s@) =~= spec_render(entries@, mode));
            }
        },
        DisplayMode::Percentage => {
            let total = total_exec(entries);
            let mut i: usize = 0;
            while i < n_entries
                invariant
                    n_entries == entries@.len(),
                    i <= n_entries,
                    crate::count::counts_positive(entries@),
                    total as nat == total_of(entries@),
                    lines@.len() == i,
                    forall|k: int| 0 <= k < i ==> (#[trigger] lines@[k])@ == percent_line(
                        entries@[k],
                        total as nat,
                    ),
                decreases n_entries - i,
            {
                let (c, cnt) = entries[i];
                proof {
                    lemma_entry_le_total(entries@, i as int);
                }
                lines.push(percent_line_exec(c, cnt, total));
                i += 1;
            }
            proof {
                assert(lines@.map_values(|s: String| s@) =~= spec_render(entries@, mode));
            }
        },
        DisplayMode::TopN(n) => {
            let k_top = if n < n_entries {
                n
            } else {
                n_entries
            };
            let mut i: usize = 0;
            while i < k_top
                invariant
                    n_entries == entries@.len(),
                    k_top == min(n as int, entries@.len() as int),
                    i <= k_top,
                    lines@.len() == i,
                    forall|k: int| 0 <= k < i ==> (#[trigger] lines@[k])@ == plain_line(
                        entries@[k],
                    ),
                decreases k_top - i,
            {
                let (c, cnt) = entries[i];
                lines.push(plain_line_exec(c, cnt));
                i += 1;
            }
            proof {
                let taken = entries@.take(min(n as int, entries@.len() as int));
                assert(forall|k: int| 0 <= k < taken.len() ==> taken[k] == entries@[k]);
                assert(lines@.map_values(|s: String| s@) =~= spec_render(entries@, mode));
            }
        },
        DisplayMode::MoreThan(n) => {
            let mut i: usize = 0;
            while i < n_entries
                invariant
                    n_entries == entries@.len(),
                    i <= n_entries,
                    lines@.len() == keep_more(entries@.take(i as int), n).len(),
                    forall|k: int| 0 <= k < lines@.len() ==> (#[trigger] lines@[k])@
                        == plain_line(keep_more(entries@.take(i as int), n)[k]),
                decreases n_entries - i,
            {
                let (c, cnt) = entries[i];
                proof {
                    assert(entries@.take(i as int + 1).drop_last() =~= entries@.take(i as int));
                    assert(entries@.take(i as int + 1).last() == entries@[i as int]);
                }
                if cnt > n {
                    lines.push(plain_line_exec(c, cnt));
                    proof {
                        assert(keep_more(entries@.take(i as int + 1), n) =~= keep_more(
                            entries@.take(i as int),
                            n,
                        ).push(entries@[i as int]));
                    }
                } else {
                    proof {
                        assert(keep_more(entries@.take(i as int + 1), n) =~= keep_more(
                            entries@.take(i as int),
                            n,
                        ));
                    }
                }
                i += 1;
            }
            proof {
                assert(entries@.take(n_entries as int) =~= entries@);
                assert(lines@.map_values(|s: String| s@) =~= spec_render(entries@, mode));
            }
        },
        DisplayMode::LessThan(n) => {
            let mut i: usize = 0;
            while i < n_entries
                invariant
                    n_entries == entries@.len(),
                    i <= n_entries,
                    lines@.len() == keep_less(entries@.take(i as int), n).len(),
                    forall|k: int| 0 <= k < lines@.len() ==> (#[trigger] lines@[k])@
                        == plain_line(keep_less(entries@.take(i as int), n)[k]),
                decreases n_entries - i,
            {
                let (c, cnt) = entries[i];
                proof {
                    assert(entries@.take(i as int + 1).drop_last() =~= entries@.take(i as int));
                    assert(entries@.take(i as int + 1).last() == entries@[i as int]);
                }
                if cnt < n {
                    lines.push(plain_line_exec(c, cnt));
                    proof {
                        assert(keep_less(entries@.take(i as int + 1), n) =~= keep_less(
                            entries@.take(i as int),
                            n,
                        ).push(entries@[i as int]));
                    }
                } else {
                    proof {
                        assert(keep_less(entries@.take(i as int + 1), n) =~= keep_less(
                            entries@.take(i as int),
                            n,
                        ));
                    }
                }
                i += 1;
            }
            proof {
                assert(entries@.take(n_entries as int) =~= entries@);
                assert(lines@.map_values(|s: String| s@) =~= spec_render(entries@, mode));
            }
        },
        DisplayMode::ExactlyN(n) => {
            let mut i: usize = 0;
            while i < n_entries
                invariant
                    n_entries == entries@.len(),
                    i <= n_entries,
                    lines@.len() == keep_exact(entries@.take(i as int), n).len(),
                    forall|k: int| 0 <= k < lines@.len() ==> (#[trigger] lines@[k])@
                        == plain_line(keep_exact(entries@.take(i as int), n)[k]),
                decreases n_entries - i,
            {
                let (c, cnt) = entries[i];
                proof {
                    assert(entries@.take(i as int + 1).drop_last() =~= entries@.take(i as int));
                    assert(entries@.take(i as int + 1).last() == entries@[i as int]);
                }
                if cnt == n {
                    lines.push(plain_line_exec(c, cnt));
                    proof {
                        assert(keep_exact(entries@.take(i as int + 1), n) =~= keep_exact(
                            entries@.take(i as int),
                            n,
                        ).push(entries@[i as int]));
                    }
                } else {
                    proof {
                        assert(keep_exact(entries@.take(i as int + 1), n) =~= keep_exact(
                            entries@.take(i as int),
                            n,
                        ));
                    }
                }
                i += 1;
            }
            proof {
                assert(entries@.take(n_entries as int) =~= entries@);
                assert(lines@.map_values(|s: String| s@) =~= spec_render(entries@, mode));
            }
        },
    }
    lines
}

/// Sum of the scaled percentage values of the entries, in hundredths of a
/// percent.
pub open spec fn percent_sum(s: Seq<(char, usize)>, total: nat) -> nat
    decreases s.len(),
{
    if s.len() == 0 {
        0
    } else {
        spec_percent_scaled(s[0].1 as nat, total) + percent_sum(s.drop_first(), total)
    }
}

proof fn lemma_percent_sum_bounds(s: Seq<(char, usize)>, t: nat)
    requires
        t > 0,
    ensures
        2 * t * percent_sum(s, t) <= 20000 * total_of(s) + s.len() * t,
        2 * t * percent_sum(s, t) + s.len() * t >= 20000 * total_of(s),
    decreases s.len(),
{
    if s.len() == 0 {
        assert(percent_sum(s, t) == 0);
        assert(total_of(s) == 0);
        assert(2 * t * percent_sum(s, t) == 0) by (nonlinear_arith)
            requires
                percent_sum(s, t) == 0,
        ;
        assert(s.len() * t == 0) by (nonlinear_arith)
            requires
                s.len() == 0,
        ;
    } else {
        let c = s[0].1 as nat;
        let v = spec_percent_scaled(c, t);
        let rest = s.drop_first();
        lemma_percent_sum_bounds(rest, t);
        vstd::arithmetic::div_mod::lemma_fundamental_div_mod(
            (c * 20000 + t) as int,
            (2 * t) as int,
        );
        vstd::arithmetic::div_mod::lemma_mod_bound((c * 20000 + t) as int, (2 * t) as int);
        let r = ((c * 20000 + t) as int) % ((2 * t) as int);
        assert(2 * t * v == 20000 * c + t - r) by (nonlinear_arith)
            requires
                (c * 20000 + t) as int == (2 * t) as int * (v as int) + r,
                v == (c * 20000 + t) / (2 * t),
        ;
        assert(2 * t * percent_sum(s, t) == 2 * t * v + 2 * t * percent_sum(rest, t))
            by (nonlinear_arith)
            requires
                percent_sum(s, t) == v + percent_sum(rest, t),
        ;
        assert(s.len() * t == t + rest.len() * t) by (nonlinear_arith)
            requires
                s.len() == rest.len() + 1,
        ;
        assert(total_of(s) == c + total_of(rest));
        assert(0 <= r < 2 * t);
        assert(2 * t * percent_sum(s, t) <= (20000 * c + t) + (20000 * total_of(rest)
            + rest.len() * t));
        assert(20000 * total_of(s) == 20000 * c + 20000 * total_of(rest)) by (nonlinear_arith)
            requires
                total_of(s) == c + total_of(rest),
        ;
        assert(2 * t * percent_sum(s, t) + s.len() * t >= 20000 * total_of(s));
    }
}

/// The percentage mode's values sum to one hundred percent within the
/// rounding tolerance: in hundredths of a percent they sum to `10000`,
/// give or take at most one hundredth per distinct character.
pub proof fn lemma_percentage_sum_tolerance(s: Seq<(char, usize)>, total: nat)
    requires
        total == total_of(s),
        total > 0,
    ensures
        10000 <= percent_sum(s, total) + s.len(),
        percent_sum(s, total) <= 10000 + s.len(),
{
    lemma_percent_sum_bounds(s, total);
    let ps = percent_sum(s, total) as int;
    let t = total as int;
    let n = s.len() as int;
    assert(2 * ps <= 20000 + n) by (nonlinear_arith)
        requires
            2 * t * ps <= 20000 * t + n * t,
            t > 0,
    ;
    assert(2 * ps + n >= 20000) by (nonlinear_arith)
        requires
            2 * t * ps + n * t >= 20000 * t,
            t > 0,
    ;
}

proof fn lemma_keep_membership(s: Seq<(char, usize)>, n: usize)
    ensures
        forall|e: (char, usize)| #[trigger]
            keep_more(s, n).contains(e) <==> s.contains(e) && e.1 > n,
        forall|e: (char, usize)| #[trigger]
            keep_less(s, n).contains(e) <==> s.contains(e) && e.1 < n,
        forall|e: (char, usize)| #[trigger]
            keep_exact(s, n).contains(e) <==> s.contains(e) && e.1 == n,
    decreases s.len(),
{
    broadcast use vstd::seq_lib::group_seq_properties;

    if s.len() > 0 {
        let d = s.drop_last();
        let x = s.last();
        lemma_keep_membership(d, n);
        if x.1 > n {
            assert(keep_more(s, n) =~= keep_more(d, n).push(x));
        } else {
            assert(keep_more(s, n) =~= keep_more(d, n));
        }
        if x.1 < n {
            assert(keep_less(s, n) =~= keep_less(d, n).push(x));
        } else {
            assert(keep_less(s, n) =~= keep_less(d, n));
        }
        if x.1 == n {
            assert(keep_exact(s, n) =~= keep_exact(d, n).push(x));
        } else {
            assert(keep_exact(s, n) =~= keep_exact(d, n));
        }
        assert(forall|e: (char, usize)| #[trigger]
            s.contains(e) <==> d.contains(e) || e == x);
    }
}

/// For a fixed `n`, the three threshold modes partition the entry set:
/// every entry survives exactly one of `MoreThan(n)`, `LessThan(n)` and
/// `ExactlyN(n)`, and the surviving lengths sum to the number of entries.
pub proof fn lemma_threshold_partition(s: Seq<(char, usize)>, n: usize)
    ensures
        keep_more(s, n).len() + keep_less(s, n).len() + keep_exact(s, n).len() == s.len(),
        forall|e: (char, usize)| #[trigger]
            s.contains(e) <==> keep_more(s, n).contains(e) || keep_less(s, n).contains(e)
                || keep_exact(s, n).contains(e),
        forall|e: (char, usize)|
            !(#[trigger] keep_more(s, n).contains(e) && keep_less(s, n).contains(e)),
        forall|e: (char, usize)|
            !(#[trigger] keep_more(s, n).contains(e) && keep_exact(s, n).contains(e)),
        forall|e: (char, usize)|
            !(#[trigger] keep_less(s, n).contains(e) && keep_exact(s, n).contains(e)),
    decreases s.len(),
{
    lemma_keep_membership(s, n);
    if s.len() > 0 {
        lemma_threshold_partition(s.drop_last(), n);
    }
}

} // verus!
