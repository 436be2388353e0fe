//! General laws of the counting engine, stated over the abstract counter
//! state machine and proved once and for all: how the frequency-table total
//! relates to the maximal digit runs of the payload, that warm-up and resets
//! prevent windows from spanning a reset boundary, that decoding folds case,
//! and that the whole analysis is a pure function of its input.

use vstd::prelude::*;

use vstd::arithmetic::div_mod::lemma_add_mod_noop;
use vstd::arithmetic::div_mod::lemma_mul_mod_noop_left;
use vstd::arithmetic::div_mod::lemma_small_mod;

use crate::counter::init_model;
use crate::counter::lemma_pow16_positive;
use crate::counter::nonzero_entries;
use crate::counter::pow16;
use crate::counter::run_model;
use crate::counter::saturating_increment;
use crate::counter::step_model;
use crate::counter::CounterModel;
use crate::digits::hex_digit_value;
use crate::digits::is_hex_digit;
use crate::payload::payload_of;
use crate::pipeline::table_of;

verus! {

/// The length of the run of consecutive digit bytes at the end of `s`.
pub open spec fn trailing_digit_run(s: Seq<u8>) -> nat
    decreases s.len(),
{
    if s.len() == 0 {
        0
    } else if !is_hex_digit(s.last()) {
        0
    } else {
        1 + trailing_digit_run(s.drop_last())
    }
}

/// The number of positions of `s` at which a counter of window length `l`
/// records a window: positions ending a run of more than `l` consecutive
/// digits (the first `l` digits of a run are consumed by warm-up).
pub open spec fn windows_counted(s: Seq<u8>, l: nat) -> nat
    decreases s.len(),
{
    if s.len() == 0 {
        0
    } else {
        windows_counted(s.drop_last(), l) + (if trailing_digit_run(s) > l {
            1nat
        } else {
            0nat
        })
    }
}

/// The lengths of the maximal runs of consecutive digit bytes of `s`, in
/// order of occurrence.
pub open spec fn digit_run_lengths(s: Seq<u8>) -> Seq<nat>
    decreases s.len(),
{
    if s.len() == 0 {
        Seq::empty()
    } else {
        let rest = digit_run_lengths(s.drop_last());
        if !is_hex_digit(s.last()) {
            rest
        } else if trailing_digit_run(s.drop_last()) == 0 {
            rest.push(1)
        } else {
            rest.update(rest.len() - 1, (rest.last() + 1) as nat)
        }
    }
}

/// The number of fully-warmed windows contributed by runs of the given
/// lengths for window length `l`: a run of `r` digits contributes `r - l`
/// windows when `r > l`, and none otherwise.
pub open spec fn full_windows_in_runs(runs: Seq<nat>, l: nat) -> nat
    decreases runs.len(),
{
    if runs.len() == 0 {
        0
    } else {
        full_windows_in_runs(runs.drop_last(), l) + (if runs.last() > l {
            (runs.last() - l) as nat
        } else {
            0nat
        })
    }
}

/// The sum of all entries of a frequency table.
pub open spec fn table_total(counts: Seq<u128>) -> nat
    decreases counts.len(),
{
    if counts.len() == 0 {
        0
    } else {
        (table_total(counts.drop_last()) + counts.last()) as nat
    }
}

/// Consuming bytes never changes the window length of a counter.
pub proof fn lemma_run_preserves_length(m: CounterModel, s: Seq<u8>)
    ensures
        run_model(m, s).sequence_length == m.sequence_length,
    decreases s.len(),
{
    if s.len() > 0 {
        lemma_run_preserves_length(m, s.drop_last());
    }
}

/// Consuming bytes never changes the size of the frequency table of a
/// counter whose table has one entry per possible window value.
pub proof fn lemma_run_preserves_table_size(m: CounterModel, s: Seq<u8>)
    requires
        m.counts.len() == pow16(m.sequence_length),
    ensures
        run_model(m, s).counts.len() == m.counts.len(),
    decreases s.len(),
{
    if s.len() > 0 {
        lemma_run_preserves_table_size(m, s.drop_last());
        lemma_run_preserves_length(m, s.drop_last());
        lemma_pow16_positive(m.sequence_length);
    }
}

/// Consuming a concatenation is consuming the two parts in order.
pub proof fn lemma_run_append(m: CounterModel, s1: Seq<u8>, s2: Seq<u8>)
    ensures
        run_model(m, s1 + s2) == run_model(run_model(m, s1), s2),
    decreases s2.len(),
{
    if s2.len() == 0 {
        assert(s1 + s2 =~= s1);
    } else {
        lemma_run_append(m, s1, s2.drop_last());
        assert((s1 + s2).drop_last() =~= s1 + s2.drop_last());
        assert((s1 + s2).last() == s2.last());
    }
}

/// While warm-up is not over, no window is recorded: consuming at most
/// `stalled` further bytes leaves the frequency table untouched.
pub proof fn lemma_warmup_blocks_counting(m: CounterModel, t: Seq<u8>)
    requires
        m.stalled <= m.sequence_length,
        t.len() <= m.stalled,
    ensures
        run_model(m, t).counts == m.counts,
        run_model(m, t).stalled >= m.stalled - t.len(),
        run_model(m, t).stalled <= m.sequence_length,
    decreases t.len(),
{
    if t.len() > 0 {
        lemma_warmup_blocks_counting(m, t.drop_last());
        lemma_run_preserves_length(m, t.drop_last());
    }
}

/// A table whose entries are all zero has no nonzero entries.
pub proof fn lemma_nonzero_entries_all_zero(counts: Seq<u128>)
    requires
        forall|i: int| 0 <= i < counts.len() ==> counts[i] == 0u128,
    ensures
        nonzero_entries(counts) == Seq::<u128>::empty(),
    decreases counts.len(),
{
    if counts.len() > 0 {
        lemma_nonzero_entries_all_zero(counts.drop_last());
    }
}

/// An empty payload yields, for every window length, a report with no
/// nonzero entries.
pub proof fn lemma_empty_payload_reports_nothing(l: nat)
    ensures
        nonzero_entries(table_of(l, Seq::empty())) == Seq::<u128>::empty(),
{
    assert(run_model(init_model(l), Seq::empty()) == init_model(l));
    lemma_nonzero_entries_all_zero(init_model(l).counts);
}

/// A payload shorter than the window length yields a report with no nonzero
/// entries: warm-up is never completed.
pub proof fn lemma_short_payload_reports_nothing(l: nat, s: Seq<u8>)
    requires
        1 <= l,
        s.len() < l,
    ensures
        nonzero_entries(table_of(l, s)) == Seq::<u128>::empty(),
{
    lemma_warmup_blocks_counting(init_model(l), s);
    lemma_nonzero_entries_all_zero(run_model(init_model(l), s).counts);
}

/// No recorded window spans a reset boundary: after any non-digit byte, the
/// frequency table stays exactly as it was until more than a full window
/// length of further bytes has been consumed.
pub proof fn lemma_no_window_spans_reset(m: CounterModel, before: Seq<u8>, b: u8, after: Seq<u8>)
    requires
        !is_hex_digit(b),
        after.len() <= m.sequence_length,
    ensures
        run_model(m, before.push(b) + after).counts == run_model(m, before).counts,
{
    lemma_run_append(m, before.push(b), after);
    assert(before.push(b).drop_last() =~= before);
    assert(run_model(m, before.push(b)) == step_model(run_model(m, before), b));
    lemma_run_preserves_length(m, before);
    lemma_warmup_blocks_counting(run_model(m, before.push(b)), after);
}

/// The warm-up countdown of a counter is exactly the part of the window
/// length not yet covered by the run of digit bytes at the end of the
/// consumed input.
proof fn lemma_stalled_tracks_trailing_run(l: nat, s: Seq<u8>)
    requires
        1 <= l,
    ensures
        run_model(init_model(l), s).stalled == if trailing_digit_run(s) >= l {
            0nat
        } else {
            (l - trailing_digit_run(s)) as nat
        },
    decreases s.len(),
{
    if s.len() > 0 {
        lemma_stalled_tracks_trailing_run(l, s.drop_last());
        lemma_run_preserves_length(init_model(l), s.drop_last());
    }
}

/// The value of the run of digit bytes at the end of `s`, read as a
/// hexadecimal number with the most recently seen digit least significant.
pub open spec fn trailing_run_value(s: Seq<u8>) -> nat
    decreases s.len(),
{
    if s.len() == 0 {
        0
    } else if !is_hex_digit(s.last()) {
        0
    } else {
        (trailing_run_value(s.drop_last()) * 16 + hex_digit_value(s.last())) as nat
    }
}

/// The rolling window always holds the last `sequence_length` digits seen
/// since the last reset, zero-padded on the left when there are fewer: it is
/// the value of the trailing digit run reduced modulo `16^l`.
pub proof fn lemma_window_holds_trailing_digits(l: nat, s: Seq<u8>)
    requires
        1 <= l,
    ensures
        run_model(init_model(l), s).window == trailing_run_value(s) % pow16(l),
    decreases s.len(),
{
    lemma_pow16_positive((l - 1) as nat);
    assert(pow16(l) >= 16);
    let m = pow16(l) as int;
    if s.len() == 0 {
        lemma_small_mod(0, pow16(l));
    } else {
        let prefix = s.drop_last();
        let b = s.last();
        lemma_window_holds_trailing_digits(l, prefix);
        lemma_run_preserves_length(init_model(l), prefix);
        if !is_hex_digit(b) {
            lemma_small_mod(0, pow16(l));
        } else {
            let tvp = trailing_run_value(prefix) as int;
            let d = hex_digit_value(b) as int;
            lemma_mul_mod_noop_left(tvp, 16, m);
            lemma_add_mod_noop((tvp % m) * 16, d, m);
            lemma_add_mod_noop(tvp * 16, d, m);
            lemma_small_mod(hex_digit_value(b) as nat, pow16(l));
        }
    }
}

/// The number of positions of `s` at which a counter of window length `l`
/// records the window value `v`: positions ending a run of more than `l`
/// digits whose trailing digits read as `v` modulo `16^l`.
pub open spec fn occurrences_of_window(s: Seq<u8>, l: nat, v: nat) -> nat
    decreases s.len(),
{
    if s.len() == 0 {
        0
    } else {
        occurrences_of_window(s.drop_last(), l, v) + (if trailing_digit_run(s) > l
            && trailing_run_value(s) % pow16(l) == v {
            1nat
        } else {
            0nat
        })
    }
}

/// Updating one entry changes the table total by the difference of the entry.
proof fn lemma_table_total_update(counts: Seq<u128>, k: int, v: u128)
    requires
        0 <= k < counts.len(),
    ensures
        table_total(counts.update(k, v)) == table_total(counts) - counts[k] + v,
    decreases counts.len(),
{
    if k == counts.len() - 1 {
        assert(counts.update(k, v).drop_last() =~= counts.drop_last());
    } else {
        lemma_table_total_update(counts.drop_last(), k, v);
        assert(counts.update(k, v).drop_last() =~= counts.drop_last().update(k, v));
    }
}

/// Every entry is at most the table total.
proof fn lemma_entry_le_table_total(counts: Seq<u128>, k: int)
    requires
        0 <= k < counts.len(),
    ensures
        counts[k] <= table_total(counts),
    decreases counts.len(),
{
    if k < counts.len() - 1 {
        lemma_entry_le_table_total(counts.drop_last(), k);
    }
}

/// The total of an all-zero table is zero.
proof fn lemma_table_total_all_zero(counts: Seq<u128>)
    requires
        forall|i: int| 0 <= i < counts.len() ==> counts[i] == 0u128,
    ensures
        table_total(counts) == 0,
    decreases counts.len(),
{
    if counts.len() > 0 {
        lemma_table_total_all_zero(counts.drop_last());
    }
}

/// At most one window is recorded per byte.
proof fn lemma_windows_counted_le_len(s: Seq<u8>, l: nat)
    ensures
        windows_counted(s, l) <= s.len(),
    decreases s.len(),
{
    if s.len() > 0 {
        lemma_windows_counted_le_len(s.drop_last(), l);
    }
}

/// The table total after a run over `s` is the number of positions at which
/// a window was recorded. The payload is shorter than the counters can
/// saturate, so every increment is exact.
proof fn lemma_table_total_is_windows_counted(l: nat, s: Seq<u8>)
    requires
        1 <= l,
        s.len() < u128::MAX,
    ensures
        table_total(run_model(init_model(l), s).counts) == windows_counted(s, l),
    decreases s.len(),
{
    lemma_pow16_positive(l);
    if s.len() == 0 {
        lemma_table_total_all_zero(init_model(l).counts);
    } else {
        let prefix = s.drop_last();
        let b = s.last();
        let mid = run_model(init_model(l), prefix);
        lemma_table_total_is_windows_counted(l, prefix);
        lemma_stalled_tracks_trailing_run(l, prefix);
        lemma_run_preserves_length(init_model(l), prefix);
        lemma_run_preserves_table_size(init_model(l), prefix);
        if is_hex_digit(b) && mid.stalled == 0 {
            let w = ((mid.window * 16 + hex_digit_value(b)) % (pow16(l) as int)) as int;
            lemma_windows_counted_le_len(prefix, l);
            lemma_entry_le_table_total(mid.counts, w);
            lemma_table_total_update(
                mid.counts,
                w,
                saturating_increment(mid.counts[w]),
            );
        }
    }
}

/// Each frequency-table entry counts exactly the occurrences of its window
/// value: after consuming `s`, the entry for `v` is the number of positions
/// of `s` that end a full, uninterrupted run of more than `l` digits whose
/// last digits read as the value `v`.
pub proof fn lemma_table_entry_counts_occurrences(l: nat, s: Seq<u8>, v: nat)
    requires
        1 <= l,
        s.len() < u128::MAX,
        v < pow16(l),
    ensures
        table_of(l, s)[v as int] == occurrences_of_window(s, l, v),
    decreases s.len(),
{
    lemma_pow16_positive(l);
    if s.len() > 0 {
        let prefix = s.drop_last();
        let b = s.last();
        let mid = run_model(init_model(l), prefix);
        lemma_table_entry_counts_occurrences(l, prefix, v);
        lemma_stalled_tracks_trailing_run(l, prefix);
        lemma_run_preserves_length(init_model(l), prefix);
        lemma_run_preserves_table_size(init_model(l), prefix);
        if is_hex_digit(b) && mid.stalled == 0 {
            lemma_window_holds_trailing_digits(l, s);
            let w = run_model(init_model(l), s).window as int;
            assert(w == trailing_run_value(s) % pow16(l));
            lemma_table_total_is_windows_counted(l, prefix);
            lemma_windows_counted_le_len(prefix, l);
            lemma_entry_le_table_total(mid.counts, w);
        }
    }
}

/// The shape of the run decomposition: every maximal run has at least one
/// byte, and when the input ends in digits, the last run is exactly the
/// trailing run of digits.
proof fn lemma_runs_shape(s: Seq<u8>)
    ensures
        forall|i: int| 0 <= i < digit_run_lengths(s).len() ==> #[trigger] digit_run_lengths(s)[i]
            >= 1,
        trailing_digit_run(s) > 0 ==> digit_run_lengths(s).len() > 0 && digit_run_lengths(s).last()
            == trailing_digit_run(s),
    decreases s.len(),
{
    if s.len() > 0 {
        lemma_runs_shape(s.drop_last());
        let rest = digit_run_lengths(s.drop_last());
        let runs = digit_run_lengths(s);
        if is_hex_digit(s.last()) {
            if trailing_digit_run(s.drop_last()) == 0 {
                assert(runs == rest.push(1nat));
                assert(forall|i: int|
                    0 <= i < rest.len() ==> #[trigger] runs[i] == rest[i] && rest[i] >= 1);
                assert(runs[runs.len() - 1] == 1nat);
            } else {
                assert(runs == rest.update(rest.len() - 1, (rest.last() + 1) as nat));
                assert(forall|i: int|
                    0 <= i < rest.len() - 1 ==> #[trigger] runs[i] == rest[i] && rest[i] >= 1);
                assert(runs[runs.len() - 1] == (rest.last() + 1) as nat);
            }
        }
    }
}

/// Counting recorded positions byte by byte and counting full windows run by
/// run agree.
proof fn lemma_windows_counted_matches_runs(s: Seq<u8>, l: nat)
    ensures
        windows_counted(s, l) == full_windows_in_runs(digit_run_lengths(s), l),
    decreases s.len(),
{
    if s.len() > 0 {
        let prefix = s.drop_last();
        let rest = digit_run_lengths(prefix);
        lemma_windows_counted_matches_runs(prefix, l);
        lemma_runs_shape(prefix);
        if is_hex_digit(s.last()) {
            let t = trailing_digit_run(prefix);
            if t == 0 {
                assert(rest.push(1nat).drop_last() =~= rest);
            } else {
                let extended = rest.update(rest.len() - 1, (rest.last() + 1) as nat);
                assert(extended =~= rest.drop_last().push((rest.last() + 1) as nat));
                assert(extended.drop_last() =~= rest.drop_last());
            }
        }
    }
}

/// For every window length `l`, the sum over all frequency-table entries
/// equals the number of fully-warmed windows in the payload: summed over the
/// maximal runs of consecutive digit bytes, a run of `r` digits contributes
/// `r - l` windows when `r` exceeds `l` and none otherwise, since the first
/// `l` digits of every run are consumed by warm-up.
pub proof fn lemma_table_total_matches_runs(l: nat, s: Seq<u8>)
    requires
        1 <= l,
        s.len() < u128::MAX,
    ensures
        table_total(table_of(l, s)) == full_windows_in_runs(digit_run_lengths(s), l),
{
    lemma_table_total_is_windows_counted(l, s);
    lemma_windows_counted_matches_runs(s, l);
}

/// Two bytes are interchangeable for the counter when they are digits of the
/// same value (for instance the two cases of one hexadecimal letter) or both
/// non-digits.
pub open spec fn bytes_equivalent(a: u8, b: u8) -> bool {
    (is_hex_digit(a) && is_hex_digit(b) && hex_digit_value(a) == hex_digit_value(b)) || (
    !is_hex_digit(a) && !is_hex_digit(b))
}

/// Decoding folds case: two payloads whose bytes are pairwise equivalent
/// drive a counter through exactly the same states, so equal window content
/// produces equal window values and equal frequency tables.
pub proof fn lemma_case_insensitive(m: CounterModel, s1: Seq<u8>, s2: Seq<u8>)
    requires
        s1.len() == s2.len(),
        forall|i: int| 0 <= i < s1.len() ==> bytes_equivalent(#[trigger] s1[i], s2[i]),
    ensures
        run_model(m, s1) == run_model(m, s2),
    decreases s1.len(),
{
    if s1.len() > 0 {
        lemma_case_insensitive(m, s1.drop_last(), s2.drop_last());
        assert(bytes_equivalent(s1.last(), s2.last()));
    }
}

/// The report is a pure function of the input bytes and the configured
/// maximum window length: two runs over the same input produce identical
/// reports.
pub proof fn lemma_report_deterministic(
    input: Seq<u8>,
    max: nat,
    r1: Seq<Seq<u128>>,
    r2: Seq<Seq<u128>>,
)
    requires
        r1.len() == max,
        r2.len() == max,
        forall|i: int|
            0 <= i < max ==> #[trigger] r1[i] == nonzero_entries(
                table_of((i + 1) as nat, payload_of(input)),
            ),
        forall|i: int|
            0 <= i < max ==> #[trigger] r2[i] == nonzero_entries(
                table_of((i + 1) as nat, payload_of(input)),
            ),
    ensures
        r1 == r2,
{
    assert(r1 =~= r2);
}

} // verus!
