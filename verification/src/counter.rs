//! The digit-sequence counter: a fixed-size rolling-window counter that
//! consumes a byte stream one byte at a time and maintains an exact frequency
//! table keyed by the numeric value of the current window of `sequence_length`
//! hexadecimal digits (4 bits per digit, most recent digit in the lowest bits).

use vstd::prelude::*;

use crate::digits::decode_hex_digit;
use crate::digits::hex_digit_value;
use crate::digits::is_hex_digit;

verus! {

/// The largest window length a counter may be configured with: the number of
/// hexadecimal digits in a 64-bit word, so that the rolling window fits in
/// one native word.
pub const LARGEST_SEQUENCE_LENGTH: usize = 16;

/// `16^l`: the number of distinct windows of `l` hexadecimal digits.
pub open spec fn pow16(l: nat) -> nat
    decreases l,
{
    if l == 0 {
        1
    } else {
        16 * pow16((l - 1) as nat)
    }
}

pub proof fn lemma_pow16_positive(l: nat)
    ensures
        pow16(l) >= 1,
    decreases l,
{
    if l > 0 {
        lemma_pow16_positive((l - 1) as nat);
    }
}

pub proof fn lemma_pow16_exceeds(l: nat)
    ensures
        pow16(l) > l,
    decreases l,
{
    if l > 0 {
        lemma_pow16_exceeds((l - 1) as nat);
    }
}

pub proof fn lemma_pow16_monotone(i: nat, j: nat)
    requires
        i <= j,
    ensures
        pow16(i) <= pow16(j),
    decreases j,
{
    if i < j {
        lemma_pow16_monotone(i, (j - 1) as nat);
        lemma_pow16_positive((j - 1) as nat);
    }
}

/// A window length is supported on this machine when the frequency table
/// (`16^l` entries) and the shifted window (`16 * 16^l - 1`) are representable
/// in a `usize`.
pub open spec fn sequence_length_supported(l: nat) -> bool {
    16 * pow16(l) - 1 <= usize::MAX
}

/// Decides `sequence_length_supported` for a given length.
pub fn sequence_length_is_supported(l: usize) -> (b: bool)
    ensures
        b == sequence_length_supported(l as nat),
{
    let mut m: u128 = 1;
    let mut i: usize = 0;
    while i < l
        invariant
            i <= l,
            m == pow16(i as nat),
            m <= 16 * (usize::MAX as u128),
        decreases l - i,
    {
        if m > usize::MAX as u128 {
            proof {
                lemma_pow16_monotone(i as nat, l as nat);
                lemma_pow16_positive(i as nat);
            }
            return false;
        }
        m = m * 16;
        i = i + 1;
    }
    proof {
        lemma_pow16_positive(l as nat);
    }
    16 * m - 1 <= usize::MAX as u128
}

/// The abstract state of one counter: the window length, the value of the
/// rolling window, how many further digits warm-up still needs, and the
/// frequency table.
pub ghost struct CounterModel {
    pub sequence_length: nat,
    pub window: nat,
    pub stalled: nat,
    pub counts: Seq<u128>,
}

/// Adds one to a counter, saturating at the largest representable value
/// instead of wrapping.
pub open spec fn saturating_increment(c: u128) -> u128 {
    if c == u128::MAX {
        c
    } else {
        (c + 1) as u128
    }
}

/// The state of a freshly constructed counter for window length `l`: zeroed
/// window, full warm-up, all-zero frequency table.
pub open spec fn init_model(l: nat) -> CounterModel {
    CounterModel {
        sequence_length: l,
        window: 0,
        stalled: l,
        counts: Seq::new(pow16(l), |k: int| 0u128),
    }
}

/// The transition of one counter on one byte. A non-digit clears the window
/// and restarts warm-up without touching the table. A digit is shifted into
/// the window; during warm-up it only consumes one unit of warm-up, afterwards
/// the entry for the new window value is incremented (saturating).
pub open spec fn step_model(m: CounterModel, b: u8) -> CounterModel {
    if !is_hex_digit(b) {
        CounterModel {
            sequence_length: m.sequence_length,
            window: 0,
            stalled: m.sequence_length,
            counts: m.counts,
        }
    } else {
        let w: nat = ((m.window * 16 + hex_digit_value(b)) % (pow16(m.sequence_length) as int)) as nat;
        if m.stalled == 0 {
            CounterModel {
                sequence_length: m.sequence_length,
                window: w,
                stalled: 0,
                counts: m.counts.update(w as int, saturating_increment(m.counts[w as int])),
            }
        } else {
            CounterModel {
                sequence_length: m.sequence_length,
                window: w,
                stalled: (m.stalled - 1) as nat,
                counts: m.counts,
            }
        }
    }
}

/// The state of a counter after consuming the whole byte sequence `s`,
/// starting from `m`.
pub open spec fn run_model(m: CounterModel, s: Seq<u8>) -> CounterModel
    decreases s.len(),
{
    if s.len() == 0 {
        m
    } else {
        step_model(run_model(m, s.drop_last()), s.last())
    }
}

/// The nonzero entries of a frequency table, in table-index order.
pub open spec fn nonzero_entries(s: Seq<u128>) -> Seq<u128>
    decreases s.len(),
{
    if s.len() == 0 {
        Seq::empty()
    } else if s.last() == 0 {
        nonzero_entries(s.drop_last())
    } else {
        nonzero_entries(s.drop_last()).push(s.last())
    }
}

/// One rolling-window counter for a fixed window length.
#[derive(Debug)]
pub struct DigitSequenceCounter {
    pub sequence_length: usize,
    pub current_sequence: usize,
    pub sequence_counts: Vec<u128>,
    pub bitmask: usize,
    pub stalled_for: usize,
}

impl View for DigitSequenceCounter {
    type V = CounterModel;

    open spec fn view(&self) -> CounterModel {
        CounterModel {
            sequence_length: self.sequence_length as nat,
            window: self.current_sequence as nat,
            stalled: self.stalled_for as nat,
            counts: self.sequence_counts@,
        }
    }
}

impl DigitSequenceCounter {
    /// The representation invariant: the table has exactly `16^l` entries, the
    /// bitmask is `16^l - 1`, the window is masked to it, and warm-up never
    /// exceeds the window length.
    pub open spec fn wf(&self) -> bool {
        &&& 1 <= self.sequence_length
        &&& sequence_length_supported(self.sequence_length as nat)
        &&& self.sequence_counts@.len() == pow16(self.sequence_length as nat)
        &&& self.bitmask + 1 == pow16(self.sequence_length as nat)
        &&& self.current_sequence <= self.bitmask
        &&& self.stalled_for <= self.sequence_length
    }

    /// Constructs the counter for window length `sequence_length`: zeroed
    /// window, all-zero table of `16^sequence_length` entries, warm-up set to
    /// the full window length.
    pub fn new(sequence_length: usize) -> (counter: DigitSequenceCounter)
        requires
            1 <= sequence_length,
            sequence_length_supported(sequence_length as nat),
        ensures
            counter.wf(),
            counter@ == init_model(sequence_length as nat),
    {
        proof {
            lemma_pow16_positive(sequence_length as nat);
        }
        let mut modulus: usize = 1;
        let mut i: usize = 0;
        while i < sequence_length
            invariant
                i <= sequence_length,
                modulus == pow16(i as nat),
                sequence_length_supported(sequence_length as nat),
            decreases sequence_length - i,
        {
            proof {
                lemma_pow16_monotone((i + 1) as nat, sequence_length as nat);
                lemma_pow16_positive(sequence_length as nat);
            }
            modulus = modulus * 16;
            i = i + 1;
        }
        let mut table: Vec<u128> = Vec::new();
        let mut j: usize = 0;
        while j < modulus
            invariant
                j <= modulus,
                table@.len() == j,
                forall|k: int| 0 <= k < j ==> table@[k] == 0u128,
            decreases modulus - j,
        {
            table.push(0);
            j = j + 1;
        }
        proof {
            assert(table@ =~= Seq::new(pow16(sequence_length as nat), |k: int| 0u128));
        }
        DigitSequenceCounter {
            sequence_length,
            current_sequence: 0,
            sequence_counts: table,
            bitmask: modulus - 1,
            stalled_for: sequence_length,
        }
    }

    /// Feeds one byte to the counter; the new state is exactly one transition
    /// of the counter state machine from the old state.
    pub fn process_character(&mut self, character: u8)
        requires
            old(self).wf(),
        ensures
            final(self).wf(),
            final(self)@ == step_model(old(self)@, character),
    {
        let digit: usize = match decode_hex_digit(character) {
            Some(d) => d as usize,
            None => {
                self.current_sequence = 0;
                self.stalled_for = self.sequence_length;
                return;
            },
        };
        let next: usize = (self.current_sequence * 16 + digit) % (self.bitmask + 1);
        self.current_sequence = next;
        if self.stalled_for == 0 {
            let current_count: u128 = self.sequence_counts[next];
            let incremented: u128 = if current_count == u128::MAX {
                current_count
            } else {
                current_count + 1
            };
            self.sequence_counts[next] = incremented;
        } else {
            self.stalled_for = self.stalled_for - 1;
        }
    }

    /// The entry of the frequency table for one window value.
    pub fn count_for_window(&self, window: usize) -> (count: u128)
        requires
            window < self@.counts.len(),
        ensures
            count == self@.counts[window as int],
    {
        self.sequence_counts[window]
    }

    /// The nonzero entries of the frequency table, in table-index order: the
    /// body of the per-counter report line.
    pub fn nonzero_sequence_counts(&self) -> (counts: Vec<u128>)
        ensures
            counts@ == nonzero_entries(self@.counts),
    {
        let mut counts: Vec<u128> = Vec::new();
        let mut i: usize = 0;
        while i < self.sequence_counts.len()
            invariant
                i <= self.sequence_counts.len(),
                counts@ == nonzero_entries(self.sequence_counts@.take(i as int)),
            decreases self.sequence_counts.len() - i,
        {
            proof {
                assert(self.sequence_counts@.take(i + 1).drop_last() =~= self.sequence_counts@.take(
                    i as int,
                ));
                assert(self.sequence_counts@.take(i + 1).last() == self.sequence_counts@[i as int]);
            }
            let entry: u128 = self.sequence_counts[i];
            if entry != 0 {
                counts.push(entry);
            }
            i = i + 1;
        }
        proof {
            assert(self.sequence_counts@.take(self.sequence_counts@.len() as int)
                =~= self.sequence_counts@);
        }
        counts
    }
}

} // verus!
