//! The full pass over an input: one counter per window length from 1 up to
//! the configured maximum, each consuming the same payload, and the report
//! read out of the final frequency tables.

use vstd::prelude::*;

use crate::counter::init_model;
use crate::counter::lemma_pow16_exceeds;
use crate::counter::lemma_pow16_monotone;
use crate::counter::nonzero_entries;
use crate::counter::run_model;
use crate::counter::sequence_length_supported;
use crate::counter::DigitSequenceCounter;
use crate::payload::extract_payload;
use crate::payload::payload_of;

verus! {

/// The frequency table for window length `l` after consuming `payload`.
pub open spec fn table_of(l: nat, payload: Seq<u8>) -> Seq<u128> {
    run_model(init_model(l), payload).counts
}

/// The report over `payload`: for each window length `1..=max`, the nonzero
/// table entries in table-index order.
pub open spec fn report_of(max: nat, payload: Seq<u8>) -> Seq<Seq<u128>> {
    Seq::new(max, |i: int| nonzero_entries(table_of((i + 1) as nat, payload)))
}

/// Builds one counter per window length from 1 up to `max_sequence_length`
/// and feeds the whole payload to each; the counter for length `l` ends in
/// exactly the state of `l` state-machine transitions per payload byte.
pub fn count_sequences(payload: &Vec<u8>, max_sequence_length: usize) -> (counters: Vec<
    DigitSequenceCounter,
>)
    requires
        sequence_length_supported(max_sequence_length as nat),
    ensures
        counters@.len() == max_sequence_length,
        forall|i: int|
            0 <= i < max_sequence_length ==> (#[trigger] counters@[i]).wf() && counters@[i]@
                == run_model(init_model((i + 1) as nat), payload@),
{
    proof {
        lemma_pow16_exceeds(max_sequence_length as nat);
    }
    let mut counters: Vec<DigitSequenceCounter> = Vec::new();
    let mut l: usize = 1;
    while l <= max_sequence_length
        invariant
            1 <= l <= max_sequence_length + 1,
            max_sequence_length < usize::MAX,
            sequence_length_supported(max_sequence_length as nat),
            counters@.len() == l - 1,
            forall|i: int|
                0 <= i < l - 1 ==> (#[trigger] counters@[i]).wf() && counters@[i]@ == run_model(
                    init_model((i + 1) as nat),
                    payload@,
                ),
        decreases max_sequence_length + 1 - l,
    {
        proof {
            lemma_pow16_monotone(l as nat, max_sequence_length as nat);
        }
        let mut counter = DigitSequenceCounter::new(l);
        let mut j: usize = 0;
        while j < payload.len()
            invariant
                j <= payload@.len(),
                counter.wf(),
                counter@ == run_model(init_model(l as nat), payload@.take(j as int)),
            decreases payload@.len() - j,
        {
            proof {
                assert(payload@.take(j + 1).drop_last() =~= payload@.take(j as int));
                assert(payload@.take(j + 1).last() == payload@[j as int]);
            }
            counter.process_character(payload[j]);
            j = j + 1;
        }
        proof {
            assert(payload@.take(payload@.len() as int) =~= payload@);
        }
        counters.push(counter);
        l = l + 1;
    }
    counters
}

/// The whole pass: extracts the payload of `input` (the bytes strictly after
/// the first separator), counts digit sequences for every window length from
/// 1 up to `max_sequence_length`, and returns, per window length in ascending
/// order, the nonzero frequency-table entries in table-index order.
pub fn analyze(input: &Vec<u8>, max_sequence_length: usize) -> (report: Vec<Vec<u128>>)
    requires
        sequence_length_supported(max_sequence_length as nat),
    ensures
        report@.len() == max_sequence_length,
        forall|i: int|
            0 <= i < max_sequence_length ==> (#[trigger] report@[i])@ == nonzero_entries(
                table_of((i + 1) as nat, payload_of(input@)),
            ),
{
    let payload: Vec<u8> = extract_payload(input);
    let counters: Vec<DigitSequenceCounter> = count_sequences(&payload, max_sequence_length);
    let mut report: Vec<Vec<u128>> = Vec::new();
    let mut i: usize = 0;
    while i < counters.len()
        invariant
            i <= counters@.len(),
            counters@.len() == max_sequence_length,
            payload@ == payload_of(input@),
            forall|k: int|
                0 <= k < max_sequence_length ==> (#[trigger] counters@[k]).wf() && counters@[k]@
                    == run_model(init_model((k + 1) as nat), payload@),
            report@.len() == i,
            forall|k: int|
                0 <= k < i ==> (#[trigger] report@[k])@ == nonzero_entries(
                    table_of((k + 1) as nat, payload_of(input@)),
                ),
        decreases counters@.len() - i,
    {
        let line: Vec<u128> = counters[i].nonzero_sequence_counts();
        report.push(line);
        i = i + 1;
    }
    report
}

} // verus!
