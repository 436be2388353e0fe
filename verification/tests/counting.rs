use hexcount::counter::DigitSequenceCounter;
use hexcount::pipeline::analyze;
use hexcount::pipeline::count_sequences;

fn feed(counter: &mut DigitSequenceCounter, bytes: &[u8]) {
    for &b in bytes {
        counter.process_character(b);
    }
}

#[test]
fn two_digit_windows_after_warmup() {
    // Payload "1234" with window length 2: the first two digits are consumed
    // by warm-up, so only the windows 0x23 and 0x34 are recorded, once each.
    let mut counter = DigitSequenceCounter::new(2);
    feed(&mut counter, b"1234");
    assert_eq!(counter.nonzero_sequence_counts(), vec![1u128, 1u128]);
    assert_eq!(counter.count_for_window(0x12), 0);
    assert_eq!(counter.count_for_window(0x23), 1);
    assert_eq!(counter.count_for_window(0x34), 1);
}

#[test]
fn one_digit_windows_after_warmup() {
    let mut counter = DigitSequenceCounter::new(1);
    feed(&mut counter, b"1234");
    assert_eq!(counter.count_for_window(0x1), 0);
    assert_eq!(counter.count_for_window(0x2), 1);
    assert_eq!(counter.count_for_window(0x3), 1);
    assert_eq!(counter.count_for_window(0x4), 1);
    assert_eq!(counter.nonzero_sequence_counts(), vec![1u128, 1u128, 1u128]);
}

#[test]
fn fresh_counter_reports_nothing() {
    let counter = DigitSequenceCounter::new(3);
    assert_eq!(counter.nonzero_sequence_counts(), Vec::<u128>::new());
}

#[test]
fn no_separator_means_empty_payload() {
    // Without a separator the payload is empty: every report line is `0 []`.
    let report = analyze(&b"abcdef".to_vec(), 3);
    assert_eq!(report.len(), 3);
    for line in &report {
        assert!(line.is_empty());
    }
}

#[test]
fn nothing_after_separator_means_empty_payload() {
    let report = analyze(&b"header.".to_vec(), 4);
    assert_eq!(report.len(), 4);
    for line in &report {
        assert!(line.is_empty());
    }
}

#[test]
fn payload_shorter_than_window_reports_nothing() {
    // Payload "12": too short for window lengths 2 and 3, one window for 1.
    let report = analyze(&b".12".to_vec(), 3);
    assert_eq!(report.len(), 3);
    assert_eq!(report[0], vec![1u128]);
    assert!(report[1].is_empty());
    assert!(report[2].is_empty());
}

#[test]
fn non_digit_payload_resets_counters() {
    // Input "ab.gg": the payload is "gg"; `g` is not a hexadecimal digit, so
    // every byte resets and nothing is ever recorded.
    let report = analyze(&b"ab.gg".to_vec(), 2);
    assert_eq!(report.len(), 2);
    assert!(report[0].is_empty());
    assert!(report[1].is_empty());
}

#[test]
fn windows_do_not_span_reset() {
    // Payload "12g34": the reset at `g` separates two runs of two digits,
    // so no two-digit window is recorded, and one one-digit window per run.
    let report = analyze(&b".12g34".to_vec(), 2);
    assert_eq!(report[0], vec![1u128, 1u128]);
    assert!(report[1].is_empty());
}

#[test]
fn separator_in_payload_resets_counters() {
    // Only the first separator ends the header; a later one is an ordinary
    // non-digit byte and resets the counters.
    let report = analyze(&b".12.34".to_vec(), 2);
    assert_eq!(report[0], vec![1u128, 1u128]);
    assert!(report[1].is_empty());
}

#[test]
fn case_of_digits_is_folded() {
    let upper_first = analyze(&b".AaBbCc".to_vec(), 3);
    let lower_first = analyze(&b".aAbBcC".to_vec(), 3);
    assert_eq!(upper_first, lower_first);
    // "aAbBcC" decodes to the digit values a, a, b, b, c, c.
    let mut counter = DigitSequenceCounter::new(1);
    feed(&mut counter, b"aAbBcC");
    assert_eq!(counter.count_for_window(0xa), 1);
    assert_eq!(counter.count_for_window(0xb), 2);
    assert_eq!(counter.count_for_window(0xc), 2);
}

#[test]
fn repeated_analysis_is_identical() {
    let input = b"log-head.00ff0a1b2c00ff".to_vec();
    let first = analyze(&input, 4);
    let second = analyze(&input, 4);
    assert_eq!(first, second);
}

#[test]
fn table_total_counts_windows_per_run() {
    // Payload "12g345": runs of 2 and 3 digits. For window length l, a run
    // of r digits contributes r - l windows when r > l: 1 + 2 windows for
    // l = 1, 0 + 1 for l = 2, 0 + 0 for l = 3.
    let report = analyze(&b".12g345".to_vec(), 3);
    let totals: Vec<u128> = report.iter().map(|line| line.iter().sum()).collect();
    assert_eq!(totals, vec![3u128, 1u128, 0u128]);
}

#[test]
fn repeated_windows_accumulate() {
    // Payload "aaaa", window length 2: windows 0xaa, 0xaa after warm-up.
    let mut counter = DigitSequenceCounter::new(2);
    feed(&mut counter, b"aaaa");
    assert_eq!(counter.count_for_window(0xaa), 2);
    assert_eq!(counter.nonzero_sequence_counts(), vec![2u128]);
}

#[test]
fn report_lists_counts_in_window_value_order() {
    // Payload "3212", window length 1: '3' is consumed by warm-up, then '2',
    // '1' and '2' are recorded. The nonzero counts are listed by window
    // value, not by frequency or first occurrence: value 1 before value 2.
    let mut counter = DigitSequenceCounter::new(1);
    feed(&mut counter, b"3212");
    assert_eq!(counter.count_for_window(0x1), 1);
    assert_eq!(counter.count_for_window(0x2), 2);
    assert_eq!(counter.count_for_window(0x3), 0);
    assert_eq!(counter.nonzero_sequence_counts(), vec![1u128, 2u128]);
}

#[test]
fn counters_are_reported_in_ascending_window_length() {
    let counters = count_sequences(&b"1234".to_vec(), 3);
    assert_eq!(counters.len(), 3);
    for (i, counter) in counters.iter().enumerate() {
        assert_eq!(counter.sequence_length, i + 1);
    }
}
