use pfviz::kind::EventKind;
use pfviz::parse::{parse_perf_data, scan_lines, ParseError};
use pfviz::perf::{Timestamp, PAGE_SIZE};

fn to_lines(ss: &[&str]) -> Vec<Vec<u8>> {
    ss.iter().map(|s| s.as_bytes().to_vec()).collect()
}

const MAP_LINE: &str = "1234 000 0.900000000: PERF_RECORD_MMAP2 1234/1234: [1000(2000) x 0 x x x x a.so";

#[test]
fn scenario_single_map_three_minor_faults() {
    let lines = to_lines(&[
        MAP_LINE,
        "1234 000 1.000000000: minor-faults:u 1000 deadbeef 4f0 sym",
        "1234 000 1.001000000: minor-faults:u 1800 deadbeef 4f0 sym",
        "1234 000 1.002000000: minor-faults:u 2fff deadbeef 4f0 sym",
    ]);
    let pd = parse_perf_data(&lines).unwrap();
    assert_eq!(pd.faults.len(), 3);
    assert_eq!(pd.faults[0].offset, 0);
    assert_eq!(pd.faults[1].offset, 0x800);
    assert_eq!(pd.faults[2].offset, 0x1fff);
    for ev in &pd.faults {
        assert_eq!(ev.kind, EventKind::MinorFault);
        assert_eq!(ev.obj_idx, 0);
    }
    assert_eq!(pd.faults[0].time_ns, 1_000_000_000);
    assert_eq!(pd.faults[1].time_ns, 1_001_000_000);
    assert_eq!(pd.faults[2].time_ns, 1_002_000_000);
    let obj = *pd.objects.get(0).unwrap();
    assert_eq!(obj.faults, 3);
    assert_eq!(obj.smallest_offset, 0);
    assert_eq!(obj.biggest_offset, 0x2000);
    assert_eq!(pd.object_name(0), b"a.so".to_vec());
}

#[test]
fn times_are_non_decreasing() {
    let lines = to_lines(&[
        MAP_LINE,
        "1234 000 1.000000000: minor-faults:u 1000 deadbeef 4f0 sym",
        "1234 000 1.000000000: cache-misses:u 1004 deadbeef 4f0 sym",
        "1234 000 2.500000000: major-faults:u 2000 deadbeef 4f0 sym",
    ]);
    let pd = parse_perf_data(&lines).unwrap();
    assert_eq!(pd.faults.len(), 3);
    for w in pd.faults.windows(2) {
        assert!(w[0].time_ns <= w[1].time_ns);
    }
}

#[test]
fn unmapped_address_is_dropped() {
    let lines = to_lines(&[
        MAP_LINE,
        "1234 000 1.000000000: minor-faults:u 1000 deadbeef 4f0 sym",
        "1234 000 1.001000000: minor-faults:u 9000 deadbeef 4f0 sym",
    ]);
    let pd = parse_perf_data(&lines).unwrap();
    assert_eq!(pd.faults.len(), 1);
    assert_eq!(pd.faults[0].offset, 0);
}

#[test]
fn kernel_context_and_zero_address_lines_are_skipped() {
    let lines = to_lines(&[
        "0 000 0.100000000: minor-faults:u 1000 deadbeef 4f0 sym",
        MAP_LINE,
        "1234 000 1.000000000: minor-faults:u 0 deadbeef 4f0 sym",
        "1234 000 1.001000000: minor-faults:u 1000 deadbeef 4f0 sym",
    ]);
    let pd = parse_perf_data(&lines).unwrap();
    assert_eq!(pd.faults.len(), 1);
}

#[test]
fn object_without_events_is_removed() {
    let lines = to_lines(&[
        MAP_LINE,
        "1234 000 0.950000000: PERF_RECORD_MMAP2 1234/1234: [8000(1000) x 0 x x x x b.so",
        "1234 000 1.000000000: minor-faults:u 8000 deadbeef 4f0 sym",
    ]);
    let pd = parse_perf_data(&lines).unwrap();
    // "a.so" got no events, so its slot is a tombstone; "b.so" survives.
    assert_eq!(pd.objects.num_slots(), 2);
    assert_eq!(pd.objects.num_elements(), 1);
    assert!(pd.objects.get(0).is_none());
    let b = *pd.objects.get(1).unwrap();
    assert_eq!(b.idx, 1);
    assert_eq!(b.faults, 1);
    assert_eq!(pd.object_name(1), b"b.so".to_vec());
    assert_eq!(pd.object_name(0), b"<unknown>".to_vec());
}

#[test]
fn negative_pid_map_is_skipped_and_kernel_map_filtered() {
    let lines = to_lines(&[
        "1234 000 0.900000000: PERF_RECORD_MMAP2 -1/-1: [1000(2000) x 0 x x x x k.so",
        "1234 000 0.900000000: PERF_RECORD_MMAP2 0/0: [1000(2000) x 0 x x x x z.so",
        "1234 000 1.000000000: minor-faults:u 1000 deadbeef 4f0 sym",
    ]);
    let pd = parse_perf_data(&lines).unwrap();
    assert_eq!(pd.objects.num_slots(), 0);
    assert_eq!(pd.faults.len(), 0);
}

#[test]
fn malformed_line_aborts_with_first_bad_index() {
    let lines = to_lines(&[
        MAP_LINE,
        "1234 000 1.000000000: minor-faults:u 1000 deadbeef 4f0 sym",
        "1234 000 not-a-time minor-faults:u 1000 deadbeef 4f0 sym",
        "oops",
    ]);
    let err = parse_perf_data(&lines).unwrap_err();
    assert_eq!(err, ParseError { line: 2 });
}

#[test]
fn short_sample_line_is_an_error() {
    let lines = to_lines(&["1234 000 1.000000000: minor-faults:u 1000 deadbeef"]);
    assert!(parse_perf_data(&lines).is_err());
}

#[test]
fn seven_field_sample_uses_fifth_field_as_ip() {
    let lines = to_lines(&[
        MAP_LINE,
        "1234 000 1.000000000: minor-faults:u 1000 4f0 extra",
    ]);
    let pd = parse_perf_data(&lines).unwrap();
    assert_eq!(pd.faults.len(), 1);
    assert_eq!(pd.faults[0].ip, 0x4f0);
}

#[test]
fn interner_deduplicates_strings() {
    let lines = to_lines(&[
        MAP_LINE,
        "1234 000 1.000000000: minor-faults:u 1000 deadbeef 4f0 sym",
        "1234 000 1.001000000: minor-faults:u 1800 deadbeef 4f0 sym",
    ]);
    let (strings, _maps, samples) = scan_lines(&lines).unwrap();
    assert_eq!(samples.len(), 2);
    assert_eq!(samples[0].name, samples[1].name);
    assert_eq!(samples[0].addr_sym, samples[1].addr_sym);
    let resolved = strings.resolve(samples[0].addr_sym).unwrap();
    // a numeric address-symbol field is a missing-symbol placeholder
    assert_eq!(resolved.clone(), b"[unknown]".to_vec());
}

#[test]
fn event_kind_classification_and_codes() {
    assert!(EventKind::CacheMiss.is_miss());
    assert!(EventKind::Unknown.is_miss());
    assert!(EventKind::MajorFault.is_fault());
    assert!(EventKind::MinorFault.is_fault());
    for code in 0u32..=3 {
        assert_eq!(EventKind::from_code(code).code(), code);
    }
    assert_eq!(EventKind::from_code(77), EventKind::Unknown);
    assert_eq!(EventKind::MajorFault.label(), "major-fault");
}

#[test]
fn unknown_event_name_counts_as_miss() {
    let lines = to_lines(&[
        MAP_LINE,
        "1234 000 1.000000000: branch-misses:u 1000 deadbeef 4f0 sym",
        "1234 000 1.001000000: cache-misses:u 1010 deadbeef 4f0 sym",
    ]);
    let pd = parse_perf_data(&lines).unwrap();
    assert_eq!(pd.faults[0].kind, EventKind::Unknown);
    assert!(pd.faults[0].kind.is_miss());
    assert_eq!(pd.faults[1].kind, EventKind::CacheMiss);
}

#[test]
fn timestamp_nanos_saturates() {
    let t = Timestamp { sec: 1, nsec: 5 };
    assert_eq!(t.to_nanos(), 1_000_000_005);
    let big = Timestamp { sec: u64::MAX, nsec: 0 };
    assert_eq!(big.to_nanos(), u64::MAX);
}

#[test]
fn page_rounding() {
    assert_eq!(pfviz::perf::round_up_page(0), 0);
    assert_eq!(pfviz::perf::round_up_page(1), PAGE_SIZE);
    assert_eq!(pfviz::perf::round_up_page(PAGE_SIZE), PAGE_SIZE);
    assert_eq!(pfviz::perf::round_up_page(0x1fff), 0x2000);
    assert_eq!(pfviz::perf::page_mask(0x2fff), 0x2000);
    assert_eq!(pfviz::perf::page_mask(0xfff), 0);
}

#[test]
fn second_map_resolves_with_its_own_offset() {
    let lines = to_lines(&[
        MAP_LINE,
        "1234 000 0.950000000: PERF_RECORD_MMAP2 1234/1234: [8000(1000) x 500000 x x x x b.so",
        "1234 000 1.000000000: minor-faults:u 8123 deadbeef 4f0 sym",
    ]);
    let pd = parse_perf_data(&lines).unwrap();
    assert_eq!(pd.faults.len(), 1);
    assert_eq!(pd.faults[0].obj_idx, 1);
    assert_eq!(pd.faults[0].offset, 0x500000 + 0x123);
}

#[test]
fn repeated_map_of_the_same_file_keeps_one_object() {
    let lines = to_lines(&[
        MAP_LINE,
        "1234 000 0.950000000: PERF_RECORD_MMAP2 1234/1234: [8000(1000) x 2000 x x x x a.so",
        "1234 000 1.000000000: minor-faults:u 1000 deadbeef 4f0 sym",
        "1234 000 1.001000000: minor-faults:u 8000 deadbeef 4f0 sym",
    ]);
    let pd = parse_perf_data(&lines).unwrap();
    assert_eq!(pd.objects.num_slots(), 1);
    assert_eq!(pd.faults[0].obj_idx, 0);
    assert_eq!(pd.faults[1].obj_idx, 0);
    assert_eq!(pd.faults[1].offset, 0x2000);
    assert_eq!(pd.objects.get(0).unwrap().faults, 2);
}
