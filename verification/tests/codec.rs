use pfviz::kind::EventKind;
use pfviz::parse::parse_perf_data;
use pfviz::perf::Event;
use pfviz::records::{encode_events, Records, RecordsError, RECORD_MAGIC};
use pfviz::sidetable::{
    encode_side_table, parse_side_table, FaultData, SideTableError,
};

fn to_lines(ss: &[&str]) -> Vec<Vec<u8>> {
    ss.iter().map(|s| s.as_bytes().to_vec()).collect()
}

const MAP_LINE: &str = "1234 000 0.900000000: PERF_RECORD_MMAP2 1234/1234: [1000(2000) x 0 x x x x a.so";

fn sample_events() -> Vec<Event> {
    vec![
        Event {
            obj_idx: 0,
            offset: 0,
            was_write: false,
            time_ns: 1_000_000_000,
            kind: EventKind::MinorFault,
            event_name: 1,
            addr: 0x1000,
            ip: 0x4f0,
            tid: 1234,
        },
        Event {
            obj_idx: 0,
            offset: 0x800,
            was_write: false,
            time_ns: 1_001_000_000,
            kind: EventKind::CacheMiss,
            event_name: 2,
            addr: 0x1800,
            ip: 0x4f4,
            tid: 1234,
        },
    ]
}

#[test]
fn record_stream_round_trip() {
    let events = sample_events();
    let bytes = encode_events(&events);
    assert_eq!(bytes.len(), 64 + 64 * events.len());
    let recs = Records::from_bytes(&bytes).unwrap();
    assert!(recs.header().is_valid());
    assert_eq!(recs.header().record_count(), events.len());
    let slice = recs.slice();
    assert_eq!(slice.len(), events.len());
    for (ev, rec) in events.iter().zip(slice.iter()) {
        assert_eq!(rec.addr, ev.addr);
        assert_eq!(rec.ip, ev.ip);
        assert_eq!(rec.offset, ev.offset);
        assert_eq!(rec.time_ns, ev.time_ns);
        assert_eq!(rec.kind(), ev.kind);
        assert_eq!(rec.event_name as usize, ev.event_name);
        assert_eq!(rec.obj_id(), ev.obj_idx);
        assert_eq!(rec.tid, ev.tid);
        assert_eq!(rec.cpu, 0);
        assert_eq!(rec.flags, 0);
    }
    assert_eq!(slice[0].time(), 1_000_000_000);
    assert_eq!(slice[1].offset(), 0x800);
}

#[test]
fn record_file_header_is_validated() {
    assert_eq!(
        Records::from_bytes(&vec![0u8; 10]).unwrap_err(),
        RecordsError::TooShort
    );
    let mut bad = vec![0u8; 64];
    bad[0] = 1;
    assert_eq!(Records::from_bytes(&bad).unwrap_err(), RecordsError::BadMagic);
    // valid magic but a count pointing past the end of the file
    let mut truncated = Vec::new();
    truncated.extend_from_slice(&RECORD_MAGIC.to_le_bytes());
    truncated.extend_from_slice(&5u64.to_le_bytes());
    truncated.extend_from_slice(&[0u8; 48]);
    assert_eq!(
        Records::from_bytes(&truncated).unwrap_err(),
        RecordsError::Truncated
    );
}

#[test]
fn empty_record_stream_round_trip() {
    let bytes = encode_events(&Vec::new());
    let recs = Records::from_bytes(&bytes).unwrap();
    assert_eq!(recs.slice().len(), 0);
}

#[test]
fn side_table_round_trip() {
    let lines = to_lines(&[
        MAP_LINE,
        "1234 000 1.000000000: minor-faults:u 1000 deadbeef 4f0 sym",
        "1234 000 1.001000000: minor-faults:u 1800 deadbeef 4f0 sym",
    ]);
    let pd = parse_perf_data(&lines).unwrap();
    let doc = encode_side_table(&pd.objects, &pd.strings);
    let root = parse_side_table(&doc).unwrap();
    assert_eq!(root.objects.len(), pd.objects.num_slots());
    let orig = *pd.objects.get(0).unwrap();
    let back = root.object(0).unwrap();
    assert_eq!(*back, orig);
    assert_eq!(root.strings.len(), pd.strings.len());
    assert_eq!(root.strings[0], b"a.so".to_vec());
}

#[test]
fn side_table_escapes_awkward_strings() {
    let lines = to_lines(&[
        "1234 000 0.900000000: PERF_RECORD_MMAP2 1234/1234: [1000(2000) x 0 x x x x a\"b\\c.so",
        "1234 000 1.000000000: minor-faults:u 1000 deadbeef 4f0 sym",
    ]);
    let pd = parse_perf_data(&lines).unwrap();
    let doc = encode_side_table(&pd.objects, &pd.strings);
    let root = parse_side_table(&doc).unwrap();
    assert_eq!(root.strings[0], b"a\"b\\c.so".to_vec());
}

#[test]
fn side_table_rejects_garbage_and_non_canonical_forms() {
    assert_eq!(
        parse_side_table(&b"nonsense".to_vec()).unwrap_err(),
        SideTableError::Malformed
    );
    assert_eq!(
        parse_side_table(&b"{\"objects\":{}, \"strings\":[]}".to_vec()).unwrap_err(),
        SideTableError::Malformed
    );
    // parses, but is not the canonical serialization of its own content
    assert_eq!(
        parse_side_table(&b"{\"objects\":{},\"strings\":[\"\\u0041\"]}".to_vec()).unwrap_err(),
        SideTableError::NotCanonical
    );
    // canonical empty document
    let empty = parse_side_table(&b"{\"objects\":{},\"strings\":[]}".to_vec()).unwrap();
    assert_eq!(empty.objects.len(), 0);
    assert_eq!(empty.strings.len(), 0);
}

#[test]
fn full_session_round_trip() {
    let lines = to_lines(&[
        MAP_LINE,
        "1234 000 1.000000000: minor-faults:u 1000 deadbeef 4f0 sym",
        "1234 000 1.001000000: cache-misses:u 1800 deadbeef 4f0 sym",
        "1234 000 1.002000000: major-faults:u 2fff deadbeef 4f0 sym",
    ]);
    let pd = parse_perf_data(&lines).unwrap();
    let data = encode_events(&pd.faults);
    let json = encode_side_table(&pd.objects, &pd.strings);
    let fd = FaultData::open(&data, &json).unwrap();
    assert_eq!(fd.records.slice().len(), pd.faults.len());
    for (ev, rec) in pd.faults.iter().zip(fd.records.slice().iter()) {
        assert_eq!(rec.offset, ev.offset);
        assert_eq!(rec.time_ns, ev.time_ns);
        assert_eq!(rec.kind(), ev.kind);
        assert_eq!(fd.object_name(rec), b"a.so".to_vec());
        assert_eq!(fd.object(rec).unwrap().faults, 3);
    }
}

#[test]
fn missing_object_resolves_to_fallback_label() {
    let events = sample_events();
    let data = encode_events(&events);
    let json = b"{\"objects\":{},\"strings\":[]}".to_vec();
    let fd = FaultData::open(&data, &json).unwrap();
    let rec = fd.records.slice()[0];
    assert!(fd.object(&rec).is_none());
    assert_eq!(fd.object_name(&rec), b"[unknown]".to_vec());
}

#[test]
fn side_table_round_trip_drops_trailing_tombstones() {
    // object "a.so" at slot 0 gets no events and is removed by
    // finalization; its tombstone is the table's last slot, so the reloaded
    // table is shorter but resolves the same objects
    let lines = to_lines(&[
        "1234 000 0.900000000: PERF_RECORD_MMAP2 1234/1234: [8000(1000) x 0 x x x x b.so",
        MAP_LINE,
        "1234 000 1.000000000: minor-faults:u 8000 deadbeef 4f0 sym",
    ]);
    let pd = parse_perf_data(&lines).unwrap();
    assert_eq!(pd.objects.num_slots(), 2);
    assert!(pd.objects.get(1).is_none());
    let doc = encode_side_table(&pd.objects, &pd.strings);
    let root = parse_side_table(&doc).unwrap();
    assert_eq!(root.objects.len(), 1);
    assert_eq!(*root.object(0).unwrap(), *pd.objects.get(0).unwrap());
    assert!(root.object(1).is_none());
}

#[test]
fn side_table_rejects_out_of_order_keys() {
    let doc = "{\"objects\":{\"1\":{\"file\":0,\"idx\":1,\"maps\":0,\"faults\":1,\"biggest_offset\":4096,\"smallest_offset\":0,\"show\":true},\"0\":{\"file\":0,\"idx\":0,\"maps\":0,\"faults\":1,\"biggest_offset\":4096,\"smallest_offset\":0,\"show\":true}},\"strings\":[\"a.so\"]}";
    assert!(parse_side_table(&doc.as_bytes().to_vec()).is_err());
}
