//! The fixed-layout binary record format: a 64-byte header (magic and
//! record count) followed by one 64-byte little-endian record per event.
//! Decoding validates the header and bounds once, then exposes the records
//! as an indexable, read-only vector.

use vstd::prelude::*;
use vstd::bytes::{
    spec_u64_to_le_bytes, spec_u64_from_le_bytes, spec_u32_to_le_bytes, spec_u32_from_le_bytes,
    u64_to_le_bytes, u64_from_le_bytes, u32_to_le_bytes, u32_from_le_bytes,
    lemma_auto_spec_u64_to_from_le_bytes, lemma_auto_spec_u32_to_from_le_bytes,
};
use vstd::slice::slice_subrange;
use crate::textutil::append_all;
use crate::kind::EventKind;
use crate::perf::Event;

verus! {

/// The header's magic number.
pub const RECORD_MAGIC: u64 = 0xAAAA1111CAFED00D;

/// Byte size of the header and of each record.
pub const RECORD_SIZE: usize = 64;

/// One persisted event record, as laid out on disk (reserved and zero
/// fields included).
#[derive(Debug, Clone, Copy, PartialEq, Eq, Structural)]
pub struct EventRecord {
    /// Sampled virtual address.
    pub addr: u64,
    /// Instruction pointer.
    pub ip: u64,
    /// Resolved in-object offset.
    pub offset: u64,
    /// Event time in nanoseconds.
    pub time_ns: u64,
    /// Reserved; zero when written by this library.
    pub resv: u64,
    /// Numeric encoding of the event kind.
    pub kind: u32,
    /// Flags; zero when written by this library.
    pub flags: u32,
    /// Interner handle of the event-name string (truncated to 32 bits).
    pub event_name: u32,
    /// Stable index of the owning object (truncated to 32 bits).
    pub obj_id: u32,
    /// Thread id.
    pub tid: u32,
    /// CPU; zero-filled (not recovered from the trace text).
    pub cpu: u32,
}

impl EventRecord {
    /// The record's time in nanoseconds.
    pub fn time(&self) -> (r: u64)
        ensures
            r == self.time_ns,
    {
        self.time_ns
    }

    /// The record's resolved in-object offset.
    pub fn offset(&self) -> (r: u64)
        ensures
            r == self.offset,
    {
        self.offset
    }

    /// The record's decoded event kind.
    pub fn kind(&self) -> (r: EventKind)
        ensures
            r == EventKind::spec_from_code(self.kind),
    {
        EventKind::from_code(self.kind)
    }

    /// The stable index of the owning object.
    pub fn obj_id(&self) -> (r: usize)
        ensures
            r == self.obj_id as usize,
    {
        self.obj_id as usize
    }
}

/// The record a resolved event persists as: its fields, with the name
/// handle and the object index truncated to 32 bits, and the reserved, flag
/// and CPU fields zero.
pub open spec fn spec_record_of_event(ev: Event) -> EventRecord {
    EventRecord {
        addr: ev.addr,
        ip: ev.ip,
        offset: ev.offset,
        time_ns: ev.time_ns,
        resv: 0,
        kind: ev.kind.spec_code(),
        flags: 0,
        event_name: ev.event_name as u32,
        obj_id: ev.obj_idx as u32,
        tid: ev.tid,
        cpu: 0,
    }
}

/// Convert a resolved event to its persisted record.
pub fn record_of_event(ev: &Event) -> (r: EventRecord)
    ensures
        r == spec_record_of_event(*ev),
{
    EventRecord {
        addr: ev.addr,
        ip: ev.ip,
        offset: ev.offset,
        time_ns: ev.time_ns,
        resv: 0,
        kind: ev.kind.code(),
        flags: 0,
        event_name: #[verifier::truncate] (ev.event_name as u32),
        obj_id: #[verifier::truncate] (ev.obj_idx as u32),
        tid: ev.tid,
        cpu: 0,
    }
}

/// The on-disk bytes of one record: five `u64` fields then six `u32`
/// fields, little-endian, 64 bytes in all.
pub open spec fn spec_record_bytes(r: EventRecord) -> Seq<u8> {
    spec_u64_to_le_bytes(r.addr) + spec_u64_to_le_bytes(r.ip) + spec_u64_to_le_bytes(r.offset)
        + spec_u64_to_le_bytes(r.time_ns) + spec_u64_to_le_bytes(r.resv) + spec_u32_to_le_bytes(
        r.kind,
    ) + spec_u32_to_le_bytes(r.flags) + spec_u32_to_le_bytes(r.event_name) + spec_u32_to_le_bytes(
        r.obj_id,
    ) + spec_u32_to_le_bytes(r.tid) + spec_u32_to_le_bytes(r.cpu)
}

/// The on-disk bytes of the header: the magic, the record count, and six
/// reserved zero words.
pub open spec fn spec_header_bytes(count: u64) -> Seq<u8> {
    spec_u64_to_le_bytes(RECORD_MAGIC) + spec_u64_to_le_bytes(count) + Seq::new(48nat, |i: int| 0u8)
}

/// The on-disk bytes of a record list, in order.
pub open spec fn spec_records_bytes(rs: Seq<EventRecord>) -> Seq<u8>
    decreases rs.len(),
{
    if rs.len() == 0 {
        Seq::empty()
    } else {
        spec_records_bytes(rs.drop_last()) + spec_record_bytes(rs.last())
    }
}

/// The whole file a parsed event list persists as.
pub open spec fn spec_encode_events(evs: Seq<Event>) -> Seq<u8> {
    spec_header_bytes(evs.len() as u64) + spec_records_bytes(
        evs.map_values(|e: Event| spec_record_of_event(e)),
    )
}

/// Append one record's 64 bytes to `out`.
fn append_record_bytes(out: &mut Vec<u8>, r: &EventRecord)
    ensures
        final(out)@ == old(out)@ + spec_record_bytes(*r),
{
    let b0 = u64_to_le_bytes(r.addr);
    append_all(out, &b0);
    let b1 = u64_to_le_bytes(r.ip);
    append_all(out, &b1);
    let b2 = u64_to_le_bytes(r.offset);
    append_all(out, &b2);
    let b3 = u64_to_le_bytes(r.time_ns);
    append_all(out, &b3);
    let b4 = u64_to_le_bytes(r.resv);
    append_all(out, &b4);
    let b5 = u32_to_le_bytes(r.kind);
    append_all(out, &b5);
    let b6 = u32_to_le_bytes(r.flags);
    append_all(out, &b6);
    let b7 = u32_to_le_bytes(r.event_name);
    append_all(out, &b7);
    let b8 = u32_to_le_bytes(r.obj_id);
    append_all(out, &b8);
    let b9 = u32_to_le_bytes(r.tid);
    append_all(out, &b9);
    let b10 = u32_to_le_bytes(r.cpu);
    append_all(out, &b10);
    proof {
        assert(final(out)@ =~= old(out)@ + spec_record_bytes(*r));
    }
}

/// Serialize an event list into the binary record format: the header, then
/// one fixed-size record per event, in event order.
pub fn encode_events(events: &Vec<Event>) -> (r: Vec<u8>)
    requires
        events@.len() <= u64::MAX,
    ensures
        r@ == spec_encode_events(events@),
{
    let ghost recs = events@.map_values(|e: Event| spec_record_of_event(e));
    let mut out: Vec<u8> = Vec::new();
    let b0 = u64_to_le_bytes(RECORD_MAGIC);
    append_all(&mut out, &b0);
    let b1 = u64_to_le_bytes(events.len() as u64);
    append_all(&mut out, &b1);
    let mut z: usize = 0;
    while z < 48
        invariant
            0 <= z <= 48,
            out@ == spec_u64_to_le_bytes(RECORD_MAGIC) + spec_u64_to_le_bytes(
                events@.len() as u64,
            ) + Seq::new(z as nat, |i: int| 0u8),
        decreases 48 - z,
    {
        out.push(0);
        proof {
            assert(Seq::new(z as nat + 1, |i: int| 0u8) =~= Seq::new(z as nat, |i: int| 0u8).push(
                0u8,
            ));
            assert(out@ =~= spec_u64_to_le_bytes(RECORD_MAGIC) + spec_u64_to_le_bytes(
                events@.len() as u64,
            ) + Seq::new(z as nat + 1, |i: int| 0u8));
        }
        z = z + 1;
    }
    proof {
        assert(out@ =~= spec_header_bytes(events@.len() as u64));
        assert(recs.take(0) =~= Seq::<EventRecord>::empty());
        assert(out@ + spec_records_bytes(recs.take(0)) =~= out@);
    }
    let ghost header = out@;
    let mut i: usize = 0;
    while i < events.len()
        invariant
            0 <= i <= events@.len(),
            recs == events@.map_values(|e: Event| spec_record_of_event(e)),
            out@ == header + spec_records_bytes(recs.take(i as int)),
            header == spec_header_bytes(events@.len() as u64),
        decreases events@.len() - i,
    {
        let rec = record_of_event(&events[i]);
        proof {
            assert(recs.take(i as int + 1).drop_last() =~= recs.take(i as int));
            assert(recs.take(i as int + 1).last() == recs[i as int]);
            assert(recs[i as int] == spec_record_of_event(events@[i as int]));
        }
        append_record_bytes(&mut out, &rec);
        i = i + 1;
    }
    proof {
        assert(recs.take(events@.len() as int) =~= recs);
    }
    out
}

/// The header with a magic number and a record count.
#[derive(Debug, Clone, Copy, PartialEq, Eq, Structural)]
pub struct RecordHeader {
    /// The magic number read from the file.
    pub magic: u64,
    /// Number of records that follow the header.
    pub count: u64,
}

impl RecordHeader {
    /// The number of records, as a vector index.
    pub fn record_count(&self) -> (r: usize)
        requires
            self.count <= usize::MAX,
        ensures
            r == self.count as usize,
    {
        self.count as usize
    }

    /// Whether the header carries the expected magic number.
    pub fn is_valid(&self) -> (r: bool)
        ensures
            r == (self.magic == RECORD_MAGIC),
    {
        self.magic == RECORD_MAGIC
    }
}

/// Why a record file failed to open.
#[derive(Debug, Clone, Copy, PartialEq, Eq, Structural)]
pub enum RecordsError {
    /// The file is shorter than a header.
    TooShort,
    /// The header's magic number is wrong.
    BadMagic,
    /// The header's record count points past the end of the file.
    Truncated,
}

/// Read the little-endian `u64` at byte offset `off`.
fn read_u64_at(bytes: &Vec<u8>, off: usize) -> (r: u64)
    requires
        off + 8 <= bytes@.len(),
    ensures
        r == spec_u64_from_le_bytes(bytes@.subrange(off as int, off as int + 8)),
{
    let blen = bytes.len();
    assert(off + 8 <= blen);
    let s = slice_subrange(bytes.as_slice(), off, off + 8);
    u64_from_le_bytes(s)
}

/// Read the little-endian `u32` at byte offset `off`.
fn read_u32_at(bytes: &Vec<u8>, off: usize) -> (r: u32)
    requires
        off + 4 <= bytes@.len(),
    ensures
        r == spec_u32_from_le_bytes(bytes@.subrange(off as int, off as int + 4)),
{
    let blen = bytes.len();
    assert(off + 4 <= blen);
    let s = slice_subrange(bytes.as_slice(), off, off + 4);
    u32_from_le_bytes(s)
}

/// The record decoded from the 64 bytes at record index `i`.
pub open spec fn spec_decode_record(bytes: Seq<u8>, i: int) -> EventRecord {
    let base = 64 + 64 * i;
    EventRecord {
        addr: spec_u64_from_le_bytes(bytes.subrange(base, base + 8)),
        ip: spec_u64_from_le_bytes(bytes.subrange(base + 8, base + 16)),
        offset: spec_u64_from_le_bytes(bytes.subrange(base + 16, base + 24)),
        time_ns: spec_u64_from_le_bytes(bytes.subrange(base + 24, base + 32)),
        resv: spec_u64_from_le_bytes(bytes.subrange(base + 32, base + 40)),
        kind: spec_u32_from_le_bytes(bytes.subrange(base + 40, base + 44)),
        flags: spec_u32_from_le_bytes(bytes.subrange(base + 44, base + 48)),
        event_name: spec_u32_from_le_bytes(bytes.subrange(base + 48, base + 52)),
        obj_id: spec_u32_from_le_bytes(bytes.subrange(base + 52, base + 56)),
        tid: spec_u32_from_le_bytes(bytes.subrange(base + 56, base + 60)),
        cpu: spec_u32_from_le_bytes(bytes.subrange(base + 60, base + 64)),
    }
}

/// The magic read from a file's first eight bytes.
pub open spec fn spec_decoded_magic(bytes: Seq<u8>) -> u64 {
    spec_u64_from_le_bytes(bytes.subrange(0, 8))
}

/// The record count read from a file's second eight bytes.
pub open spec fn spec_decoded_count(bytes: Seq<u8>) -> u64 {
    spec_u64_from_le_bytes(bytes.subrange(8, 16))
}

/// The decoded record file: its validated header and its records.
#[derive(Debug)]
pub struct Records {
    header: RecordHeader,
    recs: Vec<EventRecord>,
}

impl Records {
    /// The validated header.
    pub fn header(&self) -> (r: &RecordHeader)
        ensures
            r == self.spec_header(),
    {
        &self.header
    }

    /// The validated header.
    pub closed spec fn spec_header(&self) -> RecordHeader {
        self.header
    }

    /// The decoded records, in file order.
    pub closed spec fn records(&self) -> Seq<EventRecord> {
        self.recs@
    }

    /// The record area, as a read-only vector of exactly
    /// `header.record_count()` records.
    pub fn slice(&self) -> (r: &Vec<EventRecord>)
        ensures
            r@ == self.records(),
    {
        &self.recs
    }

    /// Decode a record file: validate the magic and the bounds once, then
    /// decode exactly `count` records following the header.
    ///
    /// Fails exactly on a file shorter than a header, a wrong magic, or a
    /// count pointing past the end of the file; trailing bytes beyond the
    /// record area are ignored.
    pub fn from_bytes(bytes: &Vec<u8>) -> (r: Result<Records, RecordsError>)
        ensures
            bytes@.len() < 64 ==> r == Err::<Records, RecordsError>(RecordsError::TooShort),
            bytes@.len() >= 64 && spec_decoded_magic(bytes@) != RECORD_MAGIC ==> r == Err::<
                Records,
                RecordsError,
            >(RecordsError::BadMagic),
            bytes@.len() >= 64 && spec_decoded_magic(bytes@) == RECORD_MAGIC && spec_decoded_count(
                bytes@,
            ) > (bytes@.len() - 64) / 64 ==> r == Err::<Records, RecordsError>(
                RecordsError::Truncated,
            ),
            bytes@.len() >= 64 && spec_decoded_magic(bytes@) == RECORD_MAGIC && spec_decoded_count(
                bytes@,
            ) <= (bytes@.len() - 64) / 64 ==> (r matches Ok(rs) && {
                &&& rs.spec_header() == (RecordHeader {
                    magic: RECORD_MAGIC,
                    count: spec_decoded_count(bytes@),
                })
                &&& rs.records().len() == spec_decoded_count(bytes@)
                &&& forall|i: int|
                    0 <= i < rs.records().len() ==> (#[trigger] rs.records()[i])
                        == spec_decode_record(bytes@, i)
            }),
    {
        if bytes.len() < 64 {
            return Err(RecordsError::TooShort);
        }
        let magic = read_u64_at(bytes, 0);
        if magic != RECORD_MAGIC {
            return Err(RecordsError::BadMagic);
        }
        let count = read_u64_at(bytes, 8);
        let avail = ((bytes.len() - 64) / 64) as u64;
        if count > avail {
            return Err(RecordsError::Truncated);
        }
        let n = count as usize;
        proof {
            assert(64 + 64 * (n as int) <= bytes@.len()) by (nonlinear_arith)
                requires
                    n <= (bytes@.len() - 64) / 64,
                    bytes@.len() >= 64,
            ;
        }
        let blen = bytes.len();
        let mut recs: Vec<EventRecord> = Vec::new();
        let mut i: usize = 0;
        while i < n
            invariant
                0 <= i <= n,
                64 + 64 * (n as int) <= blen <= bytes@.len(),
                recs@.len() == i,
                forall|j: int| 0 <= j < i ==> (#[trigger] recs@[j]) == spec_decode_record(bytes@, j),
            decreases n - i,
        {
            proof {
                assert(64 + 64 * (i as int) + 64 <= 64 + 64 * (n as int)) by (nonlinear_arith)
                    requires
                        i < n,
                ;
            }
            assert(64 + 64 * (i as int) + 64 <= blen);
            let base = 64 + 64 * i;
            let rec = EventRecord {
                addr: read_u64_at(bytes, base),
                ip: read_u64_at(bytes, base + 8),
                offset: read_u64_at(bytes, base + 16),
                time_ns: read_u64_at(bytes, base + 24),
                resv: read_u64_at(bytes, base + 32),
                kind: read_u32_at(bytes, base + 40),
                flags: read_u32_at(bytes, base + 44),
                event_name: read_u32_at(bytes, base + 48),
                obj_id: read_u32_at(bytes, base + 52),
                tid: read_u32_at(bytes, base + 56),
                cpu: read_u32_at(bytes, base + 60),
            };
            recs.push(rec);
            i = i + 1;
        }
        Ok(Records { header: RecordHeader { magic, count }, recs })
    }
}

/// One record encodes to exactly 64 bytes.
proof fn lemma_record_bytes_len(r: EventRecord)
    ensures
        spec_record_bytes(r).len() == 64,
{
    lemma_auto_spec_u64_to_from_le_bytes();
    lemma_auto_spec_u32_to_from_le_bytes();
}

/// A record list encodes to 64 bytes per record.
proof fn lemma_records_bytes_len(rs: Seq<EventRecord>)
    ensures
        spec_records_bytes(rs).len() == 64 * rs.len(),
    decreases rs.len(),
{
    if rs.len() > 0 {
        lemma_records_bytes_len(rs.drop_last());
        lemma_record_bytes_len(rs.last());
    }
}

/// The 64 bytes at record index `i` of an encoded list are that record's
/// bytes.
proof fn lemma_records_bytes_index(rs: Seq<EventRecord>, i: int)
    requires
        0 <= i < rs.len(),
    ensures
        spec_records_bytes(rs).subrange(64 * i, 64 * i + 64) == spec_record_bytes(rs[i]),
    decreases rs.len(),
{
    lemma_records_bytes_len(rs);
    lemma_records_bytes_len(rs.drop_last());
    lemma_record_bytes_len(rs.last());
    if i == rs.len() - 1 {
        assert(spec_records_bytes(rs).subrange(64 * i, 64 * i + 64) =~= spec_record_bytes(
            rs.last(),
        ));
    } else {
        lemma_records_bytes_index(rs.drop_last(), i);
        assert(spec_records_bytes(rs).subrange(64 * i, 64 * i + 64) =~= spec_records_bytes(
            rs.drop_last(),
        ).subrange(64 * i, 64 * i + 64));
    }
}

/// The field pieces of one record's bytes.
proof fn lemma_record_bytes_split(r: EventRecord)
    ensures
        spec_record_bytes(r).len() == 64,
        spec_record_bytes(r).subrange(0, 8) == spec_u64_to_le_bytes(r.addr),
        spec_record_bytes(r).subrange(8, 16) == spec_u64_to_le_bytes(r.ip),
        spec_record_bytes(r).subrange(16, 24) == spec_u64_to_le_bytes(r.offset),
        spec_record_bytes(r).subrange(24, 32) == spec_u64_to_le_bytes(r.time_ns),
        spec_record_bytes(r).subrange(32, 40) == spec_u64_to_le_bytes(r.resv),
        spec_record_bytes(r).subrange(40, 44) == spec_u32_to_le_bytes(r.kind),
        spec_record_bytes(r).subrange(44, 48) == spec_u32_to_le_bytes(r.flags),
        spec_record_bytes(r).subrange(48, 52) == spec_u32_to_le_bytes(r.event_name),
        spec_record_bytes(r).subrange(52, 56) == spec_u32_to_le_bytes(r.obj_id),
        spec_record_bytes(r).subrange(56, 60) == spec_u32_to_le_bytes(r.tid),
        spec_record_bytes(r).subrange(60, 64) == spec_u32_to_le_bytes(r.cpu),
{
    lemma_auto_spec_u64_to_from_le_bytes();
    lemma_auto_spec_u32_to_from_le_bytes();
    assert(spec_record_bytes(r).subrange(0, 8) =~= spec_u64_to_le_bytes(r.addr));
    assert(spec_record_bytes(r).subrange(8, 16) =~= spec_u64_to_le_bytes(r.ip));
    assert(spec_record_bytes(r).subrange(16, 24) =~= spec_u64_to_le_bytes(r.offset));
    assert(spec_record_bytes(r).subrange(24, 32) =~= spec_u64_to_le_bytes(r.time_ns));
    assert(spec_record_bytes(r).subrange(32, 40) =~= spec_u64_to_le_bytes(r.resv));
    assert(spec_record_bytes(r).subrange(40, 44) =~= spec_u32_to_le_bytes(r.kind));
    assert(spec_record_bytes(r).subrange(44, 48) =~= spec_u32_to_le_bytes(r.flags));
    assert(spec_record_bytes(r).subrange(48, 52) =~= spec_u32_to_le_bytes(r.event_name));
    assert(spec_record_bytes(r).subrange(52, 56) =~= spec_u32_to_le_bytes(r.obj_id));
    assert(spec_record_bytes(r).subrange(56, 60) =~= spec_u32_to_le_bytes(r.tid));
    assert(spec_record_bytes(r).subrange(60, 64) =~= spec_u32_to_le_bytes(r.cpu));
}

/// Round trip of the binary record format: decoding an encoded event list
/// succeeds, recovers the record count, and recovers every record
/// field-for-field.
pub proof fn lemma_encode_decode_events(evs: Seq<Event>)
    requires
        evs.len() <= u64::MAX,
    ensures
        ({
            let bytes = spec_encode_events(evs);
            &&& bytes.len() == 64 + 64 * evs.len()
            &&& spec_decoded_magic(bytes) == RECORD_MAGIC
            &&& spec_decoded_count(bytes) == evs.len() as u64
            &&& evs.len() <= (bytes.len() - 64) / 64
            &&& forall|i: int|
                0 <= i < evs.len() ==> #[trigger] spec_decode_record(bytes, i)
                    == spec_record_of_event(evs[i])
        }),
{
    lemma_auto_spec_u64_to_from_le_bytes();
    lemma_auto_spec_u32_to_from_le_bytes();
    let recs = evs.map_values(|e: Event| spec_record_of_event(e));
    let header = spec_header_bytes(evs.len() as u64);
    let body = spec_records_bytes(recs);
    let bytes = spec_encode_events(evs);
    lemma_records_bytes_len(recs);
    assert(header.len() == 64);
    assert(bytes.len() == 64 + 64 * evs.len());
    assert(bytes.subrange(0, 8) =~= spec_u64_to_le_bytes(RECORD_MAGIC));
    assert(bytes.subrange(8, 16) =~= spec_u64_to_le_bytes(evs.len() as u64));
    assert((64 * evs.len()) / 64 == evs.len()) by (nonlinear_arith);
    assert forall|i: int| 0 <= i < evs.len() implies #[trigger] spec_decode_record(bytes, i)
        == spec_record_of_event(evs[i]) by {
        lemma_records_bytes_index(recs, i);
        lemma_record_bytes_split(recs[i]);
        let base = 64 + 64 * i;
        assert(bytes.subrange(base, base + 8) =~= body.subrange(64 * i, 64 * i + 64).subrange(
            0,
            8,
        ));
        assert(bytes.subrange(base + 8, base + 16) =~= body.subrange(64 * i, 64 * i + 64).subrange(
            8,
            16,
        ));
        assert(bytes.subrange(base + 16, base + 24) =~= body.subrange(64 * i, 64 * i + 64).subrange(
            16,
            24,
        ));
        assert(bytes.subrange(base + 24, base + 32) =~= body.subrange(64 * i, 64 * i + 64).subrange(
            24,
            32,
        ));
        assert(bytes.subrange(base + 32, base + 40) =~= body.subrange(64 * i, 64 * i + 64).subrange(
            32,
            40,
        ));
        assert(bytes.subrange(base + 40, base + 44) =~= body.subrange(64 * i, 64 * i + 64).subrange(
            40,
            44,
        ));
        assert(bytes.subrange(base + 44, base + 48) =~= body.subrange(64 * i, 64 * i + 64).subrange(
            44,
            48,
        ));
        assert(bytes.subrange(base + 48, base + 52) =~= body.subrange(64 * i, 64 * i + 64).subrange(
            48,
            52,
        ));
        assert(bytes.subrange(base + 52, base + 56) =~= body.subrange(64 * i, 64 * i + 64).subrange(
            52,
            56,
        ));
        assert(bytes.subrange(base + 56, base + 60) =~= body.subrange(64 * i, 64 * i + 64).subrange(
            56,
            60,
        ));
        assert(bytes.subrange(base + 60, base + 64) =~= body.subrange(64 * i, 64 * i + 64).subrange(
            60,
            64,
        ));
        assert(recs[i] == spec_record_of_event(evs[i]));
    }
}

} // verus!
