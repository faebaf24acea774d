//! The trace line parser: splits trace text into memory-map records and raw
//! samples, interning every string encountered.
//!
//! Failure policy: a malformed required field (bad integer, missing field,
//! bad bracket or offset syntax) marks the line `Bad`, and a `Bad` line
//! aborts the whole parse with an error naming the first such line. Lines
//! are skipped (not errors) when they carry thread id `0`, a negative or
//! zero owning pid on a map record, or a zero sample address.

use vstd::prelude::*;
use crate::perf::{Timestamp, MMap, PerfEvent, Event};
use crate::kind::EventKind;
use crate::interner::{Interner, spec_intern, lemma_spec_find};
use crate::table::{Object, ObjectTable, spec_new_object, spec_find_file, lemma_spec_find_file,
    spec_record_fault, spec_finalize, lemma_finalized_objects};
use crate::perf::PAGE_SIZE;
use crate::resolver::{AddrMap, RangeVal, empty_entries, spec_map_end, spec_resolve};
use crate::textutil::{
    all_digits, dec_val, valid_u64_dec, valid_u64_hex, hex_val, spec_tokens, parse_u64_dec,
    parse_u64_hex, split_ws, subvec, bytes_eq, has_prefix,
};

verus! {

/// First index of byte `b` in `s` at or after `from`, or `-1`.
pub open spec fn find_byte(s: Seq<u8>, b: u8, from: int) -> int
    decreases s.len() - from,
{
    if from < 0 || from >= s.len() {
        -1
    } else if s[from] == b {
        from
    } else {
        find_byte(s, b, from + 1)
    }
}

/// `find_byte` returns `-1` exactly when `b` does not occur at or after
/// `from`, and otherwise the first such index.
pub proof fn lemma_find_byte(s: Seq<u8>, b: u8, from: int)
    requires
        0 <= from <= s.len(),
    ensures
        find_byte(s, b, from) == -1 ==> forall|j: int| from <= j < s.len() ==> s[j] != b,
        find_byte(s, b, from) != -1 ==> {
            let r = find_byte(s, b, from);
            &&& from <= r < s.len()
            &&& s[r] == b
            &&& forall|j: int| from <= j < r ==> s[j] != b
        },
    decreases s.len() - from,
{
    if from < s.len() {
        lemma_find_byte(s, b, from + 1);
    }
}

/// Find the first occurrence of `b` in `v` at or after `from`; `None` when
/// absent.
pub fn find_byte_from(v: &Vec<u8>, b: u8, from: usize) -> (r: Option<usize>)
    requires
        from <= v@.len(),
    ensures
        r matches Some(i) ==> i == find_byte(v@, b, from as int),
        r is None ==> find_byte(v@, b, from as int) == -1,
{
    proof {
        lemma_find_byte(v@, b, from as int);
    }
    let mut i = from;
    while i < v.len()
        invariant
            from <= i <= v@.len(),
            forall|j: int| from <= j < i ==> v@[j] != b,
            find_byte(v@, b, from as int) == -1 || find_byte(v@, b, from as int) >= i,
        decreases v@.len() - i,
    {
        proof {
            lemma_find_byte(v@, b, from as int);
        }
        if v[i] == b {
            return Some(i);
        }
        i = i + 1;
    }
    None
}

/// A signed decimal token as matched for the pid/tid pair: an optional sign
/// followed by digits, in `i64` range.
pub open spec fn valid_i64_dec(s: Seq<u8>) -> bool {
    let digs = if s.len() > 0 && (s[0] == 45 || s[0] == 43) {
        s.drop_first()
    } else {
        s
    };
    &&& digs.len() > 0
    &&& all_digits(digs)
    &&& (if s.len() > 0 && s[0] == 45 {
        dec_val(digs) <= 0x8000_0000_0000_0000
    } else {
        dec_val(digs) <= 0x7FFF_FFFF_FFFF_FFFF
    })
}

/// Value of a signed decimal token.
pub open spec fn i64_val(s: Seq<u8>) -> int {
    if s.len() > 0 && s[0] == 45 {
        -(dec_val(s.drop_first()) as int)
    } else if s.len() > 0 && s[0] == 43 {
        dec_val(s.drop_first()) as int
    } else {
        dec_val(s) as int
    }
}

/// Parse a whole token as a signed decimal number.
pub fn parse_i64_dec(s: &Vec<u8>) -> (r: Option<i64>)
    ensures
        r is Some <==> valid_i64_dec(s@),
        r matches Some(v) ==> v == i64_val(s@),
{
    if s.len() == 0 {
        return None;
    }
    let b0 = s[0];
    let neg = b0 == 45;
    let digs = if b0 == 45 || b0 == 43 {
        subvec(s, 1, s.len())
    } else {
        subvec(s, 0, s.len())
    };
    proof {
        if b0 == 45 || b0 == 43 {
            assert(s@.subrange(1, s@.len() as int) =~= s@.drop_first());
        } else {
            assert(s@.subrange(0, s@.len() as int) =~= s@);
        }
    }
    match parse_u64_dec(&digs) {
        None => None,
        Some(mag) => {
            if neg {
                if mag > 0x8000_0000_0000_0000u64 {
                    None
                } else if mag == 0x8000_0000_0000_0000u64 {
                    Some(i64::MIN)
                } else {
                    Some(-(mag as i64))
                }
            } else {
                if mag > 0x7FFF_FFFF_FFFF_FFFFu64 {
                    None
                } else {
                    Some(mag as i64)
                }
            }
        },
    }
}

/// The event-name marker of a memory-map record line.
pub open spec fn mmap_marker() -> Seq<u8> {
    seq![
        'P' as u8, 'E' as u8, 'R' as u8, 'F' as u8, '_' as u8, 'R' as u8, 'E' as u8, 'C' as u8,
        'O' as u8, 'R' as u8, 'D' as u8, '_' as u8, 'M' as u8, 'M' as u8, 'A' as u8, 'P' as u8,
    ]
}

/// The second form of the memory-map marker.
pub open spec fn mmap2_marker() -> Seq<u8> {
    mmap_marker().push('2' as u8)
}

/// Placeholder for a missing symbol field.
pub open spec fn unknown_sym() -> Seq<u8> {
    seq![
        '[' as u8, 'u' as u8, 'n' as u8, 'k' as u8, 'n' as u8, 'o' as u8, 'w' as u8, 'n' as u8,
        ']' as u8,
    ]
}

/// The marker `PERF_RECORD_MMAP` as a byte vector.
pub fn mmap_marker_vec() -> (r: Vec<u8>)
    ensures
        r@ == mmap_marker(),
{
    let v: Vec<u8> = vec![
        'P' as u8, 'E' as u8, 'R' as u8, 'F' as u8, '_' as u8, 'R' as u8, 'E' as u8, 'C' as u8,
        'O' as u8, 'R' as u8, 'D' as u8, '_' as u8, 'M' as u8, 'M' as u8, 'A' as u8, 'P' as u8,
    ];
    proof {
        assert(v@ =~= mmap_marker());
    }
    v
}

/// The marker `PERF_RECORD_MMAP2` as a byte vector.
pub fn mmap2_marker_vec() -> (r: Vec<u8>)
    ensures
        r@ == mmap2_marker(),
{
    let mut v = mmap_marker_vec();
    v.push('2' as u8);
    v
}

/// The placeholder `[unknown]` as a byte vector.
pub fn unknown_sym_vec() -> (r: Vec<u8>)
    ensures
        r@ == unknown_sym(),
{
    let v: Vec<u8> = vec![
        '[' as u8, 'u' as u8, 'n' as u8, 'k' as u8, 'n' as u8, 'o' as u8, 'w' as u8, 'n' as u8,
        ']' as u8,
    ];
    proof {
        assert(v@ =~= unknown_sym());
    }
    v
}

/// Parse of the timestamp field `seconds.fraction:`: the part before the
/// first dot is the seconds, the part between the first dot and the next dot
/// (or the end) is the fraction with its trailing separator removed.
pub open spec fn spec_parse_time(tok: Seq<u8>) -> Option<Timestamp> {
    let d1 = find_byte(tok, 46, 0);
    if d1 == -1 {
        None
    } else {
        let d2 = find_byte(tok, 46, d1 + 1);
        let part1 = tok.subrange(0, d1);
        let part2 = tok.subrange(d1 + 1, if d2 == -1 { tok.len() as int } else { d2 });
        if part2.len() == 0 {
            None
        } else {
            let frac = part2.drop_last();
            if valid_u64_dec(part1) && valid_u64_dec(frac) {
                Some(Timestamp { sec: dec_val(part1) as u64, nsec: dec_val(frac) as u64 })
            } else {
                None
            }
        }
    }
}

/// Parse the timestamp field.
pub fn parse_time(tok: &Vec<u8>) -> (r: Option<Timestamp>)
    ensures
        r == spec_parse_time(tok@),
{
    proof {
        lemma_find_byte(tok@, 46, 0);
    }
    let d1 = match find_byte_from(tok, 46, 0) {
        None => {
            return None;
        },
        Some(d) => d,
    };
    let n = tok.len();
    proof {
        assert(find_byte(tok@, 46, 0) == d1 && d1 >= 0);
        assert(d1 < n);
        lemma_find_byte(tok@, 46, d1 + 1);
    }
    let d2 = match find_byte_from(tok, 46, d1 + 1) {
        None => tok.len(),
        Some(d) => d,
    };
    let ghost d2s: int = if find_byte(tok@, 46, d1 + 1) == -1 {
        tok@.len() as int
    } else {
        find_byte(tok@, 46, d1 + 1)
    };
    assert(d2 == d2s);
    let part1 = subvec(tok, 0, d1);
    if d2 - (d1 + 1) == 0 {
        return None;
    }
    let part2 = subvec(tok, d1 + 1, d2 - 1);
    proof {
        assert(tok@.subrange(d1 + 1, d2s).drop_last() =~= tok@.subrange(d1 + 1, d2s - 1));
    }
    match (parse_u64_dec(&part1), parse_u64_dec(&part2)) {
        (Some(sec), Some(nsec)) => Some(Timestamp { sec, nsec }),
        _ => None,
    }
}

/// Parse of the pid/tid field `pid/tid:`: a signed integer up to the first
/// slash, a signed integer after it, and a final colon ending the token.
pub open spec fn spec_parse_pids(tok: Seq<u8>) -> Option<(int, int)> {
    let slash = find_byte(tok, 47, 0);
    if slash == -1 || tok.len() == 0 || tok.last() != 58 {
        None
    } else {
        let part1 = tok.subrange(0, slash);
        let part2 = tok.subrange(slash + 1, tok.len() - 1);
        if valid_i64_dec(part1) && valid_i64_dec(part2) {
            Some((i64_val(part1), i64_val(part2)))
        } else {
            None
        }
    }
}

/// Parse the pid/tid field.
pub fn parse_pids(tok: &Vec<u8>) -> (r: Option<(i64, i64)>)
    ensures
        r is Some <==> spec_parse_pids(tok@) is Some,
        r matches Some(p) ==> spec_parse_pids(tok@) == Some((p.0 as int, p.1 as int)),
{
    proof {
        lemma_find_byte(tok@, 47, 0);
    }
    let slash = match find_byte_from(tok, 47, 0) {
        None => {
            return None;
        },
        Some(d) => d,
    };
    if tok.len() == 0 || tok[tok.len() - 1] != 58 {
        return None;
    }
    let part1 = subvec(tok, 0, slash);
    let part2 = subvec(tok, slash + 1, tok.len() - 1);
    match (parse_i64_dec(&part1), parse_i64_dec(&part2)) {
        (Some(p0), Some(p1)) => Some((p0, p1)),
        _ => None,
    }
}

/// Parse of the address field `[addr(len)`: a literal bracket, the start
/// address in hex, a parenthesis, the length in hex, and a final closing
/// parenthesis ending the token.
pub open spec fn spec_parse_bracket(tok: Seq<u8>) -> Option<(u64, u64)> {
    if tok.len() == 0 || tok[0] != 91 || tok.last() != 41 {
        None
    } else {
        let paren = find_byte(tok, 40, 0);
        if paren == -1 {
            None
        } else {
            let part1 = tok.subrange(1, paren);
            let part2 = tok.subrange(paren + 1, tok.len() - 1);
            if valid_u64_hex(part1) && valid_u64_hex(part2) {
                Some((hex_val(part1) as u64, hex_val(part2) as u64))
            } else {
                None
            }
        }
    }
}

/// Parse the `[addr(len)` field.
pub fn parse_bracket(tok: &Vec<u8>) -> (r: Option<(u64, u64)>)
    ensures
        r == spec_parse_bracket(tok@),
{
    if tok.len() == 0 || tok[0] != 91 || tok[tok.len() - 1] != 41 {
        return None;
    }
    proof {
        lemma_find_byte(tok@, 40, 0);
    }
    let paren = match find_byte_from(tok, 40, 0) {
        None => {
            return None;
        },
        Some(d) => d,
    };
    proof {
        lemma_find_byte(tok@, 40, 0);
        assert(tok@[paren as int] == 40);
        assert(paren >= 1);
        assert(paren < tok@.len() - 1);
    }
    let part1 = subvec(tok, 1, paren);
    let part2 = subvec(tok, paren + 1, tok.len() - 1);
    match (parse_u64_hex(&part1), parse_u64_hex(&part2)) {
        (Some(a), Some(l)) => Some((a, l)),
        _ => None,
    }
}

/// Spec-level classification of one trace line.
pub enum SpecLine {
    /// Line carries nothing for the pipeline (kernel context, filtered map,
    /// zero address).
    Skip,
    /// A memory-map record.
    MapLine { file: Seq<u8>, addr: u64, len: u64, offset: u64 },
    /// A raw sample.
    Sample {
        name: Seq<u8>,
        sym: Seq<u8>,
        addr_sym: Seq<u8>,
        addr: u64,
        ip: u64,
        tid: u32,
        time: Timestamp,
    },
    /// A malformed line; aborts the parse.
    Bad,
}

/// Result of parsing one trace line.
pub enum ParsedLine {
    /// Line carries nothing for the pipeline.
    Skip,
    /// A memory-map record, with the mapped file's path.
    MapLine { file: Vec<u8>, addr: u64, len: u64, offset: u64 },
    /// A raw sample, with its name, symbol and address-symbol strings.
    Sample {
        name: Vec<u8>,
        sym: Vec<u8>,
        addr_sym: Vec<u8>,
        addr: u64,
        ip: u64,
        tid: u32,
        time: Timestamp,
    },
    /// A malformed line; aborts the parse.
    Bad,
}

/// The spec value of a parse result.
pub open spec fn line_view(p: ParsedLine) -> SpecLine {
    match p {
        ParsedLine::Skip => SpecLine::Skip,
        ParsedLine::Bad => SpecLine::Bad,
        ParsedLine::MapLine { file, addr, len, offset } => SpecLine::MapLine {
            file: file@,
            addr,
            len,
            offset,
        },
        ParsedLine::Sample { name, sym, addr_sym, addr, ip, tid, time } => SpecLine::Sample {
            name: name@,
            sym: sym@,
            addr_sym: addr_sym@,
            addr,
            ip,
            tid,
            time,
        },
    }
}

/// What one trace line means.
///
/// The fields are whitespace tokens: thread id, cpu, timestamp, event name,
/// then per-shape fields. A thread id of zero, a map record with a negative
/// or zero owning pid, or a sample with address zero is skipped; a missing
/// or malformed required field is `Bad`.
pub open spec fn spec_parse_line(line: Seq<u8>) -> SpecLine {
    let f = spec_tokens(line);
    if f.len() < 1 {
        SpecLine::Bad
    } else if !valid_u64_dec(f[0]) || dec_val(f[0]) > u32::MAX {
        SpecLine::Bad
    } else if dec_val(f[0]) == 0 {
        SpecLine::Skip
    } else if f.len() < 4 {
        SpecLine::Bad
    } else {
        match spec_parse_time(f[2]) {
            None => SpecLine::Bad,
            Some(time) => {
                if f[3] == mmap_marker() || f[3] == mmap2_marker() {
                    spec_parse_map_line(f)
                } else {
                    spec_parse_sample_line(f, time)
                }
            },
        }
    }
}

/// The map-record arm of `spec_parse_line`.
pub open spec fn spec_parse_map_line(f: Seq<Seq<u8>>) -> SpecLine {
    if f.len() < 5 {
        SpecLine::Bad
    } else {
        match spec_parse_pids(f[4]) {
            None => SpecLine::Bad,
            Some((p0, p1)) => {
                if p0 < 0 || p1 < 0 {
                    SpecLine::Skip
                } else if p0 != 0 {
                    if f.len() < 13 {
                        SpecLine::Bad
                    } else {
                        match spec_parse_bracket(f[5]) {
                            None => SpecLine::Bad,
                            Some((addr, len)) => {
                                if !valid_u64_hex(f[7]) {
                                    SpecLine::Bad
                                } else {
                                    SpecLine::MapLine {
                                        file: f[12],
                                        addr,
                                        len,
                                        offset: hex_val(f[7]) as u64,
                                    }
                                }
                            },
                        }
                    }
                } else {
                    SpecLine::Skip
                }
            },
        }
    }
}

/// The sample arm of `spec_parse_line`. The instruction-pointer field
/// position depends on the total field count (two observed line shapes); a
/// numeric address-symbol field is a missing-symbol placeholder.
pub open spec fn spec_parse_sample_line(f: Seq<Seq<u8>>, time: Timestamp) -> SpecLine {
    if f.len() < 5 {
        SpecLine::Bad
    } else if !valid_u64_hex(f[4]) {
        SpecLine::Bad
    } else if hex_val(f[4]) == 0 {
        SpecLine::Skip
    } else if f.len() < 7 {
        SpecLine::Bad
    } else {
        let ip_tok = if f.len() == 7 {
            f[5]
        } else {
            f[6]
        };
        if !valid_u64_hex(ip_tok) {
            SpecLine::Bad
        } else {
            SpecLine::Sample {
                name: f[3],
                sym: if f.len() >= 8 {
                    f[7]
                } else {
                    unknown_sym()
                },
                addr_sym: if valid_u64_hex(f[5]) {
                    unknown_sym()
                } else {
                    f[5]
                },
                addr: hex_val(f[4]) as u64,
                ip: hex_val(ip_tok) as u64,
                tid: dec_val(f[0]) as u32,
                time,
            }
        }
    }
}

/// Copy a token out of the field list.
fn copy_field(fields: &Vec<Vec<u8>>, i: usize) -> (r: Vec<u8>)
    requires
        i < fields@.len(),
    ensures
        r@ == fields@[i as int]@,
{
    subvec(&fields[i], 0, fields[i].len())
}

/// Parse one trace line.
pub fn parse_line(line: &Vec<u8>) -> (r: ParsedLine)
    ensures
        line_view(r) == spec_parse_line(line@),
{
    let fields = split_ws(line);
    let ghost f = spec_tokens(line@);
    if fields.len() < 1 {
        return ParsedLine::Bad;
    }
    let tid64 = match parse_u64_dec(&fields[0]) {
        None => {
            return ParsedLine::Bad;
        },
        Some(v) => v,
    };
    if tid64 > 0xFFFF_FFFFu64 {
        return ParsedLine::Bad;
    }
    let tid = tid64 as u32;
    if tid == 0 {
        return ParsedLine::Skip;
    }
    if fields.len() < 4 {
        return ParsedLine::Bad;
    }
    let time = match parse_time(&fields[2]) {
        None => {
            return ParsedLine::Bad;
        },
        Some(t) => t,
    };
    let marker1 = mmap_marker_vec();
    let marker2 = mmap2_marker_vec();
    if bytes_eq(&fields[3], &marker1) || bytes_eq(&fields[3], &marker2) {
        if fields.len() < 5 {
            return ParsedLine::Bad;
        }
        let pids = match parse_pids(&fields[4]) {
            None => {
                return ParsedLine::Bad;
            },
            Some(p) => p,
        };
        if pids.0 < 0 || pids.1 < 0 {
            return ParsedLine::Skip;
        }
        if pids.0 != 0 {
            if fields.len() < 13 {
                return ParsedLine::Bad;
            }
            let bracket = match parse_bracket(&fields[5]) {
                None => {
                    return ParsedLine::Bad;
                },
                Some(x) => x,
            };
            let offset = match parse_u64_hex(&fields[7]) {
                None => {
                    return ParsedLine::Bad;
                },
                Some(x) => x,
            };
            let file = copy_field(&fields, 12);
            ParsedLine::MapLine { file, addr: bracket.0, len: bracket.1, offset }
        } else {
            ParsedLine::Skip
        }
    } else {
        if fields.len() < 5 {
            return ParsedLine::Bad;
        }
        let addr = match parse_u64_hex(&fields[4]) {
            None => {
                return ParsedLine::Bad;
            },
            Some(x) => x,
        };
        if addr == 0 {
            return ParsedLine::Skip;
        }
        if fields.len() < 7 {
            return ParsedLine::Bad;
        }
        let ip_idx: usize = if fields.len() == 7 {
            5
        } else {
            6
        };
        let ip = match parse_u64_hex(&fields[ip_idx]) {
            None => {
                return ParsedLine::Bad;
            },
            Some(x) => x,
        };
        let sym = if fields.len() >= 8 {
            copy_field(&fields, 7)
        } else {
            unknown_sym_vec()
        };
        let addr_sym = if parse_u64_hex(&fields[5]).is_some() {
            unknown_sym_vec()
        } else {
            copy_field(&fields, 5)
        };
        let name = copy_field(&fields, 3);
        ParsedLine::Sample { name, sym, addr_sym, addr, ip, tid, time }
    }
}

/// A parse abort: the index of the first malformed line.
#[derive(Debug, Clone, Copy, PartialEq, Eq, Structural)]
pub struct ParseError {
    /// Index of the first malformed line.
    pub line: usize,
}

/// Folding one parsed line into the scan state `(strings, maps, samples)`:
/// a map record interns its file path, a sample interns its name, symbol and
/// address-symbol strings (in that order); a `Bad` line aborts.
pub open spec fn spec_scan_step(
    st: (Seq<Seq<u8>>, Seq<MMap>, Seq<PerfEvent>),
    line: Seq<u8>,
) -> Option<(Seq<Seq<u8>>, Seq<MMap>, Seq<PerfEvent>)> {
    match spec_parse_line(line) {
        SpecLine::Bad => None,
        SpecLine::Skip => Some(st),
        SpecLine::MapLine { file, addr, len, offset } => {
            let (strs, h) = spec_intern(st.0, file);
            Some((strs, st.1.push(MMap { file: h as usize, offset, addr, len }), st.2))
        },
        SpecLine::Sample { name, sym, addr_sym, addr, ip, tid, time } => {
            let (s1, hname) = spec_intern(st.0, name);
            let (s2, hsym) = spec_intern(s1, sym);
            let (s3, hasym) = spec_intern(s2, addr_sym);
            Some(
                (
                    s3,
                    st.1,
                    st.2.push(
                        PerfEvent {
                            name: hname as usize,
                            sym: hsym as usize,
                            addr_sym: hasym as usize,
                            addr,
                            ip,
                            time,
                            tid,
                        },
                    ),
                ),
            )
        },
    }
}

/// The scan of a whole trace: lines folded in order into the scan state;
/// `None` when any line is malformed.
pub open spec fn spec_scan(lines: Seq<Seq<u8>>) -> Option<
    (Seq<Seq<u8>>, Seq<MMap>, Seq<PerfEvent>),
>
    decreases lines.len(),
{
    if lines.len() == 0 {
        Some((Seq::empty(), Seq::empty(), Seq::empty()))
    } else {
        match spec_scan(lines.drop_last()) {
            None => None,
            Some(st) => spec_scan_step(st, lines.last()),
        }
    }
}

/// A failed scan of a prefix fails the whole scan.
proof fn lemma_scan_none_extends(lines: Seq<Seq<u8>>, j: int)
    requires
        0 <= j <= lines.len(),
        spec_scan(lines.take(j)) is None,
    ensures
        spec_scan(lines) is None,
    decreases lines.len() - j,
{
    if j < lines.len() {
        assert(lines.take(j + 1).drop_last() =~= lines.take(j));
        lemma_scan_none_extends(lines, j + 1);
    } else {
        assert(lines.take(j) =~= lines);
    }
}

/// Every string handle issued by a successful scan is a valid index into
/// its string table.
pub proof fn lemma_scan_handles_valid(lines: Seq<Seq<u8>>)
    ensures
        spec_scan(lines) matches Some(st) ==> {
            &&& forall|i: int| 0 <= i < st.1.len() ==> (#[trigger] st.1[i]).file < st.0.len()
            &&& forall|i: int|
                0 <= i < st.2.len() ==> ((#[trigger] st.2[i]).name < st.0.len()
                    && st.2[i].sym < st.0.len() && st.2[i].addr_sym < st.0.len())
        },
    decreases lines.len(),
{
    if lines.len() > 0 && spec_scan(lines) is Some {
        lemma_scan_handles_valid(lines.drop_last());
        let st0 = spec_scan(lines.drop_last())->Some_0;
        match spec_parse_line(lines.last()) {
            SpecLine::MapLine { file, addr, len, offset } => {
                lemma_spec_find(st0.0, file);
            },
            SpecLine::Sample { name, sym, addr_sym, addr, ip, tid, time } => {
                lemma_spec_find(st0.0, name);
                let s1 = spec_intern(st0.0, name).0;
                lemma_spec_find(s1, sym);
                let s2 = spec_intern(s1, sym).0;
                lemma_spec_find(s2, addr_sym);
            },
            _ => {},
        }
    }
}

/// Scan the trace lines: parse each line and fold map records and samples
/// into growing tables, interning every string encountered.
///
/// Returns the interner, the map records and the raw samples, in trace
/// order; or the index of the first malformed line.
pub fn scan_lines(lines: &Vec<Vec<u8>>) -> (r: Result<
    (Interner, Vec<MMap>, Vec<PerfEvent>),
    ParseError,
>)
    ensures
        r matches Ok(out) ==> spec_scan(lines.deep_view()) == Some(
            (out.0.strings(), out.1@, out.2@),
        ),
        r matches Err(e) ==> {
            &&& spec_scan(lines.deep_view()) is None
            &&& e.line < lines@.len()
            &&& spec_parse_line(lines.deep_view()[e.line as int]) is Bad
            &&& forall|j: int|
                0 <= j < e.line ==> !(spec_parse_line(
                    #[trigger] lines.deep_view()[j],
                ) is Bad)
        },
{
    let ghost ld = lines.deep_view();
    let mut strings = Interner::new();
    let mut maps: Vec<MMap> = Vec::new();
    let mut samples: Vec<PerfEvent> = Vec::new();
    let n = lines.len();
    proof {
        assert(ld.take(0) =~= Seq::<Seq<u8>>::empty());
        assert(lines@.len() == ld.len());
    }
    let mut i: usize = 0;
    while i < n
        invariant
            0 <= i <= n == ld.len(),
            ld == lines.deep_view(),
            n == lines@.len(),
            spec_scan(ld.take(i as int)) == Some((strings.strings(), maps@, samples@)),
            forall|j: int| 0 <= j < i ==> !(spec_parse_line(#[trigger] ld[j]) is Bad),
        decreases n - i,
    {
        proof {
            assert(ld[i as int] == lines@[i as int].deep_view());
            assert(lines@[i as int].deep_view() =~= lines@[i as int]@);
            assert(ld.take(i as int + 1).drop_last() =~= ld.take(i as int));
            assert(ld.take(i as int + 1).last() == ld[i as int]);
        }
        match parse_line(&lines[i]) {
            ParsedLine::Bad => {
                proof {
                    lemma_scan_none_extends(ld, i as int + 1);
                }
                return Err(ParseError { line: i });
            },
            ParsedLine::Skip => {},
            ParsedLine::MapLine { file, addr, len, offset } => {
                let h = strings.get_or_intern(&file);
                maps.push(MMap { file: h, offset, addr, len });
            },
            ParsedLine::Sample { name, sym, addr_sym, addr, ip, tid, time } => {
                let hname = strings.get_or_intern(&name);
                let hsym = strings.get_or_intern(&sym);
                let hasym = strings.get_or_intern(&addr_sym);
                samples.push(
                    PerfEvent { name: hname, sym: hsym, addr_sym: hasym, addr, ip, time, tid },
                );
            },
        }
        i = i + 1;
    }
    proof {
        assert(ld.take(n as int) =~= ld);
    }
    Ok((strings, maps, samples))
}

/// Folding one map record into the object table and interval map: get or
/// create the object keyed by the record's file handle, then insert the
/// record's range tagged with that object's index and the record's
/// placement.
pub open spec fn spec_build_step(
    slots: Seq<Option<Object>>,
    tree: Map<u64, (u64, RangeVal)>,
    m: MMap,
) -> (Seq<Option<Object>>, Map<u64, (u64, RangeVal)>) {
    let found = spec_find_file(slots, m.file);
    let idx = if found == -1 {
        slots.len() as int
    } else {
        found
    };
    let slots2 = if found == -1 {
        slots.push(Some(spec_new_object(m.file, slots.len() as usize)))
    } else {
        slots
    };
    (slots2, tree.insert(m.addr, (spec_map_end(m), (idx as usize, m.addr, m.offset))))
}

/// The object table and interval map built from all map records, in order.
pub open spec fn spec_build(maps: Seq<MMap>) -> (Seq<Option<Object>>, Map<u64, (u64, RangeVal)>)
    decreases maps.len(),
{
    if maps.len() == 0 {
        (Seq::empty(), empty_entries())
    } else {
        let st = spec_build(maps.drop_last());
        spec_build_step(st.0, st.1, maps.last())
    }
}

/// Build the object table and the interval map from the parsed map records.
pub fn build_addr_map(maps: &Vec<MMap>) -> (r: (ObjectTable, AddrMap))
    ensures
        (r.0@, r.1.entries()) == spec_build(maps@),
        r.0.wf(),
        r.1.wf(),
{
    let mut table = ObjectTable::new();
    let mut amap = AddrMap::new();
    proof {
        assert(maps@.take(0) =~= Seq::<MMap>::empty());
    }
    let mut i: usize = 0;
    while i < maps.len()
        invariant
            0 <= i <= maps@.len(),
            (table@, amap.entries()) == spec_build(maps@.take(i as int)),
            table.wf(),
            amap.wf(),
        decreases maps@.len() - i,
    {
        proof {
            assert(maps@.take(i as int + 1).drop_last() =~= maps@.take(i as int));
            assert(maps@.take(i as int + 1).last() == maps@[i as int]);
        }
        let m = maps[i];
        let idx = match table.find_by_file(m.file) {
            Some(found) => found,
            None => table.push_new(m.file),
        };
        amap.insert_map(&m, idx);
        i = i + 1;
    }
    proof {
        assert(maps@.take(maps@.len() as int) =~= maps@);
    }
    (table, amap)
}

/// Every interval-map value built from the map records names a live slot of
/// the built object table.
pub proof fn lemma_build_links(maps: Seq<MMap>)
    requires
        maps.len() <= usize::MAX,
    ensures
        spec_build(maps).0.len() <= maps.len(),
        ({
            let (slots, tree) = spec_build(maps);
            forall|s: u64|
                tree.contains_key(s) ==> ((#[trigger] tree[s]).1.0 < slots.len()
                    && slots[tree[s].1.0 as int] is Some)
        }),
    decreases maps.len(),
{
    if maps.len() > 0 {
        lemma_build_links(maps.drop_last());
        let (slots0, tree0) = spec_build(maps.drop_last());
        let m = maps.last();
        let (slots1, tree1) = spec_build(maps);
        let found = spec_find_file(slots0, m.file);
        if found != -1 {
            lemma_spec_find_file(slots0, m.file);
        }
        assert forall|s: u64| tree1.contains_key(s) implies ((#[trigger] tree1[s]).1.0
            < slots1.len() && slots1[tree1[s].1.0 as int] is Some) by {
            if s == m.addr {
                if found == -1 {
                    assert(slots1 == slots0.push(
                        Some(spec_new_object(m.file, slots0.len() as usize)),
                    ));
                    assert(tree1[s].1.0 == slots0.len() as usize);
                    assert(slots1[slots0.len() as int] is Some);
                } else {
                    assert(tree1[s].1.0 == found as usize);
                    assert(slots0[found] is Some);
                }
            } else {
                assert(tree0.contains_key(s) && tree1[s] == tree0[s]);
                if found == -1 {
                    assert(slots1[tree0[s].1.0 as int] == slots0[tree0[s].1.0 as int]);
                }
            }
        }
    }
}

/// The event-name prefix classifying a minor fault.
pub open spec fn minor_prefix() -> Seq<u8> {
    seq![
        'm' as u8, 'i' as u8, 'n' as u8, 'o' as u8, 'r' as u8, '-' as u8, 'f' as u8, 'a' as u8,
        'u' as u8, 'l' as u8, 't' as u8, 's' as u8,
    ]
}

/// The event-name prefix classifying a major fault.
pub open spec fn major_prefix() -> Seq<u8> {
    seq![
        'm' as u8, 'a' as u8, 'j' as u8, 'o' as u8, 'r' as u8, '-' as u8, 'f' as u8, 'a' as u8,
        'u' as u8, 'l' as u8, 't' as u8, 's' as u8,
    ]
}

/// The event-name prefix classifying a cache miss.
pub open spec fn cache_prefix() -> Seq<u8> {
    seq![
        'c' as u8, 'a' as u8, 'c' as u8, 'h' as u8, 'e' as u8, '-' as u8, 'm' as u8, 'i' as u8,
        's' as u8, 's' as u8, 'e' as u8, 's' as u8,
    ]
}

/// Classification of an event by its name: prefix match against the three
/// known family names; anything else is `Unknown`.
pub open spec fn spec_classify(name: Seq<u8>) -> EventKind {
    if minor_prefix().is_prefix_of(name) {
        EventKind::MinorFault
    } else if major_prefix().is_prefix_of(name) {
        EventKind::MajorFault
    } else if cache_prefix().is_prefix_of(name) {
        EventKind::CacheMiss
    } else {
        EventKind::Unknown
    }
}

/// Classify an event-name string.
pub fn classify_event_name(name: &Vec<u8>) -> (r: EventKind)
    ensures
        r == spec_classify(name@),
{
    let minor: Vec<u8> = vec![
        'm' as u8, 'i' as u8, 'n' as u8, 'o' as u8, 'r' as u8, '-' as u8, 'f' as u8, 'a' as u8,
        'u' as u8, 'l' as u8, 't' as u8, 's' as u8,
    ];
    let major: Vec<u8> = vec![
        'm' as u8, 'a' as u8, 'j' as u8, 'o' as u8, 'r' as u8, '-' as u8, 'f' as u8, 'a' as u8,
        'u' as u8, 'l' as u8, 't' as u8, 's' as u8,
    ];
    let cache: Vec<u8> = vec![
        'c' as u8, 'a' as u8, 'c' as u8, 'h' as u8, 'e' as u8, '-' as u8, 'm' as u8, 'i' as u8,
        's' as u8, 's' as u8, 'e' as u8, 's' as u8,
    ];
    proof {
        assert(minor@ =~= minor_prefix());
        assert(major@ =~= major_prefix());
        assert(cache@ =~= cache_prefix());
    }
    if has_prefix(name, &minor) {
        EventKind::MinorFault
    } else if has_prefix(name, &major) {
        EventKind::MajorFault
    } else if has_prefix(name, &cache) {
        EventKind::CacheMiss
    } else {
        EventKind::Unknown
    }
}

/// The event one resolved sample produces.
pub open spec fn spec_event_of(s: PerfEvent, idx: usize, off: u64, strs: Seq<Seq<u8>>) -> Event {
    Event {
        obj_idx: idx,
        offset: off,
        was_write: false,
        time_ns: s.time.spec_nanos(),
        kind: spec_classify(strs[s.name as int]),
        event_name: s.name,
        addr: s.addr,
        ip: s.ip,
        tid: s.tid,
    }
}

/// The event list resolved from the samples, in order: each sample whose
/// address resolves against the interval-map model `m` contributes one
/// event; the rest are dropped.
pub open spec fn spec_resolve_events(
    samples: Seq<PerfEvent>,
    m: Map<u64, (u64, RangeVal)>,
    strs: Seq<Seq<u8>>,
) -> Seq<Event>
    decreases samples.len(),
{
    if samples.len() == 0 {
        Seq::empty()
    } else {
        let prev = spec_resolve_events(samples.drop_last(), m, strs);
        match spec_resolve(m, samples.last().addr) {
            None => prev,
            Some((idx, off)) => prev.push(spec_event_of(samples.last(), idx, off, strs)),
        }
    }
}

/// Resolve all samples against the interval map, classifying each by its
/// event-name string.
pub fn resolve_events(samples: &Vec<PerfEvent>, amap: &AddrMap, strings: &Interner) -> (r: Vec<
    Event,
>)
    requires
        amap.wf(),
        forall|i: int| 0 <= i < samples@.len() ==> (#[trigger] samples@[i]).name
            < strings.strings().len(),
    ensures
        r@ == spec_resolve_events(samples@, amap.entries(), strings.strings()),
{
    let mut events: Vec<Event> = Vec::new();
    proof {
        assert(samples@.take(0) =~= Seq::<PerfEvent>::empty());
    }
    let mut i: usize = 0;
    while i < samples.len()
        invariant
            0 <= i <= samples@.len(),
            amap.wf(),
            forall|j: int| 0 <= j < samples@.len() ==> (#[trigger] samples@[j]).name
                < strings.strings().len(),
            events@ == spec_resolve_events(samples@.take(i as int), amap.entries(),
            strings.strings()),
        decreases samples@.len() - i,
    {
        proof {
            assert(samples@.take(i as int + 1).drop_last() =~= samples@.take(i as int));
            assert(samples@.take(i as int + 1).last() == samples@[i as int]);
        }
        let s = samples[i];
        match amap.lookup(s.addr) {
            None => {},
            Some(hit) => {
                let name = match strings.resolve(s.name) {
                    Some(v) => v,
                    None => {
                        proof {
                            assert(false);
                        }
                        unreached()
                    },
                };
                let kind = classify_event_name(name);
                events.push(
                    Event {
                        obj_idx: hit.0,
                        offset: hit.1,
                        was_write: false,
                        time_ns: s.time.to_nanos(),
                        kind,
                        event_name: s.name,
                        addr: s.addr,
                        ip: s.ip,
                        tid: s.tid,
                    },
                );
            },
        }
        i = i + 1;
    }
    proof {
        assert(samples@.take(samples@.len() as int) =~= samples@);
    }
    events
}

/// Folding one event into the object table: the owning object's counters
/// and offset bounds are widened. A stale object index or a saturated
/// counter leaves the table unchanged (neither arises in a table built by
/// this parser).
pub open spec fn spec_aggregate_step(
    slots: Seq<Option<Object>>,
    ev: Event,
) -> Seq<Option<Object>> {
    if ev.obj_idx < slots.len() && (slots[ev.obj_idx as int] matches Some(o) && o.faults
        < usize::MAX) {
        slots.update(
            ev.obj_idx as int,
            Some(spec_record_fault(slots[ev.obj_idx as int]->Some_0, ev.offset)),
        )
    } else {
        slots
    }
}

/// All events folded into the object table, in order.
pub open spec fn spec_aggregate(slots: Seq<Option<Object>>, events: Seq<Event>) -> Seq<
    Option<Object>,
>
    decreases events.len(),
{
    if events.len() == 0 {
        slots
    } else {
        spec_aggregate_step(spec_aggregate(slots, events.drop_last()), events.last())
    }
}

/// Fold every event's offset into its owning object.
pub fn aggregate_events(table: &mut ObjectTable, events: &Vec<Event>)
    ensures
        final(table)@ == spec_aggregate(old(table)@, events@),
{
    proof {
        assert(events@.take(0) =~= Seq::<Event>::empty());
    }
    let mut i: usize = 0;
    while i < events.len()
        invariant
            0 <= i <= events@.len(),
            table@ == spec_aggregate(old(table)@, events@.take(i as int)),
        decreases events@.len() - i,
    {
        proof {
            assert(events@.take(i as int + 1).drop_last() =~= events@.take(i as int));
            assert(events@.take(i as int + 1).last() == events@[i as int]);
        }
        let ev = events[i];
        match table.get(ev.obj_idx) {
            Some(o) => {
                let faults = o.faults;
                if faults < usize::MAX {
                    table.record_fault(ev.obj_idx, ev.offset);
                }
            },
            None => {},
        }
        i = i + 1;
    }
    proof {
        assert(events@.take(events@.len() as int) =~= events@);
    }
}

/// In a table of freshly built objects, aggregation keeps this shape: an
/// object with no events still has the neutral bounds, and an object with
/// events has `smallest_offset <= biggest_offset`.
pub proof fn lemma_aggregate_bounds(slots: Seq<Option<Object>>, events: Seq<Event>)
    requires
        forall|i: int|
            0 <= i < slots.len() ==> ((#[trigger] slots[i]) matches Some(o) ==> (if o.faults == 0 {
                o.biggest_offset == 0 && o.smallest_offset == u64::MAX
            } else {
                o.smallest_offset <= o.biggest_offset
            })),
    ensures
        forall|i: int|
            0 <= i < spec_aggregate(slots, events).len() ==> ((#[trigger] spec_aggregate(
                slots,
                events,
            )[i]) matches Some(o) ==> (if o.faults == 0 {
                o.biggest_offset == 0 && o.smallest_offset == u64::MAX
            } else {
                o.smallest_offset <= o.biggest_offset
            })),
    decreases events.len(),
{
    if events.len() > 0 {
        lemma_aggregate_bounds(slots, events.drop_last());
    }
}

/// Every object freshly built from map records has zero counters and the
/// neutral offset bounds.
pub proof fn lemma_build_fresh(maps: Seq<MMap>)
    ensures
        forall|i: int|
            0 <= i < spec_build(maps).0.len() ==> ((#[trigger] spec_build(maps).0[i]) matches Some(
                o,
            ) ==> o.faults == 0 && o.biggest_offset == 0 && o.smallest_offset == u64::MAX),
    decreases maps.len(),
{
    if maps.len() > 0 {
        lemma_build_fresh(maps.drop_last());
    }
}

/// Fallback label for an unresolvable object name.
pub open spec fn unknown_label() -> Seq<u8> {
    seq![
        '<' as u8, 'u' as u8, 'n' as u8, 'k' as u8, 'n' as u8, 'o' as u8, 'w' as u8, 'n' as u8,
        '>' as u8,
    ]
}

/// The fallback label `<unknown>` as a byte vector.
pub fn unknown_label_vec() -> (r: Vec<u8>)
    ensures
        r@ == unknown_label(),
{
    let v: Vec<u8> = vec![
        '<' as u8, 'u' as u8, 'n' as u8, 'k' as u8, 'n' as u8, 'o' as u8, 'w' as u8, 'n' as u8,
        '>' as u8,
    ];
    proof {
        assert(v@ =~= unknown_label());
    }
    v
}

/// The name of the object in slot `idx`: its file string, or the fallback
/// label when the slot is vacant or the handle unresolvable.
pub open spec fn spec_object_name(slots: Seq<Option<Object>>, strs: Seq<Seq<u8>>, idx: usize) -> Seq<
    u8,
> {
    if idx < slots.len() && (slots[idx as int] matches Some(o) && o.file < strs.len()) {
        strs[slots[idx as int]->Some_0.file as int]
    } else {
        unknown_label()
    }
}

/// The parsed trace: the resolved event stream, the finalized object table,
/// and the interned strings both reference.
#[derive(Debug)]
pub struct PerfData {
    /// Resolved events, in trace order.
    pub faults: Vec<Event>,
    /// Finalized per-object aggregates, by stable index.
    pub objects: ObjectTable,
    /// Interned strings referenced by events and objects.
    pub strings: Interner,
}

impl PerfData {
    /// The file name of the object in slot `idx`, or `<unknown>`.
    pub fn object_name(&self, idx: usize) -> (r: Vec<u8>)
        ensures
            r@ == spec_object_name(self.objects@, self.strings.strings(), idx),
    {
        match self.objects.get(idx) {
            Some(o) => {
                let file = o.file;
                match self.strings.resolve(file) {
                    Some(v) => subvec(v, 0, v.len()),
                    None => unknown_label_vec(),
                }
            },
            None => unknown_label_vec(),
        }
    }
}

/// What a successful parse returns: the scan succeeded, and the event list
/// and object table are exactly the scan's samples resolved against the
/// interval map built from its map records, aggregated and finalized.
pub open spec fn parse_ok_spec(lines: Seq<Seq<u8>>, pd: PerfData) -> bool {
    match spec_scan(lines) {
        None => false,
        Some(st) => {
            let built = spec_build(st.1);
            &&& pd.strings.strings() == st.0
            &&& pd.faults@ == spec_resolve_events(st.2, built.1, st.0)
            &&& pd.objects@ == spec_finalize(spec_aggregate(built.0, pd.faults@))
        },
    }
}

/// Aggregation leaves every live object recording its own slot index.
proof fn lemma_aggregate_keeps_idx(slots: Seq<Option<Object>>, events: Seq<Event>)
    requires
        forall|i: int|
            0 <= i < slots.len() ==> ((#[trigger] slots[i]) matches Some(o) ==> o.idx == i),
    ensures
        forall|i: int|
            0 <= i < spec_aggregate(slots, events).len() ==> ((#[trigger] spec_aggregate(
                slots,
                events,
            )[i]) matches Some(o) ==> o.idx == i),
        spec_aggregate(slots, events).len() == slots.len(),
    decreases events.len(),
{
    if events.len() > 0 {
        lemma_aggregate_keeps_idx(slots, events.drop_last());
    }
}

/// Parse a whole trace: scan the lines, build the object table and interval
/// map from the map records, resolve and classify the samples, aggregate
/// per-object statistics, and finalize the table.
///
/// On success, every surviving object has `faults > 0` and page-aligned
/// offset bounds with `smallest_offset <= biggest_offset`. A malformed line
/// aborts the parse with the index of the first such line.
pub fn parse_perf_data(lines: &Vec<Vec<u8>>) -> (r: Result<PerfData, ParseError>)
    ensures
        r matches Ok(pd) ==> {
            &&& parse_ok_spec(lines.deep_view(), pd)
            &&& pd.objects.wf()
            &&& forall|i: int|
                0 <= i < pd.objects@.len() ==> ((#[trigger] pd.objects@[i]) matches Some(o)
                    ==> o.faults > 0 && o.biggest_offset % PAGE_SIZE == 0 && o.smallest_offset
                    % PAGE_SIZE == 0 && o.smallest_offset <= o.biggest_offset)
        },
        r matches Err(e) ==> {
            &&& spec_scan(lines.deep_view()) is None
            &&& e.line < lines@.len()
            &&& spec_parse_line(lines.deep_view()[e.line as int]) is Bad
            &&& forall|j: int|
                0 <= j < e.line ==> !(spec_parse_line(#[trigger] lines.deep_view()[j]) is Bad)
        },
{
    let scanned = match scan_lines(lines) {
        Ok(out) => out,
        Err(e) => {
            return Err(e);
        },
    };
    let (strings, maps, samples) = scanned;
    let built = build_addr_map(&maps);
    let (mut table, amap) = built;
    let maps_len = maps.len();
    proof {
        assert(maps@.len() == maps_len);
        lemma_scan_handles_valid(lines.deep_view());
        assert(spec_scan(lines.deep_view()) == Some((strings.strings(), maps@, samples@)));
        let st = spec_scan(lines.deep_view())->Some_0;
        assert(st.2 == samples@);
        assert forall|i: int|
            0 <= i < samples@.len() implies (#[trigger] samples@[i]).name
            < strings.strings().len() by {
            assert(st.2[i] == samples@[i]);
            assert(st.2[i].name < st.0.len());
        }
        lemma_build_links(maps@);
        lemma_build_fresh(maps@);
    }
    let faults = resolve_events(&samples, &amap, &strings);
    let ghost slots0 = table@;
    aggregate_events(&mut table, &faults);
    proof {
        lemma_aggregate_bounds(slots0, faults@);
        lemma_aggregate_keeps_idx(slots0, faults@);
        lemma_finalized_objects(spec_aggregate(slots0, faults@));
    }
    table.finalize();
    proof {
        assert forall|i: int|
            0 <= i < table@.len() && (#[trigger] table@[i]) is Some implies table@[i]->Some_0.idx
            == i by {
            assert(table@[i] == spec_finalize(spec_aggregate(slots0, faults@))[i]);
        }
    }
    Ok(PerfData { faults, objects: table, strings })
}

/// Time-order law for the whole pipeline: when the scanned samples'
/// timestamps are non-decreasing in trace order, a successful parse emits
/// an event list that is non-decreasing in `time_ns`.
pub proof fn lemma_parse_preserves_time_order(lines: Seq<Seq<u8>>, pd: PerfData)
    requires
        parse_ok_spec(lines, pd),
        ({
            let st = spec_scan(lines)->Some_0;
            forall|i: int, j: int|
                0 <= i <= j < st.2.len() ==> (#[trigger] st.2[i]).time.spec_nanos() <= (
                #[trigger] st.2[j]).time.spec_nanos()
        }),
    ensures
        forall|a: int, b: int|
            0 <= a <= b < pd.faults@.len() ==> (#[trigger] pd.faults@[a]).time_ns <= (
            #[trigger] pd.faults@[b]).time_ns,
{
    let st = spec_scan(lines)->Some_0;
    let built = spec_build(st.1);
    lemma_resolve_events_sorted(st.2, built.1, st.0);
}

/// The resolved event stream preserves the trace's time order: when the
/// samples' timestamps are non-decreasing in trace order, the emitted
/// events' `time_ns` values are non-decreasing too, and every event's time
/// is some sample's time.
pub proof fn lemma_resolve_events_sorted(
    samples: Seq<PerfEvent>,
    m: Map<u64, (u64, RangeVal)>,
    strs: Seq<Seq<u8>>,
)
    requires
        forall|i: int, j: int|
            0 <= i <= j < samples.len() ==> (#[trigger] samples[i]).time.spec_nanos() <= (
            #[trigger] samples[j]).time.spec_nanos(),
    ensures
        ({
            let evs = spec_resolve_events(samples, m, strs);
            &&& forall|a: int, b: int|
                0 <= a <= b < evs.len() ==> (#[trigger] evs[a]).time_ns <= (
                #[trigger] evs[b]).time_ns
            &&& forall|k: int|
                0 <= k < evs.len() ==> exists|j: int|
                    0 <= j < samples.len() && (#[trigger] evs[k]).time_ns == samples[j].time.spec_nanos()
        }),
    decreases samples.len(),
{
    if samples.len() > 0 {
        lemma_resolve_events_sorted(samples.drop_last(), m, strs);
        let prev = spec_resolve_events(samples.drop_last(), m, strs);
        let evs = spec_resolve_events(samples, m, strs);
        assert forall|k: int| 0 <= k < evs.len() implies exists|j: int|
            0 <= j < samples.len() && (#[trigger] evs[k]).time_ns
                == samples[j].time.spec_nanos() by {
            if k < prev.len() {
                let j = choose|j: int|
                    0 <= j < samples.drop_last().len() && prev[k].time_ns == samples.drop_last()[j].time.spec_nanos();
                assert(samples.drop_last()[j] == samples[j]);
                assert(evs[k] == prev[k]);
                assert(evs[k].time_ns == samples[j].time.spec_nanos());
            } else {
                assert(evs[k].time_ns == samples[samples.len() - 1].time.spec_nanos());
            }
        }
        assert forall|a: int, b: int| 0 <= a <= b < evs.len() implies (#[trigger] evs[a]).time_ns
            <= (#[trigger] evs[b]).time_ns by {
            if b < prev.len() {
                assert(evs[a] == prev[a] && evs[b] == prev[b]);
            } else if a < prev.len() {
                assert(evs[a] == prev[a]);
                let j = choose|j: int|
                    0 <= j < samples.drop_last().len() && prev[a].time_ns == samples.drop_last()[j].time.spec_nanos();
                assert(samples.drop_last()[j] == samples[j]);
                assert(evs[b].time_ns == samples[samples.len() - 1].time.spec_nanos());
            }
        }
    }
}

} // verus!
