//! Core data model of the trace pipeline: timestamps, map records, raw
//! samples, resolved events, and the page-granularity arithmetic they share.

use vstd::prelude::*;
use crate::kind::EventKind;

verus! {

/// Fixed alignment granularity for masking addresses and rounding offsets.
pub const PAGE_SIZE: u64 = 0x1000;

/// Largest page-aligned `u64`.
pub const PAGE_TOP: u64 = 0xFFFF_FFFF_FFFF_F000;

/// The page base of an address: its low twelve bits cleared.
pub open spec fn spec_page_mask(a: u64) -> u64 {
    a & 0xFFFF_FFFF_FFFF_F000u64
}

/// Clear the low twelve bits of an address.
pub fn page_mask(a: u64) -> (r: u64)
    ensures
        r == spec_page_mask(a),
        r % PAGE_SIZE == 0,
        r <= a,
        a - r < PAGE_SIZE,
{
    let r = a & !0xfffu64;
    proof {
        assert(a & !0xfffu64 == a & 0xFFFF_FFFF_FFFF_F000u64) by (bit_vector);
        assert((a & 0xFFFF_FFFF_FFFF_F000u64) % 0x1000 == 0) by (bit_vector);
        assert((a & 0xFFFF_FFFF_FFFF_F000u64) <= a) by (bit_vector);
        assert(a - (a & 0xFFFF_FFFF_FFFF_F000u64) < 0x1000) by (bit_vector);
    }
    r
}

/// `x` rounded up to the next page boundary, capped at the largest
/// page-aligned value.
pub open spec fn spec_round_up_page(x: u64) -> u64 {
    if x > PAGE_TOP {
        PAGE_TOP
    } else if x % PAGE_SIZE == 0 {
        x
    } else {
        ((x / PAGE_SIZE + 1) * PAGE_SIZE) as u64
    }
}

/// The rounded value is page-aligned, bounded by `PAGE_TOP`, and at least
/// `x` whenever `x` itself is at most `PAGE_TOP`; it also stays below
/// `x + PAGE_SIZE`.
pub proof fn lemma_round_up_page_props(x: u64)
    ensures
        spec_round_up_page(x) % PAGE_SIZE == 0,
        spec_round_up_page(x) <= PAGE_TOP,
        x <= PAGE_TOP ==> spec_round_up_page(x) >= x,
        spec_round_up_page(x) < x + PAGE_SIZE,
{
    let p: int = PAGE_SIZE as int;
    let xi: int = x as int;
    if x > PAGE_TOP {
    } else if x % PAGE_SIZE == 0 {
    } else {
        let q = xi / p;
        assert(xi == q * p + xi % p && 0 <= xi % p < p && q >= 0) by (nonlinear_arith)
            requires
                xi >= 0,
                p == 0x1000,
                q == xi / p,
        ;
        assert(((q + 1) * p) % p == 0) by (nonlinear_arith)
            requires
                q >= 0,
                p == 0x1000,
        ;
        assert((q + 1) * p == q * p + p) by (nonlinear_arith);
        assert(q * p + p <= PAGE_TOP as int) by (nonlinear_arith)
            requires
                q * p + xi % p <= PAGE_TOP as int,
                0 < xi % p < p,
                ((q + 1) * p) % p == 0,
                (q + 1) * p == q * p + p,
                p == 0x1000,
                PAGE_TOP as int % p == 0,
                q >= 0,
        ;
    }
}

/// Rounding up to a page boundary is monotone.
pub proof fn lemma_round_up_page_mono(x: u64, y: u64)
    requires
        x <= y,
    ensures
        spec_round_up_page(x) <= spec_round_up_page(y),
{
    lemma_round_up_page_props(x);
    lemma_round_up_page_props(y);
    if y > PAGE_TOP {
        // round(x) <= PAGE_TOP == round(y)
    } else {
        let rx = spec_round_up_page(x) as int;
        let ry = spec_round_up_page(y) as int;
        if rx > ry {
            // both are multiples of PAGE_SIZE, so they differ by a page,
            // which contradicts rx < x + PAGE_SIZE <= ry + PAGE_SIZE
            assert(rx - ry >= PAGE_SIZE as int) by (nonlinear_arith)
                requires
                    rx % (PAGE_SIZE as int) == 0,
                    ry % (PAGE_SIZE as int) == 0,
                    rx > ry,
                    ry >= 0,
                    PAGE_SIZE == 0x1000,
            ;
            assert(ry >= y >= x);
            assert(rx < x + PAGE_SIZE);
        }
    }
}

/// Round `x` up to the next page boundary, capped at the largest
/// page-aligned value.
pub fn round_up_page(x: u64) -> (r: u64)
    ensures
        r == spec_round_up_page(x),
{
    if x > PAGE_TOP {
        return PAGE_TOP;
    }
    let rem = x % PAGE_SIZE;
    if rem == 0 {
        x
    } else {
        proof {
            lemma_round_up_page_props(x);
            let p: int = PAGE_SIZE as int;
            let xi: int = x as int;
            let q = xi / p;
            assert(xi == q * p + xi % p && 0 <= xi % p < p) by (nonlinear_arith)
                requires
                    xi >= 0,
                    p == 0x1000,
                    q == xi / p,
            ;
            assert((q + 1) * p == q * p + p) by (nonlinear_arith);
        }
        x - rem + PAGE_SIZE
    }
}

/// A trace timestamp: whole seconds and a nanosecond remainder, as printed
/// in the trace text.
#[derive(Debug, Clone, Copy, PartialEq, Eq, Structural)]
pub struct Timestamp {
    /// Whole seconds.
    pub sec: u64,
    /// Nanosecond field (as parsed; not reduced modulo one second).
    pub nsec: u64,
}

impl Timestamp {
    /// The timestamp in nanoseconds, saturating at `u64::MAX`.
    pub open spec fn spec_nanos(self) -> u64 {
        if self.sec * 1_000_000_000 + self.nsec > u64::MAX {
            u64::MAX
        } else {
            (self.sec * 1_000_000_000 + self.nsec) as u64
        }
    }

    /// Convert to nanoseconds, saturating at `u64::MAX`.
    pub fn to_nanos(&self) -> (r: u64)
        ensures
            r == self.spec_nanos(),
    {
        if self.sec > u64::MAX / 1_000_000_000 {
            proof {
                assert(self.sec * 1_000_000_000 > u64::MAX) by (nonlinear_arith)
                    requires
                        self.sec > u64::MAX / 1_000_000_000,
                ;
            }
            u64::MAX
        } else {
            proof {
                assert(self.sec * 1_000_000_000 <= u64::MAX) by (nonlinear_arith)
                    requires
                        self.sec <= 18_446_744_073u64,
                ;
            }
            let base = self.sec * 1_000_000_000;
            if self.nsec > u64::MAX - base {
                u64::MAX
            } else {
                base + self.nsec
            }
        }
    }
}

/// One memory-mapping observed for the traced process. Consumed while
/// building the interval map and object table; not persisted.
#[derive(Debug, Clone, Copy, PartialEq, Eq, Structural)]
pub struct MMap {
    /// Interner handle of the mapped file's path.
    pub file: usize,
    /// File offset the mapping starts at.
    pub offset: u64,
    /// Virtual address the mapping starts at.
    pub addr: u64,
    /// Length of the mapping in bytes.
    pub len: u64,
}

/// One raw parsed sample, before address resolution.
#[derive(Debug, Clone, Copy, PartialEq, Eq, Structural)]
pub struct PerfEvent {
    /// Interner handle of the event-name field.
    pub name: usize,
    /// Interner handle of the symbol field.
    pub sym: usize,
    /// Interner handle of the address-symbol field.
    pub addr_sym: usize,
    /// Sampled virtual address.
    pub addr: u64,
    /// Instruction pointer.
    pub ip: u64,
    /// Timestamp of the sample.
    pub time: Timestamp,
    /// Thread id of the sampled thread.
    pub tid: u32,
}

/// One resolved event: a sample attributed to a mapped object.
#[derive(Debug, Clone, Copy, PartialEq, Eq, Structural)]
pub struct Event {
    /// Stable index of the owning object in the object table.
    pub obj_idx: usize,
    /// Resolved in-object offset.
    pub offset: u64,
    /// Whether the access was a write (not recovered from the trace text).
    pub was_write: bool,
    /// Event time in nanoseconds.
    pub time_ns: u64,
    /// Classified kind of the event.
    pub kind: EventKind,
    /// Interner handle of the event-name string.
    pub event_name: usize,
    /// Sampled virtual address.
    pub addr: u64,
    /// Instruction pointer.
    pub ip: u64,
    /// Thread id.
    pub tid: u32,
}

} // verus!
