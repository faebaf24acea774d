//! Classification of trace events.

use vstd::prelude::*;

verus! {

/// The kind of one recorded event. `CacheMiss` and `Unknown` count as
/// "misses" for downstream filtering; everything else is a "fault".
#[derive(Debug, Clone, Copy, PartialEq, Eq, Structural)]
pub enum EventKind {
    Unknown,
    MajorFault,
    MinorFault,
    CacheMiss,
}

impl EventKind {
    /// Whether this kind counts on the cache-miss side.
    pub open spec fn spec_is_miss(self) -> bool {
        self == EventKind::CacheMiss || self == EventKind::Unknown
    }

    /// Whether this kind is counted on the cache-miss side.
    pub fn is_miss(&self) -> (r: bool)
        ensures
            r == self.spec_is_miss(),
    {
        matches!(self, EventKind::CacheMiss) || matches!(self, EventKind::Unknown)
    }

    /// Whether this kind is counted on the fault side.
    pub fn is_fault(&self) -> (r: bool)
        ensures
            r == !self.spec_is_miss(),
            r == (*self == EventKind::MajorFault || *self == EventKind::MinorFault),
    {
        !self.is_miss()
    }

    /// Spec-level numeric encoding used by the binary record format.
    pub open spec fn spec_code(self) -> u32 {
        match self {
            EventKind::MajorFault => 1,
            EventKind::MinorFault => 2,
            EventKind::CacheMiss => 3,
            EventKind::Unknown => 0,
        }
    }

    /// Numeric encoding used by the binary record format.
    pub fn code(&self) -> (r: u32)
        ensures
            r == self.spec_code(),
    {
        match self {
            EventKind::MajorFault => 1,
            EventKind::MinorFault => 2,
            EventKind::CacheMiss => 3,
            EventKind::Unknown => 0,
        }
    }

    /// Spec-level decoding of the numeric encoding; codes outside the three
    /// named kinds decode to `Unknown`.
    pub open spec fn spec_from_code(value: u32) -> EventKind {
        match value {
            1u32 => EventKind::MajorFault,
            2u32 => EventKind::MinorFault,
            3u32 => EventKind::CacheMiss,
            _ => EventKind::Unknown,
        }
    }

    /// Decode the numeric encoding of the binary record format.
    pub fn from_code(value: u32) -> (r: EventKind)
        ensures
            r == EventKind::spec_from_code(value),
    {
        match value {
            1u32 => EventKind::MajorFault,
            2u32 => EventKind::MinorFault,
            3u32 => EventKind::CacheMiss,
            _ => EventKind::Unknown,
        }
    }

    /// Short display label for this kind.
    pub fn label(&self) -> (r: &'static str)
        ensures
            *self == EventKind::MajorFault ==> r@ == "major-fault"@,
            *self == EventKind::MinorFault ==> r@ == "minor-fault"@,
            *self == EventKind::CacheMiss ==> r@ == "cache-miss"@,
            *self == EventKind::Unknown ==> r@ == "unknown"@,
    {
        match self {
            EventKind::MajorFault => "major-fault",
            EventKind::MinorFault => "minor-fault",
            EventKind::CacheMiss => "cache-miss",
            EventKind::Unknown => "unknown",
        }
    }
}

/// Round trip: re-encoding a decoded kind gives back every code that names
/// one of the three concrete kinds, and decoding an encoded kind gives back
/// the kind itself.
pub proof fn lemma_kind_code_round_trip(k: EventKind, value: u32)
    ensures
        EventKind::spec_from_code(k.spec_code()) == k,
        value <= 3 ==> EventKind::spec_from_code(value).spec_code() == value,
{
}

} // verus!
