//! Address resolution: a non-overlapping interval map from virtual address
//! ranges to the mapped object and map placement, backed by
//! `nonoverlapping_interval_tree`.
//!
//! The tree is modelled exactly as its backing ordered map from range start
//! to range end and value; the trusted items below state what the crate's
//! `new`, `insert` and `get` do over that model.

use vstd::prelude::*;
use crate::perf::{MMap, spec_page_mask, page_mask};
use nonoverlapping_interval_tree::NonOverlappingIntervalTree;

verus! {

/// Value stored for one mapped range: the owning object's stable index, the
/// range's start address, and the file offset the mapping starts at.
pub type RangeVal = (usize, u64, u64);

#[verifier::external_type_specification]
#[verifier::external_body]
#[verifier::reject_recursive_types(K)]
#[verifier::reject_recursive_types(V)]
pub struct ExNonOverlappingIntervalTree<K, V>(NonOverlappingIntervalTree<K, V>);

/// What the interval tree holds: its backing ordered map, keyed by range
/// start, each entry holding the range end and the stored value.
pub uninterp spec fn tree_entries(t: NonOverlappingIntervalTree<u64, RangeVal>) -> Map<
    u64,
    (u64, RangeVal),
>;

/// `s` is the greatest key of `m` strictly below `p`.
pub open spec fn is_max_below(m: Map<u64, (u64, RangeVal)>, p: u64, s: u64) -> bool {
    m.contains_key(s) && s < p && (forall|t: u64| m.contains_key(t) && t < p ==> t <= s)
}

/// What the tree's point query returns over the model: the value stored
/// under the exact key, or else the value of the greatest key below the
/// point when the point lies before that entry's range end.
pub open spec fn spec_tree_get(m: Map<u64, (u64, RangeVal)>, p: u64) -> Option<RangeVal> {
    if m.contains_key(p) {
        Some(m[p].1)
    } else {
        let s = choose|s: u64| is_max_below(m, p, s);
        if is_max_below(m, p, s) && p < m[s].0 {
            Some(m[s].1)
        } else {
            None
        }
    }
}

/// The empty model.
pub open spec fn empty_entries() -> Map<u64, (u64, RangeVal)> {
    Map::empty()
}

/// Relies on `NonOverlappingIntervalTree::new`: the tree starts with an
/// empty backing map.
#[verifier::external_body]
fn tree_new() -> (r: NonOverlappingIntervalTree<u64, RangeVal>)
    ensures
        tree_entries(r) == empty_entries(),
{
    NonOverlappingIntervalTree::new()
}

/// Relies on `NonOverlappingIntervalTree::insert`: it stores the value under
/// the range's start key in the backing `BTreeMap`, replacing any entry with
/// that exact start.
#[verifier::external_body]
fn tree_insert(t: &mut NonOverlappingIntervalTree<u64, RangeVal>, start: u64, end: u64, val: RangeVal)
    ensures
        tree_entries(*final(t)) == tree_entries(*old(t)).insert(start, (end, val)),
{
    t.insert(start..end, val);
}

/// Relies on `NonOverlappingIntervalTree::get`: it returns the value stored
/// under the exact key if present, and otherwise checks only the entry with
/// the greatest key below the point, returning its value when the point is
/// before that entry's range end.
#[verifier::external_body]
fn tree_get(t: &NonOverlappingIntervalTree<u64, RangeVal>, point: u64) -> (r: Option<RangeVal>)
    ensures
        r == spec_tree_get(tree_entries(*t), point),
{
    t.get(&point).copied()
}

/// The outcome of resolving a sampled address against the model `m`: the
/// address's page base is looked up; on a hit, the in-object offset is the
/// distance from the range's recorded start plus the mapping's file offset.
/// A zero page base, a miss, or an offset overflowing `u64` resolves to
/// `None` (the sample is dropped).
pub open spec fn spec_resolve(m: Map<u64, (u64, RangeVal)>, addr: u64) -> Option<(usize, u64)> {
    let page = spec_page_mask(addr);
    if page == 0 {
        None
    } else {
        match spec_tree_get(m, page) {
            Some(v) => if v.1 <= addr && addr - v.1 + v.2 <= u64::MAX {
                Some((v.0, (addr - v.1 + v.2) as u64))
            } else {
                None
            },
            None => None,
        }
    }
}

/// The interval map built from memory-map records, resolving sampled
/// addresses to `(object index, in-object offset)` pairs.
pub struct AddrMap {
    tree: NonOverlappingIntervalTree<u64, RangeVal>,
}

impl AddrMap {
    /// The model: range start to range end and stored value.
    pub closed spec fn entries(&self) -> Map<u64, (u64, RangeVal)> {
        tree_entries(self.tree)
    }

    /// Every stored value records its own range start.
    pub open spec fn wf(&self) -> bool {
        forall|s: u64|
            self.entries().contains_key(s) ==> (#[trigger] self.entries()[s]).1.1 == s
    }

    /// An empty interval map.
    pub fn new() -> (r: Self)
        ensures
            r.entries() == empty_entries(),
            r.wf(),
    {
        AddrMap { tree: tree_new() }
    }

    /// Insert the range `[m.addr, m.addr + m.len)` (end saturating at
    /// `u64::MAX`), tagged with the owning object's index and the mapping's
    /// placement.
    pub fn insert_map(&mut self, m: &MMap, obj_idx: usize)
        requires
            old(self).wf(),
        ensures
            final(self).entries() == old(self).entries().insert(
                m.addr,
                (spec_map_end(*m), (obj_idx, m.addr, m.offset)),
            ),
            final(self).wf(),
    {
        let end = if m.len > u64::MAX - m.addr {
            u64::MAX
        } else {
            m.addr + m.len
        };
        tree_insert(&mut self.tree, m.addr, end, (obj_idx, m.addr, m.offset));
    }

    /// Resolve a sampled address: mask it to its page base, query the tree,
    /// and compute the in-object offset. `None` means the sample is dropped
    /// (untracked address), not an error.
    pub fn lookup(&self, addr: u64) -> (r: Option<(usize, u64)>)
        requires
            self.wf(),
        ensures
            r == spec_resolve(self.entries(), addr),
    {
        let page = page_mask(addr);
        if page == 0 {
            return None;
        }
        match tree_get(&self.tree, page) {
            Some(v) => {
                proof {
                    let m = self.entries();
                    if m.contains_key(page) {
                        assert(m[page].1.1 == page);
                    } else {
                        let s = choose|s: u64| is_max_below(m, page, s);
                        assert(is_max_below(m, page, s));
                        assert(m[s].1.1 == s);
                    }
                    assert(v.1 <= addr);
                }
                let diff = addr - v.1;
                if v.2 <= u64::MAX - diff {
                    Some((v.0, diff + v.2))
                } else {
                    None
                }
            },
            None => None,
        }
    }
}

/// End of the range a map record covers: `addr + len`, saturating at
/// `u64::MAX`.
pub open spec fn spec_map_end(m: MMap) -> u64 {
    if m.addr + m.len > u64::MAX {
        u64::MAX
    } else {
        (m.addr + m.len) as u64
    }
}

/// A model holds page-aligned, pairwise-disjoint, nonempty ranges that
/// record their own starts.
pub open spec fn disjoint_page_ranges(m: Map<u64, (u64, RangeVal)>) -> bool {
    &&& forall|s: u64|
        m.contains_key(s) ==> ((#[trigger] m[s]).1.1 == s && s % crate::perf::PAGE_SIZE == 0
            && m[s].0 % crate::perf::PAGE_SIZE == 0 && m[s].0 > s)
    &&& forall|s1: u64, s2: u64|
        m.contains_key(s1) && m.contains_key(s2) && s1 != s2 ==> ((#[trigger] m[s1]).0 <= s2 || (
        #[trigger] m[s2]).0 <= s1)
}

/// Resolution law, hit side: over page-aligned disjoint ranges, a sampled
/// address inside the range starting at `s0` (itself at least one page up)
/// resolves to that range's object and to the offset
/// `addr - s0 + file_offset`.
pub proof fn lemma_resolve_hit(m: Map<u64, (u64, RangeVal)>, addr: u64, s0: u64)
    requires
        disjoint_page_ranges(m),
        m.contains_key(s0),
        s0 >= crate::perf::PAGE_SIZE,
        s0 <= addr < m[s0].0,
        addr - s0 + m[s0].1.2 <= u64::MAX,
    ensures
        spec_resolve(m, addr) == Some((m[s0].1.0, (addr - s0 + m[s0].1.2) as u64)),
{
    let page = spec_page_mask(addr);
    assert((addr & 0xFFFF_FFFF_FFFF_F000u64) <= addr) by (bit_vector);
    assert((addr & 0xFFFF_FFFF_FFFF_F000u64) % 0x1000 == 0) by (bit_vector);
    assert(s0 <= (addr & 0xFFFF_FFFF_FFFF_F000u64)) by (bit_vector)
        requires
            s0 % 0x1000 == 0,
            s0 <= addr,
    ;
    assert(page != 0);
    if m.contains_key(page) {
        // the range starting at the page base must be the range of s0
        if page != s0 {
            assert(m[page].0 <= s0 || m[s0].0 <= page);
            assert(m[page].0 > page);
            assert(false);
        }
    } else {
        assert(is_max_below(m, page, s0)) by {
            assert forall|t: u64| m.contains_key(t) && t < page implies t <= s0 by {
                if t > s0 {
                    assert(m[s0].0 <= t || m[t].0 <= s0);
                }
            }
        }
        let s = choose|s: u64| is_max_below(m, page, s);
        assert(is_max_below(m, page, s));
        assert(s == s0) by {
            assert(s <= s0 && s0 <= s);
        }
        assert(page < m[s0].0);
    }
}

/// Resolution law, miss side: over page-aligned disjoint ranges, a sampled
/// address inside no range resolves to nothing (the sample is dropped).
pub proof fn lemma_resolve_miss(m: Map<u64, (u64, RangeVal)>, addr: u64)
    requires
        disjoint_page_ranges(m),
        forall|s: u64| m.contains_key(s) ==> !(s <= addr < (#[trigger] m[s]).0),
    ensures
        spec_resolve(m, addr) is None,
{
    let page = spec_page_mask(addr);
    if page != 0 {
        assert((addr & 0xFFFF_FFFF_FFFF_F000u64) <= addr) by (bit_vector);
        assert((addr & 0xFFFF_FFFF_FFFF_F000u64) % 0x1000 == 0) by (bit_vector);
        assert(addr < (addr & 0xFFFF_FFFF_FFFF_F000u64) + 0x1000) by (bit_vector);
        if m.contains_key(page) {
            // an aligned range end above the page base lies above the address
            assert(m[page].0 > page && m[page].0 % crate::perf::PAGE_SIZE == 0);
            assert(m[page].0 >= page + crate::perf::PAGE_SIZE) by (nonlinear_arith)
                requires
                    m[page].0 > page,
                    m[page].0 % crate::perf::PAGE_SIZE as u64 == 0,
                    page % crate::perf::PAGE_SIZE as u64 == 0,
                    crate::perf::PAGE_SIZE == 0x1000,
            ;
            assert(page <= addr < m[page].0);
            assert(false);
        } else {
            let s = choose|s: u64| is_max_below(m, page, s);
            if is_max_below(m, page, s) && page < m[s].0 {
                assert(m[s].0 > page && m[s].0 % crate::perf::PAGE_SIZE == 0);
                assert(m[s].0 >= page + crate::perf::PAGE_SIZE) by (nonlinear_arith)
                    requires
                        m[s].0 > page,
                        m[s].0 % crate::perf::PAGE_SIZE as u64 == 0,
                        page % crate::perf::PAGE_SIZE as u64 == 0,
                        crate::perf::PAGE_SIZE == 0x1000,
                ;
                assert(s <= addr < m[s].0);
                assert(false);
            }
        }
    }
}

} // verus!
