//! The object table: a stable, index-addressable arena of per-object
//! aggregates. Slot indices stay valid across removals; a removed slot is a
//! tombstone (`None`).

use vstd::prelude::*;
use crate::perf::{PAGE_SIZE, spec_round_up_page, round_up_page, lemma_round_up_page_mono};

verus! {

/// Aggregate state of one mapped file object.
#[derive(Debug, Clone, Copy, PartialEq, Eq, Structural)]
pub struct Object {
    /// Handle of the object's file path in the interner.
    pub file: usize,
    /// Stable slot index of this object in the table.
    pub idx: usize,
    /// Map-record counter slot; carried at zero (no pass of the pipeline
    /// increments it).
    pub maps: usize,
    /// Number of events attributed to this object.
    pub faults: usize,
    /// Largest event offset seen (page-rounded up by finalization).
    pub biggest_offset: u64,
    /// Smallest event offset seen (page-rounded down by finalization).
    pub smallest_offset: u64,
    /// Whether presentation should show this object.
    pub show: bool,
}

/// The object a fresh slot holds: zeroed counters, `smallest_offset` at its
/// neutral maximum, visible.
pub open spec fn spec_new_object(file: usize, idx: usize) -> Object {
    Object {
        file,
        idx,
        maps: 0,
        faults: 0,
        biggest_offset: 0,
        smallest_offset: u64::MAX,
        show: true,
    }
}

/// Folding one event offset into an object: count it and widen the offset
/// bounds.
pub open spec fn spec_record_fault(o: Object, offset: u64) -> Object {
    Object {
        faults: (o.faults + 1) as usize,
        biggest_offset: if offset > o.biggest_offset {
            offset
        } else {
            o.biggest_offset
        },
        smallest_offset: if offset < o.smallest_offset {
            offset
        } else {
            o.smallest_offset
        },
        ..o
    }
}

/// Finalization of one surviving object: a zero `biggest_offset` counts as
/// one page, then the bound is rounded up to a page boundary, and
/// `smallest_offset` is rounded down to the preceding page boundary.
pub open spec fn spec_finalize_object(o: Object) -> Object {
    let big = if o.biggest_offset == 0 {
        PAGE_SIZE
    } else {
        o.biggest_offset
    };
    let big = spec_round_up_page(big);
    let small_up = spec_round_up_page(o.smallest_offset);
    let small = if small_up >= PAGE_SIZE {
        (small_up - PAGE_SIZE) as u64
    } else {
        0u64
    };
    Object { biggest_offset: big, smallest_offset: small, ..o }
}

/// Finalization of the whole table: objects with no recorded events are
/// removed; the rest get their offset bounds page-aligned.
pub open spec fn spec_finalize(slots: Seq<Option<Object>>) -> Seq<Option<Object>> {
    Seq::new(
        slots.len(),
        |i: int|
            match slots[i] {
                Some(o) => if o.faults == 0 {
                    None
                } else {
                    Some(spec_finalize_object(o))
                },
                None => None,
            },
    )
}

/// First slot holding an object for `file`, or `-1` when none does.
pub open spec fn spec_find_file(slots: Seq<Option<Object>>, file: usize) -> int
    decreases slots.len(),
{
    if slots.len() == 0 {
        -1
    } else if slots[0] matches Some(o) && o.file == file {
        0
    } else {
        let r = spec_find_file(slots.drop_first(), file);
        if r == -1 {
            -1
        } else {
            r + 1
        }
    }
}

/// `spec_find_file` returns either `-1` with no slot for `file`, or the
/// first slot index holding an object for `file`.
pub proof fn lemma_spec_find_file(slots: Seq<Option<Object>>, file: usize)
    ensures
        spec_find_file(slots, file) == -1 ==> forall|j: int|
            0 <= j < slots.len() ==> !((#[trigger] slots[j]) matches Some(o) && o.file == file),
        spec_find_file(slots, file) != -1 ==> {
            let r = spec_find_file(slots, file);
            &&& 0 <= r < slots.len()
            &&& slots[r] matches Some(o) && o.file == file
            &&& forall|j: int|
                0 <= j < r ==> !((#[trigger] slots[j]) matches Some(o) && o.file == file)
        },
    decreases slots.len(),
{
    if slots.len() > 0 {
        lemma_spec_find_file(slots.drop_first(), file);
        assert(forall|j: int| 1 <= j < slots.len() ==> slots[j] == slots.drop_first()[j - 1]);
    }
}

/// A stable, growable arena of objects with tombstoned removal.
#[derive(Debug)]
pub struct ObjectTable {
    slots: Vec<Option<Object>>,
}

impl View for ObjectTable {
    type V = Seq<Option<Object>>;

    closed spec fn view(&self) -> Seq<Option<Object>> {
        self.slots@
    }
}

impl ObjectTable {
    /// Every occupied slot records its own index.
    pub open spec fn wf(&self) -> bool {
        forall|i: int|
            0 <= i < self@.len() ==> ((#[trigger] self@[i]) matches Some(o) ==> o.idx == i)
    }

    /// An empty table.
    pub fn new() -> (r: Self)
        ensures
            r@ == Seq::<Option<Object>>::empty(),
    {
        ObjectTable { slots: Vec::new() }
    }

    /// Number of slots ever allocated (including tombstones).
    pub fn num_slots(&self) -> (r: usize)
        ensures
            r == self@.len(),
    {
        self.slots.len()
    }

    /// Number of live objects.
    pub fn num_elements(&self) -> (r: usize)
        ensures
            r == spec_count_live(self@),
    {
        let mut count: usize = 0;
        let mut i: usize = 0;
        proof {
            assert(self@.take(0) =~= Seq::<Option<Object>>::empty());
        }
        while i < self.slots.len()
            invariant
                0 <= i <= self@.len(),
                count == spec_count_live(self@.take(i as int)),
                count <= i,
            decreases self@.len() - i,
        {
            proof {
                assert(self@.take(i as int + 1).drop_last() =~= self@.take(i as int));
            }
            if self.slots[i].is_some() {
                count = count + 1;
            }
            i = i + 1;
        }
        proof {
            assert(self@.take(self@.len() as int) =~= self@);
        }
        count
    }

    /// A copy of the slot list.
    pub fn slots_vec(&self) -> (r: Vec<Option<Object>>)
        ensures
            r@ == self@,
    {
        let mut v: Vec<Option<Object>> = Vec::new();
        let mut i: usize = 0;
        proof {
            assert(v@ =~= self@.take(0));
        }
        while i < self.slots.len()
            invariant
                0 <= i <= self@.len(),
                v@ == self@.take(i as int),
            decreases self@.len() - i,
        {
            v.push(self.slots[i]);
            proof {
                assert(v@ =~= self@.take(i as int + 1));
            }
            i = i + 1;
        }
        proof {
            assert(self@.take(self@.len() as int) =~= self@);
        }
        v
    }

    /// The object in slot `idx`, if the slot exists and is live.
    pub fn get(&self, idx: usize) -> (r: Option<&Object>)
        ensures
            idx < self@.len() && self@[idx as int] is Some ==> (r matches Some(o) && Some(*o)
                == self@[idx as int]),
            !(idx < self@.len() && self@[idx as int] is Some) ==> r is None,
    {
        if idx < self.slots.len() {
            match &self.slots[idx] {
                Some(o) => Some(o),
                None => None,
            }
        } else {
            None
        }
    }

    /// First slot holding an object for `file`.
    pub fn find_by_file(&self, file: usize) -> (r: Option<usize>)
        ensures
            r matches Some(i) ==> i == spec_find_file(self@, file),
            r is None ==> spec_find_file(self@, file) == -1,
    {
        proof {
            lemma_spec_find_file(self@, file);
        }
        let mut i: usize = 0;
        while i < self.slots.len()
            invariant
                0 <= i <= self@.len(),
                forall|j: int|
                    0 <= j < i ==> !((#[trigger] self@[j]) matches Some(o) && o.file == file),
                spec_find_file(self@, file) == -1 || spec_find_file(self@, file) >= i,
            decreases self@.len() - i,
        {
            proof {
                lemma_spec_find_file(self@, file);
            }
            match &self.slots[i] {
                Some(o) => {
                    if o.file == file {
                        return Some(i);
                    }
                },
                None => {},
            }
            i = i + 1;
        }
        None
    }

    /// Allocate a fresh slot holding a new object for `file`; returns the
    /// slot's stable index.
    pub fn push_new(&mut self, file: usize) -> (idx: usize)
        ensures
            idx == old(self)@.len(),
            final(self)@ == old(self)@.push(Some(spec_new_object(file, idx))),
    {
        let idx = self.slots.len();
        self.slots.push(
            Some(
                Object {
                    file,
                    idx,
                    maps: 0,
                    faults: 0,
                    biggest_offset: 0,
                    smallest_offset: u64::MAX,
                    show: true,
                },
            ),
        );
        idx
    }

    /// Fold one event offset into the object in slot `idx`.
    pub fn record_fault(&mut self, idx: usize, offset: u64)
        requires
            idx < old(self)@.len(),
            old(self)@[idx as int] matches Some(o) && o.faults < usize::MAX,
        ensures
            final(self)@ == old(self)@.update(
                idx as int,
                Some(spec_record_fault(old(self)@[idx as int]->Some_0, offset)),
            ),
    {
        let o = self.slots[idx].unwrap();
        let updated = Object {
            faults: o.faults + 1,
            biggest_offset: if offset > o.biggest_offset {
                offset
            } else {
                o.biggest_offset
            },
            smallest_offset: if offset < o.smallest_offset {
                offset
            } else {
                o.smallest_offset
            },
            ..o
        };
        self.slots.set(idx, Some(updated));
    }

    /// Finalize the table: drop objects with no events and page-align the
    /// offset bounds of the rest.
    pub fn finalize(&mut self)
        ensures
            final(self)@ == spec_finalize(old(self)@),
    {
        let n = self.slots.len();
        let mut i: usize = 0;
        while i < n
            invariant
                0 <= i <= n == self@.len(),
                self@.len() == old(self)@.len(),
                forall|j: int| i <= j < n ==> self@[j] == old(self)@[j],
                forall|j: int| 0 <= j < i ==> self@[j] == spec_finalize(old(self)@)[j],
            decreases n - i,
        {
            match &self.slots[i] {
                Some(o) => {
                    if o.faults == 0 {
                        self.slots.set(i, None);
                    } else {
                        let big0 = if o.biggest_offset == 0 {
                            PAGE_SIZE
                        } else {
                            o.biggest_offset
                        };
                        let big = round_up_page(big0);
                        let small_up = round_up_page(o.smallest_offset);
                        let small = if small_up >= PAGE_SIZE {
                            small_up - PAGE_SIZE
                        } else {
                            0u64
                        };
                        let updated = Object {
                            biggest_offset: big,
                            smallest_offset: small,
                            ..*o
                        };
                        self.slots.set(i, Some(updated));
                    }
                },
                None => {},
            }
            i = i + 1;
        }
        proof {
            assert(final(self)@ =~= spec_finalize(old(self)@));
        }
    }
}

/// Number of live slots.
pub open spec fn spec_count_live(slots: Seq<Option<Object>>) -> nat
    decreases slots.len(),
{
    if slots.len() == 0 {
        0
    } else {
        spec_count_live(slots.drop_last()) + if slots.last() is Some {
            1nat
        } else {
            0nat
        }
    }
}

/// Every object surviving finalization has recorded at least one event and
/// page-aligned offset bounds with `smallest_offset <= biggest_offset`.
pub proof fn lemma_finalized_objects(slots: Seq<Option<Object>>)
    requires
        forall|i: int|
            0 <= i < slots.len() ==> ((#[trigger] slots[i]) matches Some(o) ==> o.smallest_offset
                <= o.biggest_offset || o.faults == 0),
    ensures
        forall|i: int|
            0 <= i < slots.len() ==> ((#[trigger] spec_finalize(slots)[i]) matches Some(o) ==> {
                &&& o.faults > 0
                &&& o.biggest_offset % PAGE_SIZE == 0
                &&& o.smallest_offset % PAGE_SIZE == 0
                &&& o.smallest_offset <= o.biggest_offset
            }),
{
    assert forall|i: int|
        0 <= i < slots.len() && (#[trigger] spec_finalize(slots)[i]) is Some implies {
        let o = spec_finalize(slots)[i]->Some_0;
        &&& o.faults > 0
        &&& o.biggest_offset % PAGE_SIZE == 0
        &&& o.smallest_offset % PAGE_SIZE == 0
        &&& o.smallest_offset <= o.biggest_offset
    } by {
        let orig = slots[i]->Some_0;
        let big0 = if orig.biggest_offset == 0 {
            PAGE_SIZE
        } else {
            orig.biggest_offset
        };
        lemma_round_up_page_mono(orig.smallest_offset, big0);
    }
}

} // verus!
