//! String interning: one small integer handle per distinct byte string.

use vstd::prelude::*;
use crate::textutil::bytes_eq;

verus! {

/// First index of `s` in `strs`, or `-1` when absent.
pub open spec fn spec_find(strs: Seq<Seq<u8>>, s: Seq<u8>) -> int
    decreases strs.len(),
{
    if strs.len() == 0 {
        -1
    } else if strs[0] == s {
        0
    } else {
        let r = spec_find(strs.drop_first(), s);
        if r == -1 {
            -1
        } else {
            r + 1
        }
    }
}

/// `spec_find` returns either `-1` with no occurrence of `s`, or the first
/// index holding `s`.
pub proof fn lemma_spec_find(strs: Seq<Seq<u8>>, s: Seq<u8>)
    ensures
        spec_find(strs, s) == -1 ==> forall|j: int| 0 <= j < strs.len() ==> strs[j] != s,
        spec_find(strs, s) != -1 ==> {
            let r = spec_find(strs, s);
            &&& 0 <= r < strs.len()
            &&& strs[r] == s
            &&& forall|j: int| 0 <= j < r ==> strs[j] != s
        },
    decreases strs.len(),
{
    if strs.len() > 0 {
        lemma_spec_find(strs.drop_first(), s);
        if strs[0] != s {
            assert(forall|j: int| 1 <= j < strs.len() ==> strs[j] == strs.drop_first()[j - 1]);
        }
    }
}

/// The interning step: the handle of `s` in `strs`, together with the table
/// after interning `s` (unchanged if present, extended by `s` if not).
pub open spec fn spec_intern(strs: Seq<Seq<u8>>, s: Seq<u8>) -> (Seq<Seq<u8>>, int) {
    let r = spec_find(strs, s);
    if r == -1 {
        (strs.push(s), strs.len() as int)
    } else {
        (strs, r)
    }
}

/// Deduplicating store of byte strings. A handle is an index into the table;
/// interning an already-present string returns its existing handle.
#[derive(Debug)]
pub struct Interner {
    strs: Vec<Vec<u8>>,
}

impl Interner {
    /// The interned strings, by handle.
    pub closed spec fn strings(&self) -> Seq<Seq<u8>> {
        self.strs.deep_view()
    }

    /// An empty interner.
    pub fn new() -> (r: Self)
        ensures
            r.strings() == Seq::<Seq<u8>>::empty(),
    {
        let r = Interner { strs: Vec::new() };
        proof {
            assert(r.strings() =~= Seq::<Seq<u8>>::empty());
        }
        r
    }

    /// Number of interned strings.
    pub fn len(&self) -> (r: usize)
        ensures
            r == self.strings().len(),
    {
        self.strs.len()
    }

    /// Intern `s`: return its existing handle, or store it under the next
    /// fresh handle. Equal strings always receive equal handles.
    pub fn get_or_intern(&mut self, s: &Vec<u8>) -> (h: usize)
        ensures
            (final(self).strings(), h as int) == spec_intern(old(self).strings(), s@),
            h < final(self).strings().len(),
            final(self).strings()[h as int] == s@,
    {
        proof {
            lemma_spec_find(old(self).strings(), s@);
        }
        let n = self.strs.len();
        let mut i: usize = 0;
        while i < n
            invariant
                0 <= i <= n == self.strings().len(),
                forall|j: int| 0 <= j < i ==> self.strings()[j] != s@,
                spec_find(self.strings(), s@) == -1 || spec_find(self.strings(), s@) >= i,
            decreases n - i,
        {
            if bytes_eq(&self.strs[i], s) {
                proof {
                    assert(self.strings()[i as int] == self.strs@[i as int].deep_view());
                    assert(self.strs@[i as int].deep_view() =~= self.strs@[i as int]@);
                    lemma_spec_find(self.strings(), s@);
                }
                return i;
            }
            proof {
                assert(self.strings()[i as int] == self.strs@[i as int].deep_view());
                assert(self.strs@[i as int].deep_view() =~= self.strs@[i as int]@);
                lemma_spec_find(self.strings(), s@);
            }
            i = i + 1;
        }
        let ghost prev = self.strings();
        let copy = crate::textutil::subvec(s, 0, s.len());
        proof {
            assert(s@.subrange(0, s@.len() as int) =~= s@);
        }
        self.strs.push(copy);
        proof {
            assert(self.strings() =~~= prev.push(s@));
        }
        n
    }

    /// A copy of the string table, by handle.
    pub fn strings_vec(&self) -> (r: Vec<Vec<u8>>)
        ensures
            r.deep_view() == self.strings(),
    {
        let mut v: Vec<Vec<u8>> = Vec::new();
        let mut i: usize = 0;
        proof {
            assert(v.deep_view() =~= self.strings().take(0));
        }
        while i < self.strs.len()
            invariant
                0 <= i <= self.strings().len(),
                v.deep_view() == self.strings().take(i as int),
            decreases self.strings().len() - i,
        {
            let s = &self.strs[i];
            let copy = crate::textutil::subvec(s, 0, s.len());
            proof {
                assert(s@.subrange(0, s@.len() as int) =~= s@);
            }
            let ghost prev = v.deep_view();
            v.push(copy);
            proof {
                assert(self.strings()[i as int] == self.strs@[i as int].deep_view());
                assert(self.strs@[i as int].deep_view() =~= self.strs@[i as int]@);
                assert(v.deep_view() =~~= prev.push(self.strs@[i as int]@));
                assert(v.deep_view() =~= self.strings().take(i as int + 1));
            }
            i = i + 1;
        }
        proof {
            assert(self.strings().take(self.strings().len() as int) =~= self.strings());
        }
        v
    }

    /// Resolve a handle to its string; `None` for a handle never issued.
    pub fn resolve(&self, h: usize) -> (r: Option<&Vec<u8>>)
        ensures
            h < self.strings().len() ==> (r matches Some(v) && v@ == self.strings()[h as int]),
            h >= self.strings().len() ==> r is None,
    {
        if h < self.strs.len() {
            proof {
                assert(self.strings()[h as int] =~= self.strs@[h as int]@);
            }
            Some(&self.strs[h])
        } else {
            None
        }
    }
}

} // verus!
