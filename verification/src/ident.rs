//! The identifier interner: an append-only deduplicating store whose
//! handles compare in constant time.

use vstd::prelude::*;

verus! {

/// A deduplicated identifier handle. Two handles issued by one cache are
/// equal exactly when the spellings they denote are equal, so equality
/// and hashing need no string comparison.
#[derive(Debug, Clone, Copy, PartialEq, Eq, Hash, Structural)]
pub struct IdentName {
    pub id: usize,
}

/// No spelling occurs twice in the store.
pub open spec fn distinct_strings(strings: Seq<Seq<char>>) -> bool {
    forall|i: int, j: int| 0 <= i < j < strings.len() ==> strings[i] != strings[j]
}

/// The append-only deduplicating store behind identifier handles.
pub struct IdentCache {
    names: Vec<String>,
}

impl IdentCache {
    /// The spellings interned so far, in insertion order.
    pub closed spec fn strings(&self) -> Seq<Seq<char>> {
        self.names@.map_values(|n: String| n@)
    }

    /// Interned spellings are pairwise distinct.
    pub open spec fn wf(&self) -> bool {
        distinct_strings(self.strings())
    }

    pub fn new() -> (c: IdentCache)
        ensures
            c.wf(),
            c.strings() == Seq::<Seq<char>>::empty(),
    {
        let c = IdentCache { names: Vec::new() };
        proof {
            assert(c.strings() =~= Seq::<Seq<char>>::empty());
        }
        c
    }

    /// Interns a spelling. Equal content yields an equal handle; different
    /// content yields a distinct handle. The store only grows, and a handle
    /// once issued keeps denoting the same spelling forever.
    pub fn new_ident_name(&mut self, s: &str) -> (h: IdentName)
        requires
            old(self).wf(),
        ensures
            final(self).wf(),
            h.id < final(self).strings().len(),
            final(self).strings()[h.id as int] == s@,
            old(self).strings().contains(s@) ==> final(self).strings() == old(self).strings(),
            !old(self).strings().contains(s@) ==> final(self).strings() == old(
                self,
            ).strings().push(s@),
            forall|i: int|
                0 <= i < old(self).strings().len() ==> final(self).strings()[i] == old(
                    self,
                ).strings()[i],
    {
        let owned: String = s.to_owned();
        let n = self.names.len();
        let mut i: usize = 0;
        while i < n
            invariant
                n == self.names@.len(),
                i <= n,
                owned@ == s@,
                forall|k: int| 0 <= k < i ==> self.strings()[k] != s@,
                self == old(self),
                old(self).wf(),
            decreases n - i,
        {
            if self.names[i] == owned {
                proof {
                    assert(self.strings()[i as int] == s@);
                    assert(self.strings().contains(s@));
                }
                return IdentName { id: i };
            }
            proof {
                assert(self.strings()[i as int] == self.names@[i as int]@);
            }
            i = i + 1;
        }
        proof {
            assert(!self.strings().contains(s@)) by {
                if self.strings().contains(s@) {
                    let w = choose|w: int|
                        0 <= w < self.strings().len() && self.strings()[w] == s@;
                    assert(self.strings()[w] != s@);
                }
            }
        }
        let ghost before = self.strings();
        self.names.push(owned);
        proof {
            assert(self.strings() =~= before.push(s@));
        }
        IdentName { id: n }
    }
}

/// Law: for a store without duplicate spellings, two handles into it are
/// equal exactly when the spellings they denote are equal. Handles issued
/// by `IdentCache::new_ident_name` always index such a store.
pub proof fn lemma_handle_eq_iff_string_eq(strings: Seq<Seq<char>>, a: IdentName, b: IdentName)
    requires
        distinct_strings(strings),
        a.id < strings.len(),
        b.id < strings.len(),
    ensures
        a == b <==> strings[a.id as int] == strings[b.id as int],
{
    if a.id < b.id {
        assert(strings[a.id as int] != strings[b.id as int]);
    } else if b.id < a.id {
        assert(strings[b.id as int] != strings[a.id as int]);
    }
}

} // verus!
