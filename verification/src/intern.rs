//! Interning of names: each distinct name gets an index, in the order in which it is first
//! interned, and the index gives the name back.

use vstd::prelude::*;
use crate::ir::strs_view;

verus! {

/// A table of distinct names; a name's index is its position in the table.
pub struct Interner {
    strings: Vec<String>,
}

impl View for Interner {
    type V = Seq<Seq<char>>;

    closed spec fn view(&self) -> Seq<Seq<char>> {
        strs_view(self.strings@)
    }
}

/// Whether no name occurs twice in `names`.
pub open spec fn distinct_names(names: Seq<Seq<char>>) -> bool {
    forall|i: int, j: int| 0 <= i < j < names.len() ==> names[i] != names[j]
}

impl Interner {
    /// No name occurs twice, and every index fits in 32 bits.
    pub open spec fn wf(&self) -> bool {
        distinct_names(self@) && self@.len() <= u32::MAX
    }

    /// An empty table.
    pub fn new() -> (r: Interner)
        ensures
            r@ == Seq::<Seq<char>>::empty(),
            r.wf(),
    {
        let r = Interner { strings: Vec::new() };
        proof {
            assert(r@ =~= Seq::<Seq<char>>::empty());
        }
        r
    }

    /// The number of names in the table.
    pub fn len(&self) -> (r: usize)
        ensures
            r == self@.len(),
    {
        self.strings.len()
    }

    /// The index of `data`: its index in the table when it is there, else the next index,
    /// under which it is added.
    pub fn intern(&mut self, data: &str) -> (r: u32)
        requires
            old(self).wf(),
            old(self)@.len() < u32::MAX,
        ensures
            final(self).wf(),
            r < final(self)@.len(),
            final(self)@[r as int] == data@,
            old(self)@.contains(data@) ==> final(self)@ == old(self)@,
            !old(self)@.contains(data@) ==> final(self)@ == old(self)@.push(data@),
    {
        let key = data.to_owned();
        let mut i: usize = 0;
        while i < self.strings.len()
            invariant
                i <= self.strings@.len(),
                self.wf(),
                self@.len() < u32::MAX,
                self@ == old(self)@,
                key@ == data@,
                forall|k: int| 0 <= k < i ==> self@[k] != data@,
            decreases self.strings@.len() - i,
        {
            if self.strings[i] == key {
                proof {
                    assert(self@[i as int] == self.strings@[i as int]@);
                }
                return i as u32;
            }
            proof {
                assert(self@[i as int] == self.strings@[i as int]@);
            }
            i = i + 1;
        }
        let ghost before = self@;
        proof {
            assert(!before.contains(data@));
        }
        let r = self.strings.len() as u32;
        self.strings.push(key);
        proof {
            assert(self@ =~= before.push(data@));
        }
        r
    }

    /// The name of index `idx`.
    pub fn untern(&self, idx: u32) -> (r: &str)
        requires
            idx < self@.len(),
        ensures
            r@ == self@[idx as int],
    {
        self.strings[idx as usize].as_str()
    }
}

/// The tables of origin, loan, point, variable and path names.
pub struct InternerTables {
    pub origins: Interner,
    pub loans: Interner,
    pub points: Interner,
    pub variables: Interner,
    pub paths: Interner,
}

impl InternerTables {
    /// Every table is well formed.
    pub open spec fn wf(&self) -> bool {
        &&& self.origins.wf()
        &&& self.loans.wf()
        &&& self.points.wf()
        &&& self.variables.wf()
        &&& self.paths.wf()
    }

    /// Empty tables.
    pub fn new() -> (r: InternerTables)
        ensures
            r.wf(),
            r.origins@.len() == 0,
            r.loans@.len() == 0,
            r.points@.len() == 0,
            r.variables@.len() == 0,
            r.paths@.len() == 0,
    {
        InternerTables {
            origins: Interner::new(),
            loans: Interner::new(),
            points: Interner::new(),
            variables: Interner::new(),
            paths: Interner::new(),
        }
    }
}

/// A name has one index: two indices of a table that give the same name are the same index.
/// So interning a name that was interned before gives back the index it got then.
pub proof fn lemma_index_unique(t: Interner, i: u32, j: u32)
    requires
        t.wf(),
        i < t@.len(),
        j < t@.len(),
        t@[i as int] == t@[j as int],
    ensures
        i == j,
{
    if i < j {
        assert(t@[i as int] != t@[j as int]);
    } else if j < i {
        assert(t@[j as int] != t@[i as int]);
    }
}

} // verus!
