//! The fleet of logical databases, addressed by index.
use vstd::prelude::*;
use crate::reply::OutputValue;
use crate::store::{KeyMap, Stored};

verus! {

broadcast use vstd::std_specs::vec::group_vec_axioms, vstd::seq::group_seq_axioms, vstd::slice::group_slice_axioms;

/// A fixed number of independent databases.
#[derive(Debug)]
pub struct Database {
    db: Vec<KeyMap>,
}

/// `s` with the entries at `i` and `j` exchanged.
pub open spec fn swapped<T>(s: Seq<T>, i: int, j: int) -> Seq<T> {
    s.update(i, s[j]).update(j, s[i])
}

impl Database {
    /// The databases, in index order.
    pub closed spec fn maps(&self) -> Seq<KeyMap> {
        self.db@
    }

    /// The contents of each database, in index order.
    pub open spec fn view(&self) -> Seq<Map<Seq<u8>, Stored>> {
        self.maps().map_values(|m: KeyMap| m@)
    }

    /// Every database is well formed.
    pub open spec fn wf(&self) -> bool {
        forall|i: int| 0 <= i < self.maps().len() ==> (#[trigger] self.maps()[i]).wf()
    }

    /// `n` empty databases.
    pub fn new(db_count: usize) -> (r: Database)
        ensures
            r.wf(),
            r.maps().len() == db_count,
            forall|i: int| 0 <= i < db_count ==> (#[trigger] r.maps()[i])@ == Map::<Seq<u8>, Stored>::empty(),
    {
        let mut db: Vec<KeyMap> = Vec::new();
        let mut k: usize = 0;
        while k < db_count
            invariant
                k <= db_count,
                db@.len() == k,
                forall|i: int| 0 <= i < k ==> (#[trigger] db@[i]).wf() && db@[i]@ == Map::<Seq<u8>, Stored>::empty(),
            decreases db_count - k,
        {
            db.push(KeyMap::new());
            k += 1;
        }
        Database { db }
    }

    /// The database at `db_index`, for reading.
    pub fn get(&self, db_index: usize) -> (r: &KeyMap)
        requires
            db_index < self.maps().len(),
        ensures
            *r == self.maps()[db_index as int],
    {
        &self.db[db_index]
    }

    /// The database at `db_index`, for changing.
    pub fn get_mut(&mut self, db_index: usize) -> (r: &mut KeyMap)
        requires
            db_index < old(self).maps().len(),
        ensures
            *r == old(self).maps()[db_index as int],
            final(self).maps() == old(self).maps().update(db_index as int, *final(r)),
    {
        &mut self.db[db_index]
    }

    /// Exchanges two databases; their contents are not touched.
    pub fn swap(&mut self, db_index1: usize, db_index2: usize)
        requires
            db_index1 < old(self).maps().len(),
            db_index2 < old(self).maps().len(),
        ensures
            final(self).maps() == swapped(old(self).maps(), db_index1 as int, db_index2 as int),
    {
        if db_index1 == db_index2 {
            assert(swapped(self.maps(), db_index1 as int, db_index2 as int) =~= self.maps());
            return;
        }
        let mut held = KeyMap::new();
        self.db.set_and_swap(db_index1, &mut held);
        self.db.set_and_swap(db_index2, &mut held);
        self.db.set_and_swap(db_index1, &mut held);
        assert(self.maps() =~= swapped(old(self).maps(), db_index1 as int, db_index2 as int));
    }

    /// Every database, for changing in place.
    pub fn iter_mut(&mut self) -> (r: &mut [KeyMap])
        ensures
            r@ == old(self).maps(),
            final(self).maps() == final(r)@,
    {
        self.db.as_mut_slice()
    }

    /// How many databases there are.
    pub fn len(&self) -> (r: usize)
        ensures
            r == self.maps().len(),
    {
        self.db.len()
    }

    /// `FLUSHALL`: empties every database.
    pub fn flushall(&mut self) -> (r: OutputValue)
        ensures
            final(self).wf(),
            final(self).maps().len() == old(self).maps().len(),
            forall|i: int| 0 <= i < final(self).maps().len() ==> (#[trigger] final(self).maps()[i])@
                == Map::<Seq<u8>, Stored>::empty(),
            r is OkStatus,
    {
        let mut k: usize = 0;
        while k < self.db.len()
            invariant
                k <= self.db@.len(),
                self.db@.len() == old(self).db@.len(),
                forall|i: int| 0 <= i < k ==> (#[trigger] self.db@[i]).wf() && self.db@[i]@
                    == Map::<Seq<u8>, Stored>::empty(),
            decreases self.db@.len() - k,
        {
            let mut fresh = KeyMap::new();
            self.db.set_and_swap(k, &mut fresh);
            k += 1;
        }
        OutputValue::OkStatus
    }
}

/// Exchanging the same two databases twice restores the fleet.
pub proof fn swap_twice_restores<T>(s: Seq<T>, a: int, b: int)
    requires
        0 <= a < s.len(),
        0 <= b < s.len(),
    ensures
        swapped(swapped(s, a, b), a, b) == s,
{
    assert(swapped(swapped(s, a, b), a, b) =~= s);
}

} // verus!
