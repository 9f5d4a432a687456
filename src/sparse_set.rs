use crate::data::Data;
use vstd::prelude::*;

verus! {

/// The storage of one component type: records packed in a dense array, a
/// sparse table from an entity's slot index to its position in the dense
/// array, and the reverse table from dense position back to slot index.
///
/// Removal swaps the last record into the freed position, so the dense array
/// stays without gaps and every operation takes constant time; the order of
/// the dense array is therefore insertion order as changed by those swaps.
pub struct SparseSet<T> {
    dense: Vec<Data<T>>,
    sparse: Vec<Option<usize>>,
    indices: Vec<usize>,
}

impl<T> View for SparseSet<T> {
    type V = Map<usize, Data<T>>;

    /// The record held for each slot index.
    closed spec fn view(&self) -> Map<usize, Data<T>> {
        Map::new(
            |i: usize| (i as int) < self.sparse@.len() && self.sparse@[i as int] is Some,
            |i: usize| self.dense@[self.sparse@[i as int]->0 as int],
        )
    }
}

impl<T> SparseSet<T> {
    /// The three tables agree: each present slot index points at a dense
    /// position whose reverse entry points back at it, and the other way round.
    pub closed spec fn wf(&self) -> bool {
        &&& self.dense@.len() == self.indices@.len()
        &&& forall|i: int|
            #![trigger self.sparse@[i]]
            0 <= i < self.sparse@.len() && self.sparse@[i] is Some ==> {
                let d = self.sparse@[i]->0;
                &&& d < self.dense@.len()
                &&& self.indices@[d as int] == i
            }
        &&& forall|d: int|
            #![trigger self.indices@[d]]
            0 <= d < self.indices@.len() ==> {
                let i = self.indices@[d];
                &&& i < self.sparse@.len()
                &&& self.sparse@[i as int] == Some(d as usize)
            }
    }

    /// The slot indices in dense order.
    pub closed spec fn keys_seq(&self) -> Seq<usize> {
        self.indices@
    }

    /// The records in dense order.
    pub closed spec fn dense_seq(&self) -> Seq<Data<T>> {
        self.dense@
    }

    /// The dense order lists each present slot index once, beside its record.
    pub proof fn lemma_dense_order(&self)
        requires
            self.wf(),
        ensures
            self.keys_seq().len() == self.dense_seq().len(),
            self.keys_seq().no_duplicates(),
            self@.dom() == self.keys_seq().to_set(),
            self@.dom().finite(),
            self@.len() == self.keys_seq().len(),
            forall|k: int|
                #![trigger self.keys_seq()[k]]
                0 <= k < self.keys_seq().len() ==> self@.contains_key(self.keys_seq()[k])
                    && self@[self.keys_seq()[k]] == self.dense_seq()[k],
    {
        vstd::std_specs::vec::axiom_spec_len(&self.indices);
        assert forall|a: int, b: int|
            0 <= a < self.keys_seq().len() && 0 <= b < self.keys_seq().len() && a != b
                implies self.keys_seq()[a] != self.keys_seq()[b] by {
            if self.keys_seq()[a] == self.keys_seq()[b] {
                let x = self.indices@[a];
                assert(self.sparse@[x as int] == Some(a as usize));
                assert(self.sparse@[x as int] == Some(b as usize));
                assert(a as usize == b as usize);
            }
        }
        assert(self.keys_seq().no_duplicates());
        assert forall|i: usize| self@.contains_key(i) implies self.keys_seq().to_set().contains(i) by {
            let d = self.sparse@[i as int]->0;
            assert(self.keys_seq()[d as int] == i);
        }
        assert(self@.dom() =~= self.keys_seq().to_set());
        self.keys_seq().unique_seq_to_set();
    }

    pub fn new() -> (r: SparseSet<T>)
        ensures
            r.wf(),
            r@ == Map::<usize, Data<T>>::empty(),
            r.keys_seq() == Seq::<usize>::empty(),
            r.dense_seq() == Seq::<Data<T>>::empty(),
    {
        let r = SparseSet { dense: Vec::new(), sparse: Vec::new(), indices: Vec::new() };
        assert(r@ =~= Map::<usize, Data<T>>::empty());
        r
    }

    /// The dense position of the record for slot index `id`, if there is one.
    pub fn dense_index_of(&self, id: usize) -> (r: Option<usize>)
        requires
            self.wf(),
        ensures
            r is Some <==> self@.contains_key(id),
            r is Some ==> r->0 < self.keys_seq().len() && self.keys_seq()[r->0 as int] == id
                && self.dense_seq()[r->0 as int] == self@[id],
    {
        if id < self.sparse.len() {
            self.sparse[id]
        } else {
            None
        }
    }

    /// Stores `data` for slot index `id`, replacing a record already there in
    /// place, or appending it to the dense array.
    pub fn insert(&mut self, id: usize, data: Data<T>)
        requires
            old(self).wf(),
        ensures
            final(self).wf(),
            final(self)@ == old(self)@.insert(id, data),
            old(self)@.contains_key(id) ==> final(self).keys_seq() == old(self).keys_seq(),
            !old(self)@.contains_key(id) ==> final(self).keys_seq() == old(self).keys_seq().push(
                id,
            ) && final(self).dense_seq() == old(self).dense_seq().push(data),
    {
        match self.dense_index_of(id) {
            Some(index) => {
                self.dense.set(index, data);
                assert(self@ =~= old(self)@.insert(id, data));
            },
            None => {
                let index = self.dense.len();
                self.dense.push(data);
                while self.sparse.len() <= id
                    invariant
                        self.dense@ == old(self).dense@.push(data),
                        self.indices@ == old(self).indices@,
                        old(self).sparse@.len() <= self.sparse@.len(),
                        self.sparse@.len() <= id + 1 || self.sparse@.len() == old(
                            self,
                        ).sparse@.len(),
                        forall|i: int|
                            0 <= i < old(self).sparse@.len() ==> self.sparse@[i]
                                == old(self).sparse@[i],
                        forall|i: int|
                            old(self).sparse@.len() <= i < self.sparse@.len()
                                ==> self.sparse@[i] is None,
                    decreases id + 1 - self.sparse@.len(),
                {
                    self.sparse.push(None);
                }
                self.sparse.set(id, Some(index));
                self.indices.push(id);
                assert(self@ =~= old(self)@.insert(id, data));
            },
        }
    }

    /// Takes out the record for slot index `id`, moving the last record of
    /// the dense array into its position.
    pub fn remove(&mut self, id: usize) -> (r: Option<Data<T>>)
        requires
            old(self).wf(),
        ensures
            final(self).wf(),
            old(self)@.contains_key(id) ==> r == Some(old(self)@[id]) && final(self)@ == old(
                self,
            )@.remove(id),
            !old(self)@.contains_key(id) ==> r is None && final(self)@ == old(self)@
                && final(self).keys_seq() == old(self).keys_seq() && final(self).dense_seq()
                == old(self).dense_seq(),
            old(self)@.contains_key(id) ==> exists|p: int|
                0 <= p < old(self).keys_seq().len() && old(self).keys_seq()[p] == id
                    && final(self).keys_seq() == old(self).keys_seq().update(
                    p,
                    old(self).keys_seq().last(),
                ).drop_last() && final(self).dense_seq() == old(self).dense_seq().update(
                    p,
                    old(self).dense_seq().last(),
                ).drop_last(),
    {
        if id >= self.sparse.len() {
            return None;
        }
        let index = match self.sparse[id] {
            Some(index) => index,
            None => {
                return None;
            },
        };
        self.sparse.set(id, None);
        let value = self.dense.swap_remove(index);
        let _ = self.indices.swap_remove(index);
        if index < self.dense.len() {
            let swapped = self.indices[index];
            self.sparse.set(swapped, Some(index));
        }
        assert(self@ =~= old(self)@.remove(id));
        assert(old(self).keys_seq()[index as int] == id);
        assert(self.indices@ =~= old(self).indices@.update(
            index as int,
            old(self).indices@.last(),
        ).drop_last());
        assert(self.dense@ =~= old(self).dense@.update(
            index as int,
            old(self).dense@.last(),
        ).drop_last());
        Some(value)
    }

    pub fn get(&self, id: usize) -> (r: Option<&Data<T>>)
        requires
            self.wf(),
        ensures
            self@.contains_key(id) ==> r == Some(&self@[id]),
            !self@.contains_key(id) ==> r is None,
    {
        if id >= self.sparse.len() {
            return None;
        }
        match self.sparse[id] {
            Some(index) => Some(&self.dense[index]),
            None => None,
        }
    }

    pub fn get_mut(&mut self, id: usize) -> (r: Option<&mut Data<T>>)
        requires
            old(self).wf(),
        ensures
            old(self)@.contains_key(id) ==> r is Some && *r->0 == old(self)@[id] && final(self)@
                == old(self)@.insert(id, *final(r->0)) && final(self).wf()
                && final(self).keys_seq() == old(self).keys_seq(),
            !old(self)@.contains_key(id) ==> r is None && *final(self) == *old(self),
    {
        if id >= self.sparse.len() {
            return None;
        }
        match self.sparse[id] {
            Some(index) => {
                Some(&mut self.dense[index])
            },
            None => None,
        }
    }

    pub fn contains(&self, id: usize) -> (r: bool)
        requires
            self.wf(),
        ensures
            r == self@.contains_key(id),
    {
        if id < self.sparse.len() {
            self.sparse[id].is_some()
        } else {
            false
        }
    }

    /// The records in dense order.
    pub fn iter(&self) -> (r: &[Data<T>])
        ensures
            r@ == self.dense_seq(),
    {
        self.dense.as_slice()
    }

    /// The records in dense order, for writing. A slice keeps its length,
    /// and then the set stays well formed with the written records in place.
    pub fn iter_mut(&mut self) -> (r: &mut [Data<T>])
        requires
            old(self).wf(),
        ensures
            r@ == old(self).dense_seq(),
            final(self).dense_seq() == final(r)@,
            final(self).keys_seq() == old(self).keys_seq(),
            final(r)@.len() == r@.len() ==> final(self).wf(),
    {
        self.dense.as_mut_slice()
    }

    /// The slot indices in dense order.
    pub fn indices(&self) -> (r: &[usize])
        ensures
            r@ == self.keys_seq(),
    {
        self.indices.as_slice()
    }

    pub fn clear(&mut self)
        ensures
            final(self).wf(),
            final(self)@ == Map::<usize, Data<T>>::empty(),
            final(self).keys_seq() == Seq::<usize>::empty(),
            final(self).dense_seq() == Seq::<Data<T>>::empty(),
    {
        self.dense.clear();
        self.sparse.clear();
        self.indices.clear();
        assert(self@ =~= Map::<usize, Data<T>>::empty());
    }

    /// The number of records.
    pub fn len(&self) -> (r: usize)
        requires
            self.wf(),
        ensures
            r == self@.len(),
            r == self.dense_seq().len(),
    {
        proof {
            self.lemma_dense_order();
        }
        self.dense.len()
    }

    pub fn is_empty(&self) -> (r: bool)
        requires
            self.wf(),
        ensures
            r == (self@.len() == 0),
            r == (self@ == Map::<usize, Data<T>>::empty()),
    {
        proof {
            self.lemma_dense_order();
            if self.dense@.len() == 0 {
                assert(self@ =~= Map::<usize, Data<T>>::empty());
            } else {
                assert(self@.contains_key(self.indices@[0]));
            }
        }
        self.dense.len() == 0
    }
}

} // verus!
