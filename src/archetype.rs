use crate::data::Data;
use crate::sparse_set::SparseSet;
use std::any::TypeId;
use vstd::prelude::*;

verus! {

/// The map from type identity to record that a sequence of records gives
/// when it is read from first to last, a later record replacing an earlier
/// one of the same type.
pub open spec fn records_map<T>(s: Seq<Data<T>>) -> Map<TypeId, Data<T>>
    decreases s.len(),
{
    if s.len() == 0 {
        Map::empty()
    } else {
        records_map(s.drop_last()).insert(s.last().spec_type_id(), s.last())
    }
}

/// The type identities of a sequence of records, in order.
pub open spec fn record_types<T>(s: Seq<Data<T>>) -> Seq<TypeId> {
    s.map_values(|d: Data<T>| d.spec_type_id())
}

/// The entities that have one and the same set of component types: one
/// sparse set ("column") per type, beside the list of those types.
pub struct Archetype<T> {
    columns: Vec<SparseSet<T>>,
    type_ids: Vec<TypeId>,
}

impl<T> Archetype<T> {
    /// Columns and types are parallel, no type occurs twice, every column is
    /// well formed and holds only records tagged with its own type.
    pub closed spec fn wf(&self) -> bool {
        &&& self.columns@.len() == self.type_ids@.len()
        &&& self.type_ids@.no_duplicates()
        &&& forall|j: int|
            #![trigger self.columns@[j]]
            0 <= j < self.columns@.len() ==> {
                &&& self.columns@[j].wf()
                &&& forall|i: usize|
                    #[trigger] self.columns@[j]@.contains_key(i) ==> self.columns@[j]@[i].spec_type_id()
                        == self.type_ids@[j]
            }
    }

    /// The component types, in column order.
    pub closed spec fn types(&self) -> Seq<TypeId> {
        self.type_ids@
    }

    /// The records held for slot index `id`, by type.
    pub closed spec fn row(&self, id: usize) -> Map<TypeId, Data<T>> {
        Map::new(
            |t: TypeId|
                exists|j: int|
                    0 <= j < self.type_ids@.len() && self.type_ids@[j] == t
                        && #[trigger] self.columns@[j]@.contains_key(id),
            |t: TypeId| self.columns@[self.type_ids@.index_of(t)]@[id],
        )
    }

    /// The slot indices that have a record in some column.
    pub closed spec fn rows(&self) -> Set<usize> {
        Set::new(
            |id: usize|
                exists|j: int| 0 <= j < self.columns@.len() && #[trigger] self.columns@[j]@.contains_key(id),
        )
    }

    /// Every entity of the archetype has a record in every column.
    pub open spec fn uniform(&self) -> bool {
        forall|id: usize| #[trigger] self.rows().contains(id) ==> self.row(id).dom() == self.types().to_set()
    }

    proof fn lemma_column(&self, j: int, id: usize)
        requires
            self.wf(),
            0 <= j < self.type_ids@.len(),
        ensures
            self.row(id).contains_key(self.type_ids@[j]) == self.columns@[j]@.contains_key(id),
            self.columns@[j]@.contains_key(id) ==> self.row(id)[self.type_ids@[j]]
                == self.columns@[j]@[id],
            self.columns@[j]@.contains_key(id) ==> self.rows().contains(id),
    {
        let t = self.type_ids@[j];
        if self.row(id).contains_key(t) {
            let k = choose|k: int|
                0 <= k < self.type_ids@.len() && self.type_ids@[k] == t
                    && #[trigger] self.columns@[k]@.contains_key(id);
            assert(k == j);
        }
        assert(self.type_ids@.contains(t));
        let m = self.type_ids@.index_of(t);
        assert(m == j);
    }

    /// Two archetypes with the same types whose columns differ at most at
    /// position `j` have the same records of every other type.
    proof fn lemma_same_but_column(a: &Archetype<T>, b: &Archetype<T>, j: int, x: usize, t: TypeId)
        requires
            a.wf(),
            b.wf(),
            a.type_ids@ == b.type_ids@,
            0 <= j < a.type_ids@.len(),
            forall|k: int| 0 <= k < a.columns@.len() && k != j ==> a.columns@[k]@ == b.columns@[k]@,
        ensures
            t != a.type_ids@[j] ==> a.row(x).contains_key(t) == b.row(x).contains_key(t),
            t != a.type_ids@[j] && a.row(x).contains_key(t) ==> a.row(x)[t] == b.row(x)[t],
            t == a.type_ids@[j] ==> a.row(x).contains_key(t) == a.columns@[j]@.contains_key(x)
                && b.row(x).contains_key(t) == b.columns@[j]@.contains_key(x),
            t == a.type_ids@[j] && a.row(x).contains_key(t) ==> a.row(x)[t] == a.columns@[j]@[x],
            t == a.type_ids@[j] && b.row(x).contains_key(t) ==> b.row(x)[t] == b.columns@[j]@[x],
    {
        a.lemma_column(j, x);
        b.lemma_column(j, x);
        a.lemma_row(x);
        b.lemma_row(x);
        if a.type_ids@.contains(t) {
            let k = choose|k: int| 0 <= k < a.type_ids@.len() && a.type_ids@[k] == t;
            a.lemma_column(k, x);
            b.lemma_column(k, x);
        }
    }

    /// Two archetypes with the same types whose columns agree at slot index
    /// `x` have the same row there.
    proof fn lemma_same_at(a: &Archetype<T>, b: &Archetype<T>, x: usize)
        requires
            a.wf(),
            b.wf(),
            a.type_ids@ == b.type_ids@,
            forall|k: int|
                0 <= k < a.columns@.len() ==> (#[trigger] a.columns@[k]@).contains_key(x)
                    == b.columns@[k]@.contains_key(x),
            forall|k: int|
                0 <= k < a.columns@.len() && (#[trigger] a.columns@[k]@).contains_key(x)
                    ==> a.columns@[k]@[x] == b.columns@[k]@[x],
        ensures
            a.row(x) == b.row(x),
    {
        assert forall|t: TypeId| #[trigger] a.row(x).dom().contains(t) == b.row(x).dom().contains(t) by {
            a.lemma_row(x);
            b.lemma_row(x);
            if a.type_ids@.contains(t) {
                let k = choose|k: int| 0 <= k < a.type_ids@.len() && a.type_ids@[k] == t;
                a.lemma_column(k, x);
                b.lemma_column(k, x);
            }
        }
        assert forall|t: TypeId| #[trigger] a.row(x).dom().contains(t) implies a.row(x)[t] == b.row(x)[t] by {
            a.lemma_row(x);
            let k = choose|k: int| 0 <= k < a.type_ids@.len() && a.type_ids@[k] == t;
            a.lemma_column(k, x);
            b.lemma_column(k, x);
        }
        assert(a.row(x) =~= b.row(x));
    }

    /// Replacing the record of slot index `id` in column `j` by one with the
    /// same tag changes only that record of that row.
    proof fn lemma_replaced(a: &Archetype<T>, j: int, id: usize)
        requires
            a.wf(),
            0 <= j < a.columns@.len(),
            a.columns@[j]@.contains_key(id),
        ensures
            forall|b: Archetype<T>|
                {
                    &&& b.type_ids@ == a.type_ids@
                    &&& b.columns@.len() == a.columns@.len()
                    &&& forall|k: int| 0 <= k < a.columns@.len() && k != j ==> b.columns@[k] == a.columns@[k]
                    &&& b.columns@[j].wf()
                    &&& b.columns@[j]@ == a.columns@[j]@.insert(id, b.columns@[j]@[id])
                    &&& b.columns@[j]@[id].spec_type_id() == a.type_ids@[j]
                } ==> {
                    &&& #[trigger] b.wf()
                    &&& b.rows() == a.rows()
                    &&& b.row(id) == a.row(id).insert(a.type_ids@[j], b.columns@[j]@[id])
                    &&& forall|x: usize| x != id ==> #[trigger] b.row(x) == a.row(x)
                },
    {
        assert forall|b: Archetype<T>|
            {
                &&& b.type_ids@ == a.type_ids@
                &&& b.columns@.len() == a.columns@.len()
                &&& forall|k: int| 0 <= k < a.columns@.len() && k != j ==> b.columns@[k] == a.columns@[k]
                &&& b.columns@[j].wf()
                &&& b.columns@[j]@ == a.columns@[j]@.insert(id, b.columns@[j]@[id])
                &&& b.columns@[j]@[id].spec_type_id() == a.type_ids@[j]
            } implies {
                &&& #[trigger] b.wf()
                &&& b.rows() == a.rows()
                &&& b.row(id) == a.row(id).insert(a.type_ids@[j], b.columns@[j]@[id])
                &&& forall|x: usize| x != id ==> #[trigger] b.row(x) == a.row(x)
            } by {
            assert(b.wf());
            assert forall|x: usize| x != id implies #[trigger] b.row(x) == a.row(x) by {
                Self::lemma_same_at(&b, a, x);
            }
            let t = a.type_ids@[j];
            let expected = a.row(id).insert(t, b.columns@[j]@[id]);
            assert forall|u: TypeId| #[trigger] b.row(id).dom().contains(u) == expected.dom().contains(u) by {
                Self::lemma_same_but_column(&b, a, j, id, u);
            }
            assert forall|u: TypeId| #[trigger] b.row(id).dom().contains(u) implies b.row(id)[u] == expected[u] by {
                Self::lemma_same_but_column(&b, a, j, id, u);
            }
            assert(b.row(id) =~= expected);
            assert forall|x: usize| #[trigger] b.rows().contains(x) == a.rows().contains(x) by {
                if b.rows().contains(x) {
                    let k = choose|k: int| 0 <= k < b.columns@.len() && #[trigger] b.columns@[k]@.contains_key(x);
                    assert(a.columns@[k]@.contains_key(x));
                }
                if a.rows().contains(x) {
                    let k = choose|k: int| 0 <= k < a.columns@.len() && #[trigger] a.columns@[k]@.contains_key(x);
                    assert(b.columns@[k]@.contains_key(x));
                }
            }
            assert(b.rows() =~= a.rows());
        }
    }

    /// A row holds records of the archetype's types only, each tagged with
    /// the type it is held under, and it is empty exactly when no column
    /// contains its slot index.
    pub proof fn lemma_row(&self, id: usize)
        requires
            self.wf(),
        ensures
            self.row(id).dom().subset_of(self.types().to_set()),
            self.rows().contains(id) <==> self.row(id).dom() != Set::<TypeId>::empty(),
            forall|t: TypeId| #[trigger]
                self.row(id).contains_key(t) ==> self.row(id)[t].spec_type_id() == t,
    {
        assert forall|t: TypeId| #[trigger] self.row(id).contains_key(t) implies self.types().to_set().contains(t)
            && self.row(id)[t].spec_type_id() == t by {
            let k = choose|k: int|
                0 <= k < self.type_ids@.len() && self.type_ids@[k] == t
                    && #[trigger] self.columns@[k]@.contains_key(id);
            self.lemma_column(k, id);
        }
        if self.rows().contains(id) {
            let k = choose|k: int| 0 <= k < self.columns@.len() && #[trigger] self.columns@[k]@.contains_key(id);
            self.lemma_column(k, id);
            assert(self.row(id).dom().contains(self.type_ids@[k]));
        }
        if !self.rows().contains(id) {
            assert forall|t: TypeId| !#[trigger] self.row(id).dom().contains(t) by {
                if self.row(id).dom().contains(t) {
                    let k = choose|k: int|
                        0 <= k < self.type_ids@.len() && self.type_ids@[k] == t
                            && #[trigger] self.columns@[k]@.contains_key(id);
                    assert(self.rows().contains(id));
                }
            }
            assert(self.row(id).dom() =~= Set::<TypeId>::empty());
        }
    }

    pub fn new() -> (r: Archetype<T>)
        ensures
            r.wf(),
            r.types() == Seq::<TypeId>::empty(),
            r.rows() == Set::<usize>::empty(),
    {
        let r = Archetype { columns: Vec::new(), type_ids: Vec::new() };
        assert(r.rows() =~= Set::<usize>::empty());
        r
    }

    /// The position of the column for `type_id`, if the archetype has one.
    fn column_of(&self, type_id: TypeId) -> (r: Option<usize>)
        requires
            self.wf(),
        ensures
            r is Some <==> self.types().contains(type_id),
            r is Some ==> r->0 < self.types().len() && self.types()[r->0 as int] == type_id,
    {
        let mut j: usize = 0;
        while j < self.type_ids.len()
            invariant
                j <= self.type_ids@.len(),
                forall|k: int| 0 <= k < j ==> self.type_ids@[k] != type_id,
            decreases self.type_ids@.len() - j,
        {
            if self.type_ids[j] == type_id {
                return Some(j);
            }
            j += 1;
        }
        None
    }

    /// Stores `data` for slot index `id` in the column of its type, adding
    /// that column if the archetype has none yet.
    pub fn insert(&mut self, id: usize, data: Data<T>)
        requires
            old(self).wf(),
        ensures
            final(self).wf(),
            final(self).row(id) == old(self).row(id).insert(data.spec_type_id(), data),
            forall|x: usize| x != id ==> #[trigger] final(self).row(x) == old(self).row(x),
            old(self).types().contains(data.spec_type_id()) ==> final(self).types() == old(
                self,
            ).types(),
            !old(self).types().contains(data.spec_type_id()) ==> final(self).types() == old(
                self,
            ).types().push(data.spec_type_id()),
            final(self).rows() == old(self).rows().insert(id),
    {
        let type_id = data.type_id();
        let j = match self.column_of(type_id) {
            Some(j) => j,
            None => {
                self.type_ids.push(type_id);
                self.columns.push(SparseSet::new());
                proof {
                    assert forall|a: int, b: int|
                        0 <= a < self.type_ids@.len() && 0 <= b < self.type_ids@.len() && a != b
                            implies self.type_ids@[a] != self.type_ids@[b] by {
                        if b == self.type_ids@.len() - 1 {
                            assert(old(self).type_ids@.contains(self.type_ids@[a]) || a == b);
                        } else if a == self.type_ids@.len() - 1 {
                            assert(old(self).type_ids@.contains(self.type_ids@[b]));
                        }
                    }
                    assert forall|x: usize| #[trigger] self.row(x) == old(self).row(x) by {
                        assert forall|t: TypeId| #[trigger] self.row(x).contains_key(t) implies old(self).row(x).contains_key(t)
                            && self.row(x)[t] == old(self).row(x)[t] by {
                            let k = choose|k: int|
                                0 <= k < self.type_ids@.len() && self.type_ids@[k] == t
                                    && #[trigger] self.columns@[k]@.contains_key(x);
                            self.lemma_column(k, x);
                            old(self).lemma_column(k, x);
                        }
                        assert forall|t: TypeId| #[trigger] old(self).row(x).contains_key(t) implies self.row(x).contains_key(t) by {
                            let k = choose|k: int|
                                0 <= k < old(self).type_ids@.len() && old(self).type_ids@[k] == t
                                    && #[trigger] old(self).columns@[k]@.contains_key(x);
                            self.lemma_column(k, x);
                        }
                        assert(self.row(x) =~= old(self).row(x));
                    }
                    assert forall|x: usize| #[trigger] self.rows().contains(x) implies old(self).rows().contains(x) by {
                        let k = choose|k: int| 0 <= k < self.columns@.len() && #[trigger] self.columns@[k]@.contains_key(x);
                        if k == old(self).columns@.len() {
                            assert(self.columns@[k]@ == Map::<usize, Data<T>>::empty());
                        }
                        assert(old(self).columns@[k]@.contains_key(x));
                    }
                    assert forall|x: usize| #[trigger] old(self).rows().contains(x) implies self.rows().contains(x) by {
                        let k = choose|k: int| 0 <= k < old(self).columns@.len() && #[trigger] old(self).columns@[k]@.contains_key(x);
                        assert(self.columns@[k]@.contains_key(x));
                    }
                    assert(self.rows() =~= old(self).rows());
                }
                self.columns.len() - 1
            },
        };
        let ghost mid = *self;
        self.columns[j].insert(id, data);
        proof {
            assert forall|x: usize| #[trigger] self.rows().contains(x) == mid.rows().insert(id).contains(x) by {
                if self.rows().contains(x) {
                    let k = choose|k: int| 0 <= k < self.columns@.len() && #[trigger] self.columns@[k]@.contains_key(x);
                    if x != id {
                        assert(mid.columns@[k]@.contains_key(x));
                    }
                }
                if x == id {
                    assert(self.columns@[j as int]@.contains_key(id));
                }
                if mid.rows().contains(x) {
                    let k = choose|k: int| 0 <= k < mid.columns@.len() && #[trigger] mid.columns@[k]@.contains_key(x);
                    assert(self.columns@[k]@.contains_key(x));
                }
            }
            assert(self.rows() =~= old(self).rows().insert(id));
            assert forall|x: usize| x != id implies #[trigger] self.row(x) == mid.row(x) by {
                assert forall|t: TypeId| #[trigger] self.row(x).dom().contains(t) == mid.row(x).dom().contains(t) by {
                    Self::lemma_same_but_column(self, &mid, j as int, x, t);
                }
                assert forall|t: TypeId| #[trigger] self.row(x).dom().contains(t) implies self.row(x)[t] == mid.row(x)[t] by {
                    Self::lemma_same_but_column(self, &mid, j as int, x, t);
                }
                assert(self.row(x) =~= mid.row(x));
            }
            let ghost expected = mid.row(id).insert(type_id, data);
            assert forall|t: TypeId| #[trigger] self.row(id).dom().contains(t) == expected.dom().contains(t) by {
                Self::lemma_same_but_column(self, &mid, j as int, id, t);
            }
            assert forall|t: TypeId| #[trigger] self.row(id).dom().contains(t) implies self.row(id)[t] == expected[t] by {
                Self::lemma_same_but_column(self, &mid, j as int, id, t);
            }
            assert(self.row(id) =~= mid.row(id).insert(type_id, data));
        }
    }

    /// Takes out every record of slot index `id`, in column order.
    pub fn remove(&mut self, id: usize) -> (r: Vec<Data<T>>)
        requires
            old(self).wf(),
        ensures
            final(self).wf(),
            final(self).types() == old(self).types(),
            records_map(r@) == old(self).row(id),
            record_types(r@).no_duplicates(),
            old(self).row(id).dom() == old(self).types().to_set() ==> record_types(r@) == old(
                self,
            ).types(),
            final(self).row(id) == Map::<TypeId, Data<T>>::empty(),
            forall|x: usize| x != id ==> #[trigger] final(self).row(x) == old(self).row(x),
            final(self).rows() == old(self).rows().remove(id),
    {
        let mut out: Vec<Data<T>> = Vec::new();
        let mut j: usize = 0;
        while j < self.columns.len()
            invariant
                old(self).wf(),
                self.wf(),
                self.type_ids@ == old(self).type_ids@,
                self.columns@.len() == old(self).columns@.len(),
                j <= self.columns@.len(),
                forall|k: int|
                    0 <= k < j ==> #[trigger] self.columns@[k]@ == old(self).columns@[k]@.remove(id),
                forall|k: int| j <= k < self.columns@.len() ==> #[trigger] self.columns@[k] == old(self).columns@[k],
                records_map(out@) == old(self).row(id).restrict(self.type_ids@.take(j as int).to_set()),
                forall|k: int|
                    0 <= k < out@.len() ==> self.type_ids@.take(j as int).contains(
                        #[trigger] out@[k].spec_type_id(),
                    ),
                record_types(out@).no_duplicates(),
                old(self).row(id).dom() == old(self).types().to_set() ==> record_types(out@)
                    == self.type_ids@.take(j as int),
            decreases self.columns@.len() - j,
        {
            let ghost before = out@;
            proof {
                old(self).lemma_column(j as int, id);
            }
            let ghost tj = old(self).type_ids@[j as int];
            let ghost row = old(self).row(id);
            let ghost next = self.type_ids@.take(j + 1);
            proof {
                assert(next =~= self.type_ids@.take(j as int).push(tj));
                assert(next[j as int] == tj);
            }
            let removed = self.columns[j].remove(id);
            match removed {
                Some(d) => {
                    out.push(d);
                    proof {
                        assert(out@.drop_last() =~= before);
                        assert(d.spec_type_id() == tj);
                        assert(records_map(out@) == records_map(before).insert(tj, d));
                        assert(record_types(out@) =~= record_types(before).push(d.spec_type_id()));
                        assert forall|a: int| 0 <= a < before.len() implies record_types(before)[a] != d.spec_type_id() by {
                            assert(self.type_ids@.take(j as int).contains(before[a].spec_type_id()));
                        }
                        assert(records_map(out@) =~= row.restrict(next.to_set()));
                        if old(self).row(id).dom() == old(self).types().to_set() {
                            assert(record_types(out@) =~= next);
                        }
                        assert forall|k: int| 0 <= k < out@.len() implies next.contains(
                                #[trigger] out@[k].spec_type_id()) by {
                            if k < before.len() {
                                assert(self.type_ids@.take(j as int).contains(before[k].spec_type_id()));
                            } else {
                                assert(next[j as int] == out@[k].spec_type_id());
                            }
                        }
                    }
                },
                None => {
                    proof {
                        assert(!row.contains_key(tj));
                        if old(self).row(id).dom() == old(self).types().to_set() {
                            assert(old(self).types().to_set().contains(tj));
                        }
                        assert(records_map(out@) =~= row.restrict(next.to_set()));
                        assert forall|k: int| 0 <= k < out@.len() implies next.contains(
                                #[trigger] out@[k].spec_type_id()) by {
                            assert(self.type_ids@.take(j as int).contains(before[k].spec_type_id()));
                        }
                    }
                },
            }
            j += 1;
        }
        proof {
            old(self).lemma_row(id);
            assert(self.type_ids@.take(j as int) =~= self.type_ids@);
            assert(records_map(out@) =~= old(self).row(id));
            assert forall|t: TypeId| !#[trigger] self.row(id).dom().contains(t) by {
                if self.type_ids@.contains(t) {
                    let k = choose|k: int| 0 <= k < self.type_ids@.len() && self.type_ids@[k] == t;
                    self.lemma_column(k, id);
                }
                self.lemma_row(id);
            }
            assert(self.row(id) =~= Map::<TypeId, Data<T>>::empty());
            assert forall|x: usize| x != id implies #[trigger] self.row(x) == old(self).row(x) by {
                Self::lemma_same_at(self, old(self), x);
            }
            assert forall|x: usize| #[trigger] self.rows().contains(x) == old(self).rows().remove(id).contains(x) by {
                if self.rows().contains(x) {
                    let k = choose|k: int| 0 <= k < self.columns@.len() && #[trigger] self.columns@[k]@.contains_key(x);
                    assert(old(self).columns@[k]@.contains_key(x));
                }
                if old(self).rows().contains(x) && x != id {
                    let k = choose|k: int| 0 <= k < old(self).columns@.len() && #[trigger] old(self).columns@[k]@.contains_key(x);
                    assert(self.columns@[k]@.contains_key(x));
                }
            }
            assert(self.rows() =~= old(self).rows().remove(id));
        }
        out
    }

    /// The record of type `type_id` for slot index `id`, if there is one.
    pub fn get(&self, id: usize, type_id: TypeId) -> (r: Option<&Data<T>>)
        requires
            self.wf(),
        ensures
            self.row(id).contains_key(type_id) ==> r == Some(&self.row(id)[type_id]),
            !self.row(id).contains_key(type_id) ==> r is None,
    {
        proof {
            self.lemma_row(id);
        }
        match self.column_of(type_id) {
            Some(j) => {
                proof {
                    self.lemma_column(j as int, id);
                }
                self.columns[j].get(id)
            },
            None => None,
        }
    }

    /// The record of type `type_id` for slot index `id`, for writing. The
    /// archetype stays well formed as long as the record keeps its tag.
    pub fn get_mut(&mut self, id: usize, type_id: TypeId) -> (r: Option<&mut Data<T>>)
        requires
            old(self).wf(),
        ensures
            old(self).row(id).contains_key(type_id) ==> r is Some && *r->0 == old(self).row(id)[type_id],
            old(self).row(id).contains_key(type_id) && final(r->0).spec_type_id() == type_id
                ==> final(self).wf() && final(self).types() == old(self).types()
                && final(self).rows() == old(self).rows()
                && final(self).row(id) == old(self).row(id).insert(type_id, *final(r->0))
                && forall|x: usize| x != id ==> #[trigger] final(self).row(x) == old(self).row(x),
            !old(self).row(id).contains_key(type_id) ==> r is None && *final(self) == *old(self),
    {
        proof {
            old(self).lemma_row(id);
        }
        match self.column_of(type_id) {
            Some(j) => {
                proof {
                    old(self).lemma_column(j as int, id);
                }
                if self.columns[j].contains(id) {
                    proof {
                        Self::lemma_replaced(old(self), j as int, id);
                    }
                    self.columns[j].get_mut(id)
                } else {
                    None
                }
            },
            None => None,
        }
    }

    /// Whether slot index `id` has a record of type `type_id`.
    pub fn has_component(&self, id: usize, type_id: TypeId) -> (r: bool)
        requires
            self.wf(),
        ensures
            r == self.row(id).contains_key(type_id),
    {
        proof {
            self.lemma_row(id);
        }
        match self.column_of(type_id) {
            Some(j) => {
                proof {
                    self.lemma_column(j as int, id);
                }
                self.columns[j].contains(id)
            },
            None => false,
        }
    }

    /// Whether the archetype has a column for `type_id`.
    pub fn has_component_by_type_id(&self, type_id: TypeId) -> (r: bool)
        requires
            self.wf(),
        ensures
            r == self.types().contains(type_id),
    {
        self.column_of(type_id).is_some()
    }

    /// Whether some column holds a record for slot index `id`.
    pub fn contains_entity(&self, id: usize) -> (r: bool)
        requires
            self.wf(),
        ensures
            r == self.rows().contains(id),
    {
        let mut j: usize = 0;
        while j < self.columns.len()
            invariant
                self.wf(),
                j <= self.columns@.len(),
                forall|k: int| 0 <= k < j ==> !(#[trigger] self.columns@[k]@).contains_key(id),
            decreases self.columns@.len() - j,
        {
            if self.columns[j].contains(id) {
                return true;
            }
            j += 1;
        }
        false
    }

    /// Drops every column and every record.
    pub fn clear(&mut self)
        ensures
            final(self).wf(),
            final(self).types() == Seq::<TypeId>::empty(),
            final(self).rows() == Set::<usize>::empty(),
    {
        self.columns.clear();
        self.type_ids.clear();
        assert(self.rows() =~= Set::<usize>::empty());
    }

    /// Whether no column holds any record.
    pub fn is_empty(&self) -> (r: bool)
        requires
            self.wf(),
        ensures
            r == (self.rows() == Set::<usize>::empty()),
    {
        let mut j: usize = 0;
        while j < self.columns.len()
            invariant
                self.wf(),
                j <= self.columns@.len(),
                forall|k: int| 0 <= k < j ==> (#[trigger] self.columns@[k]@) == Map::<usize, Data<T>>::empty(),
            decreases self.columns@.len() - j,
        {
            if !self.columns[j].is_empty() {
                proof {
                    let c = self.columns@[j as int]@;
                    assert(c != Map::<usize, Data<T>>::empty());
                    if forall|i: usize| !c.contains_key(i) {
                        assert(c =~= Map::<usize, Data<T>>::empty());
                    }
                    let i = choose|i: usize| c.contains_key(i);
                    assert(self.rows().contains(i));
                }
                return false;
            }
            j += 1;
        }
        assert(self.rows() =~= Set::<usize>::empty());
        true
    }

    /// Whether the archetype's types are exactly the types listed, in any
    /// order.
    pub fn exclusively_contains_types(&self, type_ids: &[TypeId]) -> (r: bool)
        requires
            self.wf(),
        ensures
            r == (self.types().to_set() == type_ids@.to_set()),
    {
        let mut i: usize = 0;
        while i < type_ids.len()
            invariant
                self.wf(),
                i <= type_ids@.len(),
                forall|k: int| 0 <= k < i ==> self.types().contains(#[trigger] type_ids@[k]),
            decreases type_ids@.len() - i,
        {
            if self.column_of(type_ids[i]).is_none() {
                proof {
                    assert(type_ids@.to_set().contains(type_ids@[i as int]));
                    assert(!self.types().to_set().contains(type_ids@[i as int]));
                }
                return false;
            }
            i += 1;
        }
        let mut j: usize = 0;
        while j < self.type_ids.len()
            invariant
                self.wf(),
                j <= self.type_ids@.len(),
                forall|k: int| 0 <= k < type_ids@.len() ==> self.types().contains(#[trigger] type_ids@[k]),
                forall|k: int| 0 <= k < j ==> type_ids@.contains(#[trigger] self.type_ids@[k]),
            decreases self.type_ids@.len() - j,
        {
            let t = self.type_ids[j];
            let mut found = false;
            let mut i: usize = 0;
            while i < type_ids.len()
                invariant
                    i <= type_ids@.len(),
                    found ==> type_ids@.contains(t),
                    !found ==> forall|k: int| 0 <= k < i ==> type_ids@[k] != t,
                decreases type_ids@.len() - i,
            {
                if type_ids[i] == t {
                    found = true;
                }
                i += 1;
            }
            if !found {
                proof {
                    assert(self.types().to_set().contains(t));
                    assert(!type_ids@.to_set().contains(t));
                }
                return false;
            }
            j += 1;
        }
        assert(self.types().to_set() =~= type_ids@.to_set());
        true
    }

    /// The slot indices of the archetype's entities, read from its first
    /// column; every column holds the same ones.
    pub fn indices(&self) -> (r: &[usize])
        requires
            self.wf(),
            self.uniform(),
            self.types().len() > 0,
        ensures
            r@.to_set() == self.rows(),
    {
        let r = self.columns[0].indices();
        proof {
            self.columns@[0].lemma_dense_order();
            assert forall|i: usize| #[trigger] self.rows().contains(i) == r@.to_set().contains(i) by {
                if self.rows().contains(i) {
                    self.lemma_column(0, i);
                    assert(self.types().to_set().contains(self.type_ids@[0]));
                }
                if r@.to_set().contains(i) {
                    assert(self.columns@[0]@.contains_key(i));
                }
            }
            assert(r@.to_set() =~= self.rows());
        }
        r
    }

    /// The number of entities, for an archetype whose entities all have a
    /// record in every column.
    pub fn len(&self) -> (r: usize)
        requires
            self.wf(),
            self.uniform(),
        ensures
            r == self.rows().len(),
    {
        if self.columns.len() == 0 {
            proof {
                assert(self.rows() =~= Set::<usize>::empty());
            }
            return 0;
        }
        let r = self.columns[0].len();
        proof {
            self.columns@[0].lemma_dense_order();
            assert forall|i: usize| #[trigger] self.rows().contains(i) == self.columns@[0]@.dom().contains(i) by {
                if self.rows().contains(i) {
                    self.lemma_column(0, i);
                    assert(self.types().to_set().contains(self.type_ids@[0]));
                }
                if self.columns@[0]@.dom().contains(i) {
                    self.lemma_column(0, i);
                }
            }
            assert(self.rows() =~= self.columns@[0]@.dom());
        }
        r
    }
}

} // verus!
