use super::{count_lt, lemma_sorted_offset_is_count_lt, strictly_sorted, Entity, EntityMap};
use vstd::prelude::*;

verus! {

/// VecEntityMap uses binary search over a vector of entities held in strictly
/// ascending key order.
#[derive(Debug)]
pub struct VecEntityMap<E: Entity> {
    entities: Vec<E>,
}

impl<E: Entity> VecEntityMap<E> {
    /// Construction copies an externally sorted sequence; it does not
    /// re-sort, so ordering is the caller's responsibility.
    pub fn from_iter(entities: Vec<E>) -> (r: Self)
        requires
            strictly_sorted(entities@),
        ensures
            r.wf(),
            r.ents() == entities@,
    {
        Self { entities }
    }

    /// Insert an entity at the offset where it keeps the order: every entity
    /// before the offset must lie below it and every entity from the offset
    /// on must lie above it.
    pub fn insert_at(&mut self, offset: usize, entity: E)
        requires
            old(self).wf(),
            offset <= old(self).ents().len(),
            forall|j: int| 0 <= j < offset ==> old(self).ents()[j].key() < entity.key(),
            forall|j: int|
                offset <= j < old(self).ents().len() ==> old(self).ents()[j].key()
                    > entity.key(),
        ensures
            final(self).wf(),
            final(self).ents() == old(self).ents().insert(offset as int, entity),
    {
        let ghost e0 = self.entities@;
        self.entities.insert(offset, entity);
        proof {
            let e1 = self.entities@;
            assert(e1 == e0.insert(offset as int, entity));
            assert forall|i: int, j: int| 0 <= i < j < e1.len() implies e1[i].key()
                < e1[j].key() by {
                if i < offset && j < offset {
                    assert(e1[i] == e0[i] && e1[j] == e0[j]);
                } else if i < offset && j == offset {
                    assert(e1[i] == e0[i]);
                } else if i < offset && j > offset {
                    assert(e1[i] == e0[i] && e1[j] == e0[j - 1]);
                } else if i == offset {
                    assert(e1[j] == e0[j - 1]);
                } else {
                    assert(e1[i] == e0[i - 1] && e1[j] == e0[j - 1]);
                }
            }
        }
    }

    /// Remove the entity at the offset.
    pub fn remove_at(&mut self, offset: usize) -> (r: E)
        requires
            old(self).wf(),
            offset < old(self).ents().len(),
        ensures
            final(self).wf(),
            final(self).ents() == old(self).ents().remove(offset as int),
            r == old(self).ents()[offset as int],
    {
        let ghost e0 = self.entities@;
        let r = self.entities.remove(offset);
        proof {
            let e1 = self.entities@;
            assert(e1 == e0.remove(offset as int));
            assert forall|i: int, j: int| 0 <= i < j < e1.len() implies e1[i].key()
                < e1[j].key() by {
                let i0 = if i < offset {
                    i
                } else {
                    i + 1
                };
                let j0 = if j < offset {
                    j
                } else {
                    j + 1
                };
                assert(e1[i] == e0[i0] && e1[j] == e0[j0]);
            }
        }
        r
    }
}

impl<E: Entity> EntityMap<E> for VecEntityMap<E> {
    closed spec fn ents(&self) -> Seq<E> {
        self.entities@
    }

    closed spec fn wf(&self) -> bool {
        strictly_sorted(self.entities@)
    }

    proof fn lemma_wf_sorted(&self) {
    }

    fn is_empty(&self) -> bool {
        self.entities.len() == 0
    }

    fn len(&self) -> usize {
        self.entities.len()
    }

    fn get(&self, offset: usize) -> E {
        self.entities[offset]
    }

    fn offset_of(&self, entity: E) -> usize {
        let mut lo: usize = 0;
        let mut hi: usize = self.entities.len();
        while lo < hi
            invariant
                lo <= hi <= self.entities.len(),
                strictly_sorted(self.entities@),
                forall|j: int| 0 <= j < lo ==> self.entities@[j].key() < entity.key(),
                forall|j: int|
                    hi <= j < self.entities.len() ==> self.entities@[j].key() >= entity.key(),
            decreases hi - lo,
        {
            let mid = lo + (hi - lo) / 2;
            if self.entities[mid].lt(entity) {
                lo = mid + 1;
            } else {
                hi = mid;
            }
        }
        proof {
            lemma_sorted_offset_is_count_lt(self.entities@, entity, lo as int);
        }
        lo
    }

    fn exact_offset_of(&self, entity: E) -> (r: Option<usize>)
    {
        let offset = self.offset_of(entity);
        if offset < self.entities.len() && self.entities[offset].same(entity) {
            Some(offset)
        } else {
            proof {
                if self.ents().contains(entity) {
                    let i = choose|i: int|
                        0 <= i < self.ents().len() && self.ents()[i] == entity;
                    lemma_sorted_offset_is_count_lt(self.entities@, entity, i);
                }
            }
            None
        }
    }

    fn lower_bound(&self, entity: E) -> (r: Option<E>)
    {
        let offset = self.offset_of(entity);
        if offset < self.entities.len() {
            Some(self.entities[offset])
        } else {
            None
        }
    }

    fn to_vec(&self) -> (r: Vec<E>)
    {
        let mut out: Vec<E> = Vec::new();
        let mut i: usize = 0;
        while i < self.entities.len()
            invariant
                i <= self.entities.len(),
                out@ == self.entities@.take(i as int),
            decreases self.entities.len() - i,
        {
            out.push(self.entities[i]);
            proof {
                assert(out@ == self.entities@.take(i + 1));
            }
            i = i + 1;
        }
        proof {
            assert(self.entities@.take(self.entities@.len() as int) == self.entities@);
        }
        out
    }
}

} // verus!
