use super::{
    changes_to_pairs, changes_values, has_key, lemma_changes_to_pairs_sorted,
    lemma_pair_count_matches, pair_count_lt, pairs_sorted, reversed, spec_apply, zip_model,
    apply_component_changes, ComponentChange, ComponentCollection, ComponentRef,
};
use crate::entity::vec_map::VecEntityMap;
use crate::entity::{count_lt, strictly_sorted, Entity, EntityMap};
use vstd::prelude::*;

verus! {

/// The ComponentRef for MutableComponentCollection.  The component value is
/// checked out of the collection for the duration of the step; updates act on
/// it directly, and `put_ref` checks it back in.  Because mutation has
/// already happened when the ref is returned, such a ref never reports a
/// value change: only an unbind mark flows through `apply`.
#[derive(Debug)]
pub struct MutableComponentRef<T> {
    unbound: bool,
    touched: bool,
    value: T,
    idx: usize,
}

impl<T> MutableComponentRef<T> {
    /// A fresh ref holding the checked-out value of offset `idx`.
    pub fn new(value: T, idx: usize) -> (r: Self)
        ensures
            !r.touched(),
            !r.unbound(),
            r.current() == value,
            r.slot() == idx as int,
    {
        let unbound = false;
        let touched = false;
        Self { unbound, touched, value, idx }
    }
}

impl<T> ComponentRef<T> for MutableComponentRef<T> {
    closed spec fn slot(&self) -> int {
        self.idx as int
    }

    closed spec fn current(&self) -> T {
        self.value
    }

    closed spec fn touched(&self) -> bool {
        self.touched
    }

    closed spec fn unbound(&self) -> bool {
        self.unbound
    }

    fn read(&self) -> (r: &T) {
        &self.value
    }

    fn unbind(&mut self) {
        self.unbound = true;
    }

    fn update(&mut self, v: T) {
        self.touched = true;
        self.value = v;
    }
}

/// A ComponentCollection that allows components to be mutated in place.
/// Useful when most entities will be changed by a system: a value updated
/// through a ref is already committed when the ref is checked back in, so
/// `apply` only has unbinds and inserts left to do.
#[derive(Debug)]
pub struct MutableComponentCollection<E: Entity, T> {
    entities: VecEntityMap<E>,
    components: Vec<Option<T>>,
}

impl<E: Entity, T> MutableComponentCollection<E, T> {
    /// The collection with the component of the pair at `idx` of `m` checked
    /// out: every other slot still holds its value.
    pub closed spec fn lent(&self, m: Seq<(E, T)>, idx: int) -> bool {
        &&& self.entities.wf()
        &&& self.components@.len() == self.entities.ents().len()
        &&& m.len() == self.entities.ents().len()
        &&& 0 <= idx < m.len()
        &&& forall|j: int| 0 <= j < m.len() ==> m[j].0 == self.entities.ents()[j]
        &&& forall|j: int|
            0 <= j < m.len() && j != idx ==> self.components@[j] == Some(m[j].1)
        &&& self.components@[idx] is None
    }

    /// Check out a ref to the component held for the entity, if it exists.
    /// The collection is in the lent state until `put_ref` returns the value.
    pub fn get_ref(&mut self, entity: E) -> (r: Option<MutableComponentRef<T>>)
        requires
            old(self).wf(),
        ensures
            r is Some <==> has_key(old(self).model(), entity.key()),
            r is None ==> *final(self) == *old(self),
            r is Some ==> {
                let rf = r->Some_0;
                &&& !rf.touched()
                &&& !rf.unbound()
                &&& rf.slot() == pair_count_lt(old(self).model(), entity)
                &&& rf.current() == old(self).model()[rf.slot()].1
                &&& old(self).model()[rf.slot()].0 == entity
                &&& final(self).lent(old(self).model(), rf.slot())
            },
    {
        proof {
            if has_key(self.model(), entity.key()) {
                let i = choose|i: int|
                    0 <= i < self.model().len() && self.model()[i].0.key() == entity.key();
                self.entities.ents()[i].lemma_key_injective(entity);
                assert(self.entities.ents().contains(entity));
            }
            if self.entities.ents().contains(entity) {
                let i = choose|i: int|
                    0 <= i < self.entities.ents().len() && self.entities.ents()[i] == entity;
                assert(self.model()[i].0.key() == entity.key());
            }
            lemma_pair_count_matches(self.model(), self.entities.ents(), entity);
        }
        match self.entities.exact_offset_of(entity) {
            Some(offset) => {
                let taken = self.components[offset].take();
                Some(MutableComponentRef::new(taken.unwrap(), offset))
            },
            None => None,
        }
    }

    /// Check a ref back in, committing its value in place.  The returned
    /// change is the unbind mark or no change: a mutable ref never reports a
    /// value change, because the mutation has already happened.
    pub fn put_ref(
        &mut self,
        r: MutableComponentRef<T>,
        Ghost(m): Ghost<Seq<(E, T)>>,
    ) -> (c: ComponentChange<T>)
        requires
            old(self).lent(m, r.slot()),
        ensures
            final(self).wf(),
            final(self).model() == m.update(r.slot(), (m[r.slot()].0, r.current())),
            c == if r.unbound() {
                ComponentChange::<T>::Unbind
            } else {
                ComponentChange::<T>::NoChange
            },
    {
        let MutableComponentRef { unbound, touched, value, idx } = r;
        self.components[idx] = Some(value);
        proof {
            assert(self.model() =~= m.update(idx as int, (m[idx as int].0, value)));
        }
        if unbound {
            ComponentChange::Unbind
        } else {
            ComponentChange::NoChange
        }
    }

    /// Apply the changes to this collection.  Passing a change vector not
    /// sorted by entity is refused.
    pub fn apply(&mut self, changes: Vec<(E, ComponentChange<T>)>)
        requires
            old(self).wf(),
            pairs_sorted(changes@),
        ensures
            final(self).wf(),
            final(self).model() == spec_apply(old(self).model(), changes@),
    {
        let mut taken = Self::new_empty();
        core::mem::swap(self, &mut taken);
        let mut applied = apply_component_changes(taken, changes);
        core::mem::swap(self, &mut applied);
    }
}

impl<E: Entity, T> ComponentCollection<E, T> for MutableComponentCollection<E, T> {
    closed spec fn model(&self) -> Seq<(E, T)> {
        Seq::new(
            self.entities.ents().len(),
            |i: int| (self.entities.ents()[i], self.components@[i]->Some_0),
        )
    }

    closed spec fn wf(&self) -> bool {
        &&& self.entities.wf()
        &&& self.components@.len() == self.entities.ents().len()
        &&& forall|i: int| 0 <= i < self.components@.len() ==> self.components@[i] is Some
    }

    proof fn lemma_wf_sorted(&self) {
        self.entities.lemma_wf_sorted();
    }

    fn new_empty() -> (r: Self) {
        let entities = VecEntityMap::from_iter(Vec::new());
        let components = Vec::new();
        let r = Self { entities, components };
        proof {
            assert(r.model() =~= Seq::<(E, T)>::empty());
        }
        r
    }

    fn from_pairs(pairs: Vec<(E, T)>) -> (r: Self) {
        let ghost p0 = pairs@;
        let mut stack = reversed(pairs);
        let mut es: Vec<E> = Vec::new();
        let mut cs: Vec<Option<T>> = Vec::new();
        while stack.len() > 0
            invariant
                stack@.len() <= p0.len(),
                forall|k: int| 0 <= k < stack@.len() ==> stack@[k] == p0[p0.len() - 1 - k],
                es@.len() == p0.len() - stack@.len(),
                cs@.len() == es@.len(),
                forall|i: int|
                    0 <= i < es@.len() ==> es@[i] == p0[i].0 && cs@[i] == Some(p0[i].1),
            decreases stack.len(),
        {
            proof {
                assert(stack@[stack@.len() - 1] == p0[p0.len() - stack@.len()]);
            }
            let (e, t) = stack.pop().unwrap();
            es.push(e);
            cs.push(Some(t));
        }
        proof {
            assert(strictly_sorted(es@));
        }
        let entities = VecEntityMap::from_iter(es);
        let r = Self { entities, components: cs };
        proof {
            assert(r.model() =~= p0);
        }
        r
    }

    fn from_changes(changes: Vec<(E, ComponentChange<T>)>) -> (r: Self) {
        proof {
            lemma_changes_to_pairs_sorted(changes@);
        }
        let pairs = changes_values(changes);
        Self::from_pairs(pairs)
    }

    fn is_empty(&self) -> bool {
        self.entities.is_empty()
    }

    fn len(&self) -> usize {
        self.entities.len()
    }

    fn lower_bound(&self, lower_bound: E) -> (r: Option<E>) {
        let r = self.entities.lower_bound(lower_bound);
        proof {
            lemma_pair_count_matches(self.model(), self.entities.ents(), lower_bound);
            self.entities.lemma_wf_sorted();
            crate::entity::lemma_count_lt_properties(self.entities.ents(), lower_bound);
        }
        r
    }

    fn consume(self) -> (r: Vec<(E, T)>) {
        let ghost m0 = self.model();
        let es = self.entities.to_vec();
        let mut comps = self.components;
        let mut rev: Vec<(E, T)> = Vec::new();
        let mut i = es.len();
        proof {
            assert(comps@.take(comps@.len() as int) =~= comps@);
        }
        while comps.len() > 0
            invariant
                i == comps@.len(),
                i <= es@.len(),
                es@.len() == m0.len(),
                forall|k: int| 0 <= k < i ==> comps@[k] is Some,
                forall|k: int| 0 <= k < i ==> m0[k] == (es@[k], comps@[k]->Some_0),
                rev@.len() == m0.len() - i,
                forall|k: int| 0 <= k < rev@.len() ==> rev@[k] == m0[m0.len() - 1 - k],
            decreases comps.len(),
        {
            let t = comps.pop().unwrap();
            i = i - 1;
            rev.push((es[i], t.unwrap()));
        }
        let r = reversed(rev);
        proof {
            assert(r@ =~= m0);
        }
        r
    }
}

impl<E: Entity, T> Default for MutableComponentCollection<E, T> {
    /// The empty collection.
    fn default() -> (r: Self)
        ensures
            r.wf(),
            r.model() == Seq::<(E, T)>::empty(),
    {
        Self::new_empty()
    }
}

} // verus!
