use super::{
    apply_component_changes, changes_to_pairs, changes_values, has_key,
    lemma_changes_to_pairs_sorted, lemma_pair_count_matches, pair_count_lt, pairs_sorted,
    reversed, spec_apply, zip_model, ComponentChange, ComponentCollection, ComponentRef,
};
use crate::entity::vec_map::VecEntityMap;
use crate::entity::{count_lt, strictly_sorted, Entity, EntityMap};
use vstd::prelude::*;

verus! {

/// Component ref for the CopyOnWriteComponentCollection.  It borrows the
/// stored value and stages any update in a slot of its own; nothing takes
/// effect until the staged change is passed back through `apply`.
#[derive(Debug)]
pub struct CopyOnWriteComponentRef<'a, T> {
    unbound: bool,
    this: &'a T,
    out: Option<T>,
}

impl<'a, T> CopyOnWriteComponentRef<'a, T> {
    /// A fresh ref over the borrowed value.
    pub fn new(this: &'a T) -> (r: Self)
        ensures
            !r.touched(),
            !r.unbound(),
            r.current() == *this,
    {
        let unbound = false;
        let out = None;
        Self { unbound, this, out }
    }

    /// Consume this reference and make a ComponentChange: the unbind mark
    /// wins over a staged value, and an untouched ref reports no change.
    pub fn change(self) -> (c: ComponentChange<T>)
        ensures
            c == if self.unbound() {
                ComponentChange::Unbind
            } else if self.touched() {
                ComponentChange::Value(self.current())
            } else {
                ComponentChange::<T>::NoChange
            },
    {
        if self.unbound {
            ComponentChange::Unbind
        } else if let Some(value) = self.out {
            ComponentChange::Value(value)
        } else {
            ComponentChange::NoChange
        }
    }
}

impl<'a, T> ComponentRef<T> for CopyOnWriteComponentRef<'a, T> {
    closed spec fn slot(&self) -> int {
        0
    }

    closed spec fn current(&self) -> T {
        match self.out {
            Some(v) => v,
            None => *self.this,
        }
    }

    closed spec fn touched(&self) -> bool {
        self.out is Some
    }

    closed spec fn unbound(&self) -> bool {
        self.unbound
    }

    fn read(&self) -> (r: &T) {
        match &self.out {
            Some(v) => v,
            None => self.this,
        }
    }

    fn unbind(&mut self) {
        self.unbound = true;
    }

    fn update(&mut self, v: T) {
        self.out = Some(v);
    }
}

/// CopyOnWrite component collection maintains a set of components in order,
/// sorted by entity.  Updates and unbinds made through its refs are staged as
/// ComponentChange values that take effect only when passed to `apply`.
#[derive(Debug)]
pub struct CopyOnWriteComponentCollection<E: Entity, T> {
    entities: VecEntityMap<E>,
    components: Vec<T>,
}

impl<E: Entity, T> CopyOnWriteComponentCollection<E, T> {
    /// Get a reference to the component held for the entity, if it exists.
    pub fn get_ref<'a>(&'a self, entity: E) -> (r: Option<CopyOnWriteComponentRef<'a, T>>)
        requires
            self.wf(),
        ensures
            r is Some <==> has_key(self.model(), entity.key()),
            r is Some ==> {
                let rf = r->Some_0;
                &&& !rf.touched()
                &&& !rf.unbound()
                &&& rf.current() == self.model()[pair_count_lt(self.model(), entity)].1
                &&& self.model()[pair_count_lt(self.model(), entity)].0 == entity
            },
    {
        proof {
            if has_key(self.model(), entity.key()) {
                let i = choose|i: int|
                    0 <= i < self.model().len() && self.model()[i].0.key() == entity.key();
                self.entities.ents()[i].lemma_key_injective(entity);
                assert(self.entities.ents().contains(entity));
            }
            if self.entities.ents().contains(entity) {
                let i = choose|i: int|
                    0 <= i < self.entities.ents().len() && self.entities.ents()[i] == entity;
                assert(self.model()[i].0.key() == entity.key());
            }
            lemma_pair_count_matches(self.model(), self.entities.ents(), entity);
        }
        match self.entities.exact_offset_of(entity) {
            Some(offset) => Some(CopyOnWriteComponentRef::new(&self.components[offset])),
            None => None,
        }
    }

    /// Apply the changes to this collection.  Passing a change vector not
    /// sorted by entity is refused.
    pub fn apply(&mut self, changes: Vec<(E, ComponentChange<T>)>)
        requires
            old(self).wf(),
            pairs_sorted(changes@),
        ensures
            final(self).wf(),
            final(self).model() == spec_apply(old(self).model(), changes@),
    {
        let mut taken = Self::new_empty();
        core::mem::swap(self, &mut taken);
        let mut applied = apply_component_changes(taken, changes);
        core::mem::swap(self, &mut applied);
    }
}

impl<E: Entity, T> ComponentCollection<E, T> for CopyOnWriteComponentCollection<E, T> {
    closed spec fn model(&self) -> Seq<(E, T)> {
        zip_model(self.entities.ents(), self.components@)
    }

    closed spec fn wf(&self) -> bool {
        self.entities.wf() && self.components@.len() == self.entities.ents().len()
    }

    proof fn lemma_wf_sorted(&self) {
        self.entities.lemma_wf_sorted();
    }

    fn new_empty() -> (r: Self) {
        let entities = VecEntityMap::from_iter(Vec::new());
        let components = Vec::new();
        let r = Self { entities, components };
        proof {
            assert(r.model() =~= Seq::<(E, T)>::empty());
        }
        r
    }

    fn from_pairs(pairs: Vec<(E, T)>) -> (r: Self) {
        let ghost p0 = pairs@;
        let mut stack = reversed(pairs);
        let mut es: Vec<E> = Vec::new();
        let mut cs: Vec<T> = Vec::new();
        while stack.len() > 0
            invariant
                stack@.len() <= p0.len(),
                forall|k: int| 0 <= k < stack@.len() ==> stack@[k] == p0[p0.len() - 1 - k],
                es@.len() == p0.len() - stack@.len(),
                cs@.len() == es@.len(),
                forall|i: int| 0 <= i < es@.len() ==> es@[i] == p0[i].0 && cs@[i] == p0[i].1,
            decreases stack.len(),
        {
            proof {
                assert(stack@[stack@.len() - 1] == p0[p0.len() - stack@.len()]);
            }
            let (e, t) = stack.pop().unwrap();
            es.push(e);
            cs.push(t);
        }
        proof {
            assert(strictly_sorted(es@));
        }
        let entities = VecEntityMap::from_iter(es);
        let r = Self { entities, components: cs };
        proof {
            assert(r.model() =~= p0);
        }
        r
    }

    fn from_changes(changes: Vec<(E, ComponentChange<T>)>) -> (r: Self) {
        proof {
            lemma_changes_to_pairs_sorted(changes@);
        }
        let pairs = changes_values(changes);
        Self::from_pairs(pairs)
    }

    fn is_empty(&self) -> bool {
        self.entities.is_empty()
    }

    fn len(&self) -> usize {
        self.entities.len()
    }

    fn lower_bound(&self, lower_bound: E) -> (r: Option<E>) {
        let r = self.entities.lower_bound(lower_bound);
        proof {
            lemma_pair_count_matches(self.model(), self.entities.ents(), lower_bound);
            self.entities.lemma_wf_sorted();
            crate::entity::lemma_count_lt_properties(self.entities.ents(), lower_bound);
        }
        r
    }

    fn consume(self) -> (r: Vec<(E, T)>) {
        let ghost m0 = self.model();
        let es = self.entities.to_vec();
        let mut comps = self.components;
        let mut rev: Vec<(E, T)> = Vec::new();
        let mut i = es.len();
        proof {
            assert(comps@.take(comps@.len() as int) =~= comps@);
        }
        while comps.len() > 0
            invariant
                i == comps@.len(),
                i <= es@.len(),
                es@.len() == m0.len(),
                comps@ =~= comps@.take(i as int),
                forall|k: int| 0 <= k < m0.len() ==> m0[k] == (es@[k], comps@.take(i as int)[k])
                    || k >= i,
                forall|k: int| 0 <= k < i ==> m0[k] == (es@[k], comps@[k]),
                rev@.len() == m0.len() - i,
                forall|k: int| 0 <= k < rev@.len() ==> rev@[k] == m0[m0.len() - 1 - k],
            decreases comps.len(),
        {
            let t = comps.pop().unwrap();
            i = i - 1;
            rev.push((es[i], t));
        }
        let r = reversed(rev);
        proof {
            assert(r@ =~= m0);
        }
        r
    }
}

impl<E: Entity, T> Default for CopyOnWriteComponentCollection<E, T> {
    /// The empty collection.
    fn default() -> (r: Self)
        ensures
            r.wf(),
            r.model() == Seq::<(E, T)>::empty(),
    {
        Self::new_empty()
    }
}

} // verus!
