use super::{
    changes_to_pairs, changes_values, has_key, lemma_changes_to_pairs_sorted,
    lemma_pair_count_lt_properties, lemma_pair_count_matches, lemma_pair_offset_is_count_lt,
    lemma_spec_apply_concat, lemma_spec_apply_single, pair_count_lt, pairs_sorted, reversed,
    spec_apply, ComponentChange, ComponentCollection, ComponentRef,
};
use crate::entity::vec_map::VecEntityMap;
use crate::entity::{count_lt, strictly_sorted, Entity, EntityMap};
use vstd::prelude::*;

verus! {

/// The ComponentRef for InsertOptimizedComponentCollection.  The component
/// value is checked out of its storage slot for the duration of the step;
/// `put_ref` commits updates in place and performs an unbind immediately, so
/// such a ref never reports a change at all.
#[derive(Debug)]
pub struct InsertOptimizedComponentRef<T> {
    unbound: bool,
    touched: bool,
    value: T,
    offset: usize,
}

impl<T> InsertOptimizedComponentRef<T> {
    /// A fresh ref holding the checked-out value of entity offset `offset`.
    pub fn new(value: T, offset: usize) -> (r: Self)
        ensures
            !r.touched(),
            !r.unbound(),
            r.current() == value,
            r.slot() == offset as int,
    {
        let unbound = false;
        let touched = false;
        Self { unbound, touched, value, offset }
    }
}

impl<T> ComponentRef<T> for InsertOptimizedComponentRef<T> {
    closed spec fn slot(&self) -> int {
        self.offset as int
    }

    closed spec fn current(&self) -> T {
        self.value
    }

    closed spec fn touched(&self) -> bool {
        self.touched
    }

    closed spec fn unbound(&self) -> bool {
        self.unbound
    }

    fn read(&self) -> (r: &T) {
        &self.value
    }

    fn unbind(&mut self) {
        self.unbound = true;
    }

    fn update(&mut self, v: T) {
        self.touched = true;
        self.value = v;
    }
}

/// An insert-optimized component collection: entity offsets map to storage
/// slots, vacated slots go on a free list, and single insertions or removals
/// touch only their own slot.  Designed for small, scattered edits; for
/// changes that touch many components the other collections are preferred.
#[derive(Debug)]
pub struct InsertOptimizedComponentCollection<E: Entity, T> {
    entities: VecEntityMap<E>,
    slots: Vec<usize>,
    components: Vec<Option<T>>,
    free: Vec<usize>,
}

impl<E: Entity, T> InsertOptimizedComponentCollection<E, T> {
    /// The collection with the component of the pair at `idx` of `m` checked
    /// out of its slot.
    pub closed spec fn lent(&self, m: Seq<(E, T)>, idx: int) -> bool {
        &&& self.entities.wf()
        &&& self.slots@.len() == self.entities.ents().len()
        &&& m.len() == self.entities.ents().len()
        &&& 0 <= idx < m.len()
        &&& forall|j: int| 0 <= j < m.len() ==> m[j].0 == self.entities.ents()[j]
        &&& forall|i: int|
            0 <= i < self.slots@.len() ==> #[trigger] self.slots@[i] < self.components@.len()
        &&& forall|i: int, j: int|
            0 <= i < j < self.slots@.len() ==> self.slots@[i] != self.slots@[j]
        &&& forall|j: int|
            0 <= j < m.len() && j != idx ==> self.components@[self.slots@[j] as int] == Some(
                m[j].1,
            )
        &&& self.components@[self.slots@[idx] as int] is None
        &&& forall|k: int|
            0 <= k < self.free@.len() ==> #[trigger] self.free@[k] < self.components@.len()
                && self.components@[self.free@[k] as int] is None
                && self.free@[k] != self.slots@[idx]
        &&& forall|i: int, j: int|
            0 <= i < j < self.free@.len() ==> self.free@[i] != self.free@[j]
    }

    /// Bind the provided component to the specified entity: replace in place
    /// when the entity is present, returning the previous component, else
    /// insert, reusing a free slot when one exists.
    pub fn insert(&mut self, entity: E, component: T) -> (r: Option<T>)
        requires
            old(self).wf(),
        ensures
            final(self).wf(),
            r is Some <==> has_key(old(self).model(), entity.key()),
            has_key(old(self).model(), entity.key()) ==> {
                let k = pair_count_lt(old(self).model(), entity);
                &&& r == Some(old(self).model()[k].1)
                &&& final(self).model() == old(self).model().update(
                    k,
                    (old(self).model()[k].0, component),
                )
            },
            !has_key(old(self).model(), entity.key()) ==> final(self).model() == old(
                self,
            ).model().insert(pair_count_lt(old(self).model(), entity), (entity, component)),
    {
        let ghost m0 = self.model();
        proof {
            self.lemma_wf_sorted();
            if has_key(m0, entity.key()) {
                let i = choose|i: int| 0 <= i < m0.len() && m0[i].0.key() == entity.key();
                self.entities.ents()[i].lemma_key_injective(entity);
                assert(self.entities.ents().contains(entity));
            }
            if self.entities.ents().contains(entity) {
                let i = choose|i: int|
                    0 <= i < self.entities.ents().len() && self.entities.ents()[i] == entity;
                assert(m0[i].0.key() == entity.key());
            }
            lemma_pair_count_matches(m0, self.entities.ents(), entity);
        }
        match self.entities.exact_offset_of(entity) {
            Some(offset) => {
                let slot = self.slots[offset];
                let prev = self.components[slot].take();
                self.components[slot] = Some(component);
                proof {
                    assert forall|j: int|
                        0 <= j < self.slots@.len() && j != offset implies self.components@[
                            self.slots@[j] as int
                        ] == old(self).components@[self.slots@[j] as int] by {}
                    assert(self.model() =~= m0.update(
                        offset as int,
                        (m0[offset as int].0, component),
                    ));
                }
                prev
            },
            None => {
                let idx = match self.free.pop() {
                    Some(f) => {
                        self.components[f] = Some(component);
                        f
                    },
                    None => {
                        self.components.push(Some(component));
                        self.components.len() - 1
                    },
                };
                let offset = self.entities.offset_of(entity);
                proof {
                    assert forall|j: int|
                        offset <= j < self.entities.ents().len() implies self.entities.ents()[
                            j
                        ].key() > entity.key() by {
                        if self.entities.ents()[j].key() == entity.key() {
                            self.entities.ents()[j].lemma_key_injective(entity);
                            assert(self.entities.ents().contains(entity));
                        }
                    }
                }
                self.entities.insert_at(offset, entity);
                self.slots.insert(offset, idx);
                proof {
                    let e1 = self.entities.ents();
                    let s1 = self.slots@;
                    assert(e1 == old(self).entities.ents().insert(offset as int, entity));
                    assert(s1 == old(self).slots@.insert(offset as int, idx));
                    assert forall|j: int| 0 <= j < s1.len() implies (
                        if j < offset {
                            s1[j] == old(self).slots@[j] && e1[j] == old(self).entities.ents()[j]
                        } else if j == offset {
                            s1[j] == idx && e1[j] == entity
                        } else {
                            s1[j] == old(self).slots@[j - 1] && e1[j] == old(
                                self,
                            ).entities.ents()[j - 1]
                        }
                    ) by {}
                    assert(self.model() =~= m0.insert(offset as int, (entity, component)));
                }
                None
            },
        }
    }

    /// Check out a ref to the component held for the entity, if it exists.
    pub fn get_ref(&mut self, entity: E) -> (r: Option<InsertOptimizedComponentRef<T>>)
        requires
            old(self).wf(),
        ensures
            r is Some <==> has_key(old(self).model(), entity.key()),
            r is None ==> *final(self) == *old(self),
            r is Some ==> {
                let rf = r->Some_0;
                &&& !rf.touched()
                &&& !rf.unbound()
                &&& rf.slot() == pair_count_lt(old(self).model(), entity)
                &&& rf.current() == old(self).model()[rf.slot()].1
                &&& old(self).model()[rf.slot()].0 == entity
                &&& final(self).lent(old(self).model(), rf.slot())
            },
    {
        proof {
            if has_key(self.model(), entity.key()) {
                let i = choose|i: int|
                    0 <= i < self.model().len() && self.model()[i].0.key() == entity.key();
                self.entities.ents()[i].lemma_key_injective(entity);
                assert(self.entities.ents().contains(entity));
            }
            if self.entities.ents().contains(entity) {
                let i = choose|i: int|
                    0 <= i < self.entities.ents().len() && self.entities.ents()[i] == entity;
                assert(self.model()[i].0.key() == entity.key());
            }
            lemma_pair_count_matches(self.model(), self.entities.ents(), entity);
        }
        match self.entities.exact_offset_of(entity) {
            Some(offset) => {
                let slot = self.slots[offset];
                let taken = self.components[slot].take();
                proof {
                    assert forall|j: int|
                        0 <= j < self.slots@.len() && j != offset implies self.components@[
                            self.slots@[j] as int
                        ] == Some(old(self).model()[j].1) by {}
                }
                Some(InsertOptimizedComponentRef::new(taken.unwrap(), offset))
            },
            None => None,
        }
    }

    /// Check a ref back in.  An update is committed in place; an unbind
    /// takes effect immediately, freeing the slot.  Either way the returned
    /// change is no change: this collection's mutations never flow through
    /// `apply`.
    pub fn put_ref(
        &mut self,
        r: InsertOptimizedComponentRef<T>,
        Ghost(m): Ghost<Seq<(E, T)>>,
    ) -> (c: ComponentChange<T>)
        requires
            old(self).lent(m, r.slot()),
        ensures
            final(self).wf(),
            final(self).model() == if r.unbound() {
                m.remove(r.slot())
            } else {
                m.update(r.slot(), (m[r.slot()].0, r.current()))
            },
            c is NoChange,
    {
        let InsertOptimizedComponentRef { unbound, touched, value, offset } = r;
        if unbound {
            let slot = self.slots[offset];
            self.entities.remove_at(offset);
            self.slots.remove(offset);
            self.free.push(slot);
            proof {
                let e1 = self.entities.ents();
                let s1 = self.slots@;
                assert forall|j: int| 0 <= j < s1.len() implies (
                    if j < offset {
                        s1[j] == old(self).slots@[j] && e1[j] == old(self).entities.ents()[j]
                    } else {
                        s1[j] == old(self).slots@[j + 1] && e1[j] == old(self).entities.ents()[
                            j + 1
                        ]
                    }
                ) by {}
                assert(self.model() =~= m.remove(offset as int));
            }
        } else {
            self.components[self.slots[offset]] = Some(value);
            proof {
                assert forall|j: int|
                    0 <= j < self.slots@.len() && j != offset implies self.components@[
                        self.slots@[j] as int
                    ] == Some(m[j].1) by {}
                assert(self.model() =~= m.update(offset as int, (m[offset as int].0, value)));
            }
        }
        ComponentChange::NoChange
    }

    /// Remove the entity's component, if present, freeing its slot.
    fn remove_entity(&mut self, entity: E)
        requires
            old(self).wf(),
        ensures
            final(self).wf(),
            final(self).model() == if has_key(old(self).model(), entity.key()) {
                old(self).model().remove(pair_count_lt(old(self).model(), entity))
            } else {
                old(self).model()
            },
    {
        let ghost m0 = self.model();
        let r = self.get_ref(entity);
        match r {
            Some(mut rf) => {
                rf.unbind();
                self.put_ref(rf, Ghost(m0));
            },
            None => {},
        }
    }

    /// Apply the changes to this collection, the short path: walk the change
    /// stream and perform each entry directly.  A value change binds or
    /// replaces; an unbind removes; a no-change is dropped.  Passing a change
    /// vector not sorted by entity is refused.
    pub fn apply(&mut self, changes: Vec<(E, ComponentChange<T>)>)
        requires
            old(self).wf(),
            pairs_sorted(changes@),
        ensures
            final(self).wf(),
            final(self).model() == spec_apply(old(self).model(), changes@),
    {
        let ghost m0 = self.model();
        let ghost c0 = changes@;
        let mut stack = reversed(changes);
        proof {
            assert(c0.skip(0) =~= c0);
        }
        while stack.len() > 0
            invariant
                self.wf(),
                pairs_sorted(c0),
                stack@.len() <= c0.len(),
                forall|k: int| 0 <= k < stack@.len() ==> stack@[k] == c0[c0.len() - 1 - k],
                spec_apply(self.model(), c0.skip(c0.len() - stack@.len())) == spec_apply(m0, c0),
            decreases stack.len(),
        {
            let ghost j = c0.len() - stack@.len();
            let ghost cur = self.model();
            let ghost crem = c0.skip(j);
            proof {
                assert(stack@[stack@.len() - 1] == c0[j]);
                assert(crem[0] == c0[j]);
                assert(crem.drop_first() =~= c0.skip(j + 1));
                self.lemma_wf_sorted();
                assert(pairs_sorted(crem)) by {
                    assert(forall|a: int|
                        0 <= a < crem.len() ==> crem[a] == c0[j + a]);
                    assert forall|a: int, b: int| 0 <= a < b < crem.len() implies crem[
                        a
                    ].0.key() < crem[b].0.key() by {
                        assert(crem[a] == c0[j + a] && crem[b] == c0[j + b]);
                    }
                }
                assert(seq![crem[0]] + c0.skip(j + 1) =~= crem);
                lemma_spec_apply_concat(cur, seq![crem[0]], c0.skip(j + 1));
                lemma_spec_apply_single(cur, crem[0]);
            }
            let (e, ch) = stack.pop().unwrap();
            match ch {
                ComponentChange::NoChange => {},
                ComponentChange::Unbind => {
                    self.remove_entity(e);
                },
                ComponentChange::Value(v) => {
                    self.insert(e, v);
                },
            }
            proof {
                assert(self.model() == spec_apply(cur, seq![c0[j]]));
            }
        }
        proof {
            assert(c0.skip(c0.len() as int).len() == 0);
        }
    }
}

impl<E: Entity, T> ComponentCollection<E, T> for InsertOptimizedComponentCollection<E, T> {
    closed spec fn model(&self) -> Seq<(E, T)> {
        Seq::new(
            self.entities.ents().len(),
            |i: int| (self.entities.ents()[i], self.components@[self.slots@[i] as int]->Some_0),
        )
    }

    closed spec fn wf(&self) -> bool {
        &&& self.entities.wf()
        &&& self.slots@.len() == self.entities.ents().len()
        &&& forall|i: int|
            0 <= i < self.slots@.len() ==> #[trigger] self.slots@[i] < self.components@.len()
                && self.components@[self.slots@[i] as int] is Some
        &&& forall|i: int, j: int|
            0 <= i < j < self.slots@.len() ==> self.slots@[i] != self.slots@[j]
        &&& forall|k: int|
            0 <= k < self.free@.len() ==> #[trigger] self.free@[k] < self.components@.len()
                && self.components@[self.free@[k] as int] is None
        &&& forall|i: int, j: int|
            0 <= i < j < self.free@.len() ==> self.free@[i] != self.free@[j]
    }

    proof fn lemma_wf_sorted(&self) {
        self.entities.lemma_wf_sorted();
    }

    fn new_empty() -> (r: Self) {
        let entities = VecEntityMap::from_iter(Vec::new());
        let slots = Vec::new();
        let components = Vec::new();
        let free = Vec::new();
        let r = Self { entities, slots, components, free };
        proof {
            assert(r.model() =~= Seq::<(E, T)>::empty());
        }
        r
    }

    fn from_pairs(pairs: Vec<(E, T)>) -> (r: Self) {
        let ghost p0 = pairs@;
        let mut stack = reversed(pairs);
        let mut es: Vec<E> = Vec::new();
        let mut slots: Vec<usize> = Vec::new();
        let mut cs: Vec<Option<T>> = Vec::new();
        while stack.len() > 0
            invariant
                stack@.len() <= p0.len(),
                forall|k: int| 0 <= k < stack@.len() ==> stack@[k] == p0[p0.len() - 1 - k],
                es@.len() == p0.len() - stack@.len(),
                cs@.len() == es@.len(),
                slots@.len() == es@.len(),
                forall|i: int| 0 <= i < es@.len() ==> es@[i] == p0[i].0,
                forall|i: int| 0 <= i < cs@.len() ==> cs@[i] == Some(p0[i].1),
                forall|i: int| 0 <= i < slots@.len() ==> #[trigger] slots@[i] == i,
            decreases stack.len(),
        {
            let ghost done = p0.len() - stack@.len();
            proof {
                assert(stack@[stack@.len() - 1] == p0[done]);
            }
            let (e, t) = stack.pop().unwrap();
            es.push(e);
            slots.push(cs.len());
            cs.push(Some(t));
            proof {
                assert(es@.len() == done + 1);
                assert(es@[done] == p0[done].0);
                assert(cs@[done] == Some(p0[done].1));
                assert(slots@[done] == done);
            }
        }
        proof {
            assert(strictly_sorted(es@));
        }
        let entities = VecEntityMap::from_iter(es);
        let free = Vec::new();
        let r = Self { entities, slots, components: cs, free };
        proof {
            assert(r.model() =~= p0);
        }
        r
    }

    fn from_changes(changes: Vec<(E, ComponentChange<T>)>) -> (r: Self) {
        proof {
            lemma_changes_to_pairs_sorted(changes@);
        }
        let pairs = changes_values(changes);
        Self::from_pairs(pairs)
    }

    fn is_empty(&self) -> bool {
        self.entities.is_empty()
    }

    fn len(&self) -> usize {
        self.entities.len()
    }

    fn lower_bound(&self, lower_bound: E) -> (r: Option<E>) {
        let r = self.entities.lower_bound(lower_bound);
        proof {
            lemma_pair_count_matches(self.model(), self.entities.ents(), lower_bound);
            self.entities.lemma_wf_sorted();
            crate::entity::lemma_count_lt_properties(self.entities.ents(), lower_bound);
        }
        r
    }

    fn consume(self) -> (r: Vec<(E, T)>) {
        let ghost m0 = self.model();
        let ghost slots0 = self.slots@;
        let ghost comps0 = self.components@;
        let es = self.entities.to_vec();
        let Self { entities: _, slots, mut components, free: _ } = self;
        let mut out: Vec<(E, T)> = Vec::new();
        let mut i: usize = 0;
        while i < es.len()
            invariant
                i <= es@.len(),
                es@.len() == m0.len(),
                slots@ == slots0,
                slots0.len() == m0.len(),
                components@.len() == comps0.len(),
                forall|j: int|
                    0 <= j < slots0.len() ==> #[trigger] slots0[j] < comps0.len(),
                forall|a: int, b: int| 0 <= a < b < slots0.len() ==> slots0[a] != slots0[b],
                forall|j: int|
                    i <= j < m0.len() ==> components@[slots0[j] as int] == comps0[
                        slots0[j] as int
                    ] && comps0[slots0[j] as int] is Some,
                forall|j: int| i <= j < m0.len() ==> m0[j] == (
                    es@[j],
                    comps0[slots0[j] as int]->Some_0,
                ),
                out@ == m0.take(i as int),
            decreases es.len() - i,
        {
            let ghost out0 = out@;
            let slot = slots[i];
            let t = take_slot(&mut components, slot);
            out.push((es[i], t));
            proof {
                assert(out@ =~= m0.take(i + 1));
            }
            i = i + 1;
        }
        proof {
            assert(m0.take(m0.len() as int) =~= m0);
        }
        out
    }
}

/// Take the value out of the slot, which must be filled.
fn take_slot<T>(components: &mut Vec<Option<T>>, slot: usize) -> (t: T)
    requires
        slot < old(components)@.len(),
        old(components)@[slot as int] is Some,
    ensures
        final(components)@.len() == old(components)@.len(),
        final(components)@[slot as int] is None,
        forall|j: int|
            0 <= j < old(components)@.len() && j != slot ==> final(components)@[j] == old(
                components,
            )@[j],
        t == old(components)@[slot as int]->Some_0,
{
    let taken = components[slot].take();
    taken.unwrap()
}

impl<E: Entity, T> Default for InsertOptimizedComponentCollection<E, T> {
    /// The empty collection.
    fn default() -> (r: Self)
        ensures
            r.wf(),
            r.model() == Seq::<(E, T)>::empty(),
    {
        Self::new_empty()
    }
}

} // verus!
