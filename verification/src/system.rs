use crate::component::cow::CopyOnWriteComponentCollection;
use crate::component::mutable::MutableComponentCollection;
use crate::component::{
    has_key, lemma_pair_count_lt_properties, lemma_pair_count_same_keys,
    lemma_pair_offset_is_count_lt, pair_count_lt, pairs_sorted, ComponentChange,
    ComponentCollection, ComponentRef,
};
use crate::entity::Entity;
use crate::partitioning::{
    in_partition_range, lemma_models_from_membership, lemma_models_from_sorted, models_from,
    opt_model, parts_in_range, parts_wf, Partitioned, PartitioningScheme,
};
use vstd::multiset::Multiset;
use vstd::prelude::*;

verus! {

/// A system over one component collection: a user-defined step that reads
/// one entity's component and stages changes through the ref it is handed.
/// The step's observable effect is pinned by two spec functions: whether it
/// unbinds the component, and the value it writes through the ref, if any,
/// both as functions of the entity and the component value it was shown.
pub trait System<E: Entity, T> {
    /// Whether processing this entity marks its component for removal.
    spec fn wants_unbind(&self, entity: E, value: T) -> bool;

    /// The value the step writes through the ref, when it writes one.
    spec fn new_value(&self, entity: E, value: T) -> Option<T>;

    /// Process one entity.  The ref starts fresh; afterwards its state is
    /// exactly what the two spec functions say of the value it showed.
    fn process<R: ComponentRef<T>>(&self, entity: E, r: &mut R)
        requires
            !old(r).touched(),
            !old(r).unbound(),
        ensures
            final(r).slot() == old(r).slot(),
            final(r).unbound() == self.wants_unbind(entity, old(r).current()),
            match self.new_value(entity, old(r).current()) {
                Some(v) => final(r).touched() && final(r).current() == v,
                None => !final(r).touched() && final(r).current() == old(r).current(),
            },
    ;
}

/// The change a system step stages for one entity of a copy-on-write
/// collection: the unbind mark wins, then a written value, else no change.
pub open spec fn system_change<E: Entity, T, S: System<E, T>>(
    sys: S,
    entity: E,
    value: T,
) -> ComponentChange<T> {
    if sys.wants_unbind(entity, value) {
        ComponentChange::Unbind
    } else {
        match sys.new_value(entity, value) {
            Some(v) => ComponentChange::Value(v),
            None => ComponentChange::NoChange,
        }
    }
}

/// The change vector a serial run over one copy-on-write collection
/// produces: the non-no-change results of processing every pair, in order.
pub open spec fn spec_run<E: Entity, T, S: System<E, T>>(
    sys: S,
    m: Seq<(E, T)>,
) -> Seq<(E, ComponentChange<T>)>
    decreases m.len(),
{
    if m.len() == 0 {
        Seq::empty()
    } else {
        let ch = system_change(sys, m[0].0, m[0].1);
        let rest = spec_run(sys, m.drop_first());
        if ch is NoChange {
            rest
        } else {
            seq![(m[0].0, ch)] + rest
        }
    }
}

/// Run outputs are sorted by construction: the changes of a run over a
/// sorted collection come in strictly ascending entity order, above any
/// bound below every key of the collection.
pub proof fn lemma_spec_run_sorted_above<E: Entity, T, S: System<E, T>>(
    sys: S,
    m: Seq<(E, T)>,
    lo: int,
)
    requires
        pairs_sorted(m),
        forall|i: int| 0 <= i < m.len() ==> m[i].0.key() > lo,
    ensures
        pairs_sorted(spec_run(sys, m)),
        forall|i: int| 0 <= i < spec_run(sys, m).len() ==> spec_run(sys, m)[i].0.key() > lo,
    decreases m.len(),
{
    if m.len() > 0 {
        let m1 = m.drop_first();
        assert(forall|i: int| 0 <= i < m1.len() ==> m1[i] == m[i + 1]);
        lemma_spec_run_sorted_above(sys, m1, m[0].0.key());
        lemma_spec_run_sorted_above(sys, m1, lo);
        let ch = system_change(sys, m[0].0, m[0].1);
        if !(ch is NoChange) {
            crate::component::lemma_sorted_cons((m[0].0, ch), spec_run(sys, m1));
        }
    }
}

/// Run outputs are sorted by construction.
pub proof fn lemma_spec_run_sorted<E: Entity, T, S: System<E, T>>(sys: S, m: Seq<(E, T)>)
    requires
        pairs_sorted(m),
    ensures
        pairs_sorted(spec_run(sys, m)),
{
    crate::component::lemma_pair_keys_nonneg(m);
    lemma_spec_run_sorted_above(sys, m, -1);
}

/// Every entity key of a pair sequence lies strictly between the sentinel
/// and the maximum, as user-facing entities must.
pub open spec fn keys_in_entity_range<E: Entity, X>(s: Seq<(E, X)>) -> bool {
    forall|i: int| 0 <= i < s.len() ==> 0 < #[trigger] s[i].0.key() < E::max_key()
}

/// Run the system over every entity of a copy-on-write collection, in
/// ascending order: a zipper from the sentinel entity upward.  The returned
/// changes are those the system staged, already sorted by entity.
pub fn run<E: Entity, T, S: System<E, T>>(
    system: &S,
    collection: &CopyOnWriteComponentCollection<E, T>,
) -> (r: Vec<(E, ComponentChange<T>)>)
    requires
        collection.wf(),
        keys_in_entity_range(collection.model()),
    ensures
        r@ == spec_run(*system, collection.model()),
{
    let ghost m = collection.model();
    proof {
        collection.lemma_wf_sorted();
    }
    let mut results: Vec<(E, ComponentChange<T>)> = Vec::new();
    let mut target = E::default_value();
    proof {
        E::lemma_max_key_positive();
        lemma_pair_count_lt_properties(m, target);
        lemma_pair_offset_is_count_lt(m, target, 0);
        assert(m.skip(0) =~= m);
        assert(results@ + spec_run(*system, m.skip(0)) =~= spec_run(*system, m));
    }
    loop
        invariant
            collection.wf(),
            m == collection.model(),
            pairs_sorted(m),
            keys_in_entity_range(m),
            0 <= target.key() <= E::max_key(),
            pair_count_lt(m, target) <= m.len(),
            results@ + spec_run(*system, m.skip(pair_count_lt(m, target))) == spec_run(*system, m),
        decreases E::max_key() - target.key(),
    {
        let ghost cnt = pair_count_lt(m, target);
        let ghost rem = m.skip(cnt);
        proof {
            lemma_pair_count_lt_properties(m, target);
        }
        match collection.lower_bound(target) {
            None => {
                proof {
                    assert(cnt == m.len());
                    assert(rem.len() == 0);
                    assert(results@ =~= spec_run(*system, m));
                }
                return results;
            },
            Some(lb) => {
                proof {
                    assert(lb == m[cnt].0);
                    assert(cnt < m.len());
                    lb.lemma_key_in_range();
                }
                if target.same(lb) {
                    let ghost v = m[cnt].1;
                    proof {
                        assert(has_key(m, target.key()));
                    }
                    let mut r = collection.get_ref(target).unwrap();
                    system.process(target, &mut r);
                    let change = r.change();
                    let ghost out0 = results@;
                    let ghost ch = system_change(*system, m[cnt].0, m[cnt].1);
                    proof {
                        assert(m[cnt].0 == target);
                        assert(change == ch);
                        assert(rem[0] == m[cnt]);
                        assert(rem.drop_first() =~= m.skip(cnt + 1));
                        assert(spec_run(*system, rem) == if ch is NoChange {
                            spec_run(*system, m.skip(cnt + 1))
                        } else {
                            seq![(m[cnt].0, ch)] + spec_run(*system, m.skip(cnt + 1))
                        });
                    }
                    if !change.is_no_change() {
                        results.push((target, change));
                        proof {
                            assert(results@ =~= out0 + seq![(m[cnt].0, ch)]);
                            assert(results@ + spec_run(*system, m.skip(cnt + 1)) =~= out0
                                + spec_run(*system, rem));
                        }
                    }
                    let next = target.increment();
                    proof {
                        assert(target.key() < E::max_key());
                        assert forall|j: int| 0 <= j < cnt + 1 implies m[j].0.key()
                            < next.key() by {}
                        assert forall|j: int| cnt + 1 <= j < m.len() implies m[j].0.key()
                            >= next.key() by {
                            assert(m[cnt].0.key() < m[j].0.key());
                        }
                        lemma_pair_offset_is_count_lt(m, next, cnt + 1);
                    }
                    target = next;
                } else {
                    proof {
                        assert(target.key() < lb.key());
                        assert forall|j: int| 0 <= j < cnt implies m[j].0.key() < lb.key() by {}
                        assert forall|j: int| cnt <= j < m.len() implies m[j].0.key()
                            >= lb.key() by {
                            if j > cnt {
                                assert(m[cnt].0.key() < m[j].0.key());
                            }
                        }
                        lemma_pair_offset_is_count_lt(m, lb, cnt);
                    }
                    target = lb;
                }
            },
        }
    }
}

/// A system over two component collections, invoked only on entities
/// present in both.  Its observable effect on each ref is pinned by spec
/// functions of the entity and the two component values it was shown.
pub trait System2<E: Entity, T1, T2> {
    /// Whether processing this entity marks the first component for removal.
    spec fn wants_unbind1(&self, entity: E, v1: T1, v2: T2) -> bool;

    /// The value the step writes through the first ref, when it writes one.
    spec fn new_value1(&self, entity: E, v1: T1, v2: T2) -> Option<T1>;

    /// Whether processing this entity marks the second component for
    /// removal.
    spec fn wants_unbind2(&self, entity: E, v1: T1, v2: T2) -> bool;

    /// The value the step writes through the second ref, when it writes one.
    spec fn new_value2(&self, entity: E, v1: T1, v2: T2) -> Option<T2>;

    /// Process one entity present in both collections.
    fn process<R1: ComponentRef<T1>, R2: ComponentRef<T2>>(
        &self,
        entity: E,
        r1: &mut R1,
        r2: &mut R2,
    )
        requires
            !old(r1).touched(),
            !old(r1).unbound(),
            !old(r2).touched(),
            !old(r2).unbound(),
        ensures
            final(r1).slot() == old(r1).slot(),
            final(r2).slot() == old(r2).slot(),
            final(r1).unbound() == self.wants_unbind1(
                entity,
                old(r1).current(),
                old(r2).current(),
            ),
            match self.new_value1(entity, old(r1).current(), old(r2).current()) {
                Some(v) => final(r1).touched() && final(r1).current() == v,
                None => !final(r1).touched() && final(r1).current() == old(r1).current(),
            },
            final(r2).unbound() == self.wants_unbind2(
                entity,
                old(r1).current(),
                old(r2).current(),
            ),
            match self.new_value2(entity, old(r1).current(), old(r2).current()) {
                Some(v) => final(r2).touched() && final(r2).current() == v,
                None => !final(r2).touched() && final(r2).current() == old(r2).current(),
            },
    ;
}

/// The change a two-collection step stages for the first collection.
pub open spec fn system2_change1<E: Entity, T1, T2, S: System2<E, T1, T2>>(
    sys: S,
    entity: E,
    v1: T1,
    v2: T2,
) -> ComponentChange<T1> {
    if sys.wants_unbind1(entity, v1, v2) {
        ComponentChange::Unbind
    } else {
        match sys.new_value1(entity, v1, v2) {
            Some(v) => ComponentChange::Value(v),
            None => ComponentChange::NoChange,
        }
    }
}

/// The change a two-collection step stages for the second collection.
pub open spec fn system2_change2<E: Entity, T1, T2, S: System2<E, T1, T2>>(
    sys: S,
    entity: E,
    v1: T1,
    v2: T2,
) -> ComponentChange<T2> {
    if sys.wants_unbind2(entity, v1, v2) {
        ComponentChange::Unbind
    } else {
        match sys.new_value2(entity, v1, v2) {
            Some(v) => ComponentChange::Value(v),
            None => ComponentChange::NoChange,
        }
    }
}

/// The change vectors a serial run over two collections produces: the
/// non-no-change results of processing every entity present in both, in
/// ascending order.
pub open spec fn spec_run2<E: Entity, T1, T2, S: System2<E, T1, T2>>(
    sys: S,
    m1: Seq<(E, T1)>,
    m2: Seq<(E, T2)>,
) -> (Seq<(E, ComponentChange<T1>)>, Seq<(E, ComponentChange<T2>)>)
    decreases m1.len() + m2.len(),
{
    if m1.len() == 0 || m2.len() == 0 {
        (Seq::empty(), Seq::empty())
    } else if m1[0].0.key() == m2[0].0.key() {
        let e = m1[0].0;
        let ch1 = system2_change1(sys, e, m1[0].1, m2[0].1);
        let ch2 = system2_change2(sys, e, m1[0].1, m2[0].1);
        let rest = spec_run2(sys, m1.drop_first(), m2.drop_first());
        (
            if ch1 is NoChange {
                rest.0
            } else {
                seq![(e, ch1)] + rest.0
            },
            if ch2 is NoChange {
                rest.1
            } else {
                seq![(e, ch2)] + rest.1
            },
        )
    } else if m1[0].0.key() < m2[0].0.key() {
        spec_run2(sys, m1.drop_first(), m2)
    } else {
        spec_run2(sys, m1, m2.drop_first())
    }
}

/// Run outputs are sorted by construction: both change vectors of a
/// two-collection run come in strictly ascending entity order, above any
/// bound below every key of both collections.
pub proof fn lemma_spec_run2_sorted_above<E: Entity, T1, T2, S: System2<E, T1, T2>>(
    sys: S,
    m1: Seq<(E, T1)>,
    m2: Seq<(E, T2)>,
    lo: int,
)
    requires
        pairs_sorted(m1),
        pairs_sorted(m2),
        forall|i: int| 0 <= i < m1.len() ==> m1[i].0.key() > lo,
        forall|i: int| 0 <= i < m2.len() ==> m2[i].0.key() > lo,
    ensures
        pairs_sorted(spec_run2(sys, m1, m2).0),
        pairs_sorted(spec_run2(sys, m1, m2).1),
        forall|i: int|
            0 <= i < spec_run2(sys, m1, m2).0.len() ==> spec_run2(sys, m1, m2).0[i].0.key()
                > lo,
        forall|i: int|
            0 <= i < spec_run2(sys, m1, m2).1.len() ==> spec_run2(sys, m1, m2).1[i].0.key()
                > lo,
    decreases m1.len() + m2.len(),
{
    if m1.len() == 0 || m2.len() == 0 {
    } else {
        let t1 = m1.drop_first();
        let t2 = m2.drop_first();
        assert(forall|i: int| 0 <= i < t1.len() ==> t1[i] == m1[i + 1]);
        assert(forall|i: int| 0 <= i < t2.len() ==> t2[i] == m2[i + 1]);
        if m1[0].0.key() == m2[0].0.key() {
            let e = m1[0].0;
            lemma_spec_run2_sorted_above(sys, t1, t2, e.key());
            let ch1 = system2_change1(sys, e, m1[0].1, m2[0].1);
            let ch2 = system2_change2(sys, e, m1[0].1, m2[0].1);
            if !(ch1 is NoChange) {
                crate::component::lemma_sorted_cons((e, ch1), spec_run2(sys, t1, t2).0);
            }
            if !(ch2 is NoChange) {
                crate::component::lemma_sorted_cons((e, ch2), spec_run2(sys, t1, t2).1);
            }
        } else if m1[0].0.key() < m2[0].0.key() {
            lemma_spec_run2_sorted_above(sys, t1, m2, lo);
        } else {
            lemma_spec_run2_sorted_above(sys, m1, t2, lo);
        }
    }
}

/// Entities of the first collection below the head of the second are not in
/// the intersection: dropping them does not change the run.
pub proof fn lemma_spec_run2_skip_left<E: Entity, T1, T2, S: System2<E, T1, T2>>(
    sys: S,
    m1: Seq<(E, T1)>,
    m2: Seq<(E, T2)>,
    k: int,
)
    requires
        0 <= k <= m1.len(),
        forall|j: int| 0 <= j < k ==> m2.len() == 0 || m1[j].0.key() < m2[0].0.key(),
    ensures
        spec_run2(sys, m1, m2) == spec_run2(sys, m1.skip(k), m2),
    decreases k,
{
    if k == 0 {
        assert(m1.skip(0) =~= m1);
    } else if m2.len() == 0 {
        assert(spec_run2(sys, m1, m2) == spec_run2(sys, m1.skip(k), m2));
    } else {
        let m1t = m1.skip(1);
        assert(m1.drop_first() =~= m1t);
        assert(forall|j: int| 0 <= j < m1t.len() ==> m1t[j] == m1[j + 1]);
        lemma_spec_run2_skip_left(sys, m1t, m2, k - 1);
        assert(m1t.skip(k - 1) =~= m1.skip(k));
    }
}

/// Entities of the second collection below the head of the first are not in
/// the intersection: dropping them does not change the run.
pub proof fn lemma_spec_run2_skip_right<E: Entity, T1, T2, S: System2<E, T1, T2>>(
    sys: S,
    m1: Seq<(E, T1)>,
    m2: Seq<(E, T2)>,
    k: int,
)
    requires
        0 <= k <= m2.len(),
        forall|j: int| 0 <= j < k ==> m1.len() == 0 || m2[j].0.key() < m1[0].0.key(),
    ensures
        spec_run2(sys, m1, m2) == spec_run2(sys, m1, m2.skip(k)),
    decreases k,
{
    if k == 0 {
        assert(m2.skip(0) =~= m2);
    } else if m1.len() == 0 {
        assert(spec_run2(sys, m1, m2) == spec_run2(sys, m1, m2.skip(k)));
    } else {
        let m2t = m2.skip(1);
        assert(m2.drop_first() =~= m2t);
        assert(forall|j: int| 0 <= j < m2t.len() ==> m2t[j] == m2[j + 1]);
        lemma_spec_run2_skip_right(sys, m1, m2t, k - 1);
        assert(m2t.skip(k - 1) =~= m2.skip(k));
    }
}

/// Run the system over the entities present in both copy-on-write
/// collections, in ascending order: the zipper advances the target to the
/// least entity at or above it in each collection in turn, and processes the
/// target when both agree on it.  The returned change vectors are already
/// sorted by entity.
pub fn run2<E: Entity, T1, T2, S: System2<E, T1, T2>>(
    system: &S,
    c1: &CopyOnWriteComponentCollection<E, T1>,
    c2: &CopyOnWriteComponentCollection<E, T2>,
) -> (r: (Vec<(E, ComponentChange<T1>)>, Vec<(E, ComponentChange<T2>)>))
    requires
        c1.wf(),
        c2.wf(),
        keys_in_entity_range(c1.model()),
        keys_in_entity_range(c2.model()),
    ensures
        r.0@ == spec_run2(*system, c1.model(), c2.model()).0,
        r.1@ == spec_run2(*system, c1.model(), c2.model()).1,
{
    let ghost m1 = c1.model();
    let ghost m2 = c2.model();
    proof {
        c1.lemma_wf_sorted();
        c2.lemma_wf_sorted();
    }
    let mut results1: Vec<(E, ComponentChange<T1>)> = Vec::new();
    let mut results2: Vec<(E, ComponentChange<T2>)> = Vec::new();
    let mut target = E::default_value();
    proof {
        E::lemma_max_key_positive();
        lemma_pair_offset_is_count_lt(m1, target, 0);
        lemma_pair_offset_is_count_lt(m2, target, 0);
        assert(m1.skip(0) =~= m1);
        assert(m2.skip(0) =~= m2);
        assert(results1@ + spec_run2(*system, m1.skip(0), m2.skip(0)).0 =~= spec_run2(
            *system,
            m1,
            m2,
        ).0);
        assert(results2@ + spec_run2(*system, m1.skip(0), m2.skip(0)).1 =~= spec_run2(
            *system,
            m1,
            m2,
        ).1);
    }
    loop
        invariant
            c1.wf(),
            c2.wf(),
            m1 == c1.model(),
            m2 == c2.model(),
            pairs_sorted(m1),
            pairs_sorted(m2),
            keys_in_entity_range(m1),
            keys_in_entity_range(m2),
            0 <= target.key() <= E::max_key(),
            pair_count_lt(m1, target) <= m1.len(),
            pair_count_lt(m2, target) <= m2.len(),
            results1@ + spec_run2(
                *system,
                m1.skip(pair_count_lt(m1, target)),
                m2.skip(pair_count_lt(m2, target)),
            ).0 == spec_run2(*system, m1, m2).0,
            results2@ + spec_run2(
                *system,
                m1.skip(pair_count_lt(m1, target)),
                m2.skip(pair_count_lt(m2, target)),
            ).1 == spec_run2(*system, m1, m2).1,
        decreases E::max_key() - target.key(),
    {
        let ghost cnt1 = pair_count_lt(m1, target);
        let ghost cnt2 = pair_count_lt(m2, target);
        let ghost rem1 = m1.skip(cnt1);
        let ghost rem2 = m2.skip(cnt2);
        proof {
            lemma_pair_count_lt_properties(m1, target);
            lemma_pair_count_lt_properties(m2, target);
            assert(forall|t: int| 0 <= t < rem1.len() ==> #[trigger] rem1[t] == m1[cnt1 + t]);
            assert(forall|t: int| 0 <= t < rem2.len() ==> #[trigger] rem2[t] == m2[cnt2 + t]);
        }
        let lb1 = match c1.lower_bound(target) {
            None => {
                proof {
                    assert(cnt1 == m1.len());
                    assert(rem1.len() == 0);
                    assert(results1@ =~= spec_run2(*system, m1, m2).0);
                    assert(results2@ =~= spec_run2(*system, m1, m2).1);
                }
                return (results1, results2);
            },
            Some(lb1) => lb1,
        };
        proof {
            assert(lb1 == m1[cnt1].0);
            assert(cnt1 < m1.len());
            lb1.lemma_key_in_range();
        }
        if !target.same(lb1) {
            proof {
                assert(target.key() < lb1.key());
                assert forall|j: int| cnt1 <= j < m1.len() implies m1[j].0.key()
                    >= lb1.key() by {
                    if j > cnt1 {
                        assert(m1[cnt1].0.key() < m1[j].0.key());
                    }
                }
                lemma_pair_offset_is_count_lt(m1, lb1, cnt1);
                let cnt2b = pair_count_lt(m2, lb1);
                lemma_pair_count_lt_properties(m2, lb1);
                assert(cnt2 <= cnt2b) by {
                    if cnt2b < cnt2 {
                        assert(m2[cnt2b].0.key() >= lb1.key());
                        assert(m2[cnt2b].0.key() < target.key());
                    }
                }
                assert forall|j: int| 0 <= j < cnt2b - cnt2 implies rem1.len() == 0 || rem2[
                    j
                ].0.key() < rem1[0].0.key() by {
                    assert(rem2[j] == m2[cnt2 + j]);
                    assert(m2[cnt2 + j].0.key() < lb1.key());
                }
                lemma_spec_run2_skip_right(*system, rem1, rem2, cnt2b - cnt2);
                assert(rem2.skip(cnt2b - cnt2) =~= m2.skip(cnt2b));
            }
            target = lb1;
            continue;
        }
        let lb2 = match c2.lower_bound(target) {
            None => {
                proof {
                    assert(cnt2 == m2.len());
                    assert(rem2.len() == 0);
                    assert(results1@ =~= spec_run2(*system, m1, m2).0);
                    assert(results2@ =~= spec_run2(*system, m1, m2).1);
                }
                return (results1, results2);
            },
            Some(lb2) => lb2,
        };
        proof {
            assert(lb2 == m2[cnt2].0);
            assert(cnt2 < m2.len());
            lb2.lemma_key_in_range();
        }
        if !target.same(lb2) {
            proof {
                assert(target.key() < lb2.key());
                assert forall|j: int| cnt2 <= j < m2.len() implies m2[j].0.key()
                    >= lb2.key() by {
                    if j > cnt2 {
                        assert(m2[cnt2].0.key() < m2[j].0.key());
                    }
                }
                lemma_pair_offset_is_count_lt(m2, lb2, cnt2);
                let cnt1b = pair_count_lt(m1, lb2);
                lemma_pair_count_lt_properties(m1, lb2);
                assert(cnt1 <= cnt1b) by {
                    if cnt1b < cnt1 {
                        assert(m1[cnt1b].0.key() >= lb2.key());
                        assert(m1[cnt1b].0.key() < target.key());
                    }
                }
                assert forall|j: int| 0 <= j < cnt1b - cnt1 implies rem2.len() == 0 || rem1[
                    j
                ].0.key() < rem2[0].0.key() by {
                    assert(rem1[j] == m1[cnt1 + j]);
                    assert(m1[cnt1 + j].0.key() < lb2.key());
                }
                lemma_spec_run2_skip_left(*system, rem1, rem2, cnt1b - cnt1);
                assert(rem1.skip(cnt1b - cnt1) =~= m1.skip(cnt1b));
            }
            target = lb2;
            continue;
        }
        // both lower bounds equal the target: process it
        let ghost v1 = m1[cnt1].1;
        let ghost v2 = m2[cnt2].1;
        proof {
            assert(has_key(m1, target.key()));
            assert(has_key(m2, target.key()));
        }
        let mut r1 = c1.get_ref(target).unwrap();
        let mut r2 = c2.get_ref(target).unwrap();
        system.process(target, &mut r1, &mut r2);
        let change1 = r1.change();
        let change2 = r2.change();
        let ghost out1 = results1@;
        let ghost out2 = results2@;
        let ghost ch1 = system2_change1(*system, m1[cnt1].0, v1, v2);
        let ghost ch2 = system2_change2(*system, m1[cnt1].0, v1, v2);
        proof {
            assert(m1[cnt1].0 == target);
            assert(m2[cnt2].0 == target);
            assert(change1 == ch1);
            assert(change2 == ch2);
            assert(rem1[0] == m1[cnt1]);
            assert(rem2[0] == m2[cnt2]);
            assert(rem1.drop_first() =~= m1.skip(cnt1 + 1));
            assert(rem2.drop_first() =~= m2.skip(cnt2 + 1));
            assert(spec_run2(*system, rem1, rem2).0 == if ch1 is NoChange {
                spec_run2(*system, m1.skip(cnt1 + 1), m2.skip(cnt2 + 1)).0
            } else {
                seq![(m1[cnt1].0, ch1)] + spec_run2(*system, m1.skip(cnt1 + 1), m2.skip(cnt2 + 1)).0
            });
            assert(spec_run2(*system, rem1, rem2).1 == if ch2 is NoChange {
                spec_run2(*system, m1.skip(cnt1 + 1), m2.skip(cnt2 + 1)).1
            } else {
                seq![(m2[cnt2].0, ch2)] + spec_run2(*system, m1.skip(cnt1 + 1), m2.skip(cnt2 + 1)).1
            });
        }
        if !change1.is_no_change() {
            results1.push((target, change1));
            proof {
                assert(results1@ =~= out1 + seq![(m1[cnt1].0, ch1)]);
                assert(results1@ + spec_run2(*system, m1.skip(cnt1 + 1), m2.skip(cnt2 + 1)).0
                    =~= out1 + spec_run2(*system, rem1, rem2).0);
            }
        }
        if !change2.is_no_change() {
            results2.push((target, change2));
            proof {
                assert(results2@ =~= out2 + seq![(m2[cnt2].0, ch2)]);
                assert(results2@ + spec_run2(*system, m1.skip(cnt1 + 1), m2.skip(cnt2 + 1)).1
                    =~= out2 + spec_run2(*system, rem1, rem2).1);
            }
        }
        let next = target.increment();
        proof {
            assert(target.key() < E::max_key());
            assert forall|j: int| cnt1 + 1 <= j < m1.len() implies m1[j].0.key()
                >= next.key() by {
                assert(m1[cnt1].0.key() < m1[j].0.key());
            }
            lemma_pair_offset_is_count_lt(m1, next, cnt1 + 1);
            assert forall|j: int| cnt2 + 1 <= j < m2.len() implies m2[j].0.key()
                >= next.key() by {
                assert(m2[cnt2].0.key() < m2[j].0.key());
            }
            lemma_pair_offset_is_count_lt(m2, next, cnt2 + 1);
        }
        target = next;
    }
}

/// The contents of a mutable collection after a run: every component
/// replaced by the value the system wrote through its ref, where it wrote
/// one.  Unbind marks do not change the contents here; they take effect only
/// when the returned changes are passed to `apply`.
pub open spec fn spec_run_mut_model<E: Entity, T, S: System<E, T>>(
    sys: S,
    m: Seq<(E, T)>,
) -> Seq<(E, T)> {
    Seq::new(
        m.len(),
        |i: int|
            (
                m[i].0,
                match sys.new_value(m[i].0, m[i].1) {
                    Some(v) => v,
                    None => m[i].1,
                },
            ),
    )
}

/// The change vector a run over a mutable collection produces: only unbind
/// marks, in ascending entity order.  A mutable ref never reports a value
/// change, because the mutation has already happened in place.
pub open spec fn spec_run_mut_changes<E: Entity, T, S: System<E, T>>(
    sys: S,
    m: Seq<(E, T)>,
) -> Seq<(E, ComponentChange<T>)>
    decreases m.len(),
{
    if m.len() == 0 {
        Seq::empty()
    } else {
        let rest = spec_run_mut_changes(sys, m.drop_first());
        if sys.wants_unbind(m[0].0, m[0].1) {
            seq![(m[0].0, ComponentChange::<T>::Unbind)] + rest
        } else {
            rest
        }
    }
}

/// Run the system over every entity of a mutable collection, in ascending
/// order.  Values written through the refs are committed in place; the
/// returned changes carry only the unbind marks, already sorted by entity.
pub fn run_mut<E: Entity, T, S: System<E, T>>(
    system: &S,
    collection: &mut MutableComponentCollection<E, T>,
) -> (r: Vec<(E, ComponentChange<T>)>)
    requires
        old(collection).wf(),
        keys_in_entity_range(old(collection).model()),
    ensures
        final(collection).wf(),
        final(collection).model() == spec_run_mut_model(*system, old(collection).model()),
        r@ == spec_run_mut_changes(*system, old(collection).model()),
{
    let ghost m0 = collection.model();
    proof {
        collection.lemma_wf_sorted();
        assert(m0 == old(collection).model());
    }
    let mut results: Vec<(E, ComponentChange<T>)> = Vec::new();
    let mut target = E::default_value();
    proof {
        E::lemma_max_key_positive();
        lemma_pair_offset_is_count_lt(m0, target, 0);
        assert(m0.skip(0) =~= m0);
        assert(results@ + spec_run_mut_changes(*system, m0.skip(0)) =~= spec_run_mut_changes(
            *system,
            m0,
        ));
    }
    loop
        invariant
            collection.wf(),
            m0 == old(collection).model(),
            pairs_sorted(m0),
            keys_in_entity_range(m0),
            collection.model().len() == m0.len(),
            forall|j: int|
                0 <= j < pair_count_lt(m0, target) ==> #[trigger] collection.model()[j]
                    == spec_run_mut_model(*system, m0)[j],
            forall|j: int|
                pair_count_lt(m0, target) <= j < m0.len() ==> #[trigger] collection.model()[j]
                    == m0[j],
            0 <= target.key() <= E::max_key(),
            pair_count_lt(m0, target) <= m0.len(),
            results@ + spec_run_mut_changes(*system, m0.skip(pair_count_lt(m0, target)))
                == spec_run_mut_changes(*system, m0),
        decreases E::max_key() - target.key(),
    {
        let ghost cnt = pair_count_lt(m0, target);
        let ghost rem = m0.skip(cnt);
        let ghost cur = collection.model();
        proof {
            lemma_pair_count_lt_properties(m0, target);
            assert(forall|t: int| 0 <= t < rem.len() ==> #[trigger] rem[t] == m0[cnt + t]);
            assert forall|i: int| 0 <= i < cur.len() implies cur[i].0 == m0[i].0 by {
                if i < cnt {
                    assert(cur[i] == spec_run_mut_model(*system, m0)[i]);
                }
            }
            lemma_pair_count_same_keys(cur, m0, target);
        }
        match collection.lower_bound(target) {
            None => {
                proof {
                    assert(pair_count_lt(cur, target) == cnt);
                    if cnt < m0.len() {
                        assert(m0[cnt].0.key() >= target.key());
                        assert(cur[cnt] == m0[cnt]);
                        assert(false);
                    }
                    assert(cnt == m0.len());
                    assert(rem.len() == 0);
                    assert(spec_run_mut_changes(*system, rem).len() == 0);
                    assert(results@ =~= results@ + spec_run_mut_changes(*system, rem));
                    assert(results@ == spec_run_mut_changes(*system, m0));
                    assert forall|i: int| 0 <= i < m0.len() implies collection.model()[i]
                        == spec_run_mut_model(*system, m0)[i] by {}
                    assert(collection.model().len() == spec_run_mut_model(*system, m0).len());
                    assert(collection.model() =~= spec_run_mut_model(*system, m0));
                }
                return results;
            },
            Some(lb) => {
                proof {
                    assert(pair_count_lt(cur, target) == cnt);
                    assert(lb == cur[cnt].0);
                    assert(cnt < m0.len());
                    assert(lb == m0[cnt].0);
                    lb.lemma_key_in_range();
                }
                if target.same(lb) {
                    let ghost v = m0[cnt].1;
                    proof {
                        assert(cur[cnt] == m0[cnt]);
                        assert(cur[cnt].0.key() == target.key());
                        assert(has_key(cur, target.key()));
                        lemma_pair_count_same_keys(cur, m0, target);
                    }
                    let mut r = collection.get_ref(target).unwrap();
                    proof {
                        assert(r.slot() == cnt);
                        assert(r.current() == v);
                    }
                    system.process(target, &mut r);
                    let change = collection.put_ref(r, Ghost(cur));
                    let ghost out0 = results@;
                    proof {
                        assert(m0[cnt].0 == target);
                        assert(collection.model() =~= cur.update(
                            cnt,
                            (
                                m0[cnt].0,
                                match system.new_value(target, v) {
                                    Some(nv) => nv,
                                    None => v,
                                },
                            ),
                        ));
                        assert(collection.model()[cnt] == spec_run_mut_model(*system, m0)[cnt]);
                        assert(rem[0] == m0[cnt]);
                        assert(rem.drop_first() =~= m0.skip(cnt + 1));
                        assert(spec_run_mut_changes(*system, rem) == if system.wants_unbind(
                            target,
                            v,
                        ) {
                            seq![(m0[cnt].0, ComponentChange::<T>::Unbind)]
                                + spec_run_mut_changes(*system, m0.skip(cnt + 1))
                        } else {
                            spec_run_mut_changes(*system, m0.skip(cnt + 1))
                        });
                    }
                    if !change.is_no_change() {
                        results.push((target, change));
                        proof {
                            assert(results@ =~= out0 + seq![
                                (m0[cnt].0, ComponentChange::<T>::Unbind),
                            ]);
                            assert(results@ + spec_run_mut_changes(*system, m0.skip(cnt + 1))
                                =~= out0 + spec_run_mut_changes(*system, rem));
                        }
                    }
                    let next = target.increment();
                    proof {
                        assert(target.key() < E::max_key());
                        assert forall|j: int| cnt + 1 <= j < m0.len() implies m0[j].0.key()
                            >= next.key() by {
                            assert(m0[cnt].0.key() < m0[j].0.key());
                        }
                        lemma_pair_offset_is_count_lt(m0, next, cnt + 1);
                    }
                    target = next;
                } else {
                    proof {
                        assert(target.key() < lb.key());
                        assert forall|j: int| cnt <= j < m0.len() implies m0[j].0.key()
                            >= lb.key() by {
                            if j > cnt {
                                assert(m0[cnt].0.key() < m0[j].0.key());
                            }
                        }
                        lemma_pair_offset_is_count_lt(m0, lb, cnt);
                    }
                    target = lb;
                }
            },
        }
    }
}

/// A pair sequence in ascending, not necessarily strict, entity key order.
pub open spec fn pairs_sorted_le<E: Entity, X>(s: Seq<(E, X)>) -> bool {
    forall|i: int, j: int| 0 <= i < j < s.len() ==> s[i].0.key() <= s[j].0.key()
}

/// Sort a change vector by entity key: an insertion sort, keeping exactly
/// the changes it was given.
fn sort_changes<E: Entity, T>(v: Vec<(E, ComponentChange<T>)>) -> (r: Vec<
    (E, ComponentChange<T>),
>)
    ensures
        r@.to_multiset() == v@.to_multiset(),
        pairs_sorted_le(r@),
{
    let ghost v0 = v@;
    let mut v = v;
    let mut out: Vec<(E, ComponentChange<T>)> = Vec::new();
    proof {
        broadcast use vstd::seq_lib::group_to_multiset_ensures;

        assert(out@.to_multiset().add(v@.to_multiset()) =~= v0.to_multiset());
    }
    while v.len() > 0
        invariant
            pairs_sorted_le(out@),
            out@.to_multiset().add(v@.to_multiset()) == v0.to_multiset(),
        decreases v.len(),
    {
        let ghost vpre = v@;
        let ghost opre = out@;
        let x = v.pop().unwrap();
        proof {
            broadcast use vstd::seq_lib::group_to_multiset_ensures;

            assert(v@ =~= vpre.remove(vpre.len() - 1));
            assert(v@.to_multiset() == vpre.to_multiset().remove(x));
        }
        let mut idx: usize = 0;
        let mut scanning = true;
        while scanning && idx < out.len()
            invariant
                idx <= out@.len(),
                out@ == opre,
                forall|j: int| 0 <= j < idx ==> out@[j].0.key() <= x.0.key(),
                !scanning ==> idx < out@.len() && x.0.key() < out@[idx as int].0.key(),
            decreases out.len() - idx + if scanning {
                1int
            } else {
                0int
            },
        {
            if x.0.lt(out[idx].0) {
                scanning = false;
            } else {
                idx = idx + 1;
            }
        }
        out.insert(idx, x);
        proof {
            broadcast use vstd::seq_lib::group_to_multiset_ensures;

            assert(out@.remove(idx as int) =~= opre);
            assert(out@.to_multiset().remove(x) == opre.to_multiset());
            assert(out@[idx as int] == x);
            assert(out@.to_multiset().contains(x));
            assert(out@.to_multiset() =~= opre.to_multiset().insert(x));
            assert(vpre.to_multiset().contains(x));
            assert(out@.to_multiset().add(v@.to_multiset()) =~= opre.to_multiset().add(
                vpre.to_multiset(),
            ));
            assert forall|i: int, j: int| 0 <= i < j < out@.len() implies out@[i].0.key()
                <= out@[j].0.key() by {
                if i < idx && j == idx {
                } else if i == idx {
                    assert(out@[j] == opre[j - 1]);
                    assert(opre[idx as int].0.key() <= opre[j - 1].0.key());
                } else if i < idx && j > idx {
                    assert(out@[i] == opre[i] && out@[j] == opre[j - 1]);
                } else if i > idx {
                    assert(out@[i] == opre[i - 1] && out@[j] == opre[j - 1]);
                } else {
                    assert(out@[i] == opre[i] && out@[j] == opre[j]);
                }
            }
        }
    }
    proof {
        assert(v@.to_multiset() =~= Multiset::<(E, ComponentChange<T>)>::empty());
        assert(out@.to_multiset() =~= v0.to_multiset());
    }
    out
}

/// The changes a run over a caller-supplied entity list produces, before
/// sorting: entities absent from the collection are skipped, the rest are
/// processed in the order given.
pub open spec fn spec_run_subset<E: Entity, T, S: System<E, T>>(
    sys: S,
    m: Seq<(E, T)>,
    ents: Seq<E>,
) -> Seq<(E, ComponentChange<T>)>
    decreases ents.len(),
{
    if ents.len() == 0 {
        Seq::empty()
    } else {
        let rest = spec_run_subset(sys, m, ents.drop_last());
        let e = ents.last();
        if has_key(m, e.key()) {
            let ch = system_change(sys, e, m[pair_count_lt(m, e)].1);
            if ch is NoChange {
                rest
            } else {
                rest + seq![(e, ch)]
            }
        } else {
            rest
        }
    }
}

/// Run the system over a caller-supplied entity list, skipping entities not
/// present in the collection, and sort the results by entity before
/// returning.  The entity list may come in any order; the result carries
/// exactly the staged changes, in ascending entity order.
pub fn run_subset<E: Entity, T, S: System<E, T>>(
    system: &S,
    entities: &Vec<E>,
    collection: &CopyOnWriteComponentCollection<E, T>,
) -> (r: Vec<(E, ComponentChange<T>)>)
    requires
        collection.wf(),
    ensures
        r@.to_multiset() == spec_run_subset(
            *system,
            collection.model(),
            entities@,
        ).to_multiset(),
        pairs_sorted_le(r@),
{
    let ghost m = collection.model();
    let mut results: Vec<(E, ComponentChange<T>)> = Vec::new();
    let mut k: usize = 0;
    proof {
        assert(entities@.take(0) =~= Seq::<E>::empty());
    }
    while k < entities.len()
        invariant
            collection.wf(),
            m == collection.model(),
            k <= entities@.len(),
            results@ == spec_run_subset(*system, m, entities@.take(k as int)),
        decreases entities.len() - k,
    {
        let ghost pre = results@;
        let e = entities[k];
        proof {
            assert(entities@.take(k + 1).drop_last() =~= entities@.take(k as int));
            assert(entities@.take(k + 1).last() == e);
        }
        match collection.get_ref(e) {
            Some(mut r) => {
                system.process(e, &mut r);
                let change = r.change();
                proof {
                    assert(change == system_change(*system, e, m[pair_count_lt(m, e)].1));
                }
                if !change.is_no_change() {
                    results.push((e, change));
                    proof {
                        assert(results@ =~= pre + seq![(e, change)]);
                    }
                }
            },
            None => {},
        }
        k = k + 1;
    }
    proof {
        assert(entities@.take(entities@.len() as int) =~= entities@);
    }
    sort_changes(results)
}

/// A system that looks but never stages anything.
pub struct NopSystem;

impl<E: Entity, T> System<E, T> for NopSystem {
    open spec fn wants_unbind(&self, entity: E, value: T) -> bool {
        false
    }

    open spec fn new_value(&self, entity: E, value: T) -> Option<T> {
        None
    }

    fn process<R: ComponentRef<T>>(&self, entity: E, r: &mut R) {
    }
}

impl<E: Entity, T1, T2> System2<E, T1, T2> for NopSystem {
    open spec fn wants_unbind1(&self, entity: E, v1: T1, v2: T2) -> bool {
        false
    }

    open spec fn new_value1(&self, entity: E, v1: T1, v2: T2) -> Option<T1> {
        None
    }

    open spec fn wants_unbind2(&self, entity: E, v1: T1, v2: T2) -> bool {
        false
    }

    open spec fn new_value2(&self, entity: E, v1: T1, v2: T2) -> Option<T2> {
        None
    }

    fn process<R1: ComponentRef<T1>, R2: ComponentRef<T2>>(
        &self,
        entity: E,
        r1: &mut R1,
        r2: &mut R2,
    ) {
    }
}

/// A system that marks every component it is shown for removal.
pub struct UnbindSystem;

impl<E: Entity, T> System<E, T> for UnbindSystem {
    open spec fn wants_unbind(&self, entity: E, value: T) -> bool {
        true
    }

    open spec fn new_value(&self, entity: E, value: T) -> Option<T> {
        None
    }

    fn process<R: ComponentRef<T>>(&self, entity: E, r: &mut R) {
        r.unbind();
    }
}

impl<E: Entity, T1, T2> System2<E, T1, T2> for UnbindSystem {
    open spec fn wants_unbind1(&self, entity: E, v1: T1, v2: T2) -> bool {
        true
    }

    open spec fn new_value1(&self, entity: E, v1: T1, v2: T2) -> Option<T1> {
        None
    }

    open spec fn wants_unbind2(&self, entity: E, v1: T1, v2: T2) -> bool {
        true
    }

    open spec fn new_value2(&self, entity: E, v1: T1, v2: T2) -> Option<T2> {
        None
    }

    fn process<R1: ComponentRef<T1>, R2: ComponentRef<T2>>(
        &self,
        entity: E,
        r1: &mut R1,
        r2: &mut R2,
    ) {
        r1.unbind();
        r2.unbind();
    }
}

/// A system over numeric components that adds a constant to every component
/// it is shown, saturating at the maximum.
pub struct SaturatingAddSystem {
    /// The amount added to each component.
    pub delta: u64,
}

impl<E: Entity> System<E, u64> for SaturatingAddSystem {
    open spec fn wants_unbind(&self, entity: E, value: u64) -> bool {
        false
    }

    open spec fn new_value(&self, entity: E, value: u64) -> Option<u64> {
        Some(
            if value + self.delta <= u64::MAX {
                (value + self.delta) as u64
            } else {
                u64::MAX
            },
        )
    }

    fn process<R: ComponentRef<u64>>(&self, entity: E, r: &mut R) {
        let v = *r.read();
        if v <= u64::MAX - self.delta {
            r.update(v + self.delta);
        } else {
            r.update(u64::MAX);
        }
    }
}

/// When every key of the left parts lies below every key of the right parts,
/// a run over the concatenations splits into the two runs, concatenated.
pub proof fn lemma_spec_run2_split<E: Entity, T1, T2, S: System2<E, T1, T2>>(
    sys: S,
    a1: Seq<(E, T1)>,
    a2: Seq<(E, T1)>,
    b1: Seq<(E, T2)>,
    b2: Seq<(E, T2)>,
)
    requires
        forall|i: int, j: int|
            0 <= i < a1.len() && 0 <= j < a2.len() ==> a1[i].0.key() < a2[j].0.key(),
        forall|i: int, j: int|
            0 <= i < a1.len() && 0 <= j < b2.len() ==> a1[i].0.key() < b2[j].0.key(),
        forall|i: int, j: int|
            0 <= i < b1.len() && 0 <= j < a2.len() ==> b1[i].0.key() < a2[j].0.key(),
        forall|i: int, j: int|
            0 <= i < b1.len() && 0 <= j < b2.len() ==> b1[i].0.key() < b2[j].0.key(),
    ensures
        spec_run2(sys, a1 + a2, b1 + b2).0 == spec_run2(sys, a1, b1).0 + spec_run2(
            sys,
            a2,
            b2,
        ).0,
        spec_run2(sys, a1 + a2, b1 + b2).1 == spec_run2(sys, a1, b1).1 + spec_run2(
            sys,
            a2,
            b2,
        ).1,
    decreases a1.len() + b1.len(),
{
    let wa = a1 + a2;
    let wb = b1 + b2;
    assert(forall|i: int| 0 <= i < a1.len() ==> wa[i] == a1[i]);
    assert(forall|i: int| 0 <= i < a2.len() ==> wa[a1.len() + i] == a2[i]);
    assert(forall|i: int| 0 <= i < b1.len() ==> wb[i] == b1[i]);
    assert(forall|i: int| 0 <= i < b2.len() ==> wb[b1.len() + i] == b2[i]);
    if a1.len() == 0 && b1.len() == 0 {
        assert(wa =~= a2);
        assert(wb =~= b2);
        assert(spec_run2(sys, a1, b1).0 =~= Seq::<(E, ComponentChange<T1>)>::empty());
        assert(spec_run2(sys, a1, b1).1 =~= Seq::<(E, ComponentChange<T2>)>::empty());
        assert(spec_run2(sys, a1, b1).0 + spec_run2(sys, a2, b2).0 =~= spec_run2(
            sys,
            a2,
            b2,
        ).0);
        assert(spec_run2(sys, a1, b1).1 + spec_run2(sys, a2, b2).1 =~= spec_run2(
            sys,
            a2,
            b2,
        ).1);
    } else if a1.len() == 0 {
        // the head of wb is b1[0], which is in the intersection of nothing on
        // the left: either wa is empty or its head lies above b1[0]
        if wa.len() == 0 {
            assert(a2 =~= wa);
            assert(spec_run2(sys, a1, b1).0 =~= Seq::<(E, ComponentChange<T1>)>::empty());
            assert(spec_run2(sys, a1, b1).1 =~= Seq::<(E, ComponentChange<T2>)>::empty());
            assert(spec_run2(sys, a1 + a2, b1 + b2).0 =~= spec_run2(sys, a1, b1).0
                + spec_run2(sys, a2, b2).0);
            assert(spec_run2(sys, a1 + a2, b1 + b2).1 =~= spec_run2(sys, a1, b1).1
                + spec_run2(sys, a2, b2).1);
        } else {
            assert(wa[0] == a2[0]);
            assert(wb[0] == b1[0]);
            assert(wb[0].0.key() < wa[0].0.key());
            let b1t = b1.drop_first();
            assert(forall|i: int| 0 <= i < b1t.len() ==> b1t[i] == b1[i + 1]);
            assert(wb.drop_first() =~= b1t + b2);
            lemma_spec_run2_split(sys, a1, a2, b1t, b2);
            assert(spec_run2(sys, a1, b1).0 == spec_run2(sys, a1, b1t).0);
            assert(spec_run2(sys, a1, b1).1 == spec_run2(sys, a1, b1t).1);
        }
    } else if b1.len() == 0 {
        if wb.len() == 0 {
            assert(b2 =~= wb);
            assert(spec_run2(sys, a1, b1).0 =~= Seq::<(E, ComponentChange<T1>)>::empty());
            assert(spec_run2(sys, a1, b1).1 =~= Seq::<(E, ComponentChange<T2>)>::empty());
            assert(spec_run2(sys, a1 + a2, b1 + b2).0 =~= spec_run2(sys, a1, b1).0
                + spec_run2(sys, a2, b2).0);
            assert(spec_run2(sys, a1 + a2, b1 + b2).1 =~= spec_run2(sys, a1, b1).1
                + spec_run2(sys, a2, b2).1);
        } else {
            assert(wb[0] == b2[0]);
            assert(wa[0] == a1[0]);
            assert(wa[0].0.key() < wb[0].0.key());
            let a1t = a1.drop_first();
            assert(forall|i: int| 0 <= i < a1t.len() ==> a1t[i] == a1[i + 1]);
            assert(wa.drop_first() =~= a1t + a2);
            lemma_spec_run2_split(sys, a1t, a2, b1, b2);
            assert(spec_run2(sys, a1, b1).0 == spec_run2(sys, a1t, b1).0);
            assert(spec_run2(sys, a1, b1).1 == spec_run2(sys, a1t, b1).1);
        }
    } else {
        assert(wa[0] == a1[0]);
        assert(wb[0] == b1[0]);
        let a1t = a1.drop_first();
        let b1t = b1.drop_first();
        assert(forall|i: int| 0 <= i < a1t.len() ==> a1t[i] == a1[i + 1]);
        assert(forall|i: int| 0 <= i < b1t.len() ==> b1t[i] == b1[i + 1]);
        assert(wa.drop_first() =~= a1t + a2);
        assert(wb.drop_first() =~= b1t + b2);
        if a1[0].0.key() == b1[0].0.key() {
            lemma_spec_run2_split(sys, a1t, a2, b1t, b2);
            let e = a1[0].0;
            let ch1 = system2_change1(sys, e, a1[0].1, b1[0].1);
            let ch2 = system2_change2(sys, e, a1[0].1, b1[0].1);
            if !(ch1 is NoChange) {
                assert(seq![(e, ch1)] + (spec_run2(sys, a1t, b1t).0 + spec_run2(
                    sys,
                    a2,
                    b2,
                ).0) =~= (seq![(e, ch1)] + spec_run2(sys, a1t, b1t).0) + spec_run2(
                    sys,
                    a2,
                    b2,
                ).0);
            }
            if !(ch2 is NoChange) {
                assert(seq![(e, ch2)] + (spec_run2(sys, a1t, b1t).1 + spec_run2(
                    sys,
                    a2,
                    b2,
                ).1) =~= (seq![(e, ch2)] + spec_run2(sys, a1t, b1t).1) + spec_run2(
                    sys,
                    a2,
                    b2,
                ).1);
            }
        } else if a1[0].0.key() < b1[0].0.key() {
            lemma_spec_run2_split(sys, a1t, a2, b1, b2);
        } else {
            lemma_spec_run2_split(sys, a1, a2, b1t, b2);
        }
    }
}

/// The first change vectors of running the system on each slot pair from
/// slot `i` on, concatenated in slot order.
pub open spec fn slot_runs1<
    E: Entity,
    T1,
    T2,
    S: System2<E, T1, T2>,
    C1: ComponentCollection<E, T1>,
    C2: ComponentCollection<E, T2>,
>(sys: S, psa: Seq<Option<C1>>, psb: Seq<Option<C2>>, i: int) -> Seq<(E, ComponentChange<T1>)>
    decreases psa.len() - i,
{
    if i < 0 || psa.len() <= i {
        Seq::empty()
    } else {
        spec_run2(sys, opt_model(psa[i]), opt_model(psb[i])).0 + slot_runs1(sys, psa, psb, i + 1)
    }
}

/// The second change vectors of running the system on each slot pair from
/// slot `i` on, concatenated in slot order.
pub open spec fn slot_runs2<
    E: Entity,
    T1,
    T2,
    S: System2<E, T1, T2>,
    C1: ComponentCollection<E, T1>,
    C2: ComponentCollection<E, T2>,
>(sys: S, psa: Seq<Option<C1>>, psb: Seq<Option<C2>>, i: int) -> Seq<(E, ComponentChange<T2>)>
    decreases psa.len() - i,
{
    if i < 0 || psa.len() <= i {
        Seq::empty()
    } else {
        spec_run2(sys, opt_model(psa[i]), opt_model(psb[i])).1 + slot_runs2(sys, psa, psb, i + 1)
    }
}

/// Parallel-serial equivalence: for two collections partitioned by one
/// scheme, the concatenation of the per-partition change vectors equals the
/// change vectors of the serial run over the whole collections.
pub proof fn lemma_partitioned_run_equivalence<
    E: Entity,
    T1,
    T2,
    S: System2<E, T1, T2>,
    C1: ComponentCollection<E, T1>,
    C2: ComponentCollection<E, T2>,
>(sys: S, psa: Seq<Option<C1>>, psb: Seq<Option<C2>>, dividers: Seq<E>, i: int)
    requires
        crate::entity::strictly_sorted(dividers),
        psa.len() == dividers.len() + 1,
        psb.len() == dividers.len() + 1,
        parts_in_range(psa, dividers),
        parts_in_range(psb, dividers),
        forall|q: int| 0 <= q < psa.len() ==> pairs_sorted(#[trigger] opt_model(psa[q])),
        forall|q: int| 0 <= q < psb.len() ==> pairs_sorted(#[trigger] opt_model(psb[q])),
        0 <= i <= psa.len(),
    ensures
        slot_runs1(sys, psa, psb, i) == spec_run2(
            sys,
            models_from(psa, i),
            models_from(psb, i),
        ).0,
        slot_runs2(sys, psa, psb, i) == spec_run2(
            sys,
            models_from(psa, i),
            models_from(psb, i),
        ).1,
    decreases psa.len() - i,
{
    if i == psa.len() {
        assert(models_from(psa, i).len() == 0);
        assert(models_from(psb, i).len() == 0);
    } else {
        lemma_partitioned_run_equivalence(sys, psa, psb, dividers, i + 1);
        let heada = opt_model(psa[i]);
        let headb = opt_model(psb[i]);
        let resta = models_from(psa, i + 1);
        let restb = models_from(psb, i + 1);
        assert(models_from(psa, i) == heada + resta);
        assert(models_from(psb, i) == headb + restb);
        if i + 1 < psa.len() {
            lemma_models_from_sorted(psa, dividers, i + 1);
            lemma_models_from_sorted(psb, dividers, i + 1);
        } else {
            assert(resta =~= Seq::<(E, T1)>::empty());
            assert(restb =~= Seq::<(E, T2)>::empty());
        }
        assert forall|x: int, y: int|
            0 <= x < heada.len() && 0 <= y < resta.len() implies heada[x].0.key()
            < resta[y].0.key() by {
            assert(in_partition_range(dividers, i, heada[x].0.key()));
            assert(resta[y].0.key() >= dividers[i].key());
        }
        assert forall|x: int, y: int|
            0 <= x < heada.len() && 0 <= y < restb.len() implies heada[x].0.key()
            < restb[y].0.key() by {
            assert(in_partition_range(dividers, i, heada[x].0.key()));
            assert(restb[y].0.key() >= dividers[i].key());
        }
        assert forall|x: int, y: int|
            0 <= x < headb.len() && 0 <= y < resta.len() implies headb[x].0.key()
            < resta[y].0.key() by {
            assert(in_partition_range(dividers, i, headb[x].0.key()));
            assert(resta[y].0.key() >= dividers[i].key());
        }
        assert forall|x: int, y: int|
            0 <= x < headb.len() && 0 <= y < restb.len() implies headb[x].0.key()
            < restb[y].0.key() by {
            assert(in_partition_range(dividers, i, headb[x].0.key()));
            assert(restb[y].0.key() >= dividers[i].key());
        }
        lemma_spec_run2_split(sys, heada, resta, headb, restb);
    }
}

/// Run the system per partition over two collections partitioned by one
/// scheme: one change vector pair per partition slot, each the result of the
/// serial zipper on that slot alone.  Partitions are disjoint by
/// construction, so the slots may be processed in any order or in parallel;
/// concatenating the returned vectors in slot order equals the serial run
/// over the whole collections.
pub fn run2_partitioned<
    E: Entity,
    T1,
    T2,
    S: System2<E, T1, T2>,
    P: PartitioningScheme<E>,
>(
    system: &S,
    a: &Partitioned<E, T1, CopyOnWriteComponentCollection<E, T1>, P>,
    b: &Partitioned<E, T2, CopyOnWriteComponentCollection<E, T2>, P>,
) -> (r: (Vec<Vec<(E, ComponentChange<T1>)>>, Vec<Vec<(E, ComponentChange<T2>)>>))
    requires
        a.wf(),
        b.wf(),
        a.scheme().dividers() == b.scheme().dividers(),
        keys_in_entity_range(a.model()),
        keys_in_entity_range(b.model()),
    ensures
        r.0@.len() == a.slots().len(),
        r.1@.len() == a.slots().len(),
        forall|i: int|
            0 <= i < a.slots().len() ==> r.0@[i]@ == spec_run2(
                *system,
                opt_model(a.slots()[i]),
                opt_model(b.slots()[i]),
            ).0,
        forall|i: int|
            0 <= i < a.slots().len() ==> r.1@[i]@ == spec_run2(
                *system,
                opt_model(a.slots()[i]),
                opt_model(b.slots()[i]),
            ).1,
{
    let ghost psa = a.slots();
    let ghost psb = b.slots();
    proof {
        lemma_models_from_membership(psa, 0);
        lemma_models_from_membership(psb, 0);
    }
    let mut results1: Vec<Vec<(E, ComponentChange<T1>)>> = Vec::new();
    let mut results2: Vec<Vec<(E, ComponentChange<T2>)>> = Vec::new();
    let n = a.num_slots();
    let mut i: usize = 0;
    while i < n
        invariant
            a.wf(),
            b.wf(),
            psa == a.slots(),
            psb == b.slots(),
            keys_in_entity_range(a.model()),
            keys_in_entity_range(b.model()),
            forall|q: int, j: int|
                0 <= q < psa.len() && 0 <= j < opt_model(psa[q]).len() ==> models_from(
                    psa,
                    0,
                ).contains(#[trigger] opt_model(psa[q])[j]),
            forall|q: int, j: int|
                0 <= q < psb.len() && 0 <= j < opt_model(psb[q]).len() ==> models_from(
                    psb,
                    0,
                ).contains(#[trigger] opt_model(psb[q])[j]),
            n == psa.len(),
            n == psb.len(),
            i <= n,
            results1@.len() == i,
            results2@.len() == i,
            forall|q: int|
                0 <= q < i ==> results1@[q]@ == spec_run2(
                    *system,
                    opt_model(psa[q]),
                    opt_model(psb[q]),
                ).0,
            forall|q: int|
                0 <= q < i ==> results2@[q]@ == spec_run2(
                    *system,
                    opt_model(psa[q]),
                    opt_model(psb[q]),
                ).1,
        decreases n - i,
    {
        let pa = a.get_partition_by_index(i);
        let pb = b.get_partition_by_index(i);
        match (pa, pb) {
            (Some(ca), Some(cb)) => {
                proof {
                    assert forall|j: int| 0 <= j < ca.model().len() implies 0 < (
                    #[trigger] ca.model()[j].0.key()) < E::max_key() by {
                        assert(models_from(psa, 0).contains(opt_model(psa[i as int])[j]));
                        let k = choose|k: int|
                            0 <= k < models_from(psa, 0).len() && models_from(psa, 0)[k]
                                == opt_model(psa[i as int])[j];
                        assert(a.model()[k] == opt_model(psa[i as int])[j]);
                    }
                    assert forall|j: int| 0 <= j < cb.model().len() implies 0 < (
                    #[trigger] cb.model()[j].0.key()) < E::max_key() by {
                        assert(models_from(psb, 0).contains(opt_model(psb[i as int])[j]));
                        let k = choose|k: int|
                            0 <= k < models_from(psb, 0).len() && models_from(psb, 0)[k]
                                == opt_model(psb[i as int])[j];
                        assert(b.model()[k] == opt_model(psb[i as int])[j]);
                    }
                }
                let (c1, c2) = run2(system, ca, cb);
                results1.push(c1);
                results2.push(c2);
            },
            _ => {
                proof {
                    if psa[i as int] is None || psb[i as int] is None {
                        assert(opt_model(psa[i as int]).len() == 0 || opt_model(
                            psb[i as int],
                        ).len() == 0);
                    }
                }
                results1.push(Vec::new());
                results2.push(Vec::new());
            },
        }
        i = i + 1;
    }
    (results1, results2)
}

} // verus!
