use crate::component::cow::{CopyOnWriteComponentCollection, CopyOnWriteComponentRef};
use crate::component::{
    apply_component_changes, has_key, lemma_pair_count_lt_properties,
    lemma_pair_offset_is_count_lt, lemma_spec_apply_empty_collection, lemma_spec_apply_keys_below,
    lemma_spec_apply_sorted_above, pair_count_lt, pairs_sorted, reversed, spec_apply,
    ComponentChange, ComponentCollection, ComponentRef,
};
use crate::entity::vec_map::VecEntityMap;
use crate::entity::{count_lt, strictly_sorted, Entity, EntityMap};
use vstd::prelude::*;

verus! {

/// PartitioningScheme divides a totally-ordered entity space into
/// partitions.  Its model is `dividers()`, a strictly increasing sequence of
/// entities; `k` dividers define `k + 1` partitions, where partition `i`
/// covers the keys from divider `i - 1` (inclusive) up to divider `i`
/// (exclusive).
pub trait PartitioningScheme<E: Entity>: Sized {
    /// The divider entities, in ascending order.
    spec fn dividers(&self) -> Seq<E>;

    /// The scheme's internal invariant.
    spec fn wf(&self) -> bool;

    /// A well-formed scheme holds its dividers in strictly ascending key
    /// order.
    proof fn lemma_wf_sorted(&self)
        requires
            self.wf(),
        ensures
            strictly_sorted(self.dividers()),
    ;

    /// Whether the partitioning scheme has dividers.
    fn is_empty(&self) -> (r: bool)
        requires
            self.wf(),
        ensures
            r == (self.dividers().len() == 0),
    ;

    /// The number of partition dividers.  There is one more partition than
    /// this number.
    fn len(&self) -> (r: usize)
        requires
            self.wf(),
        ensures
            r == self.dividers().len(),
    ;

    /// The entity that serves as an upper bound on the partition.
    fn partition(&self, partition: usize) -> (r: E)
        requires
            self.wf(),
            partition < self.dividers().len(),
        ensures
            r == self.dividers()[partition as int],
    ;

    /// The first partition in which the entity could reside: the number of
    /// dividers at or below it.
    fn lower_bound(&self, entity: E) -> (r: usize)
        requires
            self.wf(),
        ensures
            r <= self.dividers().len(),
            forall|i: int| 0 <= i < r ==> self.dividers()[i].key() <= entity.key(),
            forall|i: int|
                r <= i < self.dividers().len() ==> self.dividers()[i].key() > entity.key(),
    ;
}

/// NopPartitioningScheme provides no partitioning whatsoever: it has no
/// dividers, so everything falls in partition 0.
#[derive(Debug)]
pub struct NopPartitioningScheme;

impl<E: Entity> PartitioningScheme<E> for NopPartitioningScheme {
    open spec fn dividers(&self) -> Seq<E> {
        Seq::empty()
    }

    open spec fn wf(&self) -> bool {
        true
    }

    proof fn lemma_wf_sorted(&self) {
    }

    fn is_empty(&self) -> bool {
        true
    }

    fn len(&self) -> usize {
        0
    }

    fn partition(&self, partition: usize) -> E {
        vstd::pervasive::unreached()
    }

    fn lower_bound(&self, entity: E) -> usize {
        0
    }
}

/// Use a vector for partitioning.  Binary search finds the appropriate
/// partition.
#[derive(Debug)]
pub struct VecPartitioningScheme<E: Entity> {
    entities: Vec<E>,
}

impl<E: Entity> VecPartitioningScheme<E> {
    /// Construction copies externally sorted dividers; ordering is the
    /// caller's responsibility.
    pub fn from(entities: Vec<E>) -> (r: Self)
        requires
            strictly_sorted(entities@),
        ensures
            r.wf(),
            r.dividers() == entities@,
    {
        Self { entities }
    }
}

impl<E: Entity> PartitioningScheme<E> for VecPartitioningScheme<E> {
    closed spec fn dividers(&self) -> Seq<E> {
        self.entities@
    }

    closed spec fn wf(&self) -> bool {
        strictly_sorted(self.entities@)
    }

    proof fn lemma_wf_sorted(&self) {
    }

    fn is_empty(&self) -> bool {
        self.entities.len() == 0
    }

    fn len(&self) -> usize {
        self.entities.len()
    }

    fn partition(&self, partition: usize) -> E {
        self.entities[partition]
    }

    fn lower_bound(&self, entity: E) -> usize {
        let mut lo: usize = 0;
        let mut hi: usize = self.entities.len();
        while lo < hi
            invariant
                lo <= hi <= self.entities.len(),
                strictly_sorted(self.entities@),
                forall|j: int| 0 <= j < lo ==> self.entities@[j].key() <= entity.key(),
                forall|j: int|
                    hi <= j < self.entities.len() ==> self.entities@[j].key() > entity.key(),
            decreases hi - lo,
        {
            let mid = lo + (hi - lo) / 2;
            if self.entities[mid].le(entity) {
                lo = mid + 1;
            } else {
                hi = mid;
            }
        }
        lo
    }
}

/// The model of an optional partition: an absent partition holds nothing.
pub open spec fn opt_model<E: Entity, T, C: ComponentCollection<E, T>>(p: Option<C>) -> Seq<
    (E, T),
> {
    match p {
        Some(c) => c.model(),
        None => Seq::empty(),
    }
}

/// The concatenated models of the partition slots from slot `i` on.
pub open spec fn models_from<E: Entity, T, C: ComponentCollection<E, T>>(
    ps: Seq<Option<C>>,
    i: int,
) -> Seq<(E, T)>
    decreases ps.len() - i,
{
    if i < 0 || ps.len() <= i {
        Seq::empty()
    } else {
        opt_model(ps[i]) + models_from(ps, i + 1)
    }
}

/// Whether key `k` lies in the key range of partition slot `i`: at or above
/// divider `i - 1`, strictly below divider `i`.
pub open spec fn in_partition_range<E: Entity>(dividers: Seq<E>, i: int, k: int) -> bool {
    &&& (i == 0 || dividers[i - 1].key() <= k)
    &&& (i == dividers.len() || k < dividers[i].key())
}

/// Every pair of every slot lies in that slot's key range.
pub open spec fn parts_in_range<E: Entity, T, C: ComponentCollection<E, T>>(
    ps: Seq<Option<C>>,
    dividers: Seq<E>,
) -> bool {
    forall|i: int, j: int|
        0 <= i < ps.len() && 0 <= j < opt_model(ps[i]).len() ==> in_partition_range(
            dividers,
            i,
            #[trigger] opt_model(ps[i])[j].0.key(),
        )
}

/// Every present slot is well-formed.
pub open spec fn parts_wf<E: Entity, T, C: ComponentCollection<E, T>>(ps: Seq<Option<C>>) -> bool {
    forall|i: int| 0 <= i < ps.len() ==> (#[trigger] ps[i] is Some ==> ps[i]->Some_0.wf())
}

/// Appending a slot appends its model to the concatenation.
pub proof fn lemma_models_from_push<E: Entity, T, C: ComponentCollection<E, T>>(
    ps: Seq<Option<C>>,
    x: Option<C>,
    i: int,
)
    requires
        0 <= i <= ps.len(),
    ensures
        models_from(ps.push(x), i) == models_from(ps, i) + opt_model(x),
    decreases ps.len() - i,
{
    let psx = ps.push(x);
    if i == ps.len() {
        assert(psx[i] == x);
        assert(models_from(psx, i + 1) =~= Seq::<(E, T)>::empty());
        assert(models_from(psx, i) =~= opt_model(x));
        assert(models_from(ps, i) + opt_model(x) =~= opt_model(x));
    } else {
        assert(psx[i] == ps[i]);
        lemma_models_from_push(ps, x, i + 1);
        assert(models_from(psx, i) =~= models_from(ps, i) + opt_model(x));
    }
}

/// Every pair of every slot at or past `i` appears in the concatenation from
/// `i`, and every pair of the concatenation comes from some such slot.
pub proof fn lemma_models_from_membership<E: Entity, T, C: ComponentCollection<E, T>>(
    ps: Seq<Option<C>>,
    i: int,
)
    requires
        0 <= i <= ps.len(),
    ensures
        forall|q: int, j: int|
            i <= q < ps.len() && 0 <= j < opt_model(ps[q]).len() ==> models_from(ps, i).contains(
                #[trigger] opt_model(ps[q])[j],
            ),
    decreases ps.len() - i,
{
    if i < 0 || ps.len() <= i {
    } else {
        lemma_models_from_membership(ps, i + 1);
        let head = opt_model(ps[i]);
        let tail = models_from(ps, i + 1);
        let whole = models_from(ps, i);
        assert(whole == head + tail);
        assert forall|q: int, j: int|
            i <= q < ps.len() && 0 <= j < opt_model(ps[q]).len() implies whole.contains(
            #[trigger] opt_model(ps[q])[j],
        ) by {
            if q == i {
                assert(whole[j] == opt_model(ps[q])[j]);
            } else {
                assert(tail.contains(opt_model(ps[q])[j]));
                let k = choose|k: int| 0 <= k < tail.len() && tail[k] == opt_model(ps[q])[j];
                assert(whole[head.len() + k] == tail[k]);
            }
        }
    }
}

/// The concatenation of in-range slots over sorted dividers is sorted, and
/// bounded below by the lower divider of slot `i`.
pub proof fn lemma_models_from_sorted<E: Entity, T, C: ComponentCollection<E, T>>(
    ps: Seq<Option<C>>,
    dividers: Seq<E>,
    i: int,
)
    requires
        strictly_sorted(dividers),
        ps.len() == dividers.len() + 1,
        parts_in_range(ps, dividers),
        forall|q: int| 0 <= q < ps.len() ==> pairs_sorted(#[trigger] opt_model(ps[q])),
        0 <= i < ps.len(),
    ensures
        pairs_sorted(models_from(ps, i)),
        i > 0 ==> forall|k: int|
            0 <= k < models_from(ps, i).len() ==> #[trigger] models_from(ps, i)[k].0.key()
                >= dividers[i - 1].key(),
    decreases ps.len() - i,
{
    let head = opt_model(ps[i]);
    let tail = models_from(ps, i + 1);
    let whole = models_from(ps, i);
    assert(whole == head + tail);
    if i + 1 < ps.len() {
        lemma_models_from_sorted(ps, dividers, i + 1);
    } else {
        assert(tail =~= Seq::<(E, T)>::empty());
    }
    assert forall|a: int, b: int| 0 <= a < b < whole.len() implies whole[a].0.key()
        < whole[b].0.key() by {
        if b < head.len() {
            assert(whole[a] == head[a] && whole[b] == head[b]);
        } else if a >= head.len() {
            assert(whole[a] == tail[a - head.len()] && whole[b] == tail[b - head.len()]);
        } else {
            assert(whole[a] == head[a] && whole[b] == tail[b - head.len()]);
            assert(in_partition_range(dividers, i, head[a].0.key()));
            assert(tail[b - head.len()].0.key() >= dividers[i].key());
        }
    }
    if i > 0 {
        assert forall|k: int| 0 <= k < whole.len() implies whole[k].0.key() >= dividers[i
            - 1].key() by {
            if k < head.len() {
                assert(in_partition_range(dividers, i, head[k].0.key()));
            } else {
                assert(whole[k] == tail[k - head.len()]);
                assert(tail[k - head.len()].0.key() >= dividers[i].key());
            }
        }
    }
}

/// Partition the collection according to the provided partitioning scheme:
/// one streaming pass that emits `k + 1` slots, routing each pair to the
/// slot whose key range holds it.  A slot with no entities is absent, which
/// is distinct from an empty collection at that slot.
pub fn partition<E: Entity, T, C: ComponentCollection<E, T>, P: PartitioningScheme<E>>(
    collection: C,
    partitioning: &P,
) -> (r: Vec<Option<C>>)
    requires
        collection.wf(),
        partitioning.wf(),
    ensures
        r@.len() == partitioning.dividers().len() + 1,
        parts_wf(r@),
        parts_in_range(r@, partitioning.dividers()),
        forall|i: int| 0 <= i < r@.len() ==> (#[trigger] r@[i] is Some ==> opt_model(
            r@[i],
        ).len() > 0),
        models_from(r@, 0) == collection.model(),
{
    let ghost m0 = collection.model();
    let ghost dividers = partitioning.dividers();
    proof {
        collection.lemma_wf_sorted();
        partitioning.lemma_wf_sorted();
    }
    let pairs = collection.consume();
    let mut stack = reversed(pairs);
    let mut partitions: Vec<Option<C>> = Vec::new();
    let k = partitioning.len();
    while partitions.len() < k
        invariant
            pairs_sorted(m0),
            strictly_sorted(dividers),
            partitioning.wf(),
            dividers == partitioning.dividers(),
            k == dividers.len(),
            partitions@.len() <= k,
            stack@.len() <= m0.len(),
            forall|j: int| 0 <= j < stack@.len() ==> stack@[j] == m0[m0.len() - 1 - j],
            models_from(partitions@, 0) == m0.take(m0.len() - stack@.len()),
            parts_wf(partitions@),
            parts_in_range(partitions@, dividers),
            forall|i: int|
                0 <= i < partitions@.len() ==> (#[trigger] partitions@[i] is Some ==> opt_model(
                    partitions@[i],
                ).len() > 0),
            partitions@.len() > 0 ==> forall|j: int|
                m0.len() - stack@.len() <= j < m0.len() ==> m0[j].0.key()
                    >= dividers[partitions@.len() - 1].key(),
        decreases k - partitions.len(),
    {
        let ghost b = partitions@.len() as int;
        let target = partitioning.partition(partitions.len());
        let mut current: Vec<(E, T)> = Vec::new();
        let ghost done0 = m0.len() - stack@.len();
        proof {
            assert(current@ =~= m0.subrange(done0, done0));
        }
        let mut more = true;
        while more && stack.len() > 0
            invariant
                !more && stack@.len() > 0 ==> m0[m0.len() - stack@.len()].0.key()
                    >= dividers[b].key(),
                pairs_sorted(m0),
                strictly_sorted(dividers),
                target == dividers[b],
                0 <= b < dividers.len(),
                stack@.len() <= m0.len(),
                forall|j: int| 0 <= j < stack@.len() ==> stack@[j] == m0[m0.len() - 1 - j],
                0 <= done0 <= m0.len() - stack@.len(),
                current@ == m0.subrange(done0, m0.len() - stack@.len()),
                forall|j: int|
                    0 <= j < current@.len() ==> #[trigger] current@[j].0.key() < dividers[b].key(),
                b > 0 ==> forall|j: int|
                    done0 <= j < m0.len() ==> m0[j].0.key() >= dividers[b - 1].key(),
            decreases stack.len() + if more {
                1int
            } else {
                0int
            },
        {
            let ghost done = m0.len() - stack@.len();
            proof {
                assert(stack@[stack@.len() - 1] == m0[done]);
            }
            let last = stack.len() - 1;
            if stack[last].0.lt(target) {
                let p = stack.pop().unwrap();
                proof {
                    assert(p == m0[done]);
                }
                current.push(p);
                proof {
                    assert(current@ =~= m0.subrange(done0, done + 1));
                }
            } else {
                more = false;
            }
        }
        let ghost done = m0.len() - stack@.len();
        proof {
            assert(pairs_sorted(current@));
        }
        let ghost cur = current@;
        let ghost before = partitions@;
        if current.len() > 0 {
            let part = C::from_pairs(current);
            partitions.push(Some(part));
            proof {
                lemma_models_from_push(before, Some(part), 0);
                assert(models_from(partitions@, 0) =~= m0.take(done));
            }
        } else {
            partitions.push(None::<C>);
            proof {
                lemma_models_from_push(before, None::<C>, 0);
                assert(models_from(partitions@, 0) =~= m0.take(done));
            }
        }
        proof {
            assert forall|i: int, j: int|
                0 <= i < partitions@.len() && 0 <= j < opt_model(partitions@[i]).len()
                    implies in_partition_range(
                dividers,
                i,
                #[trigger] opt_model(partitions@[i])[j].0.key(),
            ) by {
                if i < b {
                    assert(partitions@[i] == before[i]);
                } else {
                    assert(opt_model(partitions@[i]) == cur);
                }
            }
            assert forall|j: int|
                done <= j < m0.len() implies m0[j].0.key() >= dividers[b].key() by {
                if stack@.len() > 0 {
                    assert(stack@[stack@.len() - 1] == m0[done]);
                    assert(m0[done].0.key() >= dividers[b].key());
                }
            }
        }
    }
    let mut current: Vec<(E, T)> = Vec::new();
    let ghost done0 = m0.len() - stack@.len();
    proof {
        assert(current@ =~= m0.subrange(done0, done0));
    }
    while stack.len() > 0
        invariant
            pairs_sorted(m0),
            stack@.len() <= m0.len(),
            forall|j: int| 0 <= j < stack@.len() ==> stack@[j] == m0[m0.len() - 1 - j],
            0 <= done0 <= m0.len() - stack@.len(),
            current@ == m0.subrange(done0, m0.len() - stack@.len()),
        decreases stack.len(),
    {
        let ghost done = m0.len() - stack@.len();
        let p = stack.pop().unwrap();
        proof {
            assert(p == m0[done]);
        }
        current.push(p);
        proof {
            assert(current@ =~= m0.subrange(done0, done + 1));
        }
    }
    proof {
        assert(pairs_sorted(current@));
    }
    let ghost cur = current@;
    let ghost before = partitions@;
    if current.len() > 0 {
        let part = C::from_pairs(current);
        partitions.push(Some(part));
    } else {
        partitions.push(None::<C>);
    }
    proof {
        lemma_models_from_push(before, partitions@.last(), 0);
        assert(before.push(partitions@.last()) =~= partitions@);
        assert(models_from(partitions@, 0) =~= m0);
        assert forall|i: int, j: int|
            0 <= i < partitions@.len() && 0 <= j < opt_model(partitions@[i]).len()
                implies in_partition_range(
            dividers,
            i,
            #[trigger] opt_model(partitions@[i])[j].0.key(),
        ) by {
            if i < before.len() {
                assert(partitions@[i] == before[i]);
            } else {
                assert(opt_model(partitions@[i]) == cur);
            }
        }
    }
    partitions
}

/// A concatenation of slots is empty exactly when every slot is.
pub proof fn lemma_models_from_empty<E: Entity, T, C: ComponentCollection<E, T>>(
    ps: Seq<Option<C>>,
    i: int,
)
    requires
        0 <= i <= ps.len(),
    ensures
        (models_from(ps, i).len() == 0) <==> (forall|q: int|
            i <= q < ps.len() ==> opt_model(#[trigger] ps[q]).len() == 0),
    decreases ps.len() - i,
{
    if i < ps.len() {
        lemma_models_from_empty(ps, i + 1);
    }
}

/// Dropping the slots below `p`, all of whose keys lie below the key of `e`,
/// drops a prefix of the concatenation whose keys all lie below the key of
/// `e`.
pub proof fn lemma_models_skip_prefix<E: Entity, T, C: ComponentCollection<E, T>>(
    ps: Seq<Option<C>>,
    dividers: Seq<E>,
    p: int,
    e: E,
)
    requires
        0 <= p <= dividers.len(),
        ps.len() == dividers.len() + 1,
        parts_in_range(ps, dividers),
        forall|i: int| 0 <= i < p ==> dividers[i].key() <= e.key(),
    ensures
        models_from(ps, p).len() <= models_from(ps, 0).len(),
        models_from(ps, 0).skip(
            models_from(ps, 0).len() - models_from(ps, p).len(),
        ) == models_from(ps, p),
        forall|j: int|
            0 <= j < models_from(ps, 0).len() - models_from(ps, p).len() ==> models_from(
                ps,
                0,
            )[j].0.key() < e.key(),
    decreases p,
{
    let whole = models_from(ps, 0);
    if p == 0 {
        assert(whole.skip(0) =~= whole);
    } else {
        lemma_models_skip_prefix(ps, dividers, p - 1, e);
        let above = models_from(ps, p - 1);
        let head = opt_model(ps[p - 1]);
        let rest = models_from(ps, p);
        let base = whole.len() - above.len();
        assert(above == head + rest);
        assert(above.len() == head.len() + rest.len());
        assert(forall|m: int| 0 <= m < above.len() ==> whole.skip(base)[m] == #[trigger] above[m]);
        assert(forall|m: int|
            0 <= m < above.len() ==> #[trigger] whole.skip(base)[m] == whole[base + m]);
        assert forall|k: int| 0 <= k < rest.len() implies whole[whole.len() - rest.len() + k]
            == rest[k] by {
            assert(above[head.len() + k] == rest[k]);
            assert(whole[base + head.len() + k] == above[head.len() + k]);
        }
        assert(whole.skip(whole.len() - rest.len()) =~= rest);
        assert forall|j: int| 0 <= j < whole.len() - rest.len() implies whole[j].0.key()
            < e.key() by {
            if j >= base {
                let jj = j - base;
                assert(whole[base + jj] == above[jj]);
                assert(above[jj] == head[jj]);
                assert(in_partition_range(dividers, p - 1, head[jj].0.key()));
                assert(head[jj].0.key() < dividers[p - 1].key());
            }
        }
    }
}

/// The number of pairs held by the slots before slot `p`.
pub open spec fn prefix_len<E: Entity, T, C: ComponentCollection<E, T>>(
    ps: Seq<Option<C>>,
    p: int,
) -> int {
    models_from(ps, 0).len() - models_from(ps, p).len()
}

/// Routing: when every divider below `p` lies at or below `e` and every
/// divider from `p` on lies above it, slot `p` is the one slot whose range
/// holds the key of `e`; searching for `e` in the whole collection and in
/// that one slot agree, and global offsets decompose into the prefix length
/// plus the local offset.
pub proof fn lemma_partition_route<E: Entity, T, C: ComponentCollection<E, T>>(
    ps: Seq<Option<C>>,
    dividers: Seq<E>,
    p: int,
    e: E,
)
    requires
        strictly_sorted(dividers),
        ps.len() == dividers.len() + 1,
        parts_in_range(ps, dividers),
        forall|q: int| 0 <= q < ps.len() ==> pairs_sorted(#[trigger] opt_model(ps[q])),
        0 <= p <= dividers.len(),
        forall|i: int| 0 <= i < p ==> dividers[i].key() <= e.key(),
        forall|i: int| p <= i < dividers.len() ==> dividers[i].key() > e.key(),
    ensures
        0 <= prefix_len(ps, p),
        prefix_len(ps, p) + opt_model(ps[p]).len() <= models_from(ps, 0).len(),
        forall|t: int|
            0 <= t < opt_model(ps[p]).len() ==> models_from(ps, 0)[prefix_len(ps, p) + t]
                == #[trigger] opt_model(ps[p])[t],
        has_key(models_from(ps, 0), e.key()) <==> has_key(opt_model(ps[p]), e.key()),
        pair_count_lt(models_from(ps, 0), e) == prefix_len(ps, p) + pair_count_lt(
            opt_model(ps[p]),
            e,
        ),
{
    let m = models_from(ps, 0);
    let pm = opt_model(ps[p]);
    let rem = models_from(ps, p);
    let rest = models_from(ps, p + 1);
    let pre = m.len() - rem.len();
    lemma_models_skip_prefix(ps, dividers, p, e);
    assert(rem == pm + rest);
    assert(forall|t: int| 0 <= t < rem.len() ==> m.skip(pre)[t] == #[trigger] rem[t]);
    assert(forall|t: int| 0 <= t < rem.len() ==> #[trigger] m.skip(pre)[t] == m[pre + t]);
    assert forall|t: int| 0 <= t < pm.len() implies m[prefix_len(ps, p) + t] == #[trigger] pm[t] by {
        assert(rem[t] == pm[t]);
    }
    if p < dividers.len() {
        lemma_models_from_sorted(ps, dividers, p + 1);
    }
    assert forall|t: int| 0 <= t < rest.len() implies #[trigger] rest[t].0.key() > e.key() by {
        assert(rest[t].0.key() >= dividers[p].key());
    }
    lemma_models_from_sorted(ps, dividers, 0);
    lemma_pair_count_lt_properties(pm, e);
    let lc = pair_count_lt(pm, e);
    assert forall|j: int| 0 <= j < pre + lc implies m[j].0.key() < e.key() by {
        if j >= pre {
            assert(m[j] == pm[j - pre]);
        }
    }
    assert forall|j: int| pre + lc <= j < m.len() implies m[j].0.key() >= e.key() by {
        if j < pre + pm.len() {
            assert(m[j] == pm[j - pre]);
        } else {
            assert(m[j] == rem[j - pre]);
            assert(rem[j - pre] == rest[j - pre - pm.len()]);
        }
    }
    lemma_pair_offset_is_count_lt(m, e, pre + lc);
    if has_key(m, e.key()) {
        let j = choose|j: int| 0 <= j < m.len() && m[j].0.key() == e.key();
        if j < pre {
            assert(models_from(ps, 0)[j].0.key() < e.key());
            assert(false);
        }
        if j >= pre + pm.len() {
            assert(m.skip(pre)[j - pre] == rem[j - pre]);
            assert(m[j] == rem[j - pre]);
            assert(rem[j - pre] == rest[j - pre - pm.len()]);
            assert(false);
        }
        assert(m[j] == pm[j - pre]);
        assert(has_key(pm, e.key()));
    }
    if has_key(pm, e.key()) {
        let t = choose|t: int| 0 <= t < pm.len() && pm[t].0.key() == e.key();
        assert(m[pre + t] == pm[t]);
        assert(has_key(m, e.key()));
    }
}

/// No key lies in the ranges of two different partition slots: the slots
/// tile the entity space.
pub proof fn lemma_partition_ranges_disjoint<E: Entity>(dividers: Seq<E>, i: int, j: int, k: int)
    requires
        strictly_sorted(dividers),
        0 <= i < j <= dividers.len(),
    ensures
        !(in_partition_range(dividers, i, k) && in_partition_range(dividers, j, k)),
{
    if in_partition_range(dividers, i, k) && in_partition_range(dividers, j, k) {
        assert(k < dividers[i].key());
        assert(dividers[j - 1].key() <= k);
        if i < j - 1 {
            assert(dividers[i].key() < dividers[j - 1].key());
        }
    }
}

/// Partition coverage: every pair of every slot is a pair of the
/// concatenation (which `partition` guarantees equals the original
/// collection), pairs of slots below the last lie strictly below their
/// upper divider, and pairs of the last slot lie at or above the last
/// divider.
pub proof fn lemma_partition_coverage<E: Entity, T, C: ComponentCollection<E, T>>(
    ps: Seq<Option<C>>,
    dividers: Seq<E>,
)
    requires
        strictly_sorted(dividers),
        ps.len() == dividers.len() + 1,
        parts_in_range(ps, dividers),
    ensures
        forall|q: int, j: int|
            0 <= q < ps.len() && 0 <= j < opt_model(ps[q]).len() ==> models_from(
                ps,
                0,
            ).contains(#[trigger] opt_model(ps[q])[j]),
        forall|q: int, j: int|
            0 <= q < dividers.len() && 0 <= j < opt_model(ps[q]).len() ==> (
            #[trigger] opt_model(ps[q])[j]).0.key() < dividers[q].key(),
        dividers.len() > 0 ==> forall|j: int|
            0 <= j < opt_model(ps[ps.len() - 1]).len() ==> (#[trigger] opt_model(
                ps[ps.len() - 1],
            )[j]).0.key() >= dividers[dividers.len() - 1].key(),
{
    lemma_models_from_membership(ps, 0);
    assert forall|q: int, j: int|
        0 <= q < dividers.len() && 0 <= j < opt_model(ps[q]).len() implies (
    #[trigger] opt_model(ps[q])[j]).0.key() < dividers[q].key() by {
        assert(in_partition_range(dividers, q, opt_model(ps[q])[j].0.key()));
    }
    if dividers.len() > 0 {
        assert forall|j: int|
            0 <= j < opt_model(ps[ps.len() - 1]).len() implies (#[trigger] opt_model(
            ps[ps.len() - 1],
        )[j]).0.key() >= dividers[dividers.len() - 1].key() by {
            assert(in_partition_range(
                dividers,
                ps.len() - 1,
                opt_model(ps[ps.len() - 1])[j].0.key(),
            ));
        }
    }
}

/// Partitioned wraps another collection type: it owns one optional inner
/// collection per partition of its scheme, each holding only the entities
/// routed to that partition.
pub struct Partitioned<E: Entity, T, C: ComponentCollection<E, T>, P: PartitioningScheme<E>> {
    partitioning: P,
    partitions: Vec<Option<C>>,
    _phantom: core::marker::PhantomData<(E, T)>,
}

impl<E: Entity, T, C: ComponentCollection<E, T>, P: PartitioningScheme<E>> Partitioned<E, T, C, P> {
    /// The partitioning scheme of this collection.
    pub closed spec fn scheme(&self) -> P {
        self.partitioning
    }

    /// The partition slots, in key order.
    pub closed spec fn slots(&self) -> Seq<Option<C>> {
        self.partitions@
    }

    /// The pairs of the whole collection: the concatenation of the
    /// partitions' models in slot order.
    pub open spec fn model(&self) -> Seq<(E, T)> {
        models_from(self.slots(), 0)
    }

    /// The collection's invariant: one slot more than there are dividers,
    /// each present slot well-formed and all its keys in the slot's range.
    pub open spec fn wf(&self) -> bool {
        &&& self.scheme().wf()
        &&& self.slots().len() == self.scheme().dividers().len() + 1
        &&& parts_wf(self.slots())
        &&& parts_in_range(self.slots(), self.scheme().dividers())
    }

    /// A well-formed partitioned collection holds its pairs in strictly
    /// ascending entity key order.
    pub proof fn lemma_wf_sorted(&self)
        requires
            self.wf(),
        ensures
            pairs_sorted(self.model()),
    {
        self.scheme().lemma_wf_sorted();
        assert forall|q: int| 0 <= q < self.slots().len() implies pairs_sorted(
            #[trigger] opt_model(self.slots()[q]),
        ) by {
            if self.slots()[q] is Some {
                self.slots()[q]->Some_0.lemma_wf_sorted();
            }
        }
        lemma_models_from_sorted(self.slots(), self.scheme().dividers(), 0);
    }

    /// Create a new partitioned collection from the partitioning and the
    /// partitions provided, which must already be routed by that scheme.
    pub fn from(partitioning: P, partitions: Vec<Option<C>>) -> (r: Self)
        requires
            partitioning.wf(),
            partitions@.len() == partitioning.dividers().len() + 1,
            parts_wf(partitions@),
            parts_in_range(partitions@, partitioning.dividers()),
        ensures
            r.wf(),
            r.scheme() == partitioning,
            r.slots() == partitions@,
    {
        let _phantom = core::marker::PhantomData;
        Self { partitioning, partitions, _phantom }
    }

    /// The partitioning scheme in use by this partitioned collection.
    pub fn partitioning_scheme(&self) -> (r: &P)
        ensures
            *r == self.scheme(),
    {
        &self.partitioning
    }
}

impl<E: Entity, T, C: ComponentCollection<E, T>> Partitioned<E, T, C, NopPartitioningScheme> {
    /// Wrap a whole collection as a single partition under the scheme with
    /// no dividers.
    pub fn from_collection(collection: C) -> (r: Self)
        requires
            collection.wf(),
        ensures
            r.wf(),
            r.model() == collection.model(),
    {
        let ghost m = collection.model();
        let mut partitions: Vec<Option<C>> = Vec::new();
        partitions.push(Some(collection));
        let r = Self::from(NopPartitioningScheme, partitions);
        proof {
            assert(models_from(r.slots(), 1).len() == 0);
            assert(r.model() =~= m);
        }
        r
    }
}

impl<E: Entity, T, C: ComponentCollection<E, T>, P: PartitioningScheme<E>> Partitioned<
    E,
    T,
    C,
    P,
> {
    /// The number of partition slots: one more than there are dividers.
    pub fn num_slots(&self) -> (r: usize)
        ensures
            r == self.slots().len(),
    {
        self.partitions.len()
    }

    /// Return the partition at the given slot, if present.
    pub fn get_partition_by_index(&self, partition: usize) -> (r: Option<&C>)
        ensures
            partition < self.slots().len() ==> (r is Some <==> self.slots()[
                partition as int
            ] is Some),
            partition < self.slots().len() && r is Some ==> *r->Some_0 == self.slots()[
                partition as int
            ]->Some_0,
            partition >= self.slots().len() ==> r is None,
    {
        if partition < self.partitions.len() {
            self.partitions[partition].as_ref()
        } else {
            None
        }
    }

    /// Is the collection empty?  Aggregates across partitions, treating
    /// absent partitions as empty.
    pub fn is_empty(&self) -> (r: bool)
        requires
            self.wf(),
        ensures
            r == (self.model().len() == 0),
    {
        let mut i: usize = 0;
        let mut all_empty = true;
        while i < self.partitions.len()
            invariant
                self.wf(),
                i <= self.slots().len(),
                all_empty == (forall|q: int|
                    0 <= q < i ==> opt_model(#[trigger] self.slots()[q]).len() == 0),
            decreases self.partitions.len() - i,
        {
            match self.partitions[i].as_ref() {
                Some(c) => {
                    if !c.is_empty() {
                        all_empty = false;
                    }
                },
                None => {},
            }
            i = i + 1;
        }
        proof {
            lemma_models_from_empty(self.slots(), 0);
        }
        all_empty
    }

    /// How many components are in the collection, over all partitions?
    pub fn len(&self) -> (r: usize)
        requires
            self.wf(),
            self.model().len() <= usize::MAX,
        ensures
            r == self.model().len(),
    {
        let mut i: usize = 0;
        let mut total: usize = 0;
        while i < self.partitions.len()
            invariant
                self.wf(),
                self.model().len() <= usize::MAX,
                i <= self.slots().len(),
                total + models_from(self.slots(), i as int).len() == self.model().len(),
            decreases self.partitions.len() - i,
        {
            match self.partitions[i].as_ref() {
                Some(c) => {
                    let n = c.len();
                    total = total + n;
                },
                None => {},
            }
            i = i + 1;
        }
        total
    }

    /// Consume the partitioned collection, yielding its pairs in entity
    /// order: the concatenation of the partitions' contents in slot order.
    pub fn consume(self) -> (r: Vec<(E, T)>)
        requires
            self.wf(),
        ensures
            r@ == self.model(),
    {
        let ghost ps0 = self.slots();
        let Partitioned { partitioning, partitions, _phantom } = self;
        let mut stack = reversed(partitions);
        let mut out: Vec<(E, T)> = Vec::new();
        while stack.len() > 0
            invariant
                parts_wf(ps0),
                stack@.len() <= ps0.len(),
                forall|k: int| 0 <= k < stack@.len() ==> stack@[k] == ps0[ps0.len() - 1 - k],
                out@ + models_from(ps0, ps0.len() - stack@.len()) == models_from(ps0, 0),
            decreases stack.len(),
        {
            let ghost i = ps0.len() - stack@.len();
            proof {
                assert(stack@[stack@.len() - 1] == ps0[i]);
            }
            let ghost out0 = out@;
            let slot = stack.pop().unwrap();
            match slot {
                Some(c) => {
                    let mut pairs = c.consume();
                    out.append(&mut pairs);
                    proof {
                        assert(out@ + models_from(ps0, i + 1) =~= out0 + models_from(ps0, i));
                    }
                },
                None => {
                    proof {
                        assert(out@ + models_from(ps0, i + 1) =~= out0 + models_from(ps0, i));
                    }
                },
            }
        }
        proof {
            assert(models_from(ps0, ps0.len() as int).len() == 0);
            assert(out@ =~= models_from(ps0, 0));
        }
        out
    }

    /// The first entity of the collection at or above `lower_bound`: start at
    /// the partition the scheme routes to, and take the first present answer
    /// of the partitions from there on.
    pub fn lower_bound(&self, lower_bound: E) -> (r: Option<E>)
        requires
            self.wf(),
        ensures
            r is Some <==> exists|j: int|
                0 <= j < self.model().len() && self.model()[j].0.key() >= lower_bound.key(),
            r is Some ==> r->Some_0 == self.model()[pair_count_lt(
                self.model(),
                lower_bound,
            )].0,
    {
        let ghost m = self.model();
        let ghost ps = self.slots();
        let ghost dividers = self.scheme().dividers();
        proof {
            self.lemma_wf_sorted();
            self.scheme().lemma_wf_sorted();
            assert forall|q: int| 0 <= q < ps.len() implies pairs_sorted(
                #[trigger] opt_model(ps[q]),
            ) by {
                if ps[q] is Some {
                    ps[q]->Some_0.lemma_wf_sorted();
                }
            }
        }
        let mut partition = self.partitioning.lower_bound(lower_bound);
        proof {
            lemma_models_skip_prefix(ps, dividers, partition as int, lower_bound);
        }
        while partition < self.partitions.len()
            invariant
                self.wf(),
                m == self.model(),
                ps == self.slots(),
                dividers == self.scheme().dividers(),
                pairs_sorted(m),
                forall|q: int| 0 <= q < ps.len() ==> pairs_sorted(#[trigger] opt_model(ps[q])),
                partition <= ps.len(),
                models_from(ps, partition as int).len() <= m.len(),
                m.skip(m.len() - models_from(ps, partition as int).len()) == models_from(
                    ps,
                    partition as int,
                ),
                forall|j: int|
                    0 <= j < m.len() - models_from(ps, partition as int).len() ==> m[j].0.key()
                        < lower_bound.key(),
            decreases self.partitions.len() - partition,
        {
            let ghost rem = models_from(ps, partition as int);
            let ghost pre = m.len() - rem.len();
            let ghost head = opt_model(ps[partition as int]);
            let ghost rest = models_from(ps, partition as int + 1);
            proof {
                assert(rem == head + rest);
                assert(forall|t: int| 0 <= t < rem.len() ==> m.skip(pre)[t] == #[trigger] rem[t]);
                assert(forall|t: int|
                    0 <= t < rem.len() ==> #[trigger] m.skip(pre)[t] == m[pre + t]);
                assert forall|t: int| 0 <= t < head.len() implies m[pre + t]
                    == #[trigger] head[t] by {
                    assert(rem[t] == head[t]);
                }
                assert forall|t: int| 0 <= t < rest.len() implies m[pre + head.len() + t]
                    == #[trigger] rest[t] by {
                    assert(rem[head.len() + t] == rest[t]);
                }
                assert(m.skip(m.len() - rest.len()) =~= rest);
            }
            match self.partitions[partition].as_ref() {
                Some(c) => {
                    match c.lower_bound(lower_bound) {
                        Some(x) => {
                            proof {
                                lemma_pair_count_lt_properties(head, lower_bound);
                                let lc = pair_count_lt(head, lower_bound);
                                let jw = choose|j: int|
                                    0 <= j < head.len() && head[j].0.key() >= lower_bound.key();
                                assert(lc <= jw < head.len());
                                assert(m[pre + lc] == head[lc]);
                                assert forall|j: int| 0 <= j < pre + lc implies m[j].0.key()
                                    < lower_bound.key() by {
                                    if j >= pre {
                                        assert(m[j] == head[j - pre]);
                                    }
                                }
                                assert forall|j: int| pre + lc <= j < m.len() implies m[j].0.key()
                                    >= lower_bound.key() by {
                                    if j > pre + lc {
                                        assert(m[pre + lc].0.key() < m[j].0.key());
                                    }
                                }
                                lemma_pair_offset_is_count_lt(m, lower_bound, pre + lc);
                            }
                            return Some(x);
                        },
                        None => {
                            proof {
                                assert forall|j: int|
                                    0 <= j < m.len() - rest.len() implies m[j].0.key()
                                    < lower_bound.key() by {
                                    if j >= pre {
                                        assert(m[j] == head[j - pre]);
                                    }
                                }
                            }
                        },
                    }
                },
                None => {
                    proof {
                        assert(head.len() == 0);
                        assert(m.len() - rest.len() == pre);
                    }
                },
            }
            partition = partition + 1;
        }
        proof {
            assert(models_from(ps, ps.len() as int).len() == 0);
        }
        None
    }

    /// Apply one partition's changes to one slot: merge into a present
    /// collection, build a fresh one from the changes where the slot is
    /// absent, and collapse an empty result back to absent.
    pub fn apply_partition(partition: Option<C>, changes: Vec<(E, ComponentChange<T>)>) -> (r:
        Option<C>)
        requires
            partition is Some ==> partition->Some_0.wf(),
            pairs_sorted(changes@),
        ensures
            opt_model(r) == spec_apply(opt_model(partition), changes@),
            r is Some <==> spec_apply(opt_model(partition), changes@).len() > 0,
            r is Some ==> r->Some_0.wf(),
    {
        match partition {
            Some(c) => {
                let applied = apply_component_changes(c, changes);
                if applied.is_empty() {
                    proof {
                        assert(opt_model(None::<C>) =~= applied.model());
                    }
                    None
                } else {
                    Some(applied)
                }
            },
            None => {
                proof {
                    lemma_spec_apply_empty_collection::<E, T>(changes@);
                }
                let c = C::from_changes(changes);
                if c.is_empty() {
                    proof {
                        assert(opt_model(None::<C>) =~= c.model());
                    }
                    None
                } else {
                    Some(c)
                }
            },
        }
    }

    /// Apply the pre-partitioned changes to the collection, slot by slot.
    /// Passing changes not partitioned according to the partitioning of this
    /// collection, or not sorted by entity, is refused.
    pub fn apply(&mut self, partitioned_changes: Vec<Vec<(E, ComponentChange<T>)>>)
        requires
            old(self).wf(),
            partitioned_changes@.len() == old(self).slots().len(),
            forall|i: int|
                0 <= i < partitioned_changes@.len() ==> pairs_sorted(
                    #[trigger] partitioned_changes@[i]@,
                ),
            forall|i: int, j: int|
                0 <= i < partitioned_changes@.len() && 0 <= j < partitioned_changes@[i]@.len()
                    ==> in_partition_range(
                    old(self).scheme().dividers(),
                    i,
                    #[trigger] partitioned_changes@[i]@[j].0.key(),
                ),
        ensures
            final(self).wf(),
            final(self).scheme() == old(self).scheme(),
            final(self).slots().len() == old(self).slots().len(),
            forall|i: int|
                0 <= i < final(self).slots().len() ==> opt_model(
                    #[trigger] final(self).slots()[i],
                ) == spec_apply(opt_model(old(self).slots()[i]), partitioned_changes@[i]@),
            forall|i: int|
                0 <= i < final(self).slots().len() ==> (#[trigger] final(self).slots()[
                    i
                ] is Some <==> spec_apply(
                    opt_model(old(self).slots()[i]),
                    partitioned_changes@[i]@,
                ).len() > 0),
    {
        let ghost ps0 = old(self).slots();
        let ghost dividers = old(self).scheme().dividers();
        let ghost cs0 = partitioned_changes@;
        proof {
            old(self).scheme().lemma_wf_sorted();
            assert forall|q: int| 0 <= q < ps0.len() implies pairs_sorted(
                #[trigger] opt_model(ps0[q]),
            ) by {
                if ps0[q] is Some {
                    ps0[q]->Some_0.lemma_wf_sorted();
                }
            }
        }
        let mut old_parts: Vec<Option<C>> = Vec::new();
        core::mem::swap(&mut self.partitions, &mut old_parts);
        let mut stack_p = reversed(old_parts);
        let mut stack_c = reversed(partitioned_changes);
        let mut new_parts: Vec<Option<C>> = Vec::new();
        while stack_p.len() > 0
            invariant
                self.partitioning == old(self).partitioning,
                self.partitioning.wf(),
                dividers == old(self).scheme().dividers(),
                ps0.len() == dividers.len() + 1,
                cs0.len() == ps0.len(),
                parts_wf(ps0),
                parts_in_range(ps0, dividers),
                forall|q: int| 0 <= q < ps0.len() ==> pairs_sorted(#[trigger] opt_model(ps0[q])),
                forall|i: int| 0 <= i < cs0.len() ==> pairs_sorted(#[trigger] cs0[i]@),
                forall|i: int, j: int|
                    0 <= i < cs0.len() && 0 <= j < cs0[i]@.len() ==> in_partition_range(
                        dividers,
                        i,
                        #[trigger] cs0[i]@[j].0.key(),
                    ),
                stack_p@.len() == stack_c@.len(),
                stack_p@.len() <= ps0.len(),
                forall|k: int| 0 <= k < stack_p@.len() ==> stack_p@[k] == ps0[ps0.len() - 1 - k],
                forall|k: int| 0 <= k < stack_c@.len() ==> stack_c@[k] == cs0[cs0.len() - 1 - k],
                new_parts@.len() == ps0.len() - stack_p@.len(),
                forall|i: int|
                    0 <= i < new_parts@.len() ==> opt_model(#[trigger] new_parts@[i])
                        == spec_apply(opt_model(ps0[i]), cs0[i]@),
                forall|i: int|
                    0 <= i < new_parts@.len() ==> (#[trigger] new_parts@[i] is Some <==>
                        spec_apply(opt_model(ps0[i]), cs0[i]@).len() > 0),
                parts_wf(new_parts@),
                parts_in_range(new_parts@, dividers),
            decreases stack_p.len(),
        {
            let ghost i = ps0.len() - stack_p@.len();
            proof {
                assert(stack_p@[stack_p@.len() - 1] == ps0[i]);
                assert(stack_c@[stack_c@.len() - 1] == cs0[i]);
            }
            let part = stack_p.pop().unwrap();
            let changes = stack_c.pop().unwrap();
            let ghost head = opt_model(ps0[i]);
            let ghost newm = spec_apply(head, cs0[i]@);
            let newp = Self::apply_partition(part, changes);
            proof {
                if i > 0 {
                    assert forall|t: int| 0 <= t < head.len() implies head[t].0.key()
                        > dividers[i - 1].key() - 1 by {
                        assert(in_partition_range(dividers, i, head[t].0.key()));
                    }
                    lemma_spec_apply_sorted_above(head, cs0[i]@, dividers[i - 1].key() - 1);
                }
                if i < dividers.len() {
                    assert forall|t: int| 0 <= t < head.len() implies head[t].0.key()
                        < dividers[i].key() by {
                        assert(in_partition_range(dividers, i, head[t].0.key()));
                    }
                    lemma_spec_apply_keys_below(head, cs0[i]@, dividers[i].key());
                }
            }
            let ghost before = new_parts@;
            new_parts.push(newp);
            proof {
                assert forall|q: int, j: int|
                    0 <= q < new_parts@.len() && 0 <= j < opt_model(new_parts@[q]).len()
                        implies in_partition_range(
                    dividers,
                    q,
                    #[trigger] opt_model(new_parts@[q])[j].0.key(),
                ) by {
                    if q < before.len() {
                        assert(new_parts@[q] == before[q]);
                    } else {
                        assert(opt_model(new_parts@[q]) == newm);
                    }
                }
            }
        }
        self.partitions = new_parts;
    }
}

impl<E: Entity, T, P: PartitioningScheme<E>> Partitioned<
    E,
    T,
    CopyOnWriteComponentCollection<E, T>,
    P,
> {
    /// Get a reference to the component held for the entity, if it exists:
    /// the lookup is routed to the single partition whose key range covers
    /// the entity.
    pub fn get_ref<'a>(&'a self, entity: E) -> (r: Option<CopyOnWriteComponentRef<'a, T>>)
        requires
            self.wf(),
        ensures
            r is Some <==> has_key(self.model(), entity.key()),
            r is Some ==> {
                let rf = r->Some_0;
                &&& !rf.touched()
                &&& !rf.unbound()
                &&& rf.current() == self.model()[pair_count_lt(self.model(), entity)].1
                &&& self.model()[pair_count_lt(self.model(), entity)].0 == entity
            },
    {
        let ghost m = self.model();
        let ghost ps = self.slots();
        let ghost dividers = self.scheme().dividers();
        proof {
            self.scheme().lemma_wf_sorted();
            assert forall|q: int| 0 <= q < ps.len() implies pairs_sorted(
                #[trigger] opt_model(ps[q]),
            ) by {
                if ps[q] is Some {
                    ps[q]->Some_0.lemma_wf_sorted();
                }
            }
        }
        let partition = self.partitioning.lower_bound(entity);
        proof {
            lemma_partition_route(ps, dividers, partition as int, entity);
        }
        let ghost head = opt_model(ps[partition as int]);
        let ghost pre = prefix_len(ps, partition as int);
        match self.partitions[partition].as_ref() {
            Some(c) => {
                let r = c.get_ref(entity);
                proof {
                    if has_key(head, entity.key()) {
                        lemma_pair_count_lt_properties(head, entity);
                        let t = choose|t: int|
                            0 <= t < head.len() && head[t].0.key() == entity.key();
                        assert(pair_count_lt(head, entity) <= t);
                        assert(m[pre + pair_count_lt(head, entity)] == head[pair_count_lt(
                            head,
                            entity,
                        )]);
                    }
                }
                r
            },
            None => {
                proof {
                    assert(head.len() == 0);
                }
                None
            },
        }
    }
}

} // verus!

