use super::{
    count_lt, lemma_count_lt_properties, lemma_sorted_offset_is_count_lt, strictly_sorted,
    Entity, EntityMap,
};
use vstd::prelude::*;

verus! {

/// The number of entities a node holds: entries plus a word of header sized
/// to a cache line.
pub const FANOUT: usize = 31;

const IS_LEAF: u64 = 64;

const FLAG_MASK: u64 = 31;

/// One node of the flattened search tree: a flags word whose low five bits
/// hold the entry count and whose sixth bit marks a leaf, a base index of
/// the node's children, and the entries themselves.
struct Node<E: Entity> {
    flags: u64,
    offset: usize,
    entities: Vec<E>,
}

/// The entry count encoded in a node's flags.
spec fn node_count<E: Entity>(n: Node<E>) -> int {
    (n.flags & 31) as int
}

/// Whether a node's flags mark it as a leaf.
spec fn node_is_leaf<E: Entity>(n: Node<E>) -> bool {
    n.flags & 64 != 0
}

impl<E: Entity> Node<E> {
    /// An empty leaf node, its entries padded with the sentinel.
    fn leaf() -> (r: Self)
        ensures
            node_is_leaf(r),
            node_count(r) == 0,
            r.flags == 64u64,
            r.entities@.len() == FANOUT,
            forall|j: int| 0 <= j < FANOUT ==> r.entities@[j].key() == 0,
    {
        proof {
            assert((64u64 & 31u64) == 0 && (64u64 & 64u64) != 0) by (bit_vector);
        }
        let mut entities: Vec<E> = Vec::new();
        while entities.len() < FANOUT
            invariant
                entities@.len() <= FANOUT,
                forall|j: int| 0 <= j < entities@.len() ==> entities@[j].key() == 0,
            decreases FANOUT - entities.len(),
        {
            entities.push(E::default_value());
        }
        Self { flags: IS_LEAF, offset: 0, entities }
    }

    /// An empty internal node whose children start at `offset`.
    fn internal(offset: usize) -> (r: Self)
        ensures
            !node_is_leaf(r),
            node_count(r) == 0,
            r.flags == 0u64,
            r.entities@.len() == FANOUT,
            r.offset == offset,
    {
        proof {
            assert((0u64 & 31u64) == 0 && (0u64 & 64u64) == 0) by (bit_vector);
        }
        let mut entities: Vec<E> = Vec::new();
        while entities.len() < FANOUT
            invariant
                entities@.len() <= FANOUT,
            decreases FANOUT - entities.len(),
        {
            entities.push(E::default_value());
        }
        Self { flags: 0, offset, entities }
    }

    /// The number of entries in the node.
    fn len(&self) -> (r: usize)
        ensures
            r == node_count(*self),
            r <= 31,
    {
        proof {
            let f = self.flags;
            assert(f & 31 <= 31) by (bit_vector);
        }
        (self.flags & FLAG_MASK) as usize
    }

    /// Whether the node is a leaf.
    fn is_leaf(&self) -> (r: bool)
        ensures
            r == node_is_leaf(*self),
    {
        self.flags & IS_LEAF != 0
    }

    /// The least slot holding an entry at or above the entity: a linear scan
    /// that fits a cache line.
    fn lower_bound(&self, entity: E) -> (r: usize)
        requires
            self.entities@.len() == FANOUT,
        ensures
            r <= node_count(*self),
            forall|j: int| 0 <= j < r ==> self.entities@[j].key() < entity.key(),
            r < node_count(*self) ==> self.entities@[r as int].key() >= entity.key(),
    {
        let sz = self.len();
        let mut idx: usize = 0;
        while idx < sz
            invariant
                idx <= sz,
                sz == node_count(*self),
                sz <= 31,
                self.entities@.len() == FANOUT,
                forall|j: int| 0 <= j < idx ==> self.entities@[j].key() < entity.key(),
            decreases sz - idx,
        {
            if self.entities[idx].le(entity) {
                if self.entities[idx].same(entity) {
                    return idx;
                }
                if !self.entities[idx].lt(entity) {
                    return idx;
                }
            } else {
                return idx;
            }
            idx = idx + 1;
        }
        sz
    }
}

/// The entities held by the leading leaf nodes, position by position: the
/// entity at position `p` sits in leaf `p / 31` at slot `p % 31`.
spec fn flat_ents<E: Entity>(nodes: Seq<Node<E>>, size: int) -> Seq<E> {
    Seq::new(size as nat, |p: int| nodes[p / 31].entities@[p % 31])
}

/// The number of leaves needed for `size` entities: at least one.
pub open spec fn spec_nleaves(size: int) -> int {
    if size == 0 {
        1
    } else {
        (size + 30) / 31
    }
}

/// The layered-structure invariant of a node array: packed sorted leaves at
/// the front, and above them internal nodes whose separators sit at their
/// child subtrees\' edges.
spec fn base_ok<E: Entity>(ns: Seq<Node<E>>, cov: Seq<(int, int)>, size: int) -> bool {
    let lcnt = spec_nleaves(size);
    let all = flat_ents(ns, size);
    &&& ns.len() >= 1
    &&& cov.len() == ns.len()
    &&& lcnt <= ns.len()
    &&& 31 * (lcnt - 1) < size + if size == 0 {
        1int
    } else {
        0int
    }
    &&& 0 <= size <= 31 * lcnt
    &&& forall|i: int| 0 <= i < ns.len() ==> (#[trigger] ns[i]).entities@.len() == FANOUT
    &&& forall|i: int| 0 <= i < ns.len() ==> (node_is_leaf(#[trigger] ns[i]) <==> i < lcnt)
    &&& forall|i: int| 0 <= i < lcnt ==> (#[trigger] cov[i]) == (i, i + 1)
    &&& forall|i: int|
        0 <= i < lcnt ==> node_count(#[trigger] ns[i]) == if i < lcnt - 1 {
            31int
        } else {
            size - 31 * (lcnt - 1)
        }
    &&& forall|i: int, j: int|
        0 <= i < lcnt && node_count(ns[i]) <= j < 31 ==> (#[trigger] ns[i].entities@[
            j
        ]).key() == 0
    &&& forall|i: int| 0 <= i < ns.len() ==> 0 <= (#[trigger] cov[i]).0 < cov[i].1 <= lcnt
    &&& forall|i: int| lcnt <= i < ns.len() ==> internal_ok(ns, cov, flat_ents(ns, size), i)
    &&& strictly_sorted(all)
    &&& forall|p: int| 0 <= p < size ==> (#[trigger] all[p]).key() > 0
}

/// The invariant of one internal node: at least one separator, children
/// strictly below it with overlapping-by-one coverage, and each separator
/// equal to the entity at the end position of the preceding child\'s subtree.
spec fn internal_ok<E: Entity>(ns: Seq<Node<E>>, cov: Seq<(int, int)>, all: Seq<E>, i: int) -> bool {
    let off = ns[i].offset;
    let c = node_count(ns[i]);
    &&& 1 <= c <= 31
    &&& off + c < i
    &&& cov[i] == (cov[off as int].0, cov[off + c].1)
    &&& forall|j: int|
        0 <= j < c ==> #[trigger] cov[off + j].0 < cov[off + j + 1].0 && cov[off + j + 1].0
            <= cov[off + j].1 && cov[off + j].1 < cov[off + j + 1].1
    &&& forall|j: int|
        0 <= j < c ==> (#[trigger] ns[i].entities@[j]) == all[31 * cov[off + j].1]
}

/// An internal node's invariant only reads the node itself and the covers
/// at and below its index, so it survives growing the arrays.
proof fn lemma_internal_frame<E: Entity>(
    ns1: Seq<Node<E>>,
    cov1: Seq<(int, int)>,
    ns2: Seq<Node<E>>,
    cov2: Seq<(int, int)>,
    all: Seq<E>,
    i: int,
)
    requires
        internal_ok(ns1, cov1, all, i),
        0 <= i < ns1.len(),
        i < ns2.len(),
        i < cov1.len(),
        i < cov2.len(),
        ns2[i] == ns1[i],
        forall|q: int| 0 <= q <= i ==> cov2[q] == cov1[q],
    ensures
        internal_ok(ns2, cov2, all, i),
{
    let off = ns1[i].offset;
    let c = node_count(ns1[i]);
    assert forall|j: int|
        0 <= j < c implies #[trigger] cov2[off + j].0 < cov2[off + j + 1].0 && cov2[off + j
        + 1].0 <= cov2[off + j].1 && cov2[off + j].1 < cov2[off + j + 1].1 by {
        assert(cov1[off + j].0 < cov1[off + j + 1].0 && cov1[off + j + 1].0 <= cov1[off + j].1
            && cov1[off + j].1 < cov1[off + j + 1].1);
    }
    assert forall|j: int| 0 <= j < c implies (#[trigger] ns2[i].entities@[j]) == all[31
        * cov2[off + j].1] by {
        assert(ns1[i].entities@[j] == all[31 * cov1[off + j].1]);
    }
}

/// The top-layer invariant during construction: the nodes of `[start,
/// limit)` collectively cover all leaves in order, with the entity at each
/// node\'s end position available as the next node\'s first entry.
spec fn layer_ok<E: Entity>(
    ns: Seq<Node<E>>,
    cov: Seq<(int, int)>,
    size: int,
    start: int,
    limit: int,
) -> bool {
    let lcnt = spec_nleaves(size);
    let all = flat_ents(ns, size);
    &&& 0 <= start < limit <= ns.len()
    &&& cov[start].0 == 0
    &&& cov[limit - 1].1 == lcnt
    &&& forall|t1: int, t2: int|
        start <= t1 < t2 < limit ==> (#[trigger] cov[t1]).0 < (#[trigger] cov[t2]).0
            && cov[t1].1 < cov[t2].1
    &&& forall|t: int| start <= t < limit - 1 ==> (#[trigger] cov[t + 1]).0 <= cov[t].1
    &&& forall|t: int|
        start <= t < limit - 1 ==> (#[trigger] ns[t + 1].entities@[0]) == all[31 * cov[t].1]
            && cov[t].1 < lcnt
}

/// FastEntityMap is a cache-friendlier entity map: a static, array-flattened
/// search tree with fan-out 31.  Leaves pack the entities in order; each
/// internal node covers a block of children and holds separator entities, so
/// a lookup touches one cache-line-sized node per level.  Construction is
/// slower than a flat sorted array, but probes touch fewer lines.
pub struct FastEntityMap<E: Entity> {
    nodes: Vec<Node<E>>,
    size: usize,
    covers: Ghost<Seq<(int, int)>>,
}

impl<E: Entity> FastEntityMap<E> {
    /// The leaf count of the tree.
    pub closed spec fn nleaves(&self) -> int {
        spec_nleaves(self.size as int)
    }

    /// The first leaf position covered by the subtree at node `i`.
    pub closed spec fn sub_lo(&self, i: int) -> int {
        31 * self.covers@[i].0
    }

    /// The position just past the subtree at node `i`.
    pub closed spec fn sub_hi(&self, i: int) -> int {
        if self.covers@[i].1 == self.nleaves() {
            self.size as int
        } else {
            31 * self.covers@[i].1
        }
    }

    /// The structural invariant of the tree.
    pub closed spec fn tree_wf(&self) -> bool {
        &&& base_ok(self.nodes@, self.covers@, self.size as int)
        &&& self.covers@[self.nodes@.len() - 1] == (0int, self.nleaves())
    }

    /// Positions inside every subtree are positions of the map.
    proof fn lemma_sub_range(&self, i: int)
        requires
            self.tree_wf(),
            0 <= i < self.nodes@.len(),
        ensures
            0 <= self.sub_lo(i),
            self.sub_lo(i) <= self.sub_hi(i),
            self.size > 0 ==> self.sub_lo(i) < self.sub_hi(i),
            self.sub_hi(i) <= self.size,
            self.covers@[i].1 < self.nleaves() ==> self.sub_hi(i) == 31 * self.covers@[i].1
                && self.sub_hi(i) < self.size,
    {
        let cov = self.covers@;
        let lcnt = self.nleaves();
        assert(0 <= cov[i].0 < cov[i].1 <= lcnt);
        if cov[i].1 == lcnt {
            assert(self.sub_hi(i) == self.size);
            assert(31 * cov[i].0 <= 31 * (lcnt - 1)) by (nonlinear_arith)
                requires
                    cov[i].0 <= lcnt - 1,
            ;
        } else {
            assert(31 * cov[i].0 < 31 * cov[i].1) by (nonlinear_arith)
                requires
                    cov[i].0 < cov[i].1,
            ;
            assert(31 * cov[i].1 <= 31 * (lcnt - 1)) by (nonlinear_arith)
                requires
                    cov[i].1 <= lcnt - 1,
            ;
        }
    }

    /// A leaf's entries are the map's entities at its positions.
    proof fn lemma_leaf_entries(&self, i: int)
        requires
            self.tree_wf(),
            0 <= i < self.nleaves(),
        ensures
            forall|j: int|
                0 <= j < node_count(self.nodes@[i]) ==> flat_ents(
                    self.nodes@,
                    self.size as int,
                )[31 * i + j] == self.nodes@[i].entities@[j],
            31 * i + node_count(self.nodes@[i]) == self.sub_hi(i),
            31 * i == self.sub_lo(i),
    {
        let c = node_count(self.nodes@[i]);
        assert forall|j: int| 0 <= j < c implies flat_ents(self.nodes@, self.size as int)[31 * i
            + j] == self.nodes@[i].entities@[j] by {
            assert((31 * i + j) / 31 == i && (31 * i + j) % 31 == j) by (nonlinear_arith)
                requires
                    0 <= j < 31,
            ;
            assert(31 * i + j < self.size) by (nonlinear_arith)
                requires
                    0 <= j,
                    j < c,
                    c == node_count(self.nodes@[i]),
                    c == if i < self.nleaves() - 1 {
                        31int
                    } else {
                        self.size - 31 * (self.nleaves() - 1)
                    },
                    0 <= i < self.nleaves(),
                    self.size <= 31 * self.nleaves(),
            ;
        }
        if i < self.nleaves() - 1 {
            assert(self.covers@[i].1 == i + 1);
            assert(self.sub_hi(i) == 31 * (i + 1));
        } else {
            assert(self.covers@[i].1 == self.nleaves());
            assert(self.sub_hi(i) == self.size);
        }
    }

    /// Descend from node `index` to the position where the entity should
    /// sit.  The search stays inside the subtree: its answer saturates at
    /// the subtree's edges, which the caller's bounds make exact.
    fn offset_of_recursive(&self, entity: E, index: usize) -> (r: usize)
        requires
            self.tree_wf(),
            index < self.nodes@.len(),
            self.sub_lo(index as int) <= count_lt(
                flat_ents(self.nodes@, self.size as int),
                entity,
            ) <= self.sub_hi(index as int),
        ensures
            r == count_lt(flat_ents(self.nodes@, self.size as int), entity),
        decreases index,
    {
        let ghost all = flat_ents(self.nodes@, self.size as int);
        let ghost p = count_lt(all, entity);
        proof {
            lemma_count_lt_properties(all, entity);
            self.lemma_sub_range(index as int);
        }
        let node = &self.nodes[index];
        let o = node.lower_bound(entity);
        let c = node.len();
        if node.is_leaf() {
            let ghost i = index as int;
            proof {
                self.lemma_leaf_entries(i);
                // the local partition point is the global one, shifted
                if p > 31 * i + o {
                    assert(all[31 * i + o].key() < entity.key());
                    assert(o < c);
                    assert(false);
                }
                assert forall|q: int| 0 <= q < 31 * i + o implies all[q].key()
                    < entity.key() by {
                    if q >= 31 * i {
                        assert(all[q] == self.nodes@[i].entities@[q - 31 * i]);
                    } else {
                        assert(q < p);
                    }
                }
                assert forall|q: int| 31 * i + o <= q < all.len() implies all[q].key()
                    >= entity.key() by {
                    assert(q >= p);
                }
                lemma_sorted_offset_is_count_lt(all, entity, 31 * i + o);
            }
            index * FANOUT + o
        } else {
            let off = node.offset;
            let ghost i = index as int;
            let ghost cov = self.covers@;
            proof {
                assert(internal_ok(
                    self.nodes@,
                    self.covers@,
                    flat_ents(self.nodes@, self.size as int),
                    i,
                ));
                // separators are the entities at the child subtree edges
                assert forall|j: int| 0 <= j < o implies #[trigger] self.sub_hi(off + j)
                    < p by {
                    assert(self.nodes@[i].entities@[j] == all[31 * cov[off + j].1]);
                    assert(cov[off + j].1 < cov[off + j + 1].1);
                    self.lemma_sub_range(off + j);
                    assert(all[self.sub_hi(off + j)].key() < entity.key());
                }
                if o < c {
                    assert(self.nodes@[i].entities@[o as int] == all[31 * cov[off + o].1]);
                    assert(cov[off + o].1 < cov[off + o + 1].1);
                    self.lemma_sub_range(off + o);
                    assert(all[self.sub_hi(off + o)].key() >= entity.key());
                    if p > self.sub_hi(off + o) {
                        assert(all[self.sub_hi(off + o)].key() < entity.key());
                        assert(false);
                    }
                }
                if o > 0 {
                    let o1 = o as int - 1;
                    assert(self.sub_hi(off + o1) < p);
                    assert(cov[off + o1].0 < cov[off + o1 + 1].0);
                    assert(cov[off + o1 + 1].0 <= cov[off + o1].1);
                    assert(cov[off + o1].1 < cov[off + o1 + 1].1);
                    assert(cov[off + o1 + 1].1 <= self.nleaves());
                    self.lemma_sub_range(off + o1);
                    assert(self.sub_hi(off + o1) == 31 * cov[off + o1].1);
                    assert(off + o1 + 1 == off + o);
                    assert(31 * cov[off + o1 + 1].0 <= 31 * cov[off + o1].1) by (
                    nonlinear_arith)
                        requires
                            cov[off + o1 + 1].0 <= cov[off + o1].1,
                    ;
                    assert(self.sub_lo(off + o) <= self.sub_hi(off + o1));
                } else {
                    assert(cov[i] == (cov[off as int].0, cov[off + c].1));
                    assert(self.sub_lo(i) == self.sub_lo(off as int));
                }
                if o == c {
                    assert(cov[i].1 == cov[off + c].1);
                    assert(self.sub_hi(i) == self.sub_hi(off + c));
                }
                self.lemma_sub_range(off + o);
            }
            self.offset_of_recursive(entity, off + o)
        }
    }

    /// Descend carrying the divider: the entity just past the subtree, which
    /// becomes the answer when the search saturates at the subtree's edge.
    fn lower_bound_recursive(&self, entity: E, divider: Option<E>, index: usize) -> (r: Option<
        E,
    >)
        requires
            self.tree_wf(),
            index < self.nodes@.len(),
            self.sub_lo(index as int) <= count_lt(
                flat_ents(self.nodes@, self.size as int),
                entity,
            ) <= self.sub_hi(index as int),
            count_lt(flat_ents(self.nodes@, self.size as int), entity) == self.sub_hi(
                index as int,
            ) ==> divider == if count_lt(flat_ents(self.nodes@, self.size as int), entity)
                < self.size {
                Some(
                    flat_ents(self.nodes@, self.size as int)[count_lt(
                        flat_ents(self.nodes@, self.size as int),
                        entity,
                    )],
                )
            } else {
                None::<E>
            },
        ensures
            r == if count_lt(flat_ents(self.nodes@, self.size as int), entity) < self.size {
                Some(
                    flat_ents(self.nodes@, self.size as int)[count_lt(
                        flat_ents(self.nodes@, self.size as int),
                        entity,
                    )],
                )
            } else {
                None::<E>
            },
        decreases index,
    {
        let ghost all = flat_ents(self.nodes@, self.size as int);
        let ghost p = count_lt(all, entity);
        proof {
            lemma_count_lt_properties(all, entity);
            self.lemma_sub_range(index as int);
        }
        let node = &self.nodes[index];
        let o = node.lower_bound(entity);
        let c = node.len();
        if node.is_leaf() {
            let ghost i = index as int;
            proof {
                self.lemma_leaf_entries(i);
                if p > 31 * i + o {
                    assert(all[31 * i + o].key() < entity.key());
                    assert(o < c);
                    assert(false);
                }
                assert forall|q: int| 0 <= q < 31 * i + o implies all[q].key()
                    < entity.key() by {
                    if q >= 31 * i {
                        assert(all[q] == self.nodes@[i].entities@[q - 31 * i]);
                    } else {
                        assert(q < p);
                    }
                }
                assert forall|q: int| 31 * i + o <= q < all.len() implies all[q].key()
                    >= entity.key() by {
                    assert(q >= p);
                }
                lemma_sorted_offset_is_count_lt(all, entity, 31 * i + o);
            }
            if o < c {
                proof {
                    assert(all[p] == self.nodes@[i].entities@[o as int]);
                }
                Some(self.nodes[index].entities[o])
            } else {
                proof {
                    assert(p == self.sub_hi(i));
                }
                divider
            }
        } else {
            let off = node.offset;
            let ghost i = index as int;
            let ghost cov = self.covers@;
            proof {
                assert(internal_ok(
                    self.nodes@,
                    self.covers@,
                    flat_ents(self.nodes@, self.size as int),
                    i,
                ));
                assert forall|j: int| 0 <= j < o implies #[trigger] self.sub_hi(off + j)
                    < p by {
                    assert(self.nodes@[i].entities@[j] == all[31 * cov[off + j].1]);
                    assert(cov[off + j].1 < cov[off + j + 1].1);
                    self.lemma_sub_range(off + j);
                    assert(all[self.sub_hi(off + j)].key() < entity.key());
                }
                if o < c {
                    assert(self.nodes@[i].entities@[o as int] == all[31 * cov[off + o].1]);
                    assert(cov[off + o].1 < cov[off + o + 1].1);
                    self.lemma_sub_range(off + o);
                    assert(all[self.sub_hi(off + o)].key() >= entity.key());
                    if p > self.sub_hi(off + o) {
                        assert(all[self.sub_hi(off + o)].key() < entity.key());
                        assert(false);
                    }
                }
                if o > 0 {
                    let o1 = o as int - 1;
                    assert(self.sub_hi(off + o1) < p);
                    assert(cov[off + o1].0 < cov[off + o1 + 1].0);
                    assert(cov[off + o1 + 1].0 <= cov[off + o1].1);
                    assert(cov[off + o1].1 < cov[off + o1 + 1].1);
                    assert(cov[off + o1 + 1].1 <= self.nleaves());
                    self.lemma_sub_range(off + o1);
                    assert(self.sub_hi(off + o1) == 31 * cov[off + o1].1);
                    assert(off + o1 + 1 == off + o);
                    assert(31 * cov[off + o1 + 1].0 <= 31 * cov[off + o1].1) by (
                    nonlinear_arith)
                        requires
                            cov[off + o1 + 1].0 <= cov[off + o1].1,
                    ;
                    assert(self.sub_lo(off + o) <= self.sub_hi(off + o1));
                } else {
                    assert(cov[i] == (cov[off as int].0, cov[off + c].1));
                    assert(self.sub_lo(i) == self.sub_lo(off as int));
                }
                if o == c {
                    assert(cov[i].1 == cov[off + c].1);
                    assert(self.sub_hi(i) == self.sub_hi(off + c));
                }
                self.lemma_sub_range(off + o);
            }
            let next_divider = if o < c {
                proof {
                    if p == self.sub_hi(off + o) {
                        assert(all[self.sub_hi(off + o)].key() >= entity.key());
                        assert(p < self.size);
                    }
                }
                Some(self.nodes[index].entities[o])
            } else {
                divider
            };
            proof {
                if o < c && p == self.sub_hi(off + o) {
                    assert(self.nodes@[i].entities@[o as int] == all[31 * cov[off + o].1]);
                    assert(self.sub_hi(off + o) == 31 * cov[off + o].1);
                }
            }
            self.lower_bound_recursive(entity, next_divider, off + o)
        }
    }
}

/// The shared shape of the leaf walk: packed sorted leaves at the front of
/// the node array, positions mapping to leaf slots, and padding that carries
/// the sentinel key.
spec fn leaves_ok<E: Entity>(ns: Seq<Node<E>>, elems: Seq<E>) -> bool {
    let n = elems.len() as int;
    let lcnt = spec_nleaves(n);
    &&& lcnt <= ns.len()
    &&& n <= 31 * lcnt
    &&& forall|i: int| 0 <= i < lcnt ==> (#[trigger] ns[i]).entities@.len() == FANOUT
    &&& forall|i: int| 0 <= i < ns.len() ==> (node_is_leaf(#[trigger] ns[i]) <==> i < lcnt)
    &&& forall|p: int|
        0 <= p < n ==> (#[trigger] elems[p]) == ns[p / 31].entities@[p % 31] && elems[p].key()
            > 0
    &&& forall|i: int, j: int|
        0 <= i < lcnt && 31 * i + j >= n && 0 <= j < 31 ==> (#[trigger] ns[i].entities@[
            j
        ]).key() == 0
}

/// FastEntityMapIterator is the walk over a borrowed map's entities returned
/// by `iter`.
pub struct FastEntityMapIterator<'a, E: Entity> {
    nodes: &'a Vec<Node<E>>,
    index1: usize,
    index2: usize,
    elems: Ghost<Seq<E>>,
}

impl<'a, E: Entity> FastEntityMapIterator<'a, E> {
    /// The entities the iterator walks.
    pub closed spec fn elems(&self) -> Seq<E> {
        self.elems@
    }

    /// The position of the next entity to yield.
    pub closed spec fn pos(&self) -> int {
        31 * self.index1 + self.index2
    }

    /// The iterator's invariant.
    pub closed spec fn iter_wf(&self) -> bool {
        &&& leaves_ok(self.nodes@, self.elems@)
        &&& self.index2 < 31
    }

    /// The next entity of the map, in ascending order, if one remains.
    pub fn next(&mut self) -> (r: Option<E>)
        requires
            old(self).iter_wf(),
        ensures
            final(self).iter_wf(),
            final(self).elems() == old(self).elems(),
            old(self).pos() < old(self).elems().len() ==> r == Some(
                old(self).elems()[old(self).pos()],
            ) && final(self).pos() == old(self).pos() + 1,
            old(self).pos() >= old(self).elems().len() ==> r is None && final(self).pos()
                >= final(self).elems().len(),
    {
        let ghost n = self.elems@.len() as int;
        let ghost lcnt = spec_nleaves(n);
        if self.index1 >= self.nodes.len() {
            proof {
                assert(31 * self.index1 >= 31 * lcnt) by (nonlinear_arith)
                    requires
                        self.index1 >= lcnt,
                ;
            }
            return None;
        }
        if !self.nodes[self.index1].is_leaf() {
            proof {
                assert(31 * self.index1 >= 31 * lcnt) by (nonlinear_arith)
                    requires
                        self.index1 >= lcnt,
                ;
            }
            return None;
        }
        let ghost p = self.pos();
        let entity = self.nodes[self.index1].entities[self.index2];
        proof {
            if p < n {
                assert(p / 31 == self.index1 && p % 31 == self.index2) by (nonlinear_arith)
                    requires
                        p == 31 * self.index1 + self.index2,
                        0 <= self.index2 < 31,
                ;
                assert(entity == self.elems@[p]);
            } else {
                assert(entity.key() == 0);
            }
        }
        self.index2 = self.index2 + 1;
        if self.index2 >= FANOUT {
            self.index2 = 0;
            self.index1 = self.index1 + 1;
        }
        if !entity.same(E::default_value()) {
            Some(entity)
        } else {
            proof {
                assert(entity.key() == 0);
                if p < n {
                    assert(self.elems@[p].key() > 0);
                }
            }
            None
        }
    }
}

/// FastEntityMapIntoIterator is the consuming walk over a map's entities
/// returned by `into_iter`.
pub struct FastEntityMapIntoIterator<E: Entity> {
    nodes: Vec<Node<E>>,
    index1: usize,
    index2: usize,
    elems: Ghost<Seq<E>>,
}

impl<E: Entity> FastEntityMapIntoIterator<E> {
    /// The entities the iterator walks.
    pub closed spec fn elems(&self) -> Seq<E> {
        self.elems@
    }

    /// The position of the next entity to yield.
    pub closed spec fn pos(&self) -> int {
        31 * self.index1 + self.index2
    }

    /// The iterator's invariant.
    pub closed spec fn iter_wf(&self) -> bool {
        &&& leaves_ok(self.nodes@, self.elems@)
        &&& self.index2 < 31
    }

    /// The next entity of the map, in ascending order, if one remains.
    pub fn next(&mut self) -> (r: Option<E>)
        requires
            old(self).iter_wf(),
        ensures
            final(self).iter_wf(),
            final(self).elems() == old(self).elems(),
            old(self).pos() < old(self).elems().len() ==> r == Some(
                old(self).elems()[old(self).pos()],
            ) && final(self).pos() == old(self).pos() + 1,
            old(self).pos() >= old(self).elems().len() ==> r is None && final(self).pos()
                >= final(self).elems().len(),
    {
        let ghost n = self.elems@.len() as int;
        let ghost lcnt = spec_nleaves(n);
        if self.index1 >= self.nodes.len() {
            proof {
                assert(31 * self.index1 >= 31 * lcnt) by (nonlinear_arith)
                    requires
                        self.index1 >= lcnt,
                ;
            }
            return None;
        }
        if !self.nodes[self.index1].is_leaf() {
            proof {
                assert(31 * self.index1 >= 31 * lcnt) by (nonlinear_arith)
                    requires
                        self.index1 >= lcnt,
                ;
            }
            return None;
        }
        let ghost p = self.pos();
        let entity = self.nodes[self.index1].entities[self.index2];
        proof {
            if p < n {
                assert(p / 31 == self.index1 && p % 31 == self.index2) by (nonlinear_arith)
                    requires
                        p == 31 * self.index1 + self.index2,
                        0 <= self.index2 < 31,
                ;
                assert(entity == self.elems@[p]);
            } else {
                assert(entity.key() == 0);
            }
        }
        self.index2 = self.index2 + 1;
        if self.index2 >= FANOUT {
            self.index2 = 0;
            self.index1 = self.index1 + 1;
        }
        if !entity.same(E::default_value()) {
            Some(entity)
        } else {
            proof {
                assert(entity.key() == 0);
                if p < n {
                    assert(self.elems@[p].key() > 0);
                }
            }
            None
        }
    }
}

/// Two node arrays that agree on the first `k` nodes, which cover all the
/// positions, flatten to the same entities.
proof fn lemma_flat_prefix<E: Entity>(ns1: Seq<Node<E>>, ns2: Seq<Node<E>>, size: int, k: int)
    requires
        0 <= size <= 31 * k,
        k <= ns1.len(),
        k <= ns2.len(),
        forall|i: int| 0 <= i < k ==> ns1[i] == ns2[i],
    ensures
        flat_ents(ns1, size) == flat_ents(ns2, size),
{
    assert forall|p: int| 0 <= p < size implies flat_ents(ns1, size)[p] == flat_ents(
        ns2,
        size,
    )[p] by {
        assert(p / 31 < k) by (nonlinear_arith)
            requires
                0 <= p < size,
                size <= 31 * k,
        ;
        assert(ns1[p / 31] == ns2[p / 31]);
    }
    assert(flat_ents(ns1, size) =~= flat_ents(ns2, size));
}

impl<E: Entity> FastEntityMap<E> {
    /// Build the layer of internal nodes above the top layer `[start,
    /// limit)`: each internal node takes up to 31 separators, one per
    /// boundary between consecutive children.  Recurse until a single root
    /// remains.
    #[verifier::rlimit(60)]
    fn seal(
        size: usize,
        nodes: Vec<Node<E>>,
        start: usize,
        limit: usize,
        Ghost(covers): Ghost<Seq<(int, int)>>,
    ) -> (r: Self)
        requires
            base_ok(nodes@, covers, size as int),
            layer_ok(nodes@, covers, size as int, start as int, limit as int),
            limit == nodes@.len(),
        ensures
            r.wf(),
            r.ents() == flat_ents(nodes@, size as int),
            r.size == size,
        decreases limit - start,
    {
        let ghost all = flat_ents(nodes@, size as int);
        let ghost lcnt = spec_nleaves(size as int);
        if start + 1 >= limit {
            let r = FastEntityMap { nodes, size, covers: Ghost(covers) };
            return r;
        }
        let ghost nodes0 = nodes@;
        let m = limit - start;
        let mut nodes = nodes;
        let ghost mut cov = covers;
        nodes.push(Node::internal(start));
        proof {
            cov = cov.push((covers[start as int].0, covers[start as int].1));
            assert(nodes@.drop_last() =~= nodes0);
            assert(cov.drop_last() =~= covers);
            lemma_flat_prefix(nodes@, nodes0, size as int, lcnt);
        }
        let mut s: usize = 0;
        let mut ii: usize = 0;
        while s < m - 1
            invariant
                m == limit - start,
                2 <= m,
                start + m == limit,
                all == flat_ents(nodes0, size as int),
                lcnt == spec_nleaves(size as int),
                limit == nodes0.len(),
                lcnt <= limit,
                nodes@.len() > limit,
                cov.len() == nodes@.len(),
                forall|i: int| 0 <= i < limit ==> nodes@[i] == nodes0[i],
                forall|i: int| 0 <= i < limit ==> cov[i] == covers[i],
                base_ok(nodes0, covers, size as int),
                layer_ok(nodes0, covers, size as int, start as int, limit as int),
                flat_ents(nodes@, size as int) == all,
                s <= m - 1,
                ii <= 31,
                ii <= s,
                s >= 1 ==> ii >= 1,
                s == 0 ==> ii == 0 && nodes@.len() == limit + 1,
                s == 31 * (nodes@.len() - limit - 1) + ii,
                base_ok(nodes@.drop_last(), cov.drop_last(), size as int),
                !node_is_leaf(nodes@[nodes@.len() - 1]),
                nodes@[nodes@.len() - 1].entities@.len() == FANOUT,
                node_count(nodes@[nodes@.len() - 1]) == ii,
                nodes@[nodes@.len() - 1].flags == ii as u64,
                ({
                    let last = nodes@.len() - 1;
                    let off = nodes@[last].offset as int;
                    &&& off + ii == start + s
                    &&& start <= off
                    &&& off + 31 >= start + s
                    &&& cov[last] == (cov[off].0, cov[off + ii].1)
                    &&& forall|j: int|
                        0 <= j < ii ==> #[trigger] cov[off + j].0 < cov[off + j + 1].0 && cov[off
                            + j + 1].0 <= cov[off + j].1 && cov[off + j].1 < cov[off + j + 1].1
                    &&& forall|j: int|
                        0 <= j < ii ==> (#[trigger] nodes@[last].entities@[j]) == all[31 * cov[off
                            + j].1]
                }),
                cov[limit as int].0 == 0,
                forall|t1: int, t2: int|
                    limit <= t1 < t2 < nodes@.len() ==> (#[trigger] cov[t1]).0 < (
                    #[trigger] cov[t2]).0 && cov[t1].1 < cov[t2].1,
                forall|t: int|
                    limit <= t < nodes@.len() - 1 ==> (#[trigger] cov[t + 1]).0 <= cov[t].1,
                forall|t: int|
                    limit <= t < nodes@.len() - 1 ==> (#[trigger] nodes@[t + 1].entities@[0])
                        == all[31 * cov[t].1] && cov[t].1 < lcnt,
            decreases m - 1 - s,
        {
            let ghost pre_nodes = nodes@;
            let ghost pre_cov = cov;
            if ii == 31 {
                let child = start + s;
                proof {
                    // the full node is complete: it now satisfies the
                    // internal-node invariant, so the whole array does
                    let last = pre_nodes.len() - 1;
                    let off = pre_nodes[last].offset as int;
                    let dl = pre_nodes.drop_last();
                    let dlc = pre_cov.drop_last();
                    lemma_flat_prefix(pre_nodes, dl, size as int, lcnt);
                    assert(flat_ents(pre_nodes, size as int) == all);
                    assert(flat_ents(dl, size as int) == all);
                    assert(covers[off].0 < covers[(off + 31) as int].0);
                    assert(internal_ok(pre_nodes, pre_cov, all, last));
                    assert forall|i: int| lcnt <= i < pre_nodes.len() implies internal_ok(
                        pre_nodes,
                        pre_cov,
                        flat_ents(pre_nodes, size as int),
                        i,
                    ) by {
                        if i < pre_nodes.len() - 1 {
                            assert(internal_ok(dl, dlc, flat_ents(dl, size as int), i));
                            lemma_internal_frame(dl, dlc, pre_nodes, pre_cov, all, i);
                        }
                    }
                    assert forall|i: int|
                        0 <= i < pre_nodes.len() implies (#[trigger] pre_nodes[i]).entities@.len()
                        == FANOUT && (node_is_leaf(pre_nodes[i]) <==> i < lcnt) by {
                        if i < pre_nodes.len() - 1 {
                            assert(dl[i] == pre_nodes[i]);
                        }
                    }
                    assert forall|i: int|
                        0 <= i < pre_nodes.len() implies 0 <= (#[trigger] pre_cov[i]).0
                        < pre_cov[i].1 <= lcnt by {
                        if i < pre_nodes.len() - 1 {
                            assert(dlc[i] == pre_cov[i]);
                        }
                    }
                    assert forall|i: int|
                        0 <= i < lcnt implies (#[trigger] pre_cov[i]) == (i, i + 1) by {
                        assert(pre_cov[i] == covers[i]);
                    }
                    assert forall|i: int|
                        0 <= i < lcnt implies node_count(#[trigger] pre_nodes[i]) == (if i
                        < lcnt - 1 {
                            31int
                        } else {
                            (size - 31 * (lcnt - 1)) as int
                        }) by {
                        assert(pre_nodes[i] == nodes0[i]);
                    }
                    assert forall|i: int, j: int|
                        0 <= i < lcnt && node_count(pre_nodes[i]) <= j < 31 implies (
                    #[trigger] pre_nodes[i].entities@[j]).key() == 0 by {
                        assert(pre_nodes[i] == nodes0[i]);
                        assert(nodes0[i].entities@[j].key() == 0);
                    }
                    assert(strictly_sorted(flat_ents(pre_nodes, size as int)));
                    assert(forall|p: int|
                        0 <= p < size ==> (#[trigger] flat_ents(pre_nodes, size as int)[
                            p
                        ]).key() > 0);
                    assert(base_ok(pre_nodes, pre_cov, size as int));
                }
                nodes.push(Node::internal(child));
                proof {
                    cov = cov.push((cov[child as int].0, cov[child as int].1));
                    assert(nodes@.drop_last() =~= pre_nodes);
                    assert(cov.drop_last() =~= pre_cov);
                    lemma_flat_prefix(nodes@, nodes0, size as int, lcnt);
                }
                ii = 0;
            }
            let ghost mid_nodes = nodes@;
            let ghost mid_cov = cov;
            let ghost last = mid_nodes.len() - 1;
            let ghost off = mid_nodes[last].offset as int;
            proof {
                assert(off + ii == start + s);
                assert(start + s + 1 < limit);
                assert(nodes@[start + s + 1] == nodes0[start + s + 1]);
            }
            let sepv = node_entry(&nodes, start + s + 1, 0);
            let mut node = nodes.pop().unwrap();
            node.entities[ii] = sepv;
            proof {
                let f = node.flags;
                assert(f == ii as u64);
                let f1: u64 = (f + 1) as u64;
                assert(f1 & 31 == f1 && f1 & 64 == 0) by (bit_vector)
                    requires
                        f1 <= 31,
                ;
            }
            node.flags = node.flags + 1;
            nodes.push(node);
            proof {
                cov = cov.update(last, (mid_cov[off].0, mid_cov[off + ii + 1].1));
                assert(nodes@.drop_last() =~= mid_nodes.drop_last());
                assert(cov.drop_last() =~= mid_cov.drop_last());
                lemma_flat_prefix(nodes@, nodes0, size as int, lcnt);
                // the new separator is the entity at the boundary of the two
                // children, which the child layer carries as its next first
                // entry
                assert(sepv == all[31 * covers[start + s].1]);
                assert(cov[off + ii] == covers[start + s]);
                assert forall|j: int|
                    0 <= j < ii + 1 implies (#[trigger] nodes@[last].entities@[j]) == all[31
                    * cov[off + j].1] by {
                    if j < ii {
                        assert(mid_nodes[last].entities@[j] == all[31 * mid_cov[off + j].1]);
                    }
                }
            }
            ii = ii + 1;
            s = s + 1;
        }
        proof {
            // the final node of the new layer is complete
            let lastn = nodes@.len() - 1;
            let off = nodes@[lastn].offset as int;
            let dl = nodes@.drop_last();
            let dlc = cov.drop_last();
            lemma_flat_prefix(nodes@, dl, size as int, lcnt);
            assert(flat_ents(nodes@, size as int) == all);
            assert(flat_ents(dl, size as int) == all);
            assert(ii >= 1);
            assert(covers[off].0 < covers[(off + ii) as int].0);
            assert(internal_ok(nodes@, cov, all, lastn));
            assert forall|i: int| lcnt <= i < nodes@.len() implies internal_ok(
                nodes@,
                cov,
                flat_ents(nodes@, size as int),
                i,
            ) by {
                if i < nodes@.len() - 1 {
                    assert(internal_ok(dl, dlc, flat_ents(dl, size as int), i));
                    lemma_internal_frame(dl, dlc, nodes@, cov, all, i);
                }
            }
            assert forall|i: int|
                0 <= i < nodes@.len() implies (#[trigger] nodes@[i]).entities@.len() == FANOUT
                && (node_is_leaf(nodes@[i]) <==> i < lcnt) by {
                if i < nodes@.len() - 1 {
                    assert(dl[i] == nodes@[i]);
                }
            }
            assert forall|i: int|
                0 <= i < nodes@.len() implies 0 <= (#[trigger] cov[i]).0 < cov[i].1
                <= lcnt by {
                if i < nodes@.len() - 1 {
                    assert(dlc[i] == cov[i]);
                }
            }
            assert forall|i: int|
                0 <= i < lcnt implies (#[trigger] cov[i]) == (i, i + 1) by {
                assert(cov[i] == covers[i]);
            }
            assert forall|i: int|
                0 <= i < lcnt implies node_count(#[trigger] nodes@[i]) == (if i < lcnt - 1 {
                31int
            } else {
                (size - 31 * (lcnt - 1)) as int
            }) by {
                assert(nodes@[i] == nodes0[i]);
            }
            assert forall|i: int, j: int|
                0 <= i < lcnt && node_count(nodes@[i]) <= j < 31 implies (
            #[trigger] nodes@[i].entities@[j]).key() == 0 by {
                assert(nodes@[i] == nodes0[i]);
                assert(nodes0[i].entities@[j].key() == 0);
            }
            assert(base_ok(nodes@, cov, size as int));
            assert(cov[off + ii] == covers[(limit - 1) as int]);
            assert(cov[nodes@.len() - 1].1 == lcnt);
            assert(layer_ok(nodes@, cov, size as int, limit as int, nodes@.len() as int)) by {
                assert forall|t: int|
                    limit <= t < nodes@.len() - 1 implies (#[trigger] nodes@[t
                    + 1].entities@[0]) == flat_ents(nodes@, size as int)[31 * cov[t].1]
                    && cov[t].1 < lcnt by {
                    assert(nodes@[t + 1].entities@[0] == all[31 * cov[t].1]);
                    assert(cov[t].1 < cov[t + 1].1);
                    assert(cov[t + 1].1 <= lcnt);
                }
            }
            assert(nodes@.len() - limit < m);
        }
        let new_limit = nodes.len();
        let r = Self::seal(size, nodes, limit, new_limit, Ghost(cov));
        r
    }

    /// A well-formed tree's leaves have the walkable shape.
    proof fn lemma_leaves_ok(&self)
        requires
            self.tree_wf(),
        ensures
            leaves_ok(self.nodes@, flat_ents(self.nodes@, self.size as int)),
    {
        let ns = self.nodes@;
        let n = self.size as int;
        let lcnt = spec_nleaves(n);
        let elems = flat_ents(ns, n);
        assert forall|p: int| 0 <= p < n implies (#[trigger] elems[p]) == ns[p
            / 31].entities@[p % 31] && elems[p].key() > 0 by {}
        assert forall|i: int, j: int|
            0 <= i < lcnt && 31 * i + j >= n && 0 <= j < 31 implies (
        #[trigger] ns[i].entities@[j]).key() == 0 by {
            if i == lcnt - 1 {
                assert(j >= node_count(ns[i]));
            } else {
                assert(31 * i <= 31 * (lcnt - 2)) by (nonlinear_arith)
                    requires
                        i <= lcnt - 2,
                ;
                assert(false);
            }
        }
    }

    /// The number of tree nodes, leaves and internal layers together: a
    /// window into the fan-out structure the map was built with.
    pub fn num_nodes(&self) -> (r: usize)
        requires
            self.wf(),
        ensures
            r >= 1,
    {
        self.nodes.len()
    }

    /// Iterate over all entities in the map, in ascending order.
    pub fn iter<'a>(&'a self) -> (r: FastEntityMapIterator<'a, E>)
        requires
            self.wf(),
        ensures
            r.iter_wf(),
            r.elems() == self.ents(),
            r.pos() == 0,
    {
        proof {
            self.lemma_leaves_ok();
        }
        let ghost elems = self.ents();
        FastEntityMapIterator { nodes: &self.nodes, index1: 0, index2: 0, elems: Ghost(elems) }
    }

    /// Consume the map, iterating over all its entities in ascending order.
    pub fn into_iter(self) -> (r: FastEntityMapIntoIterator<E>)
        requires
            self.wf(),
        ensures
            r.iter_wf(),
            r.elems() == self.ents(),
            r.pos() == 0,
    {
        proof {
            self.lemma_leaves_ok();
        }
        let ghost elems = self.ents();
        let FastEntityMap { nodes, size, covers } = self;
        FastEntityMapIntoIterator { nodes, index1: 0, index2: 0, elems: Ghost(elems) }
    }

    /// Construction packs externally sorted entities into leaves in order,
    /// then builds layers of internal nodes until a single root remains.
    /// The caller is responsible for ordering, and the sentinel entity is
    /// refused.
    pub fn from_iter(entities: Vec<E>) -> (r: Self)
        requires
            strictly_sorted(entities@),
            forall|i: int| 0 <= i < entities@.len() ==> entities@[i].key() > 0,
        ensures
            r.wf(),
            r.ents() == entities@,
    {
        let size = entities.len();
        let mut nodes: Vec<Node<E>> = Vec::new();
        nodes.push(Node::leaf());
        let mut k: usize = 0;
        let mut index: usize = 0;
        while k < size
            invariant
                size == entities@.len(),
                strictly_sorted(entities@),
                forall|i: int| 0 <= i < entities@.len() ==> entities@[i].key() > 0,
                index <= 31,
                nodes@.len() >= 1,
                k == 31 * (nodes@.len() - 1) + index,
                k <= size,
                k > 0 ==> index >= 1,
                forall|i: int|
                    0 <= i < nodes@.len() ==> node_is_leaf(#[trigger] nodes@[i])
                        && nodes@[i].entities@.len() == FANOUT,
                forall|i: int|
                    0 <= i < nodes@.len() - 1 ==> node_count(#[trigger] nodes@[i]) == 31
                        && nodes@[i].flags == 95u64,
                node_count(nodes@[nodes@.len() - 1]) == index,
                nodes@[nodes@.len() - 1].flags == 64u64 + index as u64,
                forall|p: int|
                    0 <= p < k ==> (#[trigger] nodes@[p / 31].entities@[p % 31])
                        == entities@[p],
                forall|j: int|
                    index <= j < 31 ==> (#[trigger] nodes@[nodes@.len() - 1].entities@[
                        j
                    ]).key() == 0,
            decreases size - k,
        {
            if index == FANOUT {
                nodes.push(Node::leaf());
                index = 0;
            }
            let ghost pre = nodes@;
            let e = entities[k];
            let mut node = nodes.pop().unwrap();
            node.entities[index] = e;
            proof {
                let f = node.flags;
                assert(f == 64 + index as u64);
                let f1: u64 = (f + 1) as u64;
                assert(f1 & 31 == f1 - 64 && f1 & 64 != 0) by (bit_vector)
                    requires
                        64 < f1 <= 95,
                ;
            }
            node.flags = node.flags + 1;
            nodes.push(node);
            proof {
                assert(nodes@.drop_last() =~= pre.drop_last());
                assert forall|p: int| 0 <= p < k + 1 implies (#[trigger] nodes@[p
                    / 31].entities@[p % 31]) == entities@[p] by {
                    if p < k {
                        assert(pre[p / 31].entities@[p % 31] == entities@[p]);
                        if p / 31 == nodes@.len() - 1 {
                            assert(p % 31 < index) by (nonlinear_arith)
                                requires
                                    p < k,
                                    k == 31 * (nodes@.len() - 1) + index,
                                    p / 31 == nodes@.len() - 1,
                                    p == 31 * (p / 31) + p % 31,
                                    0 <= p % 31 < 31,
                            ;
                        }
                    } else {
                        assert(p == k);
                        assert(p / 31 == nodes@.len() - 1 && p % 31 == index) by (
                        nonlinear_arith)
                            requires
                                p == 31 * (nodes@.len() - 1) + index,
                                0 <= index < 31,
                                nodes@.len() >= 1,
                        ;
                    }
                }
            }
            k = k + 1;
            index = index + 1;
        }
        let ghost lcnt = nodes@.len() as int;
        let ghost cov = Seq::new(lcnt as nat, |i: int| (i, i + 1));
        proof {
            assert(lcnt == spec_nleaves(size as int)) by (nonlinear_arith)
                requires
                    size == 31 * (lcnt - 1) + index,
                    0 <= index <= 31,
                    size == 0 ==> lcnt == 1 && index == 0,
                    size > 0 ==> index >= 1,
                    lcnt >= 1,
            ;
            assert(flat_ents(nodes@, size as int) =~= entities@);
            assert forall|i: int, j: int|
                0 <= i < lcnt && node_count(nodes@[i]) <= j < 31 implies (
            #[trigger] nodes@[i].entities@[j]).key() == 0 by {}
            assert(base_ok(nodes@, cov, size as int));
            assert forall|t: int|
                0 <= t < lcnt - 1 implies (#[trigger] nodes@[t + 1].entities@[0]) == flat_ents(
                nodes@,
                size as int,
            )[31 * cov[t].1] && cov[t].1 < lcnt by {
                assert(31 * (t + 1) < size) by (nonlinear_arith)
                    requires
                        0 <= t < lcnt - 1,
                        31 * (lcnt - 1) < size,
                ;
                assert(nodes@[(31 * (t + 1)) / 31].entities@[(31 * (t + 1)) % 31]
                    == entities@[31 * (t + 1)]);
                assert((31 * (t + 1)) / 31 == t + 1 && (31 * (t + 1)) % 31 == 0) by (
                nonlinear_arith)
                ;
            }
            assert(layer_ok(nodes@, cov, size as int, 0, lcnt));
        }
        let limit = nodes.len();
        Self::seal(size, nodes, 0, limit, Ghost(cov))
    }
}

/// Read one entry of one node.
fn node_entry<E: Entity>(nodes: &Vec<Node<E>>, i: usize, j: usize) -> (r: E)
    requires
        i < nodes@.len(),
        j < nodes@[i as int].entities@.len(),
    ensures
        r == nodes@[i as int].entities@[j as int],
{
    nodes[i].entities[j]
}

impl<E: Entity> EntityMap<E> for FastEntityMap<E> {
    closed spec fn ents(&self) -> Seq<E> {
        flat_ents(self.nodes@, self.size as int)
    }

    closed spec fn wf(&self) -> bool {
        self.tree_wf()
    }

    proof fn lemma_wf_sorted(&self) {
    }

    fn is_empty(&self) -> bool {
        self.size == 0
    }

    fn len(&self) -> usize {
        self.size
    }

    fn get(&self, offset: usize) -> (r: E)
    {
        proof {
            assert(offset / 31 < self.nleaves() && offset % 31 < 31) by (nonlinear_arith)
                requires
                    offset < self.size,
                    self.size <= 31 * self.nleaves(),
            ;
        }
        let index1 = offset / FANOUT;
        let index2 = offset % FANOUT;
        self.nodes[index1].entities[index2]
    }

    fn offset_of(&self, entity: E) -> (r: usize)
    {
        let root = self.nodes.len() - 1;
        proof {
            lemma_count_lt_properties(self.ents(), entity);
            assert(self.sub_lo(root as int) == 0);
            assert(self.sub_hi(root as int) == self.size);
        }
        let r = self.offset_of_recursive(entity, root);
        proof {
            lemma_count_lt_properties(self.ents(), entity);
        }
        r
    }

    fn exact_offset_of(&self, entity: E) -> (r: Option<usize>)
    {
        let offset = self.offset_of(entity);
        if offset < self.size && self.get(offset).same(entity) {
            Some(offset)
        } else {
            proof {
                if self.ents().contains(entity) {
                    let i = choose|i: int|
                        0 <= i < self.ents().len() && self.ents()[i] == entity;
                    lemma_sorted_offset_is_count_lt(self.ents(), entity, i);
                }
            }
            None
        }
    }

    fn lower_bound(&self, entity: E) -> (r: Option<E>)
    {
        let root = self.nodes.len() - 1;
        proof {
            lemma_count_lt_properties(self.ents(), entity);
            assert(self.sub_lo(root as int) == 0);
            assert(self.sub_hi(root as int) == self.size);
        }
        let r = self.lower_bound_recursive(entity, None, root);
        proof {
            let p = count_lt(self.ents(), entity);
            lemma_count_lt_properties(self.ents(), entity);
            if p < self.size {
                assert(self.ents()[p].key() >= entity.key());
            }
        }
        r
    }

    fn to_vec(&self) -> (r: Vec<E>)
    {
        let mut out: Vec<E> = Vec::new();
        let mut p: usize = 0;
        while p < self.size
            invariant
                self.wf(),
                p <= self.size,
                out@ == self.ents().take(p as int),
            decreases self.size - p,
        {
            let e = self.get(p);
            out.push(e);
            proof {
                assert(out@ =~= self.ents().take(p + 1));
            }
            p = p + 1;
        }
        proof {
            assert(self.ents().take(self.size as int) =~= self.ents());
        }
        out
    }
}

} // verus!
