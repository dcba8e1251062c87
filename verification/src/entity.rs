use vstd::prelude::*;

pub mod fast_map;
pub mod vec_map;

verus! {

/// The `n` little-endian base-256 digits of `x`.
pub open spec fn le_bytes_of(x: int, n: nat) -> Seq<u8>
    decreases n,
{
    if n == 0 {
        Seq::empty()
    } else {
        seq![(x % 256) as u8] + le_bytes_of(x / 256, (n - 1) as nat)
    }
}

/// A sequence of entities in strictly ascending key order.
pub open spec fn strictly_sorted<E: Entity>(s: Seq<E>) -> bool {
    forall|i: int, j: int| 0 <= i < j < s.len() ==> s[i].key() < s[j].key()
}

/// The number of entities in `s` whose key is strictly below the key of `e`.
pub open spec fn count_lt<E: Entity>(s: Seq<E>, e: E) -> int
    decreases s.len(),
{
    if s.len() == 0 {
        0
    } else {
        count_lt(s.drop_last(), e) + if s.last().key() < e.key() {
            1int
        } else {
            0int
        }
    }
}

/// In a strictly sorted sequence the partition point for `e` (every entity
/// before it below `e`, every entity from it on at or above `e`) is the number
/// of entities below `e`.  This is the search law that `offset_of` obeys.
pub proof fn lemma_sorted_offset_is_count_lt<E: Entity>(s: Seq<E>, e: E, i: int)
    requires
        strictly_sorted(s),
        0 <= i <= s.len(),
        forall|j: int| 0 <= j < i ==> s[j].key() < e.key(),
        forall|j: int| i <= j < s.len() ==> s[j].key() >= e.key(),
    ensures
        i == count_lt(s, e),
    decreases s.len(),
{
    if s.len() == 0 {
    } else if s.last().key() < e.key() {
        assert(i == s.len());
        lemma_sorted_offset_is_count_lt(s.drop_last(), e, i - 1);
    } else {
        let i2 = if i == s.len() {
            i - 1
        } else {
            i
        };
        lemma_sorted_offset_is_count_lt(s.drop_last(), e, i2);
    }
}

/// On a strictly sorted sequence, `count_lt` is the partition point for `e`:
/// every entity before it lies below `e` and every entity from it on lies at
/// or above `e`.
pub proof fn lemma_count_lt_properties<E: Entity>(s: Seq<E>, e: E)
    requires
        strictly_sorted(s),
    ensures
        0 <= count_lt(s, e) <= s.len(),
        forall|j: int| 0 <= j < count_lt(s, e) ==> s[j].key() < e.key(),
        forall|j: int| count_lt(s, e) <= j < s.len() ==> s[j].key() >= e.key(),
    decreases s.len(),
{
    if s.len() > 0 {
        let d = s.drop_last();
        assert(forall|j: int| 0 <= j < d.len() ==> d[j] == s[j]);
        lemma_count_lt_properties(d, e);
        if s.last().key() < e.key() {
            if count_lt(d, e) < d.len() {
                assert(d[count_lt(d, e)].key() >= e.key());
                assert(s[count_lt(d, e)].key() < s.last().key());
                assert(false);
            }
        }
    }
}

/// Probing anywhere in a key gap finds the same offset: when no entity's
/// key lies between two probes, the number of entities below each is the
/// same.  In particular, probing just below an entity whose predecessor gap
/// is wider than one finds the entity's own offset.
pub proof fn lemma_count_lt_gap<E: Entity>(s: Seq<E>, d: E, e: E)
    requires
        d.key() <= e.key(),
        forall|i: int| 0 <= i < s.len() ==> !(d.key() <= #[trigger] s[i].key() < e.key()),
    ensures
        count_lt(s, d) == count_lt(s, e),
    decreases s.len(),
{
    if s.len() > 0 {
        assert(forall|i: int| 0 <= i < s.drop_last().len() ==> s.drop_last()[i] == s[i]);
        lemma_count_lt_gap(s.drop_last(), d, e);
    }
}

/// Entity is one part of the ECS triad.  An entity is a copyable key carrying
/// no data of its own; every other structure in this crate is ordered by it.
///
/// The mathematical model of an entity is its `key`, an integer giving its
/// position in the total order.  Keys run from 0 (the `default_value`
/// sentinel, reserved as an empty-slot marker) up to `max_key()`
/// (`max_value`), and are injective: equal keys mean equal entities.
pub trait Entity: Sized + Copy {
    /// The position of this entity in the total order.
    spec fn key(self) -> int;

    /// The key of the largest entity.
    spec fn max_key() -> int;

    /// Every key lies between 0 and `max_key()`.
    proof fn lemma_key_in_range(self)
        ensures
            0 <= self.key() <= Self::max_key(),
    ;

    /// The largest key is positive.
    proof fn lemma_max_key_positive()
        ensures
            Self::max_key() >= 1,
    ;

    /// Entities with equal keys are equal.
    proof fn lemma_key_injective(self, other: Self)
        requires
            self.key() == other.key(),
        ensures
            self == other,
    ;

    /// The distinguished sentinel entity, first in the total order.
    fn default_value() -> (r: Self)
        ensures
            r.key() == 0,
    ;

    /// The maximum entity possible.
    fn max_value() -> (r: Self)
        ensures
            r.key() == Self::max_key(),
    ;

    /// The next entity in the total order, wrapping past the maximum.
    fn increment(self) -> (r: Self)
        ensures
            r.key() == if self.key() == Self::max_key() {
                0int
            } else {
                self.key() + 1
            },
    ;

    /// The previous entity in the total order, wrapping below zero.
    fn decrement(self) -> (r: Self)
        ensures
            r.key() == if self.key() == 0 {
                Self::max_key()
            } else {
                self.key() - 1
            },
    ;

    /// Strict comparison in the total order.
    fn lt(self, other: Self) -> (r: bool)
        ensures
            r == (self.key() < other.key()),
    ;

    /// Non-strict comparison in the total order.
    fn le(self, other: Self) -> (r: bool)
        ensures
            r == (self.key() <= other.key()),
    ;

    /// Equality of entities.
    fn same(self, other: Self) -> (r: bool)
        ensures
            r == (self == other),
            r == (self.key() == other.key()),
    ;

    /// The bytes of the entity, least significant first.
    spec fn le_bytes(self) -> Seq<u8>;

    /// Convert the entity to a displayable value: its little-endian bytes in
    /// the crate's base64-like alphabet.
    fn display(&self) -> (r: String)
        ensures
            r@ == crate::base64::b64_encode(self.le_bytes()),
    ;
}

/// The little-endian bytes of a 32-bit entity.
fn le_bytes_u32(x: u32) -> (v: Vec<u8>)
    ensures
        v@ == le_bytes_of(x as int, 4),
{
    let mut out: Vec<u8> = Vec::new();
    let mut v = x;
    let mut k: usize = 0;
    while k < 4
        invariant
            k <= 4,
            out@.len() == k,
            out@ + le_bytes_of(v as int, (4 - k) as nat) == le_bytes_of(x as int, 4),
        decreases 4 - k,
    {
        let ghost out0 = out@;
        let ghost vv = v as int;
        out.push((v % 256) as u8);
        v = v / 256;
        proof {
            assert(le_bytes_of(vv, (4 - k) as nat) == seq![(vv % 256) as u8] + le_bytes_of(
                vv / 256,
                (3 - k) as nat,
            ));
            assert(out@ + le_bytes_of(v as int, (3 - k) as nat) =~= out0 + le_bytes_of(
                vv,
                (4 - k) as nat,
            ));
        }
        k = k + 1;
    }
    proof {
        assert(le_bytes_of(v as int, 0).len() == 0);
        assert(out@ =~= le_bytes_of(x as int, 4));
    }
    out
}

/// The little-endian bytes of a 64-bit entity.
fn le_bytes_u64(x: u64) -> (v: Vec<u8>)
    ensures
        v@ == le_bytes_of(x as int, 8),
{
    let mut out: Vec<u8> = Vec::new();
    let mut v = x;
    let mut k: usize = 0;
    while k < 8
        invariant
            k <= 8,
            out@.len() == k,
            out@ + le_bytes_of(v as int, (8 - k) as nat) == le_bytes_of(x as int, 8),
        decreases 8 - k,
    {
        let ghost out0 = out@;
        let ghost vv = v as int;
        out.push((v % 256) as u8);
        v = v / 256;
        proof {
            assert(le_bytes_of(vv, (8 - k) as nat) == seq![(vv % 256) as u8] + le_bytes_of(
                vv / 256,
                (7 - k) as nat,
            ));
            assert(out@ + le_bytes_of(v as int, (7 - k) as nat) =~= out0 + le_bytes_of(
                vv,
                (8 - k) as nat,
            ));
        }
        k = k + 1;
    }
    proof {
        assert(le_bytes_of(v as int, 0).len() == 0);
        assert(out@ =~= le_bytes_of(x as int, 8));
    }
    out
}

/// The little-endian bytes of a 128-bit entity.
fn le_bytes_u128(x: u128) -> (v: Vec<u8>)
    ensures
        v@ == le_bytes_of(x as int, 16),
{
    let mut out: Vec<u8> = Vec::new();
    let mut v = x;
    let mut k: usize = 0;
    while k < 16
        invariant
            k <= 16,
            out@.len() == k,
            out@ + le_bytes_of(v as int, (16 - k) as nat) == le_bytes_of(x as int, 16),
        decreases 16 - k,
    {
        let ghost out0 = out@;
        let ghost vv = v as int;
        out.push((v % 256) as u8);
        v = v / 256;
        proof {
            assert(le_bytes_of(vv, (16 - k) as nat) == seq![(vv % 256) as u8] + le_bytes_of(
                vv / 256,
                (15 - k) as nat,
            ));
            assert(out@ + le_bytes_of(v as int, (15 - k) as nat) =~= out0 + le_bytes_of(
                vv,
                (16 - k) as nat,
            ));
        }
        k = k + 1;
    }
    proof {
        assert(le_bytes_of(v as int, 0).len() == 0);
        assert(out@ =~= le_bytes_of(x as int, 16));
    }
    out
}

impl Entity for u32 {
    open spec fn key(self) -> int {
        self as int
    }

    open spec fn max_key() -> int {
        u32::MAX as int
    }

    proof fn lemma_key_in_range(self) {
    }

    proof fn lemma_max_key_positive() {
    }

    proof fn lemma_key_injective(self, other: Self) {
    }

    fn default_value() -> Self {
        0
    }

    fn max_value() -> Self {
        u32::MAX
    }

    fn increment(self) -> Self {
        if self == u32::MAX {
            0
        } else {
            self + 1
        }
    }

    fn decrement(self) -> Self {
        if self == 0 {
            u32::MAX
        } else {
            self - 1
        }
    }

    fn lt(self, other: Self) -> bool {
        self < other
    }

    fn le(self, other: Self) -> bool {
        self <= other
    }

    fn same(self, other: Self) -> bool {
        self == other
    }

    open spec fn le_bytes(self) -> Seq<u8> {
        le_bytes_of(self as int, 4)
    }

    fn display(&self) -> String {
        let bytes = le_bytes_u32(*self);
        crate::base64::encode(bytes.as_slice())
    }
}

impl Entity for u64 {
    open spec fn key(self) -> int {
        self as int
    }

    open spec fn max_key() -> int {
        u64::MAX as int
    }

    proof fn lemma_key_in_range(self) {
    }

    proof fn lemma_max_key_positive() {
    }

    proof fn lemma_key_injective(self, other: Self) {
    }

    fn default_value() -> Self {
        0
    }

    fn max_value() -> Self {
        u64::MAX
    }

    fn increment(self) -> Self {
        if self == u64::MAX {
            0
        } else {
            self + 1
        }
    }

    fn decrement(self) -> Self {
        if self == 0 {
            u64::MAX
        } else {
            self - 1
        }
    }

    fn lt(self, other: Self) -> bool {
        self < other
    }

    fn le(self, other: Self) -> bool {
        self <= other
    }

    fn same(self, other: Self) -> bool {
        self == other
    }

    open spec fn le_bytes(self) -> Seq<u8> {
        le_bytes_of(self as int, 8)
    }

    fn display(&self) -> String {
        let bytes = le_bytes_u64(*self);
        crate::base64::encode(bytes.as_slice())
    }
}

impl Entity for u128 {
    open spec fn key(self) -> int {
        self as int
    }

    open spec fn max_key() -> int {
        u128::MAX as int
    }

    proof fn lemma_key_in_range(self) {
    }

    proof fn lemma_max_key_positive() {
    }

    proof fn lemma_key_injective(self, other: Self) {
    }

    fn default_value() -> Self {
        0
    }

    fn max_value() -> Self {
        u128::MAX
    }

    fn increment(self) -> Self {
        if self == u128::MAX {
            0
        } else {
            self + 1
        }
    }

    fn decrement(self) -> Self {
        if self == 0 {
            u128::MAX
        } else {
            self - 1
        }
    }

    fn lt(self, other: Self) -> bool {
        self < other
    }

    fn le(self, other: Self) -> bool {
        self <= other
    }

    fn same(self, other: Self) -> bool {
        self == other
    }

    open spec fn le_bytes(self) -> Seq<u8> {
        le_bytes_of(self as int, 16)
    }

    fn display(&self) -> String {
        let bytes = le_bytes_u128(*self);
        crate::base64::encode(bytes.as_slice())
    }
}

/// EntityMap provides an interface for mapping entities to offsets.  The
/// model of a map is `ents()`, the sequence of its entities; a well-formed
/// map holds them in strictly ascending key order.
pub trait EntityMap<E: Entity>: Sized {
    /// The entities of the map, in storage order.
    spec fn ents(&self) -> Seq<E>;

    /// The map's internal invariant.
    spec fn wf(&self) -> bool;

    /// A well-formed map holds its entities in strictly ascending key order.
    proof fn lemma_wf_sorted(&self)
        requires
            self.wf(),
        ensures
            strictly_sorted(self.ents()),
    ;

    /// True if the entity map contains no entries.
    fn is_empty(&self) -> (r: bool)
        requires
            self.wf(),
        ensures
            r == (self.ents().len() == 0),
    ;

    /// The number of entities in the map.
    fn len(&self) -> (r: usize)
        requires
            self.wf(),
        ensures
            r == self.ents().len(),
    ;

    /// The entity at `offset`.
    fn get(&self, offset: usize) -> (r: E)
        requires
            self.wf(),
            offset < self.ents().len(),
        ensures
            r == self.ents()[offset as int],
    ;

    /// The offset where this entity should sit: the least offset holding an
    /// entity at or above `entity`, or `len` when there is none.  This equals
    /// the number of entities strictly below `entity`.
    fn offset_of(&self, entity: E) -> (r: usize)
        requires
            self.wf(),
        ensures
            r == count_lt(self.ents(), entity),
            r <= self.ents().len(),
            forall|j: int| 0 <= j < r ==> self.ents()[j].key() < entity.key(),
            forall|j: int| r <= j < self.ents().len() ==> self.ents()[j].key() >= entity.key(),
    ;

    /// The exact offset of this entity: present if and only if the entity is
    /// in the map.
    fn exact_offset_of(&self, entity: E) -> (r: Option<usize>)
        requires
            self.wf(),
        ensures
            r is Some <==> self.ents().contains(entity),
            r is Some ==> {
                let i = r->Some_0;
                i < self.ents().len() && self.ents()[i as int] == entity && i == count_lt(
                    self.ents(),
                    entity,
                )
            },
    ;

    /// The first entity greater than or equal to `entity` in the map, absent
    /// when every entity of the map is below it.
    fn lower_bound(&self, entity: E) -> (r: Option<E>)
        requires
            self.wf(),
        ensures
            r is Some <==> exists|j: int|
                0 <= j < self.ents().len() && self.ents()[j].key() >= entity.key(),
            r is Some ==> r->Some_0 == self.ents()[count_lt(self.ents(), entity)],
    ;

    /// The entities of the map, in ascending order.
    fn to_vec(&self) -> (r: Vec<E>)
        requires
            self.wf(),
        ensures
            r@ == self.ents(),
    ;
}

} // verus!
