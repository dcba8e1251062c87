use crate::entity::Entity;
use vstd::prelude::*;
use vstd::seq_lib::*;

pub mod cow;
pub mod insert;
pub mod mutable;

verus! {

/// A change in a component.  This type is constructed by a component ref and
/// is passed back to the collection via the `apply` call.
#[derive(Debug, Clone, PartialEq, Eq)]
pub enum ComponentChange<T> {
    /// There was no change.  This is the default.
    NoChange,
    /// Unbind the component from the entity it is associated with.
    Unbind,
    /// Assign this value to the component when `apply` is called.
    Value(T),
}

impl<T> ComponentChange<T> {
    /// True if and only if this is a NoChange ComponentChange.
    pub fn is_no_change(&self) -> (r: bool)
        ensures
            r == (self is NoChange),
    {
        matches!(self, Self::NoChange)
    }
}

/// A sequence of keyed pairs in strictly ascending entity order.
pub open spec fn pairs_sorted<E: Entity, X>(s: Seq<(E, X)>) -> bool {
    forall|i: int, j: int| 0 <= i < j < s.len() ==> s[i].0.key() < s[j].0.key()
}

/// The number of pairs in `s` whose entity key is strictly below the key of
/// `e`.
pub open spec fn pair_count_lt<E: Entity, X>(s: Seq<(E, X)>, e: E) -> int
    decreases s.len(),
{
    if s.len() == 0 {
        0
    } else {
        pair_count_lt(s.drop_last(), e) + if s.last().0.key() < e.key() {
            1int
        } else {
            0int
        }
    }
}

/// Some pair of `s` carries the entity key `k`.
pub open spec fn has_key<E: Entity, X>(s: Seq<(E, X)>, k: int) -> bool {
    exists|i: int| 0 <= i < s.len() && s[i].0.key() == k
}

/// In a strictly sorted pair sequence the partition point for `e` is the
/// number of pairs keyed below `e`.
pub proof fn lemma_pair_offset_is_count_lt<E: Entity, X>(s: Seq<(E, X)>, e: E, i: int)
    requires
        pairs_sorted(s),
        0 <= i <= s.len(),
        forall|j: int| 0 <= j < i ==> s[j].0.key() < e.key(),
        forall|j: int| i <= j < s.len() ==> s[j].0.key() >= e.key(),
    ensures
        i == pair_count_lt(s, e),
    decreases s.len(),
{
    if s.len() == 0 {
    } else if s.last().0.key() < e.key() {
        assert(i == s.len());
        lemma_pair_offset_is_count_lt(s.drop_last(), e, i - 1);
    } else {
        let i2 = if i == s.len() {
            i - 1
        } else {
            i
        };
        lemma_pair_offset_is_count_lt(s.drop_last(), e, i2);
    }
}

/// On a strictly sorted pair sequence, `pair_count_lt` is the partition
/// point for `e`.
pub proof fn lemma_pair_count_lt_properties<E: Entity, X>(s: Seq<(E, X)>, e: E)
    requires
        pairs_sorted(s),
    ensures
        0 <= pair_count_lt(s, e) <= s.len(),
        forall|j: int| 0 <= j < pair_count_lt(s, e) ==> s[j].0.key() < e.key(),
        forall|j: int| pair_count_lt(s, e) <= j < s.len() ==> s[j].0.key() >= e.key(),
    decreases s.len(),
{
    if s.len() > 0 {
        let d = s.drop_last();
        assert(forall|j: int| 0 <= j < d.len() ==> d[j] == s[j]);
        lemma_pair_count_lt_properties(d, e);
        if s.last().0.key() < e.key() {
            if pair_count_lt(d, e) < d.len() {
                assert(d[pair_count_lt(d, e)].0.key() >= e.key());
                assert(s[pair_count_lt(d, e)].0.key() < s.last().0.key());
                assert(false);
            }
        }
    }
}

/// The pairs a change stream binds when it is applied to an empty collection:
/// its value-bearing entries, in order.
pub open spec fn changes_to_pairs<E: Entity, T>(c: Seq<(E, ComponentChange<T>)>) -> Seq<(E, T)>
    decreases c.len(),
{
    if c.len() == 0 {
        Seq::empty()
    } else {
        let rest = changes_to_pairs(c.drop_first());
        match c[0].1 {
            ComponentChange::Value(v) => seq![(c[0].0, v)] + rest,
            _ => rest,
        }
    }
}

/// The meaning of applying a sorted change stream `c` to the sorted contents
/// `s` of a collection: a streaming merge of the two.  Where both streams
/// carry one entity, a no-change keeps the pair, an unbind drops it and a
/// value replaces it; pairs of `s` alone are kept; value changes for entities
/// absent from `s` are inserts and other changes for absent entities are
/// dropped.
pub open spec fn spec_apply<E: Entity, T>(
    s: Seq<(E, T)>,
    c: Seq<(E, ComponentChange<T>)>,
) -> Seq<(E, T)>
    decreases s.len() + c.len(),
{
    if c.len() == 0 {
        s
    } else if s.len() == 0 {
        let rest = spec_apply(s, c.drop_first());
        match c[0].1 {
            ComponentChange::Value(v) => seq![(c[0].0, v)] + rest,
            _ => rest,
        }
    } else if s[0].0.key() == c[0].0.key() {
        let rest = spec_apply(s.drop_first(), c.drop_first());
        match c[0].1 {
            ComponentChange::NoChange => seq![s[0]] + rest,
            ComponentChange::Unbind => rest,
            ComponentChange::Value(v) => seq![(s[0].0, v)] + rest,
        }
    } else if s[0].0.key() < c[0].0.key() {
        seq![s[0]] + spec_apply(s.drop_first(), c)
    } else {
        let rest = spec_apply(s, c.drop_first());
        match c[0].1 {
            ComponentChange::Value(v) => seq![(c[0].0, v)] + rest,
            _ => rest,
        }
    }
}

/// A pair sequence headed by `x` is sorted exactly when its tail is sorted
/// and every tail key lies above the key of `x`.
pub proof fn lemma_sorted_cons<E: Entity, X>(x: (E, X), r: Seq<(E, X)>)
    ensures
        pairs_sorted(seq![x] + r) <==> (pairs_sorted(r) && forall|i: int|
            0 <= i < r.len() ==> r[i].0.key() > x.0.key()),
{
    let whole = seq![x] + r;
    assert(whole[0] == x);
    assert(forall|i: int| 0 <= i < r.len() ==> whole[i + 1] == r[i]);
    if pairs_sorted(whole) {
        assert forall|i: int, j: int| 0 <= i < j < r.len() implies r[i].0.key()
            < r[j].0.key() by {
            assert(whole[i + 1] == r[i] && whole[j + 1] == r[j]);
        }
        assert forall|i: int| 0 <= i < r.len() implies r[i].0.key() > x.0.key() by {
            assert(whole[i + 1] == r[i]);
        }
    }
    if pairs_sorted(r) && (forall|i: int| 0 <= i < r.len() ==> r[i].0.key() > x.0.key()) {
        assert forall|i: int, j: int| 0 <= i < j < whole.len() implies whole[i].0.key()
            < whole[j].0.key() by {
            if i == 0 {
                assert(whole[j] == r[j - 1]);
            } else {
                assert(whole[i] == r[i - 1] && whole[j] == r[j - 1]);
            }
        }
    }
}

/// Applying a sorted change stream to a sorted collection yields a sorted
/// result, and every key of the result lies above any bound that lies below
/// every key of both streams.
pub proof fn lemma_spec_apply_sorted_above<E: Entity, T>(
    s: Seq<(E, T)>,
    c: Seq<(E, ComponentChange<T>)>,
    lo: int,
)
    requires
        pairs_sorted(s),
        pairs_sorted(c),
        forall|i: int| 0 <= i < s.len() ==> s[i].0.key() > lo,
        forall|i: int| 0 <= i < c.len() ==> c[i].0.key() > lo,
    ensures
        pairs_sorted(spec_apply(s, c)),
        forall|i: int| 0 <= i < spec_apply(s, c).len() ==> spec_apply(s, c)[i].0.key() > lo,
    decreases s.len() + c.len(),
{
    let r = spec_apply(s, c);
    if c.len() == 0 {
    } else if s.len() == 0 {
        let c1 = c.drop_first();
        assert(forall|i: int| 0 <= i < c1.len() ==> c1[i] == c[i + 1]);
        lemma_spec_apply_sorted_above(s, c1, c[0].0.key());
        let rest = spec_apply(s, c1);
        match c[0].1 {
            ComponentChange::Value(v) => {
                lemma_sorted_cons((c[0].0, v), rest);
                assert(forall|i: int|
                    0 <= i < rest.len() ==> #[trigger] rest[i].0.key() > c[0].0.key() > lo);
                assert(forall|i: int| 0 <= i < r.len() ==> r[i] == (seq![(c[0].0, v)] + rest)[i]);
            },
            _ => {
                lemma_spec_apply_sorted_above(s, c1, lo);
            },
        }
    } else {
        let s1 = s.drop_first();
        let c1 = c.drop_first();
        assert(forall|i: int| 0 <= i < s1.len() ==> s1[i] == s[i + 1]);
        assert(forall|i: int| 0 <= i < c1.len() ==> c1[i] == c[i + 1]);
        if s[0].0.key() == c[0].0.key() {
            lemma_spec_apply_sorted_above(s1, c1, s[0].0.key());
            let rest = spec_apply(s1, c1);
            match c[0].1 {
                ComponentChange::NoChange => {
                    lemma_sorted_cons(s[0], rest);
                },
                ComponentChange::Unbind => {
                    lemma_spec_apply_sorted_above(s1, c1, lo);
                },
                ComponentChange::Value(v) => {
                    lemma_sorted_cons((s[0].0, v), rest);
                },
            }
        } else if s[0].0.key() < c[0].0.key() {
            lemma_spec_apply_sorted_above(s1, c, s[0].0.key());
            let rest = spec_apply(s1, c);
            lemma_sorted_cons(s[0], rest);
        } else {
            lemma_spec_apply_sorted_above(s, c1, c[0].0.key());
            let rest = spec_apply(s, c1);
            match c[0].1 {
                ComponentChange::Value(v) => {
                    lemma_sorted_cons((c[0].0, v), rest);
                },
                _ => {
                    lemma_spec_apply_sorted_above(s, c1, lo);
                },
            }
        }
    }
}

/// Entity keys are never negative, so any sorted pair sequence is bounded
/// below by -1.
pub proof fn lemma_pair_keys_nonneg<E: Entity, X>(s: Seq<(E, X)>)
    ensures
        forall|i: int| 0 <= i < s.len() ==> s[i].0.key() > -1,
{
    assert forall|i: int| 0 <= i < s.len() implies s[i].0.key() > -1 by {
        s[i].0.lemma_key_in_range();
    }
}

/// Applying a sorted change stream to a sorted collection yields a sorted
/// result.
pub proof fn lemma_spec_apply_sorted<E: Entity, T>(
    s: Seq<(E, T)>,
    c: Seq<(E, ComponentChange<T>)>,
)
    requires
        pairs_sorted(s),
        pairs_sorted(c),
    ensures
        pairs_sorted(spec_apply(s, c)),
    {
    lemma_pair_keys_nonneg(s);
    lemma_pair_keys_nonneg(c);
    lemma_spec_apply_sorted_above(s, c, -1);
}

/// Applying changes whose keys all lie above the head pair of the
/// collection leaves that head in place.
pub proof fn lemma_spec_apply_uncons<E: Entity, T>(
    x: (E, T),
    s: Seq<(E, T)>,
    c: Seq<(E, ComponentChange<T>)>,
)
    requires
        c.len() > 0 ==> x.0.key() < c[0].0.key(),
    ensures
        spec_apply(seq![x] + s, c) == seq![x] + spec_apply(s, c),
{
    let xs = seq![x] + s;
    assert(xs[0] == x);
    assert(xs.drop_first() =~= s);
    if c.len() == 0 {
    } else {
        assert(xs.len() > 0);
        assert(xs[0].0.key() < c[0].0.key());
    }
}

/// Applying the concatenation of two sorted change streams equals applying
/// the first and then the second.
pub proof fn lemma_spec_apply_concat<E: Entity, T>(
    s: Seq<(E, T)>,
    a: Seq<(E, ComponentChange<T>)>,
    b: Seq<(E, ComponentChange<T>)>,
)
    requires
        pairs_sorted(s),
        pairs_sorted(a + b),
    ensures
        spec_apply(s, a + b) == spec_apply(spec_apply(s, a), b),
    decreases s.len() + a.len(),
{
    let ab = a + b;
    if a.len() == 0 {
        assert(ab =~= b);
        assert(spec_apply(s, a) == s);
    } else {
        let a1 = a.drop_first();
        let h = a[0];
        assert(ab[0] == h);
        assert(ab.drop_first() =~= a1 + b);
        assert(forall|i: int| 0 <= i < a1.len() ==> a1[i] == a[i + 1]);
        assert(forall|i: int| 0 <= i < b.len() ==> b[i] == ab[a.len() + i]);
        assert(pairs_sorted(a1 + b)) by {
            let a1b = a1 + b;
            assert(forall|i: int| 0 <= i < a1b.len() ==> a1b[i] == ab[i + 1]);
            assert forall|i: int, j: int| 0 <= i < j < a1b.len() implies a1b[i].0.key()
                < a1b[j].0.key() by {
                assert(a1b[i] == ab[i + 1] && a1b[j] == ab[j + 1]);
            }
        }
        assert(pairs_sorted(a)) by {
            assert forall|i: int, j: int| 0 <= i < j < a.len() implies a[i].0.key()
                < a[j].0.key() by {
                assert(a[i] == ab[i] && a[j] == ab[j]);
            }
        }
        assert(pairs_sorted(a1)) by {
            assert forall|i: int, j: int| 0 <= i < j < a1.len() implies a1[i].0.key()
                < a1[j].0.key() by {
                assert(a1[i] == a[i + 1] && a1[j] == a[j + 1]);
            }
        }
        assert(forall|i: int| 0 <= i < b.len() ==> b[i].0.key() > h.0.key());
        assert(forall|i: int| 0 <= i < a1.len() ==> a1[i].0.key() > h.0.key());
        if s.len() == 0 {
            lemma_spec_apply_concat(s, a1, b);
            match h.1 {
                ComponentChange::Value(v) => {
                    let x = (h.0, v);
                    lemma_spec_apply_sorted_above(s, a1, h.0.key());
                    lemma_spec_apply_uncons(x, spec_apply(s, a1), b);
                },
                _ => {},
            }
        } else {
            let s1 = s.drop_first();
            assert(s1 =~= s.skip(1));
            assert(forall|i: int| 0 <= i < s1.len() ==> s1[i] == s[i + 1]);
            assert(pairs_sorted(s1)) by {
                assert forall|i: int, j: int| 0 <= i < j < s1.len() implies s1[i].0.key()
                    < s1[j].0.key() by {
                    assert(s1[i] == s[i + 1] && s1[j] == s[j + 1]);
                }
            }
            if s[0].0.key() == h.0.key() {
                lemma_spec_apply_concat(s1, a1, b);
                match h.1 {
                    ComponentChange::NoChange => {
                        lemma_spec_apply_sorted_above(s1, a1, s[0].0.key());
                        lemma_spec_apply_uncons(s[0], spec_apply(s1, a1), b);
                    },
                    ComponentChange::Unbind => {},
                    ComponentChange::Value(v) => {
                        lemma_spec_apply_sorted_above(s1, a1, s[0].0.key());
                        lemma_spec_apply_uncons((s[0].0, v), spec_apply(s1, a1), b);
                    },
                }
            } else if s[0].0.key() < h.0.key() {
                lemma_spec_apply_concat(s1, a, b);
                lemma_spec_apply_sorted_above(s1, a, s[0].0.key());
                lemma_spec_apply_uncons(s[0], spec_apply(s1, a), b);
                assert(spec_apply(s, ab) == seq![s[0]] + spec_apply(s1, ab));
                assert(spec_apply(s, a) == seq![s[0]] + spec_apply(s1, a));
            } else {
                lemma_spec_apply_concat(s, a1, b);
                match h.1 {
                    ComponentChange::Value(v) => {
                        let x = (h.0, v);
                        assert(forall|i: int| 0 <= i < s.len() ==> s[i].0.key() > h.0.key())
                            by {
                            assert forall|i: int| 0 <= i < s.len() implies s[i].0.key()
                                > h.0.key() by {
                                if i > 0 {
                                    assert(s[0].0.key() < s[i].0.key());
                                }
                            }
                        }
                        lemma_spec_apply_sorted_above(s, a1, h.0.key());
                        lemma_spec_apply_uncons(x, spec_apply(s, a1), b);
                    },
                    _ => {},
                }
            }
        }
    }
}

/// What applying a single change does: a no-change keeps the collection, an
/// unbind removes the entity's pair if present, and a value replaces the
/// entity's component or inserts the pair at its sorted position.
pub proof fn lemma_spec_apply_single<E: Entity, T>(s: Seq<(E, T)>, x: (E, ComponentChange<T>))
    requires
        pairs_sorted(s),
    ensures
        x.1 is NoChange ==> spec_apply(s, seq![x]) == s,
        x.1 is Unbind ==> spec_apply(s, seq![x]) == if has_key(s, x.0.key()) {
            s.remove(pair_count_lt(s, x.0))
        } else {
            s
        },
        x.1 is Value ==> spec_apply(s, seq![x]) == if has_key(s, x.0.key()) {
            s.update(
                pair_count_lt(s, x.0),
                (s[pair_count_lt(s, x.0)].0, x.1->Value_0),
            )
        } else {
            s.insert(pair_count_lt(s, x.0), (x.0, x.1->Value_0))
        },
    decreases s.len(),
{
    let c = seq![x];
    let ce = Seq::<(E, ComponentChange<T>)>::empty();
    assert(c[0] == x);
    assert(c.drop_first() =~= ce);
    assert(spec_apply(s, ce) == s);
    lemma_pair_count_lt_properties(s, x.0);
    let k = pair_count_lt(s, x.0);
    if s.len() == 0 {
        assert(!has_key(s, x.0.key()));
        match x.1 {
            ComponentChange::Value(v) => {
                assert(spec_apply(s, c) =~= s.insert(0, (x.0, v)));
            },
            _ => {
                assert(spec_apply(s, c) =~= s);
            },
        }
    } else if s[0].0.key() == x.0.key() {
        assert(has_key(s, x.0.key()));
        assert(k == 0);
        let s1 = s.drop_first();
        assert(spec_apply(s1, ce) == s1);
        match x.1 {
            ComponentChange::NoChange => {
                assert(spec_apply(s, c) =~= s);
            },
            ComponentChange::Unbind => {
                assert(spec_apply(s, c) =~= s.remove(0));
            },
            ComponentChange::Value(v) => {
                assert(spec_apply(s, c) =~= s.update(0, (s[0].0, v)));
            },
        }
    } else if s[0].0.key() < x.0.key() {
        let s1 = s.drop_first();
        assert(forall|i: int| 0 <= i < s1.len() ==> s1[i] == s[i + 1]);
        assert(pairs_sorted(s1)) by {
            assert forall|i: int, j: int| 0 <= i < j < s1.len() implies s1[i].0.key()
                < s1[j].0.key() by {
                assert(s1[i] == s[i + 1] && s1[j] == s[j + 1]);
            }
        }
        lemma_spec_apply_single(s1, x);
        lemma_pair_count_lt_properties(s1, x.0);
        let k1 = pair_count_lt(s1, x.0);
        assert(k == k1 + 1) by {
            assert forall|j: int| 0 <= j < k1 + 1 implies s[j].0.key() < x.0.key() by {
                if j > 0 {
                    assert(s[j] == s1[j - 1]);
                }
            }
            assert forall|j: int| k1 + 1 <= j < s.len() implies s[j].0.key() >= x.0.key() by {
                assert(s[j] == s1[j - 1]);
            }
            lemma_pair_offset_is_count_lt(s, x.0, k1 + 1);
        }
        assert(has_key(s, x.0.key()) <==> has_key(s1, x.0.key())) by {
            if has_key(s, x.0.key()) {
                let i = choose|i: int| 0 <= i < s.len() && s[i].0.key() == x.0.key();
                assert(i > 0);
                assert(s1[i - 1].0.key() == x.0.key());
            }
            if has_key(s1, x.0.key()) {
                let i = choose|i: int| 0 <= i < s1.len() && s1[i].0.key() == x.0.key();
                assert(s[i + 1].0.key() == x.0.key());
            }
        }
        match x.1 {
            ComponentChange::NoChange => {
                assert(spec_apply(s, c) =~= s);
            },
            ComponentChange::Unbind => {
                if has_key(s, x.0.key()) {
                    assert(spec_apply(s, c) =~= s.remove(k));
                } else {
                    assert(spec_apply(s, c) =~= s);
                }
            },
            ComponentChange::Value(v) => {
                assert(s[k] == s1[k1] || !has_key(s, x.0.key()));
                if has_key(s, x.0.key()) {
                    assert(spec_apply(s, c) =~= s.update(k, (s[k].0, v)));
                } else {
                    assert(spec_apply(s, c) =~= s.insert(k, (x.0, v)));
                }
            },
        }
    } else {
        assert(k == 0);
        assert(!has_key(s, x.0.key())) by {
            if has_key(s, x.0.key()) {
                let i = choose|i: int| 0 <= i < s.len() && s[i].0.key() == x.0.key();
                if i > 0 {
                    assert(s[0].0.key() < s[i].0.key());
                }
            }
        }
        match x.1 {
            ComponentChange::Value(v) => {
                assert(spec_apply(s, c) =~= s.insert(0, (x.0, v)));
            },
            _ => {
                assert(spec_apply(s, c) =~= s);
            },
        }
    }
}

/// Applying an empty change stream is the identity.
pub proof fn lemma_spec_apply_empty_changes<E: Entity, T>(s: Seq<(E, T)>)
    ensures
        spec_apply(s, Seq::<(E, ComponentChange<T>)>::empty()) == s,
{
}

/// Applying a stream of no-changes is the identity: a no-change keeps the
/// pre-existing pair and is dropped for absent entities.
pub proof fn lemma_spec_apply_all_nochange<E: Entity, T>(
    s: Seq<(E, T)>,
    c: Seq<(E, ComponentChange<T>)>,
)
    requires
        forall|i: int| 0 <= i < c.len() ==> c[i].1 is NoChange,
    ensures
        spec_apply(s, c) == s,
    decreases s.len() + c.len(),
{
    if c.len() == 0 {
    } else if s.len() == 0 {
        let c1 = c.drop_first();
        assert(forall|i: int| 0 <= i < c1.len() ==> c1[i] == c[i + 1]);
        lemma_spec_apply_all_nochange(s, c1);
    } else if s[0].0.key() == c[0].0.key() {
        let s1 = s.drop_first();
        let c1 = c.drop_first();
        assert(forall|i: int| 0 <= i < c1.len() ==> c1[i] == c[i + 1]);
        lemma_spec_apply_all_nochange(s1, c1);
        assert(seq![s[0]] + s1 =~= s);
    } else if s[0].0.key() < c[0].0.key() {
        let s1 = s.drop_first();
        lemma_spec_apply_all_nochange(s1, c);
        assert(seq![s[0]] + s1 =~= s);
    } else {
        let c1 = c.drop_first();
        assert(forall|i: int| 0 <= i < c1.len() ==> c1[i] == c[i + 1]);
        lemma_spec_apply_all_nochange(s, c1);
    }
}

/// No entry of the change stream is a no-change.  Change vectors built by
/// the system engines have this shape: no-changes are dropped before they
/// are staged.
pub open spec fn no_change_free<E: Entity, T>(c: Seq<(E, ComponentChange<T>)>) -> bool {
    forall|i: int| 0 <= i < c.len() ==> !(#[trigger] c[i].1 is NoChange)
}

/// The one-pass merge of two sorted change streams, the second winning where
/// both carry one entity.
pub open spec fn merge_changes<E: Entity, T>(
    a: Seq<(E, ComponentChange<T>)>,
    b: Seq<(E, ComponentChange<T>)>,
) -> Seq<(E, ComponentChange<T>)>
    decreases a.len() + b.len(),
{
    if a.len() == 0 {
        b
    } else if b.len() == 0 {
        a
    } else if a[0].0.key() < b[0].0.key() {
        seq![a[0]] + merge_changes(a.drop_first(), b)
    } else if a[0].0.key() > b[0].0.key() {
        seq![b[0]] + merge_changes(a, b.drop_first())
    } else {
        seq![b[0]] + merge_changes(a.drop_first(), b.drop_first())
    }
}

/// The tail of a sorted pair sequence: sorted, shifted element by element,
/// and everywhere above the head.
pub proof fn lemma_tail_facts<E: Entity, X>(s: Seq<(E, X)>)
    requires
        s.len() > 0,
        pairs_sorted(s),
    ensures
        pairs_sorted(s.drop_first()),
        forall|i: int| 0 <= i < s.drop_first().len() ==> s.drop_first()[i] == s[i + 1],
        forall|i: int|
            0 <= i < s.drop_first().len() ==> s.drop_first()[i].0.key() > s[0].0.key(),
{
    let t = s.drop_first();
    assert(forall|i: int| 0 <= i < t.len() ==> t[i] == s[i + 1]);
    assert forall|i: int, j: int| 0 <= i < j < t.len() implies t[i].0.key() < t[j].0.key() by {
        assert(t[i] == s[i + 1] && t[j] == s[j + 1]);
    }
    assert forall|i: int| 0 <= i < t.len() implies t[i].0.key() > s[0].0.key() by {
        assert(t[i] == s[i + 1]);
    }
}

/// Change-merge composition: applying two sorted change streams in turn
/// equals applying their one-pass merge, the second stream winning where
/// both carry one entity.  This holds of change vectors free of no-changes,
/// which is the shape the system engines produce.
pub proof fn lemma_spec_apply_compose<E: Entity, T>(
    s: Seq<(E, T)>,
    a: Seq<(E, ComponentChange<T>)>,
    b: Seq<(E, ComponentChange<T>)>,
)
    requires
        pairs_sorted(s),
        pairs_sorted(a),
        pairs_sorted(b),
        no_change_free(a),
        no_change_free(b),
    ensures
        spec_apply(spec_apply(s, a), b) == spec_apply(s, merge_changes(a, b)),
    decreases s.len() + a.len() + b.len(),
{
    if b.len() == 0 {
        if a.len() == 0 {
            assert(a =~= b);
        }
        assert(merge_changes(a, b) == a);
    } else if a.len() == 0 {
        assert(merge_changes(a, b) == b);
        assert(spec_apply(s, a) == s);
    } else {
        let ka = a[0].0.key();
        let kb = b[0].0.key();
        let at = a.drop_first();
        let bt = b.drop_first();
        lemma_tail_facts(a);
        lemma_tail_facts(b);
        if ka < kb {
            let m = merge_changes(a, b);
            assert(m == seq![a[0]] + merge_changes(at, b));
            assert(m[0] == a[0]);
            assert(m.drop_first() =~= merge_changes(at, b));
            if s.len() == 0 || s[0].0.key() > ka {
                match a[0].1 {
                    ComponentChange::NoChange => {
                        assert(false);
                    },
                    ComponentChange::Unbind => {
                        lemma_spec_apply_compose(s, at, b);
                    },
                    ComponentChange::Value(v) => {
                        let x = (a[0].0, v);
                        lemma_spec_apply_compose(s, at, b);
                        lemma_spec_apply_uncons(x, spec_apply(s, at), b);
                    },
                }
            } else if s[0].0.key() == ka {
                lemma_tail_facts(s);
                let st = s.drop_first();
                match a[0].1 {
                    ComponentChange::NoChange => {
                        assert(false);
                    },
                    ComponentChange::Unbind => {
                        lemma_spec_apply_compose(st, at, b);
                    },
                    ComponentChange::Value(v) => {
                        let x = (s[0].0, v);
                        lemma_spec_apply_compose(st, at, b);
                        lemma_spec_apply_uncons(x, spec_apply(st, at), b);
                    },
                }
            } else {
                lemma_tail_facts(s);
                let st = s.drop_first();
                lemma_spec_apply_compose(st, a, b);
                lemma_spec_apply_uncons(s[0], spec_apply(st, a), b);
                assert(spec_apply(s, a) == seq![s[0]] + spec_apply(st, a));
                assert(spec_apply(s, m) == seq![s[0]] + spec_apply(st, m));
            }
        } else if ka > kb {
            let m = merge_changes(a, b);
            assert(m == seq![b[0]] + merge_changes(a, bt));
            assert(m[0] == b[0]);
            assert(m.drop_first() =~= merge_changes(a, bt));
            let y = spec_apply(s, a);
            if s.len() == 0 || s[0].0.key() > kb {
                assert forall|i: int| 0 <= i < s.len() implies s[i].0.key() > kb by {
                    if i > 0 {
                        assert(s[0].0.key() < s[i].0.key());
                    }
                }
                assert forall|i: int| 0 <= i < a.len() implies a[i].0.key() > kb by {
                    if i > 0 {
                        assert(a[0].0.key() < a[i].0.key());
                    }
                }
                lemma_spec_apply_sorted_above(s, a, kb);
                lemma_spec_apply_compose(s, a, bt);
                match b[0].1 {
                    ComponentChange::NoChange => {
                        assert(false);
                    },
                    ComponentChange::Unbind => {
                        if y.len() == 0 {
                            assert(spec_apply(y, b) == spec_apply(y, bt));
                        } else {
                            assert(y[0].0.key() > kb);
                            assert(spec_apply(y, b) == spec_apply(y, bt));
                        }
                    },
                    ComponentChange::Value(w) => {
                        if y.len() == 0 {
                            assert(spec_apply(y, b) == seq![(b[0].0, w)] + spec_apply(y, bt));
                        } else {
                            assert(y[0].0.key() > kb);
                            assert(spec_apply(y, b) == seq![(b[0].0, w)] + spec_apply(y, bt));
                        }
                    },
                }
            } else if s[0].0.key() == kb {
                lemma_tail_facts(s);
                let st = s.drop_first();
                assert(y == seq![s[0]] + spec_apply(st, a));
                assert(y[0] == s[0]);
                assert(y.drop_first() =~= spec_apply(st, a));
                lemma_spec_apply_compose(st, a, bt);
            } else {
                lemma_tail_facts(s);
                let st = s.drop_first();
                assert(y == seq![s[0]] + spec_apply(st, a));
                lemma_spec_apply_compose(st, a, b);
                lemma_spec_apply_uncons(s[0], spec_apply(st, a), b);
                assert(spec_apply(s, m) == seq![s[0]] + spec_apply(st, m));
            }
        } else {
            // equal head keys: the second stream's entry wins
            let m = merge_changes(a, b);
            assert(m == seq![b[0]] + merge_changes(at, bt));
            assert(m[0] == b[0]);
            assert(m.drop_first() =~= merge_changes(at, bt));
            if s.len() == 0 || s[0].0.key() > ka {
                assert forall|i: int| 0 <= i < s.len() implies s[i].0.key() > ka by {
                    if i > 0 {
                        assert(s[0].0.key() < s[i].0.key());
                    }
                }
                match a[0].1 {
                    ComponentChange::NoChange => {
                        assert(false);
                    },
                    ComponentChange::Unbind => {
                        let y = spec_apply(s, at);
                        lemma_spec_apply_sorted_above(s, at, ka);
                        lemma_spec_apply_compose(s, at, bt);
                        match b[0].1 {
                            ComponentChange::NoChange => {
                                assert(false);
                            },
                            ComponentChange::Unbind => {
                                if y.len() > 0 {
                                    assert(y[0].0.key() > kb);
                                }
                                assert(spec_apply(y, b) == spec_apply(y, bt));
                            },
                            ComponentChange::Value(w) => {
                                if y.len() > 0 {
                                    assert(y[0].0.key() > kb);
                                }
                                assert(spec_apply(y, b) == seq![(b[0].0, w)] + spec_apply(
                                    y,
                                    bt,
                                ));
                            },
                        }
                    },
                    ComponentChange::Value(v) => {
                        let x = (a[0].0, v);
                        let y0 = spec_apply(s, at);
                        let y = seq![x] + y0;
                        assert(spec_apply(s, a) == y);
                        assert(y[0] == x);
                        assert(y.drop_first() =~= y0);
                        lemma_spec_apply_compose(s, at, bt);
                        match b[0].1 {
                            ComponentChange::NoChange => {
                                assert(false);
                            },
                            ComponentChange::Unbind => {
                                assert(spec_apply(y, b) == spec_apply(y0, bt));
                            },
                            ComponentChange::Value(w) => {
                                a[0].0.lemma_key_injective(b[0].0);
                                assert(spec_apply(y, b) == seq![(x.0, w)] + spec_apply(
                                    y0,
                                    bt,
                                ));
                            },
                        }
                    },
                }
            } else if s[0].0.key() == ka {
                lemma_tail_facts(s);
                let st = s.drop_first();
                match a[0].1 {
                    ComponentChange::NoChange => {
                        assert(false);
                    },
                    ComponentChange::Unbind => {
                        let y = spec_apply(st, at);
                        assert(spec_apply(s, a) == y);
                        lemma_spec_apply_sorted_above(st, at, ka);
                        lemma_spec_apply_compose(st, at, bt);
                        match b[0].1 {
                            ComponentChange::NoChange => {
                                assert(false);
                            },
                            ComponentChange::Unbind => {
                                if y.len() > 0 {
                                    assert(y[0].0.key() > kb);
                                }
                                assert(spec_apply(y, b) == spec_apply(y, bt));
                            },
                            ComponentChange::Value(w) => {
                                s[0].0.lemma_key_injective(b[0].0);
                                if y.len() > 0 {
                                    assert(y[0].0.key() > kb);
                                }
                                assert(spec_apply(y, b) == seq![(b[0].0, w)] + spec_apply(
                                    y,
                                    bt,
                                ));
                            },
                        }
                    },
                    ComponentChange::Value(v) => {
                        let x = (s[0].0, v);
                        let y0 = spec_apply(st, at);
                        let y = seq![x] + y0;
                        assert(spec_apply(s, a) == y);
                        assert(y[0] == x);
                        assert(y.drop_first() =~= y0);
                        lemma_spec_apply_compose(st, at, bt);
                        match b[0].1 {
                            ComponentChange::NoChange => {
                                assert(false);
                            },
                            ComponentChange::Unbind => {
                                assert(spec_apply(y, b) == spec_apply(y0, bt));
                            },
                            ComponentChange::Value(w) => {
                                assert(spec_apply(y, b) == seq![(x.0, w)] + spec_apply(
                                    y0,
                                    bt,
                                ));
                            },
                        }
                    },
                }
            } else {
                lemma_tail_facts(s);
                let st = s.drop_first();
                assert(spec_apply(s, a) == seq![s[0]] + spec_apply(st, a));
                lemma_spec_apply_compose(st, a, b);
                lemma_spec_apply_uncons(s[0], spec_apply(st, a), b);
                assert(spec_apply(s, m) == seq![s[0]] + spec_apply(st, m));
            }
        }
    }
}

/// Applying a change stream to an empty collection binds exactly its
/// value-bearing entries.
pub proof fn lemma_spec_apply_empty_collection<E: Entity, T>(c: Seq<(E, ComponentChange<T>)>)
    ensures
        spec_apply(Seq::<(E, T)>::empty(), c) == changes_to_pairs(c),
    decreases c.len(),
{
    if c.len() > 0 {
        lemma_spec_apply_empty_collection::<E, T>(c.drop_first());
    }
}

/// Applying changes introduces no key at or above a bound that lies above
/// every key of both streams.
pub proof fn lemma_spec_apply_keys_below<E: Entity, T>(
    s: Seq<(E, T)>,
    c: Seq<(E, ComponentChange<T>)>,
    hi: int,
)
    requires
        forall|i: int| 0 <= i < s.len() ==> s[i].0.key() < hi,
        forall|i: int| 0 <= i < c.len() ==> c[i].0.key() < hi,
    ensures
        forall|i: int| 0 <= i < spec_apply(s, c).len() ==> spec_apply(s, c)[i].0.key() < hi,
    decreases s.len() + c.len(),
{
    let r = spec_apply(s, c);
    if c.len() == 0 {
    } else if s.len() == 0 {
        let c1 = c.drop_first();
        assert(forall|i: int| 0 <= i < c1.len() ==> c1[i] == c[i + 1]);
        lemma_spec_apply_keys_below(s, c1, hi);
        let rest = spec_apply(s, c1);
        match c[0].1 {
            ComponentChange::Value(v) => {
                assert(forall|i: int|
                    0 <= i < r.len() ==> r[i] == (seq![(c[0].0, v)] + rest)[i]);
            },
            _ => {},
        }
    } else {
        let s1 = s.drop_first();
        let c1 = c.drop_first();
        assert(forall|i: int| 0 <= i < s1.len() ==> s1[i] == s[i + 1]);
        assert(forall|i: int| 0 <= i < c1.len() ==> c1[i] == c[i + 1]);
        if s[0].0.key() == c[0].0.key() {
            lemma_spec_apply_keys_below(s1, c1, hi);
            let rest = spec_apply(s1, c1);
            match c[0].1 {
                ComponentChange::NoChange => {
                    assert(forall|i: int|
                        0 <= i < r.len() ==> r[i] == (seq![s[0]] + rest)[i]);
                },
                ComponentChange::Unbind => {},
                ComponentChange::Value(v) => {
                    assert(forall|i: int|
                        0 <= i < r.len() ==> r[i] == (seq![(s[0].0, v)] + rest)[i]);
                },
            }
        } else if s[0].0.key() < c[0].0.key() {
            lemma_spec_apply_keys_below(s1, c, hi);
            let rest = spec_apply(s1, c);
            assert(forall|i: int| 0 <= i < r.len() ==> r[i] == (seq![s[0]] + rest)[i]);
        } else {
            lemma_spec_apply_keys_below(s, c1, hi);
            let rest = spec_apply(s, c1);
            match c[0].1 {
                ComponentChange::Value(v) => {
                    assert(forall|i: int|
                        0 <= i < r.len() ==> r[i] == (seq![(c[0].0, v)] + rest)[i]);
                },
                _ => {},
            }
        }
    }
}

/// ComponentCollection holds a set of components in ascending entity order.
/// The model of a collection is `model()`, its `(entity, component)` pairs in
/// storage order; a well-formed collection keeps them strictly sorted by
/// entity key, so entities are unique within the collection.
pub trait ComponentCollection<E: Entity, T>: Sized {
    /// The `(entity, component)` pairs of the collection, in storage order.
    spec fn model(&self) -> Seq<(E, T)>;

    /// The collection's internal invariant.
    spec fn wf(&self) -> bool;

    /// A well-formed collection holds its pairs in strictly ascending entity
    /// key order.
    proof fn lemma_wf_sorted(&self)
        requires
            self.wf(),
        ensures
            pairs_sorted(self.model()),
    ;

    /// An empty collection.
    fn new_empty() -> (r: Self)
        ensures
            r.wf(),
            r.model() == Seq::<(E, T)>::empty(),
    ;

    /// Construction copies an externally sorted sequence of pairs; ordering
    /// is the caller's responsibility.
    fn from_pairs(pairs: Vec<(E, T)>) -> (r: Self)
        requires
            pairs_sorted(pairs@),
        ensures
            r.wf(),
            r.model() == pairs@,
    ;

    /// Construction from a sorted change stream keeps its value-bearing
    /// entries and drops the rest.
    fn from_changes(changes: Vec<(E, ComponentChange<T>)>) -> (r: Self)
        requires
            pairs_sorted(changes@),
        ensures
            r.wf(),
            r.model() == changes_to_pairs(changes@),
    ;

    /// Is the collection empty?
    fn is_empty(&self) -> (r: bool)
        requires
            self.wf(),
        ensures
            r == (self.model().len() == 0),
    ;

    /// How many components are in the collection?
    fn len(&self) -> (r: usize)
        requires
            self.wf(),
        ensures
            r == self.model().len(),
    ;

    /// The first entity of the collection at or above `lower_bound`, absent
    /// when every entity lies below it.
    fn lower_bound(&self, lower_bound: E) -> (r: Option<E>)
        requires
            self.wf(),
        ensures
            r is Some <==> exists|j: int|
                0 <= j < self.model().len() && self.model()[j].0.key() >= lower_bound.key(),
            r is Some ==> r->Some_0 == self.model()[pair_count_lt(
                self.model(),
                lower_bound,
            )].0,
    ;

    /// Consume the collection, yielding its pairs in entity order.
    fn consume(self) -> (r: Vec<(E, T)>)
        requires
            self.wf(),
        ensures
            r@ == self.model(),
    ;
}

/// Reference a component: a short-lived handle on one entity's component
/// inside a collection, valid for a single system step.  Its model is the
/// value seen through it (`current`), whether an update has gone through it
/// (`touched`), and whether it was marked for removal (`unbound`).
pub trait ComponentRef<T>: Sized {
    /// Which component of its collection the ref refers to.  Operations on
    /// the ref never change it.
    spec fn slot(&self) -> int;

    /// The component value as seen through the ref.
    spec fn current(&self) -> T;

    /// Whether an update has been made through the ref.
    spec fn touched(&self) -> bool;

    /// Whether the ref was marked unbound.
    spec fn unbound(&self) -> bool;

    /// Read the component value.
    fn read(&self) -> (r: &T)
        ensures
            *r == self.current(),
    ;

    /// Unbind the component from its entity, assuming the change generated
    /// from this ref is passed back to the collection's `apply`.
    fn unbind(&mut self)
        ensures
            final(self).unbound(),
            final(self).touched() == old(self).touched(),
            final(self).current() == old(self).current(),
            final(self).slot() == old(self).slot(),
    ;

    /// Update the value seen through the ref.
    fn update(&mut self, v: T)
        ensures
            final(self).touched(),
            final(self).current() == v,
            final(self).unbound() == old(self).unbound(),
            final(self).slot() == old(self).slot(),
    ;
}

/// The pairs of equal-length entity and component sequences, index by index.
pub open spec fn zip_model<E: Entity, T>(ents: Seq<E>, comps: Seq<T>) -> Seq<(E, T)> {
    Seq::new(ents.len(), |i: int| (ents[i], comps[i]))
}

/// Counting pairs below `e` and counting their entities below `e` agree.
pub proof fn lemma_pair_count_matches<E: Entity, T>(pairs: Seq<(E, T)>, ents: Seq<E>, e: E)
    requires
        pairs.len() == ents.len(),
        forall|i: int| 0 <= i < pairs.len() ==> pairs[i].0 == ents[i],
    ensures
        pair_count_lt(pairs, e) == crate::entity::count_lt(ents, e),
    decreases pairs.len(),
{
    if pairs.len() > 0 {
        lemma_pair_count_matches(pairs.drop_last(), ents.drop_last(), e);
    }
}

/// Two pair sequences with the same entities, pair for pair, count the same
/// number of pairs below any entity.
pub proof fn lemma_pair_count_same_keys<E: Entity, X, Y>(a: Seq<(E, X)>, b: Seq<(E, Y)>, e: E)
    requires
        a.len() == b.len(),
        forall|i: int| 0 <= i < a.len() ==> a[i].0 == b[i].0,
    ensures
        pair_count_lt(a, e) == pair_count_lt(b, e),
    decreases a.len(),
{
    if a.len() > 0 {
        lemma_pair_count_same_keys(a.drop_last(), b.drop_last(), e);
    }
}

/// The value-bearing entries of a sorted change stream are sorted, above any
/// bound below every key of the stream.
pub proof fn lemma_changes_to_pairs_sorted_above<E: Entity, T>(
    c: Seq<(E, ComponentChange<T>)>,
    lo: int,
)
    requires
        pairs_sorted(c),
        forall|i: int| 0 <= i < c.len() ==> c[i].0.key() > lo,
    ensures
        pairs_sorted(changes_to_pairs(c)),
        forall|i: int|
            0 <= i < changes_to_pairs(c).len() ==> changes_to_pairs(c)[i].0.key() > lo,
    decreases c.len(),
{
    if c.len() > 0 {
        let c1 = c.drop_first();
        assert(forall|i: int| 0 <= i < c1.len() ==> c1[i] == c[i + 1]);
        lemma_changes_to_pairs_sorted_above(c1, c[0].0.key());
        let rest = changes_to_pairs(c1);
        match c[0].1 {
            ComponentChange::Value(v) => {
                lemma_sorted_cons((c[0].0, v), rest);
            },
            _ => {
                lemma_changes_to_pairs_sorted_above(c1, lo);
            },
        }
    }
}

/// The value-bearing entries of a sorted change stream are sorted.
pub proof fn lemma_changes_to_pairs_sorted<E: Entity, T>(c: Seq<(E, ComponentChange<T>)>)
    requires
        pairs_sorted(c),
    ensures
        pairs_sorted(changes_to_pairs(c)),
{
    lemma_pair_keys_nonneg(c);
    lemma_changes_to_pairs_sorted_above(c, -1);
}

/// The value-bearing entries of a change stream, as pairs, in order.
pub fn changes_values<E: Entity, T>(changes: Vec<(E, ComponentChange<T>)>) -> (r: Vec<(E, T)>)
    ensures
        r@ == changes_to_pairs(changes@),
{
    let ghost c0 = changes@;
    let mut stack = reversed(changes);
    let mut out: Vec<(E, T)> = Vec::new();
    proof {
        assert(c0.skip(0) =~= c0);
    }
    while stack.len() > 0
        invariant
            stack@.len() <= c0.len(),
            forall|k: int| 0 <= k < stack@.len() ==> stack@[k] == c0[c0.len() - 1 - k],
            out@ + changes_to_pairs(c0.skip(c0.len() - stack@.len())) == changes_to_pairs(c0),
        decreases stack.len(),
    {
        let ghost ci = c0.len() - stack@.len();
        let ghost crem = c0.skip(ci);
        let ghost out0 = out@;
        proof {
            assert(stack@[stack@.len() - 1] == c0[ci]);
            assert(crem[0] == c0[ci]);
            assert(crem.drop_first() =~= c0.skip(ci + 1));
        }
        let (e, ch) = stack.pop().unwrap();
        match ch {
            ComponentChange::Value(v) => {
                out.push((e, v));
                proof {
                    assert(changes_to_pairs(crem) == seq![(e, v)] + changes_to_pairs(
                        c0.skip(ci + 1),
                    ));
                    assert(out@ =~= out0 + seq![(e, v)]);
                    assert(out@ + changes_to_pairs(c0.skip(ci + 1)) =~= out0 + changes_to_pairs(
                        crem,
                    ));
                }
            },
            _ => {
                proof {
                    assert(changes_to_pairs(crem) == changes_to_pairs(c0.skip(ci + 1)));
                }
            },
        }
    }
    proof {
        assert(c0.skip(c0.len() as int).len() == 0);
        assert(out@ =~= changes_to_pairs(c0));
    }
    out
}

/// The input vector in reverse order, so that popping walks the original
/// front to back.
pub(crate) fn reversed<A>(v: Vec<A>) -> (r: Vec<A>)
    ensures
        r@.len() == v@.len(),
        forall|k: int| 0 <= k < r@.len() ==> r@[k] == v@[v@.len() - 1 - k],
{
    let ghost v0 = v@;
    let mut v = v;
    let mut r: Vec<A> = Vec::new();
    proof {
        assert(v0.take(v0.len() as int) =~= v0);
    }
    while v.len() > 0
        invariant
            v@.len() <= v0.len(),
            v@ == v0.take(v@.len() as int),
            r@.len() == v0.len() - v@.len(),
            forall|k: int| 0 <= k < r@.len() ==> r@[k] == v0[v0.len() - 1 - k],
        decreases v.len(),
    {
        let ghost n = v@.len() as int;
        let x = v.pop().unwrap();
        proof {
            assert(x == v0.take(n)[n - 1]);
            assert(v@ =~= v0.take(n - 1));
        }
        r.push(x);
    }
    r
}

/// Apply the changes to the collection: a streaming merge of the
/// collection's sorted contents with the sorted change stream, rebuilding the
/// collection.  Passing a change vector not sorted by entity is refused.
pub fn apply_component_changes<E: Entity, T, C: ComponentCollection<E, T>>(
    collection: C,
    changes: Vec<(E, ComponentChange<T>)>,
) -> (r: C)
    requires
        collection.wf(),
        pairs_sorted(changes@),
    ensures
        r.wf(),
        r.model() == spec_apply(collection.model(), changes@),
{
    let ghost s0 = collection.model();
    let ghost c0 = changes@;
    if changes.len() == 0 {
        return collection;
    }
    proof {
        collection.lemma_wf_sorted();
    }
    let pairs = collection.consume();
    let mut stack_s = reversed(pairs);
    let mut stack_c = reversed(changes);
    let mut collected: Vec<(E, T)> = Vec::new();
    proof {
        assert(s0.skip(0) =~= s0);
        assert(c0.skip(0) =~= c0);
    }
    while stack_s.len() > 0 && stack_c.len() > 0
        invariant
            pairs_sorted(s0),
            pairs_sorted(c0),
            stack_s@.len() <= s0.len(),
            stack_c@.len() <= c0.len(),
            forall|k: int| 0 <= k < stack_s@.len() ==> stack_s@[k] == s0[s0.len() - 1 - k],
            forall|k: int| 0 <= k < stack_c@.len() ==> stack_c@[k] == c0[c0.len() - 1 - k],
            collected@ + spec_apply(
                s0.skip(s0.len() - stack_s@.len()),
                c0.skip(c0.len() - stack_c@.len()),
            ) == spec_apply(s0, c0),
        decreases stack_s.len() + stack_c.len(),
    {
        let ghost si = s0.len() - stack_s@.len();
        let ghost ci = c0.len() - stack_c@.len();
        let ghost srem = s0.skip(si);
        let ghost crem = c0.skip(ci);
        let ghost col0 = collected@;
        proof {
            assert(stack_s@[stack_s@.len() - 1] == s0[si]);
            assert(stack_c@[stack_c@.len() - 1] == c0[ci]);
            assert(srem[0] == s0[si]);
            assert(crem[0] == c0[ci]);
            assert(srem.drop_first() =~= s0.skip(si + 1));
            assert(crem.drop_first() =~= c0.skip(ci + 1));
        }
        let se: E = stack_s[stack_s.len() - 1].0;
        let ce: E = stack_c[stack_c.len() - 1].0;
        if se.same(ce) {
            let (es, ts) = stack_s.pop().unwrap();
            let (ec, ch) = stack_c.pop().unwrap();
            match ch {
                ComponentChange::NoChange => {
                    collected.push((es, ts));
                    proof {
                        assert(spec_apply(srem, crem) == seq![(es, ts)] + spec_apply(
                            s0.skip(si + 1),
                            c0.skip(ci + 1),
                        ));
                        assert(collected@ =~= col0 + seq![(es, ts)]);
                        assert(collected@ + spec_apply(s0.skip(si + 1), c0.skip(ci + 1)) =~= col0
                            + spec_apply(srem, crem));
                    }
                },
                ComponentChange::Unbind => {
                    proof {
                        assert(spec_apply(srem, crem) == spec_apply(
                            s0.skip(si + 1),
                            c0.skip(ci + 1),
                        ));
                    }
                },
                ComponentChange::Value(v) => {
                    collected.push((es, v));
                    proof {
                        assert(spec_apply(srem, crem) == seq![(es, v)] + spec_apply(
                            s0.skip(si + 1),
                            c0.skip(ci + 1),
                        ));
                        assert(collected@ =~= col0 + seq![(es, v)]);
                        assert(collected@ + spec_apply(s0.skip(si + 1), c0.skip(ci + 1)) =~= col0
                            + spec_apply(srem, crem));
                    }
                },
            }
        } else if se.lt(ce) {
            let (es, ts) = stack_s.pop().unwrap();
            collected.push((es, ts));
            proof {
                assert(spec_apply(srem, crem) == seq![(es, ts)] + spec_apply(
                    s0.skip(si + 1),
                    crem,
                ));
                assert(collected@ =~= col0 + seq![(es, ts)]);
                assert(collected@ + spec_apply(s0.skip(si + 1), crem) =~= col0 + spec_apply(
                    srem,
                    crem,
                ));
            }
        } else {
            let (ec, ch) = stack_c.pop().unwrap();
            match ch {
                ComponentChange::Value(v) => {
                    collected.push((ec, v));
                    proof {
                        assert(spec_apply(srem, crem) == seq![(ec, v)] + spec_apply(
                            srem,
                            c0.skip(ci + 1),
                        ));
                        assert(collected@ =~= col0 + seq![(ec, v)]);
                        assert(collected@ + spec_apply(srem, c0.skip(ci + 1)) =~= col0
                            + spec_apply(srem, crem));
                    }
                },
                _ => {
                    proof {
                        assert(spec_apply(srem, crem) == spec_apply(srem, c0.skip(ci + 1)));
                    }
                },
            }
        }
    }
    while stack_s.len() > 0
        invariant
            pairs_sorted(s0),
            pairs_sorted(c0),
            stack_s@.len() <= s0.len(),
            stack_c@.len() <= c0.len(),
            forall|k: int| 0 <= k < stack_s@.len() ==> stack_s@[k] == s0[s0.len() - 1 - k],
            forall|k: int| 0 <= k < stack_c@.len() ==> stack_c@[k] == c0[c0.len() - 1 - k],
            collected@ + spec_apply(
                s0.skip(s0.len() - stack_s@.len()),
                c0.skip(c0.len() - stack_c@.len()),
            ) == spec_apply(s0, c0),
            stack_s@.len() > 0 ==> stack_c@.len() == 0,
        decreases stack_s.len(),
    {
        let ghost si = s0.len() - stack_s@.len();
        let ghost srem = s0.skip(si);
        let ghost col0 = collected@;
        proof {
            assert(c0.skip(c0.len() - stack_c@.len()).len() == 0);
            assert(stack_s@[stack_s@.len() - 1] == s0[si]);
            assert(srem[0] == s0[si]);
        }
        let (es, ts) = stack_s.pop().unwrap();
        collected.push((es, ts));
        proof {
            assert(srem =~= seq![(es, ts)] + s0.skip(si + 1));
            assert(collected@ =~= col0 + seq![(es, ts)]);
            assert(collected@ + s0.skip(si + 1) =~= col0 + srem);
            assert(spec_apply(srem, c0.skip(c0.len() - stack_c@.len())) == srem);
            assert(spec_apply(s0.skip(si + 1), c0.skip(c0.len() - stack_c@.len())) == s0.skip(
                si + 1,
            ));
        }
    }
    while stack_c.len() > 0
        invariant
            pairs_sorted(s0),
            pairs_sorted(c0),
            stack_s@.len() == 0,
            stack_c@.len() <= c0.len(),
            forall|k: int| 0 <= k < stack_c@.len() ==> stack_c@[k] == c0[c0.len() - 1 - k],
            collected@ + spec_apply(
                s0.skip(s0.len() as int),
                c0.skip(c0.len() - stack_c@.len()),
            ) == spec_apply(s0, c0),
        decreases stack_c.len(),
    {
        let ghost ci = c0.len() - stack_c@.len();
        let ghost crem = c0.skip(ci);
        let ghost sempty = s0.skip(s0.len() as int);
        let ghost col0 = collected@;
        proof {
            assert(sempty.len() == 0);
            assert(stack_c@[stack_c@.len() - 1] == c0[ci]);
            assert(crem[0] == c0[ci]);
            assert(crem.drop_first() =~= c0.skip(ci + 1));
        }
        let (ec, ch) = stack_c.pop().unwrap();
        match ch {
            ComponentChange::Value(v) => {
                collected.push((ec, v));
                proof {
                    assert(spec_apply(sempty, crem) == seq![(ec, v)] + spec_apply(
                        sempty,
                        c0.skip(ci + 1),
                    ));
                    assert(collected@ =~= col0 + seq![(ec, v)]);
                    assert(collected@ + spec_apply(sempty, c0.skip(ci + 1)) =~= col0 + spec_apply(
                        sempty,
                        crem,
                    ));
                }
            },
            _ => {
                proof {
                    assert(spec_apply(sempty, crem) == spec_apply(sempty, c0.skip(ci + 1)));
                }
            },
        }
    }
    proof {
        assert(s0.skip(s0.len() as int).len() == 0);
        assert(c0.skip(c0.len() as int).len() == 0);
        assert(collected@ =~= spec_apply(s0, c0));
        lemma_spec_apply_sorted(s0, c0);
    }
    C::from_pairs(collected)
}

} // verus!
