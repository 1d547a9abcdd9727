//! The ordering vocabulary of the list: when one value precedes another,
//! what a sorted sequence is, and the sequence that a merge produces.
use core::cmp::Ordering;
use vstd::laws_cmp::obeys_partial_cmp_spec_properties;
use vstd::prelude::*;
use vstd::std_specs::cmp::PartialOrdSpec;

verus! {

/// `x` compares strictly below `y`: the only outcome of the comparison that
/// makes a merge take from its first input.
pub open spec fn precedes<T: PartialOrd>(x: T, y: T) -> bool {
    x.partial_cmp_spec(&y) == Some(Ordering::Less)
}

/// Non-decreasing: no element compares strictly below the one before it.
pub open spec fn sorted<T: PartialOrd>(s: Seq<T>) -> bool {
    forall|i: int, j: int|
        #![trigger s[i], s[j]]
        0 <= i && j == i + 1 && j < s.len() ==> !precedes(s[j], s[i])
}

/// The two-pointer merge of `a` and `b`: while both are non-empty the smaller
/// head is taken, and on a tie (the head of `a` not strictly below the head
/// of `b`) the head of `b` goes first; what remains of either is appended.
pub open spec fn merged<T: PartialOrd>(a: Seq<T>, b: Seq<T>) -> Seq<T>
    decreases a.len() + b.len(),
{
    if a.len() == 0 {
        b
    } else if b.len() == 0 {
        a
    } else if precedes(a[0], b[0]) {
        seq![a[0]] + merged(a.drop_first(), b)
    } else {
        seq![b[0]] + merged(a, b.drop_first())
    }
}

/// A merge holds exactly as many elements as its two inputs together.
pub proof fn lemma_merged_len<T: PartialOrd>(a: Seq<T>, b: Seq<T>)
    ensures
        merged(a, b).len() == a.len() + b.len(),
    decreases a.len() + b.len(),
{
    if a.len() > 0 && b.len() > 0 {
        if precedes(a[0], b[0]) {
            lemma_merged_len(a.drop_first(), b);
        } else {
            lemma_merged_len(a, b.drop_first());
        }
    }
}

/// A merge neither loses nor invents values: its multiset is the sum of the
/// multisets of its inputs.
pub proof fn lemma_merged_multiset<T: PartialOrd>(a: Seq<T>, b: Seq<T>)
    ensures
        merged(a, b).to_multiset() =~= a.to_multiset().add(b.to_multiset()),
    decreases a.len() + b.len(),
{
    broadcast use vstd::seq_lib::lemma_multiset_commutative;
    broadcast use vstd::multiset::group_multiset_axioms;

    if a.len() == 0 {
        assert(a + b =~= b);
    } else if b.len() == 0 {
        assert(a + b =~= a);
    } else if precedes(a[0], b[0]) {
        lemma_merged_multiset(a.drop_first(), b);
        assert(a =~= seq![a[0]] + a.drop_first());
    } else {
        lemma_merged_multiset(a, b.drop_first());
        assert(b =~= seq![b[0]] + b.drop_first());
    }
}

/// Merging with an empty sequence, on either side, gives the other one
/// back unchanged.
pub proof fn lemma_merged_empty<T: PartialOrd>(a: Seq<T>, b: Seq<T>)
    ensures
        merged(Seq::empty(), b) == b,
        merged(a, Seq::empty()) == a,
{
}

/// The first element of a non-empty merge is the head that the merge took.
proof fn lemma_merged_head<T: PartialOrd>(a: Seq<T>, b: Seq<T>)
    requires
        a.len() + b.len() > 0,
    ensures
        merged(a, b).len() > 0,
        merged(a, b)[0] == (if a.len() == 0 {
            b[0]
        } else if b.len() == 0 {
            a[0]
        } else if precedes(a[0], b[0]) {
            a[0]
        } else {
            b[0]
        }),
{
    lemma_merged_len(a, b);
}

/// Where the comparison of `T` is consistent (as vstd's laws for `PartialOrd`
/// state it), merging two sorted sequences gives a sorted sequence.
pub proof fn lemma_merged_sorted<T: PartialOrd>(a: Seq<T>, b: Seq<T>)
    requires
        obeys_partial_cmp_spec_properties::<T>(),
        sorted(a),
        sorted(b),
    ensures
        sorted(merged(a, b)),
    decreases a.len() + b.len(),
{
    if a.len() > 0 && b.len() > 0 {
        let m = merged(a, b);
        if precedes(a[0], b[0]) {
            let rest = a.drop_first();
            assert(sorted(rest)) by {
                assert forall|i: int, j: int|
                    0 <= i && j == i + 1 && j < rest.len() implies !precedes(
                        #[trigger] rest[j],
                        #[trigger] rest[i],
                    ) by {
                    assert(rest[i] == a[i + 1] && rest[j] == a[j + 1]);
                }
            }
            lemma_merged_sorted(rest, b);
            lemma_merged_head(rest, b);
            let tail = merged(rest, b);
            assert(m == seq![a[0]] + tail);
            if tail[0] == b[0] {
                lemma_precedes_asymmetric(a[0], b[0]);
            } else {
                assert(tail[0] == a[1]);
            }
            assert forall|i: int, j: int|
                0 <= i && j == i + 1 && j < m.len() implies !precedes(
                    #[trigger] m[j],
                    #[trigger] m[i],
                ) by {
                if i > 0 {
                    assert(m[i] == tail[i - 1] && m[j] == tail[j - 1]);
                }
            }
        } else {
            let rest = b.drop_first();
            assert(sorted(rest)) by {
                assert forall|i: int, j: int|
                    0 <= i && j == i + 1 && j < rest.len() implies !precedes(
                        #[trigger] rest[j],
                        #[trigger] rest[i],
                    ) by {
                    assert(rest[i] == b[i + 1] && rest[j] == b[j + 1]);
                }
            }
            lemma_merged_sorted(a, rest);
            lemma_merged_head(a, rest);
            let tail = merged(a, rest);
            assert(m == seq![b[0]] + tail);
            if tail[0] != a[0] {
                assert(tail[0] == b[1]);
            }
            assert forall|i: int, j: int|
                0 <= i && j == i + 1 && j < m.len() implies !precedes(
                    #[trigger] m[j],
                    #[trigger] m[i],
                ) by {
                if i > 0 {
                    assert(m[i] == tail[i - 1] && m[j] == tail[j - 1]);
                }
            }
        }
    }
}

/// Under vstd's consistency laws for `PartialOrd`, two values never precede
/// each other.
proof fn lemma_precedes_asymmetric<T: PartialOrd>(x: T, y: T)
    requires
        obeys_partial_cmp_spec_properties::<T>(),
        precedes(x, y),
    ensures
        !precedes(y, x),
{
    reveal(obeys_partial_cmp_spec_properties);
    assert(y.partial_cmp_spec(&x) == Some(Ordering::Greater));
}

/// Ties go to the second input: every leading element of `b` that the head
/// of `a` does not strictly precede is placed before that head, in `b`'s
/// order, and the merge then carries on from the rest of `b`.
pub proof fn lemma_merged_ties_second_first<T: PartialOrd>(a: Seq<T>, b: Seq<T>, k: int)
    requires
        a.len() > 0,
        0 <= k <= b.len(),
        forall|j: int| 0 <= j < k ==> !precedes(a[0], #[trigger] b[j]),
    ensures
        merged(a, b) == b.take(k) + merged(a, b.skip(k)),
    decreases k,
{
    if k == 0 {
        assert(b.skip(0) =~= b);
        assert(b.take(0) + merged(a, b) =~= merged(a, b));
    } else {
        let rest = b.drop_first();
        assert(rest.len() == b.len() - 1);
        assert forall|j: int| 0 <= j < k - 1 implies !precedes(a[0], #[trigger] rest[j]) by {
            assert(rest[j] == b[j + 1]);
        }
        lemma_merged_ties_second_first(a, rest, k - 1);
        assert(rest.skip(k - 1) =~= b.skip(k));
        assert(b.take(k) =~= seq![b[0]] + rest.take(k - 1));
        assert(merged(a, b) == seq![b[0]] + merged(a, rest));
        assert(b.take(k) + merged(a, b.skip(k)) =~= seq![b[0]] + (rest.take(k - 1) + merged(
            a,
            rest.skip(k - 1),
        )));
    }
}

/// The interleaving of `a` and `b` that `picks` chooses, read from the back:
/// the last pick says whether the last element comes from the end of `a`
/// (`true`) or of `b` (`false`). Once one side is used up the rest of the
/// other follows. Each of `a` and `b` keeps its own order in the result.
pub open spec fn interleave<T>(a: Seq<T>, b: Seq<T>, picks: Seq<bool>) -> Seq<T>
    decreases a.len() + b.len(),
{
    if a.len() == 0 {
        b
    } else if b.len() == 0 {
        a
    } else if picks.len() > 0 && picks.last() {
        interleave(a.drop_last(), b, picks.drop_last()).push(a.last())
    } else {
        interleave(a, b.drop_last(), picks.drop_last()).push(b.last())
    }
}

/// Picking one more element from `a` appends it to the interleaving.
pub proof fn lemma_interleave_push_first<T>(a: Seq<T>, b: Seq<T>, picks: Seq<bool>, x: T)
    ensures
        interleave(a.push(x), b, picks.push(true)) == interleave(a, b, picks).push(x),
{
    assert(a.push(x).drop_last() =~= a);
    assert(picks.push(true).drop_last() =~= picks);
    if a.len() == 0 && b.len() == 0 {
        assert(interleave(a, b, picks) =~= Seq::<T>::empty());
        assert(a.push(x) =~= Seq::<T>::empty().push(x));
    } else if b.len() == 0 {
        assert(interleave(a, b, picks) == a);
    }
}

/// Picking one more element from `b` appends it to the interleaving.
pub proof fn lemma_interleave_push_second<T>(a: Seq<T>, b: Seq<T>, picks: Seq<bool>, x: T)
    ensures
        interleave(a, b.push(x), picks.push(false)) == interleave(a, b, picks).push(x),
{
    assert(b.push(x).drop_last() =~= b);
    assert(picks.push(false).drop_last() =~= picks);
    if a.len() == 0 {
        assert(interleave(a, b, picks) == b);
    }
}

/// Once `b` is used up, the rest `c` of `a` follows the interleaving.
pub proof fn lemma_interleave_rest_first<T>(a: Seq<T>, b: Seq<T>, picks: Seq<bool>, c: Seq<T>)
    ensures
        interleave(a + c, b, picks + Seq::new(c.len(), |k: int| true)) == interleave(a, b, picks)
            + c,
    decreases c.len(),
{
    if c.len() == 0 {
        assert(a + c =~= a);
        assert(picks + Seq::new(c.len(), |k: int| true) =~= picks);
        assert(interleave(a, b, picks) + c =~= interleave(a, b, picks));
    } else {
        let c0 = c.drop_last();
        lemma_interleave_rest_first(a, b, picks, c0);
        lemma_interleave_push_first(a + c0, b, picks + Seq::new(c0.len(), |k: int| true), c.last());
        assert((a + c0).push(c.last()) =~= a + c);
        assert((picks + Seq::new(c0.len(), |k: int| true)).push(true) =~= picks + Seq::new(
            c.len(),
            |k: int| true,
        ));
        assert((interleave(a, b, picks) + c0).push(c.last()) =~= interleave(a, b, picks) + c);
    }
}

/// Once `a` is used up, the rest `c` of `b` follows the interleaving.
pub proof fn lemma_interleave_rest_second<T>(a: Seq<T>, b: Seq<T>, picks: Seq<bool>, c: Seq<T>)
    ensures
        interleave(a, b + c, picks + Seq::new(c.len(), |k: int| false)) == interleave(a, b, picks)
            + c,
    decreases c.len(),
{
    if c.len() == 0 {
        assert(b + c =~= b);
        assert(picks + Seq::new(c.len(), |k: int| false) =~= picks);
        assert(interleave(a, b, picks) + c =~= interleave(a, b, picks));
    } else {
        let c0 = c.drop_last();
        lemma_interleave_rest_second(a, b, picks, c0);
        lemma_interleave_push_second(a, b + c0, picks + Seq::new(c0.len(), |k: int| false), c.last());
        assert((b + c0).push(c.last()) =~= b + c);
        assert((picks + Seq::new(c0.len(), |k: int| false)).push(false) =~= picks + Seq::new(
            c.len(),
            |k: int| false,
        ));
        assert((interleave(a, b, picks) + c0).push(c.last()) =~= interleave(a, b, picks) + c);
    }
}

/// `precedes` is a strict weak order: never both ways, and `x` below `y`
/// puts any `z` above `x` or below `y`.
pub open spec fn strict_weak_order<T: PartialOrd>() -> bool {
    &&& forall|x: T, y: T| #[trigger] precedes(x, y) ==> !precedes(y, x)
    &&& forall|x: T, y: T, z: T|
        #[trigger] precedes(x, y) ==> #[trigger] precedes(x, z) || #[trigger] precedes(z, y)
}

/// Along `vo`, whose elements came from the first input where `picks` is
/// `true` and from the second where it is `false`, an element of the first
/// input is placed before one of the second only when strictly below it:
/// among equal keys, those of the second input come first.
pub open spec fn second_first_on_ties<T: PartialOrd>(vo: Seq<T>, picks: Seq<bool>) -> bool {
    forall|k1: int, k2: int|
        0 <= k1 < k2 < vo.len() && #[trigger] picks[k1] && !#[trigger] picks[k2] ==> precedes(
            vo[k1],
            vo[k2],
        )
}

/// Every element of the first input in `vo` is strictly below `vb[j]`, the
/// next element of the second input, if there is one.
pub open spec fn below_next<T: PartialOrd>(vo: Seq<T>, picks: Seq<bool>, vb: Seq<T>, j: int) -> bool {
    0 <= j < vb.len() ==> forall|k: int| 0 <= k < vo.len() && #[trigger] picks[k] ==> precedes(vo[k], vb[j])
}

/// Taking from the first input a value strictly below the next one of the
/// second keeps the tie rule.
pub proof fn lemma_ties_take_first<T: PartialOrd>(vo: Seq<T>, picks: Seq<bool>, vb: Seq<T>, j: int, v: T)
    requires
        picks.len() == vo.len(),
        second_first_on_ties(vo, picks),
        below_next(vo, picks, vb, j),
        0 <= j < vb.len(),
        precedes(v, vb[j]),
    ensures
        second_first_on_ties(vo.push(v), picks.push(true)),
        below_next(vo.push(v), picks.push(true), vb, j),
{
    let vo2 = vo.push(v);
    let p2 = picks.push(true);
    assert forall|k1: int, k2: int|
        0 <= k1 < k2 < vo2.len() && #[trigger] p2[k1] && !#[trigger] p2[k2] implies precedes(
        vo2[k1],
        vo2[k2],
    ) by {
        assert(k2 < vo.len());
        assert(p2[k1] == picks[k1] && p2[k2] == picks[k2]);
    }
    assert forall|k: int| 0 <= k < vo2.len() && #[trigger] p2[k] implies precedes(vo2[k], vb[j]) by {
        if k < vo.len() {
            assert(p2[k] == picks[k]);
        }
    }
}

/// Where the second input is sorted, a value strictly below one of its
/// elements is strictly below every later one.
pub proof fn lemma_below_later<T: PartialOrd>(x: T, vb: Seq<T>, j: int, q: int)
    requires
        strict_weak_order::<T>(),
        sorted(vb),
        0 <= j <= q < vb.len(),
        precedes(x, vb[j]),
    ensures
        precedes(x, vb[q]),
    decreases q - j,
{
    if j < q {
        lemma_below_later(x, vb, j, q - 1);
        assert(!precedes(vb[q], vb[q - 1]));
        assert(precedes(x, vb[q]) || precedes(vb[q], vb[q - 1]));
    }
}

/// Taking the next element of a sorted second input keeps the tie rule.
pub proof fn lemma_ties_take_second<T: PartialOrd>(vo: Seq<T>, picks: Seq<bool>, vb: Seq<T>, j: int)
    requires
        strict_weak_order::<T>(),
        sorted(vb),
        picks.len() == vo.len(),
        second_first_on_ties(vo, picks),
        below_next(vo, picks, vb, j),
        0 <= j < vb.len(),
    ensures
        second_first_on_ties(vo.push(vb[j]), picks.push(false)),
        below_next(vo.push(vb[j]), picks.push(false), vb, j + 1),
{
    let vo2 = vo.push(vb[j]);
    let p2 = picks.push(false);
    assert forall|k1: int, k2: int|
        0 <= k1 < k2 < vo2.len() && #[trigger] p2[k1] && !#[trigger] p2[k2] implies precedes(
        vo2[k1],
        vo2[k2],
    ) by {
        assert(p2[k1] == picks[k1]);
        if k2 < vo.len() {
            assert(p2[k2] == picks[k2]);
        }
    }
    assert forall|k: int| 0 <= k < vo2.len() && #[trigger] p2[k] && j + 1 < vb.len() implies precedes(
        vo2[k],
        vb[j + 1],
    ) by {
        assert(k < vo.len() && p2[k] == picks[k]);
        lemma_below_later(vo[k], vb, j, j + 1);
    }
}

/// Appending what is left of the first input keeps the tie rule.
pub proof fn lemma_ties_rest_first<T: PartialOrd>(vo: Seq<T>, picks: Seq<bool>, c: Seq<T>)
    requires
        picks.len() == vo.len(),
        second_first_on_ties(vo, picks),
    ensures
        second_first_on_ties(vo + c, picks + Seq::new(c.len(), |k: int| true)),
{
    let vo2 = vo + c;
    let p2 = picks + Seq::new(c.len(), |k: int| true);
    assert forall|k1: int, k2: int|
        0 <= k1 < k2 < vo2.len() && #[trigger] p2[k1] && !#[trigger] p2[k2] implies precedes(
        vo2[k1],
        vo2[k2],
    ) by {
        assert(k2 < vo.len());
        assert(p2[k1] == picks[k1] && p2[k2] == picks[k2]);
    }
}

/// Appending what is left of a sorted second input keeps the tie rule.
pub proof fn lemma_ties_rest_second<T: PartialOrd>(vo: Seq<T>, picks: Seq<bool>, vb: Seq<T>, j: int)
    requires
        strict_weak_order::<T>(),
        sorted(vb),
        picks.len() == vo.len(),
        second_first_on_ties(vo, picks),
        below_next(vo, picks, vb, j),
        0 <= j <= vb.len(),
    ensures
        second_first_on_ties(vo + vb.skip(j), picks + Seq::new((vb.len() - j) as nat, |k: int| false)),
{
    let c = vb.skip(j);
    let vo2 = vo + c;
    let p2 = picks + Seq::new((vb.len() - j) as nat, |k: int| false);
    assert forall|k1: int, k2: int|
        0 <= k1 < k2 < vo2.len() && #[trigger] p2[k1] && !#[trigger] p2[k2] implies precedes(
        vo2[k1],
        vo2[k2],
    ) by {
        assert(k1 < vo.len());
        assert(p2[k1] == picks[k1]);
        if k2 < vo.len() {
            assert(p2[k2] == picks[k2]);
        } else {
            let q = j + k2 - vo.len();
            assert(vo2[k2] == vb[q]);
            lemma_below_later(vo[k1], vb, j, q);
        }
    }
}

} // verus!
