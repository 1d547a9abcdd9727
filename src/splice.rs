//! Proof support for the merge of two lists: the state of the splice while
//! nodes are taken from the two input chains and linked onto the output.
use crate::linked_list::Node;
use crate::order::{merged, precedes};
use vstd::multiset::Multiset;
use vstd::prelude::*;
use vstd::std_specs::cmp::PartialOrdSpec;

verus! {

/// Each slot of `c` links to the slot after it in `c`.
pub open spec fn linked<T>(nodes: Seq<Node<T>>, c: Seq<usize>) -> bool {
    forall|k: int|
        0 <= k < c.len() - 1 ==> nodes[#[trigger] c[k] as int].next == Some(c[k + 1])
}

/// Every link of the arena names one of its slots.
pub open spec fn links_in_range<T>(nodes: Seq<Node<T>>) -> bool {
    forall|x: int|
        0 <= x < nodes.len() ==> match (#[trigger] nodes[x]).next {
            Some(y) => y < nodes.len(),
            None => true,
        }
}

/// The values held at the slots of `c`, in order.
pub open spec fn values_at<T>(nodes: Seq<Node<T>>, c: Seq<usize>) -> Seq<T> {
    c.map_values(|x: usize| nodes[x as int].val)
}

/// The joined arena `vals` holds the chain `ca` of the first list in the
/// slots below its length and the chain `cb` of the second list above them,
/// with `ra` and `rb` their positions, `va` and `vb` their values.
#[verifier::opaque]
pub open spec fn sources_ok<T>(
    vals: Seq<Node<T>>,
    ca: Seq<usize>,
    cb: Seq<usize>,
    ra: Seq<int>,
    rb: Seq<int>,
    va: Seq<T>,
    vb: Seq<T>,
) -> bool {
    let len_a = ca.len();
    let len_b = cb.len();
    let total = vals.len();
    &&& total == len_a + len_b
    &&& va.len() == len_a
    &&& vb.len() == len_b
    &&& ra.len() == len_a
    &&& rb.len() == len_b
    &&& forall|k: int|
        0 <= k < len_a ==> (#[trigger] ca[k]) < len_a && ra[ca[k] as int] == k && vals[ca[k] as int].val
            == va[k]
    &&& forall|k: int|
        0 <= k < len_b ==> len_a <= (#[trigger] cb[k]) < total && rb[cb[k] - len_a] == k
            && vals[cb[k] as int].val == vb[k]
    &&& linked(vals, ca)
    &&& linked(vals, cb)
    &&& len_a > 0 ==> vals[ca[len_a - 1] as int].next is None
    &&& len_b > 0 ==> vals[cb[len_b - 1] as int].next is None
    &&& links_in_range(vals)
}

/// The splice has taken the first `i` nodes of `ca` and the first `j` of
/// `cb` and linked them, in the order of the merge, as `out`, whose
/// positions `rank_out` records; the nodes not taken yet are untouched.
#[verifier::opaque]
pub open spec fn splice_ok<T: PartialOrd>(
    nodes: Seq<Node<T>>,
    vals: Seq<Node<T>>,
    ca: Seq<usize>,
    cb: Seq<usize>,
    ra: Seq<int>,
    rb: Seq<int>,
    va: Seq<T>,
    vb: Seq<T>,
    i: int,
    j: int,
    out: Seq<usize>,
    rank_out: Seq<int>,
) -> bool {
    let len_a = ca.len();
    let len_b = cb.len();
    let total = vals.len();
    &&& sources_ok(vals, ca, cb, ra, rb, va, vb)
    &&& nodes.len() == total
    &&& rank_out.len() == total
    &&& 0 <= i <= len_a
    &&& 0 <= j <= len_b
    &&& out.len() == i + j
    &&& forall|k: int| i <= k < len_a ==> nodes[#[trigger] ca[k] as int] == vals[ca[k] as int]
    &&& forall|k: int| j <= k < len_b ==> nodes[#[trigger] cb[k] as int] == vals[cb[k] as int]
    &&& forall|x: int| 0 <= x < total ==> (#[trigger] nodes[x]).val == vals[x].val
    &&& links_in_range(nodes)
    &&& forall|k: int|
        0 <= k < out.len() ==> ((#[trigger] out[k]) < len_a && ra[out[k] as int] < i) || (len_a
            <= out[k] < total && rb[out[k] - len_a] < j)
    &&& forall|k: int| 0 <= k < out.len() ==> rank_out[#[trigger] out[k] as int] == k
    &&& linked(nodes, out)
    &&& values_at(vals, out).to_multiset() == va.take(i).to_multiset().add(
        vb.take(j).to_multiset(),
    )
    &&& T::obeys_partial_cmp_spec() ==> values_at(vals, out) + merged(va.skip(i), vb.skip(j))
        == merged(va, vb)
}

/// Appending one more value to the output, taken from the front of what is
/// left of one input, keeps the output's multiset equal to that of what
/// has been taken.
proof fn lemma_taken_multiset<T>(taken: Seq<T>, va: Seq<T>, vb: Seq<T>, i: int, j: int, take_a: bool)
    requires
        0 <= i < va.len(),
        0 <= j < vb.len(),
        taken.to_multiset() == va.take(i).to_multiset().add(vb.take(j).to_multiset()),
    ensures
        ({
            let v = if take_a { va[i] } else { vb[j] };
            let i2 = if take_a { i + 1 } else { i };
            let j2 = if take_a { j } else { j + 1 };
            taken.push(v).to_multiset() == va.take(i2).to_multiset().add(vb.take(j2).to_multiset())
        }),
{
    broadcast use vstd::seq_lib::group_to_multiset_ensures;
    broadcast use vstd::multiset::group_multiset_axioms;

    if take_a {
        assert(va.take(i + 1) =~= va.take(i).push(va[i]));
        assert(taken.push(va[i]).to_multiset() =~= va.take(i + 1).to_multiset().add(
            vb.take(j).to_multiset(),
        ));
    } else {
        assert(vb.take(j + 1) =~= vb.take(j).push(vb[j]));
        assert(taken.push(vb[j]).to_multiset() =~= va.take(i).to_multiset().add(
            vb.take(j + 1).to_multiset(),
        ));
    }
}

/// Before any node is taken, the splice state holds of the joined arena.
pub proof fn lemma_splice_start<T: PartialOrd>(
    vals: Seq<Node<T>>,
    ca: Seq<usize>,
    cb: Seq<usize>,
    ra: Seq<int>,
    rb: Seq<int>,
    va: Seq<T>,
    vb: Seq<T>,
)
    requires
        sources_ok(vals, ca, cb, ra, rb, va, vb),
    ensures
        splice_ok(vals, vals, ca, cb, ra, rb, va, vb, 0, 0, Seq::empty(), Seq::new(vals.len(), |x: int| 0)),
{
    broadcast use vstd::seq_lib::group_to_multiset_ensures;
    broadcast use vstd::multiset::group_multiset_axioms;

    reveal(sources_ok);
    reveal(splice_ok);
    assert(va.take(0) =~= Seq::<T>::empty());
    assert(vb.take(0) =~= Seq::<T>::empty());
    assert(Seq::<T>::empty().to_multiset() =~= Multiset::empty());
    assert(Multiset::<T>::empty().add(Multiset::empty()) =~= Multiset::empty());
    assert(va.skip(0) =~= va);
    assert(vb.skip(0) =~= vb);
    assert(values_at(vals, Seq::<usize>::empty()) =~= Seq::<T>::empty());
    assert(Seq::<T>::empty() + merged(va, vb) =~= merged(va, vb));
}

/// What the executable splice reads: the next node of each input, its value
/// and its link, and the slot that the output ends with.
pub proof fn lemma_splice_heads<T: PartialOrd>(
    nodes: Seq<Node<T>>,
    vals: Seq<Node<T>>,
    ca: Seq<usize>,
    cb: Seq<usize>,
    ra: Seq<int>,
    rb: Seq<int>,
    va: Seq<T>,
    vb: Seq<T>,
    i: int,
    j: int,
    out: Seq<usize>,
    rank_out: Seq<int>,
)
    requires
        splice_ok(nodes, vals, ca, cb, ra, rb, va, vb, i, j, out, rank_out),
    ensures
        sources_ok(vals, ca, cb, ra, rb, va, vb),
        nodes.len() == ca.len() + cb.len(),
        va.len() == ca.len(),
        vb.len() == cb.len(),
        0 <= i <= ca.len(),
        0 <= j <= cb.len(),
        out.len() == i + j,
        i < ca.len() ==> ca[i] < nodes.len() && nodes[ca[i] as int].val == va[i]
            && nodes[ca[i] as int].next == (if i + 1 < ca.len() {
            Some(ca[i + 1])
        } else {
            None
        }),
        j < cb.len() ==> cb[j] < nodes.len() && nodes[cb[j] as int].val == vb[j]
            && nodes[cb[j] as int].next == (if j + 1 < cb.len() {
            Some(cb[j + 1])
        } else {
            None
        }),
        out.len() > 0 ==> out[out.len() - 1] < nodes.len(),
{
    reveal(sources_ok);
    reveal(splice_ok);
}

/// The output, once the next node of one input is linked after it, holds
/// that node's value at its end, still the values taken so far, and still
/// a prefix of the merge.
pub proof fn lemma_splice_next_value<T: PartialOrd>(
    nodes: Seq<Node<T>>,
    vals: Seq<Node<T>>,
    ca: Seq<usize>,
    cb: Seq<usize>,
    ra: Seq<int>,
    rb: Seq<int>,
    va: Seq<T>,
    vb: Seq<T>,
    i: int,
    j: int,
    out: Seq<usize>,
    rank_out: Seq<int>,
    take_a: bool,
)
    requires
        splice_ok(nodes, vals, ca, cb, ra, rb, va, vb, i, j, out, rank_out),
        i < ca.len(),
        j < cb.len(),
        T::obeys_partial_cmp_spec() ==> take_a == precedes(va[i], vb[j]),
    ensures
        ({
            let pick = if take_a { ca[i] } else { cb[j] };
            let i2 = if take_a { i + 1 } else { i };
            let j2 = if take_a { j } else { j + 1 };
            let out2 = out.push(pick);
            &&& values_at(vals, out2) == values_at(vals, out).push(if take_a { va[i] } else { vb[j] })
            &&& values_at(vals, out2).to_multiset() == va.take(i2).to_multiset().add(
                vb.take(j2).to_multiset(),
            )
            &&& T::obeys_partial_cmp_spec() ==> values_at(vals, out2) + merged(va.skip(i2), vb.skip(j2))
                == merged(va, vb)
        }),
{
    reveal(sources_ok);
    reveal(splice_ok);
    let pick = if take_a { ca[i] } else { cb[j] };
    let i2 = if take_a { i + 1 } else { i };
    let j2 = if take_a { j } else { j + 1 };
    let out2 = out.push(pick);
    // the values: the merge of what is left starts with the node taken
    let m = merged(va.skip(i), vb.skip(j));
    assert(va.skip(i)[0] == va[i] && vb.skip(j)[0] == vb[j]);
    if take_a {
        assert(vals[pick as int].val == va[i]);
    } else {
        assert(vals[pick as int].val == vb[j]);
    }
    assert(values_at(vals, out2) =~= values_at(vals, out).push(vals[pick as int].val));
    lemma_taken_multiset(values_at(vals, out), va, vb, i, j, take_a);
    if !T::obeys_partial_cmp_spec() {
    } else if take_a {
        assert(va.skip(i).drop_first() =~= va.skip(i + 1));
        assert(m == seq![va[i]] + merged(va.skip(i + 1), vb.skip(j)));
        assert(vals[pick as int].val == va[i]);
    } else {
        assert(vb.skip(j).drop_first() =~= vb.skip(j + 1));
        assert(m == seq![vb[j]] + merged(va.skip(i), vb.skip(j + 1)));
        assert(vals[pick as int].val == vb[j]);
    }
    if T::obeys_partial_cmp_spec() {
        assert(values_at(vals, out2) + merged(va.skip(i2), vb.skip(j2)) =~= values_at(vals, out)
            + m);
    }
}

/// Taking the next node of one input (of the first exactly when its value
/// is strictly below that of the second) and linking it after the output
/// keeps the splice state.
pub proof fn lemma_splice_step<T: PartialOrd>(
    nodes: Seq<Node<T>>,
    next_nodes: Seq<Node<T>>,
    vals: Seq<Node<T>>,
    ca: Seq<usize>,
    cb: Seq<usize>,
    ra: Seq<int>,
    rb: Seq<int>,
    va: Seq<T>,
    vb: Seq<T>,
    i: int,
    j: int,
    out: Seq<usize>,
    rank_out: Seq<int>,
    take_a: bool,
)
    requires
        splice_ok(nodes, vals, ca, cb, ra, rb, va, vb, i, j, out, rank_out),
        i < ca.len(),
        j < cb.len(),
        T::obeys_partial_cmp_spec() ==> take_a == precedes(va[i], vb[j]),
        next_nodes == (if out.len() == 0 {
            nodes
        } else {
            nodes.update(
                out[out.len() - 1] as int,
                Node {
                    val: nodes[out[out.len() - 1] as int].val,
                    next: Some(if take_a { ca[i] } else { cb[j] }),
                },
            )
        }),
    ensures
        ({
            let pick = if take_a { ca[i] } else { cb[j] };
            splice_ok(
                next_nodes,
                vals,
                ca,
                cb,
                ra,
                rb,
                va,
                vb,
                if take_a { i + 1 } else { i },
                if take_a { j } else { j + 1 },
                out.push(pick),
                rank_out.update(pick as int, out.len() as int),
            )
        }),
{
    reveal(sources_ok);
    reveal(splice_ok);
    let len_a = ca.len();
    let len_b = cb.len();
    let total = vals.len();
    let pick = if take_a { ca[i] } else { cb[j] };
    let i2 = if take_a { i + 1 } else { i };
    let j2 = if take_a { j } else { j + 1 };
    let out2 = out.push(pick);
    let rank2 = rank_out.update(pick as int, out.len() as int);
    let n_out = out.len();
    // the node taken is not in the output yet
    assert forall|k: int| 0 <= k < n_out implies out[k] != pick by {
        if take_a {
            assert(ra[ca[i] as int] == i);
        } else {
            assert(rb[cb[j] - len_a] == j);
        }
    }
    // the slot that gets the new link is none of the nodes not taken
    if n_out > 0 {
        let s = out[n_out - 1];
        assert forall|k: int| i <= k < len_a implies ca[k] != s by {
            assert(ra[ca[k] as int] == k);
        }
        assert forall|k: int| j <= k < len_b implies cb[k] != s by {
            assert(rb[cb[k] - len_a] == k);
        }
        assert forall|k: int| 0 <= k < n_out - 1 implies out[k] != s by {
            assert(rank_out[out[k] as int] == k);
        }
    }
    assert forall|k: int| 0 <= k < out2.len() implies rank2[#[trigger] out2[k] as int] == k by {
        if k < n_out {
            assert(out2[k] == out[k]);
        }
    }
    assert forall|k: int|
        0 <= k < out2.len() - 1 implies next_nodes[#[trigger] out2[k] as int].next == Some(
            out2[k + 1],
        ) by {
        assert(out2[k] == out[k]);
    }
    assert forall|k: int|
        0 <= k < out2.len() implies ((#[trigger] out2[k]) < len_a && ra[out2[k] as int] < i2) || (
        len_a <= out2[k] < total && rb[out2[k] - len_a] < j2) by {
        if k < n_out {
            assert(out2[k] == out[k]);
        } else if take_a {
            assert(ra[ca[i] as int] == i);
        } else {
            assert(rb[cb[j] - len_a] == j);
        }
    }
    assert forall|x: int| 0 <= x < total implies (#[trigger] next_nodes[x]).val == vals[x].val by {
    }
    assert(links_in_range(next_nodes)) by {
        assert forall|x: int| 0 <= x < next_nodes.len() implies match (
        #[trigger] next_nodes[x]).next {
            Some(y) => y < next_nodes.len(),
            None => true,
        } by {
            if n_out > 0 && x == out[n_out - 1] {
            } else {
                assert(next_nodes[x] == nodes[x]);
            }
        }
    }
    lemma_splice_next_value(nodes, vals, ca, cb, ra, rb, va, vb, i, j, out, rank_out, take_a);
}

/// The order of the merged list once one input is used up: the output,
/// then what is left of the other input.
pub open spec fn finish_chain(ca: Seq<usize>, cb: Seq<usize>, i: int, j: int, out: Seq<usize>) -> Seq<
    usize,
> {
    out + if i < ca.len() {
        ca.skip(i)
    } else {
        cb.skip(j)
    }
}

/// The position of each arena slot in `finish_chain`.
pub open spec fn finish_rank(
    total: nat,
    ca: Seq<usize>,
    ra: Seq<int>,
    rb: Seq<int>,
    i: int,
    j: int,
    out: Seq<usize>,
    rank_out: Seq<int>,
) -> Seq<int> {
    let len_a = ca.len() as int;
    Seq::new(
        total,
        |x: int|
            if x < len_a {
                if ra[x] < i {
                    rank_out[x]
                } else {
                    out.len() + ra[x] - i
                }
            } else {
                if rb[x - len_a] < j {
                    rank_out[x]
                } else {
                    out.len() + rb[x - len_a] - j
                }
            },
    )
}

/// The state in which the splice ends: one input is used up, and `rest`,
/// the first node left of the other (if any), is linked after the output.
#[verifier::opaque]
pub open spec fn finish_ready<T: PartialOrd>(
    nodes: Seq<Node<T>>,
    next_nodes: Seq<Node<T>>,
    vals: Seq<Node<T>>,
    ca: Seq<usize>,
    cb: Seq<usize>,
    ra: Seq<int>,
    rb: Seq<int>,
    va: Seq<T>,
    vb: Seq<T>,
    i: int,
    j: int,
    out: Seq<usize>,
    rank_out: Seq<int>,
    rest: Option<usize>,
) -> bool {
    &&& splice_ok(nodes, vals, ca, cb, ra, rb, va, vb, i, j, out, rank_out)
    &&& i == ca.len() || j == cb.len()
    &&& rest == (if i < ca.len() {
        Some(ca[i])
    } else if j < cb.len() {
        Some(cb[j])
    } else {
        None
    })
    &&& next_nodes == (if out.len() == 0 {
        nodes
    } else {
        nodes.update(
            out[out.len() - 1] as int,
            Node { val: nodes[out[out.len() - 1] as int].val, next: rest },
        )
    })
}

/// In the final state, the slot that got the last link is none of the
/// nodes left, and every other slot is as the splice left it.
proof fn lemma_finish_untouched<T: PartialOrd>(
    nodes: Seq<Node<T>>,
    next_nodes: Seq<Node<T>>,
    vals: Seq<Node<T>>,
    ca: Seq<usize>,
    cb: Seq<usize>,
    ra: Seq<int>,
    rb: Seq<int>,
    va: Seq<T>,
    vb: Seq<T>,
    i: int,
    j: int,
    out: Seq<usize>,
    rank_out: Seq<int>,
    rest: Option<usize>,
)
    requires
        finish_ready(nodes, next_nodes, vals, ca, cb, ra, rb, va, vb, i, j, out, rank_out, rest),
    ensures
        splice_ok(nodes, vals, ca, cb, ra, rb, va, vb, i, j, out, rank_out),
        i == ca.len() || j == cb.len(),
        rest == (if i < ca.len() {
            Some(ca[i])
        } else if j < cb.len() {
            Some(cb[j])
        } else {
            None
        }),
        next_nodes.len() == vals.len(),
        forall|k: int| i <= k < ca.len() ==> next_nodes[#[trigger] ca[k] as int] == vals[ca[k] as int],
        forall|k: int| j <= k < cb.len() ==> next_nodes[#[trigger] cb[k] as int] == vals[cb[k] as int],
        forall|k: int|
            0 <= k < out.len() - 1 ==> next_nodes[#[trigger] out[k] as int].next == Some(out[k + 1]),
        out.len() > 0 ==> next_nodes[out[out.len() - 1] as int].next == rest,
        forall|x: int| 0 <= x < vals.len() ==> (#[trigger] next_nodes[x]).val == vals[x].val,
        links_in_range(next_nodes),
{
    reveal(finish_ready);
    reveal(sources_ok);
    reveal(splice_ok);
    let len_a = ca.len() as int;
    let len_b = cb.len() as int;
    let n_out = out.len() as int;
    if n_out > 0 {
        let s = out[n_out - 1];
        assert forall|k: int| i <= k < len_a implies ca[k] != s by {
            assert(ra[ca[k] as int] == k);
        }
        assert forall|k: int| j <= k < len_b implies cb[k] != s by {
            assert(rb[cb[k] - len_a] == k);
        }
        assert forall|k: int| 0 <= k < n_out - 1 implies out[k] != s by {
            assert(rank_out[out[k] as int] == k);
        }
    }
    assert forall|x: int| 0 <= x < vals.len() implies (#[trigger] next_nodes[x]).val
        == vals[x].val by {
        if n_out > 0 && x == out[n_out - 1] {
        } else {
            assert(next_nodes[x] == nodes[x]);
        }
    }
    assert(links_in_range(next_nodes)) by {
        assert forall|x: int| 0 <= x < next_nodes.len() implies match (
        #[trigger] next_nodes[x]).next {
            Some(y) => y < next_nodes.len(),
            None => true,
        } by {
            if n_out > 0 && x == out[n_out - 1] {
            } else {
                assert(next_nodes[x] == nodes[x]);
            }
        }
    }
}

/// In the final state, the merged chain visits every slot once, and
/// `finish_rank` gives each slot's position in it.
proof fn lemma_finish_ranks<T: PartialOrd>(
    nodes: Seq<Node<T>>,
    vals: Seq<Node<T>>,
    ca: Seq<usize>,
    cb: Seq<usize>,
    ra: Seq<int>,
    rb: Seq<int>,
    va: Seq<T>,
    vb: Seq<T>,
    i: int,
    j: int,
    out: Seq<usize>,
    rank_out: Seq<int>,
)
    requires
        splice_ok(nodes, vals, ca, cb, ra, rb, va, vb, i, j, out, rank_out),
        i == ca.len() || j == cb.len(),
    ensures
        ({
            let chain = finish_chain(ca, cb, i, j, out);
            let rank = finish_rank(nodes.len(), ca, ra, rb, i, j, out, rank_out);
            let n = nodes.len() as int;
            &&& chain.len() == n
            &&& rank.len() == n
            &&& forall|k: int| 0 <= k < n ==> (#[trigger] chain[k]) < n && rank[chain[k] as int] == k
            &&& out.len() > 0 ==> out[0] == chain[0]
        }),
{
    reveal(sources_ok);
    reveal(splice_ok);
    let len_a = ca.len() as int;
    let total = vals.len() as int;
    let n_out = out.len() as int;
    let chain = finish_chain(ca, cb, i, j, out);
    let rank = finish_rank(nodes.len(), ca, ra, rb, i, j, out, rank_out);
    assert forall|k: int| 0 <= k < total implies (#[trigger] chain[k]) < total && rank[chain[k] as int]
        == k by {
        if k < n_out {
            assert(chain[k] == out[k]);
        } else if i < len_a {
            assert(chain[k] == ca[i + k - n_out]);
            assert(ra[ca[i + k - n_out] as int] == i + k - n_out);
        } else {
            assert(chain[k] == cb[j + k - n_out]);
            assert(rb[cb[j + k - n_out] - len_a] == j + k - n_out);
        }
    }
}

/// Two linked runs, the last slot of the first linking to the first slot of
/// the second, make one linked run.
proof fn lemma_linked_concat<T>(nodes: Seq<Node<T>>, x: Seq<usize>, y: Seq<usize>)
    requires
        linked(nodes, x),
        linked(nodes, y),
        x.len() > 0 && y.len() > 0 ==> nodes[x[x.len() - 1] as int].next == Some(y[0]),
    ensures
        linked(nodes, x + y),
{
    let c = x + y;
    assert forall|k: int| 0 <= k < c.len() - 1 implies nodes[#[trigger] c[k] as int].next == Some(
        c[k + 1],
    ) by {
        if k < x.len() - 1 {
            assert(c[k] == x[k] && c[k + 1] == x[k + 1]);
        } else if k == x.len() - 1 {
            assert(c[k] == x[k] && c[k + 1] == y[0]);
        } else {
            assert(c[k] == y[k - x.len()] && c[k + 1] == y[k + 1 - x.len()]);
        }
    }
}

/// The part of a linked run from position `i` on, left untouched, is still
/// a linked run.
proof fn lemma_linked_rest<T>(next_nodes: Seq<Node<T>>, vals: Seq<Node<T>>, c: Seq<usize>, i: int)
    requires
        0 <= i <= c.len(),
        linked(vals, c),
        forall|k: int| i <= k < c.len() ==> next_nodes[#[trigger] c[k] as int] == vals[c[k] as int],
    ensures
        linked(next_nodes, c.skip(i)),
{
    let r = c.skip(i);
    assert forall|k: int| 0 <= k < r.len() - 1 implies next_nodes[#[trigger] r[k] as int].next
        == Some(r[k + 1]) by {
        assert(r[k] == c[i + k] && r[k + 1] == c[i + k + 1]);
        assert(next_nodes[c[i + k] as int] == vals[c[i + k] as int]);
    }
}

/// In the final state, the links follow the merged chain, whose last node
/// links to nothing.
proof fn lemma_finish_links<T: PartialOrd>(
    nodes: Seq<Node<T>>,
    next_nodes: Seq<Node<T>>,
    vals: Seq<Node<T>>,
    ca: Seq<usize>,
    cb: Seq<usize>,
    ra: Seq<int>,
    rb: Seq<int>,
    va: Seq<T>,
    vb: Seq<T>,
    i: int,
    j: int,
    out: Seq<usize>,
    rank_out: Seq<int>,
    rest: Option<usize>,
)
    requires
        finish_ready(nodes, next_nodes, vals, ca, cb, ra, rb, va, vb, i, j, out, rank_out, rest),
    ensures
        ({
            let chain = finish_chain(ca, cb, i, j, out);
            let n = next_nodes.len() as int;
            &&& linked(next_nodes, chain)
            &&& n > 0 ==> next_nodes[chain[n - 1] as int].next is None
            &&& out.len() == 0 ==> rest == (if n == 0 {
                None
            } else {
                Some(chain[0])
            })
        }),
{
    lemma_finish_untouched(nodes, next_nodes, vals, ca, cb, ra, rb, va, vb, i, j, out, rank_out, rest);
    lemma_splice_heads(nodes, vals, ca, cb, ra, rb, va, vb, i, j, out, rank_out);
    lemma_finish_ranks(nodes, vals, ca, cb, ra, rb, va, vb, i, j, out, rank_out);
    reveal(sources_ok);
    let len_a = ca.len() as int;
    let len_b = cb.len() as int;
    let total = vals.len() as int;
    let n_out = out.len() as int;
    let rem = if i < len_a {
        ca.skip(i)
    } else {
        cb.skip(j)
    };
    let chain = finish_chain(ca, cb, i, j, out);
    assert(chain == out + rem);
    if i < len_a {
        lemma_linked_rest(next_nodes, vals, ca, i);
    } else {
        lemma_linked_rest(next_nodes, vals, cb, j);
    }
    if n_out > 0 && rem.len() > 0 {
        assert(rem[0] == rest->0);
    }
    lemma_linked_concat(next_nodes, out, rem);
    if total > 0 {
        if rem.len() > 0 {
            if i < len_a {
                assert(chain[total - 1] == ca[len_a - 1]);
            } else {
                assert(chain[total - 1] == cb[len_b - 1]);
            }
        } else {
            assert(chain[total - 1] == out[n_out - 1]);
        }
    }
}

/// In the final state, the values along the merged chain are those of the
/// two inputs together, and, where the comparison of `T` is the one that
/// vstd specifies, the merge of the inputs' values.
proof fn lemma_finish_values<T: PartialOrd>(
    nodes: Seq<Node<T>>,
    next_nodes: Seq<Node<T>>,
    vals: Seq<Node<T>>,
    ca: Seq<usize>,
    cb: Seq<usize>,
    ra: Seq<int>,
    rb: Seq<int>,
    va: Seq<T>,
    vb: Seq<T>,
    i: int,
    j: int,
    out: Seq<usize>,
    rank_out: Seq<int>,
    rest: Option<usize>,
)
    requires
        finish_ready(nodes, next_nodes, vals, ca, cb, ra, rb, va, vb, i, j, out, rank_out, rest),
    ensures
        values_at(next_nodes, finish_chain(ca, cb, i, j, out)) == values_at(vals, out) + if i
            < ca.len() {
            va.skip(i)
        } else {
            vb.skip(j)
        },
        values_at(next_nodes, finish_chain(ca, cb, i, j, out)).to_multiset() == va.to_multiset().add(
            vb.to_multiset(),
        ),
        T::obeys_partial_cmp_spec() ==> values_at(next_nodes, finish_chain(ca, cb, i, j, out))
            == merged(va, vb),
{
    lemma_finish_untouched(nodes, next_nodes, vals, ca, cb, ra, rb, va, vb, i, j, out, rank_out, rest);
    lemma_finish_ranks(nodes, vals, ca, cb, ra, rb, va, vb, i, j, out, rank_out);
    reveal(sources_ok);
    reveal(splice_ok);
    let len_a = ca.len() as int;
    let rem = if i < len_a {
        ca.skip(i)
    } else {
        cb.skip(j)
    };
    let left = if i < len_a {
        va.skip(i)
    } else {
        vb.skip(j)
    };
    let chain = finish_chain(ca, cb, i, j, out);
    assert(chain == out + rem);
    assert(values_at(next_nodes, chain) =~= values_at(vals, chain));
    assert(values_at(vals, chain) =~= values_at(vals, out) + values_at(vals, rem));
    if i < len_a {
        assert(values_at(vals, rem) =~= va.skip(i));
        assert(vb.skip(j) =~= Seq::<T>::empty());
    } else {
        assert(values_at(vals, rem) =~= vb.skip(j));
        assert(va.skip(i) =~= Seq::<T>::empty());
    }
    lemma_rest_multiset(values_at(vals, out), va, vb, i, j);
}

/// Once one input is used up, what has been taken followed by what is left
/// of the other holds the values of both inputs.
proof fn lemma_rest_multiset<T>(taken: Seq<T>, va: Seq<T>, vb: Seq<T>, i: int, j: int)
    requires
        0 <= i <= va.len(),
        0 <= j <= vb.len(),
        i == va.len() || j == vb.len(),
        taken.to_multiset() == va.take(i).to_multiset().add(vb.take(j).to_multiset()),
    ensures
        (taken + if i < va.len() {
            va.skip(i)
        } else {
            vb.skip(j)
        }).to_multiset() == va.to_multiset().add(vb.to_multiset()),
{
    broadcast use vstd::seq_lib::lemma_multiset_commutative;
    broadcast use vstd::multiset::group_multiset_axioms;

    assert(va.take(i) + va.skip(i) =~= va);
    assert(vb.take(j) + vb.skip(j) =~= vb);
    if i < va.len() {
        assert(vb.take(j) =~= vb);
        assert((taken + va.skip(i)).to_multiset() =~= va.to_multiset().add(vb.to_multiset()));
    } else {
        assert(va.take(i) =~= va);
        assert((taken + vb.skip(j)).to_multiset() =~= va.to_multiset().add(vb.to_multiset()));
    }
}

/// Once one input is used up, linking the rest of the other after the
/// output gives one chain through the whole arena, holding the merge of the
/// two inputs' values.
pub proof fn lemma_splice_finish<T: PartialOrd>(
    nodes: Seq<Node<T>>,
    next_nodes: Seq<Node<T>>,
    vals: Seq<Node<T>>,
    ca: Seq<usize>,
    cb: Seq<usize>,
    ra: Seq<int>,
    rb: Seq<int>,
    va: Seq<T>,
    vb: Seq<T>,
    i: int,
    j: int,
    out: Seq<usize>,
    rank_out: Seq<int>,
    rest: Option<usize>,
)
    requires
        finish_ready(nodes, next_nodes, vals, ca, cb, ra, rb, va, vb, i, j, out, rank_out, rest),
    ensures
        ({
            let chain = finish_chain(ca, cb, i, j, out);
            let rank = finish_rank(nodes.len(), ca, ra, rb, i, j, out, rank_out);
            let n = next_nodes.len() as int;
            &&& n == nodes.len()
            &&& chain.len() == n
            &&& rank.len() == n
            &&& forall|k: int| 0 <= k < n ==> (#[trigger] chain[k]) < n && rank[chain[k] as int] == k
            &&& linked(next_nodes, chain)
            &&& n > 0 ==> next_nodes[chain[n - 1] as int].next is None
            &&& links_in_range(next_nodes)
            &&& out.len() == 0 ==> rest == (if n == 0 {
                None
            } else {
                Some(chain[0])
            })
            &&& out.len() > 0 ==> out[0] == chain[0]
            &&& values_at(next_nodes, chain) == values_at(vals, out) + if i < ca.len() {
                va.skip(i)
            } else {
                vb.skip(j)
            }
            &&& values_at(next_nodes, chain).to_multiset() == va.to_multiset().add(vb.to_multiset())
            &&& T::obeys_partial_cmp_spec() ==> values_at(next_nodes, chain) == merged(va, vb)
        }),
{
    lemma_finish_untouched(nodes, next_nodes, vals, ca, cb, ra, rb, va, vb, i, j, out, rank_out, rest);
    lemma_finish_ranks(nodes, vals, ca, cb, ra, rb, va, vb, i, j, out, rank_out);
    lemma_finish_links(nodes, next_nodes, vals, ca, cb, ra, rb, va, vb, i, j, out, rank_out, rest);
    lemma_finish_values(nodes, next_nodes, vals, ca, cb, ra, rb, va, vb, i, j, out, rank_out, rest);
    reveal(splice_ok);
}

} // verus!
