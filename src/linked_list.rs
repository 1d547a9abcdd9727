//! The list itself. Nodes are kept in an arena (a `Vec`) owned by the list,
//! and a node's link to its successor is the successor's arena index. The
//! ghost `chain` records which arena slot holds the node at each position,
//! and `rank` is its inverse, which is what keeps the links free of cycles.
use crate::order::{
    interleave, lemma_interleave_push_first, lemma_interleave_push_second,
    lemma_interleave_rest_first, lemma_interleave_rest_second, lemma_merged_sorted,
    lemma_ties_rest_first, lemma_ties_rest_second, lemma_ties_take_first, lemma_ties_take_second,
    merged, second_first_on_ties, below_next, sorted, strict_weak_order,
};
use crate::render::{join_parts, joined, texts};
use crate::splice::{
    finish_chain, finish_rank, finish_ready, lemma_splice_finish, lemma_splice_heads, lemma_splice_next_value, lemma_splice_start,
    lemma_splice_step, linked, links_in_range, sources_ok, splice_ok, values_at,
};
use vstd::laws_cmp::obeys_partial_cmp_spec_properties;
use vstd::prelude::*;
use vstd::std_specs::cmp::PartialOrdSpec;
use vstd::string::to_string_from_display_ensures;

verus! {

/// One element of a list: its value and the arena index of the next node
/// (`None` for the last one).
pub struct Node<T> {
    pub val: T,
    pub next: Option<usize>,
}

impl<T> Node<T> {
    /// A node holding `t`, linked to nothing.
    pub fn new(t: T) -> (n: Node<T>)
        ensures
            n.val == t,
            n.next is None,
    {
        Node { val: t, next: None }
    }
}

/// A singly-linked, append-only list with O(1) append through its tail index.
pub struct LinkedList<T> {
    length: usize,
    start: Option<usize>,
    end: Option<usize>,
    nodes: Vec<Node<T>>,
    chain: Ghost<Seq<usize>>,
    rank: Ghost<Seq<int>>,
}

impl<T> View for LinkedList<T> {
    type V = Seq<T>;

    /// The values met when the links are followed from the first node.
    closed spec fn view(&self) -> Seq<T> {
        self.chain@.map_values(|x: usize| self.nodes@[x as int].val)
    }
}

impl<T> LinkedList<T> {
    /// The arena holds exactly the list's nodes; `chain` lists them in link
    /// order without repetition (`rank` inverts it); each node links to the
    /// next one in `chain` and the last to nothing; `start` and `end` are
    /// the first and the last of `chain`; `length` counts them.
    pub closed spec fn wf(&self) -> bool {
        let n = self.nodes@.len();
        let chain = self.chain@;
        let rank = self.rank@;
        &&& self.length == n
        &&& chain.len() == n
        &&& rank.len() == n
        &&& forall|k: int|
            0 <= k < n ==> (#[trigger] chain[k]) < n && rank[chain[k] as int] == k
        &&& linked(self.nodes@, chain)
        &&& n > 0 ==> self.nodes@[chain[n - 1] as int].next is None
        &&& links_in_range(self.nodes@)
        &&& self.start == (if n == 0 {
            None
        } else {
            Some(chain[0])
        })
        &&& self.end == (if n == 0 {
            None
        } else {
            Some(chain[n - 1])
        })
    }

    /// An empty list.
    pub fn new() -> (r: Self)
        ensures
            r.wf(),
            r@ == Seq::<T>::empty(),
    {
        let r = Self {
            length: 0,
            start: None,
            end: None,
            nodes: Vec::new(),
            chain: Ghost(Seq::empty()),
            rank: Ghost(Seq::empty()),
        };
        assert(r@ =~= Seq::<T>::empty());
        r
    }

    /// The number of values in the list.
    pub fn len(&self) -> (r: usize)
        requires
            self.wf(),
        ensures
            r == self@.len(),
    {
        self.length
    }

    /// Appends `obj` after the current tail.
    pub fn add(&mut self, obj: T)
        requires
            old(self).wf(),
        ensures
            final(self).wf(),
            final(self)@ == old(self)@.push(obj),
    {
        let ghost before = self@;
        let ghost n = self.nodes@.len();
        let idx = self.nodes.len();
        self.nodes.push(Node::new(obj));
        assert(self.nodes@.len() == n + 1);
        match self.end {
            None => {
                self.start = Some(idx);
            },
            Some(e) => {
                self.nodes[e].next = Some(idx);
            },
        }
        self.end = Some(idx);
        assert(self.length < self.nodes.len());
        self.length = self.length + 1;
        self.chain = Ghost(self.chain@.push(idx));
        self.rank = Ghost(self.rank@.push(idx as int));
        assert forall|k: int| 0 <= k < n implies self.nodes@[#[trigger] self.chain@[k] as int].val
            == old(self).nodes@[old(self).chain@[k] as int].val by {}
        assert(self@ =~= before.push(obj));
    }

    /// The value at position `index`, or `None` where `index` is negative or
    /// not below the length.
    pub fn get(&self, index: i32) -> (r: Option<&T>)
        requires
            self.wf(),
        ensures
            r == (if 0 <= index < self@.len() {
                Some(&self@[index as int])
            } else {
                None
            }),
    {
        self.get_ith_node(self.start, index, Ghost(0))
    }

    /// Walks `index` links on from `node`, which stands at position `pos`
    /// (`None` when `pos` is the length).
    fn get_ith_node(&self, node: Option<usize>, index: i32, pos: Ghost<int>) -> (r: Option<&T>)
        requires
            self.wf(),
            0 <= pos@ <= self@.len(),
            node == (if pos@ < self@.len() {
                Some(self.chain@[pos@])
            } else {
                None
            }),
        ensures
            r == (if 0 <= index && pos@ + index < self@.len() {
                Some(&self@[pos@ + index])
            } else {
                None
            }),
        decreases index,
    {
        match node {
            None => None,
            Some(next_ptr) => {
                if index < 0 {
                    None
                } else if index == 0 {
                    Some(&self.nodes[next_ptr].val)
                } else {
                    let ghost n = self.nodes@.len();
                    assert(pos@ + 1 < n ==> self.nodes@[self.chain@[pos@] as int].next == Some(
                        self.chain@[pos@ + 1],
                    ));
                    self.get_ith_node(self.nodes[next_ptr].next, index - 1, Ghost(pos@ + 1))
                }
            },
        }
    }

    /// Splices the nodes of two sorted lists into one sorted list. Both inputs
    /// are consumed; no value is copied and no node is created: the nodes of
    /// `list_b` join the arena of `list_a` and only links are rewritten.
    /// While both inputs have nodes left, the node of `list_a` is taken only
    /// when its value is strictly below that of `list_b`, so on equal values
    /// the node of `list_b` comes first; the rest of the other input is then
    /// attached whole, and the tail is found by walking the result.
    ///
    /// Whatever `T`'s comparison does, the result is a well-formed list
    /// holding exactly the values of both inputs, and an empty input gives
    /// the other one back. Where the comparison is the one vstd specifies for
    /// `PartialOrd`, the result is `merged(list_a@, list_b@)`, and it is
    /// sorted whenever both inputs are and the comparison is consistent.
    pub fn merge(list_a: LinkedList<T>, list_b: LinkedList<T>) -> (r: Self) where T: PartialOrd
        requires
            list_a.wf(),
            list_b.wf(),
        ensures
            r.wf(),
            r@.len() == list_a@.len() + list_b@.len(),
            exists|picks: Seq<bool>|
                picks.len() == list_a@.len() + list_b@.len() && r@ == interleave(
                    list_a@,
                    list_b@,
                    picks,
                ),
            r@.to_multiset() == list_a@.to_multiset().add(list_b@.to_multiset()),
            list_a@.len() == 0 ==> r@ == list_b@,
            list_b@.len() == 0 ==> r@ == list_a@,
            T::obeys_partial_cmp_spec() ==> r@ == merged(list_a@, list_b@),
            T::obeys_partial_cmp_spec() && strict_weak_order::<T>() && sorted(list_b@) ==> exists|
                picks: Seq<bool>,
            |
                picks.len() == list_a@.len() + list_b@.len() && r@ == interleave(
                    list_a@,
                    list_b@,
                    picks,
                ) && second_first_on_ties(r@, picks),
            T::obeys_partial_cmp_spec() && obeys_partial_cmp_spec_properties::<T>() && sorted(
                list_a@,
            ) && sorted(list_b@) ==> sorted(r@),
    {
        let ghost a0 = list_a;
        let ghost b0 = list_b;
        let ghost va = list_a@;
        let ghost vb = list_b@;
        let ghost ca = list_a.chain@;
        let ghost ra = list_a.rank@;
        let ghost rb = list_b.rank@;
        let LinkedList { length: len_a, start: start_a, nodes: mut nodes, .. } = list_a;
        let LinkedList { length: len_b, start: start_b, nodes: mut nodes_b, .. } = list_b;
        let ghost na = nodes@;
        let ghost nb = nodes_b@;
        nodes.append(&mut nodes_b);
        let total = nodes.len();
        proof {
            assert forall|x: int| len_a <= x < total implies match (#[trigger] nodes@[x]).next {
                Some(y) => y + len_a < total,
                None => true,
            } by {
                assert(nodes@[x] == nb[x - len_a]);
            }
        }
        // the links of the nodes of `list_b` now count from `len_a` on
        shift_links(&mut nodes, len_a);
        let ghost vals = nodes@;
        let ghost cb = shift_chain(b0.chain@, len_a);
        proof {
            Self::lemma_joined_sources(a0, b0, vals);
            lemma_splice_start(vals, ca, cb, ra, rb, va, vb);
        }
        let mut start: Option<usize> = None;
        let mut slot: Option<usize> = None;
        let mut ptr_a = start_a;
        let mut ptr_b = match start_b {
            Some(s) => Some(s + len_a),
            None => None,
        };
        let ghost mut i: int = 0;
        let ghost mut j: int = 0;
        let ghost mut out: Seq<usize> = Seq::empty();
        let ghost mut rank_out: Seq<int> = Seq::new(total as nat, |x: int| 0);
        let ghost mut picks: Seq<bool> = Seq::empty();
        proof {
            assert(values_at(vals, out) =~= Seq::<T>::empty());
            assert(va.take(0) =~= Seq::<T>::empty());
            assert(vb.take(0) =~= Seq::<T>::empty());
        }
        while ptr_a.is_some() && ptr_b.is_some()
            invariant
                total == len_a + len_b,
                len_a == 0 || len_b == 0 ==> out.len() == 0,
                picks.len() == out.len(),
                values_at(vals, out) == interleave(va.take(i), vb.take(j), picks),
                T::obeys_partial_cmp_spec() && strict_weak_order::<T>() && sorted(vb) ==> (
                second_first_on_ties(values_at(vals, out), picks) && below_next(
                    values_at(vals, out),
                    picks,
                    vb,
                    j,
                )),
                ca.len() == len_a,
                cb.len() == len_b,
                splice_ok(nodes@, vals, ca, cb, ra, rb, va, vb, i, j, out, rank_out),
                ptr_a == (if i < len_a {
                    Some(ca[i])
                } else {
                    None
                }),
                ptr_b == (if j < len_b {
                    Some(cb[j])
                } else {
                    None
                }),
                slot == (if out.len() == 0 {
                    None
                } else {
                    Some(out[out.len() - 1])
                }),
                start == (if out.len() == 0 {
                    None
                } else {
                    Some(out[0])
                }),
            decreases len_a + len_b - i - j,
        {
            proof {
                lemma_splice_heads(nodes@, vals, ca, cb, ra, rb, va, vb, i, j, out, rank_out);
            }
            let x = ptr_a.unwrap();
            let y = ptr_b.unwrap();
            let take_a = nodes[x].val < nodes[y].val;
            let pick: usize;
            if take_a {
                pick = x;
                ptr_a = nodes[x].next;
            } else {
                pick = y;
                ptr_b = nodes[y].next;
            }
            let ghost before = nodes@;
            match slot {
                None => {
                    start = Some(pick);
                },
                Some(s) => {
                    nodes[s].next = Some(pick);
                },
            }
            slot = Some(pick);
            proof {
                if out.len() > 0 {
                    let s = out[out.len() - 1] as int;
                    assert(nodes@ =~= before.update(s, Node { val: before[s].val, next: Some(pick) }));
                }
                lemma_splice_step(before, nodes@, vals, ca, cb, ra, rb, va, vb, i, j, out, rank_out, take_a);
                lemma_splice_heads(before, vals, ca, cb, ra, rb, va, vb, i, j, out, rank_out);
                lemma_splice_next_value(before, vals, ca, cb, ra, rb, va, vb, i, j, out, rank_out, take_a);
                if T::obeys_partial_cmp_spec() && strict_weak_order::<T>() && sorted(vb) {
                    if take_a {
                        lemma_ties_take_first(values_at(vals, out), picks, vb, j, va[i]);
                    } else {
                        lemma_ties_take_second(values_at(vals, out), picks, vb, j);
                    }
                }
                if take_a {
                    lemma_interleave_push_first(va.take(i), vb.take(j), picks, va[i]);
                    assert(va.take(i + 1) =~= va.take(i).push(va[i]));
                } else {
                    lemma_interleave_push_second(va.take(i), vb.take(j), picks, vb[j]);
                    assert(vb.take(j + 1) =~= vb.take(j).push(vb[j]));
                }
                rank_out = rank_out.update(pick as int, out.len() as int);
                out = out.push(pick);
                picks = picks.push(take_a);
                if take_a {
                    i = i + 1;
                } else {
                    j = j + 1;
                }
            }
        }
        proof {
            lemma_splice_heads(nodes@, vals, ca, cb, ra, rb, va, vb, i, j, out, rank_out);
        }
        // what is left of the other input is attached whole
        let rest = if ptr_a.is_some() {
            ptr_a
        } else {
            ptr_b
        };
        let ghost before = nodes@;
        match slot {
            None => {
                start = rest;
            },
            Some(s) => {
                nodes[s].next = rest;
            },
        }
        let ghost chain = finish_chain(ca, cb, i, j, out);
        let ghost rank = finish_rank(total as nat, ca, ra, rb, i, j, out, rank_out);
        proof {
            if out.len() > 0 {
                let s = out[out.len() - 1] as int;
                assert(nodes@ =~= before.update(s, Node { val: before[s].val, next: rest }));
            }
            assert(finish_ready(before, nodes@, vals, ca, cb, ra, rb, va, vb, i, j, out, rank_out, rest))
                by {
                reveal(finish_ready);
            }
            lemma_splice_finish(before, nodes@, vals, ca, cb, ra, rb, va, vb, i, j, out, rank_out, rest);
        }
        let end = find_tail(&nodes, start, Ghost(chain));
        let r = LinkedList {
            length: len_a + len_b,
            start,
            end,
            nodes,
            chain: Ghost(chain),
            rank: Ghost(rank),
        };
        proof {
            assert(r@ =~= values_at(r.nodes@, chain));
            lemma_splice_heads(before, vals, ca, cb, ra, rb, va, vb, i, j, out, rank_out);
            if i < len_a {
                let c = va.skip(i);
                assert(vb.take(j) =~= vb);
                assert(va.take(i) + c =~= va);
                lemma_interleave_rest_first(va.take(i), vb, picks, c);
                assert(r@ == interleave(va, vb, picks + Seq::new(c.len(), |k: int| true)));
                if T::obeys_partial_cmp_spec() && strict_weak_order::<T>() && sorted(vb) {
                    lemma_ties_rest_first(values_at(vals, out), picks, c);
                    assert(second_first_on_ties(r@, picks + Seq::new(c.len(), |k: int| true)));
                }
            } else {
                let c = vb.skip(j);
                assert(va.take(i) =~= va);
                assert(vb.take(j) + c =~= vb);
                lemma_interleave_rest_second(va, vb.take(j), picks, c);
                assert(r@ == interleave(va, vb, picks + Seq::new(c.len(), |k: int| false)));
                if T::obeys_partial_cmp_spec() && strict_weak_order::<T>() && sorted(vb) {
                    lemma_ties_rest_second(values_at(vals, out), picks, vb, j);
                    assert(Seq::new((vb.len() - j) as nat, |k: int| false) =~= Seq::new(
                        c.len(),
                        |k: int| false,
                    ));
                    assert(second_first_on_ties(r@, picks + Seq::new(c.len(), |k: int| false)));
                }
            }
            if len_a == 0 || len_b == 0 {
                lemma_splice_heads(before, vals, ca, cb, ra, rb, va, vb, i, j, out, rank_out);
                assert(values_at(vals, out) =~= Seq::<T>::empty());
                assert(va.skip(0) =~= va);
                assert(vb.skip(0) =~= vb);
            }
            if T::obeys_partial_cmp_spec() && obeys_partial_cmp_spec_properties::<T>() && sorted(va)
                && sorted(vb) {
                lemma_merged_sorted(va, vb);
            }
        }
        r
    }

    /// The values in order, each rendered by its `Display`, separated by
    /// `", "`; empty for an empty list.
    pub fn render(&self) -> (r: String) where T: core::fmt::Display
        requires
            self.wf(),
        ensures
            exists|parts: Seq<String>|
                {
                    &&& parts.len() == self@.len()
                    &&& forall|k: int|
                        0 <= k < parts.len() ==> to_string_from_display_ensures::<T>(
                            &self@[k],
                            #[trigger] parts[k],
                        )
                    &&& r@ == joined(texts(parts))
                },
    {
        let mut parts: Vec<String> = Vec::new();
        let mut node = self.start;
        let ghost n = self.nodes@.len();
        let ghost mut p: int = 0;
        while node.is_some()
            invariant
                self.wf(),
                n == self.nodes@.len(),
                0 <= p <= n,
                node == (if p < n {
                    Some(self.chain@[p])
                } else {
                    None
                }),
                parts@.len() == p,
                forall|k: int|
                    0 <= k < p ==> to_string_from_display_ensures::<T>(
                        &self@[k],
                        #[trigger] parts@[k],
                    ),
            decreases n - p,
        {
            let x = node.unwrap();
            parts.push(self.nodes[x].val.to_string());
            node = self.nodes[x].next;
            proof {
                p = p + 1;
            }
        }
        join_parts(&parts)
    }

    /// `vals` is the arena made of the nodes of `a` followed by those of `b`,
    /// the links of the latter moved on by the length of `a`.
    spec fn joined(a: LinkedList<T>, b: LinkedList<T>, vals: Seq<Node<T>>) -> bool {
        &&& a.wf()
        &&& b.wf()
        &&& vals.len() == a.nodes@.len() + b.nodes@.len()
        &&& vals.len() <= usize::MAX
        &&& forall|x: int| 0 <= x < a.nodes@.len() ==> vals[x] == a.nodes@[x]
        &&& forall|x: int|
            a.nodes@.len() <= x < vals.len() ==> (#[trigger] vals[x]).val == b.nodes@[x
                - a.nodes@.len()].val && vals[x].next == shifted(
                b.nodes@[x - a.nodes@.len()].next,
                a.length,
            )
    }

    /// The chain of `a` stands in the joined arena as it stood in `a`.
    proof fn lemma_joined_first(a: LinkedList<T>, b: LinkedList<T>, vals: Seq<Node<T>>)
        requires
            Self::joined(a, b, vals),
        ensures
            forall|k: int|
                0 <= k < a.nodes@.len() ==> (#[trigger] a.chain@[k]) < a.nodes@.len()
                    && a.rank@[a.chain@[k] as int] == k && vals[a.chain@[k] as int].val == a@[k],
            linked(vals, a.chain@),
            a.nodes@.len() > 0 ==> vals[a.chain@[a.nodes@.len() - 1] as int].next is None,
    {
        let len_a = a.nodes@.len() as int;
        let ca = a.chain@;
        assert forall|k: int| 0 <= k < len_a implies (#[trigger] ca[k]) < len_a && a.rank@[ca[k] as int]
            == k && vals[ca[k] as int].val == a@[k] by {
            assert(vals[ca[k] as int] == a.nodes@[ca[k] as int]);
        }
        assert forall|k: int| 0 <= k < ca.len() - 1 implies vals[#[trigger] ca[k] as int].next
            == Some(ca[k + 1]) by {
            assert(vals[ca[k] as int] == a.nodes@[ca[k] as int]);
        }
        if len_a > 0 {
            assert(vals[ca[len_a - 1] as int] == a.nodes@[ca[len_a - 1] as int]);
        }
    }

    /// The chain of `b`, moved on by the length of `a`, stands in the joined
    /// arena as the chain of `b` stood in `b`.
    proof fn lemma_joined_second(a: LinkedList<T>, b: LinkedList<T>, vals: Seq<Node<T>>)
        requires
            Self::joined(a, b, vals),
        ensures
            ({
                let len_a = a.nodes@.len() as int;
                let cb = shift_chain(b.chain@, a.length);
                &&& forall|k: int|
                    0 <= k < b.nodes@.len() ==> len_a <= (#[trigger] cb[k]) < vals.len() && b.rank@[cb[k]
                        - len_a] == k && vals[cb[k] as int].val == b@[k]
                &&& linked(vals, cb)
                &&& b.nodes@.len() > 0 ==> vals[cb[b.nodes@.len() - 1] as int].next is None
            }),
    {
        let len_a = a.nodes@.len() as int;
        let len_b = b.nodes@.len() as int;
        let cb = shift_chain(b.chain@, a.length);
        let cb0 = b.chain@;
        assert forall|k: int| 0 <= k < len_b implies len_a <= (#[trigger] cb[k]) < vals.len()
            && b.rank@[cb[k] - len_a] == k && vals[cb[k] as int].val == b@[k] by {
            assert(cb0[k] < len_b);
            assert(cb[k] == cb0[k] + len_a);
            assert(vals[cb[k] as int].val == b.nodes@[cb0[k] as int].val);
        }
        assert forall|k: int| 0 <= k < cb.len() - 1 implies vals[#[trigger] cb[k] as int].next
            == Some(cb[k + 1]) by {
            assert(cb0[k] < len_b && cb0[k + 1] < len_b);
            assert(cb[k] == cb0[k] + len_a && cb[k + 1] == cb0[k + 1] + len_a);
            assert(b.nodes@[cb0[k] as int].next == Some(cb0[k + 1]));
            assert(vals[cb[k] as int].next == shifted(b.nodes@[cb0[k] as int].next, a.length));
        }
        if len_b > 0 {
            assert(cb0[len_b - 1] < len_b);
            assert(cb[len_b - 1] == cb0[len_b - 1] + len_a);
            assert(vals[cb[len_b - 1] as int].next == shifted(
                b.nodes@[cb0[len_b - 1] as int].next,
                a.length,
            ));
        }
    }

    /// The joined arena holds both chains.
    proof fn lemma_joined_sources(a: LinkedList<T>, b: LinkedList<T>, vals: Seq<Node<T>>)
        requires
            Self::joined(a, b, vals),
        ensures
            sources_ok(vals, a.chain@, shift_chain(b.chain@, a.length), a.rank@, b.rank@, a@, b@),
    {
        Self::lemma_joined_first(a, b, vals);
        Self::lemma_joined_second(a, b, vals);
        reveal(sources_ok);
        let len_a = a.nodes@.len() as int;
        let len_b = b.nodes@.len() as int;
        assert(links_in_range(vals)) by {
            assert forall|x: int| 0 <= x < vals.len() implies match (#[trigger] vals[x]).next {
                Some(y) => y < vals.len(),
                None => true,
            } by {
                if x >= len_a {
                    let bx = b.nodes@[x - len_a];
                    assert(match bx.next {
                        Some(y) => y < len_b,
                        None => true,
                    });
                } else {
                    assert(vals[x] == a.nodes@[x]);
                }
            }
        }
    }
}

/// The link `next` moved `offset` slots further on.
pub open spec fn shifted(next: Option<usize>, offset: usize) -> Option<usize> {
    match next {
        Some(y) => Some((y + offset) as usize),
        None => None,
    }
}

/// Moves the links of the nodes from slot `from` on by `from` slots: what a
/// run of nodes whose links counted from zero needs once it sits behind
/// `from` other nodes.
fn shift_links<T>(nodes: &mut Vec<Node<T>>, from: usize)
    requires
        from <= old(nodes)@.len(),
        forall|x: int|
            from <= x < old(nodes)@.len() ==> match (#[trigger] old(nodes)@[x]).next {
                Some(y) => y + from < old(nodes)@.len(),
                None => true,
            },
    ensures
        final(nodes)@.len() == old(nodes)@.len(),
        forall|x: int| 0 <= x < from ==> final(nodes)@[x] == old(nodes)@[x],
        forall|x: int|
            from <= x < old(nodes)@.len() ==> (#[trigger] final(nodes)@[x]).val == old(
                nodes,
            )@[x].val && final(nodes)@[x].next == shifted(old(nodes)@[x].next, from),
{
    let total = nodes.len();
    let mut k = from;
    while k < total
        invariant
            from <= k <= total,
            total == old(nodes)@.len(),
            nodes@.len() == total,
            forall|x: int| 0 <= x < from ==> nodes@[x] == old(nodes)@[x],
            forall|x: int|
                from <= x < k ==> (#[trigger] nodes@[x]).val == old(nodes)@[x].val
                    && nodes@[x].next == shifted(old(nodes)@[x].next, from),
            forall|x: int| k <= x < total ==> nodes@[x] == old(nodes)@[x],
            forall|x: int|
                from <= x < total ==> match (#[trigger] old(nodes)@[x]).next {
                    Some(y) => y + from < total,
                    None => true,
                },
        decreases total - k,
    {
        match nodes[k].next {
            Some(y) => {
                nodes[k].next = Some(y + from);
            },
            None => {},
        }
        k = k + 1;
    }
}

/// The slots of `c` moved `offset` slots further on.
pub open spec fn shift_chain(c: Seq<usize>, offset: usize) -> Seq<usize> {
    c.map_values(|x: usize| (x + offset) as usize)
}

/// Walks the links from `start` to the node that links to nothing.
fn find_tail<T>(nodes: &Vec<Node<T>>, start: Option<usize>, chain: Ghost<Seq<usize>>) -> (r:
    Option<usize>)
    requires
        chain@.len() <= nodes@.len(),
        forall|k: int| 0 <= k < chain@.len() ==> (#[trigger] chain@[k]) < nodes@.len(),
        linked(nodes@, chain@),
        chain@.len() > 0 ==> nodes@[chain@[chain@.len() - 1] as int].next is None,
        start == (if chain@.len() == 0 {
            None
        } else {
            Some(chain@[0])
        }),
    ensures
        r == (if chain@.len() == 0 {
            None
        } else {
            Some(chain@[chain@.len() - 1])
        }),
{
    match start {
        None => None,
        Some(first) => {
            let mut node = first;
            let ghost mut p: int = 0;
            while nodes[node].next.is_some()
                invariant
                    0 <= p < chain@.len(),
                    node == chain@[p],
                    chain@.len() <= nodes@.len(),
                    forall|k: int| 0 <= k < chain@.len() ==> (#[trigger] chain@[k]) < nodes@.len(),
                    linked(nodes@, chain@),
                    nodes@[chain@[chain@.len() - 1] as int].next is None,
                decreases chain@.len() - p,
            {
                node = nodes[node].next.unwrap();
                proof {
                    p = p + 1;
                }
            }
            Some(node)
        },
    }
}

impl<T> Default for LinkedList<T> {
    fn default() -> (r: Self)
        ensures
            r.wf(),
            r@ == Seq::<T>::empty(),
    {
        Self::new()
    }
}

} // verus!
