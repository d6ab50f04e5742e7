use vstd::prelude::*;
use vstd::set_lib::{set_int_range, lemma_int_range, lemma_subset_equality};

verus! {

/// Source `a` is consulted before source `b`: it has a strictly higher
/// priority, or the same priority and it was registered earlier.
pub open spec fn ranks_before(priorities: Seq<u32>, a: int, b: int) -> bool {
    priorities[a] > priorities[b] || (priorities[a] == priorities[b] && a < b)
}

/// `order` lists positions of `priorities` (each in range, `n` of them) so
/// that every position comes before the ones that rank after it: by priority,
/// highest first, and in registration order among equal priorities.
pub open spec fn is_stable_priority_order(priorities: Seq<u32>, order: Seq<int>, n: int) -> bool {
    &&& order.len() == n
    &&& forall|k: int| 0 <= k < order.len() ==> 0 <= #[trigger] order[k] < priorities.len()
    &&& forall|k: int, l: int|
        0 <= k < l < order.len() ==> ranks_before(priorities, #[trigger] order[k], #[trigger] order[l])
}

/// `output` and `output_priorities` are `input` and `priorities` rearranged,
/// both the same way, into the stable descending-priority order.
pub open spec fn is_priority_sorted<S>(
    input: Seq<S>,
    priorities: Seq<u32>,
    output: Seq<S>,
    output_priorities: Seq<u32>,
) -> bool {
    exists|order: Seq<int>|
        {
            &&& #[trigger] is_stable_priority_order(priorities, order, input.len() as int)
            &&& output.len() == order.len()
            &&& output_priorities.len() == order.len()
            &&& forall|k: int| 0 <= k < order.len() ==> #[trigger] output[k] == input[order[k]]
            &&& forall|k: int|
                0 <= k < order.len() ==> #[trigger] output_priorities[k] == priorities[order[k]]
        }
}

/// A stable priority order lists every position exactly once.
proof fn lemma_order_covers(priorities: Seq<u32>, order: Seq<int>)
    requires
        is_stable_priority_order(priorities, order, priorities.len() as int),
    ensures
        order.no_duplicates(),
        forall|a: int| 0 <= a < priorities.len() ==> order.contains(a),
{
    broadcast use vstd::seq_lib::seq_to_set_is_finite;

    let n = priorities.len() as int;
    assert forall|i: int, j: int| 0 <= i < order.len() && 0 <= j < order.len() && i != j implies order[i]
        != order[j] by {
        if i < j {
            assert(ranks_before(priorities, order[i], order[j]));
        } else {
            assert(ranks_before(priorities, order[j], order[i]));
        }
    }
    order.unique_seq_to_set();
    lemma_int_range(0, n);
    assert(order.to_set().subset_of(set_int_range(0, n)));
    lemma_subset_equality(order.to_set(), set_int_range(0, n));
    assert forall|a: int| 0 <= a < n implies order.contains(a) by {
        assert(set_int_range(0, n).contains(a));
        assert(order.to_set().contains(a));
    }
}

/// Two stable priority orders of the same priorities agree on their first
/// `k` positions.
proof fn lemma_orders_agree(priorities: Seq<u32>, o1: Seq<int>, o2: Seq<int>, k: int)
    requires
        is_stable_priority_order(priorities, o1, priorities.len() as int),
        is_stable_priority_order(priorities, o2, priorities.len() as int),
        0 <= k <= priorities.len(),
    ensures
        forall|j: int| 0 <= j < k ==> o1[j] == o2[j],
    decreases k,
{
    if k > 0 {
        lemma_orders_agree(priorities, o1, o2, k - 1);
        lemma_order_covers(priorities, o1);
        lemma_order_covers(priorities, o2);
        let a = o1[k - 1];
        let b = o2[k - 1];
        if a != b {
            let n = priorities.len() as int;
            assert(0 <= a < n && 0 <= b < n);
            assert(o2.contains(a) && o1.contains(b));
            let m = choose|m: int| 0 <= m < o2.len() && o2[m] == a;
            let p = choose|p: int| 0 <= p < o1.len() && o1[p] == b;
            if m < k - 1 {
                assert(o1[m] == o2[m]);
                assert(o1[m] != o1[k - 1]);
            }
            if p < k - 1 {
                assert(o2[p] == o1[p]);
                assert(o2[p] != o2[k - 1]);
            }
            assert(ranks_before(priorities, a, b));
        }
    }
}

/// The stable descending-priority arrangement is unique: whatever satisfies
/// `is_priority_sorted` for the same input and priorities is the same
/// sequence of sources with the same priorities.
pub proof fn lemma_priority_sorted_unique<S>(
    input: Seq<S>,
    priorities: Seq<u32>,
    out1: Seq<S>,
    prio1: Seq<u32>,
    out2: Seq<S>,
    prio2: Seq<u32>,
)
    requires
        input.len() == priorities.len(),
        is_priority_sorted(input, priorities, out1, prio1),
        is_priority_sorted(input, priorities, out2, prio2),
    ensures
        out1 == out2,
        prio1 == prio2,
{
    let o1 = choose|order: Seq<int>|
        {
            &&& #[trigger] is_stable_priority_order(priorities, order, input.len() as int)
            &&& out1.len() == order.len()
            &&& prio1.len() == order.len()
            &&& forall|k: int| 0 <= k < order.len() ==> #[trigger] out1[k] == input[order[k]]
            &&& forall|k: int| 0 <= k < order.len() ==> #[trigger] prio1[k] == priorities[order[k]]
        };
    let o2 = choose|order: Seq<int>|
        {
            &&& #[trigger] is_stable_priority_order(priorities, order, input.len() as int)
            &&& out2.len() == order.len()
            &&& prio2.len() == order.len()
            &&& forall|k: int| 0 <= k < order.len() ==> #[trigger] out2[k] == input[order[k]]
            &&& forall|k: int| 0 <= k < order.len() ==> #[trigger] prio2[k] == priorities[order[k]]
        };
    lemma_orders_agree(priorities, o1, o2, priorities.len() as int);
    assert(out1 =~= out2);
    assert(prio1 =~= prio2);
}

/// The order witnessing a stable descending-priority arrangement.
spec fn witness_order<S>(input: Seq<S>, priorities: Seq<u32>, output: Seq<S>, output_priorities: Seq<u32>) -> Seq<int> {
    choose|order: Seq<int>|
        {
            &&& #[trigger] is_stable_priority_order(priorities, order, input.len() as int)
            &&& output.len() == order.len()
            &&& output_priorities.len() == order.len()
            &&& forall|k: int| 0 <= k < order.len() ==> #[trigger] output[k] == input[order[k]]
            &&& forall|k: int|
                0 <= k < order.len() ==> #[trigger] output_priorities[k] == priorities[order[k]]
        }
}

/// In a stable descending-priority arrangement, priorities never increase
/// along the arrangement, and it is as long as its input.
pub proof fn lemma_priority_sorted_descends<S>(
    input: Seq<S>,
    priorities: Seq<u32>,
    output: Seq<S>,
    output_priorities: Seq<u32>,
)
    requires
        input.len() == priorities.len(),
        is_priority_sorted(input, priorities, output, output_priorities),
    ensures
        output.len() == input.len(),
        output_priorities.len() == input.len(),
        forall|k: int, l: int|
            0 <= k <= l < output_priorities.len() ==> #[trigger] output_priorities[k]
                >= #[trigger] output_priorities[l],
{
    let order = witness_order(input, priorities, output, output_priorities);
    assert forall|k: int, l: int|
        0 <= k <= l < output_priorities.len() implies #[trigger] output_priorities[k]
        >= #[trigger] output_priorities[l] by {
        if k < l {
            assert(ranks_before(priorities, order[k], order[l]));
        }
    }
}

/// In a stable descending-priority arrangement, the source given at
/// position `a` appears, with its own priority.
pub proof fn lemma_priority_sorted_keeps<S>(
    input: Seq<S>,
    priorities: Seq<u32>,
    output: Seq<S>,
    output_priorities: Seq<u32>,
    a: int,
)
    requires
        input.len() == priorities.len(),
        is_priority_sorted(input, priorities, output, output_priorities),
        0 <= a < input.len(),
    ensures
        exists|k: int| 0 <= k < output.len() && output[k] == input[a] && output_priorities[k] == priorities[a],
{
    let order = witness_order(input, priorities, output, output_priorities);
    lemma_order_covers(priorities, order);
    assert(order.contains(a));
    let k = choose|k: int| 0 <= k < order.len() && order[k] == a;
    assert(output[k] == input[a] && output_priorities[k] == priorities[a]);
}

/// In a stable descending-priority arrangement, of two sources with equal
/// priority the one given first (position `a`) comes before the one given
/// later (position `b`).
pub proof fn lemma_priority_sorted_is_stable<S>(
    input: Seq<S>,
    priorities: Seq<u32>,
    output: Seq<S>,
    output_priorities: Seq<u32>,
    a: int,
    b: int,
)
    requires
        input.len() == priorities.len(),
        is_priority_sorted(input, priorities, output, output_priorities),
        0 <= a < b < input.len(),
        priorities[a] == priorities[b],
    ensures
        exists|ka: int, kb: int|
            0 <= ka < kb < output.len() && output[ka] == input[a] && output[kb] == input[b],
{
    let order = witness_order(input, priorities, output, output_priorities);
    lemma_order_covers(priorities, order);
    assert(order.contains(a) && order.contains(b));
    let ka = choose|k: int| 0 <= k < order.len() && order[k] == a;
    let kb = choose|k: int| 0 <= k < order.len() && order[k] == b;
    if kb < ka {
        assert(ranks_before(priorities, order[kb], order[ka]));
    }
    assert(ka != kb);
    assert(output[ka] == input[a] && output[kb] == input[b]);
}

/// The terrain sources known to the engine, kept in the order in which they
/// are consulted: highest priority first, ties in registration order.
pub struct SourceResolver<S> {
    sources: Vec<S>,
    priorities: Vec<u32>,
}

impl<S> View for SourceResolver<S> {
    type V = Seq<S>;

    closed spec fn view(&self) -> Seq<S> {
        self.sources@
    }
}

impl<S> SourceResolver<S> {
    /// The priority of each source, in consultation order.
    pub closed spec fn priority_seq(&self) -> Seq<u32> {
        self.priorities@
    }

    /// Sources and priorities line up, and priorities never increase along
    /// the consultation order.
    pub closed spec fn wf(&self) -> bool {
        &&& self.sources@.len() == self.priorities@.len()
        &&& forall|k: int, l: int|
            0 <= k <= l < self.priorities@.len() ==> #[trigger] self.priorities@[k]
                >= #[trigger] self.priorities@[l]
    }

    /// The sources of `entries`, in the order given.
    pub open spec fn entry_sources(entries: Seq<(S, u32)>) -> Seq<S> {
        entries.map_values(|e: (S, u32)| e.0)
    }

    /// The priorities of `entries`, in the order given.
    pub open spec fn entry_priorities(entries: Seq<(S, u32)>) -> Seq<u32> {
        entries.map_values(|e: (S, u32)| e.1)
    }

    /// Takes each source with its priority and orders the sources by
    /// descending priority; sources of equal priority keep the order in which
    /// they were given.
    pub fn new(entries: Vec<(S, u32)>) -> (r: Self)
        ensures
            r.wf(),
            r@.len() == entries@.len(),
            r.priority_seq().len() == entries@.len(),
            forall|k: int, l: int|
                0 <= k <= l < r.priority_seq().len() ==> #[trigger] r.priority_seq()[k]
                    >= #[trigger] r.priority_seq()[l],
            is_priority_sorted(
                Self::entry_sources(entries@),
                Self::entry_priorities(entries@),
                r@,
                r.priority_seq(),
            ),
    {
        let ghost e0 = entries@;
        let ghost src0 = Self::entry_sources(entries@);
        let ghost pr0 = Self::entry_priorities(entries@);
        let n = entries.len();
        let mut rest = entries;
        let mut out_s: Vec<S> = Vec::new();
        let mut out_p: Vec<u32> = Vec::new();
        let ghost mut order: Seq<int> = Seq::empty();
        let mut i: usize = 0;
        while i < n
            invariant
                n == src0.len(),
                n == pr0.len(),
                n == e0.len(),
                src0 == Self::entry_sources(e0),
                pr0 == Self::entry_priorities(e0),
                i <= n,
                rest@ == e0.subrange(i as int, n as int),
                out_s@.len() == i,
                out_p@.len() == i,
                order.len() == i,
                forall|k: int| 0 <= k < order.len() ==> 0 <= #[trigger] order[k] < i,
                forall|k: int, l: int|
                    0 <= k < l < order.len() ==> ranks_before(pr0, #[trigger] order[k], #[trigger] order[l]),
                forall|k: int| 0 <= k < i ==> #[trigger] out_s@[k] == src0[order[k]],
                forall|k: int| 0 <= k < i ==> #[trigger] out_p@[k] == pr0[order[k]],
            decreases n - i,
        {
            let (s, p) = rest.remove(0);
            assert(s == src0[i as int]);
            assert(p == pr0[i as int]);
            let mut pos: usize = 0;
            while pos < out_p.len() && out_p[pos] >= p
                invariant
                    pos <= out_p@.len(),
                    forall|j: int| 0 <= j < pos ==> #[trigger] out_p@[j] >= p,
                decreases out_p@.len() - pos,
            {
                pos = pos + 1;
            }
            proof {
                // Every entry from `pos` on has a priority below `p`.
                assert forall|j: int| pos <= j < out_p@.len() implies #[trigger] out_p@[j] < p by {
                    if j > pos {
                        assert(ranks_before(pr0, order[pos as int], order[j]));
                    }
                }
            }
            out_s.insert(pos, s);
            out_p.insert(pos, p);
            proof {
                let old_order = order;
                order = old_order.insert(pos as int, i as int);
                assert forall|k: int, l: int|
                    0 <= k < l < order.len() implies ranks_before(pr0, #[trigger] order[k], #[trigger] order[l]) by {
                    if k < pos && l < pos {
                        assert(order[k] == old_order[k] && order[l] == old_order[l]);
                    } else if k < pos && l == pos {
                        assert(order[k] == old_order[k]);
                        assert(out_p@[k] == pr0[old_order[k]]);
                    } else if k < pos && l > pos {
                        assert(order[k] == old_order[k] && order[l] == old_order[l - 1]);
                    } else if k == pos {
                        assert(order[l] == old_order[l - 1]);
                        assert(out_p@[l] == pr0[old_order[l - 1]]);
                    } else {
                        assert(order[k] == old_order[k - 1] && order[l] == old_order[l - 1]);
                    }
                }
                assert forall|k: int| 0 <= k < i + 1 implies #[trigger] out_s@[k] == src0[order[k]] by {
                    if k > pos {
                        assert(order[k] == old_order[k - 1]);
                    }
                }
                assert forall|k: int| 0 <= k < i + 1 implies #[trigger] out_p@[k] == pr0[order[k]] by {
                    if k > pos {
                        assert(order[k] == old_order[k - 1]);
                    }
                }
            }
            i = i + 1;
        }
        let r = SourceResolver { sources: out_s, priorities: out_p };
        proof {
            assert(is_stable_priority_order(pr0, order, n as int));
            assert forall|k: int, l: int|
                0 <= k <= l < r.priorities@.len() implies #[trigger] r.priorities@[k]
                >= #[trigger] r.priorities@[l] by {
                if k < l {
                    assert(ranks_before(pr0, order[k], order[l]));
                }
            }
        }
        r
    }

    /// Resolution prefers priority: a source of strictly higher priority than
    /// the one at position `k` of the consultation order stands before it,
    /// so `resolve` has asked it, and been refused, before accepting `k`.
    pub proof fn lemma_higher_priority_consulted_first(&self, k: int, j: int)
        requires
            self.wf(),
            0 <= k < self@.len(),
            0 <= j < self@.len(),
            self.priority_seq()[j] > self.priority_seq()[k],
        ensures
            j < k,
    {
        if j >= k {
            assert(self.priorities@[k] >= self.priorities@[j]);
        }
    }

    /// The sources, in consultation order.
    pub fn sources(&self) -> (r: &[S])
        ensures
            r@ == self@,
    {
        self.sources.as_slice()
    }

    /// The first source, in consultation order, that `supports` accepts, or
    /// `None` where it accepts none. Each source is asked at most once, in
    /// order, and the search stops at the first acceptance.
    pub fn resolve<F: Fn(&S) -> bool>(&self, supports: F) -> (r: Option<&S>)
        requires
            forall|k: int| 0 <= k < self@.len() ==> call_requires(supports, (&self@[k],)),
        ensures
            r is None ==> forall|k: int|
                0 <= k < self@.len() ==> call_ensures(supports, (&self@[k],), false),
            r matches Some(s) ==> exists|k: int|
                {
                    &&& 0 <= k < self@.len()
                    &&& *s == self@[k]
                    &&& call_ensures(supports, (&self@[k],), true)
                    &&& forall|j: int| 0 <= j < k ==> call_ensures(supports, (&self@[j],), false)
                },
    {
        let mut k: usize = 0;
        while k < self.sources.len()
            invariant
                k <= self@.len(),
                self@ == self.sources@,
                forall|j: int| 0 <= j < self@.len() ==> call_requires(supports, (&self@[j],)),
                forall|j: int| 0 <= j < k ==> call_ensures(supports, (&self@[j],), false),
            decreases self@.len() - k,
        {
            let s = &self.sources[k];
            if supports(s) {
                return Some(s);
            }
            k = k + 1;
        }
        None
    }
}

} // verus!
