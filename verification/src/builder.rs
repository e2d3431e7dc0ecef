//! The executable Huffman tree builder.
//!
//! Pending nodes live in an arena, indexed by insertion order; the
//! priority queue holds arena indices. Because `pop` yields a greatest
//! priority and the builder needs least keys, a pending node with
//! frequency `f` and insertion index `i` is queued under the priority
//! `(u64::MAX - f, u64::MAX - i)`: distinct insertion indices make all
//! priorities distinct, so every extraction is uniquely determined and
//! the built tree equals the mathematical `huff_tree` of the table.

use priority_queue::PriorityQueue;
use vstd::multiset::Multiset;
use vstd::prelude::*;
use vstd::seq_lib::group_to_multiset_ensures;

use crate::hist::{table_sum, FrequencyTable};
use crate::pq::{pq_contents, pq_len, pq_new, pq_pop, pq_push, prio_le};
use crate::tree::{
    argmin, build_from, ekey, freq_of, huff_tree, key_lt, lemma_argmin, lemma_q_freq_sum_nonneg,
    lemma_q_measures_remove, lemma_seed_queue, merge_nodes, q_freq_sum, seed_queue, step, Node,
};
use crate::InputError;

verus! {

/// The priority under which a pending entry is queued.
pub open spec fn eprio(e: (u64, Node)) -> (u64, u64) {
    ((u64::MAX - freq_of(e.1)) as u64, (u64::MAX - e.0) as u64)
}

/// The (item, priority) pair a pending entry contributes to the queue.
pub open spec fn pair_of(e: (u64, Node)) -> (u64, (u64, u64)) {
    (e.0, eprio(e))
}

/// The queue pairs of a whole pending sequence, in order.
pub open spec fn pairs_of(q: Seq<(u64, Node)>) -> Seq<(u64, (u64, u64))> {
    q.map_values(|e: (u64, Node)| pair_of(e))
}

/// The queue contents a pending sequence induces.
pub open spec fn ms_of(q: Seq<(u64, Node)>) -> Multiset<(u64, (u64, u64))> {
    pairs_of(q).to_multiset()
}

proof fn lemma_ms_of_push(q: Seq<(u64, Node)>, e: (u64, Node))
    ensures
        ms_of(q.push(e)) == ms_of(q).insert(pair_of(e)),
        ms_of(q.push(e)).len() == q.len() + 1,
{
    broadcast use group_to_multiset_ensures;

    assert(pairs_of(q.push(e)) =~= pairs_of(q).push(pair_of(e)));
}

proof fn lemma_ms_of_remove(q: Seq<(u64, Node)>, k: int)
    requires
        0 <= k < q.len(),
    ensures
        ms_of(q.remove(k)) == ms_of(q).remove(pair_of(q[k])),
{
    broadcast use group_to_multiset_ensures;

    assert(pairs_of(q.remove(k)) =~= pairs_of(q).remove(k));
    assert(pairs_of(q)[k] == pair_of(q[k]));
}

proof fn lemma_ms_of_len(q: Seq<(u64, Node)>)
    ensures
        ms_of(q).len() == q.len(),
{
    broadcast use group_to_multiset_ensures;

    assert(pairs_of(q).len() == q.len());
}

proof fn lemma_ms_of_member(q: Seq<(u64, Node)>, x: (u64, (u64, u64)))
    requires
        ms_of(q).count(x) > 0,
    ensures
        exists|k: int| 0 <= k < q.len() && x == pair_of(#[trigger] q[k]),
{
    broadcast use group_to_multiset_ensures;

    assert(pairs_of(q).contains(x));
    let k = choose|k: int| 0 <= k < pairs_of(q).len() && pairs_of(q)[k] == x;
    assert(pairs_of(q)[k] == pair_of(q[k]));
}

/// Pending sequences the builder's loop maintains: insertion indices
/// below `next`, pairwise distinct, each entry's node stored in the
/// arena under its insertion index.
pub open spec fn pending_inv(q: Seq<(u64, Node)>, arena: Seq<Node>, next: u64) -> bool {
    &&& arena.len() == next
    &&& forall|k: int| 0 <= k < q.len() ==> (#[trigger] q[k]).0 < next
    &&& forall|k: int| 0 <= k < q.len() ==> arena[(#[trigger] q[k]).0 as int] == q[k].1
    &&& forall|j: int, k: int| 0 <= j < k < q.len() ==> (#[trigger] q[j]).0 != (#[trigger] q[k]).0
}

/// A popped pair with maximal priority comes from the entry with the
/// least key, which is the one `argmin` names.
proof fn lemma_pop_is_argmin(q: Seq<(u64, Node)>, arena: Seq<Node>, next: u64, x: (u64, (u64, u64)))
    requires
        q.len() >= 1,
        pending_inv(q, arena, next),
        ms_of(q).count(x) > 0,
        forall|y: (u64, (u64, u64))| ms_of(q).count(y) > 0 ==> prio_le(y.1, x.1),
    ensures
        x == pair_of(q[argmin(q)]),
    decreases q.len(),
{
    broadcast use group_to_multiset_ensures;

    lemma_argmin(q);
    let am = argmin(q);
    lemma_ms_of_member(q, x);
    let k = choose|k: int| 0 <= k < q.len() && x == pair_of(#[trigger] q[k]);
    assert(pairs_of(q)[am] == pair_of(q[am]));
    assert(pairs_of(q).contains(pair_of(q[am])));
    assert(ms_of(q).count(pair_of(q[am])) > 0);
    assert(prio_le(eprio(q[am]), x.1));
    assert(!key_lt(ekey(q[k]), ekey(q[am])));
    // The two inequalities force equal keys; distinct insertion indices
    // then force the same entry.
    assert(freq_of(q[k].1) == freq_of(q[am].1) && q[k].0 == q[am].0);
    if k != am {
        assert(false);
    }
}

/// Builds the Huffman tree of a frequency table: seeds one leaf per
/// positive entry in ascending byte-value order, then repeatedly merges
/// the two pending nodes with the least (frequency, insertion index)
/// key, the first extracted becoming the right child. Returns
/// `EmptyInput` exactly when the table has no positive entry; otherwise
/// the result is the mathematical tree of the table.
#[verifier::rlimit(50)]
pub fn build_huffman_tree(color: &FrequencyTable) -> (r: Result<Node, InputError>)
    requires
        color.wf(),
        table_sum(color@, 256) <= u64::MAX,
    ensures
        (r is Ok) <==> exists|v: int| 0 <= v < 256 && color@[v] > 0,
        r is Ok ==> r->Ok_0 == huff_tree(color@),
        r is Err ==> r->Err_0 == InputError::EmptyInput,
{
    let ghost t = color@;
    proof {
        lemma_seed_queue(t, 256);
    }
    let mut arena: Vec<Node> = Vec::new();
    let mut pq: PriorityQueue<u64, (u64, u64)> = pq_new();
    let ghost mut gq: Seq<(u64, Node)> = Seq::empty();
    proof {
        broadcast use group_to_multiset_ensures;

        assert(pairs_of(gq) =~= Seq::<(u64, (u64, u64))>::empty());
        assert(ms_of(gq) =~= Multiset::<(u64, (u64, u64))>::empty());
    }
    let mut v: usize = 0;
    while v < 256
        invariant
            v <= 256,
            color.wf(),
            t == color@,
            gq == seed_queue(t, v as int),
            gq.len() <= v,
            arena@.len() == gq.len(),
            forall|k: int| 0 <= k < gq.len() ==> #[trigger] gq[k] == (k as u64, arena@[k]),
            pq_contents(pq) == ms_of(gq),
        decreases 256 - v,
    {
        let f = color.counts[v];
        if f > 0 {
            let idx = arena.len() as u64;
            let node = Node::new(v as u8, f);
            let prio = (u64::MAX - f, u64::MAX - idx);
            let ghost e = (idx, node);
            arena.push(node.duplicate());
            proof {
                assert forall|x: (u64, (u64, u64))| pq_contents(pq).count(x) > 0 implies x.0
                    != idx by {
                    lemma_ms_of_member(gq, x);
                }
            }
            pq_push(&mut pq, idx, prio);
            proof {
                lemma_ms_of_push(gq, e);
                assert(prio == eprio(e));
                gq = gq.push(e);
                assert(gq == seed_queue(t, v as int + 1));
            }
        } else {
            proof {
                assert(gq == seed_queue(t, v as int + 1));
            }
        }
        v = v + 1;
    }
    let ghost seed = seed_queue(t, 256);
    let ghost n0 = gq.len() as u64;
    if arena.len() == 0 {
        proof {
            lemma_ms_of_len(gq);
        }
        return Err(InputError::EmptyInput);
    }
    let mut next: u64 = arena.len() as u64;
    proof {
        lemma_ms_of_len(gq);
        assert(pending_inv(gq, arena@, next));
    }
    loop
        invariant
            1 <= gq.len(),
            gq.len() <= 256,
            next as int + gq.len() == 2 * n0,
            n0 <= 256,
            pending_inv(gq, arena@, next),
            pq_contents(pq) == ms_of(gq),
            crate::tree::q_wf(gq),
            q_freq_sum(gq) == table_sum(t, 256),
            table_sum(t, 256) <= u64::MAX,
            build_from(gq, next) == build_from(seed, n0),
        ensures
            gq.len() == 1,
            pending_inv(gq, arena@, next),
            pq_contents(pq) == ms_of(gq),
            gq[0].1 == build_from(seed, n0),
        decreases gq.len(),
    {
        let l = pq_len(&pq);
        proof {
            lemma_ms_of_len(gq);
        }
        if l < 2 {
            proof {
                assert(gq.len() == 1);
                assert(build_from(gq, next) == gq[0].1);
            }
            break ;
        }
        // first extraction: the least key
        let p1 = pq_pop(&mut pq);
        let (i1, prio1) = p1.unwrap();
        let ghost k1 = argmin(gq);
        let ghost gq1 = gq.remove(k1);
        proof {
            lemma_argmin(gq);
            lemma_pop_is_argmin(gq, arena@, next, (i1, prio1));
            lemma_ms_of_remove(gq, k1);
            lemma_q_measures_remove(gq, k1);
            lemma_ms_of_len(gq1);
            assert(i1 == gq[k1].0);
            assert(pending_inv(gq1, arena@, next)) by {
                assert(forall|j: int|
                    0 <= j < gq1.len() ==> #[trigger] gq1[j] == if j < k1 {
                        gq[j]
                    } else {
                        gq[j + 1]
                    });
            }
        }
        // second extraction: the least key of the rest
        let p2 = pq_pop(&mut pq);
        let (i2, prio2) = p2.unwrap();
        let ghost k2 = argmin(gq1);
        let ghost gq2 = gq1.remove(k2);
        proof {
            lemma_argmin(gq1);
            lemma_pop_is_argmin(gq1, arena@, next, (i2, prio2));
            lemma_ms_of_remove(gq1, k2);
            lemma_q_measures_remove(gq1, k2);
            lemma_q_freq_sum_nonneg(gq2);
            lemma_ms_of_len(gq2);
            assert(i2 == gq1[k2].0);
            assert(pending_inv(gq2, arena@, next)) by {
                assert(forall|j: int|
                    0 <= j < gq2.len() ==> #[trigger] gq2[j] == if j < k2 {
                        gq1[j]
                    } else {
                        gq1[j + 1]
                    });
            }
        }
        let first = arena[i1 as usize].duplicate();
        let second = arena[i2 as usize].duplicate();
        proof {
            assert(first == gq[k1].1);
            assert(second == gq1[k2].1);
            assert(freq_of(first) + freq_of(second) <= u64::MAX);
        }
        let fsum = first.get_freq() + second.get_freq();
        let merged = Node::Internal { freq: fsum, left: Box::new(second), right: Box::new(first) };
        let prio = (u64::MAX - fsum, u64::MAX - next);
        let ghost e = (next, merged);
        arena.push(merged.duplicate());
        proof {
            assert forall|x: (u64, (u64, u64))| pq_contents(pq).count(x) > 0 implies x.0
                != next by {
                lemma_ms_of_member(gq2, x);
            }
        }
        pq_push(&mut pq, next, prio);
        proof {
            assert(merged == merge_nodes(gq[k1].1, gq1[k2].1));
            lemma_ms_of_push(gq2, e);
            assert(prio == eprio(e));
            let gq3 = gq2.push(e);
            assert(gq3 == step(gq, next));
            assert(build_from(gq, next) == build_from(gq3, (next + 1) as u64));
            assert(pending_inv(gq3, arena@, (next + 1) as u64)) by {
                assert(forall|j: int|
                    0 <= j < gq2.len() ==> #[trigger] gq2[j] == if j < k2 {
                        gq1[j]
                    } else {
                        gq1[j + 1]
                    });
                assert(forall|j: int| 0 <= j < gq2.len() ==> gq3[j] == gq2[j]);
            }
            assert(crate::tree::q_wf(gq3)) by {
                assert(forall|j: int|
                    0 <= j < gq2.len() ==> gq3[j] == gq2[j] && crate::tree::node_wf(
                        #[trigger] gq3[j].1,
                    ));
            }
            assert(gq3.drop_last() =~= gq2);
            gq = gq3;
        }
        next = next + 1;
    }
    // one pending entry remains: the root
    let p = pq_pop(&mut pq);
    let (i, _prio) = p.unwrap();
    proof {
        lemma_ms_of_len(gq);
        lemma_ms_of_member(gq, (i, _prio));
    }
    let root = arena[i as usize].duplicate();
    proof {
        assert(root == gq[0].1);
    }
    Ok(root)
}

} // verus!
