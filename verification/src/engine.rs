//! The propagation engine: one breadth-first traversal that delivers a
//! block from an entry node to every node it can still reach.
//!
//! The traversal pops one node at a time, touches only that node's state,
//! and releases it before the next pop, so no two nodes are ever held at
//! once and cyclic topologies cannot wedge the run. A node that already
//! holds the block is counted as visited but does not forward it; a node
//! that receives it for the first time records it and enqueues its peers.

use vstd::prelude::*;
use crate::block::Block;
use crate::errors::SimulationError;
use crate::node::delivered_to;
use crate::scenario::SimulationScenario;

verus! {

/// What one propagation run reports back to its caller.
pub struct PropagationReport {
    /// How many distinct nodes the run visited.
    pub reached: usize,
    /// How many nodes the scenario holds in all.
    pub total: usize,
    /// One entry per visited node, in visit order: the node's id and
    /// whether the block was newly delivered there (`false` means the
    /// node already held it).
    pub visits: Vec<(String, bool)>,
}

/// The run never alters the shape of the graph: names, ids, peer lists
/// and the connection list all stay as they were; only node engines move.
pub open spec fn same_structure(pre: SimulationScenario, post: SimulationScenario) -> bool {
    &&& post.name == pre.name
    &&& post.connections@ == pre.connections@
    &&& post.nodes@.len() == pre.nodes@.len()
    &&& forall|i: int|
        0 <= i < pre.nodes@.len() ==> (#[trigger] post.nodes@[i]).id == pre.nodes@[i].id
    &&& forall|i: int|
        0 <= i < pre.nodes@.len() ==> (#[trigger] post.nodes@[i]).peers == pre.nodes@[i].peers
}

/// Relates a scenario before and after a successful run of block id `bid`
/// entered at the node carrying `eid`, together with the run's report:
/// the report lists exactly the nodes to which the run delivers (each
/// once, flagged by whether they were fresh), a fresh delivered node's
/// engine records the block and logs one delivery, and every other
/// engine is untouched.
pub open spec fn run_outcome(
    pre: SimulationScenario,
    post: SimulationScenario,
    bid: Seq<char>,
    eid: Seq<char>,
    rep: PropagationReport,
) -> bool {
    let e = pre.index_of(eid);
    &&& pre.has_id(eid)
    &&& same_structure(pre, post)
    &&& rep.total == pre.n()
    &&& rep.reached == rep.visits@.len()
    &&& forall|k: int|
        0 <= k < rep.visits@.len() ==> exists|i: int|
            0 <= i < pre.n() && (#[trigger] rep.visits@[k]).0@ == pre.nodes@[i].id@
                && pre.delivers(bid, e, i) && rep.visits@[k].1 == pre.fresh(i, bid)
    &&& forall|k1: int, k2: int|
        0 <= k1 < k2 < rep.visits@.len()
            ==> (#[trigger] rep.visits@[k1]).0@ != (#[trigger] rep.visits@[k2]).0@
    &&& forall|i: int|
        0 <= i < pre.n() && #[trigger] pre.delivers(bid, e, i) ==> exists|k: int|
            0 <= k < rep.visits@.len() && (#[trigger] rep.visits@[k]).0@ == pre.nodes@[i].id@
    &&& forall|i: int|
        0 <= i < pre.n() && #[trigger] pre.delivers(bid, e, i) && pre.fresh(i, bid)
            ==> delivered_to(pre.nodes@[i].engine, post.nodes@[i].engine, bid)
    &&& forall|i: int|
        0 <= i < pre.n() && !(#[trigger] pre.delivers(bid, e, i) && pre.fresh(i, bid))
            ==> post.nodes@[i].engine == pre.nodes@[i].engine
}

/// How many entries of `s` are true.
spec fn count_true(s: Seq<bool>) -> nat
    decreases s.len(),
{
    if s.len() == 0 {
        0
    } else {
        count_true(s.drop_last()) + if s.last() {
            1nat
        } else {
            0nat
        }
    }
}

proof fn lemma_count_true_le(s: Seq<bool>)
    ensures
        count_true(s) <= s.len(),
    decreases s.len(),
{
    if s.len() > 0 {
        lemma_count_true_le(s.drop_last());
    }
}

proof fn lemma_count_true_update(s: Seq<bool>, i: int)
    requires
        0 <= i < s.len(),
        !s[i],
    ensures
        count_true(s.update(i, true)) == count_true(s) + 1,
    decreases s.len(),
{
    let t = s.update(i, true);
    if i == s.len() - 1 {
        assert(t.drop_last() =~= s.drop_last());
    } else {
        assert(t.drop_last() =~= s.drop_last().update(i, true));
        lemma_count_true_update(s.drop_last(), i);
        assert(t.last() == s.last());
    }
}

/// A visited set that contains the head of a delivery path and is closed
/// under edges out of fresh visited nodes contains the path's end.
proof fn lemma_closed_under_delivery(
    g: SimulationScenario,
    bid: Seq<char>,
    p: Seq<int>,
    from: int,
    to: int,
    vis: Seq<bool>,
)
    requires
        g.is_delivery_path(bid, p, from, to),
        vis.len() == g.n(),
        vis[from],
        forall|a: int, b: int| #![trigger g.edge(a, b)]
            0 <= a < g.n() && 0 <= b < g.n() && vis[a] && g.fresh(a, bid) && g.edge(a, b)
                ==> vis[b],
    ensures
        vis[to],
    decreases p.len(),
{
    if p.len() >= 2 {
        assert(g.edge(p[0], p[1]));
        assert(g.fresh(p[0], bid));
        assert(vis[p[1]]);
        let q = p.subrange(1, p.len() as int);
        assert(q[0] == p[1]);
        assert(q[q.len() - 1] == p[p.len() - 1]);
        assert forall|k: int| #![trigger q[k]] 0 <= k < q.len() implies 0 <= q[k] < g.n() by {
            assert(q[k] == p[k + 1]);
        }
        assert forall|k: int| #![trigger q[k]] 0 <= k < q.len() - 1 implies g.edge(
            q[k],
            q[k + 1],
        ) by {
            assert(q[k] == p[k + 1] && q[k + 1] == p[k + 2]);
        }
        assert forall|k: int| #![trigger q[k]] 0 <= k < q.len() - 1 implies g.fresh(
            q[k],
            bid,
        ) by {
            assert(q[k] == p[k + 1]);
        }
        assert(g.is_delivery_path(bid, q, p[1], to));
        lemma_closed_under_delivery(g, bid, q, p[1], to, vis);
    }
}

/// A scenario with the same ids, peers and connections as a well-formed
/// one is well-formed itself, whatever its engines hold.
proof fn lemma_same_structure_wf(pre: SimulationScenario, post: SimulationScenario)
    requires
        pre.wf(),
        same_structure(pre, post),
    ensures
        post.wf(),
{
    assert forall|i: int| 0 <= i < post.n() implies (#[trigger] post.nodes@[i]).wf(
        post.n(),
    ) by {
        assert(pre.nodes@[i].wf(pre.n()));
        assert(post.nodes@[i].peers == pre.nodes@[i].peers);
    }
    assert forall|c: int| 0 <= c < post.connections@.len() implies post.has_id(
        (#[trigger] post.connections@[c]).0@,
    ) && post.has_id(post.connections@[c].1@) by {
        let x0 = post.connections@[c].0@;
        let x1 = post.connections@[c].1@;
        assert(pre.has_id(x0) && pre.has_id(x1));
        let i0 = choose|i: int| 0 <= i < pre.n() && pre.nodes@[i].id@ == x0;
        let i1 = choose|i: int| 0 <= i < pre.n() && pre.nodes@[i].id@ == x1;
        assert(post.nodes@[i0].id == pre.nodes@[i0].id);
        assert(post.nodes@[i1].id == pre.nodes@[i1].id);
    }
}

/// Drives propagation runs over a scenario.
pub struct SimulationEngine;

impl SimulationEngine {
    /// Delivers `block` to every node that a breadth-first traversal from
    /// the entry node can still reach, and reports the visited nodes.
    ///
    /// Fails without touching the scenario when `entry_node` is not
    /// registered, so an unknown entry reaches zero nodes instead of
    /// aborting the process.
    pub fn run(
        scenario: &mut SimulationScenario,
        block: &Block,
        entry_node: &str,
    ) -> (r: Result<PropagationReport, SimulationError>)
        requires
            old(scenario).wf(),
        ensures
            final(scenario).wf(),
            match r {
                Ok(rep) => run_outcome(
                    *old(scenario),
                    *final(scenario),
                    block.id@,
                    entry_node@,
                    rep,
                ),
                Err(e) => {
                    &&& e == SimulationError::UnknownNode
                    &&& !old(scenario).has_id(entry_node@)
                    &&& *final(scenario) == *old(scenario)
                },
            },
    {
        let ghost g = *old(scenario);
        let ghost bid = block.id@;
        let entry_key = entry_node.to_owned();
        let ei = match scenario.find_node(&entry_key) {
            Some(i) => i,
            None => {
                return Err(SimulationError::UnknownNode);
            },
        };
        let ghost e = ei as int;
        proof {
            g.lemma_id_index_unique(e, entry_node@);
        }
        let total = scenario.nodes.len();
        let n = total;

        let mut visited: Vec<bool> = Vec::new();
        let mut k0: usize = 0;
        while k0 < n
            invariant
                k0 <= n,
                visited@.len() == k0,
                forall|j: int| 0 <= j < k0 ==> !visited@[j],
            decreases n - k0,
        {
            visited.push(false);
            k0 += 1;
        }

        let mut queue: Vec<usize> = Vec::new();
        let mut head: usize = 0;
        queue.push(ei);
        let mut reached: usize = 0;
        let mut visits: Vec<(String, bool)> = Vec::new();
        let ghost mut order = Seq::<int>::empty();

        proof {
            g.lemma_delivers_self(bid, e);
            lemma_count_true_zero(visited@);
            assert(queue@[0] as int == e);
        }

        while head < queue.len()
            invariant
                g.wf(),
                g.n() == n,
                0 <= e < n,
                bid == block.id@,
                same_structure(g, *scenario),
                scenario.nodes@.len() == n,
                visited@.len() == n,
                head <= queue@.len(),
                forall|k: int| 0 <= k < queue@.len() ==> (#[trigger] queue@[k]) < n,
                reached <= n,
                reached == count_true(visited@),
                reached == order.len(),
                visits@.len() == order.len(),
                order.no_duplicates(),
                forall|k: int| 0 <= k < order.len() ==> 0 <= #[trigger] order[k] < n,
                forall|i: int| 0 <= i < n ==> (#[trigger] visited@[i] <==> order.contains(i)),
                forall|k: int|
                    0 <= k < order.len()
                        ==> (#[trigger] visits@[k]).0 == g.nodes@[order[k]].id,
                forall|k: int|
                    0 <= k < order.len() ==> (#[trigger] visits@[k]).1 == g.fresh(order[k], bid),
                forall|i: int|
                    0 <= i < n && #[trigger] visited@[i] ==> g.delivers(bid, e, i),
                forall|k: int|
                    head <= k < queue@.len()
                        ==> g.delivers(bid, e, (#[trigger] queue@[k]) as int),
                visited@[e] || exists|k: int|
                    head <= k < queue@.len() && (#[trigger] queue@[k]) as int == e,
                forall|a: int, b: int| #![trigger g.edge(a, b)]
                    0 <= a < n && 0 <= b < n && visited@[a] && g.fresh(a, bid) && g.edge(a, b)
                        ==> visited@[b] || exists|k: int|
                            head <= k < queue@.len() && (#[trigger] queue@[k]) as int == b,
                forall|i: int|
                    0 <= i < n && #[trigger] visited@[i] && g.fresh(i, bid) ==> delivered_to(
                        g.nodes@[i].engine,
                        scenario.nodes@[i].engine,
                        bid,
                    ),
                forall|i: int|
                    0 <= i < n && !(#[trigger] visited@[i] && g.fresh(i, bid))
                        ==> scenario.nodes@[i].engine == g.nodes@[i].engine,
            decreases n - reached, queue@.len() - head,
        {
            let i = queue[head];
            let ghost h0 = head as int;
            head += 1;
            if !visited[i] {
                let newly = !scenario.nodes[i].engine.has_received(&block.id);
                proof {
                    assert(scenario.nodes@[i as int].engine == g.nodes@[i as int].engine);
                    assert(newly == g.fresh(i as int, bid));
                    lemma_count_true_update(visited@, i as int);
                }
                let ghost vis0 = visited@;
                let ghost order0 = order;
                visited.set(i, true);
                proof {
                    lemma_count_true_le(visited@);
                    order = order.push(i as int);
                    assert(order[order.len() - 1] == i as int);
                    assert(forall|k: int| 0 <= k < order0.len() ==> order[k] == order0[k]);
                    assert(order.no_duplicates()) by {
                        assert(!order0.contains(i as int));
                        assert forall|k1: int, k2: int|
                            0 <= k1 < k2 < order.len() implies order[k1] != order[k2] by {
                            if k2 < order0.len() {
                                assert(order[k1] == order0[k1] && order[k2] == order0[k2]);
                            } else {
                                assert(order[k2] == i as int && order[k1] == order0[k1]);
                            }
                        }
                    }
                    assert forall|i2: int|
                        0 <= i2 < n implies (#[trigger] visited@[i2] <==> order.contains(
                        i2,
                    )) by {
                        if visited@[i2] {
                            if i2 == i as int {
                                assert(order[order.len() - 1] == i2);
                            } else {
                                assert(vis0[i2]);
                                let k = choose|k: int|
                                    0 <= k < order0.len() && order0[k] == i2;
                                assert(order[k] == i2);
                            }
                        }
                        if order.contains(i2) {
                            let k = choose|k: int| 0 <= k < order.len() && order[k] == i2;
                            if k < order0.len() {
                                assert(order0[k] == i2);
                                assert(vis0[i2]);
                            } else {
                                assert(i2 == i as int);
                            }
                        }
                    }
                    // the popped entry is now visited, so dropping it from the
                    // pending range preserves the entry and closure facts
                    assert(visited@[i as int]);
                    if !visited@[e] {
                        let k = choose|k: int|
                            h0 <= k < queue@.len() && (queue@[k]) as int == e;
                        assert(k != h0);
                        assert(head <= k < queue@.len() && (queue@[k]) as int == e);
                    }
                    assert forall|a: int, b: int| #![trigger g.edge(a, b)]
                        0 <= a < n && 0 <= b < n && visited@[a] && g.fresh(a, bid)
                            && g.edge(a, b) && a != i as int implies visited@[b] || exists|k:
                        int|
                        head <= k < queue@.len() && (#[trigger] queue@[k]) as int == b by {
                        assert(vis0[a]);
                        if !vis0[b] {
                            let k = choose|k: int|
                                h0 <= k < queue@.len() && (queue@[k]) as int == b;
                            if k == h0 {
                                assert(b == i as int);
                                assert(visited@[b]);
                            } else {
                                assert(head <= k < queue@.len() && (queue@[k]) as int == b);
                            }
                        }
                    }
                }
                reached += 1;
                let nm = scenario.nodes[i].id.clone();
                visits.push((nm, newly));
                if newly {
                    scenario.nodes[i].engine.propagate_block(block);
                    proof {
                        assert(delivered_to(
                            g.nodes@[i as int].engine,
                            scenario.nodes@[i as int].engine,
                            bid,
                        ));
                        assert(g.nodes@[i as int].wf(g.n()));
                    }
                    let np = scenario.nodes[i].peers.len();
                    let mut k2: usize = 0;
                    while k2 < np
                        invariant
                            g.wf(),
                            g.n() == n,
                            0 <= e < n,
                            bid == block.id@,
                            same_structure(g, *scenario),
                            scenario.nodes@.len() == n,
                            visited@.len() == n,
                            head <= queue@.len(),
                            forall|k: int| 0 <= k < queue@.len() ==> (#[trigger] queue@[k]) < n,
                            reached <= n,
                            reached == count_true(visited@),
                            reached == order.len(),
                            visits@.len() == order.len(),
                            order.no_duplicates(),
                            forall|k: int| 0 <= k < order.len() ==> 0 <= #[trigger] order[k] < n,
                            forall|i2: int|
                                0 <= i2 < n
                                    ==> (#[trigger] visited@[i2] <==> order.contains(i2)),
                            forall|k: int|
                                0 <= k < order.len()
                                    ==> (#[trigger] visits@[k]).0 == g.nodes@[order[k]].id,
                            forall|k: int|
                                0 <= k < order.len()
                                    ==> (#[trigger] visits@[k]).1 == g.fresh(order[k], bid),
                            forall|i2: int|
                                0 <= i2 < n && #[trigger] visited@[i2]
                                    ==> g.delivers(bid, e, i2),
                            forall|k: int|
                                head <= k < queue@.len()
                                    ==> g.delivers(bid, e, (#[trigger] queue@[k]) as int),
                            visited@[e] || exists|k: int|
                                head <= k < queue@.len() && (#[trigger] queue@[k]) as int == e,
                            forall|a: int, b: int| #![trigger g.edge(a, b)]
                                0 <= a < n && 0 <= b < n && a != i as int && visited@[a]
                                    && g.fresh(a, bid) && g.edge(a, b)
                                    ==> visited@[b] || exists|k: int|
                                        head <= k < queue@.len()
                                            && (#[trigger] queue@[k]) as int == b,
                            forall|i2: int|
                                0 <= i2 < n && #[trigger] visited@[i2] && g.fresh(i2, bid)
                                    ==> delivered_to(
                                    g.nodes@[i2].engine,
                                    scenario.nodes@[i2].engine,
                                    bid,
                                ),
                            forall|i2: int|
                                0 <= i2 < n && !(#[trigger] visited@[i2] && g.fresh(i2, bid))
                                    ==> scenario.nodes@[i2].engine == g.nodes@[i2].engine,
                            i < n,
                            visited@[i as int],
                            g.fresh(i as int, bid),
                            g.delivers(bid, e, i as int),
                            np == g.nodes@[i as int].peers@.len(),
                            k2 <= np,
                            forall|k: int|
                                0 <= k < k2
                                    ==> visited@[g.nodes@[i as int].peers@[k] as int]
                                        || exists|k3: int|
                                        head <= k3 < queue@.len() && (#[trigger] queue@[k3])
                                            == g.nodes@[i as int].peers@[k],
                        decreases np - k2,
                    {
                        let p = scenario.nodes[i].peers[k2];
                        proof {
                            assert(g.nodes@[i as int].peers@[k2 as int] == p);
                            assert(g.nodes@[i as int].peers@.contains(p));
                            assert(g.nodes@[i as int].wf(g.n()));
                            assert(g.edge(i as int, p as int));
                            g.lemma_delivers_step(bid, e, i as int, p as int);
                        }
                        if !visited[p] {
                            let ghost qprev = queue@;
                            queue.push(p);
                            proof {
                                assert(queue@ == qprev.push(p));
                                assert(forall|k: int|
                                    0 <= k < qprev.len() ==> queue@[k] == qprev[k]);
                                assert(queue@[queue@.len() - 1] == p);
                                if !visited@[e] {
                                    let k = choose|k: int|
                                        head <= k < qprev.len() && (qprev[k]) as int == e;
                                    assert(head <= k < queue@.len() && (queue@[k]) as int
                                        == e);
                                }
                                assert forall|a: int, b: int| #![trigger g.edge(a, b)]
                                    0 <= a < n && 0 <= b < n && a != i as int && visited@[a]
                                        && g.fresh(a, bid) && g.edge(a, b) implies visited@[b]
                                    || exists|k: int|
                                    head <= k < queue@.len() && (#[trigger] queue@[k]) as int
                                        == b by {
                                    if !visited@[b] {
                                        let k = choose|k: int|
                                            head <= k < qprev.len() && (qprev[k]) as int == b;
                                        assert(head <= k < queue@.len() && (queue@[k]) as int
                                            == b);
                                    }
                                }
                                assert forall|k: int|
                                    0 <= k < k2 + 1 implies visited@[g.nodes@[i as int].peers@[
                                    k] as int] || exists|k3: int|
                                    head <= k3 < queue@.len() && (#[trigger] queue@[k3])
                                        == g.nodes@[i as int].peers@[k] by {
                                    if k < k2 {
                                        if !visited@[g.nodes@[i as int].peers@[k] as int] {
                                            let k3 = choose|k3: int|
                                                head <= k3 < qprev.len() && (qprev[k3])
                                                    == g.nodes@[i as int].peers@[k];
                                            assert(queue@[k3] == qprev[k3]);
                                        }
                                    } else {
                                        let k3 = queue@.len() - 1;
                                        assert(head <= k3 && (queue@[k3])
                                            == g.nodes@[i as int].peers@[k]);
                                    }
                                }
                            }
                        } else {
                            proof {
                                assert forall|k: int|
                                    0 <= k < k2 + 1 implies visited@[g.nodes@[i as int].peers@[
                                    k] as int] || exists|k3: int|
                                    head <= k3 < queue@.len() && (#[trigger] queue@[k3])
                                        == g.nodes@[i as int].peers@[k] by {}
                            }
                        }
                        k2 += 1;
                    }
                    proof {
                        assert forall|a: int, b: int| #![trigger g.edge(a, b)]
                            0 <= a < n && 0 <= b < n && visited@[a] && g.fresh(a, bid)
                                && g.edge(a, b) implies visited@[b] || exists|k: int|
                            head <= k < queue@.len() && (#[trigger] queue@[k]) as int == b by {
                            if a == i as int {
                                let pk = choose|pk: int|
                                    0 <= pk < g.nodes@[a].peers@.len()
                                        && g.nodes@[a].peers@[pk] == b as usize;
                                assert(visited@[g.nodes@[a].peers@[pk] as int] || exists|k3:
                                    int|
                                    head <= k3 < queue@.len() && (#[trigger] queue@[k3])
                                        == g.nodes@[a].peers@[pk]);
                            }
                        }
                    }
                }
            } else {
                proof {
                    assert(visited@[i as int]);
                    if !visited@[e] {
                        let k = choose|k: int|
                            h0 <= k < queue@.len() && (queue@[k]) as int == e;
                        assert(k != h0);
                        assert(head <= k < queue@.len() && (queue@[k]) as int == e);
                    }
                    assert forall|a: int, b: int| #![trigger g.edge(a, b)]
                        0 <= a < n && 0 <= b < n && visited@[a] && g.fresh(a, bid)
                            && g.edge(a, b) implies visited@[b] || exists|k: int|
                        head <= k < queue@.len() && (#[trigger] queue@[k]) as int == b by {
                        if !visited@[b] {
                            let k = choose|k: int|
                                h0 <= k < queue@.len() && (queue@[k]) as int == b;
                            assert(k != h0);
                            assert(head <= k < queue@.len() && (queue@[k]) as int == b);
                        }
                    }
                }
            }
        }

        proof {
            assert(visited@[e]);
            assert forall|i: int|
                0 <= i < n && #[trigger] g.delivers(bid, e, i) implies visited@[i] by {
                let p = choose|p: Seq<int>| g.is_delivery_path(bid, p, e, i);
                lemma_closed_under_delivery(g, bid, p, e, i, visited@);
            }
            lemma_same_structure_wf(g, *scenario);
        }

        let rep = PropagationReport { reached, total, visits };
        proof {
            assert(g.index_of(entry_node@) == e);
            assert forall|k: int| 0 <= k < rep.visits@.len() implies exists|i: int|
                0 <= i < g.n() && (#[trigger] rep.visits@[k]).0@ == g.nodes@[i].id@
                    && g.delivers(bid, e, i) && rep.visits@[k].1 == g.fresh(i, bid) by {
                let i = order[k];
                assert(order.contains(i));
                assert(visited@[i]);
                assert(rep.visits@[k].0@ == g.nodes@[i].id@);
            }
            assert forall|k1: int, k2: int|
                0 <= k1 < k2 < rep.visits@.len() implies (#[trigger] rep.visits@[k1]).0@
                != (#[trigger] rep.visits@[k2]).0@ by {
                assert(order[k1] != order[k2]);
                assert(rep.visits@[k1].0 == g.nodes@[order[k1]].id);
                assert(rep.visits@[k2].0 == g.nodes@[order[k2]].id);
            }
            assert forall|i: int|
                0 <= i < g.n() && #[trigger] g.delivers(bid, e, i) implies exists|k: int|
                0 <= k < rep.visits@.len() && (#[trigger] rep.visits@[k]).0@
                    == g.nodes@[i].id@ by {
                assert(visited@[i]);
                assert(order.contains(i));
                let k = choose|k: int| 0 <= k < order.len() && order[k] == i;
                assert(rep.visits@[k].0 == g.nodes@[i].id);
            }
            assert forall|i: int|
                0 <= i < g.n() && #[trigger] g.delivers(bid, e, i) && g.fresh(i, bid)
                    implies delivered_to(
                g.nodes@[i].engine,
                scenario.nodes@[i].engine,
                bid,
            ) by {
                assert(visited@[i]);
            }
            assert forall|i: int|
                0 <= i < g.n() && !(#[trigger] g.delivers(bid, e, i) && g.fresh(i, bid))
                    implies scenario.nodes@[i].engine == g.nodes@[i].engine by {
                if !g.delivers(bid, e, i) {
                    assert(!visited@[i]);
                }
            }
            assert(run_outcome(g, *scenario, bid, entry_node@, rep));
        }
        Ok(rep)
    }
}

proof fn lemma_count_true_zero(s: Seq<bool>)
    requires
        forall|j: int| 0 <= j < s.len() ==> !s[j],
    ensures
        count_true(s) == 0,
    decreases s.len(),
{
    if s.len() > 0 {
        lemma_count_true_zero(s.drop_last());
    }
}

} // verus!
