//! Propagation laws: what any successful run or construction step
//! guarantees, proved once from the operations' contracts.

use vstd::prelude::*;
use crate::engine::{run_outcome, PropagationReport};
use crate::node::delivered_to;
use crate::scenario::{connect_ok, SimulationScenario};

verus! {

/// The ids listed by a report, in visit order.
pub open spec fn visit_ids(rep: PropagationReport) -> Seq<Seq<char>> {
    rep.visits@.map_values(|v: (String, bool)| v.0@)
}

/// The ids of the nodes reachable along directed edges from the node at
/// index `e`.
pub open spec fn reachable_ids(s: SimulationScenario, e: int) -> Set<Seq<char>> {
    Set::new(
        |id: Seq<char>|
            exists|i: int| 0 <= i < s.n() && s.nodes@[i].id@ == id && s.reaches(e, i),
    )
}

/// Coverage: on a scenario where no node has yet recorded the block, a
/// run visits exactly the nodes reachable from the entry along directed
/// edges — each listed once and newly delivered — and the reached count
/// equals the number of reachable nodes.
pub proof fn lemma_coverage(
    pre: SimulationScenario,
    post: SimulationScenario,
    bid: Seq<char>,
    eid: Seq<char>,
    rep: PropagationReport,
)
    requires
        pre.wf(),
        run_outcome(pre, post, bid, eid, rep),
        forall|i: int| 0 <= i < pre.n() ==> pre.fresh(i, bid),
    ensures
        forall|i: int|
            0 <= i < pre.n()
                ==> (pre.reaches(pre.index_of(eid), i) <==> visit_ids(rep).contains(
                pre.nodes@[i].id@,
            )),
        forall|k: int| 0 <= k < rep.visits@.len() ==> (#[trigger] rep.visits@[k]).1,
        visit_ids(rep).to_set() == reachable_ids(pre, pre.index_of(eid)),
        rep.reached == reachable_ids(pre, pre.index_of(eid)).len(),
{
    let e = pre.index_of(eid);
    let ids = visit_ids(rep);
    assert(ids.len() == rep.visits@.len());
    assert forall|k: int| 0 <= k < rep.visits@.len() implies ids[k]
        == (#[trigger] rep.visits@[k]).0@ by {}
    assert forall|i: int|
        0 <= i < pre.n() implies (pre.delivers(bid, e, i) <==> pre.reaches(e, i)) by {
        pre.lemma_delivers_is_reaches_when_all_fresh(bid, e, i);
    }
    assert forall|i: int|
        0 <= i < pre.n() && pre.reaches(e, i) implies ids.contains(pre.nodes@[i].id@) by {
        assert(pre.delivers(bid, e, i));
        let k = choose|k: int|
            0 <= k < rep.visits@.len() && rep.visits@[k].0@ == pre.nodes@[i].id@;
        assert(ids[k] == pre.nodes@[i].id@);
    }
    assert forall|i: int|
        0 <= i < pre.n() && ids.contains(pre.nodes@[i].id@) implies pre.reaches(e, i) by {
        let k = choose|k: int| 0 <= k < ids.len() && ids[k] == pre.nodes@[i].id@;
        assert(rep.visits@[k].0@ == pre.nodes@[i].id@);
        let i2 = choose|i2: int|
            0 <= i2 < pre.n() && rep.visits@[k].0@ == pre.nodes@[i2].id@ && pre.delivers(
                bid,
                e,
                i2,
            ) && rep.visits@[k].1 == pre.fresh(i2, bid);
        assert(pre.nodes@[i2].id@ == pre.nodes@[i].id@);
        assert(i2 == i);
    }
    assert forall|k: int| 0 <= k < rep.visits@.len() implies (#[trigger] rep.visits@[k]).1 by {
        let i2 = choose|i2: int|
            0 <= i2 < pre.n() && rep.visits@[k].0@ == pre.nodes@[i2].id@ && pre.delivers(
                bid,
                e,
                i2,
            ) && rep.visits@[k].1 == pre.fresh(i2, bid);
        assert(pre.fresh(i2, bid));
    }
    assert(ids.to_set() =~= reachable_ids(pre, e)) by {
        assert forall|x: Seq<char>| ids.to_set().contains(x) implies reachable_ids(
            pre,
            e,
        ).contains(x) by {
            let k = choose|k: int| 0 <= k < ids.len() && ids[k] == x;
            assert(rep.visits@[k].0@ == x);
            let i2 = choose|i2: int|
                0 <= i2 < pre.n() && rep.visits@[k].0@ == pre.nodes@[i2].id@ && pre.delivers(
                    bid,
                    e,
                    i2,
                ) && rep.visits@[k].1 == pre.fresh(i2, bid);
            assert(pre.reaches(e, i2));
            assert(pre.nodes@[i2].id@ == x);
        }
        assert forall|x: Seq<char>| reachable_ids(pre, e).contains(x) implies ids.to_set()
            .contains(x) by {
            let i = choose|i: int|
                0 <= i < pre.n() && pre.nodes@[i].id@ == x && pre.reaches(e, i);
            assert(ids.contains(pre.nodes@[i].id@));
        }
    }
    assert(ids.no_duplicates()) by {
        assert forall|k1: int, k2: int|
            0 <= k1 < k2 < ids.len() implies ids[k1] != ids[k2] by {
            assert(rep.visits@[k1].0@ != rep.visits@[k2].0@);
        }
    }
    ids.unique_seq_to_set();
    assert(rep.reached == reachable_ids(pre, e).len());
}

/// No duplicate propagation: one run fires the delivery side effect at
/// most once per node, whatever the topology — a fresh node the run
/// delivers to gains exactly one log entry, carrying the block's id, and
/// every other node's log is untouched.
pub proof fn lemma_no_duplicate_propagation(
    pre: SimulationScenario,
    post: SimulationScenario,
    bid: Seq<char>,
    eid: Seq<char>,
    rep: PropagationReport,
)
    requires
        pre.wf(),
        run_outcome(pre, post, bid, eid, rep),
    ensures
        forall|i: int|
            0 <= i < pre.n() && #[trigger] pre.delivers(bid, pre.index_of(eid), i)
                && pre.fresh(i, bid) ==> post.nodes@[i].engine.log() == pre.nodes@[i].engine.log(
            ).push(bid),
        forall|i: int|
            0 <= i < pre.n() && !(#[trigger] pre.delivers(bid, pre.index_of(eid), i)
                && pre.fresh(i, bid)) ==> post.nodes@[i].engine.log()
                == pre.nodes@[i].engine.log(),
{
    let e = pre.index_of(eid);
    assert forall|i: int|
        0 <= i < pre.n() && #[trigger] pre.delivers(bid, e, i) && pre.fresh(i, bid)
            implies post.nodes@[i].engine.log() == pre.nodes@[i].engine.log().push(bid) by {
        assert(delivered_to(pre.nodes@[i].engine, post.nodes@[i].engine, bid));
    }
}

/// Idempotence of re-running: after a run has delivered the block, a
/// second run with the same block finds the entry node already holding
/// it, so it alters no node's engine, and its report holds exactly one
/// visit: the entry, not newly delivered.
pub proof fn lemma_rerun_delivers_nothing_new(
    pre: SimulationScenario,
    mid: SimulationScenario,
    post: SimulationScenario,
    bid: Seq<char>,
    eid: Seq<char>,
    rep1: PropagationReport,
    rep2: PropagationReport,
)
    requires
        pre.wf(),
        mid.wf(),
        run_outcome(pre, mid, bid, eid, rep1),
        run_outcome(mid, post, bid, eid, rep2),
    ensures
        forall|i: int|
            0 <= i < mid.nodes@.len() ==> (#[trigger] post.nodes@[i]).engine
                == mid.nodes@[i].engine,
        rep2.visits@.len() == 1,
        rep2.reached == 1,
        rep2.visits@[0].0@ == eid,
        rep2.visits@[0].1 == false,
{
    let e = pre.index_of(eid);
    assert(0 <= e < pre.n() && pre.nodes@[e].id@ == eid);
    assert(mid.nodes@[e].id == pre.nodes@[e].id);
    mid.lemma_id_index_unique(e, eid);
    assert(mid.index_of(eid) == e);
    pre.lemma_delivers_self(bid, e);
    if pre.fresh(e, bid) {
        assert(delivered_to(pre.nodes@[e].engine, mid.nodes@[e].engine, bid));
        assert(mid.nodes@[e].engine.has_seen(bid));
    } else {
        assert(mid.nodes@[e].engine == pre.nodes@[e].engine);
    }
    assert(!mid.fresh(e, bid));
    assert forall|t: int| 0 <= t < mid.n() implies (mid.delivers(bid, e, t) <==> t == e) by {
        mid.lemma_delivers_only_self_when_entry_seen(bid, e, t);
    }
    assert forall|i: int|
        0 <= i < mid.nodes@.len() implies (#[trigger] post.nodes@[i]).engine
        == mid.nodes@[i].engine by {
        if mid.delivers(bid, e, i) && mid.fresh(i, bid) {
            assert(i == e);
            assert(false);
        }
    }
    mid.lemma_delivers_self(bid, e);
    assert(mid.delivers(bid, e, e));
    let k0 = choose|k: int|
        0 <= k < rep2.visits@.len() && rep2.visits@[k].0@ == mid.nodes@[e].id@;
    assert(rep2.visits@.len() >= 1);
    assert forall|k: int|
        0 <= k < rep2.visits@.len() implies rep2.visits@[k].0@ == eid && rep2.visits@[k].1
        == false by {
        let i2 = choose|i2: int|
            0 <= i2 < mid.n() && rep2.visits@[k].0@ == mid.nodes@[i2].id@ && mid.delivers(
                bid,
                e,
                i2,
            ) && rep2.visits@[k].1 == mid.fresh(i2, bid);
        assert(i2 == e);
        assert(mid.nodes@[e].id@ == eid);
    }
    if rep2.visits@.len() >= 2 {
        assert(rep2.visits@[0].0@ == eid && rep2.visits@[1].0@ == eid);
        assert(false);
    }
}

/// What a successful `connect(from, to)` does to the edge relation: it
/// adds exactly the one directed edge from `from`'s node to `to`'s node,
/// and no other.
pub proof fn lemma_connect_edge(
    pre: SimulationScenario,
    post: SimulationScenario,
    from: Seq<char>,
    to: Seq<char>,
    a: int,
    b: int,
)
    requires
        pre.wf(),
        connect_ok(pre, post, from, to),
    ensures
        post.edge(a, b) <==> (pre.edge(a, b) || (a == pre.index_of(from) && b == pre.index_of(
            to,
        ))),
{
    let fi = pre.index_of(from);
    let ti = pre.index_of(to);
    assert(0 <= fi < pre.n() && pre.nodes@[fi].id@ == from);
    assert(0 <= ti < pre.n() && pre.nodes@[ti].id@ == to);
    if !(0 <= a < pre.n()) {
        assert(!post.edge(a, b));
        assert(!pre.edge(a, b));
        assert(a != fi);
    } else if a != fi {
        assert(post.nodes@[a].peers == pre.nodes@[a].peers);
    } else if pre.edge(fi, ti) {
        assert(post.nodes@[a].peers == pre.nodes@[a].peers);
        if b == ti {
            assert(pre.edge(a, b));
        }
    } else {
        let ps = pre.nodes@[fi].peers@;
        let qs = post.nodes@[fi].peers@;
        assert(qs == ps.push(ti as usize));
        assert(pre.nodes@.len() <= usize::MAX) by {
            broadcast use vstd::std_specs::vec::axiom_spec_len;

            assert(vstd::std_specs::vec::spec_vec_len(&pre.nodes) == pre.nodes@.len());
        }
        if post.edge(a, b) {
            let k = choose|k: int| 0 <= k < qs.len() && qs[k] == b as usize;
            if k < ps.len() {
                assert(ps[k] == b as usize);
                assert(pre.edge(a, b));
            } else {
                assert(qs[k] == ti as usize);
                assert(b == ti);
            }
        }
        if pre.edge(a, b) {
            let k = choose|k: int| 0 <= k < ps.len() && ps[k] == b as usize;
            assert(qs[k] == b as usize);
            assert(post.edge(a, b));
        }
        if a == fi && b == ti {
            assert(qs[qs.len() - 1] == ti as usize);
            assert(post.edge(a, b));
        }
    }
}

/// Duplicate connect tolerance: connecting the same pair twice records
/// two entries in the connection list, while the source node's peer set
/// holds the target's index exactly once.
pub proof fn lemma_duplicate_connect(
    s0: SimulationScenario,
    s1: SimulationScenario,
    s2: SimulationScenario,
    from: Seq<char>,
    to: Seq<char>,
)
    requires
        s0.wf(),
        s1.wf(),
        s2.wf(),
        connect_ok(s0, s1, from, to),
        connect_ok(s1, s2, from, to),
    ensures
        s2.connections@.len() == s0.connections@.len() + 2,
        s2.connections@[s2.connections@.len() - 2].0@ == from,
        s2.connections@[s2.connections@.len() - 2].1@ == to,
        s2.connections@[s2.connections@.len() - 1].0@ == from,
        s2.connections@[s2.connections@.len() - 1].1@ == to,
        s2.nodes@[s0.index_of(from)].peers@.contains(s0.index_of(to) as usize),
        forall|k1: int, k2: int|
            0 <= k1 < k2 < s2.nodes@[s0.index_of(from)].peers@.len()
                ==> s2.nodes@[s0.index_of(from)].peers@[k1] != s2.nodes@[s0.index_of(
                from,
            )].peers@[k2],
{
    let fi = s0.index_of(from);
    let ti = s0.index_of(to);
    assert(0 <= fi < s0.n() && s0.nodes@[fi].id@ == from);
    assert(0 <= ti < s0.n() && s0.nodes@[ti].id@ == to);
    assert(s1.nodes@[fi].id == s0.nodes@[fi].id);
    assert(s1.nodes@[ti].id == s0.nodes@[ti].id);
    s1.lemma_id_index_unique(fi, from);
    s1.lemma_id_index_unique(ti, to);
    if s0.edge(fi, ti) {
        assert(s1.nodes@[fi].peers == s0.nodes@[fi].peers);
    } else {
        assert(s1.nodes@[fi].peers@ == s0.nodes@[fi].peers@.push(ti as usize));
        assert(s1.nodes@[fi].peers@[s1.nodes@[fi].peers@.len() - 1] == ti as usize);
    }
    assert(s1.nodes@[fi].peers@.contains(ti as usize));
    assert(s1.edge(fi, ti));
    assert(s2.nodes@[fi].peers == s1.nodes@[fi].peers);
    let l1 = s1.connections@.len() as int;
    assert(s2.connections@.subrange(0, l1) == s1.connections@);
    assert(s2.connections@[l1 - 1] == s2.connections@.subrange(0, l1)[l1 - 1]);
    assert(s2.connections@[l1 - 1] == s1.connections@[l1 - 1]);
    assert(s2.nodes@[fi].wf(s2.n()));
}

} // verus!
