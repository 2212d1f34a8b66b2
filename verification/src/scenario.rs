//! A named directed graph of nodes: the input of one propagation run.
//!
//! Nodes live in an arena (`Vec<Node>`) and refer to their peers by index,
//! so the graph holds no shared ownership and no cycles of references even
//! when the topology itself is cyclic. The connection list is an audit
//! trail: it keeps every `connect` call, duplicates included, while a
//! node's peer set stays duplicate-free.

use vstd::prelude::*;
use crate::errors::SimulationError;
use crate::node::Node;

verus! {

pub struct SimulationScenario {
    /// Display name; never interpreted.
    pub name: String,
    /// Arena of nodes; a node's index is its handle within this scenario.
    pub nodes: Vec<Node>,
    /// Every `connect(from, to)` call ever made, in call order.
    pub connections: Vec<(String, String)>,
}

impl SimulationScenario {
    /// Number of nodes in the arena.
    pub open spec fn n(&self) -> nat {
        self.nodes@.len()
    }

    /// True when some node of the arena carries `id`.
    pub open spec fn has_id(&self, id: Seq<char>) -> bool {
        exists|i: int| 0 <= i < self.n() && self.nodes@[i].id@ == id
    }

    /// The index of the node carrying `id` (unique under `wf`).
    pub open spec fn index_of(&self, id: Seq<char>) -> int {
        choose|i: int| 0 <= i < self.n() && self.nodes@[i].id@ == id
    }

    /// Structural well-formedness: ids are unique, every node's peer list
    /// is in range and duplicate-free, and both endpoints of every
    /// recorded connection are registered nodes.
    pub open spec fn wf(&self) -> bool {
        &&& forall|i: int, j: int|
            0 <= i < self.n() && 0 <= j < self.n() && i != j
                ==> self.nodes@[i].id@ != self.nodes@[j].id@
        &&& forall|i: int| 0 <= i < self.n() ==> (#[trigger] self.nodes@[i]).wf(self.n())
        &&& forall|c: int|
            0 <= c < self.connections@.len()
                ==> self.has_id((#[trigger] self.connections@[c]).0@)
                    && self.has_id(self.connections@[c].1@)
    }

    /// Directed edge: node `a` lists node `b` as a peer.
    pub open spec fn edge(&self, a: int, b: int) -> bool {
        &&& 0 <= a < self.n()
        &&& 0 <= b < self.n()
        &&& self.nodes@[a].peers@.contains(b as usize)
    }

    /// Node `i` has not recorded block id `bid`.
    pub open spec fn fresh(&self, i: int, bid: Seq<char>) -> bool {
        !self.nodes@[i].engine.has_seen(bid)
    }

    /// `p` is a directed path from `from` to `to` through the arena.
    pub open spec fn is_path(&self, p: Seq<int>, from: int, to: int) -> bool {
        &&& p.len() >= 1
        &&& p[0] == from
        &&& p[p.len() - 1] == to
        &&& forall|k: int| #![trigger p[k]] 0 <= k < p.len() ==> 0 <= p[k] < self.n()
        &&& forall|k: int| #![trigger p[k]] 0 <= k < p.len() - 1 ==> self.edge(p[k], p[k + 1])
    }

    /// `to` is reachable from `from` along directed edges.
    pub open spec fn reaches(&self, from: int, to: int) -> bool {
        exists|p: Seq<int>| self.is_path(p, from, to)
    }

    /// A path along which a run entered at `from` delivers `bid` to `to`:
    /// every node on it except possibly the last must still be fresh for
    /// `bid`, since a node that already holds the block does not forward it.
    pub open spec fn is_delivery_path(
        &self,
        bid: Seq<char>,
        p: Seq<int>,
        from: int,
        to: int,
    ) -> bool {
        &&& self.is_path(p, from, to)
        &&& forall|k: int| #![trigger p[k]] 0 <= k < p.len() - 1 ==> self.fresh(p[k], bid)
    }

    /// A run of `bid` entering at `from` visits `to`.
    pub open spec fn delivers(&self, bid: Seq<char>, from: int, to: int) -> bool {
        exists|p: Seq<int>| self.is_delivery_path(bid, p, from, to)
    }

    /// The node an id resolves to is unique under `wf`.
    pub proof fn lemma_id_index_unique(&self, i: int, id: Seq<char>)
        requires
            self.wf(),
            0 <= i < self.n(),
            self.nodes@[i].id@ == id,
        ensures
            self.has_id(id),
            self.index_of(id) == i,
    {
        assert(self.has_id(id));
        let j = self.index_of(id);
        assert(0 <= j < self.n() && self.nodes@[j].id@ == id);
    }

    /// Every node can deliver to itself: the one-node path asks nothing
    /// of anyone's freshness.
    pub proof fn lemma_delivers_self(&self, bid: Seq<char>, e: int)
        requires
            0 <= e < self.n(),
        ensures
            self.delivers(bid, e, e),
    {
        let p = seq![e];
        assert(p[0] == e);
        assert(p[p.len() - 1] == e);
        assert(self.is_delivery_path(bid, p, e, e));
    }

    /// A delivery path extends across one edge out of a fresh node.
    pub proof fn lemma_delivers_step(&self, bid: Seq<char>, e: int, a: int, b: int)
        requires
            self.delivers(bid, e, a),
            self.fresh(a, bid),
            self.edge(a, b),
        ensures
            self.delivers(bid, e, b),
    {
        let p = choose|p: Seq<int>| self.is_delivery_path(bid, p, e, a);
        let q = p.push(b);
        assert(q[0] == p[0]);
        assert(q[q.len() - 1] == b);
        assert forall|k: int| #![trigger q[k]] 0 <= k < q.len() implies 0 <= q[k] < self.n() by {
            if k < p.len() {
                assert(q[k] == p[k]);
            } else {
                assert(q[k] == b);
            }
        }
        assert forall|k: int| #![trigger q[k]] 0 <= k < q.len() - 1 implies self.edge(
            q[k],
            q[k + 1],
        ) by {
            if k < p.len() - 1 {
                assert(q[k] == p[k] && q[k + 1] == p[k + 1]);
            } else {
                assert(q[k] == p[p.len() - 1] && q[k + 1] == b);
            }
        }
        assert forall|k: int| #![trigger q[k]] 0 <= k < q.len() - 1 implies self.fresh(
            q[k],
            bid,
        ) by {
            if k < p.len() - 1 {
                assert(q[k] == p[k]);
            } else {
                assert(q[k] == p[p.len() - 1]);
            }
        }
        assert(self.is_delivery_path(bid, q, e, b));
    }

    /// Once the entry node already holds the block, a run delivers to the
    /// entry node and nowhere else: no delivery path leaves a non-fresh
    /// first node.
    pub proof fn lemma_delivers_only_self_when_entry_seen(
        &self,
        bid: Seq<char>,
        e: int,
        t: int,
    )
        requires
            0 <= e < self.n(),
            !self.fresh(e, bid),
        ensures
            self.delivers(bid, e, t) <==> t == e,
    {
        if self.delivers(bid, e, t) {
            let p = choose|p: Seq<int>| self.is_delivery_path(bid, p, e, t);
            if p.len() >= 2 {
                assert(self.fresh(p[0], bid));
                assert(false);
            }
            assert(p[0] == e && p[p.len() - 1] == t);
        }
        if t == e {
            self.lemma_delivers_self(bid, e);
        }
    }

    /// On a scenario where no node has recorded `bid`, delivery coincides
    /// with plain reachability.
    pub proof fn lemma_delivers_is_reaches_when_all_fresh(
        &self,
        bid: Seq<char>,
        e: int,
        t: int,
    )
        requires
            forall|i: int| 0 <= i < self.n() ==> self.fresh(i, bid),
        ensures
            self.delivers(bid, e, t) <==> self.reaches(e, t),
    {
        if self.delivers(bid, e, t) {
            let p = choose|p: Seq<int>| self.is_delivery_path(bid, p, e, t);
            assert(self.is_path(p, e, t));
        }
        if self.reaches(e, t) {
            let p = choose|p: Seq<int>| self.is_path(p, e, t);
            assert forall|k: int| #![trigger p[k]] 0 <= k < p.len() - 1 implies self.fresh(
                p[k],
                bid,
            ) by {
                assert(0 <= p[k] < self.n());
            }
            assert(self.is_delivery_path(bid, p, e, t));
        }
    }
}

/// Relates a scenario to itself after a successful `add_node(id)`: one
/// fresh node carrying `id` is appended and nothing else moves.
pub open spec fn add_node_ok(
    pre: SimulationScenario,
    post: SimulationScenario,
    id: Seq<char>,
) -> bool {
    &&& !pre.has_id(id)
    &&& post.name == pre.name
    &&& post.connections@ == pre.connections@
    &&& post.nodes@.len() == pre.nodes@.len() + 1
    &&& post.nodes@.subrange(0, pre.nodes@.len() as int) == pre.nodes@
    &&& post.nodes@.last().id@ == id
    &&& post.nodes@.last().peers@ == Seq::<usize>::empty()
    &&& forall|x: Seq<char>| !post.nodes@.last().engine.has_seen(x)
    &&& post.nodes@.last().engine.log() == Seq::<Seq<char>>::empty()
}

/// Relates a scenario to itself after a successful `connect(from, to)`:
/// the connection list gains one entry; the `from` node's peer list gains
/// the `to` node's index unless it already listed it; every id and every
/// engine stays as it was.
pub open spec fn connect_ok(
    pre: SimulationScenario,
    post: SimulationScenario,
    from: Seq<char>,
    to: Seq<char>,
) -> bool {
    let fi = pre.index_of(from);
    let ti = pre.index_of(to);
    &&& pre.has_id(from)
    &&& pre.has_id(to)
    &&& post.name == pre.name
    &&& post.connections@.len() == pre.connections@.len() + 1
    &&& post.connections@.subrange(0, pre.connections@.len() as int) == pre.connections@
    &&& post.connections@.last().0@ == from
    &&& post.connections@.last().1@ == to
    &&& post.nodes@.len() == pre.nodes@.len()
    &&& forall|i: int|
        0 <= i < pre.nodes@.len() ==> (#[trigger] post.nodes@[i]).id == pre.nodes@[i].id
    &&& forall|i: int|
        0 <= i < pre.nodes@.len() ==> (#[trigger] post.nodes@[i]).engine == pre.nodes@[i].engine
    &&& forall|i: int|
        0 <= i < pre.nodes@.len() && i != fi
            ==> (#[trigger] post.nodes@[i]).peers == pre.nodes@[i].peers
    &&& if pre.edge(fi, ti) {
        post.nodes@[fi].peers == pre.nodes@[fi].peers
    } else {
        post.nodes@[fi].peers@ == pre.nodes@[fi].peers@.push(ti as usize)
    }
}

impl SimulationScenario {
    /// An empty scenario carrying `name`.
    pub fn new(name: &str) -> (s: SimulationScenario)
        ensures
            s.wf(),
            s.name@ == name@,
            s.nodes@ == Seq::<Node>::empty(),
            s.connections@ == Seq::<(String, String)>::empty(),
    {
        SimulationScenario { name: name.to_owned(), nodes: Vec::new(), connections: Vec::new() }
    }

    /// The index of the node carrying `id`, if any.
    pub fn find_node(&self, id: &String) -> (r: Option<usize>)
        ensures
            match r {
                Some(i) => i < self.n() && self.nodes@[i as int].id@ == id@,
                None => !self.has_id(id@),
            },
    {
        let mut k: usize = 0;
        while k < self.nodes.len()
            invariant
                k <= self.n(),
                forall|j: int| 0 <= j < k ==> self.nodes@[j].id@ != id@,
            decreases self.n() - k,
        {
            if self.nodes[k].id == *id {
                return Some(k);
            }
            k += 1;
        }
        None
    }

    /// Registers a new node under `id` with no peers and a fresh engine.
    /// Rejects an id the scenario already holds: replacing the existing
    /// node would silently orphan peer links that point at it.
    pub fn add_node(&mut self, id: &str) -> (r: Result<(), SimulationError>)
        requires
            old(self).wf(),
        ensures
            final(self).wf(),
            match r {
                Ok(()) => add_node_ok(*old(self), *final(self), id@),
                Err(e) => {
                    &&& e == SimulationError::DuplicateNode
                    &&& old(self).has_id(id@)
                    &&& *final(self) == *old(self)
                },
            },
    {
        let key = id.to_owned();
        match self.find_node(&key) {
            Some(_) => Err(SimulationError::DuplicateNode),
            None => {
                let nd = Node::new(key);
                self.nodes.push(nd);
                proof {
                    let pre = *old(self);
                    assert(self.nodes@.subrange(0, pre.nodes@.len() as int) =~= pre.nodes@);
                    assert forall|c: int| 0 <= c < self.connections@.len() implies self.has_id(
                        (#[trigger] self.connections@[c]).0@,
                    ) && self.has_id(self.connections@[c].1@) by {
                        let x0 = self.connections@[c].0@;
                        let x1 = self.connections@[c].1@;
                        let i0 = choose|i: int|
                            0 <= i < pre.n() && pre.nodes@[i].id@ == x0;
                        let i1 = choose|i: int|
                            0 <= i < pre.n() && pre.nodes@[i].id@ == x1;
                        assert(self.nodes@[i0].id@ == x0);
                        assert(self.nodes@[i1].id@ == x1);
                    }
                    assert forall|i: int| 0 <= i < self.n() implies (
                    #[trigger] self.nodes@[i]).wf(self.n()) by {
                        if i < pre.n() {
                            assert(pre.nodes@[i].wf(pre.n()));
                        }
                    }
                }
                Ok(())
            },
        }
    }

    /// Records a directed connection from `from` to `to`: appends it to
    /// the connection list unconditionally and adds `to` to `from`'s peer
    /// set if not already present. Fails when either id is unregistered.
    pub fn connect(&mut self, from: &str, to: &str) -> (r: Result<(), SimulationError>)
        requires
            old(self).wf(),
        ensures
            final(self).wf(),
            match r {
                Ok(()) => connect_ok(*old(self), *final(self), from@, to@),
                Err(e) => {
                    &&& e == SimulationError::UnknownNode
                    &&& !(old(self).has_id(from@) && old(self).has_id(to@))
                    &&& *final(self) == *old(self)
                },
            },
    {
        let from_key = from.to_owned();
        let to_key = to.to_owned();
        let fi = match self.find_node(&from_key) {
            Some(i) => i,
            None => {
                return Err(SimulationError::UnknownNode);
            },
        };
        let ti = match self.find_node(&to_key) {
            Some(i) => i,
            None => {
                return Err(SimulationError::UnknownNode);
            },
        };
        proof {
            old(self).lemma_id_index_unique(fi as int, from@);
            old(self).lemma_id_index_unique(ti as int, to@);
        }
        let already = peers_contain(&self.nodes[fi].peers, ti);
        if !already {
            self.nodes[fi].peers.push(ti);
        }
        self.connections.push((from_key, to_key));
        proof {
            let pre = *old(self);
            assert(self.connections@.subrange(0, pre.connections@.len() as int)
                =~= pre.connections@);
            assert forall|c: int| 0 <= c < self.connections@.len() implies self.has_id(
                (#[trigger] self.connections@[c]).0@,
            ) && self.has_id(self.connections@[c].1@) by {
                let x0 = self.connections@[c].0@;
                let x1 = self.connections@[c].1@;
                if c < pre.connections@.len() {
                    let i0 = choose|i: int| 0 <= i < pre.n() && pre.nodes@[i].id@ == x0;
                    let i1 = choose|i: int| 0 <= i < pre.n() && pre.nodes@[i].id@ == x1;
                    assert(self.nodes@[i0].id@ == x0);
                    assert(self.nodes@[i1].id@ == x1);
                } else {
                    assert(self.nodes@[fi as int].id@ == x0);
                    assert(self.nodes@[ti as int].id@ == x1);
                }
            }
            assert forall|i: int| 0 <= i < self.n() implies (#[trigger] self.nodes@[i]).wf(
                self.n(),
            ) by {
                assert(pre.nodes@[i].wf(pre.n()));
                if i == fi as int && !pre.edge(fi as int, ti as int) {
                    let ps = self.nodes@[i].peers@;
                    let qs = pre.nodes@[i].peers@;
                    assert(ps == qs.push(ti));
                    assert forall|k1: int, k2: int|
                        0 <= k1 < k2 < ps.len() implies ps[k1] != ps[k2] by {
                        if k2 < qs.len() {
                            assert(ps[k1] == qs[k1] && ps[k2] == qs[k2]);
                        } else {
                            assert(ps[k2] == ti);
                            assert(ps[k1] == qs[k1]);
                            assert(!qs.contains(ti));
                        }
                    }
                }
            }
        }
        Ok(())
    }

    /// Every node of the scenario; a node's position is its arena index.
    pub fn all_nodes(&self) -> (r: &Vec<Node>)
        ensures
            r@ == self.nodes@,
    {
        &self.nodes
    }
}

/// Membership test on a peer list.
fn peers_contain(v: &Vec<usize>, x: usize) -> (r: bool)
    ensures
        r == v@.contains(x),
{
    let mut k: usize = 0;
    while k < v.len()
        invariant
            k <= v@.len(),
            forall|j: int| 0 <= j < k ==> v@[j] != x,
        decreases v@.len() - k,
    {
        if v[k] == x {
            return true;
        }
        k += 1;
    }
    assert(!v@.contains(x));
    false
}

} // verus!
