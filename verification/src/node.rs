//! A participant in the simulated network: its identity, its outgoing
//! peer links, and its node-local record of received blocks.

use vstd::prelude::*;
use crate::block::Block;

verus! {

/// Node-local bookkeeping: which block ids the node has recorded, and a
/// log of every delivery that fired on it.
///
/// `has_received` / `propagate_block` form the deduplication authority of
/// the simulator: the propagation engine never mutates seen-state except
/// through them.
pub struct NodeEngine {
    /// Block ids this node has recorded (membership is what matters).
    pub seen: Vec<String>,
    /// One entry per delivery that fired, in order of arrival.
    pub delivered: Vec<String>,
}

impl NodeEngine {
    /// True when `id` has been recorded on this node.
    pub open spec fn has_seen(&self, id: Seq<char>) -> bool {
        exists|k: int| 0 <= k < self.seen@.len() && self.seen@[k]@ == id
    }

    /// The delivery log as a sequence of block ids.
    pub open spec fn log(&self) -> Seq<Seq<char>> {
        self.delivered@.map_values(|s: String| s@)
    }

    /// A fresh engine: nothing recorded, nothing delivered.
    pub fn new() -> (e: NodeEngine)
        ensures
            forall|x: Seq<char>| !e.has_seen(x),
            e.log() == Seq::<Seq<char>>::empty(),
    {
        let e = NodeEngine { seen: Vec::new(), delivered: Vec::new() };
        proof {
            assert(e.log() =~= Seq::<Seq<char>>::empty());
        }
        e
    }

    /// Membership test against the recorded block ids.
    pub fn has_received(&self, id: &String) -> (r: bool)
        ensures
            r == self.has_seen(id@),
    {
        let mut k: usize = 0;
        while k < self.seen.len()
            invariant
                k <= self.seen@.len(),
                forall|j: int| 0 <= j < k ==> self.seen@[j]@ != id@,
            decreases self.seen@.len() - k,
        {
            if self.seen[k] == *id {
                return true;
            }
            k += 1;
        }
        false
    }

    /// Records the block on this node and logs the delivery.
    pub fn propagate_block(&mut self, block: &Block)
        ensures
            forall|x: Seq<char>|
                final(self).has_seen(x) <==> (old(self).has_seen(x) || x == block.id@),
            final(self).log() == old(self).log().push(block.id@),
            final(self).delivered@.len() == old(self).delivered@.len() + 1,
    {
        self.seen.push(block.id.clone());
        self.delivered.push(block.id.clone());
        proof {
            assert(self.log() =~= old(self).log().push(block.id@));
            assert forall|x: Seq<char>|
                self.has_seen(x) <==> (old(self).has_seen(x) || x == block.id@) by {
                if old(self).has_seen(x) {
                    let k = choose|k: int|
                        0 <= k < old(self).seen@.len() && old(self).seen@[k]@ == x;
                    assert(self.seen@[k]@ == x);
                }
                if x == block.id@ {
                    assert(self.seen@[self.seen@.len() - 1]@ == x);
                }
            }
        }
    }
}

/// How one delivery changes an engine: the block id becomes recorded and
/// one entry is appended to the delivery log; nothing else moves.
pub open spec fn delivered_to(pre: NodeEngine, post: NodeEngine, bid: Seq<char>) -> bool {
    &&& forall|x: Seq<char>| post.has_seen(x) <==> (pre.has_seen(x) || x == bid)
    &&& post.log() == pre.log().push(bid)
}

/// A node of the scenario graph. Peers are stored as indices into the
/// scenario's node arena, so the graph structure itself holds no shared
/// ownership.
pub struct Node {
    /// Unique identifier within the owning scenario; fixed at creation.
    pub id: String,
    /// Indices of the nodes this one propagates to (directed, no duplicates).
    pub peers: Vec<usize>,
    /// Node-local received-block bookkeeping.
    pub engine: NodeEngine,
}

impl Node {
    /// Structural well-formedness relative to an arena of `n` nodes:
    /// every peer index is in range and no peer is listed twice.
    pub open spec fn wf(&self, n: nat) -> bool {
        &&& forall|k: int| 0 <= k < self.peers@.len() ==> (self.peers@[k] as nat) < n
        &&& forall|k1: int, k2: int|
            0 <= k1 < k2 < self.peers@.len() ==> self.peers@[k1] != self.peers@[k2]
    }

    /// A fresh node: the given id, no peers, a fresh engine.
    pub fn new(id: String) -> (nd: Node)
        ensures
            nd.id@ == id@,
            nd.peers@ == Seq::<usize>::empty(),
            forall|x: Seq<char>| !nd.engine.has_seen(x),
            nd.engine.log() == Seq::<Seq<char>>::empty(),
            forall|n: nat| nd.wf(n),
    {
        Node { id, peers: Vec::new(), engine: NodeEngine::new() }
    }
}

} // verus!
