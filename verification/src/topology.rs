//! Standard topology shapes as pure edge-list constructors.
//!
//! Each function only builds a sequence of directed (from, to) id pairs;
//! feeding the pairs to `SimulationScenario::connect` is the caller's
//! business. All of them are side-effect free and return an equal
//! sequence on every call.

use vstd::prelude::*;

verus! {

/// Edges of a linear chain: A -> B -> C -> D.
pub fn linear_topology() -> (r: Vec<(&'static str, &'static str)>)
    ensures
        r@.len() == 3,
        r@[0].0@ == "A"@ && r@[0].1@ == "B"@,
        r@[1].0@ == "B"@ && r@[1].1@ == "C"@,
        r@[2].0@ == "C"@ && r@[2].1@ == "D"@,
{
    let mut edges: Vec<(&'static str, &'static str)> = Vec::new();
    edges.push(("A", "B"));
    edges.push(("B", "C"));
    edges.push(("C", "D"));
    edges
}

/// Edges of a ring: the linear chain closed back on its first node,
/// A -> B -> C -> D -> A.
pub fn ring_topology() -> (r: Vec<(&'static str, &'static str)>)
    ensures
        r@.len() == 4,
        r@[0].0@ == "A"@ && r@[0].1@ == "B"@,
        r@[1].0@ == "B"@ && r@[1].1@ == "C"@,
        r@[2].0@ == "C"@ && r@[2].1@ == "D"@,
        r@[3].0@ == "D"@ && r@[3].1@ == "A"@,
{
    let mut edges: Vec<(&'static str, &'static str)> = Vec::new();
    edges.push(("A", "B"));
    edges.push(("B", "C"));
    edges.push(("C", "D"));
    edges.push(("D", "A"));
    edges
}

/// Edges of a two-level binary tree rooted at A:
/// A over B and C, B over D and E, C over F and G.
pub fn tree_topology() -> (r: Vec<(&'static str, &'static str)>)
    ensures
        r@.len() == 6,
        r@[0].0@ == "A"@ && r@[0].1@ == "B"@,
        r@[1].0@ == "A"@ && r@[1].1@ == "C"@,
        r@[2].0@ == "B"@ && r@[2].1@ == "D"@,
        r@[3].0@ == "B"@ && r@[3].1@ == "E"@,
        r@[4].0@ == "C"@ && r@[4].1@ == "F"@,
        r@[5].0@ == "C"@ && r@[5].1@ == "G"@,
{
    let mut edges: Vec<(&'static str, &'static str)> = Vec::new();
    edges.push(("A", "B"));
    edges.push(("A", "C"));
    edges.push(("B", "D"));
    edges.push(("B", "E"));
    edges.push(("C", "F"));
    edges.push(("C", "G"));
    edges
}

/// The first `cols` pairs of one full-mesh row: `a` connected to each of
/// the first `cols` listed nodes whose name differs from `a`'s.
pub open spec fn row_edges_upto<'a>(
    a: &'a str,
    nodes: Seq<&'a str>,
    cols: int,
) -> Seq<(&'a str, &'a str)>
    decreases cols,
{
    if cols <= 0 {
        Seq::empty()
    } else {
        row_edges_upto(a, nodes, cols - 1) + if nodes[cols - 1]@ == a@ {
            Seq::<(&'a str, &'a str)>::empty()
        } else {
            seq![(a, nodes[cols - 1])]
        }
    }
}

/// The full-mesh rows of the first `rows` listed nodes, in order.
pub open spec fn mesh_edges_upto<'a>(nodes: Seq<&'a str>, rows: int) -> Seq<(&'a str, &'a str)>
    decreases rows,
{
    if rows <= 0 {
        Seq::empty()
    } else {
        mesh_edges_upto(nodes, rows - 1) + row_edges_upto(
            nodes[rows - 1],
            nodes,
            nodes.len() as int,
        )
    }
}

/// Every ordered pair of distinct-named listed nodes, row by row.
pub open spec fn mesh_edges<'a>(nodes: Seq<&'a str>) -> Seq<(&'a str, &'a str)> {
    mesh_edges_upto(nodes, nodes.len() as int)
}

/// One mesh row over distinct names holds one edge per column except
/// the row's own node.
proof fn lemma_row_edges_len<'a>(a: &'a str, nodes: Seq<&'a str>, i: int, cols: int)
    requires
        0 <= i < nodes.len(),
        nodes[i]@ == a@,
        0 <= cols <= nodes.len(),
        forall|p: int, q: int|
            0 <= p < nodes.len() && 0 <= q < nodes.len() && p != q ==> nodes[p]@ != nodes[q]@,
    ensures
        row_edges_upto(a, nodes, cols).len() == if i < cols {
            cols - 1
        } else {
            cols as int
        },
    decreases cols,
{
    if cols > 0 {
        lemma_row_edges_len(a, nodes, i, cols - 1);
        if nodes[cols - 1]@ == a@ {
            assert(cols - 1 == i);
        }
    }
}

proof fn lemma_mesh_edges_upto_len<'a>(nodes: Seq<&'a str>, rows: int)
    requires
        0 <= rows <= nodes.len(),
        forall|p: int, q: int|
            0 <= p < nodes.len() && 0 <= q < nodes.len() && p != q ==> nodes[p]@ != nodes[q]@,
    ensures
        mesh_edges_upto(nodes, rows).len() == rows * (nodes.len() - 1),
    decreases rows,
{
    if rows <= 0 {
        assert(0 * (nodes.len() - 1) == 0) by (nonlinear_arith);
    } else {
        lemma_mesh_edges_upto_len(nodes, rows - 1);
        lemma_row_edges_len(nodes[rows - 1], nodes, rows - 1, nodes.len() as int);
        let m = nodes.len() - 1;
        assert((rows - 1) * m + m == rows * m) by (nonlinear_arith);
    }
}

/// A full mesh over n distinct names holds n * (n - 1) edges.
pub proof fn lemma_full_mesh_count<'a>(nodes: Seq<&'a str>)
    requires
        forall|p: int, q: int|
            0 <= p < nodes.len() && 0 <= q < nodes.len() && p != q ==> nodes[p]@ != nodes[q]@,
    ensures
        mesh_edges(nodes).len() == nodes.len() * (nodes.len() - 1),
{
    lemma_mesh_edges_upto_len(nodes, nodes.len() as int);
}

/// Value comparison of two string slices.
fn str_eq(a: &str, b: &str) -> (r: bool)
    ensures
        r == (a@ == b@),
{
    let sa = a.to_owned();
    let sb = b.to_owned();
    sa == sb
}

/// Edges of a full mesh over the listed nodes: every ordered pair of
/// nodes with distinct names, in both directions, so a list of n
/// distinct names yields n * (n - 1) edges.
pub fn full_mesh(nodes: &[&'static str]) -> (r: Vec<(&'static str, &'static str)>)
    ensures
        r@ == mesh_edges(nodes@),
{
    let mut edges: Vec<(&'static str, &'static str)> = Vec::new();
    let n = nodes.len();
    let mut i: usize = 0;
    proof {
        assert(edges@ =~= mesh_edges_upto(nodes@, 0));
    }
    while i < n
        invariant
            i <= n,
            n == nodes@.len(),
            edges@ == mesh_edges_upto(nodes@, i as int),
        decreases n - i,
    {
        let from = nodes[i];
        let mut j: usize = 0;
        proof {
            assert(edges@ =~= mesh_edges_upto(nodes@, i as int) + row_edges_upto(
                nodes@[i as int],
                nodes@,
                0,
            ));
        }
        while j < n
            invariant
                j <= n,
                i < n,
                n == nodes@.len(),
                from == nodes@[i as int],
                edges@ == mesh_edges_upto(nodes@, i as int) + row_edges_upto(
                    nodes@[i as int],
                    nodes@,
                    j as int,
                ),
            decreases n - j,
        {
            let to = nodes[j];
            if !str_eq(from, to) {
                edges.push((from, to));
            }
            proof {
                assert(edges@ =~= mesh_edges_upto(nodes@, i as int) + row_edges_upto(
                    nodes@[i as int],
                    nodes@,
                    j + 1,
                ));
            }
            j += 1;
        }
        proof {
            assert(edges@ =~= mesh_edges_upto(nodes@, i + 1));
        }
        i += 1;
    }
    edges
}

} // verus!
