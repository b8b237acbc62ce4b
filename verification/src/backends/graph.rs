//! The directed graph that holds the operand edges, kept in a
//! `petgraph::graph::Graph`, and what the expression store needs from it.

use crate::backends::smtlib2::EdgeData;
use petgraph::graph::Graph;
use petgraph::graph::NodeIndex;
use petgraph::visit::EdgeRef;
use petgraph::Directed;
use vstd::prelude::*;
use vstd::relations::sorted_by;
use vstd::relations::total_ordering;
use vstd::seq_lib::lemma_sorted_unique;
use vstd::seq_lib::to_multiset_build;
use vstd::seq_lib::to_multiset_insert;

verus! {

/// `petgraph::graph::Graph`, taken as it is: nothing is known of a graph but
/// what the functions below state.
#[verifier::external_type_specification]
#[verifier::external_body]
#[verifier::reject_recursive_types(N)]
#[verifier::reject_recursive_types(E)]
#[verifier::reject_recursive_types(Ty)]
#[verifier::reject_recursive_types(Ix)]
pub struct ExGraph<N, E, Ty, Ix>(Graph<N, E, Ty, Ix>);

/// `petgraph::Directed`, the marker of graphs with directed edges.
#[verifier::external_type_specification]
#[verifier::external_body]
pub struct ExDirected(Directed);

/// The graph of operand edges: nodes without a weight, edges that carry
/// their operand position, indices of 32 bits.
pub type EdgeGraph = Graph<(), EdgeData, Directed, u32>;

/// An edge as plain values: the index of its source, the index of its target
/// and what it carries.
pub type Edge = (usize, usize, EdgeData);

/// The number of nodes of `g`. Its nodes are those of index `0` up to this
/// number.
pub uninterp spec fn graph_node_count(g: EdgeGraph) -> nat;

/// The edges of `g`, in the order in which they were added.
pub uninterp spec fn graph_edges(g: EdgeGraph) -> Seq<Edge>;

/// The side of a node on which an edge is looked for.
#[derive(Clone, Copy, Debug)]
pub enum EdgeDirection {
    /// Edges that leave the node.
    Outgoing,
    /// Edges that arrive at the node.
    Incoming,
}

/// `e` leaves `a` (for `Outgoing`) or arrives at `a` (for `Incoming`).
pub open spec fn touches(e: Edge, a: usize, dir: EdgeDirection) -> bool {
    match dir {
        EdgeDirection::Outgoing => e.0 == a,
        EdgeDirection::Incoming => e.1 == a,
    }
}

/// The edges of `g` at node `a` on side `dir`, in the order in which they
/// were added.
pub open spec fn edges_at(g: EdgeGraph, a: usize, dir: EdgeDirection) -> Seq<Edge> {
    graph_edges(g).filter(|e: Edge| touches(e, a, dir))
}

/// `Graph::new`: a directed graph without nodes and without edges.
#[verifier::external_body]
pub(crate) fn graph_new() -> (g: EdgeGraph)
    ensures
        graph_node_count(g) == 0,
        graph_edges(g) == Seq::<Edge>::empty(),
{
    Graph::new()
}

/// `Graph::add_node`: the new node gets the next free index and no edge is
/// touched. The call panics once the 32-bit index space is used up, which
/// the precondition rules out.
#[verifier::external_body]
pub(crate) fn graph_add_node(g: &mut EdgeGraph) -> (idx: usize)
    requires
        graph_node_count(*old(g)) < u32::MAX,
    ensures
        idx == graph_node_count(*old(g)),
        graph_node_count(*final(g)) == graph_node_count(*old(g)) + 1,
        graph_edges(*final(g)) == graph_edges(*old(g)),
{
    g.add_node(()).index()
}

/// `Graph::add_edge`: an edge from `a` to `b` that carries `w` is added
/// behind the edges already there. The call panics on a node index that is
/// out of bounds and on a full 32-bit edge index space; the precondition
/// rules out both.
#[verifier::external_body]
pub(crate) fn graph_add_edge(g: &mut EdgeGraph, a: usize, b: usize, w: EdgeData)
    requires
        a < graph_node_count(*old(g)),
        b < graph_node_count(*old(g)),
        graph_edges(*old(g)).len() < u32::MAX,
    ensures
        graph_node_count(*final(g)) == graph_node_count(*old(g)),
        graph_edges(*final(g)) == graph_edges(*old(g)).push((a, b, w)),
{
    g.add_edge(NodeIndex::new(a), NodeIndex::new(b), w);
}

/// `Graph::edge_count`: the number of edges.
#[verifier::external_body]
pub(crate) fn graph_edge_count(g: &EdgeGraph) -> (count: usize)
    ensures
        count == graph_edges(*g).len(),
{
    g.edge_count()
}

/// `Graph::edges_directed`: every edge that leaves `a` (`Outgoing`) or
/// arrives at `a` (`Incoming`), each once. Nothing is claimed of the order
/// in which they are handed out.
#[verifier::external_body]
pub(crate) fn graph_edges_directed(g: &EdgeGraph, a: usize, dir: EdgeDirection) -> (found: Vec<
    Edge,
>)
    requires
        a < graph_node_count(*g),
    ensures
        found@.to_multiset() == edges_at(*g, a, dir).to_multiset(),
{
    let side = match dir {
        EdgeDirection::Outgoing => petgraph::Direction::Outgoing,
        EdgeDirection::Incoming => petgraph::Direction::Incoming,
    };
    g.edges_directed(NodeIndex::new(a), side).map(
        |e| (e.source().index(), e.target().index(), *e.weight()),
    ).collect()
}

/// `x` stands before `y`, or beside it, when edges are ordered by operand
/// position.
pub open spec fn position_le(x: Edge, y: Edge) -> bool {
    x.2.position() <= y.2.position()
}

/// The positions along `s` never fall.
pub open spec fn ordered(s: Seq<Edge>) -> bool {
    forall|i: int, j: int| 0 <= i < j < s.len() ==> position_le(#[trigger] s[i], #[trigger] s[j])
}

/// Orders edges by ascending operand position.
pub(crate) fn sort_by_position(edges: &Vec<Edge>) -> (sorted: Vec<Edge>)
    ensures
        sorted@.to_multiset() == edges@.to_multiset(),
        ordered(sorted@),
{
    let mut sorted: Vec<Edge> = Vec::new();
    let mut k: usize = 0;
    assert(edges@.take(0) =~= Seq::<Edge>::empty());
    while k < edges.len()
        invariant
            k <= edges.len(),
            sorted@.to_multiset() == edges@.take(k as int).to_multiset(),
            ordered(sorted@),
        decreases edges.len() - k,
    {
        let e: Edge = edges[k];
        let key: usize = e.2.order();
        let mut at: usize = sorted.len();
        while at > 0 && sorted[at - 1].2.order() > key
            invariant
                at <= sorted.len(),
                key == e.2.position(),
                forall|j: int| at <= j < sorted.len() ==> (#[trigger] sorted@[j]).2.position() > key,
            decreases at,
        {
            at = at - 1;
        }
        let ghost before = sorted@;
        sorted.insert(at, e);
        proof {
            assert(edges@.take(k + 1) =~= edges@.take(k as int).push(e));
            to_multiset_build(edges@.take(k as int), e);
            to_multiset_insert(before, at as int, e);
            assert(sorted@ == before.insert(at as int, e));
            assert forall|i: int, j: int| 0 <= i < j < sorted@.len() implies position_le(
                #[trigger] sorted@[i],
                #[trigger] sorted@[j],
            ) by {
                let bi = if i < at { i } else { i - 1 };
                let bj = if j < at { j } else { j - 1 };
                if i != at && j != at {
                    assert(position_le(before[bi], before[bj]));
                }
            }
        }
        k = k + 1;
    }
    assert(edges@.take(k as int) =~= edges@);
    sorted
}

/// The edge that makes `target` the operand of `source` at position `at`.
pub open spec fn operand_edge(source: int, target: usize, at: int) -> Edge {
    (source as usize, target, EdgeData::EdgeOrder(at as usize))
}

/// The edges that a graph holds once the nodes below `n` have all their
/// operands attached and node `n` has its first `k`: node by node, and for
/// each node operand by operand.
pub open spec fn edges_upto(operands: Seq<Seq<usize>>, n: nat, k: nat) -> Seq<Edge>
    decreases n, k,
{
    if k > 0 {
        edges_upto(operands, n, (k - 1) as nat).push(
            operand_edge(n as int, operands[n as int][k - 1], k - 1),
        )
    } else if n > 0 {
        edges_upto(operands, (n - 1) as nat, operands[n - 1].len())
    } else {
        Seq::empty()
    }
}

/// The edges that attach the first `k` of `row` to node `n`.
pub open spec fn row_edges(n: int, row: Seq<usize>, k: nat) -> Seq<Edge> {
    Seq::new(k, |i: int| operand_edge(n, row[i], i))
}

/// How many operands of node `m` are attached at stage `(n, k)`.
pub open spec fn attached(operands: Seq<Seq<usize>>, n: nat, k: nat, m: int) -> nat {
    if 0 <= m < n {
        operands[m].len()
    } else if m == n {
        k
    } else {
        0
    }
}

/// `edges_upto` reads only the rows below `n` and the first `k` of row `n`.
pub proof fn lemma_edges_upto_agree(a: Seq<Seq<usize>>, b: Seq<Seq<usize>>, n: nat, k: nat)
    requires
        n <= a.len(),
        n <= b.len(),
        forall|m: int| 0 <= m < n ==> a[m] == b[m],
        k > 0 ==> n < a.len() && n < b.len() && k <= a[n as int].len() && k <= b[n as int].len()
            && a[n as int].take(k as int) == b[n as int].take(k as int),
    ensures
        edges_upto(a, n, k) == edges_upto(b, n, k),
    decreases n, k,
{
    if k > 0 {
        let ra = a[n as int];
        let rb = b[n as int];
        assert(ra.take(k as int)[k - 1] == rb.take(k as int)[k - 1]);
        assert(ra.take(k - 1) =~= ra.take(k as int).take(k - 1));
        assert(rb.take(k - 1) =~= rb.take(k as int).take(k - 1));
        lemma_edges_upto_agree(a, b, n, (k - 1) as nat);
    } else if n > 0 {
        let r = a[n - 1];
        assert(r.take(r.len() as int) =~= r);
        lemma_edges_upto_agree(a, b, (n - 1) as nat, r.len());
    }
}

/// The edges that leave node `m` are those of its operands, in operand
/// order.
pub proof fn lemma_outgoing(operands: Seq<Seq<usize>>, n: nat, k: nat, m: usize)
    requires
        n <= operands.len(),
        n <= usize::MAX,
        k > 0 ==> n < operands.len() && k <= operands[n as int].len(),
    ensures
        edges_upto(operands, n, k).filter(|e: Edge| touches(e, m, EdgeDirection::Outgoing))
            == row_edges(m as int, operands[m as int], attached(operands, n, k, m as int)),
    decreases n, k,
{
    let pred = |e: Edge| touches(e, m, EdgeDirection::Outgoing);
    let row = operands[m as int];
    if k > 0 {
        let rest = edges_upto(operands, n, (k - 1) as nat);
        let e = operand_edge(n as int, operands[n as int][k - 1], k - 1);
        lemma_outgoing(operands, n, (k - 1) as nat, m);
        rest.lemma_filter_push(e, pred);
        if m == n {
            assert(row_edges(m as int, row, k) =~= row_edges(m as int, row, (k - 1) as nat).push(e));
        }
    } else if n > 0 {
        lemma_outgoing(operands, (n - 1) as nat, operands[n - 1].len(), m);
    } else {
        reveal(Seq::filter);
        assert(row_edges(m as int, row, 0) =~= Seq::<Edge>::empty());
    }
}

/// No edge arrives at `h` exactly when `h` is the operand of no node.
pub proof fn lemma_incoming(operands: Seq<Seq<usize>>, n: nat, k: nat, h: usize)
    requires
        n <= operands.len(),
        k > 0 ==> n < operands.len() && k <= operands[n as int].len(),
    ensures
        edges_upto(operands, n, k).filter(|e: Edge| touches(e, h, EdgeDirection::Incoming)).len()
            == 0 <==> forall|m: int, i: int|
            0 <= i < attached(operands, n, k, m) ==> #[trigger] operands[m][i] != h,
    decreases n, k,
{
    let pred = |e: Edge| touches(e, h, EdgeDirection::Incoming);
    if k > 0 {
        let rest = edges_upto(operands, n, (k - 1) as nat);
        let e = operand_edge(n as int, operands[n as int][k - 1], k - 1);
        lemma_incoming(operands, n, (k - 1) as nat, h);
        rest.lemma_filter_push(e, pred);
        if rest.filter(pred).len() == 0 && !pred(e) {
            assert forall|m: int, i: int| 0 <= i < attached(operands, n, k, m) implies #[trigger] operands[m][i]
                != h by {
                if m == n && i == k - 1 {
                } else {
                    assert(0 <= i < attached(operands, n, (k - 1) as nat, m));
                }
            }
        } else if pred(e) {
            assert(0 <= k - 1 < attached(operands, n, k, n as int));
            assert(operands[n as int][k - 1] == h);
        } else {
            let (m, i) = choose|m: int, i: int|
                0 <= i < attached(operands, n, (k - 1) as nat, m) && #[trigger] operands[m][i] == h;
            assert(0 <= i < attached(operands, n, k, m));
        }
    } else if n > 0 {
        let last = operands[n - 1].len();
        lemma_incoming(operands, (n - 1) as nat, last, h);
    } else {
        reveal(Seq::filter);
    }
}

/// An order on edges that goes by operand position first.
pub open spec fn edge_le(x: Edge, y: Edge) -> bool {
    x.2.position() < y.2.position() || (x.2.position() == y.2.position() && (x.0 < y.0 || (x.0
        == y.0 && x.1 <= y.1)))
}

/// Edges in order of position that are, as a multiset, the edges of one
/// node's operands are those edges in operand order.
pub proof fn lemma_sorted_row(sorted: Seq<Edge>, n: int, row: Seq<usize>)
    requires
        ordered(sorted),
        sorted.to_multiset() == row_edges(n, row, row.len()).to_multiset(),
        0 <= n <= usize::MAX,
        row.len() <= usize::MAX,
    ensures
        sorted == row_edges(n, row, row.len()),
{
    broadcast use vstd::seq_lib::group_to_multiset_ensures;

    let canon = row_edges(n, row, row.len());
    let leq = |x: Edge, y: Edge| edge_le(x, y);
    assert(total_ordering(leq)) by {
        assert forall|x: Edge, y: Edge| #[trigger] leq(x, y) && #[trigger] leq(y, x) implies x
            == y by {
            assert(x.2 == y.2);
        }
    }
    assert(sorted_by(canon, leq));
    assert forall|i: int, j: int| 0 <= i < j < sorted.len() implies #[trigger] leq(
        sorted[i],
        sorted[j],
    ) by {
        assert(position_le(sorted[i], sorted[j]));
        assert(sorted.to_multiset().contains(sorted[i]));
        assert(sorted.to_multiset().contains(sorted[j]));
        assert(canon.contains(sorted[i]));
        assert(canon.contains(sorted[j]));
    }
    lemma_sorted_unique(sorted, canon, leq);
}

} // verus!
