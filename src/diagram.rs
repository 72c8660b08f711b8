use vstd::prelude::*;

use petgraph::graph::{DiGraph, NodeIndex};

use crate::graph::{Operation, Tape, Value};
use crate::scalar::Scalar;
use crate::trace::listed_before;

verus! {

#[verifier::external_type_specification]
#[verifier::external_body]
#[verifier::reject_recursive_types(N)]
#[verifier::reject_recursive_types(E)]
#[verifier::reject_recursive_types(Ty)]
#[verifier::reject_recursive_types(Ix)]
pub struct ExPetGraph<N, E, Ty, Ix>(petgraph::graph::Graph<N, E, Ty, Ix>);

#[verifier::external_type_specification]
#[verifier::external_body]
pub struct ExDirected(petgraph::Directed);

/// The node weights of a diagram, by node index.
pub uninterp spec fn diagram_nodes(d: DiGraph<String, ()>) -> Seq<Seq<char>>;

/// The edges of a diagram, as (source, target) node indices, in the order
/// they were added.
pub uninterp spec fn diagram_edges(d: DiGraph<String, ()>) -> Seq<(nat, nat)>;

/// Relies on petgraph's `Graph::new`: a directed graph without nodes or edges.
#[verifier::external_body]
fn new_diagram() -> (d: DiGraph<String, ()>)
    ensures
        diagram_nodes(d) == Seq::<Seq<char>>::empty(),
        diagram_edges(d) == Seq::<(nat, nat)>::empty(),
{
    DiGraph::new()
}

/// Relies on petgraph's `Graph::add_node`: pushes a node whose index is the
/// former node count; it panics when that count reaches `u32::MAX`.
#[verifier::external_body]
fn add_diagram_node(d: &mut DiGraph<String, ()>, label: String) -> (i: usize)
    requires
        diagram_nodes(*old(d)).len() < u32::MAX,
    ensures
        i == diagram_nodes(*old(d)).len(),
        diagram_nodes(*final(d)) == diagram_nodes(*old(d)).push(label@),
        diagram_edges(*final(d)) == diagram_edges(*old(d)),
{
    d.add_node(label).index()
}

/// Relies on petgraph's `Graph::add_edge`: pushes an edge from node `a` to
/// node `b`; it panics when either node is missing or the edge count reaches
/// `u32::MAX`.
#[verifier::external_body]
fn add_diagram_edge(d: &mut DiGraph<String, ()>, a: usize, b: usize)
    requires
        a < diagram_nodes(*old(d)).len(),
        b < diagram_nodes(*old(d)).len(),
        diagram_edges(*old(d)).len() < u32::MAX,
    ensures
        diagram_nodes(*final(d)) == diagram_nodes(*old(d)),
        diagram_edges(*final(d)) == diagram_edges(*old(d)).push((a as nat, b as nat)),
{
    d.add_edge(NodeIndex::new(a), NodeIndex::new(b), ());
}

/// The text of the bubble that shows an operation in a diagram.
pub open spec fn operation_text(op: Operation) -> Seq<char> {
    match op {
        Operation::Add => "+"@,
        Operation::Multiply => "*"@,
        Operation::Tanh => "tanh"@,
        Operation::Exponent => "exp"@,
        Operation::Pow => "pow"@,
        Operation::Relu => "relu"@,
    }
}

/// The text of the bubble that shows `op` in a diagram.
pub fn operation_label(op: Operation) -> (s: String)
    ensures
        s@ == operation_text(op),
{
    let t: &str = match op {
        Operation::Add => "+",
        Operation::Multiply => "*",
        Operation::Tanh => "tanh",
        Operation::Exponent => "exp",
        Operation::Pow => "pow",
        Operation::Relu => "relu",
    };
    t.to_owned()
}

/// Number of nodes among the first `i` of `nodes` that an operation produced.
pub open spec fn operation_count<S: Scalar>(g: &Tape<S>, nodes: Seq<usize>, i: int) -> nat
    decreases i,
{
    if i <= 0 {
        0
    } else {
        operation_count(g, nodes, i - 1) + if g.operation_of(nodes[i - 1] as int) is Some {
            1nat
        } else {
            0nat
        }
    }
}

proof fn lemma_operation_count_grows<S: Scalar>(g: &Tape<S>, nodes: Seq<usize>, j: int, i: int)
    requires
        0 <= j <= i,
    ensures
        operation_count(g, nodes, j) <= operation_count(g, nodes, i),
        operation_count(g, nodes, i) - operation_count(g, nodes, j) <= i - j,
    decreases i - j,
{
    if j < i {
        lemma_operation_count_grows(g, nodes, j, i - 1);
    }
}

impl<S: Scalar> Tape<S> {
    /// A diagram of traced nodes and edges (as [`Tape::trace_graph`] gives
    /// them). Node `i` of the diagram shows `nodes[i]`, labelled
    /// `labels[nodes[i]]`. Then each traced node that an operation produced,
    /// in order, gets a bubble naming the operation and an edge from the
    /// bubble to its node. Last, each traced edge `(operand, node)` becomes an
    /// edge from the operand's node to the bubble of the node.
    pub fn create_graph(&self, nodes: &Vec<usize>, edges: &Vec<(usize, usize)>, labels: &Vec<String>) -> (d:
        DiGraph<String, ()>)
        requires
            self.wf(),
            labels@.len() == self.size(),
            nodes@.len() < 0x4000_0000,
            edges@.len() < 0x4000_0000,
            forall|i: int| 0 <= i < nodes@.len() ==> #[trigger] nodes@[i] < self.size(),
            forall|i: int, j: int| 0 <= i < j < nodes@.len() ==> nodes@[i] != nodes@[j],
            forall|a: int|
                0 <= a < edges@.len() ==> {
                    &&& listed_before(nodes@, nodes@.len() as int, (#[trigger] edges@[a]).0)
                    &&& listed_before(nodes@, nodes@.len() as int, edges@[a].1)
                    &&& self.operation_of(edges@[a].1 as int) is Some
                },
        ensures
            diagram_nodes(d).len() == nodes@.len() + operation_count(self, nodes@, nodes@.len() as int),
            forall|i: int| 0 <= i < nodes@.len() ==> #[trigger] diagram_nodes(d)[i] == labels@[nodes@[i] as int]@,
            forall|i: int|
                0 <= i < nodes@.len() && (#[trigger] self.operation_of(nodes@[i] as int)) is Some ==> {
                    &&& diagram_nodes(d)[(nodes@.len() + operation_count(self, nodes@, i)) as int] == operation_text(
                        self.operation_of(nodes@[i] as int).unwrap(),
                    )
                    &&& diagram_edges(d)[operation_count(self, nodes@, i) as int] == (
                        (nodes@.len() + operation_count(self, nodes@, i)) as nat,
                        i as nat,
                    )
                },
            diagram_edges(d).len() == operation_count(self, nodes@, nodes@.len() as int) + edges@.len(),
            forall|a: int, ic: int, im: int|
                #![trigger edges@[a], nodes@[ic], nodes@[im]]
                0 <= a < edges@.len() && 0 <= ic < nodes@.len() && 0 <= im < nodes@.len() && nodes@[ic]
                    == edges@[a].0 && nodes@[im] == edges@[a].1 ==> diagram_edges(d)[operation_count(
                    self,
                    nodes@,
                    nodes@.len() as int,
                ) + a] == (ic as nat, (nodes@.len() + operation_count(self, nodes@, im)) as nat),
    {
        let n = nodes.len();
        let ghost ns = nodes@;
        let mut d = new_diagram();
        let mut i: usize = 0;
        while i < n
            invariant
                n == ns.len(),
                ns == nodes@,
                n < 0x4000_0000,
                i <= n,
                labels@.len() == self.size(),
                forall|j: int| 0 <= j < ns.len() ==> #[trigger] ns[j] < self.size(),
                diagram_nodes(d).len() == i,
                diagram_edges(d).len() == 0,
                forall|j: int| 0 <= j < i ==> #[trigger] diagram_nodes(d)[j] == labels@[ns[j] as int]@,
            decreases n - i,
        {
            let label = labels[nodes[i]].clone();
            add_diagram_node(&mut d, label);
            i = i + 1;
        }
        let size = self.len();
        let mut pos: Vec<usize> = Vec::new();
        let mut bubble: Vec<usize> = Vec::new();
        let mut k: usize = 0;
        while k < size
            invariant
                k <= size,
                pos@.len() == k,
                bubble@.len() == k,
            decreases size - k,
        {
            pos.push(0);
            bubble.push(0);
            k = k + 1;
        }
        let mut count: usize = 0;
        i = 0;
        while i < n
            invariant
                self.wf(),
                n == ns.len(),
                ns == nodes@,
                n < 0x4000_0000,
                size == self.size(),
                i <= n,
                pos@.len() == size,
                bubble@.len() == size,
                labels@.len() == self.size(),
                forall|j: int| 0 <= j < ns.len() ==> #[trigger] ns[j] < self.size(),
                forall|j: int, l: int| 0 <= j < l < ns.len() ==> ns[j] != ns[l],
                count == operation_count(self, ns, i as int),
                count <= i,
                diagram_nodes(d).len() == n + count,
                diagram_edges(d).len() == count,
                forall|j: int| 0 <= j < n ==> #[trigger] diagram_nodes(d)[j] == labels@[ns[j] as int]@,
                forall|j: int| 0 <= j < i ==> pos@[#[trigger] ns[j] as int] == j,
                forall|j: int|
                    0 <= j < i && (#[trigger] self.operation_of(ns[j] as int)) is Some ==> {
                        &&& diagram_nodes(d)[(n + operation_count(self, ns, j)) as int] == operation_text(
                            self.operation_of(ns[j] as int).unwrap(),
                        )
                        &&& diagram_edges(d)[operation_count(self, ns, j) as int] == (
                            (n + operation_count(self, ns, j)) as nat,
                            j as nat,
                        )
                        &&& bubble@[ns[j] as int] == n + operation_count(self, ns, j)
                    },
            decreases n - i,
        {
            let u = nodes[i];
            pos.set(u, i);
            let ghost before = d;
            proof {
                assert forall|j: int| 0 <= j < i implies operation_count(self, ns, j) <= operation_count(self, ns, i as int) by {
                    lemma_operation_count_grows(self, ns, j, i as int);
                }
                assert forall|j: int| 0 <= j < i && (#[trigger] self.operation_of(ns[j] as int)) is Some implies
                    operation_count(self, ns, j) < operation_count(self, ns, i as int) by {
                    lemma_operation_count_grows(self, ns, j + 1, i as int);
                }
            }
            match (Value { index: u }).operation(self) {
                Some(op) => {
                    let label = operation_label(op);
                    let b = add_diagram_node(&mut d, label);
                    add_diagram_edge(&mut d, b, i);
                    bubble.set(u, b);
                    count = count + 1;
                },
                None => {},
            }
            proof {
                lemma_operation_count_grows(self, ns, 0, i as int + 1);
            }
            i = i + 1;
        }
        let ghost oc = count as int;
        let ghost mid = d;
        proof {
            lemma_operation_count_grows(self, ns, 0, n as int);
            assert forall|j: int|
                0 <= j < n && (#[trigger] self.operation_of(ns[j] as int)) is Some implies operation_count(self, ns, j)
                    < operation_count(self, ns, n as int) by {
                lemma_operation_count_grows(self, ns, j + 1, n as int);
            }
        }
        self.add_operand_edges(&mut d, nodes, edges, &pos, &bubble);
        proof {
            assert forall|j: int|
                0 <= j < n && (#[trigger] self.operation_of(ns[j] as int)) is Some implies diagram_edges(d)[operation_count(self, ns, j) as int] == (
                    (n + operation_count(self, ns, j)) as nat,
                    j as nat,
                ) by {
                lemma_operation_count_grows(self, ns, j + 1, n as int);
                assert(diagram_edges(mid)[operation_count(self, ns, j) as int] == (
                    (n + operation_count(self, ns, j)) as nat,
                    j as nat,
                ));
            }
        }
        d
    }

    /// Adds, for each traced edge `(operand, node)`, an edge from the diagram
    /// node at `pos[operand]` to the one at `bubble[node]`.
    fn add_operand_edges(
        &self,
        d: &mut DiGraph<String, ()>,
        nodes: &Vec<usize>,
        edges: &Vec<(usize, usize)>,
        pos: &Vec<usize>,
        bubble: &Vec<usize>,
    )
        requires
            self.wf(),
            nodes@.len() < 0x4000_0000,
            edges@.len() < 0x4000_0000,
            pos@.len() == self.size(),
            bubble@.len() == self.size(),
            diagram_nodes(*old(d)).len() == nodes@.len() + operation_count(self, nodes@, nodes@.len() as int),
            diagram_edges(*old(d)).len() == operation_count(self, nodes@, nodes@.len() as int),
            operation_count(self, nodes@, nodes@.len() as int) <= nodes@.len(),
            forall|j: int| 0 <= j < nodes@.len() ==> #[trigger] nodes@[j] < self.size(),
            forall|j: int| 0 <= j < nodes@.len() ==> pos@[#[trigger] nodes@[j] as int] == j,
            forall|j: int|
                0 <= j < nodes@.len() && (#[trigger] self.operation_of(nodes@[j] as int)) is Some
                    ==> bubble@[nodes@[j] as int] == nodes@.len() + operation_count(self, nodes@, j)
                    && operation_count(self, nodes@, j) < operation_count(self, nodes@, nodes@.len() as int),
            forall|e: int|
                0 <= e < edges@.len() ==> {
                    &&& listed_before(nodes@, nodes@.len() as int, (#[trigger] edges@[e]).0)
                    &&& listed_before(nodes@, nodes@.len() as int, edges@[e].1)
                    &&& self.operation_of(edges@[e].1 as int) is Some
                },
        ensures
            diagram_nodes(*final(d)) == diagram_nodes(*old(d)),
            diagram_edges(*final(d)).len() == diagram_edges(*old(d)).len() + edges@.len(),
            forall|x: int| 0 <= x < diagram_edges(*old(d)).len() ==> #[trigger] diagram_edges(*final(d))[x] == diagram_edges(*old(d))[x],
            forall|e: int|
                0 <= e < edges@.len() ==> diagram_edges(*final(d))[diagram_edges(*old(d)).len() + e] == (
                    pos@[(#[trigger] edges@[e]).0 as int] as nat,
                    bubble@[edges@[e].1 as int] as nat,
                ),
    {
        let ghost base = diagram_edges(*d).len();
        let mut a: usize = 0;
        while a < edges.len()
            invariant
                a <= edges@.len(),
                edges@.len() < 0x4000_0000,
                nodes@.len() < 0x4000_0000,
                pos@.len() == self.size(),
                bubble@.len() == self.size(),
                base == diagram_edges(*old(d)).len(),
                base <= nodes@.len(),
                diagram_nodes(*d) == diagram_nodes(*old(d)),
                diagram_nodes(*old(d)).len() == nodes@.len() + operation_count(self, nodes@, nodes@.len() as int),
                base == operation_count(self, nodes@, nodes@.len() as int),
                forall|j: int| 0 <= j < nodes@.len() ==> #[trigger] nodes@[j] < self.size(),
                forall|j: int| 0 <= j < nodes@.len() ==> pos@[#[trigger] nodes@[j] as int] == j,
                forall|j: int|
                    0 <= j < nodes@.len() && (#[trigger] self.operation_of(nodes@[j] as int)) is Some
                        ==> bubble@[nodes@[j] as int] == nodes@.len() + operation_count(self, nodes@, j)
                        && operation_count(self, nodes@, j) < operation_count(self, nodes@, nodes@.len() as int),
                forall|e: int|
                    0 <= e < edges@.len() ==> {
                        &&& listed_before(nodes@, nodes@.len() as int, (#[trigger] edges@[e]).0)
                        &&& listed_before(nodes@, nodes@.len() as int, edges@[e].1)
                        &&& self.operation_of(edges@[e].1 as int) is Some
                    },
                diagram_edges(*d).len() == base + a,
                forall|x: int| 0 <= x < base ==> #[trigger] diagram_edges(*d)[x] == diagram_edges(*old(d))[x],
                forall|e: int|
                    0 <= e < a ==> diagram_edges(*d)[base + e] == (
                        pos@[(#[trigger] edges@[e]).0 as int] as nat,
                        bubble@[edges@[e].1 as int] as nat,
                    ),
            decreases edges@.len() - a,
        {
            let (c, m) = edges[a];
            proof {
                assert(listed_before(nodes@, nodes@.len() as int, edges@[a as int].0));
                assert(listed_before(nodes@, nodes@.len() as int, edges@[a as int].1));
                let ic = choose|j: int| 0 <= j < nodes@.len() && nodes@[j] == c;
                let im = choose|j: int| 0 <= j < nodes@.len() && nodes@[j] == m;
                assert(pos@[nodes@[ic] as int] == ic);
                assert(self.operation_of(nodes@[im] as int) is Some);
            }
            add_diagram_edge(d, pos[c], bubble[m]);
            a = a + 1;
        }
    }
}

} // verus!
