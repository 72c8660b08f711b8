use vstd::prelude::*;

use crate::graph::{Tape, Value};
use crate::scalar::Scalar;
use crate::topo::{is_topological_order, reaches};

verus! {

/// The edges of the graph below `root`: a pair `(c, m)` for each node `m`
/// reached from `root` and each operand `c` of `m`.
pub open spec fn is_edge(ops: Seq<Seq<usize>>, root: int, c: usize, m: usize) -> bool {
    &&& reaches(ops, root, m as int)
    &&& ops[m as int].contains(c)
}

/// `m` stands among the first `i` entries of `order`.
pub open spec fn listed_before(order: Seq<usize>, i: int, m: usize) -> bool {
    exists|j: int| 0 <= j < i && order[j] == m
}

impl<S: Scalar> Tape<S> {
    /// The nodes that `root` reaches, in [`Tape::topological_order`], and
    /// the set of edges `(operand, node)` between them, each edge once
    /// (a node that uses one operand twice gives one edge).
    pub fn trace_graph(&self, root: Value) -> (r: (Vec<usize>, Vec<(usize, usize)>))
        requires
            self.wf(),
            root.index < self.size(),
        ensures
            is_topological_order(self.operand_lists(), root.index as int, r.0@),
            forall|c: usize, m: usize|
                #![trigger r.1@.contains((c, m))]
                r.1@.contains((c, m)) <==> is_edge(self.operand_lists(), root.index as int, c, m),
            forall|a: int, b: int| 0 <= a < b < r.1@.len() ==> r.1@[a] != r.1@[b],
    {
        let ghost ops = self.operand_lists();
        proof {
            self.lemma_acyclic();
        }
        let order = self.topological_order(root);
        let mut edges: Vec<(usize, usize)> = Vec::new();
        let mut i: usize = 0;
        while i < order.len()
            invariant
                self.wf(),
                ops == self.operand_lists(),
                crate::topo::acyclic_lists(ops),
                is_topological_order(ops, root.index as int, order@),
                i <= order@.len(),
                forall|c: usize, m: usize|
                    #![trigger edges@.contains((c, m))]
                    edges@.contains((c, m)) <==> (listed_before(order@, i as int, m) && ops[m as int].contains(c)),
                forall|a: int, b: int| 0 <= a < b < edges@.len() ==> edges@[a] != edges@[b],
            decreases order@.len() - i,
        {
            let m = order[i];
            let operands = self.operands(m);
            assert(operands@ == ops[m as int]);
            assert(operands@.len() <= 2);
            let ghost before = edges@;
            if operands.len() >= 1 {
                edges.push((operands[0], m));
            }
            if operands.len() >= 2 && operands[1] != operands[0] {
                edges.push((operands[1], m));
            }
            proof {
                let added = edges@.subrange(before.len() as int, edges@.len() as int);
                assert(edges@ =~= before + added);
                assert(forall|x: (usize, usize)| added.contains(x) ==> x.1 == m);
                assert forall|x: (usize, usize)| #[trigger] before.contains(x) implies listed_before(order@, i as int, x.1) by {
                    assert(before.contains((x.0, x.1)));
                }
                assert(!listed_before(order@, i as int, m)) by {
                    if listed_before(order@, i as int, m) {
                        let j = choose|j: int| 0 <= j < i && order@[j] == m;
                    }
                }
                assert forall|c: usize, m2: usize|
                    #![trigger edges@.contains((c, m2))]
                    edges@.contains((c, m2)) <==> (listed_before(order@, i + 1, m2) && ops[m2 as int].contains(c)) by {
                    if edges@.contains((c, m2)) {
                        let a = choose|a: int| 0 <= a < edges@.len() && edges@[a] == (c, m2);
                        if a < before.len() {
                            assert(before[a] == (c, m2));
                            assert(before.contains((c, m2)));
                            let j = choose|j: int| 0 <= j < i && order@[j] == m2;
                            assert(order@[j] == m2);
                        } else {
                            assert(added[a - before.len()] == (c, m2));
                            assert(m2 == m);
                            assert(order@[i as int] == m2);
                            if c == operands@[0] {
                                assert(ops[m2 as int][0] == c);
                            } else {
                                assert(ops[m2 as int][1] == c);
                            }
                        }
                    }
                    if listed_before(order@, i + 1, m2) && ops[m2 as int].contains(c) {
                        if m2 == m {
                            let k = choose|k: int| 0 <= k < ops[m as int].len() && ops[m as int][k] == c;
                            if k == 0 || operands@[0] == c {
                                assert(edges@[before.len() as int] == (c, m2));
                            } else {
                                assert(edges@[before.len() as int + 1] == (c, m2));
                            }
                        } else {
                            let j = choose|j: int| 0 <= j < i + 1 && order@[j] == m2;
                            assert(j != i);
                            assert(listed_before(order@, i as int, m2));
                            assert(before.contains((c, m2)));
                            let a = choose|a: int| 0 <= a < before.len() && before[a] == (c, m2);
                            assert(edges@[a] == (c, m2));
                        }
                    }
                }
                assert forall|a: int, b: int| 0 <= a < b < edges@.len() implies edges@[a] != edges@[b] by {
                    if b >= before.len() && a < before.len() {
                        assert(before.contains(before[a]));
                        assert(added.contains(edges@[b]));
                    }
                }
            }
            i = i + 1;
        }
        proof {
            assert forall|c: usize, m: usize|
                #![trigger edges@.contains((c, m))]
                edges@.contains((c, m)) <==> is_edge(ops, root.index as int, c, m) by {
                if listed_before(order@, order@.len() as int, m) {
                    let j = choose|j: int| 0 <= j < order@.len() && order@[j] == m;
                    assert(order@.contains(m));
                }
                if reaches(ops, root.index as int, m as int) {
                    crate::topo::lemma_reaches_below(ops, root.index as int, m as int);
                    assert(order@.contains(m));
                    let j = choose|j: int| 0 <= j < order@.len() && order@[j] == m;
                    assert(listed_before(order@, order@.len() as int, m));
                }
            }
        }
        (order, edges)
    }
}

} // verus!
