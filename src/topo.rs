use vstd::prelude::*;

use crate::graph::{Tape, Value};
use crate::scalar::Scalar;

verus! {

/// Whether node `to` is reached from node `from` by following operand
/// handles downwards, over the first two operands of each node (no operation
/// takes more). Every node reaches itself.
pub open spec fn reaches(ops: Seq<Seq<usize>>, from: int, to: int) -> bool
    decreases from,
{
    if from < 0 || from >= ops.len() {
        false
    } else if from == to {
        true
    } else {
        ||| (ops[from].len() > 0 && ops[from][0] < from && reaches(ops, ops[from][0] as int, to))
        ||| (ops[from].len() > 1 && ops[from][1] < from && reaches(ops, ops[from][1] as int, to))
    }
}

/// `order` lists, each once, the nodes reached from `root`, and no node lists
/// as an operand a node at its own position or a later one.
pub open spec fn is_topological_order(ops: Seq<Seq<usize>>, root: int, order: Seq<usize>) -> bool {
    &&& forall|x: int| 0 <= x < ops.len() ==> (reaches(ops, root, x) <==> order.contains(x as usize))
    &&& forall|i: int| 0 <= i < order.len() ==> #[trigger] order[i] < ops.len()
    &&& forall|i: int, j: int| 0 <= i < j < order.len() ==> order[i] != order[j]
    &&& forall|i: int, j: int, k: int|
        #![trigger ops[order[i] as int][k], order[j]]
        0 <= i <= j < order.len() && 0 <= k < ops[order[i] as int].len() ==> ops[order[i] as int][k]
            != order[j]
}

/// Operand lists in which each node has at most two operands, all built before it.
pub open spec fn acyclic_lists(ops: Seq<Seq<usize>>) -> bool {
    forall|i: int| 0 <= i < ops.len() ==> {
        &&& #[trigger] ops[i].len() <= 2
        &&& forall|k: int| 0 <= k < ops[i].len() ==> #[trigger] ops[i][k] < i
    }
}

/// A node is reached only from itself or a later node.
pub proof fn lemma_reaches_below(ops: Seq<Seq<usize>>, from: int, to: int)
    requires
        reaches(ops, from, to),
    ensures
        0 <= to <= from < ops.len(),
    decreases from,
{
    if from != to {
        if ops[from].len() > 0 && ops[from][0] < from && reaches(ops, ops[from][0] as int, to) {
            lemma_reaches_below(ops, ops[from][0] as int, to);
        } else {
            lemma_reaches_below(ops, ops[from][1] as int, to);
        }
    }
}

/// What `from` reaches, it reaches through any node it reaches.
pub proof fn lemma_reaches_operand(ops: Seq<Seq<usize>>, from: int, mid: int, k: int)
    requires
        acyclic_lists(ops),
        reaches(ops, from, mid),
        0 <= k < ops[mid].len(),
    ensures
        reaches(ops, from, ops[mid][k] as int),
    decreases from,
{
    lemma_reaches_below(ops, from, mid);
    let c = ops[mid][k] as int;
    assert(ops[mid].len() <= 2 && c < mid);
    assert(reaches(ops, c, c));
    if from == mid {
        assert(reaches(ops, mid, c));
    } else if from != c {
        if ops[from].len() > 0 && ops[from][0] < from && reaches(ops, ops[from][0] as int, mid) {
            lemma_reaches_operand(ops, ops[from][0] as int, mid, k);
        } else {
            lemma_reaches_operand(ops, ops[from][1] as int, mid, k);
        }
    }
}

/// A set of nodes closed under operands holds all that its members reach.
proof fn lemma_closed_holds_reached(ops: Seq<Seq<usize>>, state: Seq<u8>, from: int, to: int)
    requires
        state.len() == ops.len(),
        forall|y: int, k: int|
            0 <= y < ops.len() && state[y] == 2 && 0 <= k < ops[y].len() ==> state[#[trigger] ops[y][k] as int]
                == 2,
        0 <= from < ops.len(),
        state[from] == 2,
        reaches(ops, from, to),
    ensures
        state[to] == 2,
    decreases from,
{
    if from != to {
        if ops[from].len() > 0 && ops[from][0] < from && reaches(ops, ops[from][0] as int, to) {
            assert(state[ops[from][0] as int] == 2);
            lemma_closed_holds_reached(ops, state, ops[from][0] as int, to);
        } else {
            assert(state[ops[from][1] as int] == 2);
            lemma_closed_holds_reached(ops, state, ops[from][1] as int, to);
        }
    }
}

/// Number of nodes not yet visited.
spec fn count_unvisited(s: Seq<u8>) -> nat
    decreases s.len(),
{
    if s.len() == 0 {
        0
    } else {
        count_unvisited(s.drop_last()) + if s.last() == 0 {
            1nat
        } else {
            0nat
        }
    }
}

proof fn lemma_count_unvisited_update(s: Seq<u8>, i: int, v: u8)
    requires
        0 <= i < s.len(),
    ensures
        count_unvisited(s.update(i, v)) + (if s[i] == 0 {
            1nat
        } else {
            0nat
        }) == count_unvisited(s) + (if v == 0 {
            1nat
        } else {
            0nat
        }),
    decreases s.len(),
{
    if i == s.len() - 1 {
        assert(s.update(i, v).drop_last() =~= s.drop_last());
    } else {
        assert(s.update(i, v).drop_last() =~= s.drop_last().update(i, v));
        lemma_count_unvisited_update(s.drop_last(), i, v);
    }
}

/// Operand positions still to be explored by the frames of the work stack.
spec fn pending(stack: Seq<(usize, usize)>) -> nat
    decreases stack.len(),
{
    if stack.len() == 0 {
        0
    } else {
        pending(stack.drop_last()) + if stack.last().1 < 3 {
            (3 - stack.last().1) as nat
        } else {
            0nat
        }
    }
}

impl<S: Scalar> Tape<S> {
    /// The nodes reached from `root`, each once, in depth-first post-order:
    /// the operands of a node, in their recorded order, come before it.
    ///
    /// The traversal keeps an explicit stack of (node, next operand position)
    /// frames, so its depth is not bounded by the call stack. A node is
    /// identified by its handle: a visit mark per handle keeps shared
    /// operands from being listed twice.
    pub fn topological_order(&self, root: Value) -> (order: Vec<usize>)
        requires
            self.wf(),
            root.index < self.size(),
        ensures
            is_topological_order(self.operand_lists(), root.index as int, order@),
    {
        let ghost ops = self.operand_lists();
        let n = self.len();
        proof {
            assert forall|i: int| 0 <= i < ops.len() implies {
                &&& #[trigger] ops[i].len() <= 2
                &&& forall|k: int| 0 <= k < ops[i].len() ==> #[trigger] ops[i][k] < i
            } by {
                assert(self.node_wf(i));
            }
        }
        // 0: not visited; 1: on the stack; 2: listed in `out`.
        let mut state: Vec<u8> = Vec::new();
        let mut i: usize = 0;
        while i < n
            invariant
                i <= n,
                state@.len() == i,
                forall|x: int| 0 <= x < i ==> state@[x] == 0,
            decreases n - i,
        {
            state.push(0);
            i = i + 1;
        }
        let r = root.index;
        state.set(r, 1);
        let mut stack: Vec<(usize, usize)> = vec![(r, 0)];
        let mut out: Vec<usize> = Vec::new();
        proof {
            assert(reaches(ops, r as int, r as int));
            assert(stack@[0].0 == r);
        }
        while stack.len() > 0
            invariant
                self.wf(),
                ops == self.operand_lists(),
                acyclic_lists(ops),
                n == ops.len(),
                r < n,
                state@.len() == n,
                forall|x: int| 0 <= x < n ==> #[trigger] state@[x] <= 2,
                forall|i: int|
                    0 <= i < out@.len() ==> #[trigger] out@[i] < n && state@[out@[i] as int] == 2,
                forall|x: int| 0 <= x < n && #[trigger] state@[x] == 2 ==> out@.contains(x as usize),
                forall|i: int, j: int| 0 <= i < j < out@.len() ==> out@[i] != out@[j],
                forall|i: int, k: int|
                    0 <= i < out@.len() && 0 <= k < ops[out@[i] as int].len() ==> state@[#[trigger] ops[out@[i] as int][k] as int]
                        == 2,
                forall|i: int, j: int, k: int|
                    #![trigger ops[out@[i] as int][k], out@[j]]
                    0 <= i <= j < out@.len() && 0 <= k < ops[out@[i] as int].len() ==> ops[out@[i] as int][k]
                        != out@[j],
                forall|j: int|
                    0 <= j < stack@.len() ==> {
                        &&& #[trigger] stack@[j].0 < n
                        &&& stack@[j].1 <= ops[stack@[j].0 as int].len()
                        &&& state@[stack@[j].0 as int] == 1
                    },
                forall|j: int, l: int| 0 <= j < l < stack@.len() ==> stack@[l].0 < stack@[j].0,
                forall|x: int|
                    0 <= x < n && #[trigger] state@[x] == 1 ==> exists|j: int|
                        0 <= j < stack@.len() && stack@[j].0 == x,
                forall|j: int, k: int|
                    0 <= j < stack@.len() && 0 <= k < stack@[j].1 ==> state@[#[trigger] ops[stack@[j].0 as int][k] as int]
                        != 0,
                forall|x: int| 0 <= x < n && #[trigger] state@[x] != 0 ==> reaches(ops, r as int, x),
                state@[r as int] != 0,
            decreases count_unvisited(state@), pending(stack@),
        {
            let top = stack.len() - 1;
            let (u, k) = stack[top];
            let operands = self.operands(u);
            assert(operands@ == ops[u as int]);
            if k < operands.len() {
                let c = operands[k];
                assert(c < u);
                let ghost old_stack = stack@;
                let ghost old_state = state@;
                stack.set(top, (u, k + 1));
                assert(stack@.drop_last() =~= old_stack.drop_last());
                if state[c] == 0 {
                    state.set(c, 1);
                    stack.push((c, 0));
                    proof {
                        lemma_count_unvisited_update(old_state, c as int, 1);
                        lemma_reaches_operand(ops, r as int, u as int, k as int);
                        assert forall|x: int| 0 <= x < n && #[trigger] state@[x] == 1 implies exists|j: int|
                            0 <= j < stack@.len() && stack@[j].0 == x by {
                            if x == c {
                                assert(stack@[stack@.len() - 1].0 == x);
                            } else {
                                let j = choose|j: int| 0 <= j < old_stack.len() && old_stack[j].0 == x;
                                assert(stack@[j].0 == x);
                            }
                        }
                        assert forall|j: int, k2: int|
                            0 <= j < stack@.len() && 0 <= k2 < stack@[j].1 implies state@[#[trigger] ops[stack@[j].0 as int][k2] as int]
                            != 0 by {
                            if j < top {
                                assert(stack@[j] == old_stack[j]);
                            }
                        }
                        assert forall|x: int| 0 <= x < n && #[trigger] state@[x] == 2 implies out@.contains(x as usize) by {
                            assert(old_state[x] == 2);
                        }
                    }
                } else {
                    proof {
                        assert forall|x: int| 0 <= x < n && #[trigger] state@[x] == 1 implies exists|j: int|
                            0 <= j < stack@.len() && stack@[j].0 == x by {
                            let j = choose|j: int| 0 <= j < old_stack.len() && old_stack[j].0 == x;
                            assert(stack@[j].0 == x);
                        }
                        assert forall|j: int, k2: int|
                            0 <= j < stack@.len() && 0 <= k2 < stack@[j].1 implies state@[#[trigger] ops[stack@[j].0 as int][k2] as int]
                            != 0 by {
                            if j < top {
                                assert(stack@[j] == old_stack[j]);
                            }
                        }
                    }
                }
            } else {
                let ghost old_stack = stack@;
                let ghost old_state = state@;
                let ghost old_out = out@;
                proof {
                    assert forall|k2: int| 0 <= k2 < ops[u as int].len() implies state@[
                        #[trigger] ops[u as int][k2] as int] == 2 by {
                        let c2 = ops[u as int][k2] as int;
                        assert(state@[c2] != 0);
                        if state@[c2] == 1 {
                            let j = choose|j: int| 0 <= j < old_stack.len() && old_stack[j].0 == c2;
                            if j < top {
                                assert(old_stack[top as int].0 < old_stack[j].0);
                            }
                        }
                    }
                }
                stack.pop();
                state.set(u, 2);
                out.push(u);
                proof {
                    lemma_count_unvisited_update(old_state, u as int, 2);
                    assert(old_stack.drop_last() =~= stack@);
                    assert(out@[out@.len() - 1] == u);
                    assert forall|x: int| 0 <= x < n && #[trigger] state@[x] == 1 implies exists|j: int|
                        0 <= j < stack@.len() && stack@[j].0 == x by {
                        let j = choose|j: int| 0 <= j < old_stack.len() && old_stack[j].0 == x;
                        assert(j != top);
                        assert(stack@[j].0 == x);
                    }
                    assert forall|x: int| 0 <= x < n && #[trigger] state@[x] == 2 implies out@.contains(x as usize) by {
                        if x != u {
                            assert(old_out.contains(x as usize));
                            let i = choose|i: int| 0 <= i < old_out.len() && old_out[i] == x as usize;
                            assert(out@[i] == x as usize);
                        }
                    }
                    assert forall|i: int, k2: int|
                        0 <= i < out@.len() && 0 <= k2 < ops[out@[i] as int].len() implies state@[
                        #[trigger] ops[out@[i] as int][k2] as int] == 2 by {
                        if i < old_out.len() {
                            assert(out@[i] == old_out[i]);
                        }
                    }
                    assert forall|i: int, j: int, k2: int|
                        #![trigger ops[out@[i] as int][k2], out@[j]]
                        0 <= i <= j < out@.len() && 0 <= k2 < ops[out@[i] as int].len() implies ops[out@[i] as int][k2]
                        != out@[j] by {
                        if j == out@.len() - 1 {
                            if i < j {
                                assert(old_state[ops[old_out[i] as int][k2] as int] == 2);
                            }
                        } else {
                            assert(out@[i] == old_out[i] && out@[j] == old_out[j]);
                        }
                    }
                }
            }
        }
        proof {
            assert forall|y: int, k: int|
                0 <= y < ops.len() && state@[y] == 2 && 0 <= k < ops[y].len() implies state@[
                #[trigger] ops[y][k] as int] == 2 by {
                assert(out@.contains(y as usize));
                let i = choose|i: int| 0 <= i < out@.len() && out@[i] == y as usize;
                assert(state@[ops[out@[i] as int][k] as int] == 2);
            }
            assert forall|x: int| 0 <= x < ops.len() implies (reaches(ops, r as int, x) <==> out@.contains(
                x as usize,
            )) by {
                if reaches(ops, r as int, x) {
                    if state@[r as int] == 1 {
                        let j = choose|j: int| 0 <= j < stack@.len() && stack@[j].0 == r;
                    }
                    lemma_closed_holds_reached(ops, state@, r as int, x);
                }
                if out@.contains(x as usize) {
                    let i = choose|i: int| 0 <= i < out@.len() && out@[i] == x as usize;
                    assert(state@[out@[i] as int] == 2);
                }
            }
        }
        out
    }
}

} // verus!
