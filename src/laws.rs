use vstd::prelude::*;

use crate::graph::{amount, apply, step, Contribution, Operation, Rule, Tape, Value};
use crate::scalar::Scalar;
use crate::topo::{is_topological_order, lemma_reaches_operand, reaches};

verus! {

/// Every operand of a listed node is listed, at an earlier position: the
/// order in which `topological_order` lists the nodes reached from `root`
/// puts each node after all of its operands, so its reverse puts each node
/// before all of them.
pub proof fn lemma_operands_listed_earlier<S: Scalar>(
    g: &Tape<S>,
    root: Value,
    order: Seq<usize>,
    i: int,
    k: int,
)
    requires
        g.wf(),
        root.index < g.size(),
        is_topological_order(g.operand_lists(), root.index as int, order),
        0 <= i < order.len(),
        0 <= k < g.operands_of(order[i] as int).len(),
    ensures
        exists|j: int| 0 <= j < i && order[j] == g.operands_of(order[i] as int)[k],
{
    let ops = g.operand_lists();
    g.lemma_acyclic();
    let m = order[i] as int;
    assert(order.contains(m as usize));
    assert(ops[m] == g.operands_of(m));
    lemma_reaches_operand(ops, root.index as int, m, k);
    let c = ops[m][k];
    assert(order.contains(c));
    let j = choose|j: int| 0 <= j < order.len() && order[j] == c;
    if j >= i {
        assert(ops[order[i] as int][k] != order[j]);
    }
}

/// A node that is an operand of a node `m` reached from `root` is itself
/// reached, and both are listed exactly once, `m` after it. So when a
/// backward pass walks the list in reverse, the rule of every consumer of a
/// shared node (however many there are) runs before the rule of that node.
pub proof fn lemma_consumers_come_first<S: Scalar>(
    g: &Tape<S>,
    root: Value,
    order: Seq<usize>,
    m: usize,
    k: int,
)
    requires
        g.wf(),
        root.index < g.size(),
        is_topological_order(g.operand_lists(), root.index as int, order),
        reaches(g.operand_lists(), root.index as int, m as int),
        0 <= k < g.operands_of(m as int).len(),
    ensures
        reaches(g.operand_lists(), root.index as int, g.operands_of(m as int)[k] as int),
        order.contains(g.operands_of(m as int)[k]),
        order.contains(m),
        forall|i: int, j: int|
            0 <= i < order.len() && 0 <= j < order.len() && order[i] == g.operands_of(m as int)[k]
                && order[j] == m ==> i < j,
{
    let ops = g.operand_lists();
    g.lemma_acyclic();
    assert(m < g.size()) by {
        crate::topo::lemma_reaches_below(ops, root.index as int, m as int);
    }
    assert(ops[m as int] == g.operands_of(m as int));
    lemma_reaches_operand(ops, root.index as int, m as int, k);
    let x = ops[m as int][k];
    assert(order.contains(m));
    let j = choose|j: int| 0 <= j < order.len() && order[j] == m;
    lemma_operands_listed_earlier(g, root, order, j, k);
    let i = choose|i: int| 0 <= i < j && order[i] == x;
    assert(order.contains(x));
    assert forall|i2: int, j2: int|
        0 <= i2 < order.len() && 0 <= j2 < order.len() && order[i2] == x && order[j2] == m implies i2
        < j2 by {
        assert(i2 == i && j2 == j);
    }
}

/// When `v` is the only node of a duplicate-free `order` whose local rule
/// contributes anything, the schedule of `order` is that rule alone.
proof fn lemma_schedule_single<S: Scalar>(g: &Tape<S>, order: Seq<usize>, v: usize)
    requires
        forall|i: int| 0 <= i < order.len() && order[i] != v ==> g.local_rule(#[trigger] order[i]) == Seq::<Contribution>::empty(),
        forall|i: int, j: int| 0 <= i < j < order.len() ==> order[i] != order[j],
    ensures
        order.contains(v) ==> g.schedule(order) == g.local_rule(v),
        !order.contains(v) ==> g.schedule(order) == Seq::<Contribution>::empty(),
    decreases order.len(),
{
    if order.len() > 0 {
        let rest = order.drop_last();
        let last = order.len() - 1;
        assert forall|i: int| 0 <= i < rest.len() && rest[i] != v implies g.local_rule(#[trigger] rest[i]) == Seq::<Contribution>::empty() by {
            assert(rest[i] == order[i]);
        }
        lemma_schedule_single(g, rest, v);
        if order[last] == v {
            if rest.contains(v) {
                let j = choose|j: int| 0 <= j < rest.len() && rest[j] == v;
                assert(order[j] == order[last]);
            }
            assert(g.schedule(order) =~= g.local_rule(v));
        } else {
            assert(g.schedule(order) =~= g.schedule(rest));
            if order.contains(v) {
                let j = choose|j: int| 0 <= j < order.len() && order[j] == v;
                assert(rest[j] == v);
            }
            if rest.contains(v) {
                let j = choose|j: int| 0 <= j < rest.len() && rest[j] == v;
                assert(order[j] == v);
            }
        }
    }
}

/// The nodes reached from a node whose operands `p` and `q` are leaves are
/// that node, `p` and `q`; and a backward pass from it makes exactly the
/// contributions of its own local rule.
proof fn lemma_schedule_over_leaves<S: Scalar>(g: &Tape<S>, v: Value, p: usize, q: usize, order: Seq<usize>)
    requires
        g.wf(),
        v.index < g.size(),
        g.operands_of(v.index as int) == seq![p, q],
        g.operation_of(p as int) is None,
        g.operation_of(q as int) is None,
        is_topological_order(g.operand_lists(), v.index as int, order),
    ensures
        g.schedule(order) == g.local_rule(v.index),
{
    let ops = g.operand_lists();
    assert(g.node_wf(v.index as int));
    assert(g.node_wf(p as int));
    assert(g.node_wf(q as int));
    assert(ops[v.index as int] == seq![p, q]);
    assert(ops[p as int].len() == 0);
    assert(ops[q as int].len() == 0);
    assert forall|i: int| 0 <= i < order.len() && order[i] != v.index implies g.local_rule(#[trigger] order[i]) == Seq::<Contribution>::empty() by {
        let x = order[i];
        assert(order.contains(x));
        assert(reaches(ops, v.index as int, x as int));
        if reaches(ops, p as int, x as int) {
            assert(x == p);
        } else {
            assert(reaches(ops, q as int, x as int));
            assert(x == q);
        }
    }
    assert(reaches(ops, v.index as int, v.index as int));
    lemma_schedule_single(g, order, v.index);
}

/// A backward pass from `add(a, b)` over distinct leaves `a` and `b` adds
/// the sum's gradient, unchanged, to the gradient of `b` and to that of `a`,
/// and changes no other gradient. `grads` are the gradients the pass starts
/// from (with the sum seeded) and `order` the traversal order, as
/// [`Value::backward`] states them.
pub proof fn lemma_sum_passes_gradient_to_leaves<S: Scalar>(
    g: &Tape<S>,
    a: Value,
    b: Value,
    v: Value,
    order: Seq<usize>,
    grads: Seq<S>,
)
    requires
        g.wf(),
        a.index < g.size(),
        b.index < g.size(),
        a.index != b.index,
        g.operation_of(a.index as int) is None,
        g.operation_of(b.index as int) is None,
        g.node_is(v, Some(Operation::Add), seq![b.index, a.index]),
        is_topological_order(g.operand_lists(), v.index as int, order),
        grads.len() == g.size(),
    ensures
        apply(g.values(), grads, g.schedule(order)) == grads.update(
            b.index as int,
            S::spec_plus(grads[b.index as int], grads[v.index as int]),
        ).update(a.index as int, S::spec_plus(grads[a.index as int], grads[v.index as int])),
{
    lemma_schedule_over_leaves(g, v, b.index, a.index, order);
    assert(g.node_wf(v.index as int));
    reveal_with_fuel(apply, 3);
    let cs = g.schedule(order);
    assert(cs.drop_last() =~= seq![cs[0]]);
    assert(cs.drop_last().drop_last() =~= Seq::<Contribution>::empty());
}

/// A backward pass from `multiply(a, b)` over distinct leaves `a` and `b`
/// adds to the gradient of `a` the product's gradient times the value of
/// `b`, and to the gradient of `b` the product's gradient times the value of
/// `a`, and changes no other gradient.
pub proof fn lemma_product_swaps_factors_into_leaves<S: Scalar>(
    g: &Tape<S>,
    a: Value,
    b: Value,
    v: Value,
    order: Seq<usize>,
    grads: Seq<S>,
)
    requires
        g.wf(),
        a.index < g.size(),
        b.index < g.size(),
        a.index != b.index,
        g.operation_of(a.index as int) is None,
        g.operation_of(b.index as int) is None,
        g.node_is(v, Some(Operation::Multiply), seq![a.index, b.index]),
        is_topological_order(g.operand_lists(), v.index as int, order),
        grads.len() == g.size(),
    ensures
        apply(g.values(), grads, g.schedule(order)) == grads.update(
            a.index as int,
            S::spec_plus(
                grads[a.index as int],
                S::spec_times(g.values()[b.index as int], grads[v.index as int]),
            ),
        ).update(
            b.index as int,
            S::spec_plus(
                grads[b.index as int],
                S::spec_times(g.values()[a.index as int], grads[v.index as int]),
            ),
        ),
{
    lemma_schedule_over_leaves(g, v, a.index, b.index, order);
    assert(g.node_wf(v.index as int));
    reveal_with_fuel(apply, 3);
    let cs = g.schedule(order);
    assert(cs.drop_last() =~= seq![cs[0]]);
    assert(cs.drop_last().drop_last() =~= Seq::<Contribution>::empty());
}

/// Each contribution of a local rule is handed on by that node to one of its
/// operands.
proof fn lemma_local_rule_shape<S: Scalar>(g: &Tape<S>, u: usize, p: int)
    requires
        g.wf(),
        u < g.size(),
        0 <= p < g.local_rule(u).len(),
    ensures
        g.local_rule(u)[p].source == u,
        g.operands_of(u as int).contains(g.local_rule(u)[p].target),
{
    assert(g.node_wf(u as int));
    let ops = g.operands_of(u as int);
    let c = g.local_rule(u)[p];
    if p == 0 {
        assert(c.target == ops[0]);
    } else {
        assert(c.target == ops[1]);
    }
}

/// The schedule of a duplicate-free `order` is made of one block per node,
/// the block of a later node first: every contribution comes from a node of
/// `order`, each contribution of each node is in it, and the contributions of
/// a node come before those of every node listed before it.
proof fn lemma_schedule_blocks<S: Scalar>(g: &Tape<S>, order: Seq<usize>)
    requires
        g.wf(),
        forall|i: int| 0 <= i < order.len() ==> #[trigger] order[i] < g.size(),
        forall|i: int, j: int| 0 <= i < j < order.len() ==> order[i] != order[j],
    ensures
        forall|p: int|
            0 <= p < g.schedule(order).len() ==> exists|j: int|
                0 <= j < order.len() && order[j] == (#[trigger] g.schedule(order)[p]).source,
        forall|j: int, c: Contribution|
            0 <= j < order.len() && #[trigger] g.local_rule(order[j]).contains(c) ==> g.schedule(order).contains(c)
                && order[j] == c.source,
        forall|p: int, q: int, j1: int, j2: int|
            #![trigger g.schedule(order)[p], g.schedule(order)[q], order[j1], order[j2]]
            0 <= p < g.schedule(order).len() && 0 <= q < g.schedule(order).len() && 0 <= j2 < j1 < order.len()
                && g.schedule(order)[p].source == order[j1] && g.schedule(order)[q].source == order[j2] ==> p < q,
    decreases order.len(),
{
    if order.len() > 0 {
        let n = order.len() - 1;
        let rest = order.drop_last();
        lemma_schedule_blocks(g, rest);
        let l = g.local_rule(order[n]);
        let r = g.schedule(rest);
        let sch = g.schedule(order);
        assert(sch == l + r);
        assert forall|p: int| 0 <= p < l.len() implies (#[trigger] l[p]).source == order[n] by {
            lemma_local_rule_shape(g, order[n], p);
        }
        assert forall|p: int| 0 <= p < sch.len() implies exists|j: int|
            0 <= j < order.len() && order[j] == (#[trigger] sch[p]).source by {
            if p < l.len() {
                assert(sch[p] == l[p]);
            } else {
                assert(sch[p] == r[p - l.len()]);
                let j = choose|j: int| 0 <= j < rest.len() && rest[j] == (#[trigger] r[p - l.len()]).source;
                assert(order[j] == rest[j]);
            }
        }
        assert forall|j: int, c: Contribution|
            0 <= j < order.len() && #[trigger] g.local_rule(order[j]).contains(c) implies sch.contains(c)
                && order[j] == c.source by {
            let p = choose|p: int| 0 <= p < g.local_rule(order[j]).len() && g.local_rule(order[j])[p] == c;
            lemma_local_rule_shape(g, order[j], p);
            if j == n {
                assert(sch[p] == c);
            } else {
                assert(rest[j] == order[j]);
                assert(r.contains(c));
                let q = choose|q: int| 0 <= q < r.len() && r[q] == c;
                assert(sch[q + l.len()] == c);
            }
        }
        assert forall|p: int, q: int, j1: int, j2: int|
            #![trigger sch[p], sch[q], order[j1], order[j2]]
            0 <= p < sch.len() && 0 <= q < sch.len() && 0 <= j2 < j1 < order.len() && sch[p].source
                == order[j1] && sch[q].source == order[j2] implies p < q by {
            if q < l.len() {
                assert(sch[q] == l[q]);
                assert(order[j2] == order[n]);
            } else if p >= l.len() {
                assert(sch[p] == r[p - l.len()]);
                assert(sch[q] == r[q - l.len()]);
                assert(rest[j1] == order[j1]);
                assert(rest[j2] == order[j2]);
            }
        }
    }
}

/// In the contributions that a backward pass from `root` adds, in order
/// (`g.schedule(order)`, see [`Value::backward`]), every contribution into a
/// node comes before every contribution out of it; and a node `m` reached
/// from `root` contributes to each of its operands that its rule
/// differentiates, so a node shared by two consumers gets a contribution
/// from each of them.
pub proof fn lemma_shared_node_sums_before_handing_on<S: Scalar>(
    g: &Tape<S>,
    root: Value,
    order: Seq<usize>,
    x: usize,
)
    requires
        g.wf(),
        root.index < g.size(),
        is_topological_order(g.operand_lists(), root.index as int, order),
    ensures
        forall|p: int, q: int|
            0 <= p < g.schedule(order).len() && 0 <= q < g.schedule(order).len()
                && (#[trigger] g.schedule(order)[p]).target == x && (#[trigger] g.schedule(order)[q]).source
                == x ==> p < q,
        forall|m: usize, k: int|
            #![trigger g.operands_of(m as int)[k], reaches(g.operand_lists(), root.index as int, m as int)]
            reaches(g.operand_lists(), root.index as int, m as int) && 0 <= k < g.operands_of(m as int).len()
                && g.operands_of(m as int)[k] == x && (k == 0 || g.operation_of(m as int) != Some(
                Operation::Pow,
            )) ==> exists|p: int|
                0 <= p < g.schedule(order).len() && (#[trigger] g.schedule(order)[p]).source == m
                    && g.schedule(order)[p].target == x,
{
    let ops = g.operand_lists();
    g.lemma_acyclic();
    let sch = g.schedule(order);
    lemma_schedule_blocks(g, order);
    assert forall|p: int, q: int|
        0 <= p < sch.len() && 0 <= q < sch.len() && (#[trigger] sch[p]).target == x && (#[trigger] sch[q]).source
            == x implies p < q by {
        let j1 = choose|j: int| 0 <= j < order.len() && order[j] == sch[p].source;
        let j2 = choose|j: int| 0 <= j < order.len() && order[j] == sch[q].source;
        let s = order[j1];
        assert(g.local_rule(s).contains(sch[p])) by {
            // the block of `s` is `local_rule(s)`; locate `sch[p]` in it
            lemma_schedule_member_local(g, order, p);
        }
        let k = choose|k: int| 0 <= k < g.local_rule(s).len() && g.local_rule(s)[k] == sch[p];
        lemma_local_rule_shape(g, s, k);
        let kk = choose|kk: int| 0 <= kk < g.operands_of(s as int).len() && g.operands_of(s as int)[kk] == x;
        lemma_operands_listed_earlier(g, root, order, j1, kk);
        let j3 = choose|j: int| 0 <= j < j1 && order[j] == g.operands_of(order[j1] as int)[kk];
        assert(j3 == j2);
    }
    assert forall|m: usize, k: int|
        #![trigger g.operands_of(m as int)[k], reaches(g.operand_lists(), root.index as int, m as int)]
        reaches(ops, root.index as int, m as int) && 0 <= k < g.operands_of(m as int).len() && g.operands_of(
            m as int,
        )[k] == x && (k == 0 || g.operation_of(m as int) != Some(Operation::Pow)) implies exists|p: int|
        0 <= p < sch.len() && (#[trigger] sch[p]).source == m && sch[p].target == x by {
        crate::topo::lemma_reaches_below(ops, root.index as int, m as int);
        assert(order.contains(m));
        let j = choose|j: int| 0 <= j < order.len() && order[j] == m;
        assert(g.node_wf(m as int));
        let c = g.local_rule(m)[k];
        assert(c.target == x && c.source == m);
        assert(g.local_rule(m).contains(c));
        assert(sch.contains(c));
        let p = choose|p: int| 0 <= p < sch.len() && sch[p] == c;
        assert(sch[p].source == m);
    }
}

/// Each contribution of a schedule belongs to the local rule of its source.
proof fn lemma_schedule_member_local<S: Scalar>(g: &Tape<S>, order: Seq<usize>, p: int)
    requires
        g.wf(),
        forall|i: int| 0 <= i < order.len() ==> #[trigger] order[i] < g.size(),
        0 <= p < g.schedule(order).len(),
    ensures
        g.local_rule(g.schedule(order)[p].source).contains(g.schedule(order)[p]),
    decreases order.len(),
{
    let n = order.len() - 1;
    let l = g.local_rule(order[n]);
    let rest = order.drop_last();
    if p < l.len() {
        lemma_local_rule_shape(g, order[n], p);
        assert(g.schedule(order)[p] == l[p]);
    } else {
        assert(g.schedule(order)[p] == g.schedule(rest)[p - l.len()]);
        lemma_schedule_member_local(g, rest, p - l.len());
    }
}

proof fn lemma_apply_len<S: Scalar>(data: Seq<S>, grads: Seq<S>, cs: Seq<Contribution>)
    requires
        forall|p: int| 0 <= p < cs.len() ==> (#[trigger] cs[p]).target < grads.len(),
    ensures
        apply(data, grads, cs).len() == grads.len(),
    decreases cs.len(),
{
    if cs.len() > 0 {
        lemma_apply_len(data, grads, cs.drop_last());
    }
}

/// Contributions after position `q` that do not aim at `x` leave the gradient
/// of `x` as it was after the first `q`.
proof fn lemma_apply_keeps<S: Scalar>(data: Seq<S>, grads: Seq<S>, cs: Seq<Contribution>, q: int, x: int)
    requires
        0 <= q <= cs.len(),
        0 <= x < grads.len(),
        forall|p: int| 0 <= p < cs.len() ==> (#[trigger] cs[p]).target < grads.len(),
        forall|p: int| q <= p < cs.len() ==> (#[trigger] cs[p]).target != x,
    ensures
        apply(data, grads, cs.take(q))[x] == apply(data, grads, cs)[x],
    decreases cs.len(),
{
    if q == cs.len() {
        assert(cs.take(q) =~= cs);
    } else {
        let d = cs.drop_last();
        lemma_apply_keeps(data, grads, d, q, x);
        assert(d.take(q) =~= cs.take(q));
        lemma_apply_len(data, grads, d);
        assert(cs[cs.len() - 1].target != x);
    }
}

/// A node hands on its complete gradient: in the contributions of a backward
/// pass from `root` (see [`Value::backward`]), the gradient of `x` that each
/// contribution out of `x` reads is already the gradient `x` ends the pass
/// with, the sum of every contribution into it, whichever consumers they come
/// from. `grads` are the gradients the pass starts from.
pub proof fn lemma_handed_on_gradient_is_complete<S: Scalar>(
    g: &Tape<S>,
    root: Value,
    order: Seq<usize>,
    x: usize,
    grads: Seq<S>,
)
    requires
        g.wf(),
        root.index < g.size(),
        x < g.size(),
        is_topological_order(g.operand_lists(), root.index as int, order),
        grads.len() == g.size(),
    ensures
        forall|q: int|
            0 <= q < g.schedule(order).len() && (#[trigger] g.schedule(order)[q]).source == x ==> apply(
                g.values(),
                grads,
                g.schedule(order).take(q),
            )[x as int] == apply(g.values(), grads, g.schedule(order))[x as int],
{
    let sch = g.schedule(order);
    lemma_shared_node_sums_before_handing_on(g, root, order, x);
    assert forall|p: int| 0 <= p < sch.len() implies (#[trigger] sch[p]).target < grads.len() by {
        lemma_schedule_member_local(g, order, p);
        let s = sch[p].source;
        let k = choose|k: int| 0 <= k < g.local_rule(s).len() && g.local_rule(s)[k] == sch[p];
        lemma_schedule_blocks(g, order);
        let j = choose|j: int| 0 <= j < order.len() && order[j] == sch[p].source;
        lemma_local_rule_shape(g, s, k);
        assert(g.node_wf(s as int));
        let kk = choose|kk: int| 0 <= kk < g.operands_of(s as int).len() && g.operands_of(s as int)[kk] == sch[p].target;
    }
    assert forall|q: int|
        0 <= q < sch.len() && (#[trigger] sch[q]).source == x implies apply(g.values(), grads, sch.take(q))[x as int]
            == apply(g.values(), grads, sch)[x as int] by {
        assert forall|p: int| q <= p < sch.len() implies (#[trigger] sch[p]).target != x by {
            if sch[p].target == x {
                assert(p < q);
            }
        }
        g.lemma_views();
        lemma_apply_keeps(g.values(), grads, sch, q, x as int);
    }
}

/// The gradient of `x` after the contributions `cs` are added to `grads`,
/// when each contribution reads the gradient of its source from `fin`: the
/// start value of `x` plus each contribution aimed at `x`, in order.
pub open spec fn gradient_into<S: Scalar>(
    data: Seq<S>,
    grads: Seq<S>,
    cs: Seq<Contribution>,
    x: int,
    fin: Seq<S>,
) -> S
    decreases cs.len(),
{
    if cs.len() == 0 {
        grads[x]
    } else {
        let prev = gradient_into(data, grads, cs.drop_last(), x, fin);
        if cs.last().target == x {
            S::spec_plus(prev, amount(data, cs.last(), fin[cs.last().source as int]))
        } else {
            prev
        }
    }
}

/// The chain rule as a backward pass applies it: after a pass from `root`
/// that starts from `grads`, the gradient of each node `x` is its starting
/// gradient plus, for each consumer `m` of `x` (each node whose rule aims a
/// contribution at `x`), the local derivative of `m` with respect to `x`
/// times the final gradient of `m`, added in the order of the pass.
pub proof fn lemma_gradient_equation<S: Scalar>(
    g: &Tape<S>,
    root: Value,
    order: Seq<usize>,
    grads: Seq<S>,
    x: usize,
)
    requires
        g.wf(),
        root.index < g.size(),
        x < g.size(),
        is_topological_order(g.operand_lists(), root.index as int, order),
        grads.len() == g.size(),
    ensures
        apply(g.values(), grads, g.schedule(order))[x as int] == gradient_into(
            g.values(),
            grads,
            g.schedule(order),
            x as int,
            apply(g.values(), grads, g.schedule(order)),
        ),
{
    let sch = g.schedule(order);
    let data = g.values();
    let fin = apply(data, grads, sch);
    lemma_prefix_gradients(g, root, order, grads, sch.len() as int);
    assert(sch.take(sch.len() as int) =~= sch);
}

proof fn lemma_prefix_gradients<S: Scalar>(
    g: &Tape<S>,
    root: Value,
    order: Seq<usize>,
    grads: Seq<S>,
    k: int,
)
    requires
        g.wf(),
        root.index < g.size(),
        is_topological_order(g.operand_lists(), root.index as int, order),
        grads.len() == g.size(),
        0 <= k <= g.schedule(order).len(),
    ensures
        forall|x: int|
            0 <= x < g.size() ==> apply(g.values(), grads, g.schedule(order).take(k))[x] == #[trigger] gradient_into(
                g.values(),
                grads,
                g.schedule(order).take(k),
                x,
                apply(g.values(), grads, g.schedule(order)),
            ),
    decreases k,
{
    let sch = g.schedule(order);
    let data = g.values();
    let fin = apply(data, grads, sch);
    if k == 0 {
        assert(sch.take(0) =~= Seq::<Contribution>::empty());
        assert forall|x: int| 0 <= x < g.size() implies apply(data, grads, sch.take(k))[x] == #[trigger] gradient_into(
            data,
            grads,
            sch.take(k),
            x,
            fin,
        ) by {
        }
    } else {
        lemma_prefix_gradients(g, root, order, grads, k - 1);
        let c = sch[k - 1];
        assert(sch.take(k).drop_last() =~= sch.take(k - 1));
        assert(sch.take(k).last() == c);
        let s = c.source;
        assert(s < g.size()) by {
            lemma_schedule_blocks(g, order);
            let j = choose|j: int| 0 <= j < order.len() && order[j] == sch[k - 1].source;
        }
        lemma_handed_on_gradient_is_complete(g, root, order, s, grads);
        assert(apply(data, grads, sch.take(k - 1))[s as int] == fin[s as int]);
        assert(c.target < g.size()) by {
            lemma_schedule_member_local(g, order, k - 1);
            let kk = choose|kk: int| 0 <= kk < g.local_rule(s).len() && g.local_rule(s)[kk] == c;
            lemma_local_rule_shape(g, s, kk);
            assert(g.node_wf(s as int));
            let m = choose|m: int| 0 <= m < g.operands_of(s as int).len() && g.operands_of(s as int)[m] == c.target;
        }
        assert forall|p: int| 0 <= p < sch.take(k - 1).len() implies (#[trigger] sch.take(k - 1)[p]).target < grads.len() by {
            lemma_schedule_member_local(g, order, p);
            let s2 = sch[p].source;
            lemma_schedule_blocks(g, order);
            let j = choose|j: int| 0 <= j < order.len() && order[j] == sch[p].source;
            let kk = choose|kk: int| 0 <= kk < g.local_rule(s2).len() && g.local_rule(s2)[kk] == sch[p];
            lemma_local_rule_shape(g, s2, kk);
            assert(g.node_wf(s2 as int));
            let m = choose|m: int| 0 <= m < g.operands_of(s2 as int).len() && g.operands_of(s2 as int)[m] == sch[p].target;
        }
        lemma_apply_len(data, grads, sch.take(k - 1));
        g.lemma_views();
        let before = apply(data, grads, sch.take(k - 1));
        assert(apply(data, grads, sch.take(k)) == step(data, before, c));
        assert forall|x: int| 0 <= x < g.size() implies apply(data, grads, sch.take(k))[x] == #[trigger] gradient_into(
            data,
            grads,
            sch.take(k),
            x,
            fin,
        ) by {
            assert(before[x] == gradient_into(data, grads, sch.take(k - 1), x, fin));
        }
    }
}

} // verus!
