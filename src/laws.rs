use vstd::prelude::*;
use crate::ratio::{BinOp, Ratio};
use crate::tensor::{all_wf, zip_ok, zip_seq, zip_spec, Strategy};
use crate::graph::{
    accumulate, backward_spec, mark, mark_down, node_ok, nodes_ok, only, propagate, reachable,
    rule, start_grads, step, zeros, Node, NodeOp,
};

verus! {

/// Zero plus `s` is `s`, element by element.
pub proof fn lemma_zero_add(s: Seq<Ratio>)
    requires
        all_wf(s),
    ensures
        zip_spec(BinOp::Add, zeros(s.len() as int), s) == Some(s),
{
    let z = zeros(s.len() as int);
    assert forall|i: int| 0 <= i < z.len() implies (#[trigger] z[i].op_spec(BinOp::Add, s[i]))
        == Some(s[i]) by {
        assert(s[i].wf());
        assert(z[i] == Ratio { num: 0, den: 1 });
        assert(0 * s[i].den + s[i].num * 1 == s[i].num);
        assert(1 * s[i].den == s[i].den);
    }
    assert(crate::tensor::zip_seq(BinOp::Add, z, s) =~= s);
}

/// Flags marked only at `a`, `b` and `c`, where `a` and `b` are leaves below
/// `c`, are left as they are by marking from any node below `c`.
proof fn lemma_marks_settled(nodes: Seq<Node>, f: Seq<bool>, k: int, a: int, b: int, c: int)
    requires
        f.len() == nodes.len(),
        0 <= a < c,
        0 <= b < c,
        c < nodes.len(),
        k < c,
        nodes[a].op == NodeOp::Leaf,
        nodes[b].op == NodeOp::Leaf,
        forall|j: int| 0 <= j < f.len() && #[trigger] f[j] ==> j == a || j == b || j == c,
    ensures
        mark_down(nodes, f, k) == f,
    decreases k + 1,
{
    if k >= 0 {
        assert(mark(nodes, f, k) == f);
        lemma_marks_settled(nodes, f, k - 1, a, b, c);
    }
}

/// Steps below `c` change no gradient when only `a`, `b` and `c` are reached
/// and `a` and `b` are leaves below `c`.
proof fn lemma_steps_idle(
    nodes: Seq<Node>,
    reach: Seq<bool>,
    gs: Seq<Seq<Ratio>>,
    k: int,
    a: int,
    b: int,
    c: int,
)
    requires
        reach.len() == nodes.len(),
        0 <= a < c,
        0 <= b < c,
        c < nodes.len(),
        k < c,
        nodes[a].op == NodeOp::Leaf,
        nodes[b].op == NodeOp::Leaf,
        forall|j: int| 0 <= j < reach.len() && #[trigger] reach[j] ==> j == a || j == b || j == c,
    ensures
        propagate(nodes, reach, gs, k) == Some(gs),
    decreases k + 1,
{
    if k >= 0 {
        assert(step(nodes, reach, gs, k) == Some(gs));
        lemma_steps_idle(nodes, reach, gs, k - 1, a, b, c);
    }
}

/// When `c` is the sum of two distinct leaves `a` and `b`, a backward pass from
/// `c` seeded with `seed` leaves exactly `seed` as the gradient of each leaf.
pub proof fn lemma_sum_of_leaves_gradient(
    nodes: Seq<Node>,
    before: Seq<Seq<Ratio>>,
    c: int,
    a: usize,
    b: usize,
    seed: Seq<Ratio>,
)
    requires
        nodes_ok(nodes),
        0 <= c < nodes.len(),
        before.len() == nodes.len(),
        nodes[c].op == NodeOp::Binary(BinOp::Add, a, b),
        a != b,
        nodes[a as int].op == NodeOp::Leaf,
        nodes[b as int].op == NodeOp::Leaf,
        all_wf(seed),
        seed.len() == nodes[c].value.data.len(),
    ensures
        backward_spec(nodes, before, c, seed) is Some,
        backward_spec(nodes, before, c, seed)->Some_0[a as int] == seed,
        backward_spec(nodes, before, c, seed)->Some_0[b as int] == seed,
{
    let (ai, bi) = (a as int, b as int);
    assert(node_ok(nodes, c));
    assert(node_ok(nodes, ai));
    assert(node_ok(nodes, bi));
    let f0 = only(nodes.len(), c);
    let f1 = mark(nodes, f0, c);
    assert(f1 == f0.update(ai, true).update(bi, true));
    assert forall|j: int| 0 <= j < f1.len() && #[trigger] f1[j] implies j == ai || j == bi || j
        == c by {}
    lemma_marks_settled(nodes, f1, c - 1, ai, bi, c);
    let reach = reachable(nodes, c);
    assert(reach == f1);
    let init = start_grads(nodes, reach, before, c, seed);
    assert(init[c] == seed);
    assert(init[ai] == zeros(nodes[ai].value.data.len() as int));
    assert(init[bi] == zeros(nodes[bi].value.data.len() as int));
    lemma_zero_add(seed);
    assert(rule(BinOp::Add, seed, nodes[ai].value.data@, nodes[bi].value.data@) == Some(
        (seed, seed),
    ));
    let g1 = init.update(ai, seed);
    assert(accumulate(init, ai, seed) == Some(g1));
    let g2 = g1.update(bi, seed);
    assert(accumulate(g1, bi, seed) == Some(g2));
    assert(step(nodes, reach, init, c) == Some(g2));
    lemma_steps_idle(nodes, reach, g2, c - 1, ai, bi, c);
}


/// Runs `step` on nodes `k` down to `m + 1`.
pub open spec fn run(nodes: Seq<Node>, reach: Seq<bool>, gs: Seq<Seq<Ratio>>, k: int, m: int) -> Option<
    Seq<Seq<Ratio>>,
>
    decreases k - m,
{
    if k <= m {
        Some(gs)
    } else {
        match step(nodes, reach, gs, k) {
            Some(g1) => run(nodes, reach, g1, k - 1, m),
            None => None,
        }
    }
}

/// Whether some reached node in `m + 1 ..= k` has `n` as an operand.
pub open spec fn consumed_in(nodes: Seq<Node>, reach: Seq<bool>, n: int, k: int, m: int) -> bool {
    exists|c: int|
        m < c <= k && #[trigger] reach[c] && match nodes[c].op {
            NodeOp::Leaf => false,
            NodeOp::Binary(_, l, r) => l == n || r == n,
        }
}

/// What the consumer `c` passes to its operand `n` when its gradient is `g`.
pub open spec fn part(nodes: Seq<Node>, c: int, n: int, g: Seq<Ratio>) -> Seq<Ratio> {
    match nodes[c].op {
        NodeOp::Leaf => g,
        NodeOp::Binary(op, l, r) => {
            let p = rule(op, g, nodes[l as int].value.data@, nodes[r as int].value.data@)->Some_0;
            if l == n {
                p.0
            } else {
                p.1
            }
        },
    }
}

/// Node `c` is made from `n` and another node.
pub open spec fn feeds_once(nodes: Seq<Node>, n: int, c: int) -> bool {
    match nodes[c].op {
        NodeOp::Leaf => false,
        NodeOp::Binary(_, l, r) => (l == n) != (r == n),
    }
}

proof fn lemma_split(nodes: Seq<Node>, reach: Seq<bool>, gs: Seq<Seq<Ratio>>, k: int, m: int)
    requires
        -1 <= m <= k,
    ensures
        propagate(nodes, reach, gs, k) == match run(nodes, reach, gs, k, m) {
            Some(s) => propagate(nodes, reach, s, m),
            None => None,
        },
    decreases k - m,
{
    if k > m {
        if let Some(g1) = step(nodes, reach, gs, k) {
            lemma_split(nodes, reach, g1, k - 1, m);
        }
    }
}

proof fn lemma_step_local(nodes: Seq<Node>, reach: Seq<bool>, gs: Seq<Seq<Ratio>>, c: int)
    requires
        nodes_ok(nodes),
        0 <= c < nodes.len(),
        gs.len() == nodes.len(),
        step(nodes, reach, gs, c) is Some,
    ensures
        step(nodes, reach, gs, c)->Some_0.len() == gs.len(),
        forall|j: int|
            0 <= j < gs.len() && (j >= c || !(reach[c] && match nodes[c].op {
                NodeOp::Leaf => false,
                NodeOp::Binary(_, l, r) => l == j || r == j,
            })) ==> #[trigger] step(nodes, reach, gs, c)->Some_0[j] == gs[j],
{
    assert(node_ok(nodes, c));
    if reach[c] {
        if let NodeOp::Binary(op, l, r) = nodes[c].op {
            match rule(op, gs[c], nodes[l as int].value.data@, nodes[r as int].value.data@) {
                Some((cl, cr)) => {
                    match accumulate(gs, l as int, cl) {
                        Some(g1) => {
                            assert(g1.len() == gs.len());
                            match accumulate(g1, r as int, cr) {
                                Some(g2) => {
                                    assert(step(nodes, reach, gs, c) == Some(g2));
                                    assert(g2.len() == gs.len());
                                },
                                None => {},
                            }
                        },
                        None => {},
                    }
                },
                None => {},
            }
        }
    }
}

/// Steps from `k` down leave every gradient at index `k` or above unchanged.
proof fn lemma_frozen(nodes: Seq<Node>, reach: Seq<bool>, gs: Seq<Seq<Ratio>>, k: int)
    requires
        nodes_ok(nodes),
        k < nodes.len(),
        gs.len() == nodes.len(),
        propagate(nodes, reach, gs, k) is Some,
    ensures
        propagate(nodes, reach, gs, k)->Some_0.len() == gs.len(),
        forall|j: int|
            k <= j < gs.len() ==> #[trigger] propagate(nodes, reach, gs, k)->Some_0[j] == gs[j],
    decreases k + 1,
{
    if k >= 0 {
        lemma_step_local(nodes, reach, gs, k);
        let g1 = step(nodes, reach, gs, k)->Some_0;
        lemma_frozen(nodes, reach, g1, k - 1);
    }
}

/// Steps on nodes that do not consume `n` leave its gradient unchanged.
proof fn lemma_untouched(
    nodes: Seq<Node>,
    reach: Seq<bool>,
    gs: Seq<Seq<Ratio>>,
    n: int,
    k: int,
    m: int,
)
    requires
        nodes_ok(nodes),
        -1 <= m <= k < nodes.len(),
        gs.len() == nodes.len(),
        0 <= n < gs.len(),
        run(nodes, reach, gs, k, m) is Some,
        !consumed_in(nodes, reach, n, k, m),
    ensures
        run(nodes, reach, gs, k, m)->Some_0.len() == gs.len(),
        run(nodes, reach, gs, k, m)->Some_0[n] == gs[n],
    decreases k - m,
{
    if k > m {
        lemma_step_local(nodes, reach, gs, k);
        let g1 = step(nodes, reach, gs, k)->Some_0;
        assert(!consumed_in(nodes, reach, n, k - 1, m)) by {
            if consumed_in(nodes, reach, n, k - 1, m) {
                let c = choose|c: int|
                    m < c <= k - 1 && #[trigger] reach[c] && match nodes[c].op {
                        NodeOp::Leaf => false,
                        NodeOp::Binary(_, l, r) => l == n || r == n,
                    };
                assert(m < c <= k && reach[c]);
            }
        }
        if reach[k] && match nodes[k].op {
            NodeOp::Leaf => false,
            NodeOp::Binary(_, l, r) => l == n || r == n,
        } {
            assert(consumed_in(nodes, reach, n, k, m));
        }
        lemma_untouched(nodes, reach, g1, n, k - 1, m);
    }
}

/// A step on a reached consumer `c` of `n` that uses `n` once adds its part to
/// the gradient of `n`.
proof fn lemma_step_adds(nodes: Seq<Node>, reach: Seq<bool>, gs: Seq<Seq<Ratio>>, n: int, c: int)
    requires
        nodes_ok(nodes),
        0 <= n < c < nodes.len(),
        gs.len() == nodes.len(),
        reach[c],
        feeds_once(nodes, n, c),
        step(nodes, reach, gs, c) is Some,
    ensures
        step(nodes, reach, gs, c)->Some_0[n] == zip_seq(BinOp::Add, gs[n], part(nodes, c, n, gs[c])),
{
    assert(node_ok(nodes, c));
}

/// When a node `n` that the root depends on is an operand of exactly two
/// reached nodes `c1` and `c2`, once each, a backward pass leaves as its
/// gradient zero plus what `c1` passes on plus what `c2` passes on, each
/// computed from the final gradient of its consumer: no contribution is lost
/// or counted twice.
pub proof fn lemma_two_consumers_accumulate(
    nodes: Seq<Node>,
    before: Seq<Seq<Ratio>>,
    root: int,
    seed: Seq<Ratio>,
    n: int,
    c1: int,
    c2: int,
)
    requires
        nodes_ok(nodes),
        0 <= n < c2 < c1 <= root < nodes.len(),
        before.len() == nodes.len(),
        backward_spec(nodes, before, root, seed) is Some,
        reachable(nodes, root)[n],
        reachable(nodes, root)[c1],
        reachable(nodes, root)[c2],
        feeds_once(nodes, n, c1),
        feeds_once(nodes, n, c2),
        !consumed_in(nodes, reachable(nodes, root), n, c1 - 1, c2),
        !consumed_in(nodes, reachable(nodes, root), n, root, c1),
        !consumed_in(nodes, reachable(nodes, root), n, c2 - 1, -1),
    ensures
        ({
            let f = backward_spec(nodes, before, root, seed)->Some_0;
            f[n] == zip_seq(
                BinOp::Add,
                zip_seq(
                    BinOp::Add,
                    zeros(nodes[n].value.data.len() as int),
                    part(nodes, c1, n, f[c1]),
                ),
                part(nodes, c2, n, f[c2]),
            )
        }),
{
    let reach = reachable(nodes, root);
    let init = start_grads(nodes, reach, before, root, seed);
    let f = backward_spec(nodes, before, root, seed)->Some_0;
    assert(init.len() == nodes.len());
    assert(init[n] == zeros(nodes[n].value.data.len() as int));
    lemma_split(nodes, reach, init, root, c1);
    let s1 = run(nodes, reach, init, root, c1)->Some_0;
    lemma_untouched(nodes, reach, init, n, root, c1);
    lemma_frozen(nodes, reach, s1, c1);
    let t1 = step(nodes, reach, s1, c1)->Some_0;
    lemma_step_adds(nodes, reach, s1, n, c1);
    lemma_step_local(nodes, reach, s1, c1);
    lemma_split(nodes, reach, t1, c1 - 1, c2);
    let s2 = run(nodes, reach, t1, c1 - 1, c2)->Some_0;
    lemma_untouched(nodes, reach, t1, n, c1 - 1, c2);
    lemma_frozen(nodes, reach, s2, c2);
    let t2 = step(nodes, reach, s2, c2)->Some_0;
    lemma_step_adds(nodes, reach, s2, n, c2);
    lemma_step_local(nodes, reach, s2, c2);
    lemma_split(nodes, reach, t2, c2 - 1, -1);
    lemma_untouched(nodes, reach, t2, n, c2 - 1, -1);
}

/// The result of running `op` over `a` and `b` in consecutive blocks of `size`
/// indices from `lo` on, each block computed on its own and the results joined
/// in order; none when some index fails.
pub open spec fn blocks(op: BinOp, a: Seq<Ratio>, b: Seq<Ratio>, lo: int, size: int) -> Option<
    Seq<Ratio>,
>
    decreases a.len() - lo,
{
    if lo >= a.len() || size <= 0 {
        Some(Seq::empty())
    } else {
        let hi = if lo + size < a.len() {
            lo + size
        } else {
            a.len() as int
        };
        match (
            zip_spec(op, a.subrange(lo, hi), b.subrange(lo, hi)),
            blocks(op, a, b, hi, size),
        ) {
            (Some(x), Some(y)) => Some(x + y),
            _ => None,
        }
    }
}

/// What a strategy computes for `op` on `a` and `b`.
pub open spec fn strategy_result(s: Strategy, op: BinOp, a: Seq<Ratio>, b: Seq<Ratio>) -> Option<
    Seq<Ratio>,
> {
    match s {
        Strategy::Partitioned(size) => blocks(
            op,
            a,
            b,
            0,
            if size == 0 {
                1
            } else {
                size as int
            },
        ),
        _ => zip_spec(op, a, b),
    }
}

proof fn lemma_zip_concat(op: BinOp, a1: Seq<Ratio>, a2: Seq<Ratio>, b1: Seq<Ratio>, b2: Seq<Ratio>)
    requires
        a1.len() == b1.len(),
        a2.len() == b2.len(),
    ensures
        zip_spec(op, a1 + a2, b1 + b2) == match (zip_spec(op, a1, b1), zip_spec(op, a2, b2)) {
            (Some(x), Some(y)) => Some(x + y),
            _ => None,
        },
{
    let (a, b) = (a1 + a2, b1 + b2);
    if zip_ok(op, a1, b1) && zip_ok(op, a2, b2) {
        assert forall|i: int| 0 <= i < a.len() implies (#[trigger] a[i].op_spec(op, b[i])) is Some by {
            if i < a1.len() {
                assert(a1[i].op_spec(op, b1[i]) is Some);
            } else {
                assert(a2[i - a1.len()].op_spec(op, b2[i - a1.len()]) is Some);
            }
        }
        assert(zip_seq(op, a, b) =~= zip_seq(op, a1, b1) + zip_seq(op, a2, b2));
    } else if !zip_ok(op, a1, b1) {
        let i = choose|i: int| 0 <= i < a1.len() && !(#[trigger] a1[i].op_spec(op, b1[i]) is Some);
        assert(a[i] == a1[i] && b[i] == b1[i]);
    } else {
        let i = choose|i: int| 0 <= i < a2.len() && !(#[trigger] a2[i].op_spec(op, b2[i]) is Some);
        assert(a[i + a1.len()] == a2[i] && b[i + a1.len()] == b2[i]);
    }
}

proof fn lemma_blocks_whole(op: BinOp, a: Seq<Ratio>, b: Seq<Ratio>, lo: int, size: int)
    requires
        a.len() == b.len(),
        0 <= lo <= a.len(),
        size > 0,
    ensures
        blocks(op, a, b, lo, size) == zip_spec(
            op,
            a.subrange(lo, a.len() as int),
            b.subrange(lo, b.len() as int),
        ),
    decreases a.len() - lo,
{
    if lo >= a.len() {
        assert(zip_seq(op, a.subrange(lo, lo), b.subrange(lo, lo)) =~= Seq::empty());
    } else {
        let hi = if lo + size < a.len() {
            lo + size
        } else {
            a.len() as int
        };
        lemma_blocks_whole(op, a, b, hi, size);
        lemma_zip_concat(
            op,
            a.subrange(lo, hi),
            a.subrange(hi, a.len() as int),
            b.subrange(lo, hi),
            b.subrange(hi, b.len() as int),
        );
        assert(a.subrange(lo, hi) + a.subrange(hi, a.len() as int) =~= a.subrange(lo, a.len() as int));
        assert(b.subrange(lo, hi) + b.subrange(hi, b.len() as int) =~= b.subrange(lo, b.len() as int));
    }
}

/// Every strategy computes the same thing: the elementwise result of `op`.
pub proof fn lemma_strategy_purity(
    s1: Strategy,
    s2: Strategy,
    op: BinOp,
    a: Seq<Ratio>,
    b: Seq<Ratio>,
)
    requires
        a.len() == b.len(),
    ensures
        strategy_result(s1, op, a, b) == strategy_result(s2, op, a, b),
        strategy_result(s1, op, a, b) == zip_spec(op, a, b),
{
    assert(a.subrange(0, a.len() as int) =~= a);
    assert(b.subrange(0, b.len() as int) =~= b);
    if let Strategy::Partitioned(size) = s1 {
        lemma_blocks_whole(op, a, b, 0, if size == 0 { 1 } else { size as int });
    }
    if let Strategy::Partitioned(size) = s2 {
        lemma_blocks_whole(op, a, b, 0, if size == 0 { 1 } else { size as int });
    }
}

} // verus!
