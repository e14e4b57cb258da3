use vstd::prelude::*;
use crate::ratio::{BinOp, Ratio};
use crate::tensor::{neg_seq_spec, zip_spec, Strategy, Tensor, XryError};

verus! {

/// How a node was made: from raw data, or by an operation on two earlier nodes.
#[derive(Clone, Copy, Debug, PartialEq, Eq, Structural)]
pub enum NodeOp {
    Leaf,
    Binary(BinOp, usize, usize),
}

/// A node of the computation graph: its forward value and how it was made.
#[derive(Debug)]
pub struct Node {
    pub value: Tensor,
    pub op: NodeOp,
}

/// The computation graph of one engine: nodes in order of creation, so that
/// every operand comes before the nodes that consume it, and one gradient
/// accumulator per node.
#[derive(Debug)]
pub struct XryGrad {
    pub nodes: Vec<Node>,
    pub grads: Vec<Tensor>,
}

/// A handle on a node of a graph, with the strategy that runs its operations.
#[derive(Clone, Copy, Debug, PartialEq, Eq, Structural)]
pub struct Xry {
    pub id: usize,
    pub strategy: Strategy,
}

/// Node `i` holds a well-formed value and, if it has operands, they come
/// before it and share its shape.
pub open spec fn node_ok(nodes: Seq<Node>, i: int) -> bool {
    &&& nodes[i].value.wf()
    &&& match nodes[i].op {
        NodeOp::Leaf => true,
        NodeOp::Binary(_, l, r) => {
            &&& l < i
            &&& r < i
            &&& nodes[l as int].value.shape@ == nodes[i].value.shape@
            &&& nodes[r as int].value.shape@ == nodes[i].value.shape@
        },
    }
}

pub open spec fn nodes_ok(nodes: Seq<Node>) -> bool {
    forall|i: int| 0 <= i < nodes.len() ==> #[trigger] node_ok(nodes, i)
}

/// The gradients `grads` fit the nodes: one well-formed tensor per node, shaped
/// like its value.
pub open spec fn grads_fit(nodes: Seq<Node>, grads: Seq<Tensor>) -> bool {
    &&& grads.len() == nodes.len()
    &&& forall|i: int|
        0 <= i < grads.len() ==> (#[trigger] grads[i]).wf() && grads[i].shape@
            == nodes[i].value.shape@
}

/// The elements of each tensor.
pub open spec fn data_of(ts: Seq<Tensor>) -> Seq<Seq<Ratio>> {
    Seq::new(ts.len(), |i: int| ts[i].data@)
}

pub open spec fn zeros(n: int) -> Seq<Ratio> {
    Seq::new(n as nat, |i: int| Ratio { num: 0, den: 1 })
}

pub open spec fn ones(n: int) -> Seq<Ratio> {
    Seq::new(n as nat, |i: int| Ratio { num: 1, den: 1 })
}

/// Marks the operands of node `c` when `c` is marked.
pub open spec fn mark(nodes: Seq<Node>, flags: Seq<bool>, c: int) -> Seq<bool> {
    if flags[c] {
        match nodes[c].op {
            NodeOp::Leaf => flags,
            NodeOp::Binary(_, l, r) => flags.update(l as int, true).update(r as int, true),
        }
    } else {
        flags
    }
}

/// Marks, from node `c` down to node 0, the operands of every marked node.
pub open spec fn mark_down(nodes: Seq<Node>, flags: Seq<bool>, c: int) -> Seq<bool>
    decreases c + 1,
{
    if c < 0 {
        flags
    } else {
        mark_down(nodes, mark(nodes, flags, c), c - 1)
    }
}

/// The flags with `root` alone marked.
pub open spec fn only(n: nat, root: int) -> Seq<bool> {
    Seq::new(n, |i: int| i == root)
}

/// Which nodes `root` depends on, itself included.
pub open spec fn reachable(nodes: Seq<Node>, root: int) -> Seq<bool> {
    mark_down(nodes, only(nodes.len(), root), root)
}

/// The contributions that a node made by `op` from values `x` and `y` passes to
/// its two operands when gradient `g` arrives at it: the partial derivatives of
/// the sum, difference, product and quotient, each times `g`.
pub open spec fn rule(op: BinOp, g: Seq<Ratio>, x: Seq<Ratio>, y: Seq<Ratio>) -> Option<
    (Seq<Ratio>, Seq<Ratio>),
> {
    match op {
        BinOp::Add => Some((g, g)),
        BinOp::Sub => match neg_seq_spec(g) {
            Some(n) => Some((g, n)),
            None => None,
        },
        BinOp::Mul => match (zip_spec(BinOp::Mul, g, y), zip_spec(BinOp::Mul, g, x)) {
            (Some(a), Some(b)) => Some((a, b)),
            _ => None,
        },
        BinOp::Div => match (zip_spec(BinOp::Div, g, y), zip_spec(BinOp::Mul, g, x), zip_spec(
            BinOp::Mul,
            y,
            y,
        )) {
            (Some(a), Some(t), Some(yy)) => match zip_spec(BinOp::Div, t, yy) {
                Some(q) => match neg_seq_spec(q) {
                    Some(b) => Some((a, b)),
                    None => None,
                },
                None => None,
            },
            _ => None,
        },
    }
}

/// Adds contribution `c` into the gradient of node `n`.
pub open spec fn accumulate(grads: Seq<Seq<Ratio>>, n: int, c: Seq<Ratio>) -> Option<
    Seq<Seq<Ratio>>,
> {
    match zip_spec(BinOp::Add, grads[n], c) {
        Some(s) => Some(grads.update(n, s)),
        None => None,
    }
}

/// Passes the gradient of node `c`, if it is reached, on to its operands.
pub open spec fn step(nodes: Seq<Node>, reach: Seq<bool>, grads: Seq<Seq<Ratio>>, c: int) -> Option<
    Seq<Seq<Ratio>>,
> {
    if !reach[c] {
        Some(grads)
    } else {
        match nodes[c].op {
            NodeOp::Leaf => Some(grads),
            NodeOp::Binary(op, l, r) => match rule(
                op,
                grads[c],
                nodes[l as int].value.data@,
                nodes[r as int].value.data@,
            ) {
                Some((cl, cr)) => match accumulate(grads, l as int, cl) {
                    Some(g1) => accumulate(g1, r as int, cr),
                    None => None,
                },
                None => None,
            },
        }
    }
}

/// Runs `step` on node `c`, then on each earlier node down to node 0: every
/// node passes its gradient on after all of its consumers have passed theirs.
pub open spec fn propagate(nodes: Seq<Node>, reach: Seq<bool>, grads: Seq<Seq<Ratio>>, c: int) -> Option<
    Seq<Seq<Ratio>>,
>
    decreases c + 1,
{
    if c < 0 {
        Some(grads)
    } else {
        match step(nodes, reach, grads, c) {
            Some(g1) => propagate(nodes, reach, g1, c - 1),
            None => None,
        }
    }
}

/// The gradients when a pass starts: the seed at the root, zero at each node
/// the root depends on, and the earlier gradient elsewhere.
pub open spec fn start_grads(
    nodes: Seq<Node>,
    reach: Seq<bool>,
    before: Seq<Seq<Ratio>>,
    root: int,
    seed: Seq<Ratio>,
) -> Seq<Seq<Ratio>> {
    Seq::new(
        nodes.len(),
        |i: int|
            if i == root {
                seed
            } else if reach[i] {
                zeros(nodes[i].value.data.len() as int)
            } else {
                before[i]
            },
    )
}

/// The gradients after a backward pass from `root` seeded with `seed`; none
/// when a numerator or denominator on the way does not fit in `i64`.
pub open spec fn backward_spec(
    nodes: Seq<Node>,
    before: Seq<Seq<Ratio>>,
    root: int,
    seed: Seq<Ratio>,
) -> Option<Seq<Seq<Ratio>>> {
    let reach = reachable(nodes, root);
    propagate(nodes, reach, start_grads(nodes, reach, before, root, seed), root)
}

/// The seed of a pass from `root`: the one given, or all ones.
pub open spec fn seed_data(nodes: Seq<Node>, root: int, seed: Option<Tensor>) -> Seq<Ratio> {
    match seed {
        Some(t) => t.data@,
        None => ones(nodes[root].value.data.len() as int),
    }
}

fn reachable_exec(nodes: &Vec<Node>, root: usize) -> (r: Vec<bool>)
    requires
        root < nodes.len(),
        nodes_ok(nodes@),
    ensures
        r@ == reachable(nodes@, root as int),
        r.len() == nodes.len(),
{
    let mut flags: Vec<bool> = Vec::new();
    let mut i: usize = 0;
    while i < nodes.len()
        invariant
            0 <= i <= nodes.len(),
            flags@ =~= Seq::new(i as nat, |j: int| j == root),
        decreases nodes.len() - i,
    {
        flags.push(i == root);
        i += 1;
    }
    let ghost init = flags@;
    assert(init =~= only(nodes@.len(), root as int));
    let mut c: usize = root + 1;
    while c > 0
        invariant
            c <= root + 1,
            root < nodes.len(),
            nodes_ok(nodes@),
            flags.len() == nodes.len(),
            mark_down(nodes@, flags@, c - 1) == mark_down(nodes@, init, root as int),
            init == only(nodes@.len(), root as int),
        decreases c,
    {
        c -= 1;
        assert(node_ok(nodes@, c as int));
        let ghost before = flags@;
        if flags[c] {
            match nodes[c].op {
                NodeOp::Leaf => {},
                NodeOp::Binary(_, l, r) => {
                    flags.set(l, true);
                    flags.set(r, true);
                },
            }
        }
        assert(flags@ == mark(nodes@, before, c as int));
    }
    assert(mark_down(nodes@, flags@, -1) == flags@);
    flags
}

fn rule_exec(op: BinOp, g: &Tensor, x: &Tensor, y: &Tensor) -> (r: Option<(Tensor, Tensor)>)
    requires
        g.wf(),
        x.wf(),
        y.wf(),
        g.shape@ == x.shape@,
        g.shape@ == y.shape@,
    ensures
        r is Some <==> rule(op, g.data@, x.data@, y.data@) is Some,
        r matches Some(p) ==> {
            &&& p.0.wf()
            &&& p.1.wf()
            &&& p.0.shape@ == g.shape@
            &&& p.1.shape@ == g.shape@
            &&& rule(op, g.data@, x.data@, y.data@) == Some((p.0.data@, p.1.data@))
        },
{
    match op {
        BinOp::Add => Some((g.duplicate(), g.duplicate())),
        BinOp::Sub => match g.negate() {
            Some(n) => Some((g.duplicate(), n)),
            None => None,
        },
        BinOp::Mul => {
            let a = g.zip_with(BinOp::Mul, y);
            let b = g.zip_with(BinOp::Mul, x);
            match (a, b) {
                (Some(a), Some(b)) => Some((a, b)),
                _ => None,
            }
        },
        BinOp::Div => {
            let a = g.zip_with(BinOp::Div, y);
            let t = g.zip_with(BinOp::Mul, x);
            let yy = y.zip_with(BinOp::Mul, y);
            match (a, t, yy) {
                (Some(a), Some(t), Some(yy)) => match t.zip_with(BinOp::Div, &yy) {
                    Some(q) => match q.negate() {
                        Some(b) => Some((a, b)),
                        None => None,
                    },
                    None => None,
                },
                _ => None,
            }
        },
    }
}

impl XryGrad {
    pub open spec fn wf(&self) -> bool {
        nodes_ok(self.nodes@) && grads_fit(self.nodes@, self.grads@)
    }

    /// An empty graph.
    pub fn new() -> (r: XryGrad)
        ensures
            r.wf(),
            r.nodes@.len() == 0,
    {
        XryGrad { nodes: Vec::new(), grads: Vec::new() }
    }
}


impl Xry {
    /// A handle on a new leaf node holding `data`, with a zero gradient.
    pub fn new(g: &mut XryGrad, data: Tensor) -> (r: Xry)
        requires
            old(g).wf(),
            data.wf(),
        ensures
            final(g).wf(),
            r.id == old(g).nodes.len(),
            r.strategy == Strategy::Sequential,
            final(g).nodes@ == old(g).nodes@.push(Node { value: data, op: NodeOp::Leaf }),
            final(g).grads@.len() == old(g).grads@.len() + 1,
            final(g).grads@.drop_last() == old(g).grads@,
            final(g).grads@.last().data@ == zeros(data.data.len() as int),
    {
        let zero = data.filled_like(Ratio::zero());
        let id = g.nodes.len();
        g.nodes.push(Node { value: data, op: NodeOp::Leaf });
        g.grads.push(zero);
        proof {
            assert(g.grads@.drop_last() =~= old(g).grads@);
            assert forall|i: int| 0 <= i < g.nodes@.len() implies #[trigger] node_ok(g.nodes@, i) by {
                if i < id {
                    assert(node_ok(old(g).nodes@, i));
                }
            }
            assert(g.grads@.last().data@ =~= zeros(data.data.len() as int));
        }
        Xry { id, strategy: Strategy::Sequential }
    }

    /// Runs later operations of this handle, and of the handles made from it,
    /// through a compiled kernel.
    pub fn enable_jit(&mut self)
        ensures
            final(self).id == old(self).id,
            final(self).strategy == Strategy::Compiled,
    {
        self.strategy = Strategy::Compiled;
    }

    /// The forward value of this handle's node.
    pub fn value<'a>(&self, g: &'a XryGrad) -> (r: Option<&'a Tensor>)
        ensures
            r is Some <==> self.id < g.nodes.len(),
            r matches Some(t) ==> *t == g.nodes@[self.id as int].value,
    {
        if self.id < g.nodes.len() {
            Some(&g.nodes[self.id].value)
        } else {
            None
        }
    }

    /// The accumulated gradient of this handle's node.
    pub fn grad<'a>(&self, g: &'a XryGrad) -> (r: Option<&'a Tensor>)
        ensures
            r is Some <==> self.id < g.grads.len(),
            r matches Some(t) ==> *t == g.grads@[self.id as int],
    {
        if self.id < g.grads.len() {
            Some(&g.grads[self.id])
        } else {
            None
        }
    }

    /// What a backward pass from this handle's node, seeded with `seed`, does
    /// to the graph: the nodes stay as they are; on success the gradients are
    /// those of `backward_spec`, and on failure they stay as they were.
    pub open spec fn backward_post(
        self,
        seed: Option<Tensor>,
        before: XryGrad,
        after: XryGrad,
        r: Result<(), XryError>,
    ) -> bool {
        let root = self.id as int;
        if root >= before.nodes@.len() {
            r == Err::<(), XryError>(XryError::UnknownNode) && after == before
        } else if seed matches Some(t) && t.shape@ != before.nodes@[root].value.shape@ {
            r == Err::<(), XryError>(XryError::ShapeMismatch) && after == before
        } else {
            match backward_spec(
                before.nodes@,
                data_of(before.grads@),
                root,
                seed_data(before.nodes@, root, seed),
            ) {
                None => r == Err::<(), XryError>(XryError::Overflow) && after == before,
                Some(gs) => r == Ok::<(), XryError>(()) && after.nodes@ == before.nodes@ && data_of(
                    after.grads@,
                ) == gs,
            }
        }
    }

    /// Propagates a gradient backward from this handle's node through every
    /// node it depends on, accumulating into their gradients. The pass starts
    /// from `seed`, or from all ones when none is given, and from zero at each
    /// node reached.
    pub fn backward(&self, g: &mut XryGrad, seed: Option<Tensor>) -> (r: Result<(), XryError>)
        requires
            old(g).wf(),
            seed matches Some(t) ==> t.wf(),
        ensures
            final(g).wf(),
            self.backward_post(seed, *old(g), *final(g), r),
    {
        let n = g.nodes.len();
        let root = self.id;
        if root >= n {
            return Err(XryError::UnknownNode);
        }
        assert(node_ok(g.nodes@, root as int));
        let s = match seed {
            None => {
                let t = g.nodes[root].value.filled_like(Ratio::one());
                assert(t.data@ =~= ones(g.nodes@[root as int].value.data.len() as int));
                t
            },
            Some(t) => {
                if !t.shape_eq(&g.nodes[root].value) {
                    return Err(XryError::ShapeMismatch);
                }
                t
            },
        };
        let ghost sd = seed_data(g.nodes@, root as int, seed);
        let reach = reachable_exec(&g.nodes, root);
        let ghost rs = reach@;
        let mut gs: Vec<Tensor> = Vec::new();
        let mut i: usize = 0;
        while i < n
            invariant
                n == g.nodes.len(),
                root < n,
                g.wf(),
                reach@ == rs,
                rs.len() == n,
                s.wf(),
                s.shape@ == g.nodes@[root as int].value.shape@,
                s.data@ == sd,
                0 <= i <= n,
                gs.len() == i,
                forall|j: int|
                    0 <= j < i ==> (#[trigger] gs@[j]).wf() && gs@[j].shape@
                        == g.nodes@[j].value.shape@,
                forall|j: int|
                    0 <= j < i ==> #[trigger] gs@[j].data@ == start_grads(
                        g.nodes@,
                        rs,
                        data_of(g.grads@),
                        root as int,
                        sd,
                    )[j],
            decreases n - i,
        {
            assert(node_ok(g.nodes@, i as int));
            if i == root {
                gs.push(s.duplicate());
            } else if reach[i] {
                let z = g.nodes[i].value.filled_like(Ratio::zero());
                assert(z.data@ =~= zeros(g.nodes@[i as int].value.data.len() as int));
                gs.push(z);
            } else {
                gs.push(g.grads[i].duplicate());
            }
            i += 1;
        }
        let ghost init = start_grads(g.nodes@, rs, data_of(g.grads@), root as int, sd);
        assert(data_of(gs@) =~= init);
        let mut c: usize = root + 1;
        while c > 0
            invariant
                n == g.nodes.len(),
                root < n,
                c <= root + 1,
                g.wf(),
                *g == *old(g),
                reach@ == rs,
                rs.len() == n,
                grads_fit(g.nodes@, gs@),
                rs == reachable(g.nodes@, root as int),
                root == self.id,
                seed matches Some(t) ==> t.shape@ == g.nodes@[root as int].value.shape@,
                sd == seed_data(g.nodes@, root as int, seed),
                init == start_grads(g.nodes@, rs, data_of(g.grads@), root as int, sd),
                propagate(g.nodes@, rs, data_of(gs@), c - 1) == propagate(
                    g.nodes@,
                    rs,
                    init,
                    root as int,
                ),
            decreases c,
        {
            c -= 1;
            let ghost before = data_of(gs@);
            assert(node_ok(g.nodes@, c as int));
            if reach[c] {
                match g.nodes[c].op {
                    NodeOp::Leaf => {},
                    NodeOp::Binary(op, l, r) => {
                        assert(gs@[c as int].wf());
                        assert(node_ok(g.nodes@, l as int));
                        assert(node_ok(g.nodes@, r as int));
                        let pair = rule_exec(op, &gs[c], &g.nodes[l].value, &g.nodes[r].value);
                        match pair {
                            None => {
                                proof {
                                    assert(step(g.nodes@, rs, before, c as int) is None);
                                    assert(propagate(g.nodes@, rs, before, c as int) is None);
                                }
                                return Err(XryError::Overflow);
                            },
                            Some((cl, cr)) => {
                                assert(gs@[l as int].wf());
                                match gs[l].zip_with(BinOp::Add, &cl) {
                                    None => {
                                        proof {
                                            assert(step(g.nodes@, rs, before, c as int) is None);
                                            assert(propagate(g.nodes@, rs, before, c as int) is None);
                                        }
                                        return Err(XryError::Overflow);
                                    },
                                    Some(t) => {
                                        gs.set(l, t);
                                    },
                                }
                                let ghost mid = data_of(gs@);
                                assert(mid =~= before.update(l as int, mid[l as int]));
                                assert(accumulate(before, l as int, cl.data@) == Some(mid));
                                assert(gs@[r as int].data@ == mid[r as int]);
                                assert(gs@[r as int].wf());
                                match gs[r].zip_with(BinOp::Add, &cr) {
                                    None => {
                                        proof {
                                            assert(step(g.nodes@, rs, before, c as int) is None);
                                            assert(propagate(g.nodes@, rs, before, c as int) is None);
                                        }
                                        return Err(XryError::Overflow);
                                    },
                                    Some(t) => {
                                        gs.set(r, t);
                                    },
                                }
                                assert(data_of(gs@) =~= mid.update(r as int, data_of(gs@)[r as int]));
                            },
                        }
                    },
                }
            }
            assert(step(g.nodes@, rs, before, c as int) == Some(data_of(gs@)));
        }
        assert(propagate(g.nodes@, rs, data_of(gs@), -1) == Some(data_of(gs@)));
        g.grads = gs;
        Ok(())
    }

    /// What a forward operation `op` of `self` and `other` does to the graph:
    /// on success it appends one node made by `op` and a zero gradient, and
    /// on failure it leaves the graph as it was.
    pub open spec fn forward_spec(
        self,
        op: BinOp,
        other: Xry,
        before: XryGrad,
        after: XryGrad,
        r: Result<Xry, XryError>,
    ) -> bool {
        let n = before.nodes@.len();
        if self.id >= n || other.id >= n {
            r == Err::<Xry, XryError>(XryError::UnknownNode) && after == before
        } else {
            let a = before.nodes@[self.id as int].value;
            let b = before.nodes@[other.id as int].value;
            match Tensor::elementwise_spec(op, a, b) {
                Err(e) => r == Err::<Xry, XryError>(e) && after == before,
                Ok(d) => {
                    &&& r == Ok::<Xry, XryError>(Xry { id: n as usize, strategy: self.strategy })
                    &&& after.nodes@.len() == n + 1
                    &&& after.nodes@.drop_last() == before.nodes@
                    &&& after.nodes@[n as int].value.shape@ == a.shape@
                    &&& after.nodes@[n as int].value.data@ == d
                    &&& after.nodes@[n as int].op == NodeOp::Binary(op, self.id, other.id)
                    &&& after.grads@.len() == n + 1
                    &&& after.grads@.drop_last() == before.grads@
                    &&& after.grads@[n as int].data@ == zeros(d.len() as int)
                },
            }
        }
    }

    fn forward(&self, op: BinOp, other: &Xry, g: &mut XryGrad) -> (r: Result<Xry, XryError>)
        requires
            old(g).wf(),
        ensures
            final(g).wf(),
            self.forward_spec(op, *other, *old(g), *final(g), r),
    {
        let n = g.nodes.len();
        if self.id >= n || other.id >= n {
            return Err(XryError::UnknownNode);
        }
        assert(node_ok(g.nodes@, self.id as int));
        assert(node_ok(g.nodes@, other.id as int));
        let v = g.nodes[self.id].value.elementwise(self.strategy, op, &g.nodes[other.id].value);
        match v {
            Err(e) => Err(e),
            Ok(t) => {
                let zero = t.filled_like(Ratio::zero());
                g.nodes.push(Node { value: t, op: NodeOp::Binary(op, self.id, other.id) });
                g.grads.push(zero);
                proof {
                    assert(g.grads@.drop_last() =~= old(g).grads@);
                    assert(g.nodes@.drop_last() =~= old(g).nodes@);
                    assert forall|i: int| 0 <= i < g.nodes@.len() implies #[trigger] node_ok(
                        g.nodes@,
                        i,
                    ) by {
                        if i < n {
                            assert(node_ok(old(g).nodes@, i));
                        }
                    }
                    assert(g.grads@[n as int].data@ =~= zeros(g.nodes@[n as int].value.data@.len() as int));
                }
                Ok(Xry { id: n, strategy: self.strategy })
            },
        }
    }

    /// The elementwise sum of `self` and `other`, as a new node.
    pub fn add(&self, other: &Xry, g: &mut XryGrad) -> (r: Result<Xry, XryError>)
        requires
            old(g).wf(),
        ensures
            final(g).wf(),
            self.forward_spec(BinOp::Add, *other, *old(g), *final(g), r),
    {
        self.forward(BinOp::Add, other, g)
    }

    /// The elementwise difference of `self` and `other`, as a new node.
    pub fn sub(&self, other: &Xry, g: &mut XryGrad) -> (r: Result<Xry, XryError>)
        requires
            old(g).wf(),
        ensures
            final(g).wf(),
            self.forward_spec(BinOp::Sub, *other, *old(g), *final(g), r),
    {
        self.forward(BinOp::Sub, other, g)
    }

    /// The elementwise product of `self` and `other`, as a new node.
    pub fn mul(&self, other: &Xry, g: &mut XryGrad) -> (r: Result<Xry, XryError>)
        requires
            old(g).wf(),
        ensures
            final(g).wf(),
            self.forward_spec(BinOp::Mul, *other, *old(g), *final(g), r),
    {
        self.forward(BinOp::Mul, other, g)
    }

    /// The elementwise quotient of `self` and `other`, as a new node; fails
    /// with `DivisionByZero` when `other` holds a zero element.
    pub fn div(&self, other: &Xry, g: &mut XryGrad) -> (r: Result<Xry, XryError>)
        requires
            old(g).wf(),
        ensures
            final(g).wf(),
            self.forward_spec(BinOp::Div, *other, *old(g), *final(g), r),
    {
        self.forward(BinOp::Div, other, g)
    }
}

} // verus!
