use vstd::prelude::*;
use crate::ratio::{BinOp, Ratio};
use crate::laws::{lemma_strategy_purity, strategy_result};

verus! {

/// Why an operation of the engine could not be carried out.
#[derive(Clone, Copy, Debug, PartialEq, Eq, Structural)]
pub enum XryError {
    /// Two operands, or a seed and its root, do not have the same shape,
    /// or data does not fill its shape.
    ShapeMismatch,
    /// A divisor holds a zero element.
    DivisionByZero,
    /// A numerator or denominator does not fit in `i64`.
    Overflow,
    /// A handle names no node of the graph.
    UnknownNode,
}

/// How an elementwise kernel is run. Every strategy gives the same result.
#[derive(Clone, Copy, Debug, PartialEq, Eq, Structural)]
pub enum Strategy {
    /// One pass over all indices.
    Sequential,
    /// Indices split into consecutive blocks of the given size, each block
    /// computed on its own and the blocks joined in order.
    Partitioned(usize),
    /// A compiled kernel; with no native code generator at hand it runs the
    /// sequential pass.
    Compiled,
}

/// The number of elements that a shape holds.
pub open spec fn prod(s: Seq<usize>) -> int
    decreases s.len(),
{
    if s.len() == 0 {
        1
    } else {
        prod(s.drop_last()) * s.last()
    }
}

pub open spec fn all_wf(d: Seq<Ratio>) -> bool {
    forall|i: int| 0 <= i < d.len() ==> #[trigger] d[i].wf()
}

pub open spec fn has_zero(d: Seq<Ratio>) -> bool {
    exists|i: int| 0 <= i < d.len() && #[trigger] d[i].is_zero()
}

/// Whether `op` succeeds at every index of `a` and `b`.
pub open spec fn zip_ok(op: BinOp, a: Seq<Ratio>, b: Seq<Ratio>) -> bool {
    forall|i: int| 0 <= i < a.len() ==> (#[trigger] a[i].op_spec(op, b[i])) is Some
}

/// The elementwise result of `op` on `a` and `b`.
pub open spec fn zip_seq(op: BinOp, a: Seq<Ratio>, b: Seq<Ratio>) -> Seq<Ratio> {
    Seq::new(a.len(), |i: int| a[i].op_spec(op, b[i])->Some_0)
}

pub open spec fn zip_spec(op: BinOp, a: Seq<Ratio>, b: Seq<Ratio>) -> Option<Seq<Ratio>> {
    if zip_ok(op, a, b) {
        Some(zip_seq(op, a, b))
    } else {
        None
    }
}

pub open spec fn neg_seq_spec(a: Seq<Ratio>) -> Option<Seq<Ratio>> {
    if forall|i: int| 0 <= i < a.len() ==> (#[trigger] a[i].neg_spec()) is Some {
        Some(Seq::new(a.len(), |i: int| a[i].neg_spec()->Some_0))
    } else {
        None
    }
}

/// A dense tensor: a shape of positive sizes and its elements in row-major order.
#[derive(Debug)]
pub struct Tensor {
    pub shape: Vec<usize>,
    pub data: Vec<Ratio>,
}

impl Tensor {
    pub open spec fn wf(&self) -> bool {
        &&& self.data.len() == prod(self.shape@)
        &&& all_wf(self.data@)
        &&& forall|i: int| 0 <= i < self.shape.len() ==> #[trigger] self.shape@[i] > 0
    }

    /// What an elementwise operation of two tensors gives, whatever the strategy.
    pub open spec fn elementwise_spec(op: BinOp, a: Tensor, b: Tensor) -> Result<
        Seq<Ratio>,
        XryError,
    > {
        if a.shape@ != b.shape@ {
            Err(XryError::ShapeMismatch)
        } else if op == BinOp::Div && has_zero(b.data@) {
            Err(XryError::DivisionByZero)
        } else if !zip_ok(op, a.data@, b.data@) {
            Err(XryError::Overflow)
        } else {
            Ok(zip_seq(op, a.data@, b.data@))
        }
    }

    /// Builds a tensor from a shape and its elements.
    pub fn new(shape: Vec<usize>, data: Vec<Ratio>) -> (r: Result<Tensor, XryError>)
        ensures
            r is Ok <==> (data.len() == prod(shape@) && all_wf(data@) && forall|i: int|
                0 <= i < shape.len() ==> #[trigger] shape@[i] > 0),
            r matches Ok(t) ==> t.shape@ == shape@ && t.data@ == data@ && t.wf(),
            r matches Err(e) ==> e == XryError::ShapeMismatch,
    {
        let mut p: usize = 1;
        let mut over = false;
        let mut i: usize = 0;
        while i < shape.len()
            invariant
                0 <= i <= shape.len(),
                p >= 1,
                forall|j: int| 0 <= j < i ==> #[trigger] shape@[j] > 0,
                over ==> prod(shape@.take(i as int)) > usize::MAX,
                !over ==> prod(shape@.take(i as int)) == p,
            decreases shape.len() - i,
        {
            assert(shape@.take(i + 1).drop_last() =~= shape@.take(i as int));
            let d = shape[i];
            if d == 0 {
                assert(shape@[i as int] == 0);
                return Err(XryError::ShapeMismatch);
            }
            assert(prod(shape@.take(i + 1)) == prod(shape@.take(i as int)) * d);
            let ghost q = prod(shape@.take(i as int));
            if over {
                assert(q * d >= q) by (nonlinear_arith)
                    requires
                        q > 0,
                        d >= 1,
                ;
            } else {
                match p.checked_mul(d) {
                    Some(x) => {
                        assert(p * d >= 1) by (nonlinear_arith)
                            requires
                                p >= 1,
                                d >= 1,
                        ;
                        p = x;
                    },
                    None => {
                        over = true;
                    },
                }
            }
            i += 1;
        }
        assert(shape@.take(shape.len() as int) =~= shape@);
        if over || p != data.len() {
            return Err(XryError::ShapeMismatch);
        }
        let mut k: usize = 0;
        while k < data.len()
            invariant
                0 <= k <= data.len(),
                forall|j: int| 0 <= j < k ==> #[trigger] data@[j].wf(),
            decreases data.len() - k,
        {
            if data[k].den <= 0 {
                assert(!data@[k as int].wf());
                return Err(XryError::ShapeMismatch);
            }
            k += 1;
        }
        Ok(Tensor { shape, data })
    }

    /// A tensor of the given shape with every element equal to `x`.
    pub fn filled(shape: Vec<usize>, x: Ratio) -> (r: Result<Tensor, XryError>)
        requires
            x.wf(),
        ensures
            r is Ok <==> (prod(shape@) <= usize::MAX && forall|i: int|
                0 <= i < shape.len() ==> #[trigger] shape@[i] > 0),
            r matches Ok(t) ==> t.shape@ == shape@ && t.data@ == Seq::new(
                prod(shape@) as nat,
                |i: int| x,
            ) && t.wf(),
            r matches Err(e) ==> e == XryError::ShapeMismatch,
    {
        let mut p: usize = 1;
        let mut i: usize = 0;
        while i < shape.len()
            invariant
                0 <= i <= shape.len(),
                p >= 1,
                forall|j: int| 0 <= j < i ==> #[trigger] shape@[j] > 0,
                prod(shape@.take(i as int)) == p,
            decreases shape.len() - i,
        {
            assert(shape@.take(i + 1).drop_last() =~= shape@.take(i as int));
            let d = shape[i];
            if d == 0 {
                assert(shape@[i as int] == 0);
                return Err(XryError::ShapeMismatch);
            }
            assert(prod(shape@.take(i + 1)) == prod(shape@.take(i as int)) * d);
            match p.checked_mul(d) {
                Some(y) => {
                    assert(p * d >= 1) by (nonlinear_arith)
                        requires
                            p >= 1,
                            d >= 1,
                    ;
                    p = y;
                },
                None => {
                    proof {
                        if forall|j: int| 0 <= j < shape.len() ==> #[trigger] shape@[j] > 0 {
                            lemma_prod_grows(shape@, i as int + 1);
                        }
                    }
                    assert(shape@.take(shape.len() as int) =~= shape@);
                    return Err(XryError::ShapeMismatch);
                },
            }
            i += 1;
        }
        assert(shape@.take(shape.len() as int) =~= shape@);
        let data = Tensor::constant_data(p, x);
        Ok(Tensor { shape, data })
    }

    fn constant_data(n: usize, x: Ratio) -> (r: Vec<Ratio>)
        requires
            x.wf(),
        ensures
            r@ == Seq::new(n as nat, |i: int| x),
            all_wf(r@),
    {
        let mut v: Vec<Ratio> = Vec::new();
        let mut i: usize = 0;
        while i < n
            invariant
                0 <= i <= n,
                v@ =~= Seq::new(i as nat, |j: int| x),
            decreases n - i,
        {
            v.push(x);
            i += 1;
        }
        v
    }

    /// A tensor shaped like `self` with every element equal to `x`.
    pub fn filled_like(&self, x: Ratio) -> (r: Tensor)
        requires
            self.wf(),
            x.wf(),
        ensures
            r.wf(),
            r.shape@ == self.shape@,
            r.data@ == Seq::new(self.data.len() as nat, |i: int| x),
    {
        Tensor { shape: copy_vec(&self.shape), data: Tensor::constant_data(self.data.len(), x) }
    }

    /// Whether `self` and `other` have the same shape.
    pub fn shape_eq(&self, other: &Tensor) -> (r: bool)
        ensures
            r == (self.shape@ == other.shape@),
    {
        same_shape(&self.shape, &other.shape)
    }

    /// A tensor equal to `self`.
    pub fn duplicate(&self) -> (r: Tensor)
        ensures
            r.shape@ == self.shape@,
            r.data@ == self.data@,
    {
        Tensor { shape: copy_vec(&self.shape), data: copy_vec(&self.data) }
    }

    /// Applies `op` at every index of `self` and `other` under `strategy`.
    /// Division fails on a zero divisor element rather than producing an
    /// infinity.
    pub fn elementwise(&self, strategy: Strategy, op: BinOp, other: &Tensor) -> (r: Result<
        Tensor,
        XryError,
    >)
        requires
            self.wf(),
            other.wf(),
        ensures
            r matches Ok(t) ==> Tensor::elementwise_spec(op, *self, *other) == Ok::<
                Seq<Ratio>,
                XryError,
            >(t.data@) && t.shape@ == self.shape@ && t.wf(),
            r matches Ok(t) ==> strategy_result(strategy, op, self.data@, other.data@) == Some(
                t.data@,
            ),
            r matches Err(e) ==> Tensor::elementwise_spec(op, *self, *other) == Err::<
                Seq<Ratio>,
                XryError,
            >(e),
    {
        if !same_shape(&self.shape, &other.shape) {
            return Err(XryError::ShapeMismatch);
        }
        assert(self.data.len() == other.data.len());
        if op == BinOp::Div && any_zero(&other.data) {
            return Err(XryError::DivisionByZero);
        }
        proof {
            lemma_strategy_purity(strategy, Strategy::Sequential, op, self.data@, other.data@);
        }
        let out = match strategy {
            Strategy::Sequential => zip_data(op, &self.data, &other.data),
            Strategy::Compiled => zip_data(op, &self.data, &other.data),
            Strategy::Partitioned(block) => zip_partitioned(op, &self.data, &other.data, block),
        };
        match out {
            Some(v) => {
                Ok(Tensor { shape: copy_vec(&self.shape), data: v })
            },
            None => Err(XryError::Overflow),
        }
    }

    /// Applies `op` at every index of two tensors of one shape; none when an
    /// index fails.
    pub fn zip_with(&self, op: BinOp, other: &Tensor) -> (r: Option<Tensor>)
        requires
            self.wf(),
            other.wf(),
            self.shape@ == other.shape@,
        ensures
            r is Some <==> zip_ok(op, self.data@, other.data@),
            r matches Some(t) ==> t.wf() && t.shape@ == self.shape@ && t.data@ == zip_seq(
                op,
                self.data@,
                other.data@,
            ),
    {
        match zip_data(op, &self.data, &other.data) {
            Some(v) => Some(Tensor { shape: copy_vec(&self.shape), data: v }),
            None => None,
        }
    }

    /// The elementwise negation of `self`.
    pub fn negate(&self) -> (r: Option<Tensor>)
        requires
            self.wf(),
        ensures
            r is Some <==> neg_seq_spec(self.data@) is Some,
            r matches Some(t) ==> t.wf() && t.shape@ == self.shape@ && t.data@ == neg_seq_spec(
                self.data@,
            )->Some_0,
    {
        let mut v: Vec<Ratio> = Vec::new();
        let mut i: usize = 0;
        while i < self.data.len()
            invariant
                self.wf(),
                0 <= i <= self.data.len(),
                v@.len() == i,
                forall|j: int| 0 <= j < i ==> (#[trigger] self.data@[j].neg_spec()) is Some,
                forall|j: int| 0 <= j < i ==> #[trigger] v@[j] == self.data@[j].neg_spec()->Some_0,
                all_wf(v@),
            decreases self.data.len() - i,
        {
            assert(self.data@[i as int].wf());
            match self.data[i].neg() {
                Some(x) => {
                    v.push(x);
                },
                None => {
                    return None;
                },
            }
            i += 1;
        }
        assert(v@ =~= Seq::new(self.data@.len(), |j: int| self.data@[j].neg_spec()->Some_0));
        Some(Tensor { shape: copy_vec(&self.shape), data: v })
    }
}

proof fn lemma_prod_grows(s: Seq<usize>, k: int)
    requires
        0 <= k <= s.len(),
        forall|i: int| 0 <= i < s.len() ==> #[trigger] s[i] > 0,
    ensures
        prod(s) >= prod(s.take(k)),
        prod(s.take(k)) >= 1,
    decreases s.len(),
{
    if k == s.len() {
        assert(s.take(k) =~= s);
        lemma_prod_pos(s);
    } else {
        assert(s.drop_last().take(k) =~= s.take(k));
        lemma_prod_grows(s.drop_last(), k);
        lemma_prod_pos(s.drop_last());
        let p = prod(s.drop_last());
        let d = s.last() as int;
        assert(p * d >= p) by (nonlinear_arith)
            requires
                p >= 1,
                d >= 1,
        ;
    }
}

proof fn lemma_prod_pos(s: Seq<usize>)
    requires
        forall|i: int| 0 <= i < s.len() ==> #[trigger] s[i] > 0,
    ensures
        prod(s) >= 1,
    decreases s.len(),
{
    if s.len() > 0 {
        lemma_prod_pos(s.drop_last());
        let p = prod(s.drop_last());
        let d = s.last() as int;
        assert(p * d >= 1) by (nonlinear_arith)
            requires
                p >= 1,
                d >= 1,
        ;
    }
}

fn copy_vec<T: Copy>(v: &Vec<T>) -> (r: Vec<T>)
    ensures
        r@ == v@,
{
    let mut out: Vec<T> = Vec::new();
    let mut i: usize = 0;
    while i < v.len()
        invariant
            0 <= i <= v.len(),
            out@ =~= v@.take(i as int),
        decreases v.len() - i,
    {
        out.push(v[i]);
        i += 1;
    }
    assert(v@.take(v.len() as int) =~= v@);
    out
}

fn same_shape(a: &Vec<usize>, b: &Vec<usize>) -> (r: bool)
    ensures
        r == (a@ == b@),
{
    if a.len() != b.len() {
        return false;
    }
    let mut i: usize = 0;
    while i < a.len()
        invariant
            a.len() == b.len(),
            0 <= i <= a.len(),
            forall|j: int| 0 <= j < i ==> a@[j] == b@[j],
        decreases a.len() - i,
    {
        if a[i] != b[i] {
            return false;
        }
        i += 1;
    }
    assert(a@ =~= b@);
    true
}

fn any_zero(d: &Vec<Ratio>) -> (r: bool)
    ensures
        r == has_zero(d@),
{
    let mut i: usize = 0;
    while i < d.len()
        invariant
            0 <= i <= d.len(),
            forall|j: int| 0 <= j < i ==> !(#[trigger] d@[j].is_zero()),
        decreases d.len() - i,
    {
        if d[i].is_zero_exec() {
            return true;
        }
        i += 1;
    }
    false
}

/// Runs `op` over the indices `lo..hi`, appending the results to `out`;
/// false when some index in the range fails.
fn zip_range(
    op: BinOp,
    a: &Vec<Ratio>,
    b: &Vec<Ratio>,
    lo: usize,
    hi: usize,
    out: &mut Vec<Ratio>,
) -> (ok: bool)
    requires
        a.len() == b.len(),
        lo <= hi <= a.len(),
        all_wf(a@),
        all_wf(b@),
    ensures
        all_wf(old(out)@) ==> all_wf(final(out)@),
        ok ==> final(out)@ == old(out)@ + zip_seq(op, a@.subrange(lo as int, hi as int), b@.subrange(lo as int, hi as int)),
        ok <==> forall|i: int| lo <= i < hi ==> (#[trigger] a@[i].op_spec(op, b@[i])) is Some,
{
    let ghost start = out@;
    let mut i: usize = lo;
    while i < hi
        invariant
            a.len() == b.len(),
            lo <= i <= hi <= a.len(),
            all_wf(a@),
            all_wf(b@),
            out@ =~= start + zip_seq(op, a@.subrange(lo as int, i as int), b@.subrange(lo as int, i as int)),
            forall|j: int| lo <= j < i ==> (#[trigger] a@[j].op_spec(op, b@[j])) is Some,
            start == old(out)@,
            all_wf(start) ==> all_wf(out@),
        decreases hi - i,
    {
        assert(a@[i as int].wf() && b@[i as int].wf());
        match a[i].apply(op, &b[i]) {
            Some(x) => {
                out.push(x);
            },
            None => {
                assert(a@[i as int].op_spec(op, b@[i as int]) is None);
                return false;
            },
        }
        i += 1;
    }
    true
}

fn zip_data(op: BinOp, a: &Vec<Ratio>, b: &Vec<Ratio>) -> (r: Option<Vec<Ratio>>)
    requires
        a.len() == b.len(),
        all_wf(a@),
        all_wf(b@),
    ensures
        r is Some <==> zip_ok(op, a@, b@),
        r matches Some(v) ==> v@ == zip_seq(op, a@, b@) && all_wf(v@),
{
    let mut out: Vec<Ratio> = Vec::new();
    let ok = zip_range(op, a, b, 0, a.len(), &mut out);
    if ok {
        assert(a@.subrange(0, a.len() as int) =~= a@);
        assert(b@.subrange(0, b.len() as int) =~= b@);
        assert(out@ =~= zip_seq(op, a@, b@));
        Some(out)
    } else {
        None
    }
}

fn zip_partitioned(op: BinOp, a: &Vec<Ratio>, b: &Vec<Ratio>, block: usize) -> (r: Option<
    Vec<Ratio>,
>)
    requires
        a.len() == b.len(),
        all_wf(a@),
        all_wf(b@),
    ensures
        r is Some <==> zip_ok(op, a@, b@),
        r matches Some(v) ==> v@ == zip_seq(op, a@, b@) && all_wf(v@),
{
    let step: usize = if block == 0 {
        1
    } else {
        block
    };
    let n = a.len();
    let mut out: Vec<Ratio> = Vec::new();
    let mut lo: usize = 0;
    while lo < n
        invariant
            n == a.len() == b.len(),
            lo <= n,
            step >= 1,
            all_wf(a@),
            all_wf(b@),
            out@ =~= zip_seq(op, a@.take(lo as int), b@.take(lo as int)),
            forall|j: int| 0 <= j < lo ==> (#[trigger] a@[j].op_spec(op, b@[j])) is Some,
            all_wf(out@),
        decreases n - lo,
    {
        let hi: usize = if n - lo < step {
            n
        } else {
            lo + step
        };
        let ghost before = out@;
        let ok = zip_range(op, a, b, lo, hi, &mut out);
        if !ok {
            return None;
        }
        assert(out@ =~= zip_seq(op, a@.take(hi as int), b@.take(hi as int)));
        lo = hi;
    }
    assert(a@.take(n as int) =~= a@);
    assert(b@.take(n as int) =~= b@);
    Some(out)
}

} // verus!
