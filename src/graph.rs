use vstd::prelude::*;

verus! {

/// The operation that produced a node, with the indices of its operands.
///
/// The operand count is fixed by the variant, so a node with the wrong
/// number of operands cannot be written down.
#[derive(Clone, Copy, Debug, PartialEq, Eq, Structural)]
pub enum Op {
    /// A leaf: a constant, an input, a weight or a bias.
    Leaf,
    Add(usize, usize),
    Mul(usize, usize),
    /// Power by a constant exponent; the exponent is not a node.
    Pow(usize),
    Exp(usize),
    Tanh(usize),
    Relu(usize),
}

/// Number of operands of a node.
pub open spec fn arity(op: Op) -> nat {
    match op {
        Op::Leaf => 0,
        Op::Add(_, _) | Op::Mul(_, _) => 2,
        _ => 1,
    }
}

/// Operand in position `k` of a node (left is 0, right is 1).
pub open spec fn operand(op: Op, k: nat) -> usize
    recommends
        k < arity(op),
{
    match op {
        Op::Add(a, b) | Op::Mul(a, b) => if k == 0 {
            a
        } else {
            b
        },
        Op::Pow(a) | Op::Exp(a) | Op::Tanh(a) | Op::Relu(a) => a,
        Op::Leaf => 0,
    }
}

/// Every operand of `op` is an index below `bound`.
pub open spec fn operands_below(op: Op, bound: int) -> bool {
    forall|k: nat| k < arity(op) ==> (#[trigger] operand(op, k)) < bound
}

impl Op {
    /// Number of operands.
    pub fn arity(&self) -> (r: usize)
        ensures
            r == arity(*self),
    {
        match self {
            Op::Leaf => 0,
            Op::Add(_, _) | Op::Mul(_, _) => 2,
            _ => 1,
        }
    }

    /// Operand in position `k`.
    pub fn operand(&self, k: usize) -> (r: usize)
        requires
            k < arity(*self),
        ensures
            r == operand(*self, k as nat),
    {
        match self {
            Op::Add(a, b) | Op::Mul(a, b) => if k == 0 {
                *a
            } else {
                *b
            },
            Op::Pow(a) | Op::Exp(a) | Op::Tanh(a) | Op::Relu(a) => *a,
            Op::Leaf => 0,
        }
    }

    /// Whether the node is a leaf.
    pub fn is_leaf(&self) -> (r: bool)
        ensures
            r == (*self == Op::Leaf),
    {
        match self {
            Op::Leaf => true,
            _ => false,
        }
    }
}

/// An arena of nodes, addressed by index.
pub struct Graph {
    nodes: Vec<Op>,
}

/// Each node's operands come before it in the sequence.
pub open spec fn acyclic(nodes: Seq<Op>) -> bool {
    forall|i: int| 0 <= i < nodes.len() ==> operands_below(#[trigger] nodes[i], i)
}

impl View for Graph {
    type V = Seq<Op>;

    closed spec fn view(&self) -> Seq<Op> {
        self.nodes@
    }
}

impl Graph {
    /// The arena's invariant: operands precede their consumers.
    pub open spec fn wf(&self) -> bool {
        acyclic(self@)
    }

    /// An empty arena.
    pub fn new() -> (r: Graph)
        ensures
            r.wf(),
            r@ == Seq::<Op>::empty(),
    {
        Graph { nodes: Vec::new() }
    }

    /// Number of nodes.
    pub fn len(&self) -> (r: usize)
        ensures
            r == self@.len(),
    {
        self.nodes.len()
    }

    /// The operation of node `i`.
    pub fn node(&self, i: usize) -> (r: Op)
        requires
            i < self@.len(),
        ensures
            r == self@[i as int],
    {
        self.nodes[i]
    }

    /// Appends `op`, whose operands must already exist; returns its index.
    fn push(&mut self, op: Op) -> (r: usize)
        requires
            old(self).wf(),
            operands_below(op, old(self)@.len() as int),
        ensures
            final(self).wf(),
            final(self)@ == old(self)@.push(op),
            r == old(self)@.len(),
    {
        let r = self.nodes.len();
        self.nodes.push(op);
        proof {
            assert forall|i: int| 0 <= i < self@.len() implies operands_below(
                #[trigger] self@[i],
                i,
            ) by {
                if i < r {
                    assert(self@[i] == old(self)@[i]);
                }
            }
        }
        r
    }

    /// A new leaf node.
    pub fn leaf(&mut self) -> (r: usize)
        requires
            old(self).wf(),
        ensures
            final(self).wf(),
            final(self)@ == old(self)@.push(Op::Leaf),
            r == old(self)@.len(),
    {
        self.push(Op::Leaf)
    }

    /// A new node `a + b`.
    pub fn add(&mut self, a: usize, b: usize) -> (r: usize)
        requires
            old(self).wf(),
            a < old(self)@.len(),
            b < old(self)@.len(),
        ensures
            final(self).wf(),
            final(self)@ == old(self)@.push(Op::Add(a, b)),
            r == old(self)@.len(),
    {
        self.push(Op::Add(a, b))
    }

    /// A new node `a * b`.
    pub fn mul(&mut self, a: usize, b: usize) -> (r: usize)
        requires
            old(self).wf(),
            a < old(self)@.len(),
            b < old(self)@.len(),
        ensures
            final(self).wf(),
            final(self)@ == old(self)@.push(Op::Mul(a, b)),
            r == old(self)@.len(),
    {
        self.push(Op::Mul(a, b))
    }

    /// A new node `a` raised to a constant power; the caller keeps the exponent.
    pub fn pow(&mut self, a: usize) -> (r: usize)
        requires
            old(self).wf(),
            a < old(self)@.len(),
        ensures
            final(self).wf(),
            final(self)@ == old(self)@.push(Op::Pow(a)),
            r == old(self)@.len(),
    {
        self.push(Op::Pow(a))
    }

    /// A new node `e^a`.
    pub fn exp(&mut self, a: usize) -> (r: usize)
        requires
            old(self).wf(),
            a < old(self)@.len(),
        ensures
            final(self).wf(),
            final(self)@ == old(self)@.push(Op::Exp(a)),
            r == old(self)@.len(),
    {
        self.push(Op::Exp(a))
    }

    /// A new node `tanh(a)`.
    pub fn tanh(&mut self, a: usize) -> (r: usize)
        requires
            old(self).wf(),
            a < old(self)@.len(),
        ensures
            final(self).wf(),
            final(self)@ == old(self)@.push(Op::Tanh(a)),
            r == old(self)@.len(),
    {
        self.push(Op::Tanh(a))
    }

    /// A new node `max(0, a)`.
    pub fn relu(&mut self, a: usize) -> (r: usize)
        requires
            old(self).wf(),
            a < old(self)@.len(),
        ensures
            final(self).wf(),
            final(self)@ == old(self)@.push(Op::Relu(a)),
            r == old(self)@.len(),
    {
        self.push(Op::Relu(a))
    }

    /// `a - b`, built as `a + b * m` where `m` is a new leaf at index
    /// `r - 2` that the caller sets to minus one; `r - 1` is the product.
    pub fn sub(&mut self, a: usize, b: usize) -> (r: usize)
        requires
            old(self).wf(),
            a < old(self)@.len(),
            b < old(self)@.len(),
        ensures
            final(self).wf(),
            r == old(self)@.len() + 2,
            final(self)@ == old(self)@.push(Op::Leaf).push(Op::Mul(b, (r - 2) as usize)).push(
                Op::Add(a, (r - 1) as usize),
            ),
    {
        let m = self.leaf();
        let p = self.mul(b, m);
        self.add(a, p)
    }

    /// `a / b`, built as `a * p` where `p` is a new power node of `b` at
    /// index `r - 1` whose exponent the caller sets to minus one.
    pub fn div(&mut self, a: usize, b: usize) -> (r: usize)
        requires
            old(self).wf(),
            a < old(self)@.len(),
            b < old(self)@.len(),
        ensures
            final(self).wf(),
            r == old(self)@.len() + 1,
            final(self)@ == old(self)@.push(Op::Pow(b)).push(Op::Mul(a, (r - 1) as usize)),
    {
        let p = self.pow(b);
        self.mul(a, p)
    }

    /// Drops every node from index `len` on: the nodes of a finished
    /// generation, once only the first `len` nodes are still in use.
    pub fn truncate(&mut self, len: usize)
        requires
            old(self).wf(),
        ensures
            final(self).wf(),
            len <= old(self)@.len() ==> final(self)@ == old(self)@.subrange(0, len as int),
            len > old(self)@.len() ==> final(self)@ == old(self)@,
    {
        self.nodes.truncate(len);
        proof {
            assert forall|i: int| 0 <= i < self@.len() implies operands_below(
                #[trigger] self@[i],
                i,
            ) by {
                assert(self@[i] == old(self)@[i]);
            }
        }
    }
}

} // verus!
