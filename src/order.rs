use crate::graph::{acyclic, arity, operand, Graph, Op};
use vstd::prelude::*;

verus! {

/// Node `c` is one of the operands of node `p`.
pub open spec fn uses(g: Seq<Op>, p: int, c: int) -> bool {
    &&& 0 <= p < g.len()
    &&& exists|k: nat| k < arity(g[p]) && operand(g[p], k) == c
}

/// Node `b` is `a` itself or reached from `a` by following operands.
pub open spec fn reaches(g: Seq<Op>, a: int, b: int) -> bool
    decreases a,
{
    if a == b {
        true
    } else if 0 <= a < g.len() {
        let op = g[a];
        let l = operand(op, 0) as int;
        let r = operand(op, 1) as int;
        ||| (arity(op) >= 1 && l < a && reaches(g, l, b))
        ||| (arity(op) >= 2 && r < a && reaches(g, r, b))
    } else {
        false
    }
}

/// The operand in position `k` of node `p` is one of its uses.
pub proof fn lemma_operand_used(g: Seq<Op>, p: int, k: nat)
    requires
        0 <= p < g.len(),
        k < arity(g[p]),
    ensures
        uses(g, p, operand(g[p], k) as int),
{
}

/// What `a` reaches lies at or below `a`.
pub proof fn lemma_reach_below(g: Seq<Op>, a: int, b: int)
    requires
        reaches(g, a, b),
    ensures
        b <= a,
    decreases a,
{
    if a != b {
        let op = g[a];
        let l = operand(op, 0) as int;
        let r = operand(op, 1) as int;
        if arity(op) >= 1 && l < a && reaches(g, l, b) {
            lemma_reach_below(g, l, b);
        } else {
            lemma_reach_below(g, r, b);
        }
    }
}

/// An operand of a node is reached from it.
pub proof fn lemma_use_reaches(g: Seq<Op>, p: int, c: int)
    requires
        acyclic(g),
        uses(g, p, c),
    ensures
        reaches(g, p, c),
{
    let k = choose|k: nat| k < arity(g[p]) && operand(g[p], k) == c;
    assert(crate::graph::operands_below(g[p], p));
    assert(operand(g[p], k) < p);
    if k != 0 {
        assert(operand(g[p], 1) < p);
    }
    reveal_with_fuel(reaches, 2);
}

/// Reaching is transitive.
pub proof fn lemma_reach_trans(g: Seq<Op>, a: int, b: int, c: int)
    requires
        reaches(g, a, b),
        reaches(g, b, c),
    ensures
        reaches(g, a, c),
    decreases a,
{
    if a != b && a != c {
        let op = g[a];
        let l = operand(op, 0) as int;
        let r = operand(op, 1) as int;
        if arity(op) >= 1 && l < a && reaches(g, l, b) {
            lemma_reach_trans(g, l, b, c);
        } else {
            lemma_reach_trans(g, r, b, c);
        }
    }
}

/// A reached node's operands are reached too.
pub proof fn lemma_reach_step(g: Seq<Op>, a: int, p: int, c: int)
    requires
        acyclic(g),
        reaches(g, a, p),
        uses(g, p, c),
    ensures
        reaches(g, a, c),
{
    lemma_use_reaches(g, p, c);
    lemma_reach_trans(g, a, p, c);
}

/// A node reached from `a`, other than `a`, is an operand of a node reached
/// from `a`.
pub proof fn lemma_reach_last(g: Seq<Op>, a: int, c: int)
    requires
        acyclic(g),
        reaches(g, a, c),
        a != c,
    ensures
        exists|p: int| reaches(g, a, p) && uses(g, p, c),
    decreases a,
{
    let op = g[a];
    let l = operand(op, 0) as int;
    let r = operand(op, 1) as int;
    let k: nat = if arity(op) >= 1 && l < a && reaches(g, l, c) {
        0
    } else {
        1
    };
    let d = operand(op, k) as int;
    assert(reaches(g, d, c));
    assert(uses(g, a, d)) by {
        lemma_operand_used(g, a, k);
    }
    assert(reaches(g, a, a));
    if d != c {
        lemma_reach_last(g, d, c);
        let p = choose|p: int| reaches(g, d, p) && uses(g, p, c);
        lemma_use_reaches(g, a, d);
        lemma_reach_trans(g, a, d, p);
    }
}

/// Node `j` is the root or an operand of a node in `[i, n)` that the root
/// reaches: what the marking pass of `topological_sort` has flagged once
/// every node from `i` on has been handled.
spec fn flagged(g: Seq<Op>, root: int, i: int, j: int) -> bool {
    j == root || exists|p: int| i <= p && reaches(g, root, p) && #[trigger] uses(g, p, j)
}

/// Below the root, being reached is being flagged by the nodes above.
proof fn lemma_reached_is_flagged(g: Seq<Op>, root: int, j: int)
    requires
        acyclic(g),
        0 <= j,
    ensures
        reaches(g, root, j) == flagged(g, root, j + 1, j),
{
    if reaches(g, root, j) && j != root {
        lemma_reach_last(g, root, j);
        let p = choose|p: int| reaches(g, root, p) && uses(g, p, j);
        lemma_use_below(g, p, j);
        assert(flagged(g, root, j + 1, j));
    }
    if flagged(g, root, j + 1, j) && j != root {
        let p = choose|p: int| j + 1 <= p && reaches(g, root, p) && #[trigger] uses(g, p, j);
        lemma_reach_step(g, root, p, j);
    }
}

/// An operand lies below its consumer.
pub proof fn lemma_use_below(g: Seq<Op>, p: int, c: int)
    requires
        acyclic(g),
        uses(g, p, c),
    ensures
        0 <= c < p,
{
    let k = choose|k: nat| k < arity(g[p]) && operand(g[p], k) == c;
    assert(crate::graph::operands_below(g[p], p));
    assert(operand(g[p], k) < p);
}

/// `x` occurs in `order` before position `i`.
pub open spec fn listed_before(order: Seq<usize>, x: usize, i: int) -> bool {
    exists|j: int| 0 <= j < i && order[j] == x
}

/// Every operand of a node listed in `order` is listed before it.
pub open spec fn operands_first(g: Seq<Op>, order: Seq<usize>) -> bool {
    forall|i: int, k: nat|
        0 <= i < order.len() && k < arity(g[order[i] as int]) ==> #[trigger] listed_before(
            order,
            operand(g[order[i] as int], k),
            i,
        )
}

/// `order` holds each node that `root` reaches exactly once, in increasing
/// index order, and nothing else.
pub open spec fn is_reach_order(g: Seq<Op>, root: int, order: Seq<usize>) -> bool {
    &&& forall|i: int, j: int| 0 <= i < j < order.len() ==> order[i] < order[j]
    &&& forall|i: int| 0 <= i < order.len() ==> reaches(g, root, #[trigger] order[i] as int)
    &&& forall|n: int| #[trigger] reaches(g, root, n) ==> exists|i: int|
        0 <= i < order.len() && order[i] == n
}

impl Graph {
    /// Sets the flag of every operand of node `i`.
    fn mark_operands(&self, mark: &mut Vec<bool>, i: usize)
        requires
            self.wf(),
            i < self@.len(),
            i < old(mark)@.len(),
        ensures
            final(mark)@.len() == old(mark)@.len(),
            forall|x: int|
                0 <= x < old(mark)@.len() ==> final(mark)@[x] == (old(mark)@[x] || uses(
                    self@,
                    i as int,
                    x,
                )),
    {
        let ghost g = self@;
        let op = self.node(i);
        assert(crate::graph::operands_below(op, i as int));
        match op {
            Op::Add(a, b) | Op::Mul(a, b) => {
                assert(operand(op, 0) == a && operand(op, 1) == b);
                mark.set(a, true);
                mark.set(b, true);
            },
            Op::Pow(a) | Op::Exp(a) | Op::Tanh(a) | Op::Relu(a) => {
                assert(operand(op, 0) == a);
                mark.set(a, true);
            },
            Op::Leaf => {},
        }
        proof {
            assert forall|x: int| 0 <= x < old(mark)@.len() implies mark@[x] == (old(mark)@[x]
                || uses(g, i as int, x)) by {
                if uses(g, i as int, x) {
                    let k = choose|k: nat| k < arity(g[i as int]) && operand(g[i as int], k) == x;
                    assert(k == 0 || k == 1);
                }
                if arity(op) >= 1 && x == operand(op, 0) {
                    assert(uses(g, i as int, x));
                }
                if arity(op) >= 2 && x == operand(op, 1) {
                    assert(uses(g, i as int, x));
                }
            }
        }
    }

    /// The nodes that `root` reaches, each once, every operand before the
    /// nodes that consume it.
    ///
    /// Operands always come before their consumers in the arena, so the
    /// reached nodes in increasing index order are such an order; a node met
    /// along several paths is still listed once.
    pub fn topological_sort(&self, root: usize) -> (r: Vec<usize>)
        requires
            self.wf(),
            root < self@.len(),
        ensures
            is_reach_order(self@, root as int, r@),
            r@.len() > 0 && r@.last() == root,
            operands_first(self@, r@),
    {
        let ghost g = self@;
        let len = self.len();
        let n = root + 1;
        let mut mark: Vec<bool> = Vec::new();
        let mut j: usize = 0;
        while j < n
            invariant
                j <= n,
                mark@.len() == j,
                forall|x: int| 0 <= x < j ==> !mark@[x],
            decreases n - j,
        {
            mark.push(false);
            j += 1;
        }
        mark.set(root, true);
        proof {
            assert forall|x: int| 0 <= x < n implies mark@[x] == flagged(
                g,
                root as int,
                n as int,
                x,
            ) by {
                if flagged(g, root as int, n as int, x) && x != root {
                    let p = choose|p: int|
                        n <= p && reaches(g, root as int, p) && #[trigger] uses(g, p, x);
                    lemma_reach_below(g, root as int, p);
                }
            }
        }
        let mut i: usize = n;
        while i > 0
            invariant
                g == self@,
                self.wf(),
                n == root + 1,
                n <= g.len(),
                i <= n,
                mark@.len() == n,
                forall|x: int| i <= x < n ==> mark@[x] == reaches(g, root as int, x),
                forall|x: int| 0 <= x < i ==> mark@[x] == flagged(g, root as int, i as int, x),
            decreases i,
        {
            i -= 1;
            proof {
                lemma_reached_is_flagged(g, root as int, i as int);
            }
            let ghost before = mark@;
            if mark[i] {
                self.mark_operands(&mut mark, i);
                proof {
                    assert forall|x: int| 0 <= x < i implies mark@[x] == flagged(
                        g,
                        root as int,
                        i as int,
                        x,
                    ) by {
                        if before[x] && x != root {
                            let p = choose|p: int|
                                i + 1 <= p && reaches(g, root as int, p) && #[trigger] uses(
                                    g,
                                    p,
                                    x,
                                );
                            assert(uses(g, p, x));
                        }
                        if flagged(g, root as int, i as int, x) && x != root {
                            let p = choose|p: int|
                                i <= p && reaches(g, root as int, p) && #[trigger] uses(g, p, x);
                            if p != i {
                                assert(flagged(g, root as int, i + 1, x));
                            }
                        }
                    }
                }
            } else {
                proof {
                    assert forall|x: int| 0 <= x < i implies mark@[x] == flagged(
                        g,
                        root as int,
                        i as int,
                        x,
                    ) by {
                        if flagged(g, root as int, i as int, x) && x != root {
                            let p = choose|p: int|
                                i <= p && reaches(g, root as int, p) && #[trigger] uses(g, p, x);
                            assert(p != i);
                            assert(flagged(g, root as int, i + 1, x));
                        }
                        if before[x] && x != root {
                            let p = choose|p: int|
                                i + 1 <= p && reaches(g, root as int, p) && #[trigger] uses(
                                    g,
                                    p,
                                    x,
                                );
                            assert(uses(g, p, x));
                        }
                    }
                }
            }
        }
        let mut r: Vec<usize> = Vec::new();
        let mut x: usize = 0;
        while x < n
            invariant
                g == self@,
                self.wf(),
                n == root + 1,
                n <= g.len(),
                x <= n,
                mark@.len() == n,
                forall|y: int| 0 <= y < n ==> mark@[y] == reaches(g, root as int, y),
                forall|a: int, b: int| 0 <= a < b < r@.len() ==> r@[a] < r@[b],
                forall|a: int| 0 <= a < r@.len() ==> r@[a] < x,
                forall|a: int| 0 <= a < r@.len() ==> reaches(g, root as int, #[trigger] r@[a] as int),
                forall|y: int| 0 <= y < x && reaches(g, root as int, y) ==> exists|a: int|
                    0 <= a < r@.len() && r@[a] == y,
                x > root ==> r@.len() > 0 && r@.last() == root,
            decreases n - x,
        {
            if mark[x] {
                let ghost prev = r@;
                r.push(x);
                proof {
                    assert forall|y: int| 0 <= y < x + 1 && reaches(g, root as int, y) implies exists|
                        a: int,
                    | 0 <= a < r@.len() && r@[a] == y by {
                        if y == x {
                            assert(r@[r@.len() - 1] == y);
                        } else {
                            let a = choose|a: int| 0 <= a < prev.len() && prev[a] == y;
                            assert(r@[a] == prev[a]);
                        }
                    }
                }
            }
            x += 1;
        }
        proof {
            assert(reaches(g, root as int, root as int));
            assert forall|y: int| #[trigger] reaches(g, root as int, y) implies exists|a: int|
                0 <= a < r@.len() && r@[a] == y by {
                lemma_reach_below(g, root as int, y);
                lemma_reach_nonneg(g, root as int, y);
            }
            lemma_reach_order_operands_first(g, root as int, r@);
        }
        r
    }
}

/// In a listing of the nodes that `root` reaches in increasing index order,
/// every operand of a listed node is listed before it.
pub proof fn lemma_reach_order_operands_first(g: Seq<Op>, root: int, order: Seq<usize>)
    requires
        acyclic(g),
        0 <= root < g.len(),
        is_reach_order(g, root, order),
    ensures
        operands_first(g, order),
{
    assert forall|i: int, k: nat|
        0 <= i < order.len() && k < arity(g[order[i] as int]) implies #[trigger] listed_before(
            order,
            operand(g[order[i] as int], k),
            i,
        ) by {
        let m = order[i] as int;
        lemma_reach_below(g, root, m);
        lemma_operand_used(g, m, k);
        let c = operand(g[m], k) as int;
        lemma_reach_step(g, root, m, c);
        lemma_use_below(g, m, c);
        let j = choose|j: int| 0 <= j < order.len() && order[j] == c;
        if j >= i {
            assert(order[i] <= order[j]);
        }
    }
}

/// Only indices of the arena, or the start itself, are reached.
pub proof fn lemma_reach_nonneg(g: Seq<Op>, a: int, b: int)
    requires
        0 <= a,
        reaches(g, a, b),
    ensures
        0 <= b,
    decreases a,
{
    if a != b {
        let op = g[a];
        let l = operand(op, 0) as int;
        let r = operand(op, 1) as int;
        if arity(op) >= 1 && l < a && reaches(g, l, b) {
            lemma_reach_nonneg(g, l, b);
        } else {
            lemma_reach_nonneg(g, r, b);
        }
    }
}

/// One gradient contribution of back-propagation: the gradient of `node`
/// flows into its operand in position `slot`, which is node `operand`.
#[derive(Clone, Copy, Debug, PartialEq, Eq, Structural)]
pub struct Edge {
    pub node: usize,
    pub slot: usize,
    pub operand: usize,
}

/// `e` is an operand edge of the arena.
pub open spec fn is_edge(g: Seq<Op>, e: Edge) -> bool {
    &&& 0 <= e.node < g.len()
    &&& e.slot < arity(g[e.node as int])
    &&& e.operand == operand(g[e.node as int], e.slot as nat)
}

/// The contribution of node `m` through its operand slot `k` is in `steps`.
pub open spec fn scheduled(steps: Seq<Edge>, m: int, k: nat) -> bool {
    exists|i: int| 0 <= i < steps.len() && steps[i].node == m && steps[i].slot == k
}

/// `a` is to be applied before `b`: consumers in decreasing index order,
/// the slots of one consumer from left to right.
pub open spec fn goes_before(a: Edge, b: Edge) -> bool {
    b.node < a.node || (b.node == a.node && a.slot < b.slot)
}

/// `steps` is the back-propagation schedule from `root`: every operand edge
/// of every node that `root` reaches, each once, consumers before producers.
pub open spec fn is_schedule(g: Seq<Op>, root: int, steps: Seq<Edge>) -> bool {
    &&& forall|i: int|
        0 <= i < steps.len() ==> is_edge(g, #[trigger] steps[i]) && reaches(g, root, steps[i].node as int)
    &&& forall|m: int, k: nat|
        reaches(g, root, m) && 0 <= m < g.len() && k < arity(g[m]) ==> #[trigger] scheduled(steps, m, k)
    &&& forall|i: int, j: int| 0 <= i < j < steps.len() ==> goes_before(steps[i], steps[j])
}

impl Graph {
    /// The gradient contributions of a backward pass from `root`, in the
    /// order in which they are applied: the reached nodes in reverse
    /// topological order, each passing its gradient to its operands from left
    /// to right. A node used twice receives one contribution per use.
    pub fn propagation_steps(&self, root: usize) -> (r: Vec<Edge>)
        requires
            self.wf(),
            root < self@.len(),
        ensures
            is_schedule(self@, root as int, r@),
    {
        let ghost g = self@;
        let order = self.topological_sort(root);
        let mut steps: Vec<Edge> = Vec::new();
        let mut i: usize = order.len();
        while i > 0
            invariant
                g == self@,
                self.wf(),
                root < g.len(),
                i <= order@.len(),
                is_reach_order(g, root as int, order@),
                forall|s: int|
                    0 <= s < steps@.len() ==> is_edge(g, #[trigger] steps@[s]) && reaches(
                        g,
                        root as int,
                        steps@[s].node as int,
                    ),
                i == order@.len() ==> steps@.len() == 0,
                i < order@.len() ==> forall|s: int|
                    0 <= s < steps@.len() ==> order@[i as int] <= #[trigger] steps@[s].node,
                forall|x: int, k: nat|
                    i <= x < order@.len() && k < arity(g[order@[x] as int]) ==> #[trigger] scheduled(
                        steps@,
                        order@[x] as int,
                        k,
                    ),
                forall|a: int, b: int|
                    0 <= a < b < steps@.len() ==> goes_before(steps@[a], steps@[b]),
            decreases i,
        {
            i -= 1;
            let m = order[i];
            proof {
                lemma_reach_below(g, root as int, m as int);
            }
            let op = self.node(m);
            let ar = op.arity();
            let ghost outer = steps@;
            proof {
                assert forall|s: int| 0 <= s < outer.len() implies m < #[trigger] outer[s].node by {
                    assert(order@[i as int] < order@[i + 1]);
                }
            }
            let mut k: usize = 0;
            while k < ar
                invariant
                    g == self@,
                    self.wf(),
                    m < g.len(),
                    op == g[m as int],
                    ar == arity(op),
                    k <= ar,
                    reaches(g, root as int, m as int),
                    steps@.len() == outer.len() + k,
                    forall|s: int| 0 <= s < outer.len() ==> steps@[s] == outer[s],
                    forall|s: int| 0 <= s < outer.len() ==> m < #[trigger] outer[s].node,
                    forall|t: int|
                        0 <= t < k ==> #[trigger] steps@[outer.len() + t] == (Edge {
                            node: m,
                            slot: t as usize,
                            operand: operand(op, t as nat),
                        }),
                    forall|a: int, b: int|
                        0 <= a < b < outer.len() ==> goes_before(outer[a], outer[b]),
                    forall|s: int|
                        0 <= s < outer.len() ==> is_edge(g, #[trigger] outer[s]) && reaches(
                            g,
                            root as int,
                            outer[s].node as int,
                        ),
                decreases ar - k,
            {
                let c = op.operand(k);
                steps.push(Edge { node: m, slot: k, operand: c });
                k += 1;
            }
            proof {
                assert forall|s: int| 0 <= s < steps@.len() implies is_edge(
                    g,
                    #[trigger] steps@[s],
                ) && reaches(g, root as int, steps@[s].node as int) by {
                    if s >= outer.len() {
                        let t = s - outer.len();
                        assert(steps@[outer.len() + t] == steps@[s]);
                        assert(steps@[s].slot as nat == t);
                    } else {
                        assert(steps@[s] == outer[s]);
                        assert(is_edge(g, outer[s]));
                    }
                }
                assert forall|a: int, b: int|
                    0 <= a < b < steps@.len() implies goes_before(steps@[a], steps@[b]) by {
                    if b >= outer.len() {
                        let tb = b - outer.len();
                        assert(steps@[outer.len() + tb] == steps@[b]);
                        assert(steps@[b].node == m && steps@[b].slot as int == tb);
                        if a >= outer.len() {
                            let ta = a - outer.len();
                            assert(steps@[outer.len() + ta] == steps@[a]);
                            assert(steps@[a].node == m && steps@[a].slot as int == ta);
                        } else {
                            assert(steps@[a] == outer[a]);
                            assert(m < outer[a].node);
                        }
                    } else {
                        assert(steps@[a] == outer[a]);
                        assert(steps@[b] == outer[b]);
                    }
                }
                assert forall|s: int| 0 <= s < steps@.len() implies order@[i as int]
                    <= #[trigger] steps@[s].node by {
                    if s >= outer.len() {
                        let t = s - outer.len();
                        assert(steps@[outer.len() + t] == steps@[s]);
                    } else {
                        assert(steps@[s] == outer[s]);
                    }
                }
                assert forall|x: int, k: nat|
                    i <= x < order@.len() && k < arity(g[order@[x] as int]) implies #[trigger] scheduled(
                    steps@,
                    order@[x] as int,
                    k,
                ) by {
                    if x == i {
                        let s = outer.len() + (k as int);
                        assert(steps@[outer.len() + (k as int)] == steps@[s]);
                    } else {
                        assert(scheduled(outer, order@[x] as int, k));
                        let s = choose|s: int|
                            0 <= s < outer.len() && outer[s].node == order@[x] && outer[s].slot == k;
                        assert(steps@[s] == outer[s]);
                    }
                }
            }
        }
        proof {
            assert forall|n: int, k: nat|
                reaches(g, root as int, n) && 0 <= n < g.len() && k < arity(g[n]) implies #[trigger] scheduled(
                steps@,
                n,
                k,
            ) by {
                let x = choose|x: int| 0 <= x < order@.len() && order@[x] == n;
                assert(scheduled(steps@, order@[x] as int, k));
            }
        }
        steps
    }
}

/// Some step of `steps` is the contribution of node `m` through its operand
/// slot `k` into node `c`.
pub open spec fn contributes(steps: Seq<Edge>, m: int, k: nat, c: usize) -> bool {
    exists|i: int|
        0 <= i < steps.len() && steps[i] == (Edge { node: m as usize, slot: k as usize, operand: c })
}

/// Fan-out accumulation: in a back-propagation schedule, a node receives one
/// contribution for each use of it as an operand by a node that the root
/// reaches (twice when both operands of one node are the same node), and no
/// use is counted twice.
pub proof fn lemma_one_contribution_per_use(g: Seq<Op>, root: int, steps: Seq<Edge>)
    requires
        is_schedule(g, root, steps),
    ensures
        forall|m: int, k: nat|
            reaches(g, root, m) && 0 <= m < g.len() && k < arity(g[m]) ==> #[trigger] contributes(
                steps,
                m,
                k,
                operand(g[m], k),
            ),
        forall|i: int, j: int|
            0 <= i < steps.len() && 0 <= j < steps.len() && steps[i].node == steps[j].node
                && steps[i].slot == steps[j].slot ==> i == j,
{
    assert forall|m: int, k: nat|
        reaches(g, root, m) && 0 <= m < g.len() && k < arity(g[m]) implies #[trigger] contributes(
        steps,
        m,
        k,
        operand(g[m], k),
    ) by {
        assert(scheduled(steps, m, k));
        let i = choose|i: int| 0 <= i < steps.len() && steps[i].node == m && steps[i].slot == k;
        assert(is_edge(g, steps[i]));
        assert(steps[i] == (Edge { node: m as usize, slot: k as usize, operand: operand(g[m], k) }));
    }
    assert forall|i: int, j: int|
        0 <= i < steps.len() && 0 <= j < steps.len() && steps[i].node == steps[j].node
            && steps[i].slot == steps[j].slot implies i == j by {
        if i < j {
            assert(goes_before(steps[i], steps[j]));
        } else if j < i {
            assert(goes_before(steps[j], steps[i]));
        }
    }
}

/// In a back-propagation schedule every contribution into a node is applied
/// before that node passes its gradient on to its own operands, so the
/// gradient it passes on is the complete sum.
pub proof fn lemma_gradient_complete_before_use(g: Seq<Op>, root: int, steps: Seq<Edge>)
    requires
        acyclic(g),
        is_schedule(g, root, steps),
    ensures
        forall|i: int, j: int|
            0 <= i < steps.len() && 0 <= j < steps.len() && #[trigger] steps[i].operand
                == #[trigger] steps[j].node ==> i < j,
{
    assert forall|i: int, j: int|
        0 <= i < steps.len() && 0 <= j < steps.len() && #[trigger] steps[i].operand
            == #[trigger] steps[j].node implies i < j by {
        let e = steps[i];
        assert(is_edge(g, e));
        assert(crate::graph::operands_below(g[e.node as int], e.node as int));
        assert(e.operand < e.node);
        if j <= i {
            if j < i {
                assert(goes_before(steps[j], steps[i]));
            }
        }
    }
}

} // verus!
