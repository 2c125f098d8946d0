//! The computation-graph core: nodes, operators, topological ordering and
//! the backward (reverse-mode differentiation) engine.
//!
//! Nodes live in an arena (`Graph`); a `Value` is a stable handle whose `id`
//! is the node's index. Operands are always created strictly before the node
//! that uses them, so the graph is acyclic by construction: every operand id
//! is smaller than the id of its user.
use vstd::prelude::*;

use crate::scalar::Real;
use crate::scalar::real_add;
use crate::scalar::real_sub;
use crate::scalar::real_mul;
use crate::scalar::real_pow;
use crate::scalar::real_exp;
use crate::scalar::real_tanh;
use crate::scalar::real_of_int;
use crate::scalar::real_zero;
use crate::scalar::real_one;

verus! {

/// A handle to one node of a `Graph`: the node's id, which is its index in
/// the arena. Handles are compared by id, as the ordering and backward
/// engines require.
#[derive(Clone, Copy, PartialEq, Eq, Structural)]
pub struct Value {
    pub id: usize,
}

/// A plain scalar exponent for the `power` operator. No gradient ever flows
/// into an exponent, so it is not a node.
#[derive(Clone, Copy)]
pub struct Exponent {
    pub value: Real,
}

/// How a node was produced: from which operands, by which operation.
#[derive(Clone, Copy)]
pub enum Operation {
    Addition(Value, Value),
    Multiplication(Value, Value),
    Power(Value, Exponent),
    Tanh(Value),
    Exp(Value),
    Base,
}

/// One node of the computation graph: its id, its forward value (immutable
/// after creation), its gradient accumulator, and its provenance.
#[derive(Clone, Copy)]
pub struct InnerValue {
    pub id: usize,
    pub value: Real,
    pub gradient: Real,
    pub operation: Operation,
}

/// The arena of nodes. A node's id doubles as its index, so ids are unique
/// and monotonically increasing by construction.
pub struct Graph {
    pub nodes: Vec<InnerValue>,
}

/// The operands of an operation, in the fixed left-to-right order in which
/// the topological ordering visits them.
pub open spec fn op_operands(op: Operation) -> Seq<Value> {
    match op {
        Operation::Addition(a, b) => seq![a, b],
        Operation::Multiplication(a, b) => seq![a, b],
        Operation::Power(a, _) => seq![a],
        Operation::Tanh(a) => seq![a],
        Operation::Exp(a) => seq![a],
        Operation::Base => seq![],
    }
}

/// Every operand of a node at index `i` was created strictly earlier.
pub open spec fn op_wf(op: Operation, i: int) -> bool {
    forall|m: int| 0 <= m < op_operands(op).len() ==> (#[trigger] op_operands(op)[m]).id < i
}

/// The forward value an operation must carry, as a function of its operands'
/// values; a leaf carries whatever value it was created with.
pub open spec fn op_forward_ok(g: Seq<InnerValue>, op: Operation, value: Real) -> bool {
    match op {
        Operation::Addition(a, b) => value == real_add(g[a.id as int].value, g[b.id as int].value),
        Operation::Multiplication(a, b) => value == real_mul(
            g[a.id as int].value,
            g[b.id as int].value,
        ),
        Operation::Power(a, k) => value == real_pow(g[a.id as int].value, k.value),
        Operation::Tanh(a) => value == real_tanh(g[a.id as int].value),
        Operation::Exp(a) => value == real_exp(g[a.id as int].value),
        Operation::Base => true,
    }
}

/// Well-formedness of the node at index `i`: its id field is its index, its
/// operands precede it, and its value is the one its operation computes.
pub open spec fn node_wf(g: Seq<InnerValue>, i: int) -> bool {
    &&& g[i].id == i
    &&& op_wf(g[i].operation, i)
    &&& op_forward_ok(g, g[i].operation, g[i].value)
}

/// Well-formedness of a whole node arena.
pub open spec fn graph_wf(g: Seq<InnerValue>) -> bool {
    forall|i: int| 0 <= i < g.len() ==> #[trigger] node_wf(g, i)
}

impl Graph {
    /// The graph invariant every operation establishes and preserves.
    pub open spec fn wf(self) -> bool {
        graph_wf(self.nodes@)
    }

    /// An empty graph, ready for node construction.
    pub fn new() -> (r: Graph)
        ensures
            r.wf(),
            r.nodes@.len() == 0,
    {
        Graph { nodes: Vec::new() }
    }

    /// The number of nodes created so far.
    pub fn len(&self) -> (r: usize)
        ensures
            r == self.nodes@.len(),
    {
        self.nodes.len()
    }

    /// Appends a freshly created node with the given forward value and
    /// provenance; its gradient accumulator starts at zero.
    fn push_node(&mut self, value: Real, op: Operation) -> (r: Value)
        requires
            old(self).wf(),
            op_wf(op, old(self).nodes@.len() as int),
            op_forward_ok(old(self).nodes@, op, value),
        ensures
            final(self).wf(),
            r.id == old(self).nodes@.len(),
            final(self).nodes@ == old(self).nodes@.push(
                (InnerValue {
                    id: r.id,
                    value: value,
                    gradient: real_zero(),
                    operation: op,
                }),
            ),
    {
        let id = self.nodes.len();
        let zero = num_bigfloat::BigFloat::from_i64(0);
        self.nodes.push(InnerValue { id, value, gradient: zero, operation: op });
        proof {
            let g1 = old(self).nodes@;
            let g2 = self.nodes@;
            assert forall|i: int| 0 <= i < g2.len() implies #[trigger] node_wf(g2, i) by {
                if i < g1.len() {
                    assert(node_wf(g1, i));
                    lemma_node_preds_extend(g1, g2, i);
                } else {
                    assert(g2[i] == (InnerValue {
                        id: id,
                        value: value,
                        gradient: real_zero(),
                        operation: op,
                    }));
                    lemma_forward_ok_extend(g1, g2, op, value, i);
                }
            }
        }
        Value { id }
    }
}

/// `op_forward_ok` only reads the values of the operation's operands, all at
/// indices below `i`; so it carries over to any graph that agrees there.
proof fn lemma_forward_ok_extend(
    g1: Seq<InnerValue>,
    g2: Seq<InnerValue>,
    op: Operation,
    value: Real,
    i: int,
)
    requires
        0 <= i <= g1.len(),
        g1.len() <= g2.len(),
        forall|j: int| 0 <= j < g1.len() ==> (#[trigger] g2[j]).value == g1[j].value,
        op_wf(op, i),
        op_forward_ok(g1, op, value),
    ensures
        op_forward_ok(g2, op, value),
{
    match op {
        Operation::Addition(a, b) => {
            assert(op_operands(op)[0] == a);
            assert(op_operands(op)[1] == b);
        },
        Operation::Multiplication(a, b) => {
            assert(op_operands(op)[0] == a);
            assert(op_operands(op)[1] == b);
        },
        Operation::Power(a, _) => {
            assert(op_operands(op)[0] == a);
        },
        Operation::Tanh(a) => {
            assert(op_operands(op)[0] == a);
        },
        Operation::Exp(a) => {
            assert(op_operands(op)[0] == a);
        },
        Operation::Base => {},
    }
}

/// Node predicates only read a node's operands, which precede it; so a node
/// well-formed in a graph stays well-formed in any extension of that graph.
proof fn lemma_node_preds_extend(g1: Seq<InnerValue>, g2: Seq<InnerValue>, i: int)
    requires
        0 <= i < g1.len(),
        g1.len() <= g2.len(),
        forall|j: int| 0 <= j < g1.len() ==> g2[j] == g1[j],
        node_wf(g1, i),
    ensures
        node_wf(g2, i),
{
    assert(g2[i] == g1[i]);
    assert forall|m: int| 0 <= m < op_operands(g2[i].operation).len() implies (
    #[trigger] op_operands(g2[i].operation)[m]).id < i by {
        assert(op_operands(g1[i].operation)[m].id < i);
    }
    lemma_forward_ok_extend(g1, g2, g1[i].operation, g1[i].value, i);
}

/// The three nodes `sub` appends to `g`: a `-1` leaf, the product of that
/// leaf with `b`, and the sum of `a` with the product.
pub open spec fn sub_nodes(g: Seq<InnerValue>, a: Value, b: Value) -> Seq<InnerValue> {
    let minus_one = Value { id: g.len() as usize };
    let negated = Value { id: (g.len() + 1) as usize };
    g.push(
        InnerValue {
            id: g.len() as usize,
            value: real_of_int(-1),
            gradient: real_zero(),
            operation: Operation::Base,
        },
    ).push(
        InnerValue {
            id: (g.len() + 1) as usize,
            value: real_mul(real_of_int(-1), g[b.id as int].value),
            gradient: real_zero(),
            operation: Operation::Multiplication(minus_one, b),
        },
    ).push(
        InnerValue {
            id: (g.len() + 2) as usize,
            value: real_add(g[a.id as int].value, real_mul(real_of_int(-1), g[b.id as int].value)),
            gradient: real_zero(),
            operation: Operation::Addition(a, negated),
        },
    )
}

/// The two nodes `div` appends to `g`: `b` raised to the power `-1`, and the
/// product of `a` with that reciprocal.
pub open spec fn div_nodes(g: Seq<InnerValue>, a: Value, b: Value) -> Seq<InnerValue> {
    let inverse = Value { id: g.len() as usize };
    g.push(
        InnerValue {
            id: g.len() as usize,
            value: real_pow(g[b.id as int].value, real_of_int(-1)),
            gradient: real_zero(),
            operation: Operation::Power(b, Exponent { value: real_of_int(-1) }),
        },
    ).push(
        InnerValue {
            id: (g.len() + 1) as usize,
            value: real_mul(
                g[a.id as int].value,
                real_pow(g[b.id as int].value, real_of_int(-1)),
            ),
            gradient: real_zero(),
            operation: Operation::Multiplication(a, inverse),
        },
    )
}

/// Raising a node to a plain scalar power.
pub trait Power {
    type Output;

    /// What the operation asks of its inputs.
    spec fn power_req(self, graph: Graph) -> bool;

    /// What the operation guarantees of the graph and its result.
    spec fn power_ens(self, old_graph: Graph, new_graph: Graph, other: Exponent, r: Self::Output) -> bool;

    /// Returns a fresh node recording `self` raised to the power `other`,
    /// with the eagerly computed forward value. The exponent is a plain
    /// scalar, not a node: no gradient flows into it.
    fn power(self, graph: &mut Graph, other: Exponent) -> (r: Self::Output)
        requires
            self.power_req(*old(graph)),
        ensures
            self.power_ens(*old(graph), *final(graph), other, r),
    ;
}

impl Power for Value {
    type Output = Value;

    open spec fn power_req(self, graph: Graph) -> bool {
        &&& graph.wf()
        &&& self.id < graph.nodes@.len()
    }

    open spec fn power_ens(self, old_graph: Graph, new_graph: Graph, other: Exponent, r: Value) -> bool {
        &&& new_graph.wf()
        &&& r.id == old_graph.nodes@.len()
        &&& new_graph.nodes@ == old_graph.nodes@.push(
            (InnerValue {
                id: r.id,
                value: real_pow(old_graph.nodes@[self.id as int].value, other.value),
                gradient: real_zero(),
                operation: Operation::Power(self, other),
            }),
        )
    }

    fn power(self, graph: &mut Graph, other: Exponent) -> (r: Value) {
        let v = graph.nodes[self.id].value.pow(&other.value);
        let op = Operation::Power(self, other);
        proof {
            assert(op_operands(op)[0] == self);
        }
        graph.push_node(v, op)
    }
}

/// Raising `e` to a node.
pub trait Exp {
    type Output;

    /// What the operation asks of its inputs.
    spec fn exp_req(self, graph: Graph) -> bool;

    /// What the operation guarantees of the graph and its result.
    spec fn exp_ens(self, old_graph: Graph, new_graph: Graph, r: Self::Output) -> bool;

    /// Returns a fresh node recording `e` raised to `self`, with the eagerly
    /// computed forward value.
    fn exp(self, graph: &mut Graph) -> (r: Self::Output)
        requires
            self.exp_req(*old(graph)),
        ensures
            self.exp_ens(*old(graph), *final(graph), r),
    ;
}

impl Exp for Value {
    type Output = Value;

    open spec fn exp_req(self, graph: Graph) -> bool {
        &&& graph.wf()
        &&& self.id < graph.nodes@.len()
    }

    open spec fn exp_ens(self, old_graph: Graph, new_graph: Graph, r: Value) -> bool {
        &&& new_graph.wf()
        &&& r.id == old_graph.nodes@.len()
        &&& new_graph.nodes@ == old_graph.nodes@.push(
            (InnerValue {
                id: r.id,
                value: real_exp(old_graph.nodes@[self.id as int].value),
                gradient: real_zero(),
                operation: Operation::Exp(self),
            }),
        )
    }

    fn exp(self, graph: &mut Graph) -> (r: Value) {
        let v = crate::scalar::exp_scalar(&graph.nodes[self.id].value);
        let op = Operation::Exp(self);
        proof {
            assert(op_operands(op)[0] == self);
        }
        graph.push_node(v, op)
    }
}

/// The all-unvisited state a traversal of `g` starts from.
pub open spec fn no_seen(g: Seq<InnerValue>) -> Seq<bool> {
    Seq::new(g.len(), |i: int| false)
}

/// Whether node `w` is reachable from node `v` through operand references
/// (including `w == v`). Well-founded because operands strictly precede
/// their users.
pub open spec fn reaches(g: Seq<InnerValue>, v: int, w: int) -> bool
    decreases v,
    when 0 <= v < g.len() && graph_wf(g)
    via reaches_via
{
    v == w || exists|m: int|
        0 <= m < op_operands(g[v].operation).len() && reaches(
            g,
            (#[trigger] op_operands(g[v].operation)[m]).id as int,
            w,
        )
}

#[via_fn]
proof fn reaches_via(g: Seq<InnerValue>, v: int, w: int) {
    assert(node_wf(g, v));
}

/// One step of the depth-first traversal that yields the topological
/// ordering, on a state of (visited flags, emitted post-order). A node
/// already visited contributes nothing; otherwise it is marked, its operands
/// are traversed left to right, and it is appended after them.
pub open spec fn dfs(g: Seq<InnerValue>, v: int, st: (Seq<bool>, Seq<Value>)) -> (Seq<
    bool,
>, Seq<Value>)
    decreases v,
    when 0 <= v < g.len() && graph_wf(g)
    via dfs_via
{
    if st.0[v] {
        st
    } else {
        let st1 = (st.0.update(v, true), st.1);
        let st2 = match g[v].operation {
            Operation::Addition(a, b) => dfs(g, b.id as int, dfs(g, a.id as int, st1)),
            Operation::Multiplication(a, b) => dfs(g, b.id as int, dfs(g, a.id as int, st1)),
            Operation::Power(a, _) => dfs(g, a.id as int, st1),
            Operation::Tanh(a) => dfs(g, a.id as int, st1),
            Operation::Exp(a) => dfs(g, a.id as int, st1),
            Operation::Base => st1,
        };
        (st2.0, st2.1.push(Value { id: v as usize }))
    }
}

#[via_fn]
proof fn dfs_via(g: Seq<InnerValue>, v: int, st: (Seq<bool>, Seq<Value>)) {
    if 0 <= v < g.len() && graph_wf(g) {
        assert(node_wf(g, v));
        match g[v].operation {
            Operation::Addition(a, b) => {
                assert(op_operands(g[v].operation)[0] == a);
                assert(op_operands(g[v].operation)[1] == b);
            },
            Operation::Multiplication(a, b) => {
                assert(op_operands(g[v].operation)[0] == a);
                assert(op_operands(g[v].operation)[1] == b);
            },
            Operation::Power(a, _) => {
                assert(op_operands(g[v].operation)[0] == a);
            },
            Operation::Tanh(a) => {
                assert(op_operands(g[v].operation)[0] == a);
            },
            Operation::Exp(a) => {
                assert(op_operands(g[v].operation)[0] == a);
            },
            Operation::Base => {},
        }
    }
}

/// Whether some element of `s` carries id `w`.
pub open spec fn contains_id(s: Seq<Value>, w: int) -> bool {
    exists|j: int| 0 <= j < s.len() && (#[trigger] s[j]).id == w
}

/// A node marked visited whose post-order entry has not been emitted yet:
/// one whose depth-first traversal is still in progress.
pub open spec fn gray(st: (Seq<bool>, Seq<Value>), w: int) -> bool {
    st.0[w] && !contains_id(st.1, w)
}

/// The operand `m` of the node emitted at position `k` was itself emitted at
/// some strictly earlier position: the defining property of a topological
/// order.
pub open spec fn emitted_before(g: Seq<InnerValue>, s: Seq<Value>, k: int, m: int) -> bool {
    exists|j: int|
        0 <= j < k && (#[trigger] s[j]).id == op_operands(g[s[k].id as int].operation)[m].id
}

/// The invariant of a traversal state: emitted nodes are valid and marked,
/// none is emitted twice, and every emitted node follows all its operands.
pub open spec fn st_inv(g: Seq<InnerValue>, st: (Seq<bool>, Seq<Value>)) -> bool {
    &&& st.0.len() == g.len()
    &&& forall|k: int|
        0 <= k < st.1.len() ==> (#[trigger] st.1[k]).id < g.len() && st.0[st.1[k].id as int]
    &&& forall|k1: int, k2: int|
        0 <= k1 < k2 < st.1.len() ==> (#[trigger] st.1[k1]).id != (#[trigger] st.1[k2]).id
    &&& forall|k: int, m: int|
        0 <= k < st.1.len() && 0 <= m < op_operands(g[st.1[k].id as int].operation).len()
            ==> #[trigger] emitted_before(g, st.1, k, m)
}

/// A sequence that begins with `s1` contains every id `s1` contains.
proof fn lemma_contains_prefix(s1: Seq<Value>, s2: Seq<Value>, w: int)
    requires
        s2.len() >= s1.len(),
        s2.take(s1.len() as int) == s1,
        contains_id(s1, w),
    ensures
        contains_id(s2, w),
{
    let j = choose|j: int| 0 <= j < s1.len() && (#[trigger] s1[j]).id == w;
    assert(s2.take(s1.len() as int)[j] == s2[j]);
    assert((#[trigger] s2[j]).id == w);
}

/// An emitted node's whole reachable set is emitted: the emitted sequence is
/// closed under operand references.
proof fn lemma_emitted_closed(g: Seq<InnerValue>, st: (Seq<bool>, Seq<Value>), v: int, w: int)
    requires
        graph_wf(g),
        st_inv(g, st),
        0 <= v < g.len(),
        contains_id(st.1, v),
        reaches(g, v, w),
    ensures
        contains_id(st.1, w),
    decreases v,
{
    assert(node_wf(g, v));
    if w != v {
        let m = choose|m: int|
            0 <= m < op_operands(g[v].operation).len() && reaches(
                g,
                (#[trigger] op_operands(g[v].operation)[m]).id as int,
                w,
            );
        let a = op_operands(g[v].operation)[m];
        let k = choose|k: int| 0 <= k < st.1.len() && (#[trigger] st.1[k]).id == v;
        assert(emitted_before(g, st.1, k, m));
        let j = choose|j: int|
            0 <= j < k && (#[trigger] st.1[j]).id == op_operands(
                g[st.1[k].id as int].operation,
            )[m].id;
        assert(contains_id(st.1, a.id as int));
        lemma_emitted_closed(g, st, a.id as int, w);
    }
}

/// Descending into one operand `a` of the in-progress node `v`: the child
/// traversal preserves the invariant, emits `a`, and everything it emits is
/// reachable from `v`.
proof fn lemma_dfs_one_child(
    g: Seq<InnerValue>,
    v: int,
    st1: (Seq<bool>, Seq<Value>),
    a: Value,
) -> (stc: (Seq<bool>, Seq<Value>))
    requires
        graph_wf(g),
        0 <= v < g.len(),
        st_inv(g, st1),
        a.id < v,
        contains_id(op_operands(g[v].operation), a.id as int),
        forall|w: int| 0 <= w < g.len() && gray(st1, w) ==> w >= v,
    ensures
        stc == dfs(g, a.id as int, st1),
        st_inv(g, stc),
        stc.1.len() >= st1.1.len(),
        stc.1.take(st1.1.len() as int) == st1.1,
        forall|w: int| 0 <= w < g.len() && st1.0[w] ==> stc.0[w],
        forall|w: int| 0 <= w < g.len() ==> (gray(stc, w) <==> gray(st1, w)),
        contains_id(stc.1, a.id as int),
        forall|k: int|
            st1.1.len() <= k < stc.1.len() ==> reaches(g, v, (#[trigger] stc.1[k]).id as int),
        forall|w: int| 0 <= w < g.len() && reaches(g, a.id as int, w) ==> stc.0[w],
    decreases v, 0int,
{
    assert(node_wf(g, v));
    lemma_dfs(g, a.id as int, st1);
    let stc = dfs(g, a.id as int, st1);
    let m = choose|m: int|
        0 <= m < op_operands(g[v].operation).len() && (#[trigger] op_operands(
            g[v].operation,
        )[m]).id == a.id as int;
    assert forall|k: int|
        st1.1.len() <= k < stc.1.len() implies reaches(
        g,
        v,
        (#[trigger] stc.1[k]).id as int,
    ) by {
        assert(reaches(g, a.id as int, stc.1[k].id as int));
    }
    stc
}

/// Descending into both operands of the in-progress node `v`, left first.
proof fn lemma_dfs_two_children(
    g: Seq<InnerValue>,
    v: int,
    st1: (Seq<bool>, Seq<Value>),
    a: Value,
    b: Value,
) -> (stc: (Seq<bool>, Seq<Value>))
    requires
        graph_wf(g),
        0 <= v < g.len(),
        st_inv(g, st1),
        a.id < v,
        b.id < v,
        contains_id(op_operands(g[v].operation), a.id as int),
        contains_id(op_operands(g[v].operation), b.id as int),
        forall|w: int| 0 <= w < g.len() && gray(st1, w) ==> w >= v,
    ensures
        stc == dfs(g, b.id as int, dfs(g, a.id as int, st1)),
        st_inv(g, stc),
        stc.1.len() >= st1.1.len(),
        stc.1.take(st1.1.len() as int) == st1.1,
        forall|w: int| 0 <= w < g.len() && st1.0[w] ==> stc.0[w],
        forall|w: int| 0 <= w < g.len() ==> (gray(stc, w) <==> gray(st1, w)),
        contains_id(stc.1, a.id as int),
        contains_id(stc.1, b.id as int),
        forall|k: int|
            st1.1.len() <= k < stc.1.len() ==> reaches(g, v, (#[trigger] stc.1[k]).id as int),
        forall|w: int|
            0 <= w < g.len() && (reaches(g, a.id as int, w) || reaches(g, b.id as int, w))
                ==> stc.0[w],
    decreases v, 1int,
{
    let sta = lemma_dfs_one_child(g, v, st1, a);
    let stc = lemma_dfs_one_child(g, v, sta, b);
    lemma_contains_prefix(sta.1, stc.1, a.id as int);
    assert(stc.1.take(st1.1.len() as int) =~= st1.1) by {
        assert forall|i: int| 0 <= i < st1.1.len() implies stc.1.take(st1.1.len() as int)[i]
            == st1.1[i] by {
            assert(stc.1.take(sta.1.len() as int)[i] == stc.1[i]);
            assert(sta.1.take(st1.1.len() as int)[i] == sta.1[i]);
        }
    }
    assert forall|k: int|
        st1.1.len() <= k < stc.1.len() implies reaches(g, v, (#[trigger] stc.1[k]).id as int) by {
        if k < sta.1.len() {
            assert(stc.1.take(sta.1.len() as int)[k] == stc.1[k]);
            assert(reaches(g, v, sta.1[k].id as int));
        }
    }
    stc
}

/// Appending the in-progress node `v` behind its fully traversed operands
/// completes the depth-first step: the invariant holds again, `v` is no
/// longer in progress, and nothing else changed status.
proof fn lemma_dfs_finish(
    g: Seq<InnerValue>,
    v: int,
    st: (Seq<bool>, Seq<Value>),
    stc: (Seq<bool>, Seq<Value>),
)
    requires
        graph_wf(g),
        0 <= v < g.len(),
        st.0.len() == g.len(),
        !st.0[v],
        st_inv(g, stc),
        stc.1.len() >= st.1.len(),
        stc.1.take(st.1.len() as int) == st.1,
        forall|w: int| 0 <= w < g.len() && st.0[w] ==> stc.0[w],
        stc.0[v],
        gray(stc, v),
        forall|w: int| 0 <= w < g.len() && w != v ==> (gray(stc, w) <==> gray(st, w)),
        forall|m: int|
            0 <= m < op_operands(g[v].operation).len() ==> contains_id(
                stc.1,
                (#[trigger] op_operands(g[v].operation)[m]).id as int,
            ),
        forall|k: int|
            st.1.len() <= k < stc.1.len() ==> reaches(g, v, (#[trigger] stc.1[k]).id as int),
        forall|w: int| 0 <= w < g.len() && reaches(g, v, w) ==> stc.0[w],
    ensures
        ({
            let st2 = (stc.0, stc.1.push(Value { id: v as usize }));
            &&& st_inv(g, st2)
            &&& st2.1.len() >= st.1.len()
            &&& st2.1.take(st.1.len() as int) == st.1
            &&& forall|w: int| 0 <= w < g.len() && st.0[w] ==> st2.0[w]
            &&& forall|w: int| 0 <= w < g.len() ==> (gray(st2, w) <==> gray(st, w))
            &&& st2.0[v]
            &&& contains_id(st2.1, v)
            &&& forall|k: int|
                st.1.len() <= k < st2.1.len() ==> reaches(g, v, (#[trigger] st2.1[k]).id as int)
            &&& forall|w: int| 0 <= w < g.len() && reaches(g, v, w) ==> st2.0[w]
            &&& (!st.0[v] ==> st2.1.len() > st.1.len() && st2.1.last() == (Value {
                id: v as usize,
            }))
        }),
{
    assert(node_wf(g, v));
    let st2 = (stc.0, stc.1.push(Value { id: v as usize }));
    let n2 = st2.1.len() - 1;
    assert(st2.1[n2].id == v);
    assert(forall|k: int| 0 <= k < stc.1.len() ==> st2.1[k] == stc.1[k]);
    // the invariant, clause by clause
    assert forall|k1: int, k2: int| 0 <= k1 < k2 < st2.1.len() implies (#[trigger] st2.1[k1]).id
        != (#[trigger] st2.1[k2]).id by {
        if k2 == n2 {
            assert(!contains_id(stc.1, v));
            assert(stc.1[k1].id != v);
        }
    }
    assert forall|k: int, m: int|
        0 <= k < st2.1.len() && 0 <= m < op_operands(g[st2.1[k].id as int].operation).len()
        implies #[trigger] emitted_before(g, st2.1, k, m) by {
        if k == n2 {
            let p = op_operands(g[v].operation)[m];
            assert(contains_id(stc.1, p.id as int));
            let j = choose|j: int| 0 <= j < stc.1.len() && (#[trigger] stc.1[j]).id == p.id as int;
            assert(st2.1[j].id == op_operands(g[st2.1[k].id as int].operation)[m].id);
        } else {
            assert(emitted_before(g, stc.1, k, m));
            let j = choose|j: int|
                0 <= j < k && (#[trigger] stc.1[j]).id == op_operands(
                    g[stc.1[k].id as int].operation,
                )[m].id;
            assert(st2.1[j].id == op_operands(g[st2.1[k].id as int].operation)[m].id);
        }
    }
    assert(st_inv(g, st2));
    // appending and status changes
    assert(st2.1.take(st.1.len() as int) =~= st.1) by {
        assert forall|i: int| 0 <= i < st.1.len() implies st2.1.take(st.1.len() as int)[i]
            == st.1[i] by {
            assert(stc.1.take(st.1.len() as int)[i] == stc.1[i]);
        }
    }
    assert(contains_id(st2.1, v));
    assert forall|w: int| 0 <= w < g.len() implies (gray(st2, w) <==> gray(st, w)) by {
        if w == v {
            assert(st2.1[n2].id == v);
            assert(contains_id(st2.1, v));
            assert(!gray(st2, v));
            assert(!gray(st, v));
        } else {
            assert(contains_id(st2.1, w) <==> contains_id(stc.1, w)) by {
                if contains_id(st2.1, w) {
                    let j = choose|j: int|
                        0 <= j < st2.1.len() && (#[trigger] st2.1[j]).id == w;
                    assert(j < stc.1.len());
                    assert(stc.1[j].id == w);
                }
                if contains_id(stc.1, w) {
                    let j = choose|j: int|
                        0 <= j < stc.1.len() && (#[trigger] stc.1[j]).id == w;
                    assert(st2.1[j].id == w);
                }
            }
        }
    }
    assert forall|k: int| st.1.len() <= k < st2.1.len() implies reaches(
        g,
        v,
        (#[trigger] st2.1[k]).id as int,
    ) by {
        if k < stc.1.len() {
            assert(st2.1[k] == stc.1[k]);
        } else {
            assert(st2.1[k].id == v);
        }
    }
}

/// The one depth-first step `dfs(g, v, st)` preserves the traversal
/// invariant, only appends to the emitted sequence, only marks new nodes,
/// creates no new in-progress node, emits exactly the not-yet-visited nodes
/// reachable from `v`, and leaves `v` itself both marked and emitted.
proof fn lemma_dfs(g: Seq<InnerValue>, v: int, st: (Seq<bool>, Seq<Value>))
    requires
        graph_wf(g),
        0 <= v < g.len(),
        st_inv(g, st),
        forall|w: int| 0 <= w < g.len() && gray(st, w) ==> w > v,
    ensures
        ({
            let st2 = dfs(g, v, st);
            &&& st_inv(g, st2)
            &&& st2.1.len() >= st.1.len()
            &&& st2.1.take(st.1.len() as int) == st.1
            &&& forall|w: int| 0 <= w < g.len() && st.0[w] ==> st2.0[w]
            &&& forall|w: int| 0 <= w < g.len() ==> (gray(st2, w) <==> gray(st, w))
            &&& st2.0[v]
            &&& contains_id(st2.1, v)
            &&& forall|k: int|
                st.1.len() <= k < st2.1.len() ==> reaches(g, v, (#[trigger] st2.1[k]).id as int)
            &&& forall|w: int| 0 <= w < g.len() && reaches(g, v, w) ==> st2.0[w]
            &&& (!st.0[v] ==> st2.1.len() > st.1.len() && st2.1.last() == (Value {
                id: v as usize,
            }))
        }),
    decreases v, 3int,
{
    assert(node_wf(g, v));
    let st2 = dfs(g, v, st);
    if st.0[v] {
        assert(st2 == st);
        assert(!gray(st, v));
        assert(contains_id(st.1, v));
        assert(st2.1.take(st.1.len() as int) =~= st.1);
        assert forall|w: int| 0 <= w < g.len() && reaches(g, v, w) implies st2.0[w] by {
            lemma_emitted_closed(g, st, v, w);
            let j = choose|j: int| 0 <= j < st.1.len() && (#[trigger] st.1[j]).id == w;
        }
    } else {
        let st1 = (st.0.update(v, true), st.1);
        assert(st_inv(g, st1));
        assert(gray(st1, v));
        assert(forall|w: int| 0 <= w < g.len() && w != v ==> (gray(st1, w) <==> gray(st, w)));
        match g[v].operation {
            Operation::Addition(a, b) => {
                lemma_dfs_inner_two(g, v, st, st1, a, b);
            },
            Operation::Multiplication(a, b) => {
                lemma_dfs_inner_two(g, v, st, st1, a, b);
            },
            Operation::Power(a, _) => {
                lemma_dfs_inner_one(g, v, st, st1, a);
            },
            Operation::Tanh(a) => {
                lemma_dfs_inner_one(g, v, st, st1, a);
            },
            Operation::Exp(a) => {
                lemma_dfs_inner_one(g, v, st, st1, a);
            },
            Operation::Base => {
                let stc = st1;
                assert(stc.1.take(st.1.len() as int) =~= st.1);
                assert(op_operands(g[v].operation).len() == 0);
                assert forall|w: int| 0 <= w < g.len() && reaches(g, v, w) implies stc.0[w] by {
                    assert(w == v);
                }
                lemma_dfs_finish(g, v, st, stc);
                assert(st2 == (stc.0, stc.1.push(Value { id: v as usize })));
            },
        };
    }
}

/// The unvisited-node case of `lemma_dfs` for a node with two operands.
proof fn lemma_dfs_inner_two(
    g: Seq<InnerValue>,
    v: int,
    st: (Seq<bool>, Seq<Value>),
    st1: (Seq<bool>, Seq<Value>),
    a: Value,
    b: Value,
)
    requires
        graph_wf(g),
        0 <= v < g.len(),
        st_inv(g, st),
        !st.0[v],
        st1 == (st.0.update(v, true), st.1),
        g[v].operation == Operation::Addition(a, b) || g[v].operation
            == Operation::Multiplication(a, b),
        forall|w: int| 0 <= w < g.len() && gray(st, w) ==> w > v,
    ensures
        ({
            let st2 = dfs(g, v, st);
            &&& st_inv(g, st2)
            &&& st2.1.len() >= st.1.len()
            &&& st2.1.take(st.1.len() as int) == st.1
            &&& forall|w: int| 0 <= w < g.len() && st.0[w] ==> st2.0[w]
            &&& forall|w: int| 0 <= w < g.len() ==> (gray(st2, w) <==> gray(st, w))
            &&& st2.0[v]
            &&& contains_id(st2.1, v)
            &&& forall|k: int|
                st.1.len() <= k < st2.1.len() ==> reaches(g, v, (#[trigger] st2.1[k]).id as int)
            &&& forall|w: int| 0 <= w < g.len() && reaches(g, v, w) ==> st2.0[w]
            &&& (!st.0[v] ==> st2.1.len() > st.1.len() && st2.1.last() == (Value {
                id: v as usize,
            }))
        }),
    decreases v, 2int,
{
    assert(node_wf(g, v));
    assert(op_operands(g[v].operation)[0] == a);
    assert(op_operands(g[v].operation)[1] == b);
    assert(st_inv(g, st1));
    assert(gray(st1, v));
    assert(forall|w: int| 0 <= w < g.len() && w != v ==> (gray(st1, w) <==> gray(st, w)));
    let st2 = dfs(g, v, st);
    let stc = lemma_dfs_two_children(g, v, st1, a, b);
    assert forall|m: int| 0 <= m < op_operands(g[v].operation).len() implies contains_id(
        stc.1,
        (#[trigger] op_operands(g[v].operation)[m]).id as int,
    ) by {
        if m == 0 {
            assert(op_operands(g[v].operation)[m] == a);
        } else {
            assert(op_operands(g[v].operation)[m] == b);
        }
    }
    assert forall|w: int| 0 <= w < g.len() && reaches(g, v, w) implies stc.0[w] by {
        if w != v {
            let m = choose|m: int|
                0 <= m < op_operands(g[v].operation).len() && reaches(
                    g,
                    (#[trigger] op_operands(g[v].operation)[m]).id as int,
                    w,
                );
            if m == 0 {
                assert(reaches(g, a.id as int, w));
            } else {
                assert(reaches(g, b.id as int, w));
            }
        }
    }
    lemma_dfs_finish(g, v, st, stc);
    assert(st2 == (stc.0, stc.1.push(Value { id: v as usize })));
}

/// The unvisited-node case of `lemma_dfs` for a node with one operand.
proof fn lemma_dfs_inner_one(
    g: Seq<InnerValue>,
    v: int,
    st: (Seq<bool>, Seq<Value>),
    st1: (Seq<bool>, Seq<Value>),
    a: Value,
)
    requires
        graph_wf(g),
        0 <= v < g.len(),
        st_inv(g, st),
        !st.0[v],
        st1 == (st.0.update(v, true), st.1),
        op_operands(g[v].operation) == seq![a],
        forall|w: int| 0 <= w < g.len() && gray(st, w) ==> w > v,
    ensures
        ({
            let st2 = dfs(g, v, st);
            &&& st_inv(g, st2)
            &&& st2.1.len() >= st.1.len()
            &&& st2.1.take(st.1.len() as int) == st.1
            &&& forall|w: int| 0 <= w < g.len() && st.0[w] ==> st2.0[w]
            &&& forall|w: int| 0 <= w < g.len() ==> (gray(st2, w) <==> gray(st, w))
            &&& st2.0[v]
            &&& contains_id(st2.1, v)
            &&& forall|k: int|
                st.1.len() <= k < st2.1.len() ==> reaches(g, v, (#[trigger] st2.1[k]).id as int)
            &&& forall|w: int| 0 <= w < g.len() && reaches(g, v, w) ==> st2.0[w]
            &&& (!st.0[v] ==> st2.1.len() > st.1.len() && st2.1.last() == (Value {
                id: v as usize,
            }))
        }),
    decreases v, 2int,
{
    assert(node_wf(g, v));
    assert(op_operands(g[v].operation)[0] == a);
    assert(st_inv(g, st1));
    assert(gray(st1, v));
    assert(forall|w: int| 0 <= w < g.len() && w != v ==> (gray(st1, w) <==> gray(st, w)));
    let st2 = dfs(g, v, st);
    let stc = lemma_dfs_one_child(g, v, st1, a);
    assert forall|m: int| 0 <= m < op_operands(g[v].operation).len() implies contains_id(
        stc.1,
        (#[trigger] op_operands(g[v].operation)[m]).id as int,
    ) by {
        assert(op_operands(g[v].operation)[m] == a);
    }
    assert forall|w: int| 0 <= w < g.len() && reaches(g, v, w) implies stc.0[w] by {
        if w != v {
            let m = choose|m: int|
                0 <= m < op_operands(g[v].operation).len() && reaches(
                    g,
                    (#[trigger] op_operands(g[v].operation)[m]).id as int,
                    w,
                );
            assert(reaches(g, a.id as int, w));
        }
    }
    lemma_dfs_finish(g, v, st, stc);
    assert(st2 == (stc.0, stc.1.push(Value { id: v as usize })));
}
/// unchanged. This is the only way the backward pass writes a gradient,
/// apart from the root's one-time seed.
pub open spec fn accum(g: Seq<InnerValue>, i: int, c: Real) -> Seq<InnerValue> {
    g.update(i, InnerValue { gradient: real_add(g[i].gradient, c), ..g[i] })
}

/// One application of a node's local differentiation rule: with `gr` the
/// node's own accumulated gradient, each operand's gradient accumulates the
/// chain-rule contribution through this node. Leaves propagate nothing.
pub open spec fn backward_step(g: Seq<InnerValue>, v: int) -> Seq<InnerValue> {
    let gr = g[v].gradient;
    match g[v].operation {
        Operation::Addition(a, b) => accum(accum(g, a.id as int, gr), b.id as int, gr),
        Operation::Multiplication(a, b) => accum(
            accum(g, a.id as int, real_mul(g[b.id as int].value, gr)),
            b.id as int,
            real_mul(g[a.id as int].value, gr),
        ),
        Operation::Power(a, k) => accum(
            g,
            a.id as int,
            real_mul(
                real_mul(k.value, real_pow(g[a.id as int].value, real_sub(k.value, real_one()))),
                gr,
            ),
        ),
        Operation::Exp(a) => accum(g, a.id as int, real_mul(g[v].value, gr)),
        Operation::Tanh(a) => accum(
            g,
            a.id as int,
            real_mul(real_sub(real_one(), real_mul(g[v].value, g[v].value)), gr),
        ),
        Operation::Base => g,
    }
}

/// The local rules applied along `ord` from its last element to its first:
/// the reverse of the topological ordering, root first, leaves last.
pub open spec fn apply_back(g: Seq<InnerValue>, ord: Seq<Value>) -> Seq<InnerValue>
    decreases ord.len(),
{
    if ord.len() == 0 {
        g
    } else {
        apply_back(backward_step(g, ord.last().id as int), ord.drop_last())
    }
}

/// The root's gradient overwritten with one: the seed of the chain rule, and
/// the only gradient write that is not an accumulation.
pub open spec fn seed(g: Seq<InnerValue>, root: int) -> Seq<InnerValue> {
    g.update(root, InnerValue { gradient: real_one(), ..g[root] })
}

/// What a whole backward pass from `root` does to the node arena: seed the
/// root's gradient, then consume the topological ordering in reverse,
/// accumulating each node's local rule into its operands' gradients.
pub open spec fn backward_spec(g: Seq<InnerValue>, root: int) -> Seq<InnerValue> {
    apply_back(seed(g, root), dfs(g, root, (no_seen(g), Seq::<Value>::empty())).1)
}

/// Changes that touch only gradients preserve well-formedness: ids,
/// operations and forward values are what it speaks of.
proof fn lemma_wf_gradients_only(g1: Seq<InnerValue>, g2: Seq<InnerValue>)
    requires
        g1.len() == g2.len(),
        forall|j: int|
            0 <= j < g1.len() ==> (#[trigger] g2[j]).id == g1[j].id && g2[j].operation
                == g1[j].operation && g2[j].value == g1[j].value,
        graph_wf(g1),
    ensures
        graph_wf(g2),
{
    assert forall|i: int| 0 <= i < g2.len() implies #[trigger] node_wf(g2, i) by {
        assert(node_wf(g1, i));
        lemma_forward_ok_extend(g1, g2, g1[i].operation, g1[i].value, i);
    }
}

impl Graph {
    /// Accumulates `c` into the gradient of node `i`: an addition into the
    /// accumulator, never an overwrite.
    fn accum_gradient(&mut self, i: usize, c: Real)
        requires
            i < old(self).nodes@.len(),
        ensures
            final(self).nodes@ == accum(old(self).nodes@, i as int, c),
    {
        let n = self.nodes[i];
        self.nodes[i] = InnerValue { gradient: n.gradient.add(&c), ..n };
        proof {
            assert(self.nodes@ =~= accum(old(self).nodes@, i as int, c));
        }
    }
}

impl Value {
    /// Runs one backward pass with `self` as the root: seeds the root's
    /// gradient with one (the only overwrite), then walks the topological
    /// ordering in reverse, accumulating each node's local rule into its
    /// operands' gradients. Afterwards every ancestor's `gradient` holds its
    /// accumulated partial derivative of the root; gradients are not reset
    /// first, so repeated passes compound, as the caller's responsibility.
    pub fn backwards(self, graph: &mut Graph)
        requires
            old(graph).wf(),
            self.id < old(graph).nodes@.len(),
        ensures
            final(graph).wf(),
            final(graph).nodes@ == backward_spec(old(graph).nodes@, self.id as int),
    {
        let ghost g0 = graph.nodes@;
        let ord = self.order(graph);
        let ghost ord_seq = ord@;
        let root_node = graph.nodes[self.id];
        graph.nodes[self.id] = InnerValue {
            gradient: num_bigfloat::BigFloat::from_i64(1),
            ..root_node
        };
        proof {
            assert(graph.nodes@ =~= seed(g0, self.id as int));
            lemma_wf_gradients_only(g0, graph.nodes@);
            assert(ord_seq.take(ord_seq.len() as int) =~= ord_seq);
        }
        let mut i: usize = ord.len();
        while i > 0
            invariant
                i <= ord_seq.len(),
                ord@ == ord_seq,
                forall|k: int| 0 <= k < ord_seq.len() ==> (#[trigger] ord_seq[k]).id < g0.len(),
                graph.nodes@.len() == g0.len(),
                graph_wf(graph.nodes@),
                forall|j: int|
                    0 <= j < g0.len() ==> (#[trigger] graph.nodes@[j]).id == g0[j].id
                        && graph.nodes@[j].operation == g0[j].operation && graph.nodes@[j].value
                        == g0[j].value,
                apply_back(graph.nodes@, ord_seq.take(i as int)) == backward_spec(
                    g0,
                    self.id as int,
                ),
            decreases i,
        {
            i = i - 1;
            let ghost g_before = graph.nodes@;
            let v = ord[i].id;
            proof {
                assert(node_wf(g_before, v as int));
            }
            let node = graph.nodes[v];
            let gr = node.gradient;
            match node.operation {
                Operation::Addition(a, b) => {
                    proof {
                        assert(op_operands(g_before[v as int].operation)[0] == a);
                        assert(op_operands(g_before[v as int].operation)[1] == b);
                    }
                    graph.accum_gradient(a.id, gr);
                    graph.accum_gradient(b.id, gr);
                    proof {
                        assert(graph.nodes@ == backward_step(g_before, v as int));
                    }
                },
                Operation::Multiplication(a, b) => {
                    proof {
                        assert(op_operands(g_before[v as int].operation)[0] == a);
                        assert(op_operands(g_before[v as int].operation)[1] == b);
                    }
                    let av = graph.nodes[a.id].value;
                    let bv = graph.nodes[b.id].value;
                    graph.accum_gradient(a.id, bv.mul(&gr));
                    graph.accum_gradient(b.id, av.mul(&gr));
                    proof {
                        assert(graph.nodes@ == backward_step(g_before, v as int));
                    }
                },
                Operation::Power(a, k) => {
                    proof {
                        assert(op_operands(g_before[v as int].operation)[0] == a);
                    }
                    let av = graph.nodes[a.id].value;
                    let one = num_bigfloat::BigFloat::from_i64(1);
                    let c = k.value.mul(&av.pow(&k.value.sub(&one))).mul(&gr);
                    graph.accum_gradient(a.id, c);
                    proof {
                        assert(graph.nodes@ == backward_step(g_before, v as int));
                    }
                },
                Operation::Exp(a) => {
                    proof {
                        assert(op_operands(g_before[v as int].operation)[0] == a);
                    }
                    let c = node.value.mul(&gr);
                    graph.accum_gradient(a.id, c);
                    proof {
                        assert(graph.nodes@ == backward_step(g_before, v as int));
                    }
                },
                Operation::Tanh(a) => {
                    proof {
                        assert(op_operands(g_before[v as int].operation)[0] == a);
                    }
                    let one = num_bigfloat::BigFloat::from_i64(1);
                    let c = one.sub(&node.value.mul(&node.value)).mul(&gr);
                    graph.accum_gradient(a.id, c);
                    proof {
                        assert(graph.nodes@ == backward_step(g_before, v as int));
                    }
                },
                Operation::Base => {
                    proof {
                        assert(graph.nodes@ == backward_step(g_before, v as int));
                    }
                },
            }
            proof {
                assert(ord_seq.take((i + 1) as int).last() == ord_seq[i as int]);
                assert(ord_seq.take((i + 1) as int).drop_last() =~= ord_seq.take(i as int));
                assert(apply_back(g_before, ord_seq.take((i + 1) as int)) == apply_back(
                    graph.nodes@,
                    ord_seq.take(i as int),
                ));
                assert forall|j: int|
                    0 <= j < g0.len() implies (#[trigger] graph.nodes@[j]).id == g_before[j].id
                    && graph.nodes@[j].operation == g_before[j].operation && graph.nodes@[j].value
                    == g_before[j].value by {}
                lemma_wf_gradients_only(g_before, graph.nodes@);
            }
        }
        proof {
            assert(ord_seq.take(0) =~= Seq::<Value>::empty());
        }
    }
}

/// One local-rule application leaves every id, operation and forward value
/// in place, preserves well-formedness, and touches nothing but the
/// gradients of the stepped node's own operands.
proof fn lemma_step_effects(g: Seq<InnerValue>, v: int)
    requires
        graph_wf(g),
        0 <= v < g.len(),
    ensures
        ({
            let g1 = backward_step(g, v);
            &&& g1.len() == g.len()
            &&& graph_wf(g1)
            &&& forall|i: int|
                0 <= i < g.len() ==> (#[trigger] g1[i]).id == g[i].id && g1[i].operation
                    == g[i].operation && g1[i].value == g[i].value
            &&& forall|i: int|
                0 <= i < g.len() && !contains_id(op_operands(g[v].operation), i) ==> (
                #[trigger] g1[i]) == g[i]
        }),
{
    assert(node_wf(g, v));
    let g1 = backward_step(g, v);
    match g[v].operation {
        Operation::Addition(a, b) => {
            assert(op_operands(g[v].operation)[0] == a);
            assert(op_operands(g[v].operation)[1] == b);
            assert(g1.len() == g.len());
        },
        Operation::Multiplication(a, b) => {
            assert(op_operands(g[v].operation)[0] == a);
            assert(op_operands(g[v].operation)[1] == b);
            assert(g1.len() == g.len());
        },
        Operation::Power(a, _) => {
            assert(op_operands(g[v].operation)[0] == a);
            assert(g1.len() == g.len());
        },
        Operation::Tanh(a) => {
            assert(op_operands(g[v].operation)[0] == a);
            assert(g1.len() == g.len());
        },
        Operation::Exp(a) => {
            assert(op_operands(g[v].operation)[0] == a);
            assert(g1.len() == g.len());
        },
        Operation::Base => {
            assert(g1.len() == g.len());
        },
    }
    assert forall|i: int|
        0 <= i < g.len() implies (#[trigger] g1[i]).id == g[i].id && g1[i].operation
        == g[i].operation && g1[i].value == g[i].value by {
        match g[v].operation {
            Operation::Addition(a, b) => {
                assert(op_operands(g[v].operation)[0] == a);
                assert(op_operands(g[v].operation)[1] == b);
            },
            Operation::Multiplication(a, b) => {
                assert(op_operands(g[v].operation)[0] == a);
                assert(op_operands(g[v].operation)[1] == b);
            },
            Operation::Power(a, _) => {
                assert(op_operands(g[v].operation)[0] == a);
            },
            Operation::Tanh(a) => {
                assert(op_operands(g[v].operation)[0] == a);
            },
            Operation::Exp(a) => {
                assert(op_operands(g[v].operation)[0] == a);
            },
            Operation::Base => {},
        }
    }
    assert forall|i: int|
        0 <= i < g.len() && !contains_id(op_operands(g[v].operation), i) implies (
    #[trigger] g1[i]) == g[i] by {
        match g[v].operation {
            Operation::Addition(a, b) => {
                assert(op_operands(g[v].operation)[0] == a);
                assert(op_operands(g[v].operation)[1] == b);
                assert(a.id != i && b.id != i);
            },
            Operation::Multiplication(a, b) => {
                assert(op_operands(g[v].operation)[0] == a);
                assert(op_operands(g[v].operation)[1] == b);
                assert(a.id != i && b.id != i);
            },
            Operation::Power(a, _) => {
                assert(op_operands(g[v].operation)[0] == a);
                assert(a.id != i);
            },
            Operation::Tanh(a) => {
                assert(op_operands(g[v].operation)[0] == a);
                assert(a.id != i);
            },
            Operation::Exp(a) => {
                assert(op_operands(g[v].operation)[0] == a);
                assert(a.id != i);
            },
            Operation::Base => {},
        }
    }
    lemma_wf_gradients_only(g, g1);
}

/// Applying local rules along any sequence of valid nodes leaves every id,
/// operation and forward value in place: only gradients accumulate.
proof fn lemma_apply_back_shape(g: Seq<InnerValue>, ord: Seq<Value>)
    requires
        graph_wf(g),
        forall|k: int| 0 <= k < ord.len() ==> (#[trigger] ord[k]).id < g.len(),
    ensures
        ({
            let g2 = apply_back(g, ord);
            &&& g2.len() == g.len()
            &&& graph_wf(g2)
            &&& forall|i: int|
                0 <= i < g.len() ==> (#[trigger] g2[i]).id == g[i].id && g2[i].operation
                    == g[i].operation && g2[i].value == g[i].value
        }),
    decreases ord.len(),
{
    if ord.len() > 0 {
        let v = ord.last().id as int;
        lemma_step_effects(g, v);
        let g1 = backward_step(g, v);
        assert forall|k: int| 0 <= k < ord.drop_last().len() implies (#[trigger] ord.drop_last()[k]).id
            < g1.len() by {
            assert(ord.drop_last()[k] == ord[k]);
        }
        lemma_apply_back_shape(g1, ord.drop_last());
    }
}

/// One operand edge extends reachability: whatever reaches a node also
/// reaches each of that node's operands.
proof fn lemma_reaches_operand(g: Seq<InnerValue>, r: int, v: int, m: int)
    requires
        graph_wf(g),
        0 <= r < g.len(),
        0 <= v < g.len(),
        reaches(g, r, v),
        0 <= m < op_operands(g[v].operation).len(),
    ensures
        reaches(g, r, op_operands(g[v].operation)[m].id as int),
    decreases r,
{
    assert(node_wf(g, r));
    assert(node_wf(g, v));
    let a = op_operands(g[v].operation)[m];
    if r == v {
        assert(reaches(g, a.id as int, a.id as int));
    } else {
        let mm = choose|mm: int|
            0 <= mm < op_operands(g[r].operation).len() && reaches(
                g,
                (#[trigger] op_operands(g[r].operation)[mm]).id as int,
                v,
            );
        lemma_reaches_operand(g, op_operands(g[r].operation)[mm].id as int, v, m);
    }
}

/// Applying local rules along nodes whose operands all avoid `w` leaves the
/// node at `w` untouched.
proof fn lemma_apply_back_avoids(g: Seq<InnerValue>, ord: Seq<Value>, w: int)
    requires
        graph_wf(g),
        forall|k: int| 0 <= k < ord.len() ==> (#[trigger] ord[k]).id < g.len(),
        0 <= w < g.len(),
        forall|k: int|
            0 <= k < ord.len() ==> !contains_id(
                op_operands(g[(#[trigger] ord[k]).id as int].operation),
                w,
            ),
    ensures
        apply_back(g, ord)[w] == g[w],
    decreases ord.len(),
{
    if ord.len() > 0 {
        let v = ord.last().id as int;
        lemma_step_effects(g, v);
        let g1 = backward_step(g, v);
        assert(g1[w] == g[w]);
        assert forall|k: int| 0 <= k < ord.drop_last().len() implies (#[trigger] ord.drop_last()[k]).id
            < g1.len() && !contains_id(
            op_operands(g1[ord.drop_last()[k].id as int].operation),
            w,
        ) by {
            assert(ord.drop_last()[k] == ord[k]);
            assert(g1[ord[k].id as int].operation == g[ord[k].id as int].operation);
        }
        lemma_apply_back_avoids(g1, ord.drop_last(), w);
    }
}

/// The backward pass touches only the root's ancestry: a node the root
/// cannot reach keeps its gradient — and everything else — exactly as it
/// was.
pub proof fn lemma_backwards_leaves_unreached_nodes(graph: Graph, root: Value, w: int)
    requires
        graph.wf(),
        root.id < graph.nodes@.len(),
        0 <= w < graph.nodes@.len(),
        !reaches(graph.nodes@, root.id as int, w),
    ensures
        backward_spec(graph.nodes@, root.id as int)[w] == graph.nodes@[w],
{
    let g = graph.nodes@;
    let st0 = (no_seen(g), Seq::<Value>::empty());
    assert(st_inv(g, st0));
    lemma_dfs(g, root.id as int, st0);
    let ord = dfs(g, root.id as int, st0).1;
    let s = seed(g, root.id as int);
    assert(node_wf(g, root.id as int));
    assert(reaches(g, root.id as int, root.id as int));
    assert(w != root.id as int);
    assert(s[w] == g[w]);
    assert forall|j: int|
        0 <= j < g.len() implies (#[trigger] s[j]).id == g[j].id && s[j].operation
        == g[j].operation && s[j].value == g[j].value by {}
    lemma_wf_gradients_only(g, s);
    assert forall|k: int|
        0 <= k < ord.len() implies (#[trigger] ord[k]).id < s.len() && !contains_id(
        op_operands(s[ord[k].id as int].operation),
        w,
    ) by {
        assert(reaches(g, root.id as int, ord[k].id as int));
        assert(s[ord[k].id as int].operation == g[ord[k].id as int].operation);
        if contains_id(op_operands(g[ord[k].id as int].operation), w) {
            let m = choose|m: int|
                0 <= m < op_operands(g[ord[k].id as int].operation).len() && (
                #[trigger] op_operands(g[ord[k].id as int].operation)[m]).id == w;
            lemma_reaches_operand(g, root.id as int, ord[k].id as int, m);
        }
    }
    lemma_apply_back_avoids(s, ord, w);
}

/// A backward pass mutates nothing but gradients: every node's id, its
/// operation and its forward value are exactly what they were before the
/// pass, however the gradients accumulated.
pub proof fn lemma_backwards_preserves_structure(graph: Graph, root: Value)
    requires
        graph.wf(),
        root.id < graph.nodes@.len(),
    ensures
        ({
            let g2 = backward_spec(graph.nodes@, root.id as int);
            &&& g2.len() == graph.nodes@.len()
            &&& forall|i: int|
                0 <= i < graph.nodes@.len() ==> (#[trigger] g2[i]).id == graph.nodes@[i].id
                    && g2[i].operation == graph.nodes@[i].operation && g2[i].value
                    == graph.nodes@[i].value
        }),
{
    let g = graph.nodes@;
    let st0 = (no_seen(g), Seq::<Value>::empty());
    assert(st_inv(g, st0));
    lemma_dfs(g, root.id as int, st0);
    let ord = dfs(g, root.id as int, st0).1;
    let s = seed(g, root.id as int);
    assert(node_wf(g, root.id as int));
    assert forall|j: int|
        0 <= j < g.len() implies (#[trigger] s[j]).id == g[j].id && s[j].operation
        == g[j].operation && s[j].value == g[j].value by {}
    lemma_wf_gradients_only(g, s);
    lemma_apply_back_shape(s, ord);
}

/// Id uniqueness: however many nodes have been constructed, no two nodes of
/// a well-formed graph carry the same id, since each node's id is its
/// position in the arena and positions are never reused.
pub proof fn lemma_ids_unique(graph: Graph, i: int, j: int)
    requires
        graph.wf(),
        0 <= i < graph.nodes@.len(),
        0 <= j < graph.nodes@.len(),
        i != j,
    ensures
        graph.nodes@[i].id != graph.nodes@[j].id,
{
    assert(node_wf(graph.nodes@, i));
    assert(node_wf(graph.nodes@, j));
}

/// Additive gradient: when the root adds two distinct leaves, the backward
/// pass accumulates exactly one seed contribution into each operand's
/// gradient — the addition rule passes the upstream gradient through
/// unscaled.
pub proof fn lemma_additive_gradient(graph: Graph, root: Value, a: Value, b: Value)
    requires
        graph.wf(),
        graph.nodes@.len() == 3,
        root.id == 2,
        a.id == 0,
        b.id == 1,
        graph.nodes@[1].operation is Base,
        graph.nodes@[2].operation == Operation::Addition(a, b),
    ensures
        backward_spec(graph.nodes@, 2)[0].gradient == real_add(
            graph.nodes@[0].gradient,
            real_one(),
        ),
        backward_spec(graph.nodes@, 2)[1].gradient == real_add(
            graph.nodes@[1].gradient,
            real_one(),
        ),
{
    let g = graph.nodes@;
    assert(node_wf(g, 0));
    assert(node_wf(g, 1));
    assert(node_wf(g, 2));
    lemma_first_node_is_leaf(g);
    // the traversal emits the two leaves, then the root
    let st0 = (no_seen(g), Seq::<Value>::empty());
    let st1 = (st0.0.update(2, true), st0.1);
    let sta = dfs(g, 0, st1);
    assert(sta == ((st1.0.update(0, true), st1.1.push(Value { id: 0 }))));
    let stb = dfs(g, 1, sta);
    assert(stb == ((sta.0.update(1, true), sta.1.push(Value { id: 1 }))));
    let ord = dfs(g, 2, st0).1;
    assert(ord == stb.1.push(Value { id: 2 }));
    // the backward pass: seed the root, pass its gradient to both leaves
    let s = seed(g, 2);
    assert(s[2].gradient == real_one());
    assert(s[0] == g[0]);
    assert(s[1] == g[1]);
    let s1 = backward_step(s, 2);
    assert(s1 == accum(accum(s, 0, real_one()), 1, real_one()));
    assert(s1[0].gradient == real_add(g[0].gradient, real_one()));
    assert(s1[1].gradient == real_add(g[1].gradient, real_one()));
    assert(s1[0].operation is Base);
    assert(s1[1].operation is Base);
    // the leaves themselves propagate nothing
    assert(ord.last() == (Value { id: 2 }));
    let d1 = ord.drop_last();
    assert(apply_back(s, ord) == apply_back(s1, d1));
    assert(d1.last() == (Value { id: 1 }));
    assert(backward_step(s1, 1) == s1);
    let d2 = d1.drop_last();
    assert(apply_back(s1, d1) == apply_back(backward_step(s1, d1.last().id as int), d2));
    assert(d2.last() == (Value { id: 0 }));
    assert(d2.len() == 1);
    assert(backward_step(s1, 0) == s1);
    assert(apply_back(s1, d2.drop_last()) == s1);
    assert(apply_back(s1, d2) == apply_back(backward_step(s1, d2.last().id as int), d2.drop_last()));
    assert(backward_spec(g, 2) == apply_back(s, ord));
}

/// The very first node can only be a leaf: any operand would need a
/// strictly smaller id, and none exists.
proof fn lemma_first_node_is_leaf(g: Seq<InnerValue>)
    requires
        g.len() > 0,
        node_wf(g, 0),
    ensures
        g[0].operation is Base,
{
    {
        match g[0].operation {
            Operation::Addition(x, _) => {
                assert(op_operands(g[0].operation)[0] == x);
                assert(false);
            },
            Operation::Multiplication(x, _) => {
                assert(op_operands(g[0].operation)[0] == x);
                assert(false);
            },
            Operation::Power(x, _) => {
                assert(op_operands(g[0].operation)[0] == x);
                assert(false);
            },
            Operation::Tanh(x) => {
                assert(op_operands(g[0].operation)[0] == x);
                assert(false);
            },
            Operation::Exp(x) => {
                assert(op_operands(g[0].operation)[0] == x);
                assert(false);
            },
            Operation::Base => {},
        }
    }
}

/// Shared-subexpression accumulation: when the root multiplies a node by
/// itself, the backward pass adds the contribution of *each* use into that
/// operand's gradient in turn — the two contributions are summed, not
/// overwritten, whatever gradient the operand started with.
pub proof fn lemma_shared_operand_accumulates(graph: Graph, root: Value, a: Value)
    requires
        graph.wf(),
        graph.nodes@.len() == 2,
        root.id == 1,
        a.id == 0,
        graph.nodes@[1].operation == Operation::Multiplication(a, a),
    ensures
        ({
            let contribution = real_mul(graph.nodes@[0].value, real_one());
            backward_spec(graph.nodes@, 1)[0].gradient == real_add(
                real_add(graph.nodes@[0].gradient, contribution),
                contribution,
            )
        }),
{
    let g = graph.nodes@;
    assert(node_wf(g, 0));
    assert(node_wf(g, 1));
    lemma_first_node_is_leaf(g);
    // the traversal emits the operand first, the root last
    let st0 = (no_seen(g), Seq::<Value>::empty());
    let st1 = (st0.0.update(1, true), st0.1);
    let sta = dfs(g, 0, st1);
    assert(sta == ((st1.0.update(0, true), st1.1.push(Value { id: 0 }))));
    let stb = dfs(g, 0, sta);
    assert(stb == sta);
    let ord = dfs(g, 1, st0).1;
    assert(ord == sta.1.push(Value { id: 1 }));
    // the backward pass: seed the root, apply its rule, then the leaf's
    let s = seed(g, 1);
    assert(s[1].gradient == real_one());
    assert(s[1].operation == Operation::Multiplication(a, a));
    assert(s[0] == g[0]);
    let contribution = real_mul(g[0].value, real_one());
    let s1 = backward_step(s, 1);
    assert(s1 == accum(accum(s, 0, contribution), 0, contribution));
    assert(accum(s, 0, contribution)[0].gradient == real_add(g[0].gradient, contribution));
    assert(s1[0].gradient == real_add(real_add(g[0].gradient, contribution), contribution));
    assert(s1[0].operation == Operation::Base);
    // applying the rules along the ordering, from the root back
    assert(ord.last() == (Value { id: 1 }));
    assert(ord.drop_last() =~= Seq::<Value>::empty().push(Value { id: 0 }));
    assert(apply_back(s, ord) == apply_back(s1, ord.drop_last()));
    let dl = ord.drop_last();
    assert(dl.last() == (Value { id: 0 }));
    assert(dl.len() == 1);
    assert(dl.drop_last().len() == 0);
    assert(backward_step(s1, 0) == s1);
    assert(apply_back(s1, dl.drop_last()) == s1);
    assert(apply_back(s1, dl) == apply_back(backward_step(s1, dl.last().id as int), dl.drop_last()));
    assert(backward_spec(g, 1) == apply_back(s, ord));
}

/// The recursive worker behind `Value::order`: marks, descends, appends.
fn visit(graph: &Graph, v: usize, seen: &mut Vec<bool>, out: &mut Vec<Value>)
    requires
        graph.wf(),
        v < graph.nodes@.len(),
        old(seen)@.len() == graph.nodes@.len(),
    ensures
        final(seen)@.len() == old(seen)@.len(),
        (final(seen)@, final(out)@) == dfs(graph.nodes@, v as int, (old(seen)@, old(out)@)),
    decreases v,
{
    let ghost g = graph.nodes@;
    proof {
        assert(node_wf(g, v as int));
    }
    if !seen[v] {
        seen[v] = true;
        match graph.nodes[v].operation {
            Operation::Addition(a, b) => {
                proof {
                    assert(op_operands(g[v as int].operation)[0] == a);
                    assert(op_operands(g[v as int].operation)[1] == b);
                }
                visit(graph, a.id, seen, out);
                visit(graph, b.id, seen, out);
            },
            Operation::Multiplication(a, b) => {
                proof {
                    assert(op_operands(g[v as int].operation)[0] == a);
                    assert(op_operands(g[v as int].operation)[1] == b);
                }
                visit(graph, a.id, seen, out);
                visit(graph, b.id, seen, out);
            },
            Operation::Power(a, _) => {
                proof {
                    assert(op_operands(g[v as int].operation)[0] == a);
                }
                visit(graph, a.id, seen, out);
            },
            Operation::Tanh(a) => {
                proof {
                    assert(op_operands(g[v as int].operation)[0] == a);
                }
                visit(graph, a.id, seen, out);
            },
            Operation::Exp(a) => {
                proof {
                    assert(op_operands(g[v as int].operation)[0] == a);
                }
                visit(graph, a.id, seen, out);
            },
            Operation::Base => {},
        }
        out.push(Value { id: v });
    }
}

impl Value {
    /// Creates a fresh leaf node holding `value`, with gradient zero.
    pub fn new(graph: &mut Graph, value: Real) -> (r: Value)
        requires
            old(graph).wf(),
        ensures
            final(graph).wf(),
            r.id == old(graph).nodes@.len(),
            final(graph).nodes@ == old(graph).nodes@.push(
                (InnerValue {
                    id: r.id,
                    value: value,
                    gradient: real_zero(),
                    operation: Operation::Base,
                }),
            ),
    {
        graph.push_node(value, Operation::Base)
    }

    /// Returns a fresh node recording the addition of `self` and `other`,
    /// with the eagerly computed forward value.
    pub fn add(self, graph: &mut Graph, other: Value) -> (r: Value)
        requires
            old(graph).wf(),
            self.id < old(graph).nodes@.len(),
            other.id < old(graph).nodes@.len(),
        ensures
            final(graph).wf(),
            r.id == old(graph).nodes@.len(),
            final(graph).nodes@ == old(graph).nodes@.push(
                (InnerValue {
                    id: r.id,
                    value: real_add(
                        old(graph).nodes@[self.id as int].value,
                        old(graph).nodes@[other.id as int].value,
                    ),
                    gradient: real_zero(),
                    operation: Operation::Addition(self, other),
                }),
            ),
    {
        let v = graph.nodes[self.id].value.add(&graph.nodes[other.id].value);
        let op = Operation::Addition(self, other);
        proof {
            assert(op_operands(op)[0] == self);
            assert(op_operands(op)[1] == other);
        }
        graph.push_node(v, op)
    }

    /// Returns a fresh node recording the multiplication of `self` and
    /// `other`, with the eagerly computed forward value.
    pub fn mul(self, graph: &mut Graph, other: Value) -> (r: Value)
        requires
            old(graph).wf(),
            self.id < old(graph).nodes@.len(),
            other.id < old(graph).nodes@.len(),
        ensures
            final(graph).wf(),
            r.id == old(graph).nodes@.len(),
            final(graph).nodes@ == old(graph).nodes@.push(
                (InnerValue {
                    id: r.id,
                    value: real_mul(
                        old(graph).nodes@[self.id as int].value,
                        old(graph).nodes@[other.id as int].value,
                    ),
                    gradient: real_zero(),
                    operation: Operation::Multiplication(self, other),
                }),
            ),
    {
        let v = graph.nodes[self.id].value.mul(&graph.nodes[other.id].value);
        let op = Operation::Multiplication(self, other);
        proof {
            assert(op_operands(op)[0] == self);
            assert(op_operands(op)[1] == other);
        }
        graph.push_node(v, op)
    }

    /// Squashes `self` through the hyperbolic tangent, as a fresh node.
    pub fn tanh(self, graph: &mut Graph) -> (r: Value)
        requires
            old(graph).wf(),
            self.id < old(graph).nodes@.len(),
        ensures
            final(graph).wf(),
            r.id == old(graph).nodes@.len(),
            final(graph).nodes@ == old(graph).nodes@.push(
                (InnerValue {
                    id: r.id,
                    value: real_tanh(old(graph).nodes@[self.id as int].value),
                    gradient: real_zero(),
                    operation: Operation::Tanh(self),
                }),
            ),
    {
        let v = graph.nodes[self.id].value.tanh();
        let op = Operation::Tanh(self);
        proof {
            assert(op_operands(op)[0] == self);
        }
        graph.push_node(v, op)
    }

    /// Subtraction is not a primitive: it is `self + ((-1) * other)`, so the
    /// backward rules never need a dedicated case. Three nodes are created:
    /// a `-1` leaf, the product, and the sum that is returned.
    pub fn sub(self, graph: &mut Graph, other: Value) -> (r: Value)
        requires
            old(graph).wf(),
            self.id < old(graph).nodes@.len(),
            other.id < old(graph).nodes@.len(),
        ensures
            final(graph).wf(),
            r.id == old(graph).nodes@.len() + 2,
            final(graph).nodes@ == sub_nodes(old(graph).nodes@, self, other),
    {
        let minus_one = Value::new(graph, num_bigfloat::BigFloat::from_i64(-1));
        let negated = minus_one.mul(graph, other);
        self.add(graph, negated)
    }

    /// Division is not a primitive: it is `self * other.power(-1)`, so the
    /// power and multiplication backward rules cover it. Two nodes are
    /// created: the reciprocal, and the product that is returned.
    pub fn div(self, graph: &mut Graph, other: Value) -> (r: Value)
        requires
            old(graph).wf(),
            self.id < old(graph).nodes@.len(),
            other.id < old(graph).nodes@.len(),
        ensures
            final(graph).wf(),
            r.id == old(graph).nodes@.len() + 1,
            final(graph).nodes@ == div_nodes(old(graph).nodes@, self, other),
    {
        let exponent = Exponent { value: num_bigfloat::BigFloat::from_i64(-1) };
        let inverse = other.power(graph, exponent);
        self.mul(graph, inverse)
    }

    /// Produces a dependency-respecting linear ordering of every node
    /// reachable from `self`: a depth-first post-order in which each node
    /// appears exactly once, strictly after all of its operands, with `self`
    /// last. Read forward it is a valid evaluation order; read backward it
    /// is the gradient-propagation order.
    pub fn order(self, graph: &Graph) -> (r: Vec<Value>)
        requires
            graph.wf(),
            self.id < graph.nodes@.len(),
        ensures
            r@ == dfs(graph.nodes@, self.id as int, (no_seen(graph.nodes@), Seq::<Value>::empty())).1,
            // every entry is a valid node
            forall|k: int| 0 <= k < r@.len() ==> (#[trigger] r@[k]).id < graph.nodes@.len(),
            // no node appears twice, even when reachable along several paths
            forall|k1: int, k2: int|
                0 <= k1 < k2 < r@.len() ==> (#[trigger] r@[k1]).id != (#[trigger] r@[k2]).id,
            // every node appears strictly after all of its operands
            forall|k: int, m: int|
                0 <= k < r@.len() && 0 <= m < op_operands(
                    graph.nodes@[r@[k].id as int].operation,
                ).len() ==> #[trigger] emitted_before(graph.nodes@, r@, k, m),
            // the ordering holds exactly the nodes reachable from `self`
            forall|w: int|
                0 <= w < graph.nodes@.len() ==> (contains_id(r@, w) <==> reaches(
                    graph.nodes@,
                    self.id as int,
                    w,
                )),
            // the root closes the ordering
            r@.len() >= 1,
            r@[r@.len() - 1] == (Value { id: self.id }),
    {
        let ghost g = graph.nodes@;
        let n = graph.nodes.len();
        let mut seen: Vec<bool> = Vec::new();
        while seen.len() < n
            invariant
                seen@.len() <= n,
                forall|k: int| 0 <= k < seen@.len() ==> seen@[k] == false,
            decreases n - seen@.len(),
        {
            seen.push(false);
        }
        proof {
            assert(seen@ =~= no_seen(g));
        }
        let mut out: Vec<Value> = Vec::new();
        proof {
            let st0 = (no_seen(g), Seq::<Value>::empty());
            assert(st_inv(g, st0));
            lemma_dfs(g, self.id as int, st0);
        }
        visit(graph, self.id, &mut seen, &mut out);
        proof {
            let st0 = (no_seen(g), Seq::<Value>::empty());
            let st2 = dfs(g, self.id as int, st0);
            assert(out@ == st2.1);
            assert forall|w: int| 0 <= w < g.len() && reaches(g, self.id as int, w)
                implies contains_id(out@, w) by {
                assert(st2.0[w]);
                assert(gray(st2, w) <==> gray(st0, w));
                assert(!gray(st2, w));
            }
            assert(out@[out@.len() - 1] == st2.1.last());
        }
        out
    }

    /// The node's forward value.
    pub fn value(self, graph: &Graph) -> (r: Real)
        requires
            self.id < graph.nodes@.len(),
        ensures
            r == graph.nodes@[self.id as int].value,
    {
        graph.nodes[self.id].value
    }

    /// The node's accumulated gradient.
    pub fn gradient(self, graph: &Graph) -> (r: Real)
        requires
            self.id < graph.nodes@.len(),
        ensures
            r == graph.nodes@[self.id as int].gradient,
    {
        graph.nodes[self.id].gradient
    }
}

} // verus!
