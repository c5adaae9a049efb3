use vstd::prelude::*;

use crate::number::{decimal_add, decimal_text, Number};

verus! {

broadcast use vstd::seq::axiom_seq_index_decreases, vstd::seq::axiom_seq_subrange_decreases,
    vstd::std_specs::vec::axiom_vec_decreases_to_view;

/// How a variadic operator reduces the values of its children.
#[derive(Debug, Clone, Copy, PartialEq, Eq)]
pub enum OperatorKind {
    Addition,
}

/// A node of the syntax tree.
pub enum Node {
    Number(Number),
    Operator(MultipleOperator),
}

/// An operator applied to an ordered list of child nodes.
pub struct MultipleOperator {
    pub operator: OperatorKind,
    pub nodes: Vec<Node>,
}

/// The root of a parsed program: its top-level nodes in order.
pub struct Program {
    pub nodes: Vec<Node>,
}

/// The mathematical model of a node: a number is `mantissa / 10^scale`.
pub enum NodeView {
    Num(nat, nat),
    Apply(OperatorKind, Seq<NodeView>),
}

pub open spec fn view_node(n: Node) -> NodeView
    decreases n,
{
    match n {
        Node::Number(x) => NodeView::Num(x@.0, x@.1),
        Node::Operator(op) => NodeView::Apply(op.operator, view_nodes(op.nodes@)),
    }
}

pub open spec fn view_nodes(s: Seq<Node>) -> Seq<NodeView>
    decreases s,
{
    if s.len() == 0 {
        seq![]
    } else {
        view_nodes(s.drop_last()).push(view_node(s.last()))
    }
}

/// Every number in the tree is well formed.
pub open spec fn node_wf(n: Node) -> bool
    decreases n,
{
    match n {
        Node::Number(x) => x.wf(),
        Node::Operator(op) => nodes_wf(op.nodes@),
    }
}

pub open spec fn nodes_wf(s: Seq<Node>) -> bool
    decreases s,
{
    s.len() == 0 || (nodes_wf(s.drop_last()) && node_wf(s.last()))
}

/// The exact value of a node, as mantissa and scale.
pub open spec fn eval(n: NodeView) -> (nat, nat)
    decreases n,
{
    match n {
        NodeView::Num(m, s) => (m, s),
        NodeView::Apply(OperatorKind::Addition, ch) => sum_all(ch),
    }
}

/// The sum of the values of `ch`, added from the first to the last, starting at zero.
pub open spec fn sum_all(ch: Seq<NodeView>) -> (nat, nat)
    decreases ch,
{
    if ch.len() == 0 {
        (0, 0)
    } else {
        decimal_add(sum_all(ch.drop_last()), eval(ch.last()))
    }
}

/// The text of a node's value.
pub open spec fn node_value(n: NodeView) -> Seq<char> {
    decimal_text(eval(n).0, eval(n).1)
}

/// The value of a program: that of its last node, and `0` where it has none.
pub open spec fn program_value(nodes: Seq<NodeView>) -> Seq<char> {
    if nodes.len() == 0 {
        "0"@
    } else {
        node_value(nodes.last())
    }
}

/// The display text of a program: the values of its nodes, one after the other.
pub open spec fn program_text(nodes: Seq<NodeView>) -> Seq<char>
    decreases nodes.len(),
{
    if nodes.len() == 0 {
        seq![]
    } else {
        program_text(nodes.drop_last()) + node_value(nodes.last())
    }
}

proof fn lemma_prefix_views(s: Seq<Node>, i: int)
    requires
        0 <= i < s.len(),
    ensures
        view_nodes(s.subrange(0, i + 1)) == view_nodes(s.subrange(0, i)).push(view_node(s[i])),
        nodes_wf(s.subrange(0, i + 1)) == (nodes_wf(s.subrange(0, i)) && node_wf(s[i])),
{
    assert(s.subrange(0, i + 1).drop_last() =~= s.subrange(0, i));
}

proof fn lemma_view_prefix(s: Seq<Node>, j: int)
    requires
        0 <= j <= s.len(),
    ensures
        view_nodes(s.subrange(0, j)) == view_nodes(s).subrange(0, j),
    decreases s.len() - j,
{
    lemma_view_nodes_len(s);
    lemma_view_nodes_len(s.subrange(0, j));
    if j < s.len() {
        lemma_view_prefix(s, j + 1);
        lemma_prefix_views(s, j);
        assert(view_nodes(s).subrange(0, j + 1).drop_last() =~= view_nodes(s).subrange(0, j));
    } else {
        assert(s.subrange(0, j) =~= s);
        assert(view_nodes(s).subrange(0, j) =~= view_nodes(s));
    }
}

proof fn lemma_nodes_wf_index(s: Seq<Node>, i: int)
    requires
        nodes_wf(s),
        0 <= i < s.len(),
    ensures
        node_wf(s[i]),
        view_nodes(s).len() == s.len(),
        view_nodes(s)[i] == view_node(s[i]),
    decreases s.len(),
{
    if i < s.len() - 1 {
        lemma_nodes_wf_index(s.drop_last(), i);
    } else {
        lemma_view_nodes_len(s.drop_last());
    }
}

proof fn lemma_view_nodes_len(s: Seq<Node>)
    ensures
        view_nodes(s).len() == s.len(),
    decreases s.len(),
{
    if s.len() > 0 {
        lemma_view_nodes_len(s.drop_last());
    }
}

impl View for Node {
    type V = NodeView;

    open spec fn view(&self) -> NodeView {
        view_node(*self)
    }
}

impl View for Program {
    type V = Seq<NodeView>;

    open spec fn view(&self) -> Seq<NodeView> {
        view_nodes(self.nodes@)
    }
}

/// Adds up the values of the nodes from the first to the last, starting at zero.
pub fn addition_strategy(nodes: &Vec<Node>) -> (r: Number)
    requires
        nodes_wf(nodes@),
    ensures
        r.wf(),
        r@ == sum_all(view_nodes(nodes@)),
    decreases nodes, 1nat,
{
    let mut acc = Number::zero();
    let mut i: usize = 0;
    while i < nodes.len()
        invariant
            i <= nodes.len(),
            nodes_wf(nodes@),
            acc.wf(),
            acc@ == sum_all(view_nodes(nodes@.subrange(0, i as int))),
        decreases nodes.len() - i,
    {
        proof {
            lemma_prefix_views(nodes@, i as int);
            lemma_nodes_wf_index(nodes@, i as int);
            let v = view_nodes(nodes@.subrange(0, i + 1));
            assert(v.drop_last() =~= view_nodes(nodes@.subrange(0, i as int)));
        }
        let child = nodes[i].evaluate();
        acc = acc.add(&child);
        i = i + 1;
    }
    assert(nodes@.subrange(0, nodes.len() as int) =~= nodes@);
    acc
}

impl Node {
    /// The exact value of the node.
    pub fn evaluate(&self) -> (r: Number)
        requires
            node_wf(*self),
        ensures
            r.wf(),
            r@ == eval(self@),
        decreases self, 0nat,
    {
        match self {
            Node::Number(x) => x.duplicate(),
            Node::Operator(op) => op.evaluate(),
        }
    }

    /// The text of the node's value.
    pub fn value(&self) -> (r: String)
        requires
            node_wf(*self),
        ensures
            r@ == node_value(self@),
    {
        self.evaluate().value()
    }
}

impl MultipleOperator {
    /// An addition with no operands yet.
    pub fn new_addition_operator() -> (r: MultipleOperator)
        ensures
            r.operator == OperatorKind::Addition,
            r.nodes@.len() == 0,
    {
        MultipleOperator { operator: OperatorKind::Addition, nodes: Vec::new() }
    }

    /// The text of the operator's value.
    pub fn value(&self) -> (r: String)
        requires
            nodes_wf(self.nodes@),
        ensures
            r@ == node_value(NodeView::Apply(self.operator, view_nodes(self.nodes@))),
    {
        self.evaluate().value()
    }

    /// The exact value of the operator applied to its children.
    pub fn evaluate(&self) -> (r: Number)
        requires
            nodes_wf(self.nodes@),
        ensures
            r.wf(),
            r@ == eval(NodeView::Apply(self.operator, view_nodes(self.nodes@))),
        decreases self, 2nat,
    {
        match self.operator {
            OperatorKind::Addition => addition_strategy(&self.nodes),
        }
    }
}

impl Program {
    pub open spec fn wf(&self) -> bool {
        nodes_wf(self.nodes@)
    }

    /// The value of the last node, `0` for an empty program; earlier values are discarded.
    pub fn value(&self) -> (r: String)
        requires
            self.wf(),
        ensures
            r@ == program_value(self@),
    {
        let n = self.nodes.len();
        if n == 0 {
            "0".to_owned()
        } else {
            proof {
                lemma_nodes_wf_index(self.nodes@, n - 1);
            }
            self.nodes[n - 1].value()
        }
    }

    /// The values of all nodes written one after the other.
    pub fn to_text(&self) -> (r: String)
        requires
            self.wf(),
        ensures
            r@ == program_text(self@),
    {
        let mut out = String::new();
        let mut i: usize = 0;
        while i < self.nodes.len()
            invariant
                i <= self.nodes.len(),
                nodes_wf(self.nodes@),
                program_text(view_nodes(self.nodes@.subrange(0, i as int))) == out@,
            decreases self.nodes.len() - i,
        {
            proof {
                lemma_prefix_views(self.nodes@, i as int);
                lemma_nodes_wf_index(self.nodes@, i as int);
                lemma_view_prefix(self.nodes@, i + 1);
                let v = view_nodes(self.nodes@.subrange(0, i + 1));
                assert(v.drop_last() =~= view_nodes(self.nodes@.subrange(0, i as int)));
            }
            let text = self.nodes[i].value();
            out.append(text.as_str());
            i = i + 1;
        }
        assert(self.nodes@.subrange(0, self.nodes.len() as int) =~= self.nodes@);
        out
    }
}

} // verus!
