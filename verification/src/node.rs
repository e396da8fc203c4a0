//! Gate variants with their pin counts, payloads and boolean functions.

use vstd::prelude::*;

verus! {

/// A gate instance. `Input` and `Output` carry a boolean payload; every other
/// variant is stateless and its value is a pure function of its input pins and
/// the current tick.
#[derive(Clone, Copy, PartialEq, Eq, Structural, Debug)]
pub enum Node {
    /// 0 inputs, 1 output; the payload is set externally.
    Input(bool),
    /// 1 input, 0 outputs; the payload is written by the evaluator.
    Output(bool),
    /// 2 inputs, 1 output.
    Nand,
    /// 0 inputs, 1 output; its value is the tick parity.
    Clock,
    /// 1 input, 1 output; a buffer that passes its input through.
    Node,
    /// 1 input, 1 output.
    Not,
    /// 2 inputs, 1 output.
    And,
    /// 2 inputs, 1 output.
    Or,
    /// 2 inputs, 1 output.
    Xor,
    /// 2 inputs, 1 output.
    Nor,
    /// 2 inputs, 1 output.
    Xnor,
}

/// How many input pins a node has.
pub open spec fn s_input_count(n: Node) -> int {
    match n {
        Node::Input(_) => 0,
        Node::Output(_) => 1,
        Node::Nand => 2,
        Node::Clock => 0,
        Node::Node => 1,
        Node::Not => 1,
        Node::And => 2,
        Node::Or => 2,
        Node::Xor => 2,
        Node::Nor => 2,
        Node::Xnor => 2,
    }
}

/// How many output pins a node has: one for every variant but `Output`.
pub open spec fn s_output_count(n: Node) -> int {
    match n {
        Node::Output(_) => 0,
        _ => 1,
    }
}

/// How many of its own input pins a node demands when it is evaluated as the
/// source of a connection. `Input` and `Clock` are terminal; `Output` never
/// stands as a source in a well-formed graph, so it demands none.
pub open spec fn s_src_arity(n: Node) -> int {
    match n {
        Node::Input(_) => 0,
        Node::Output(_) => 0,
        Node::Clock => 0,
        Node::Node => 1,
        Node::Not => 1,
        _ => 2,
    }
}

/// The boolean payload of a node: present only on `Input` and `Output`.
pub open spec fn s_payload(n: Node) -> Option<bool> {
    match n {
        Node::Input(v) => Some(v),
        Node::Output(v) => Some(v),
        _ => None,
    }
}

/// The node with its payload replaced, where it has one; any other variant is
/// returned unchanged.
pub open spec fn s_with_payload(n: Node, v: bool) -> Node {
    match n {
        Node::Input(_) => Node::Input(v),
        Node::Output(_) => Node::Output(v),
        _ => n,
    }
}

/// The output value of a node at tick `t`, given the values `v0` and `v1` of
/// its first and second input pins (ignored beyond its arity). An `Output`
/// node has no output pin; as a source it contributes `false`.
pub open spec fn s_node_value(n: Node, t: u64, v0: bool, v1: bool) -> bool {
    match n {
        Node::Input(v) => v,
        Node::Output(_) => false,
        Node::Clock => t % 2 == 0,
        Node::Node => v0,
        Node::Not => !v0,
        Node::And => v0 && v1,
        Node::Or => v0 || v1,
        Node::Xor => v0 != v1,
        Node::Nor => !(v0 || v1),
        Node::Xnor => v0 == v1,
        Node::Nand => !(v0 && v1),
    }
}

impl Node {
    /// The number of input pins of this node.
    pub fn input_count(&self) -> (r: usize)
        ensures
            r as int == s_input_count(*self),
    {
        match self {
            Node::Input(_) => 0,
            Node::Output(_) => 1,
            Node::Nand => 2,
            Node::Clock => 0,
            Node::Node => 1,
            Node::Not => 1,
            Node::And => 2,
            Node::Or => 2,
            Node::Xor => 2,
            Node::Nor => 2,
            Node::Xnor => 2,
        }
    }

    /// The number of output pins of this node.
    pub fn output_count(&self) -> (r: usize)
        ensures
            r as int == s_output_count(*self),
    {
        match self {
            Node::Output(_) => 0,
            _ => 1,
        }
    }

    /// The boolean payload, for `Input` and `Output` nodes; `None` for the
    /// stateless variants.
    pub fn payload(&self) -> (r: Option<bool>)
        ensures
            r == s_payload(*self),
    {
        match self {
            Node::Input(v) => Some(*v),
            Node::Output(v) => Some(*v),
            _ => None,
        }
    }
}

/// The arity this node demands when evaluated as a source.
pub(crate) fn src_arity(n: Node) -> (r: usize)
    ensures
        r as int == s_src_arity(n),
{
    match n {
        Node::Input(_) => 0,
        Node::Output(_) => 0,
        Node::Clock => 0,
        Node::Node => 1,
        Node::Not => 1,
        _ => 2,
    }
}

/// The output value of a node, given its input pin values and the tick.
pub(crate) fn node_value(n: Node, t: u64, v0: bool, v1: bool) -> (r: bool)
    ensures
        r == s_node_value(n, t, v0, v1),
{
    match n {
        Node::Input(v) => v,
        Node::Output(_) => false,
        Node::Clock => t % 2 == 0,
        Node::Node => v0,
        Node::Not => !v0,
        Node::And => v0 && v1,
        Node::Or => v0 || v1,
        Node::Xor => v0 != v1,
        Node::Nor => !(v0 || v1),
        Node::Xnor => v0 == v1,
        Node::Nand => !(v0 && v1),
    }
}

} // verus!
