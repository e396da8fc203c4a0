//! The mathematical model of the circuit graph and of the evaluator.
//!
//! A graph is a sequence of node slots (a removed slot stays behind as `None`,
//! so handles are never reused) and a sequence of wires. The evaluator is
//! defined by `s_eval`: a demand-driven recursion over the wires that keeps a
//! per-tick memo with one slot per input pin, each slot unvisited, in
//! progress, or resolved. A pin whose computation is re-entered while still in
//! progress contributes `false` — the one-tick-delay cycle policy that makes
//! feedback loops (latches) well defined. The recursion is indexed by a fuel
//! bound; `s_fuel` fuel always suffices, because every consuming step marks a
//! previously unvisited pin.

use vstd::prelude::*;

use crate::node::{s_node_value, s_src_arity, Node};

verus! {

/// A connection from the single output of node `src` to input pin `input` of
/// node `dst`.
#[derive(Clone, Copy, PartialEq, Eq, Structural, Debug)]
pub struct Wire {
    pub src: usize,
    pub dst: usize,
    pub input: usize,
}

/// The abstract value of a circuit graph.
pub ghost struct GraphView {
    pub nodes: Seq<Option<Node>>,
    pub wires: Seq<Wire>,
}

/// A wire is well formed when both ends are live nodes, the source has an
/// output pin, and the input index addresses an existing pin of the target.
pub open spec fn wire_ok(g: GraphView, w: Wire) -> bool {
    &&& (w.src as int) < g.nodes.len()
    &&& match g.nodes[w.src as int] {
        Some(n) => crate::node::s_output_count(n) == 1,
        None => false,
    }
    &&& (w.dst as int) < g.nodes.len()
    &&& match g.nodes[w.dst as int] {
        Some(n) => (w.input as int) < crate::node::s_input_count(n),
        None => false,
    }
}

/// A graph is well formed when every wire is, and when it is small enough
/// that a memo with two pin slots per node can be addressed.
pub open spec fn wf(g: GraphView) -> bool {
    &&& 2 * g.nodes.len() <= usize::MAX as int
    &&& forall|k: int| 0 <= k < g.wires.len() ==> wire_ok(g, #[trigger] g.wires[k])
}

/// The source nodes feeding input pin (`dst`, `input`), in wire order.
pub open spec fn s_sources(ws: Seq<Wire>, dst: usize, input: usize) -> Seq<usize>
    decreases ws.len(),
{
    if ws.len() == 0 {
        Seq::empty()
    } else {
        let rest = s_sources(ws.drop_last(), dst, input);
        let w = ws.last();
        if w.dst == dst && w.input == input {
            rest.push(w.src)
        } else {
            rest
        }
    }
}

/// The wires that survive removing node `h`: every wire that neither starts
/// nor ends at `h`, in order.
pub open spec fn s_wires_without(ws: Seq<Wire>, h: usize) -> Seq<Wire>
    decreases ws.len(),
{
    if ws.len() == 0 {
        Seq::empty()
    } else {
        let rest = s_wires_without(ws.drop_last(), h);
        let w = ws.last();
        if w.src != h && w.dst != h {
            rest.push(w)
        } else {
            rest
        }
    }
}

/// The wires that survive removing every copy of the edge `e`, in order.
pub open spec fn s_wires_minus(ws: Seq<Wire>, e: Wire) -> Seq<Wire>
    decreases ws.len(),
{
    if ws.len() == 0 {
        Seq::empty()
    } else {
        let rest = s_wires_minus(ws.drop_last(), e);
        let w = ws.last();
        if w != e {
            rest.push(w)
        } else {
            rest
        }
    }
}

/// A source list with every occurrence of node `h` removed, in order.
pub open spec fn s_srcs_minus(srcs: Seq<usize>, h: usize) -> Seq<usize>
    decreases srcs.len(),
{
    if srcs.len() == 0 {
        Seq::empty()
    } else {
        let rest = s_srcs_minus(srcs.drop_last(), h);
        if srcs.last() != h {
            rest.push(srcs.last())
        } else {
            rest
        }
    }
}

/// The per-tick status of one input pin in the evaluator's memo.
#[derive(Clone, Copy, PartialEq, Eq, Structural, Debug)]
pub enum PinState {
    /// Not yet demanded this tick.
    Unvisited,
    /// Demanded, computation begun, value not yet known. A re-entrant demand
    /// (a feedback cycle) reads this state and contributes `false`.
    InProgress,
    /// Fully computed this tick.
    Resolved(bool),
}

/// The memo slot of input pin (`node`, `input`): two slots per node.
pub open spec fn s_pin(node: usize, input: usize) -> int {
    2 * node + input
}

/// A fresh memo for a graph of `n` nodes: every pin unvisited.
pub open spec fn s_init_memo(n: nat) -> Seq<PinState> {
    Seq::new(2 * n, |i: int| PinState::Unvisited)
}

/// How many pins of the memo are still unvisited.
pub open spec fn unvisited_count(m: Seq<PinState>) -> nat
    decreases m.len(),
{
    if m.len() == 0 {
        0
    } else {
        unvisited_count(m.drop_last()) + (if m.last() is Unvisited {
            1nat
        } else {
            0nat
        })
    }
}

/// Fuel that always suffices for a full evaluation pass: one unit per pin,
/// and one to spare.
pub open spec fn s_fuel(g: GraphView) -> nat {
    2 * g.nodes.len() + 1
}

/// The value at input pin (`node`, `input`) at tick `t`, with memo `m`,
/// together with the memo after the computation. `None` means the fuel ran
/// out; it never does when `fuel` exceeds the number of unvisited pins.
pub open spec fn s_eval(
    g: GraphView,
    t: u64,
    node: usize,
    input: usize,
    m: Seq<PinState>,
    fuel: nat,
) -> Option<(bool, Seq<PinState>)>
    decreases fuel, 0int, 0int,
{
    let p = s_pin(node, input);
    match m[p] {
        PinState::Resolved(v) => Some((v, m)),
        PinState::InProgress => Some((false, m)),
        PinState::Unvisited => {
            if fuel == 0 {
                None
            } else {
                match s_eval_srcs(
                    g,
                    t,
                    s_sources(g.wires, node, input),
                    m.update(p, PinState::InProgress),
                    (fuel - 1) as nat,
                ) {
                    None => None,
                    Some((v, m2)) => Some((v, m2.update(p, PinState::Resolved(v)))),
                }
            }
        },
    }
}

/// The OR of the output values of the source nodes `srcs`, threading the memo
/// left to right. An empty fan-in reads as `false`; a fan-in of several
/// sources resolves to the logical OR of their values. Every source is
/// evaluated — the OR does not short-circuit — so the memo a pass leaves
/// behind never depends on the values that were found along the way.
pub open spec fn s_eval_srcs(
    g: GraphView,
    t: u64,
    srcs: Seq<usize>,
    m: Seq<PinState>,
    fuel: nat,
) -> Option<(bool, Seq<PinState>)>
    decreases fuel, 1int, srcs.len(),
{
    if srcs.len() == 0 {
        Some((false, m))
    } else {
        let n = srcs[0];
        let head = match g.nodes[n as int] {
            None => Some((false, m)),
            Some(nd) => {
                if s_src_arity(nd) == 0 {
                    Some((s_node_value(nd, t, false, false), m))
                } else if s_src_arity(nd) == 1 {
                    match s_eval(g, t, n, 0, m, fuel) {
                        None => None,
                        Some((v0, m1)) => Some((s_node_value(nd, t, v0, false), m1)),
                    }
                } else {
                    match s_eval(g, t, n, 0, m, fuel) {
                        None => None,
                        Some((v0, m1)) => match s_eval(g, t, n, 1, m1, fuel) {
                            None => None,
                            Some((v1, m2)) => Some((s_node_value(nd, t, v0, v1), m2)),
                        },
                    }
                }
            },
        };
        match head {
            None => None,
            Some((v, mh)) => match s_eval_srcs(g, t, srcs.skip(1), mh, fuel) {
                None => None,
                Some((rest, mr)) => Some((v || rest, mr)),
            },
        }
    }
}

/// The value at input pin (`node`, `input`) at tick `t`, evaluated with a
/// fresh memo and sufficient fuel.
pub open spec fn s_pin_value(g: GraphView, t: u64, node: usize, input: usize) -> bool {
    match s_eval(g, t, node, input, s_init_memo(g.nodes.len()), s_fuel(g)) {
        Some((v, m)) => v,
        None => false,
    }
}

/// One full refresh at tick `t`, walking the node slots from `i` upward with
/// memo `m`: for each slot, the value its `Output` node receives, or `None`
/// where the slot holds no `Output` node. The memo is threaded from one
/// output to the next, as the executable refresh does.
pub open spec fn s_out_vals(g: GraphView, t: u64, i: int, m: Seq<PinState>) -> Seq<Option<bool>>
    decreases g.nodes.len() - i,
{
    if i < 0 || i >= g.nodes.len() {
        Seq::empty()
    } else {
        match g.nodes[i] {
            Some(Node::Output(_)) => match s_eval(g, t, i as usize, 0, m, s_fuel(g)) {
                Some((v, m2)) => seq![Some(v)] + s_out_vals(g, t, i + 1, m2),
                None => seq![None::<bool>] + s_out_vals(g, t, i + 1, m),
            },
            _ => seq![None::<bool>] + s_out_vals(g, t, i + 1, m),
        }
    }
}

/// A node slot after a refresh: an `Output` node takes the freshly computed
/// value; every other slot is unchanged.
pub open spec fn s_refresh_node(nd: Option<Node>, v: Option<bool>) -> Option<Node> {
    match (nd, v) {
        (Some(Node::Output(_)), Some(b)) => Some(Node::Output(b)),
        _ => nd,
    }
}

/// The node slots of a graph after one full refresh at tick `t`.
pub open spec fn s_refreshed(g: GraphView, t: u64) -> Seq<Option<Node>> {
    let vals = s_out_vals(g, t, 0, s_init_memo(g.nodes.len()));
    Seq::new(g.nodes.len(), |j: int| s_refresh_node(g.nodes[j], vals[j]))
}

/// No memo has more unvisited pins than it has pins.
pub proof fn lemma_unvisited_le_len(m: Seq<PinState>)
    ensures
        unvisited_count(m) <= m.len(),
    decreases m.len(),
{
    if m.len() > 0 {
        lemma_unvisited_le_len(m.drop_last());
    }
}

/// Writing a non-unvisited state into a slot lowers the unvisited count by
/// one when the slot was unvisited, and keeps it otherwise.
pub proof fn lemma_unvisited_update(m: Seq<PinState>, p: int, st: PinState)
    requires
        0 <= p < m.len(),
        !(st is Unvisited),
    ensures
        unvisited_count(m.update(p, st)) == unvisited_count(m) - (if m[p] is Unvisited {
            1int
        } else {
            0int
        }),
    decreases m.len(),
{
    let m2 = m.update(p, st);
    if p == m.len() - 1 {
        assert(m2.drop_last() =~= m.drop_last());
    } else {
        assert(m2.drop_last() =~= m.drop_last().update(p, st));
        assert(m.drop_last()[p] == m[p]);
        lemma_unvisited_update(m.drop_last(), p, st);
    }
}

} // verus!
