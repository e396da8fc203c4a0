//! Laws of the evaluator and of the clock, stated over the model and proved
//! once and for all.

use vstd::prelude::*;

use crate::model::{
    s_eval, s_eval_srcs, s_fuel, s_init_memo, s_pin, s_pin_value, s_sources, s_srcs_minus,
    s_wires_without, wf, wire_ok, GraphView, PinState, Wire,
};
use crate::model::{lemma_unvisited_le_len, lemma_unvisited_update, unvisited_count};
use crate::node::Node;
use crate::sim::{s_advanced, s_fires, Simulation};

verus! {

/// A buffer node forwards its single input's value unchanged: a fan-in made
/// of one buffer evaluates, against any memo and any fuel, to exactly what
/// the buffer's own input pin evaluates to, with the same memo afterwards.
pub proof fn lemma_buffer_passthrough(g: GraphView, t: u64, b: usize, m: Seq<PinState>, fuel: nat)
    requires
        g.nodes[b as int] == Some(Node::Node),
    ensures
        s_eval_srcs(g, t, seq![b], m, fuel) == s_eval(g, t, b, 0, m, fuel),
{
    let srcs = seq![b];
    assert(srcs[0] == b);
    assert(srcs.skip(1) =~= Seq::<usize>::empty());
    if s_eval(g, t, b, 0, m, fuel) is Some {
        let v0 = s_eval(g, t, b, 0, m, fuel)->Some_0.0;
        let m1 = s_eval(g, t, b, 0, m, fuel)->Some_0.1;
        assert(s_eval_srcs(g, t, srcs.skip(1), m1, fuel) == Some((false, m1)));
        assert(s_eval_srcs(g, t, srcs, m, fuel) == Some((v0, m1)));
    }
}

/// Double negation: a pin fed by a `Not` gate, itself fed by a second `Not`
/// gate, itself fed by an externally set `Input`, reads the input's value
/// unchanged.
pub proof fn lemma_double_negation(
    g: GraphView,
    t: u64,
    node: usize,
    input: usize,
    n1: usize,
    n2: usize,
    x: usize,
    v: bool,
)
    requires
        node < g.nodes.len(),
        input < 2,
        n1 < g.nodes.len(),
        n2 < g.nodes.len(),
        x < g.nodes.len(),
        node != n1,
        node != n2,
        n1 != n2,
        s_sources(g.wires, node, input) == seq![n1],
        g.nodes[n1 as int] == Some(Node::Not),
        s_sources(g.wires, n1, 0) == seq![n2],
        g.nodes[n2 as int] == Some(Node::Not),
        s_sources(g.wires, n2, 0) == seq![x],
        g.nodes[x as int] == Some(Node::Input(v)),
    ensures
        s_pin_value(g, t, node, input) == v,
{
    let len = g.nodes.len();
    let m0 = s_init_memo(len);
    let fuel = s_fuel(g);
    let p = s_pin(node, input);
    let p1 = s_pin(n1, 0);
    let p2 = s_pin(n2, 0);
    assert(m0[p] is Unvisited);
    let m1 = m0.update(p, PinState::InProgress);
    assert(m1[p1] is Unvisited);
    let m2 = m1.update(p1, PinState::InProgress);
    assert(m2[p2] is Unvisited);
    let m3 = m2.update(p2, PinState::InProgress);

    // innermost fan-in: the input node
    assert(seq![x].skip(1) =~= Seq::<usize>::empty());
    assert(s_eval_srcs(g, t, seq![x].skip(1), m3, (fuel - 3) as nat) == Some((false, m3)));
    assert(s_eval_srcs(g, t, seq![x], m3, (fuel - 3) as nat) == Some((v, m3)));

    // the inner Not gate
    let m4 = m3.update(p2, PinState::Resolved(v));
    assert(s_eval(g, t, n2, 0, m2, (fuel - 2) as nat) == Some((v, m4)));
    assert(seq![n2].skip(1) =~= Seq::<usize>::empty());
    assert(s_eval_srcs(g, t, seq![n2].skip(1), m4, (fuel - 2) as nat) == Some((false, m4)));
    assert(s_eval_srcs(g, t, seq![n2], m2, (fuel - 2) as nat) == Some((!v, m4)));

    // the outer Not gate
    let m5 = m4.update(p1, PinState::Resolved(!v));
    assert(s_eval(g, t, n1, 0, m1, (fuel - 1) as nat) == Some((!v, m5)));
    assert(seq![n1].skip(1) =~= Seq::<usize>::empty());
    assert(s_eval_srcs(g, t, seq![n1].skip(1), m5, (fuel - 1) as nat) == Some((false, m5)));
    assert(s_eval_srcs(g, t, seq![n1], m1, (fuel - 1) as nat) == Some((v, m5)));

    assert(s_eval(g, t, node, input, m0, fuel) == Some((v, m5.update(p, PinState::Resolved(v)))));
}

/// The cross-coupled `Nand` pair reaches a stable fixed point under the
/// one-tick-delay cycle policy: a pin demanded afresh that reads `nand_a` of
/// the pair (`nand_a` fed by the external input `s` and by `nand_b`;
/// `nand_b` fed by the external input `r` and by `nand_a`) always evaluates
/// to `!(s && !r)`, whatever the tick — so the value is the same on every
/// tick, and the evaluation of the feedback loop terminates by construction.
/// Applying the lemma with the two gates and the two externals swapped gives
/// the opposite side of the latch, `!(r && !s)`.
pub proof fn lemma_nand_latch_stabilizes(
    g: GraphView,
    t: u64,
    node: usize,
    input: usize,
    na: usize,
    nb: usize,
    sa: usize,
    ra: usize,
    s: bool,
    r: bool,
)
    requires
        node < g.nodes.len(),
        input < 2,
        na < g.nodes.len(),
        nb < g.nodes.len(),
        node != na,
        node != nb,
        na != nb,
        s_sources(g.wires, node, input) == seq![na],
        g.nodes[na as int] == Some(Node::Nand),
        g.nodes[nb as int] == Some(Node::Nand),
        s_sources(g.wires, na, 0) == seq![sa],
        g.nodes[sa as int] == Some(Node::Input(s)),
        s_sources(g.wires, na, 1) == seq![nb],
        s_sources(g.wires, nb, 0) == seq![ra],
        g.nodes[ra as int] == Some(Node::Input(r)),
        s_sources(g.wires, nb, 1) == seq![na],
    ensures
        s_pin_value(g, t, node, input) == !(s && !r),
{
    let len = g.nodes.len();
    let m0 = s_init_memo(len);
    let fuel = s_fuel(g);
    let p = s_pin(node, input);
    let pa0 = s_pin(na, 0);
    let pa1 = s_pin(na, 1);
    let pb0 = s_pin(nb, 0);
    let pb1 = s_pin(nb, 1);

    assert(m0[p] is Unvisited);
    let m1 = m0.update(p, PinState::InProgress);

    // nand_a's first pin reads the external s
    assert(m1[pa0] is Unvisited);
    let m2 = m1.update(pa0, PinState::InProgress);
    assert(seq![sa].skip(1) =~= Seq::<usize>::empty());
    assert(s_eval_srcs(g, t, seq![sa].skip(1), m2, (fuel - 2) as nat) == Some((false, m2)));
    assert(s_eval_srcs(g, t, seq![sa], m2, (fuel - 2) as nat) == Some((s, m2)));
    let m3 = m2.update(pa0, PinState::Resolved(s));
    assert(s_eval(g, t, na, 0, m1, (fuel - 1) as nat) == Some((s, m3)));

    // nand_a's second pin demands nand_b
    assert(m3[pa1] is Unvisited);
    let m4 = m3.update(pa1, PinState::InProgress);

    // nand_b's first pin reads the external r
    assert(m4[pb0] is Unvisited);
    let m5 = m4.update(pb0, PinState::InProgress);
    assert(seq![ra].skip(1) =~= Seq::<usize>::empty());
    assert(s_eval_srcs(g, t, seq![ra].skip(1), m5, (fuel - 3) as nat) == Some((false, m5)));
    assert(s_eval_srcs(g, t, seq![ra], m5, (fuel - 3) as nat) == Some((r, m5)));
    let m6 = m5.update(pb0, PinState::Resolved(r));
    assert(s_eval(g, t, nb, 0, m4, (fuel - 2) as nat) == Some((r, m6)));

    // nand_b's second pin re-enters nand_a: its first pin is already
    // resolved to s, its second is still in progress and reads false — the
    // feedback edge contributes no signal, so nand_a answers true here
    assert(m6[pb1] is Unvisited);
    let m7 = m6.update(pb1, PinState::InProgress);
    assert(m7[pa0] == PinState::Resolved(s));
    assert(s_eval(g, t, na, 0, m7, (fuel - 3) as nat) == Some((s, m7)));
    assert(m7[pa1] is InProgress);
    assert(s_eval(g, t, na, 1, m7, (fuel - 3) as nat) == Some((false, m7)));
    assert(seq![na].skip(1) =~= Seq::<usize>::empty());
    assert(s_eval_srcs(g, t, seq![na].skip(1), m7, (fuel - 3) as nat) == Some((false, m7)));
    assert(s_eval_srcs(g, t, seq![na], m7, (fuel - 3) as nat) == Some((true, m7)));
    let m8 = m7.update(pb1, PinState::Resolved(true));
    assert(s_eval(g, t, nb, 1, m6, (fuel - 2) as nat) == Some((true, m8)));

    // nand_b's value is Nand(r, true) == !r
    assert(seq![nb].skip(1) =~= Seq::<usize>::empty());
    assert(s_eval_srcs(g, t, seq![nb].skip(1), m8, (fuel - 2) as nat) == Some((false, m8)));
    assert(s_eval_srcs(g, t, seq![nb], m4, (fuel - 2) as nat) == Some((!r, m8)));
    let m9 = m8.update(pa1, PinState::Resolved(!r));
    assert(s_eval(g, t, na, 1, m3, (fuel - 1) as nat) == Some((!r, m9)));

    // nand_a's value is Nand(s, !r)
    let v = !(s && !r);
    assert(seq![na].skip(1) =~= Seq::<usize>::empty());
    assert(s_eval_srcs(g, t, seq![na].skip(1), m9, (fuel - 1) as nat) == Some((false, m9)));
    assert(s_eval_srcs(g, t, seq![na], m1, (fuel - 1) as nat) == Some((v, m9)));
    assert(s_eval(g, t, node, input, m0, fuel) == Some((v, m9.update(p, PinState::Resolved(v)))));
}

/// A pin fed by the free-running `Clock` node reads the tick parity: `true`
/// exactly on even ticks.
pub proof fn lemma_clock_parity(g: GraphView, t: u64, node: usize, input: usize, c: usize)
    requires
        node < g.nodes.len(),
        input < 2,
        s_sources(g.wires, node, input) == seq![c],
        g.nodes[c as int] == Some(Node::Clock),
    ensures
        s_pin_value(g, t, node, input) == (t % 2 == 0),
{
    let m0 = s_init_memo(g.nodes.len());
    let fuel = s_fuel(g);
    let p = s_pin(node, input);
    assert(m0[p] is Unvisited);
    let m1 = m0.update(p, PinState::InProgress);
    assert(seq![c].skip(1) =~= Seq::<usize>::empty());
    assert(s_eval_srcs(g, t, seq![c].skip(1), m1, (fuel - 1) as nat) == Some((false, m1)));
    assert(s_eval_srcs(g, t, seq![c], m1, (fuel - 1) as nat) == Some((t % 2 == 0, m1)));
    let v = t % 2 == 0;
    assert(s_eval(g, t, node, input, m0, fuel) == Some((v, m1.update(p, PinState::Resolved(v)))));
}

/// Two consecutive refreshes of a clock-fed pin differ: the parity strictly
/// alternates from one tick to the next.
pub proof fn lemma_clock_alternates(g: GraphView, t: u64, node: usize, input: usize, c: usize)
    requires
        node < g.nodes.len(),
        input < 2,
        s_sources(g.wires, node, input) == seq![c],
        g.nodes[c as int] == Some(Node::Clock),
        t < u64::MAX,
    ensures
        s_pin_value(g, t, node, input) != s_pin_value(g, (t + 1) as u64, node, input),
{
    lemma_clock_parity(g, t, node, input, c);
    lemma_clock_parity(g, (t + 1) as u64, node, input, c);
    assert((t % 2 == 0) != ((t + 1) % 2 == 0));
}

/// Fan-in OR rule: a pin wired to two externally set `Input` nodes reads the
/// logical OR of their payloads.
pub proof fn lemma_fan_in_or(
    g: GraphView,
    t: u64,
    node: usize,
    input: usize,
    a: usize,
    b: usize,
    va: bool,
    vb: bool,
)
    requires
        node < g.nodes.len(),
        input < 2,
        s_sources(g.wires, node, input) == seq![a, b],
        g.nodes[a as int] == Some(Node::Input(va)),
        g.nodes[b as int] == Some(Node::Input(vb)),
    ensures
        s_pin_value(g, t, node, input) == (va || vb),
{
    let m0 = s_init_memo(g.nodes.len());
    let fuel = s_fuel(g);
    let p = s_pin(node, input);
    assert(m0[p] is Unvisited);
    let m1 = m0.update(p, PinState::InProgress);
    let srcs = seq![a, b];
    assert(srcs[0] == a);
    assert(srcs.skip(1) =~= seq![b]);
    assert(seq![b].skip(1) =~= Seq::<usize>::empty());
    assert(s_eval_srcs(g, t, seq![b].skip(1), m1, (fuel - 1) as nat) == Some((false, m1)));
    assert(s_eval_srcs(g, t, seq![b], m1, (fuel - 1) as nat) == Some((vb, m1)));
    assert(s_eval_srcs(g, t, srcs, m1, (fuel - 1) as nat) == Some((va || vb, m1)));
    let v = va || vb;
    assert(s_eval(g, t, node, input, m0, fuel) == Some((v, m1.update(p, PinState::Resolved(v)))));
}

/// What removing a node leaves of a pin's source list: a pin of the removed
/// node itself has none, and any other pin keeps its old sources with every
/// occurrence of the removed node dropped.
pub proof fn lemma_sources_after_removal(ws: Seq<Wire>, h: usize, dst: usize, input: usize)
    ensures
        s_sources(s_wires_without(ws, h), dst, input) == (if dst == h {
            Seq::<usize>::empty()
        } else {
            s_srcs_minus(s_sources(ws, dst, input), h)
        }),
    decreases ws.len(),
{
    if ws.len() == 0 {
    } else {
        lemma_sources_after_removal(ws.drop_last(), h, dst, input);
        let w = ws.last();
        let kept = s_wires_without(ws.drop_last(), h);
        if w.src != h && w.dst != h {
            assert(s_wires_without(ws, h) == kept.push(w));
            assert(kept.push(w).drop_last() =~= kept);
            assert(kept.push(w).last() == w);
            if dst != h && w.dst == dst && w.input == input {
                let old_srcs = s_sources(ws.drop_last(), dst, input);
                assert(s_sources(ws, dst, input) == old_srcs.push(w.src));
                assert(old_srcs.push(w.src).drop_last() =~= old_srcs);
                assert(old_srcs.push(w.src).last() == w.src);
            }
        } else {
            assert(s_wires_without(ws, h) == kept);
            if dst != h && w.dst == dst && w.input == input {
                // the wire ends at dst != h, so it must start at h
                let old_srcs = s_sources(ws.drop_last(), dst, input);
                assert(s_sources(ws, dst, input) == old_srcs.push(h));
                assert(old_srcs.push(h).drop_last() =~= old_srcs);
                assert(old_srcs.push(h).last() == h);
            }
        }
    }
}

/// Dropping a node from a source list really drops it: the result never
/// contains it, and a list made of nothing else becomes empty.
pub proof fn lemma_srcs_minus_clears(srcs: Seq<usize>, h: usize)
    ensures
        !s_srcs_minus(srcs, h).contains(h),
        (forall|k: int| 0 <= k < srcs.len() ==> srcs[k] == h) ==> s_srcs_minus(srcs, h).len()
            == 0,
    decreases srcs.len(),
{
    if srcs.len() > 0 {
        lemma_srcs_minus_clears(srcs.drop_last(), h);
        let rest = s_srcs_minus(srcs.drop_last(), h);
        if srcs.last() != h {
            if s_srcs_minus(srcs, h).contains(h) {
                let j = choose|j: int|
                    0 <= j < s_srcs_minus(srcs, h).len() && s_srcs_minus(srcs, h)[j] == h;
                assert(j < rest.len() ==> rest.contains(h));
                assert(false);
            }
        }
    }
}

/// Removing a node removes every connection referencing it: afterwards no
/// input pin lists it among its sources, and a pin that was fed by it alone
/// reads an empty source set.
pub proof fn lemma_remove_node_clears_sources(ws: Seq<Wire>, h: usize, dst: usize, input: usize)
    ensures
        !s_sources(s_wires_without(ws, h), dst, input).contains(h),
        (forall|k: int|
            0 <= k < s_sources(ws, dst, input).len() ==> s_sources(ws, dst, input)[k] == h)
            ==> s_sources(s_wires_without(ws, h), dst, input).len() == 0,
{
    lemma_sources_after_removal(ws, h, dst, input);
    if dst != h {
        lemma_srcs_minus_clears(s_sources(ws, dst, input), h);
    } else {
        assert(!Seq::<usize>::empty().contains(h));
    }
}

/// Direct substitution semantics: the value of a pin as the boolean
/// expression implied by the tree of gates — each `Input` payload substituted
/// through its gates, fan-in resolved by OR — with no memo at all. `fuel`
/// bounds the recursion depth; on a ranked (acyclic) circuit any fuel above
/// the pin's node rank suffices and the answer does not depend on it.
pub open spec fn s_subst(g: GraphView, t: u64, node: usize, input: usize, fuel: nat) -> Option<
    bool,
>
    decreases fuel, 1int, 0int,
{
    if fuel == 0 {
        None
    } else {
        s_subst_srcs(g, t, s_sources(g.wires, node, input), (fuel - 1) as nat)
    }
}

/// The OR of the substituted output values of the source nodes `srcs`.
pub open spec fn s_subst_srcs(g: GraphView, t: u64, srcs: Seq<usize>, fuel: nat) -> Option<bool>
    decreases fuel, 2int, srcs.len(),
{
    if srcs.len() == 0 {
        Some(false)
    } else {
        let n = srcs[0];
        let head = match g.nodes[n as int] {
            None => Some(false),
            Some(nd) => {
                if crate::node::s_src_arity(nd) == 0 {
                    Some(crate::node::s_node_value(nd, t, false, false))
                } else if crate::node::s_src_arity(nd) == 1 {
                    match s_subst(g, t, n, 0, fuel) {
                        None => None,
                        Some(v0) => Some(crate::node::s_node_value(nd, t, v0, false)),
                    }
                } else {
                    match (s_subst(g, t, n, 0, fuel), s_subst(g, t, n, 1, fuel)) {
                        (Some(v0), Some(v1)) => Some(crate::node::s_node_value(nd, t, v0, v1)),
                        _ => None,
                    }
                }
            },
        };
        match (head, s_subst_srcs(g, t, srcs.skip(1), fuel)) {
            (Some(v), Some(rest)) => Some(v || rest),
            _ => None,
        }
    }
}

/// A rank function witnessing that a circuit is acyclic: every wire strictly
/// climbs from its source node to its target node.
pub open spec fn ranked(g: GraphView, rank: Map<usize, nat>) -> bool {
    forall|k: int|
        0 <= k < g.wires.len() ==> rank[(#[trigger] g.wires[k]).src] < rank[g.wires[k].dst]
}

/// Every source of a pin is a live, bounded handle when every wire is well
/// formed.
proof fn lemma_sources_bounded(g: GraphView, ws: Seq<Wire>, dst: usize, input: usize)
    requires
        forall|k: int| 0 <= k < ws.len() ==> wire_ok(g, #[trigger] ws[k]),
    ensures
        forall|j: int|
            0 <= j < s_sources(ws, dst, input).len() ==> (#[trigger] s_sources(ws, dst, input)[j])
                < g.nodes.len(),
    decreases ws.len(),
{
    if ws.len() > 0 {
        assert(forall|k: int| 0 <= k < ws.drop_last().len() ==> ws.drop_last()[k] == ws[k]);
        lemma_sources_bounded(g, ws.drop_last(), dst, input);
        assert(wire_ok(g, ws.last())) by {
            assert(ws[ws.len() - 1] == ws.last());
        }
        let pre = s_sources(ws.drop_last(), dst, input);
        let cur = s_sources(ws, dst, input);
        assert forall|j: int| 0 <= j < cur.len() implies (#[trigger] cur[j]) < g.nodes.len() by {
            if j < pre.len() {
                assert(cur[j] == pre[j]);
            }
        }
    }
}

/// Under a rank witness, every source of a pin ranks strictly below the pin's
/// own node.
proof fn lemma_sources_ranked(rank: Map<usize, nat>, ws: Seq<Wire>, dst: usize, input: usize)
    requires
        forall|k: int| 0 <= k < ws.len() ==> rank[(#[trigger] ws[k]).src] < rank[ws[k].dst],
    ensures
        forall|j: int|
            0 <= j < s_sources(ws, dst, input).len() ==> rank[(#[trigger] s_sources(
                ws,
                dst,
                input,
            )[j])] < rank[dst],
    decreases ws.len(),
{
    if ws.len() > 0 {
        assert(forall|k: int| 0 <= k < ws.drop_last().len() ==> ws.drop_last()[k] == ws[k]);
        lemma_sources_ranked(rank, ws.drop_last(), dst, input);
        assert(rank[ws.last().src] < rank[ws.last().dst]) by {
            assert(ws[ws.len() - 1] == ws.last());
        }
        let pre = s_sources(ws.drop_last(), dst, input);
        let cur = s_sources(ws, dst, input);
        assert forall|j: int| 0 <= j < cur.len() implies rank[#[trigger] cur[j]] < rank[dst] by {
            if j < pre.len() {
                assert(cur[j] == pre[j]);
            }
        }
    }
}

/// On a ranked circuit the substitution semantics is total as soon as the
/// fuel exceeds the pin's node rank, and the answer does not depend on which
/// such fuel is used.
proof fn lemma_subst_defined(
    g: GraphView,
    t: u64,
    rank: Map<usize, nat>,
    node: usize,
    input: usize,
    fuel1: nat,
    fuel2: nat,
)
    requires
        ranked(g, rank),
        fuel1 > rank[node],
        fuel2 > rank[node],
    ensures
        s_subst(g, t, node, input, fuel1) is Some,
        s_subst(g, t, node, input, fuel1) == s_subst(g, t, node, input, fuel2),
    decreases fuel1, 1int, 0int,
{
    let srcs = s_sources(g.wires, node, input);
    lemma_sources_ranked(rank, g.wires, node, input);
    lemma_subst_srcs_defined(
        g,
        t,
        rank,
        srcs,
        rank[node],
        (fuel1 - 1) as nat,
        (fuel2 - 1) as nat,
    );
}

/// Companion of `lemma_subst_defined` for a source list whose ranks all lie
/// below a bound `b`.
proof fn lemma_subst_srcs_defined(
    g: GraphView,
    t: u64,
    rank: Map<usize, nat>,
    srcs: Seq<usize>,
    b: nat,
    fuel1: nat,
    fuel2: nat,
)
    requires
        ranked(g, rank),
        forall|j: int| 0 <= j < srcs.len() ==> rank[#[trigger] srcs[j]] < b,
        fuel1 >= b,
        fuel2 >= b,
    ensures
        s_subst_srcs(g, t, srcs, fuel1) is Some,
        s_subst_srcs(g, t, srcs, fuel1) == s_subst_srcs(g, t, srcs, fuel2),
    decreases fuel1, 2int, srcs.len(),
{
    if srcs.len() > 0 {
        let n = srcs[0];
        assert(rank[n] < b);
        match g.nodes[n as int] {
            None => {},
            Some(nd) => {
                if crate::node::s_src_arity(nd) >= 1 {
                    lemma_subst_defined(g, t, rank, n, 0, fuel1, fuel2);
                }
                if crate::node::s_src_arity(nd) >= 2 {
                    lemma_subst_defined(g, t, rank, n, 1, fuel1, fuel2);
                }
            },
        }
        assert(forall|j: int| 0 <= j < srcs.skip(1).len() ==> srcs.skip(1)[j] == srcs[j + 1]);
        lemma_subst_srcs_defined(g, t, rank, srcs.skip(1), b, fuel1, fuel2);
    }
}

/// With more fuel than there are unvisited pins, the memoizing evaluation of
/// a pin always answers, and never grows the unvisited count.
proof fn lemma_eval_defined(
    g: GraphView,
    t: u64,
    node: usize,
    input: usize,
    m: Seq<PinState>,
    fuel: nat,
)
    requires
        wf(g),
        node < g.nodes.len(),
        input < 2,
        m.len() == 2 * g.nodes.len(),
        fuel > unvisited_count(m),
    ensures
        s_eval(g, t, node, input, m, fuel) is Some,
        s_eval(g, t, node, input, m, fuel)->Some_0.1.len() == m.len(),
        unvisited_count(s_eval(g, t, node, input, m, fuel)->Some_0.1) <= unvisited_count(m),
    decreases fuel, 0int, 0int,
{
    let p = s_pin(node, input);
    if m[p] is Unvisited {
        let m1 = m.update(p, PinState::InProgress);
        lemma_unvisited_update(m, p, PinState::InProgress);
        lemma_sources_bounded(g, g.wires, node, input);
        let srcs = s_sources(g.wires, node, input);
        lemma_eval_srcs_defined(g, t, srcs, m1, (fuel - 1) as nat);
        let v = s_eval_srcs(g, t, srcs, m1, (fuel - 1) as nat)->Some_0.0;
        let m2 = s_eval_srcs(g, t, srcs, m1, (fuel - 1) as nat)->Some_0.1;
        lemma_unvisited_update(m2, p, PinState::Resolved(v));
    }
}

/// Companion of `lemma_eval_defined` for a list of live source nodes.
proof fn lemma_eval_srcs_defined(
    g: GraphView,
    t: u64,
    srcs: Seq<usize>,
    m: Seq<PinState>,
    fuel: nat,
)
    requires
        wf(g),
        forall|j: int| 0 <= j < srcs.len() ==> (#[trigger] srcs[j]) < g.nodes.len(),
        m.len() == 2 * g.nodes.len(),
        fuel > unvisited_count(m),
    ensures
        s_eval_srcs(g, t, srcs, m, fuel) is Some,
        s_eval_srcs(g, t, srcs, m, fuel)->Some_0.1.len() == m.len(),
        unvisited_count(s_eval_srcs(g, t, srcs, m, fuel)->Some_0.1) <= unvisited_count(m),
    decreases fuel, 1int, srcs.len(),
{
    if srcs.len() > 0 {
        let n = srcs[0];
        let mh: Seq<PinState> = match g.nodes[n as int] {
            None => m,
            Some(nd) => {
                if crate::node::s_src_arity(nd) == 0 {
                    m
                } else if crate::node::s_src_arity(nd) == 1 {
                    lemma_eval_defined(g, t, n, 0, m, fuel);
                    s_eval(g, t, n, 0, m, fuel)->Some_0.1
                } else {
                    lemma_eval_defined(g, t, n, 0, m, fuel);
                    let m1 = s_eval(g, t, n, 0, m, fuel)->Some_0.1;
                    lemma_eval_defined(g, t, n, 1, m1, fuel);
                    s_eval(g, t, n, 1, m1, fuel)->Some_0.1
                }
            },
        };
        assert(forall|j: int| 0 <= j < srcs.skip(1).len() ==> srcs.skip(1)[j] == srcs[j + 1]);
        lemma_eval_srcs_defined(g, t, srcs.skip(1), mh, fuel);
    }
}

/// Every resolved pin of the memo already carries its substitution value.
pub open spec fn memo_sound(
    g: GraphView,
    t: u64,
    rank: Map<usize, nat>,
    m: Seq<PinState>,
) -> bool {
    forall|d: usize, i: usize|
        d < g.nodes.len() && i < 2 && (#[trigger] m[s_pin(d, i)]) is Resolved ==> Some(
            m[s_pin(d, i)]->Resolved_0,
        ) == s_subst(g, t, d, i, (rank[d] + 1) as nat)
}

/// Every in-progress pin of the memo sits at rank `b` or above.
pub open spec fn inprog_at_least(
    g: GraphView,
    rank: Map<usize, nat>,
    m: Seq<PinState>,
    b: nat,
) -> bool {
    forall|d: usize, i: usize|
        d < g.nodes.len() && i < 2 && (#[trigger] m[s_pin(d, i)]) is InProgress ==> rank[d] >= b
}

/// The two memos mark exactly the same pins in progress.
pub open spec fn same_inprog(m1: Seq<PinState>, m2: Seq<PinState>) -> bool {
    &&& m1.len() == m2.len()
    &&& forall|q: int|
        0 <= q < m1.len() ==> ((#[trigger] m1[q]) is InProgress <==> m2[q] is InProgress)
}

/// A rank bound on the in-progress pins carries across memos that mark the
/// same pins in progress.
proof fn lemma_inprog_transfer(
    g: GraphView,
    rank: Map<usize, nat>,
    m1: Seq<PinState>,
    m2: Seq<PinState>,
    b: nat,
)
    requires
        m1.len() == 2 * g.nodes.len(),
        same_inprog(m1, m2),
        inprog_at_least(g, rank, m1, b),
    ensures
        inprog_at_least(g, rank, m2, b),
{
    assert forall|d: usize, i: usize|
        d < g.nodes.len() && i < 2 && (#[trigger] m2[s_pin(d, i)]) is InProgress implies rank[d]
        >= b by {
        assert(m1[s_pin(d, i)] is InProgress);
    }
}

/// The heart of the acyclic law: against a memo whose resolved pins are
/// sound and whose in-progress pins all rank strictly above the demanded
/// pin's node, the memoizing evaluation computes exactly the substitution
/// value, leaves the memo sound, and marks no new pin in progress. The rank
/// hypothesis is what makes the in-progress (cycle) branch unreachable.
proof fn lemma_eval_subst(
    g: GraphView,
    t: u64,
    rank: Map<usize, nat>,
    node: usize,
    input: usize,
    m: Seq<PinState>,
    fuel: nat,
)
    requires
        wf(g),
        ranked(g, rank),
        node < g.nodes.len(),
        input < 2,
        m.len() == 2 * g.nodes.len(),
        memo_sound(g, t, rank, m),
        inprog_at_least(g, rank, m, (rank[node] + 1) as nat),
        s_eval(g, t, node, input, m, fuel) is Some,
    ensures
        memo_sound(g, t, rank, s_eval(g, t, node, input, m, fuel)->Some_0.1),
        same_inprog(m, s_eval(g, t, node, input, m, fuel)->Some_0.1),
        Some(s_eval(g, t, node, input, m, fuel)->Some_0.0) == s_subst(
            g,
            t,
            node,
            input,
            (rank[node] + 1) as nat,
        ),
    decreases fuel, 0int, 0int,
{
    let p = s_pin(node, input);
    if m[p] is Resolved {
        assert(m[s_pin(node, input)] is Resolved);
    } else if m[p] is InProgress {
        assert(m[s_pin(node, input)] is InProgress);
        assert(rank[node] >= rank[node] + 1);
        assert(false);
    } else {
        let m1 = m.update(p, PinState::InProgress);
        let srcs = s_sources(g.wires, node, input);
        lemma_sources_bounded(g, g.wires, node, input);
        lemma_sources_ranked(rank, g.wires, node, input);
        assert(memo_sound(g, t, rank, m1)) by {
            assert forall|d: usize, i: usize|
                d < g.nodes.len() && i < 2 && (#[trigger] m1[s_pin(d, i)]) is Resolved implies
                Some(m1[s_pin(d, i)]->Resolved_0) == s_subst(g, t, d, i, (rank[d] + 1) as nat) by {
                assert(s_pin(d, i) != p);
                assert(m1[s_pin(d, i)] == m[s_pin(d, i)]);
            }
        }
        assert(inprog_at_least(g, rank, m1, rank[node])) by {
            assert forall|d: usize, i: usize|
                d < g.nodes.len() && i < 2 && (#[trigger] m1[s_pin(d, i)]) is InProgress implies
                rank[d] >= rank[node] by {
                if s_pin(d, i) != p {
                    assert(m[s_pin(d, i)] is InProgress);
                } else {
                    assert(d == node);
                }
            }
        }
        lemma_eval_srcs_subst(g, t, rank, srcs, m1, (fuel - 1) as nat, rank[node]);
        let v = s_eval_srcs(g, t, srcs, m1, (fuel - 1) as nat)->Some_0.0;
        let m2 = s_eval_srcs(g, t, srcs, m1, (fuel - 1) as nat)->Some_0.1;
        let m3 = m2.update(p, PinState::Resolved(v));
        assert(s_eval(g, t, node, input, m, fuel)->Some_0.1 == m3);
        assert(Some(v) == s_subst_srcs(g, t, srcs, rank[node]));
        assert(memo_sound(g, t, rank, m3)) by {
            assert forall|d: usize, i: usize|
                d < g.nodes.len() && i < 2 && (#[trigger] m3[s_pin(d, i)]) is Resolved implies
                Some(m3[s_pin(d, i)]->Resolved_0) == s_subst(g, t, d, i, (rank[d] + 1) as nat) by {
                if s_pin(d, i) == p {
                    assert(d == node && i == input);
                } else {
                    assert(m3[s_pin(d, i)] == m2[s_pin(d, i)]);
                }
            }
        }
        assert(same_inprog(m, m3)) by {
            assert forall|q: int|
                0 <= q < m.len() implies ((#[trigger] m[q]) is InProgress
                <==> m3[q] is InProgress) by {
                if q != p {
                    assert(m1[q] == m[q]);
                    assert(m1[q] is InProgress <==> m2[q] is InProgress);
                    assert(m3[q] == m2[q]);
                }
            }
        }
    }
}

/// Companion of `lemma_eval_subst` for a list of sources whose ranks all lie
/// strictly below a bound `b`.
proof fn lemma_eval_srcs_subst(
    g: GraphView,
    t: u64,
    rank: Map<usize, nat>,
    srcs: Seq<usize>,
    m: Seq<PinState>,
    fuel: nat,
    b: nat,
)
    requires
        wf(g),
        ranked(g, rank),
        forall|j: int|
            0 <= j < srcs.len() ==> (#[trigger] srcs[j]) < g.nodes.len() && rank[srcs[j]] < b,
        m.len() == 2 * g.nodes.len(),
        memo_sound(g, t, rank, m),
        inprog_at_least(g, rank, m, b),
        s_eval_srcs(g, t, srcs, m, fuel) is Some,
    ensures
        memo_sound(g, t, rank, s_eval_srcs(g, t, srcs, m, fuel)->Some_0.1),
        same_inprog(m, s_eval_srcs(g, t, srcs, m, fuel)->Some_0.1),
        Some(s_eval_srcs(g, t, srcs, m, fuel)->Some_0.0) == s_subst_srcs(g, t, srcs, b),
    decreases fuel, 1int, srcs.len(),
{
    if srcs.len() > 0 {
        let n = srcs[0];
        assert(n < g.nodes.len() && rank[n] < b);
        let mh: Seq<PinState> = match g.nodes[n as int] {
            None => m,
            Some(nd) => {
                if crate::node::s_src_arity(nd) == 0 {
                    m
                } else if crate::node::s_src_arity(nd) == 1 {
                    assert(inprog_at_least(g, rank, m, (rank[n] + 1) as nat));
                    lemma_eval_subst(g, t, rank, n, 0, m, fuel);
                    lemma_subst_defined(g, t, rank, n, 0, b, (rank[n] + 1) as nat);
                    s_eval(g, t, n, 0, m, fuel)->Some_0.1
                } else {
                    assert(inprog_at_least(g, rank, m, (rank[n] + 1) as nat));
                    lemma_eval_subst(g, t, rank, n, 0, m, fuel);
                    lemma_subst_defined(g, t, rank, n, 0, b, (rank[n] + 1) as nat);
                    let m1 = s_eval(g, t, n, 0, m, fuel)->Some_0.1;
                    lemma_inprog_transfer(g, rank, m, m1, (rank[n] + 1) as nat);
                    lemma_eval_subst(g, t, rank, n, 1, m1, fuel);
                    lemma_subst_defined(g, t, rank, n, 1, b, (rank[n] + 1) as nat);
                    s_eval(g, t, n, 1, m1, fuel)->Some_0.1
                }
            },
        };
        assert(forall|j: int| 0 <= j < srcs.skip(1).len() ==> srcs.skip(1)[j] == srcs[j + 1]);
        lemma_inprog_transfer(g, rank, m, mh, b);
        lemma_eval_srcs_subst(g, t, rank, srcs.skip(1), mh, fuel, b);
    }
}

/// For all acyclic circuits — those whose wires admit a rank witness that
/// strictly climbs from source to target — the demand-driven, memoizing
/// evaluation of a pin is equivalent to directly substituting each `Input`'s
/// payload through the boolean expression implied by the tree of gates (the
/// substitution semantics `s_subst`, which is total on such circuits).
pub proof fn lemma_acyclic_eval_is_substitution(
    g: GraphView,
    t: u64,
    rank: Map<usize, nat>,
    node: usize,
    input: usize,
)
    requires
        wf(g),
        ranked(g, rank),
        node < g.nodes.len(),
        input < 2,
    ensures
        s_subst(g, t, node, input, (rank[node] + 1) as nat) is Some,
        Some(s_pin_value(g, t, node, input)) == s_subst(
            g,
            t,
            node,
            input,
            (rank[node] + 1) as nat,
        ),
{
    let m0 = s_init_memo(g.nodes.len());
    lemma_unvisited_le_len(m0);
    lemma_eval_defined(g, t, node, input, m0, s_fuel(g));
    assert(memo_sound(g, t, rank, m0)) by {
        assert forall|d: usize, i: usize|
            d < g.nodes.len() && i < 2 implies !((#[trigger] m0[s_pin(d, i)]) is Resolved)
            && !(m0[s_pin(d, i)] is InProgress) by {
            assert(0 <= s_pin(d, i) < m0.len());
        }
    }
    assert(inprog_at_least(g, rank, m0, (rank[node] + 1) as nat));
    lemma_eval_subst(g, t, rank, node, input, m0, s_fuel(g));
    lemma_subst_defined(
        g,
        t,
        rank,
        node,
        input,
        (rank[node] + 1) as nat,
        (rank[node] + 1) as nat,
    );
}

/// With the rate set to zero the period is zero, so every frame fires while
/// the clock runs, whatever the frame time.
pub proof fn lemma_zero_period_always_fires(s: Simulation, dt_ns: u64)
    requires
        !s.paused,
        s.period_ns == 0,
    ensures
        s_fires(s, dt_ns),
{
}

/// While paused, a frame neither fires nor changes the clock at all: the tick
/// counter is frozen until a step or an unpause.
pub proof fn lemma_paused_freezes(s: Simulation, dt_ns: u64)
    requires
        s.paused,
    ensures
        !s_fires(s, dt_ns),
        s_advanced(s, dt_ns) == s,
{
}

} // verus!
