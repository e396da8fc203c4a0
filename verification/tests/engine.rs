//! Tests of the circuit graph and of the evaluator.

use logic_sim::graph::Graph;
use logic_sim::node::Node;
use logic_sim::sim::Simulation;

/// One gate wired to two inputs and one output:
/// `in_a -> gate.0`, `in_b -> gate.1`, `gate -> out.0`.
/// Returns (graph, handle of in_a, handle of in_b, handle of out).
fn two_input_rig(gate: Node, a: bool, b: bool) -> (Graph, usize, usize, usize) {
    let mut g = Graph::new();
    let ia = g.insert_node(Node::Input(a));
    let ib = g.insert_node(Node::Input(b));
    let gt = g.insert_node(gate);
    let out = g.insert_node(Node::Output(false));
    g.connect(ia, gt, 0).unwrap();
    g.connect(ib, gt, 1).unwrap();
    g.connect(gt, out, 0).unwrap();
    (g, ia, ib, out)
}

fn gate_result(gate: Node, a: bool, b: bool) -> bool {
    let (mut g, _, _, out) = two_input_rig(gate, a, b);
    g.refresh(1);
    g.get_payload(out).unwrap()
}

#[test]
fn nand_substitution_example() {
    // substituting payloads through the tree of gates: Nand(true, false) == true
    assert_eq!(gate_result(Node::Nand, true, false), true);
}

#[test]
fn and_truth_table() {
    assert_eq!(gate_result(Node::And, false, false), false);
    assert_eq!(gate_result(Node::And, false, true), false);
    assert_eq!(gate_result(Node::And, true, false), false);
    assert_eq!(gate_result(Node::And, true, true), true);
}

#[test]
fn or_truth_table() {
    assert_eq!(gate_result(Node::Or, false, false), false);
    assert_eq!(gate_result(Node::Or, false, true), true);
    assert_eq!(gate_result(Node::Or, true, false), true);
    assert_eq!(gate_result(Node::Or, true, true), true);
}

#[test]
fn xor_truth_table() {
    assert_eq!(gate_result(Node::Xor, false, false), false);
    assert_eq!(gate_result(Node::Xor, false, true), true);
    assert_eq!(gate_result(Node::Xor, true, false), true);
    assert_eq!(gate_result(Node::Xor, true, true), false);
}

#[test]
fn nor_truth_table() {
    assert_eq!(gate_result(Node::Nor, false, false), true);
    assert_eq!(gate_result(Node::Nor, false, true), false);
    assert_eq!(gate_result(Node::Nor, true, false), false);
    assert_eq!(gate_result(Node::Nor, true, true), false);
}

#[test]
fn xnor_truth_table() {
    assert_eq!(gate_result(Node::Xnor, false, false), true);
    assert_eq!(gate_result(Node::Xnor, false, true), false);
    assert_eq!(gate_result(Node::Xnor, true, false), false);
    assert_eq!(gate_result(Node::Xnor, true, true), true);
}

#[test]
fn nand_truth_table() {
    assert_eq!(gate_result(Node::Nand, false, false), true);
    assert_eq!(gate_result(Node::Nand, false, true), true);
    assert_eq!(gate_result(Node::Nand, true, false), true);
    assert_eq!(gate_result(Node::Nand, true, true), false);
}

#[test]
fn buffer_passes_value_through() {
    for v in [false, true] {
        let mut g = Graph::new();
        let i = g.insert_node(Node::Input(v));
        let buf = g.insert_node(Node::Node);
        let out = g.insert_node(Node::Output(!v));
        g.connect(i, buf, 0).unwrap();
        g.connect(buf, out, 0).unwrap();
        g.refresh(1);
        assert_eq!(g.get_payload(out), Some(v));
    }
}

#[test]
fn double_negation_restores_value() {
    for v in [false, true] {
        let mut g = Graph::new();
        let i = g.insert_node(Node::Input(v));
        let not1 = g.insert_node(Node::Not);
        let not2 = g.insert_node(Node::Not);
        let out = g.insert_node(Node::Output(!v));
        g.connect(i, not1, 0).unwrap();
        g.connect(not1, not2, 0).unwrap();
        g.connect(not2, out, 0).unwrap();
        g.refresh(1);
        assert_eq!(g.get_payload(out), Some(v));
    }
}

#[test]
fn single_not_inverts() {
    for v in [false, true] {
        let mut g = Graph::new();
        let i = g.insert_node(Node::Input(v));
        let not = g.insert_node(Node::Not);
        let out = g.insert_node(Node::Output(v));
        g.connect(i, not, 0).unwrap();
        g.connect(not, out, 0).unwrap();
        g.refresh(1);
        assert_eq!(g.get_payload(out), Some(!v));
    }
}

#[test]
fn fan_in_is_logical_or() {
    // two Input sources (true, false) wired to the same input pin yield true
    let mut g = Graph::new();
    let ia = g.insert_node(Node::Input(true));
    let ib = g.insert_node(Node::Input(false));
    let out = g.insert_node(Node::Output(false));
    g.connect(ia, out, 0).unwrap();
    g.connect(ib, out, 0).unwrap();
    assert_eq!(g.pin_value(out, 0, 1), true);
    g.refresh(1);
    assert_eq!(g.get_payload(out), Some(true));
}

#[test]
fn fan_in_of_two_false_inputs_is_false() {
    let mut g = Graph::new();
    let ia = g.insert_node(Node::Input(false));
    let ib = g.insert_node(Node::Input(false));
    let out = g.insert_node(Node::Output(true));
    g.connect(ia, out, 0).unwrap();
    g.connect(ib, out, 0).unwrap();
    g.refresh(1);
    assert_eq!(g.get_payload(out), Some(false));
}

#[test]
fn unconnected_pin_reads_false() {
    let mut g = Graph::new();
    let out = g.insert_node(Node::Output(true));
    assert_eq!(g.pin_value(out, 0, 1), false);
    g.refresh(1);
    assert_eq!(g.get_payload(out), Some(false));
}

/// The classic cross-coupled pair: `nand_a` inputs are {S, `nand_b`} and
/// `nand_b` inputs are {R, `nand_a`}. Builds it, runs `ticks` refreshes, and
/// returns the two latch outputs (from `nand_a` and from `nand_b`).
fn sr_latch_after(s: bool, r: bool, ticks: u64) -> (bool, bool) {
    let mut g = Graph::new();
    let s_in = g.insert_node(Node::Input(s));
    let r_in = g.insert_node(Node::Input(r));
    let nand_a = g.insert_node(Node::Nand);
    let nand_b = g.insert_node(Node::Nand);
    let q = g.insert_node(Node::Output(false));
    let qn = g.insert_node(Node::Output(false));
    g.connect(s_in, nand_a, 0).unwrap();
    g.connect(nand_b, nand_a, 1).unwrap();
    g.connect(r_in, nand_b, 0).unwrap();
    g.connect(nand_a, nand_b, 1).unwrap();
    g.connect(nand_a, q, 0).unwrap();
    g.connect(nand_b, qn, 0).unwrap();
    let mut sim = Simulation::new(0);
    sim.pause();
    for _ in 0..ticks {
        g.step(&mut sim);
    }
    (g.get_payload(q).unwrap(), g.get_payload(qn).unwrap())
}

#[test]
fn sr_latch_reaches_a_stable_fixed_point() {
    // With the documented one-tick-delay policy (an in-progress feedback edge
    // contributes no signal), a single tick already reaches the fixed point:
    // the first nand reads Nand(s, not r) and the second reads not r. The
    // evaluation terminates on every tick despite the cycle.
    for (s, r) in [(false, false), (false, true), (true, false), (true, true)] {
        let first = sr_latch_after(s, r, 1);
        let expected = (!(s && !r), !r);
        assert_eq!(first, expected);
        // stable: further ticks do not change the outputs
        assert_eq!(sr_latch_after(s, r, 2), expected);
        assert_eq!(sr_latch_after(s, r, 5), expected);
    }
}

#[test]
fn latch_pins_read_stable_values_when_demanded_afresh() {
    // each output pin demanded with a fresh memo resolves the feedback loop
    // from its own side: the pin fed by nand_a reads Nand(s, not r), the pin
    // fed by nand_b reads Nand(r, not s), on every tick
    for (s, r) in [(false, false), (false, true), (true, false), (true, true)] {
        let mut g = Graph::new();
        let s_in = g.insert_node(Node::Input(s));
        let r_in = g.insert_node(Node::Input(r));
        let nand_a = g.insert_node(Node::Nand);
        let nand_b = g.insert_node(Node::Nand);
        let q = g.insert_node(Node::Output(false));
        let qn = g.insert_node(Node::Output(false));
        g.connect(s_in, nand_a, 0).unwrap();
        g.connect(nand_b, nand_a, 1).unwrap();
        g.connect(r_in, nand_b, 0).unwrap();
        g.connect(nand_a, nand_b, 1).unwrap();
        g.connect(nand_a, q, 0).unwrap();
        g.connect(nand_b, qn, 0).unwrap();
        for t in 1..4 {
            assert_eq!(g.pin_value(q, 0, t), !(s && !r));
            assert_eq!(g.pin_value(qn, 0, t), !(r && !s));
        }
    }
}

#[test]
fn direct_feedback_loop_terminates() {
    // a gate wired straight back into itself must not hang or overflow
    let mut g = Graph::new();
    let nand = g.insert_node(Node::Nand);
    let i = g.insert_node(Node::Input(true));
    let out = g.insert_node(Node::Output(false));
    g.connect(i, nand, 0).unwrap();
    g.connect(nand, nand, 1).unwrap();
    g.connect(nand, out, 0).unwrap();
    g.refresh(1);
    // the feedback pin resolves first: re-entered while in progress it reads
    // false, so the pin memoizes Nand(true, false) == true, and the output
    // then reads Nand(true, true) == false
    assert_eq!(g.get_payload(out), Some(false));
}

#[test]
fn clock_value_follows_tick_parity() {
    let mut g = Graph::new();
    let c = g.insert_node(Node::Clock);
    let out = g.insert_node(Node::Output(false));
    g.connect(c, out, 0).unwrap();
    let mut sim = Simulation::new(0);
    sim.pause();
    let mut last = None;
    for expected_tick in 1u64..=6 {
        g.step(&mut sim);
        let v = g.get_payload(out).unwrap();
        assert_eq!(v, expected_tick % 2 == 0);
        // two consecutive refreshes always differ
        if let Some(prev) = last {
            assert_ne!(v, prev);
        }
        last = Some(v);
    }
}

#[test]
fn connect_rejects_bad_pin_index() {
    let mut g = Graph::new();
    let i = g.insert_node(Node::Input(false));
    let and = g.insert_node(Node::And);
    assert!(g.connect(i, and, 2).is_err());
    assert!(g.connect(i, and, 1).is_ok());
}

#[test]
fn connect_rejects_zero_input_target() {
    let mut g = Graph::new();
    let a = g.insert_node(Node::Input(false));
    let b = g.insert_node(Node::Input(true));
    let c = g.insert_node(Node::Clock);
    assert!(g.connect(a, b, 0).is_err());
    assert!(g.connect(a, c, 0).is_err());
}

#[test]
fn connect_rejects_output_as_source() {
    let mut g = Graph::new();
    let o = g.insert_node(Node::Output(false));
    let buf = g.insert_node(Node::Node);
    assert!(g.connect(o, buf, 0).is_err());
}

#[test]
fn connect_rejects_stale_handles() {
    let mut g = Graph::new();
    let i = g.insert_node(Node::Input(false));
    let buf = g.insert_node(Node::Node);
    assert!(g.connect(i, 7, 0).is_err());
    assert!(g.connect(9, buf, 0).is_err());
    g.remove_node(i);
    assert!(g.connect(i, buf, 0).is_err());
}

#[test]
fn removing_a_node_removes_its_connections() {
    let mut g = Graph::new();
    let a = g.insert_node(Node::Input(true));
    let b = g.insert_node(Node::Input(false));
    let and = g.insert_node(Node::And);
    let out = g.insert_node(Node::Output(false));
    g.connect(a, and, 0).unwrap();
    g.connect(b, and, 1).unwrap();
    g.connect(and, out, 0).unwrap();
    assert_eq!(g.input_sources(and, 0), vec![a]);
    assert!(g.remove_node(a));
    // the pin that referenced only the removed node reads an empty source set
    assert_eq!(g.input_sources(and, 0), Vec::<usize>::new());
    // other pins keep their sources
    assert_eq!(g.input_sources(and, 1), vec![b]);
    assert_eq!(g.input_sources(out, 0), vec![and]);
    // removing the and node clears the output's sources too
    assert!(g.remove_node(and));
    assert_eq!(g.input_sources(out, 0), Vec::<usize>::new());
    // a stale handle is reported
    assert!(!g.remove_node(a));
}

#[test]
fn handles_are_not_reused_after_removal() {
    let mut g = Graph::new();
    let a = g.insert_node(Node::Input(true));
    g.remove_node(a);
    let b = g.insert_node(Node::Input(false));
    assert_ne!(a, b);
    assert_eq!(g.get_node(a), None);
    assert_eq!(g.get_node(b), Some(Node::Input(false)));
}

#[test]
fn disconnect_removes_one_edge_only() {
    let mut g = Graph::new();
    let a = g.insert_node(Node::Input(true));
    let b = g.insert_node(Node::Input(false));
    let or = g.insert_node(Node::Or);
    g.connect(a, or, 0).unwrap();
    g.connect(b, or, 0).unwrap();
    g.disconnect(or, 0, a);
    assert_eq!(g.input_sources(or, 0), vec![b]);
    // disconnecting an absent edge is a no-op
    g.disconnect(or, 0, a);
    assert_eq!(g.input_sources(or, 0), vec![b]);
}

#[test]
fn duplicate_connect_is_not_added_twice() {
    let mut g = Graph::new();
    let a = g.insert_node(Node::Input(true));
    let or = g.insert_node(Node::Or);
    g.connect(a, or, 0).unwrap();
    g.connect(a, or, 0).unwrap();
    assert_eq!(g.input_sources(or, 0), vec![a]);
    g.disconnect(or, 0, a);
    assert_eq!(g.input_sources(or, 0), Vec::<usize>::new());
}

#[test]
fn payload_is_only_on_input_and_output() {
    let mut g = Graph::new();
    let i = g.insert_node(Node::Input(true));
    let o = g.insert_node(Node::Output(false));
    let and = g.insert_node(Node::And);
    assert_eq!(g.get_payload(i), Some(true));
    assert_eq!(g.get_payload(o), Some(false));
    assert_eq!(g.get_payload(and), None);
    assert!(g.set_payload(i, false));
    assert_eq!(g.get_payload(i), Some(false));
    assert!(!g.set_payload(and, true));
    assert_eq!(g.get_payload(and), None);
    assert!(!g.set_payload(42, true));
    g.remove_node(i);
    assert_eq!(g.get_payload(i), None);
    assert!(!g.set_payload(i, true));
}

#[test]
fn toggling_an_input_changes_the_next_refresh() {
    let mut g = Graph::new();
    let i = g.insert_node(Node::Input(false));
    let out = g.insert_node(Node::Output(false));
    g.connect(i, out, 0).unwrap();
    g.refresh(1);
    assert_eq!(g.get_payload(out), Some(false));
    g.set_payload(i, true);
    g.refresh(2);
    assert_eq!(g.get_payload(out), Some(true));
}

#[test]
fn node_pin_counts() {
    assert_eq!(Node::Input(false).input_count(), 0);
    assert_eq!(Node::Input(false).output_count(), 1);
    assert_eq!(Node::Output(false).input_count(), 1);
    assert_eq!(Node::Output(false).output_count(), 0);
    assert_eq!(Node::Clock.input_count(), 0);
    assert_eq!(Node::Node.input_count(), 1);
    assert_eq!(Node::Not.input_count(), 1);
    for gate in [Node::And, Node::Or, Node::Xor, Node::Nor, Node::Xnor, Node::Nand] {
        assert_eq!(gate.input_count(), 2);
        assert_eq!(gate.output_count(), 1);
    }
    assert_eq!(Node::Input(true).payload(), Some(true));
    assert_eq!(Node::Output(false).payload(), Some(false));
    assert_eq!(Node::And.payload(), None);
}
