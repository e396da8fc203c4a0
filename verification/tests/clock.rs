//! Tests of the simulation clock and of the tick controller.

use logic_sim::graph::Graph;
use logic_sim::node::Node;
use logic_sim::sim::Simulation;

/// A minimal circuit whose output mirrors its input, to observe refreshes.
fn mirror() -> (Graph, usize, usize) {
    let mut g = Graph::new();
    let i = g.insert_node(Node::Input(true));
    let out = g.insert_node(Node::Output(false));
    g.connect(i, out, 0).unwrap();
    (g, i, out)
}

#[test]
fn zero_hz_fires_every_frame() {
    let (mut g, _, _) = mirror();
    let mut sim = Simulation::new(250_000_000);
    sim.set_hz(0);
    assert_eq!(sim.period_ns, 0);
    for frame in 1u64..=5 {
        g.tick(&mut sim, 16_000_000);
        assert_eq!(sim.ticks, frame);
    }
    // even a zero-length frame fires when the period is zero
    g.tick(&mut sim, 0);
    assert_eq!(sim.ticks, 6);
}

#[test]
fn pausing_freezes_the_tick_counter() {
    let (mut g, _, out) = mirror();
    let mut sim = Simulation::new(0);
    g.tick(&mut sim, 1);
    assert_eq!(sim.ticks, 1);
    sim.pause();
    for _ in 0..10 {
        g.tick(&mut sim, 1_000_000_000);
    }
    assert_eq!(sim.ticks, 1);
    // a step fires exactly one tick while paused
    g.step(&mut sim);
    assert_eq!(sim.ticks, 2);
    assert_eq!(g.get_payload(out), Some(true));
    // unpausing resumes firing without resetting the counter
    sim.unpause();
    g.tick(&mut sim, 1);
    assert_eq!(sim.ticks, 3);
}

#[test]
fn timer_accumulates_until_the_period() {
    let (mut g, _, _) = mirror();
    let mut sim = Simulation::new(0);
    sim.set_hz(4);
    assert_eq!(sim.period_ns, 250_000_000);
    g.tick(&mut sim, 100_000_000);
    assert_eq!(sim.ticks, 0);
    g.tick(&mut sim, 100_000_000);
    assert_eq!(sim.ticks, 0);
    // 300 ms accumulated: fires, and the 50 ms surplus is kept
    g.tick(&mut sim, 100_000_000);
    assert_eq!(sim.ticks, 1);
    assert_eq!(sim.elapsed_ns, 50_000_000);
    g.tick(&mut sim, 200_000_000);
    assert_eq!(sim.ticks, 2);
    assert_eq!(sim.elapsed_ns, 0);
}

#[test]
fn set_hz_computes_the_period() {
    let mut sim = Simulation::new(0);
    sim.set_hz(100);
    assert_eq!(sim.period_ns, 10_000_000);
    sim.set_hz(1);
    assert_eq!(sim.period_ns, 1_000_000_000);
    sim.set_hz(3);
    assert_eq!(sim.period_ns, 333_333_333);
    sim.set_hz(0);
    assert_eq!(sim.period_ns, 0);
}

#[test]
fn pause_and_unpause_keep_time_and_ticks() {
    let mut sim = Simulation::new(1_000_000_000);
    let fired = sim.advance(400_000_000);
    assert!(!fired);
    assert_eq!(sim.elapsed_ns, 400_000_000);
    sim.pause();
    assert_eq!(sim.elapsed_ns, 400_000_000);
    assert_eq!(sim.ticks, 0);
    assert!(!sim.advance(900_000_000));
    assert_eq!(sim.elapsed_ns, 400_000_000);
    sim.unpause();
    assert_eq!(sim.elapsed_ns, 400_000_000);
    assert!(sim.advance(600_000_000));
    assert_eq!(sim.ticks, 1);
}

#[test]
fn refresh_runs_once_per_fire() {
    // the output is only rewritten when the clock fires
    let (mut g, i, out) = mirror();
    let mut sim = Simulation::new(1_000_000_000);
    g.set_payload(i, true);
    g.tick(&mut sim, 400_000_000);
    assert_eq!(g.get_payload(out), Some(false));
    g.tick(&mut sim, 700_000_000);
    assert_eq!(g.get_payload(out), Some(true));
    g.set_payload(i, false);
    g.tick(&mut sim, 100_000_000);
    assert_eq!(g.get_payload(out), Some(true));
    g.tick(&mut sim, 2_000_000_000);
    assert_eq!(g.get_payload(out), Some(false));
}
