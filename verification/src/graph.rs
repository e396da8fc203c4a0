//! The circuit graph: node slots, wires, structural queries and mutation, and
//! the executable evaluator and refresh.

use vstd::prelude::*;

use crate::model::{
    s_init_memo, s_eval, s_eval_srcs, s_fuel, s_out_vals, s_pin_value, s_refresh_node,
    s_refreshed, s_sources, unvisited_count, wf, wire_ok, GraphView, PinState, Wire,
};
use crate::model::{lemma_unvisited_le_len, lemma_unvisited_update};
use crate::node::{node_value, s_input_count, s_output_count, s_payload, s_with_payload, src_arity,
    Node};
use crate::sim::{s_advanced, s_fires, Simulation};

verus! {

/// Declined structural mutation: the pin index is out of range, an end of the
/// connection is not a live node, or the source has no output pin.
#[derive(Clone, Copy, PartialEq, Eq, Structural, Debug)]
pub struct InvalidConnection;

/// A circuit graph. Node handles are indices into a slot arena; a removed
/// node leaves its slot empty, so a handle is never reused while any handle
/// to it may still be around.
pub struct Graph {
    nodes: Vec<Option<Node>>,
    wires: Vec<Wire>,
}

impl View for Graph {
    type V = GraphView;

    closed spec fn view(&self) -> GraphView {
        GraphView { nodes: self.nodes@, wires: self.wires@ }
    }
}

/// Whether `connect(src, dst, input)` is accepted: both handles live, the
/// source with an output pin, and the input index within the target's arity.
pub open spec fn s_can_connect(g: GraphView, src: usize, dst: usize, input: usize) -> bool {
    wire_ok(g, Wire { src, dst, input })
}

impl Graph {
    /// An empty graph.
    pub fn new() -> (g: Graph)
        ensures
            g@.nodes =~= Seq::<Option<Node>>::empty(),
            g@.wires =~= Seq::<Wire>::empty(),
            wf(g@),
    {
        Graph { nodes: Vec::new(), wires: Vec::new() }
    }

    /// How many node slots the graph holds, removed ones included.
    pub fn slot_count(&self) -> (n: usize)
        ensures
            n == self@.nodes.len(),
    {
        self.nodes.len()
    }

    /// The node behind a handle, if the handle is live.
    pub fn get_node(&self, h: usize) -> (r: Option<Node>)
        ensures
            r == (if h < self@.nodes.len() {
                self@.nodes[h as int]
            } else {
                None::<Node>
            }),
    {
        if h < self.nodes.len() {
            self.nodes[h]
        } else {
            None
        }
    }

    /// Adds a node and returns its handle. Never fails; the bound on the slot
    /// count only keeps the evaluator's memo addressable.
    pub fn insert_node(&mut self, node: Node) -> (h: usize)
        requires
            wf(old(self)@),
            2 * old(self)@.nodes.len() + 2 <= usize::MAX as int,
        ensures
            wf(final(self)@),
            h == old(self)@.nodes.len(),
            final(self)@.nodes == old(self)@.nodes.push(Some(node)),
            final(self)@.wires == old(self)@.wires,
    {
        let h = self.nodes.len();
        self.nodes.push(Some(node));
        proof {
            assert forall|k: int| 0 <= k < self@.wires.len() implies wire_ok(
                self@,
                #[trigger] self@.wires[k],
            ) by {
                assert(wire_ok(old(self)@, old(self)@.wires[k]));
            }
        }
        h
    }

    /// Removes the node behind `h` and every wire touching it. Returns
    /// whether the handle was live; a stale handle is a no-op.
    pub fn remove_node(&mut self, h: usize) -> (found: bool)
        requires
            wf(old(self)@),
        ensures
            wf(final(self)@),
            found == (h < old(self)@.nodes.len() && old(self)@.nodes[h as int] is Some),
            final(self)@.nodes == (if found {
                old(self)@.nodes.update(h as int, None::<Node>)
            } else {
                old(self)@.nodes
            }),
            final(self)@.wires == crate::model::s_wires_without(old(self)@.wires, h),
    {
        let found = h < self.nodes.len() && self.nodes[h].is_some();
        if found {
            self.nodes.set(h, None);
        }
        let ghost new_nodes = self.nodes@;
        let ghost old_wires = self.wires@;
        let mut kept: Vec<Wire> = Vec::new();
        let mut k: usize = 0;
        while k < self.wires.len()
            invariant
                wf(old(self)@),
                old(self)@.wires == old_wires,
                k <= self.wires@.len(),
                self.wires@ == old_wires,
                self.nodes@ == new_nodes,
                new_nodes.len() == old(self)@.nodes.len(),
                forall|j: int|
                    0 <= j < new_nodes.len() && j != h ==> new_nodes[j] == old(self)@.nodes[j],
                kept@ == crate::model::s_wires_without(old_wires.take(k as int), h),
                forall|j: int|
                    0 <= j < kept@.len() ==> wire_ok(
                        GraphView { nodes: new_nodes, wires: old_wires },
                        #[trigger] kept@[j],
                    ),
            decreases self.wires@.len() - k,
        {
            let w = self.wires[k];
            proof {
                assert(old_wires.take(k as int + 1).drop_last() =~= old_wires.take(k as int));
                assert(old_wires.take(k as int + 1).last() == old_wires[k as int]);
                assert(wire_ok(old(self)@, old_wires[k as int]));
            }
            if w.src != h && w.dst != h {
                kept.push(w);
            }
            k = k + 1;
        }
        proof {
            assert(old_wires.take(old_wires.len() as int) =~= old_wires);
        }
        self.wires = kept;
        proof {
            assert forall|j: int| 0 <= j < self@.wires.len() implies wire_ok(
                self@,
                #[trigger] self@.wires[j],
            ) by {
                assert(wire_ok(
                    GraphView { nodes: new_nodes, wires: old_wires },
                    self@.wires[j],
                ));
            }
        }
        found
    }

    /// Connects the output of `src` to input pin `input` of `dst`. Declined
    /// when either handle is stale, the source has no output pin, or the
    /// input index is out of range; an edge already present is not added
    /// twice.
    pub fn connect(&mut self, src: usize, dst: usize, input: usize) -> (r: Result<
        (),
        InvalidConnection,
    >)
        requires
            wf(old(self)@),
        ensures
            wf(final(self)@),
            final(self)@.nodes == old(self)@.nodes,
            r is Ok <==> s_can_connect(old(self)@, src, dst, input),
            final(self)@.wires == (if r is Ok && !old(self)@.wires.contains(
                Wire { src, dst, input },
            ) {
                old(self)@.wires.push(Wire { src, dst, input })
            } else {
                old(self)@.wires
            }),
    {
        let w = Wire { src, dst, input };
        let src_ok = src < self.nodes.len() && match self.nodes[src] {
            Some(n) => n.output_count() == 1,
            None => false,
        };
        let dst_ok = dst < self.nodes.len() && match self.nodes[dst] {
            Some(n) => input < n.input_count(),
            None => false,
        };
        if !(src_ok && dst_ok) {
            return Err(InvalidConnection);
        }
        let mut k: usize = 0;
        while k < self.wires.len()
            invariant
                wf(self@),
                self@.nodes == old(self)@.nodes,
                self@.wires == old(self)@.wires,
                s_can_connect(old(self)@, src, dst, input),
                k <= self.wires@.len(),
                forall|j: int| 0 <= j < k ==> #[trigger] self.wires@[j] != w,
                w == (Wire { src, dst, input }),
            decreases self.wires@.len() - k,
        {
            if self.wires[k] == w {
                proof {
                    assert(self@.wires[k as int] == w);
                    assert(self@.wires.contains(w));
                }
                return Ok(());
            }
            k = k + 1;
        }
        proof {
            assert(!self@.wires.contains(w));
        }
        self.wires.push(w);
        proof {
            assert forall|j: int| 0 <= j < self@.wires.len() implies wire_ok(
                self@,
                #[trigger] self@.wires[j],
            ) by {
                if j < old(self)@.wires.len() {
                    assert(wire_ok(old(self)@, old(self)@.wires[j]));
                }
            }
        }
        Ok(())
    }

    /// Removes the wire from `src` to (`dst`, `input`); a wire that is not
    /// there is a no-op.
    pub fn disconnect(&mut self, dst: usize, input: usize, src: usize)
        requires
            wf(old(self)@),
        ensures
            wf(final(self)@),
            final(self)@.nodes == old(self)@.nodes,
            final(self)@.wires == crate::model::s_wires_minus(
                old(self)@.wires,
                Wire { src, dst, input },
            ),
    {
        let w = Wire { src, dst, input };
        let ghost old_wires = self.wires@;
        let mut kept: Vec<Wire> = Vec::new();
        let mut k: usize = 0;
        while k < self.wires.len()
            invariant
                wf(old(self)@),
                old(self)@.wires == old_wires,
                self.nodes@ == old(self)@.nodes,
                k <= self.wires@.len(),
                self.wires@ == old_wires,
                w == (Wire { src, dst, input }),
                kept@ == crate::model::s_wires_minus(old_wires.take(k as int), w),
                forall|j: int|
                    0 <= j < kept@.len() ==> wire_ok(old(self)@, #[trigger] kept@[j]),
            decreases self.wires@.len() - k,
        {
            let cur = self.wires[k];
            proof {
                assert(old_wires.take(k as int + 1).drop_last() =~= old_wires.take(k as int));
                assert(old_wires.take(k as int + 1).last() == old_wires[k as int]);
                assert(wire_ok(old(self)@, old_wires[k as int]));
            }
            if !(cur == w) {
                kept.push(cur);
            }
            k = k + 1;
        }
        proof {
            assert(old_wires.take(old_wires.len() as int) =~= old_wires);
        }
        self.wires = kept;
        proof {
            assert forall|j: int| 0 <= j < self@.wires.len() implies wire_ok(
                self@,
                #[trigger] self@.wires[j],
            ) by {
                assert(wire_ok(old(self)@, self@.wires[j]));
            }
        }
    }

    /// All nodes currently feeding input pin (`dst`, `input`), in wire order.
    pub fn input_sources(&self, dst: usize, input: usize) -> (srcs: Vec<usize>)
        requires
            wf(self@),
        ensures
            srcs@ == s_sources(self@.wires, dst, input),
            forall|j: int| 0 <= j < srcs@.len() ==> (#[trigger] srcs@[j]) < self@.nodes.len(),
    {
        let mut srcs: Vec<usize> = Vec::new();
        let mut k: usize = 0;
        while k < self.wires.len()
            invariant
                wf(self@),
                k <= self.wires@.len(),
                srcs@ == s_sources(self@.wires.take(k as int), dst, input),
                forall|j: int| 0 <= j < srcs@.len() ==> (#[trigger] srcs@[j]) < self@.nodes.len(),
            decreases self.wires@.len() - k,
        {
            let w = self.wires[k];
            proof {
                assert(wire_ok(self@, self@.wires[k as int]));
                assert(self@.wires.take(k as int + 1).drop_last() =~= self@.wires.take(k as int));
                assert(self@.wires.take(k as int + 1).last() == self@.wires[k as int]);
            }
            if w.dst == dst && w.input == input {
                srcs.push(w.src);
            }
            k = k + 1;
        }
        proof {
            assert(self@.wires.take(self@.wires.len() as int) =~= self@.wires);
        }
        srcs
    }

    /// The boolean payload behind a handle: `Some` for a live `Input` or
    /// `Output` node, `None` otherwise.
    pub fn get_payload(&self, h: usize) -> (r: Option<bool>)
        ensures
            r == (if h < self@.nodes.len() {
                match self@.nodes[h as int] {
                    Some(n) => s_payload(n),
                    None => None::<bool>,
                }
            } else {
                None::<bool>
            }),
    {
        if h < self.nodes.len() {
            match self.nodes[h] {
                Some(n) => n.payload(),
                None => None,
            }
        } else {
            None
        }
    }

    /// Writes the boolean payload behind a handle. Returns whether the handle
    /// was a live `Input` or `Output` node; anything else is a no-op.
    pub fn set_payload(&mut self, h: usize, v: bool) -> (ok: bool)
        requires
            wf(old(self)@),
        ensures
            wf(final(self)@),
            final(self)@.wires == old(self)@.wires,
            ok == (h < old(self)@.nodes.len() && match old(self)@.nodes[h as int] {
                Some(n) => s_payload(n) is Some,
                None => false,
            }),
            final(self)@.nodes == (if ok {
                old(self)@.nodes.update(
                    h as int,
                    Some(s_with_payload(old(self)@.nodes[h as int]->Some_0, v)),
                )
            } else {
                old(self)@.nodes
            }),
    {
        if h < self.nodes.len() {
            match self.nodes[h] {
                Some(n) => match n {
                    Node::Input(_) => {
                        self.nodes.set(h, Some(Node::Input(v)));
                        proof {
                            self.lemma_payload_update_wf(old(self)@, h);
                        }
                        true
                    },
                    Node::Output(_) => {
                        self.nodes.set(h, Some(Node::Output(v)));
                        proof {
                            self.lemma_payload_update_wf(old(self)@, h);
                        }
                        true
                    },
                    _ => false,
                },
                None => false,
            }
        } else {
            false
        }
    }

    /// Computes the value at input pin (`node`, `input`) at tick `t` against
    /// memo `memo`, exactly as `s_eval` defines it: a resolved pin answers
    /// from the memo, a pin already in progress answers `false` (the cycle
    /// policy), and an unvisited pin is marked in progress, computed as the
    /// OR over its sources, and resolved. `fuel` bounds the recursion; any
    /// fuel above the number of unvisited pins suffices.
    fn eval_pin(
        &self,
        node: usize,
        input: usize,
        t: u64,
        memo: &mut Vec<PinState>,
        Ghost(fuel): Ghost<nat>,
    ) -> (r: bool)
        requires
            wf(self@),
            node < self@.nodes.len(),
            input < 2,
            old(memo)@.len() == 2 * self@.nodes.len(),
            fuel > unvisited_count(old(memo)@),
        ensures
            final(memo)@.len() == old(memo)@.len(),
            unvisited_count(final(memo)@) <= unvisited_count(old(memo)@),
            s_eval(self@, t, node, input, old(memo)@, fuel) == Some((r, final(memo)@)),
        decreases fuel, 0int, 0int,
    {
        let p = 2 * node + input;
        let st = memo[p];
        match st {
            PinState::Resolved(v) => v,
            PinState::InProgress => false,
            PinState::Unvisited => {
                let ghost m0 = memo@;
                memo.set(p, PinState::InProgress);
                proof {
                    lemma_unvisited_update(m0, p as int, PinState::InProgress);
                }
                let srcs = self.input_sources(node, input);
                let r = self.eval_sources(&srcs, 0, t, memo, Ghost((fuel - 1) as nat));
                proof {
                    lemma_unvisited_update(memo@, p as int, PinState::Resolved(r));
                }
                memo.set(p, PinState::Resolved(r));
                proof {
                    assert(srcs@.skip(0) =~= srcs@);
                }
                r
            },
        }
    }

    /// The OR over the output values of `srcs[i..]`, threading the memo, as
    /// `s_eval_srcs` defines it.
    fn eval_sources(
        &self,
        srcs: &Vec<usize>,
        i: usize,
        t: u64,
        memo: &mut Vec<PinState>,
        Ghost(fuel): Ghost<nat>,
    ) -> (r: bool)
        requires
            wf(self@),
            i <= srcs@.len(),
            forall|j: int| 0 <= j < srcs@.len() ==> (#[trigger] srcs@[j]) < self@.nodes.len(),
            old(memo)@.len() == 2 * self@.nodes.len(),
            fuel > unvisited_count(old(memo)@),
        ensures
            final(memo)@.len() == old(memo)@.len(),
            unvisited_count(final(memo)@) <= unvisited_count(old(memo)@),
            s_eval_srcs(self@, t, srcs@.skip(i as int), old(memo)@, fuel) == Some(
                (r, final(memo)@),
            ),
        decreases fuel, 1int, srcs@.len() - i,
    {
        if i == srcs.len() {
            proof {
                assert(srcs@.skip(i as int) =~= Seq::<usize>::empty());
            }
            return false;
        }
        let n = srcs[i];
        proof {
            assert(srcs@.skip(i as int)[0] == srcs@[i as int]);
        }
        let head: bool = match self.nodes[n] {
            None => false,
            Some(nd) => {
                let a = src_arity(nd);
                if a == 0 {
                    node_value(nd, t, false, false)
                } else if a == 1 {
                    let v0 = self.eval_pin(n, 0, t, memo, Ghost(fuel));
                    node_value(nd, t, v0, false)
                } else {
                    let v0 = self.eval_pin(n, 0, t, memo, Ghost(fuel));
                    let v1 = self.eval_pin(n, 1, t, memo, Ghost(fuel));
                    node_value(nd, t, v0, v1)
                }
            },
        };
        let rest = self.eval_sources(srcs, i + 1, t, memo, Ghost(fuel));
        proof {
            assert(srcs@.skip(i as int).skip(1) =~= srcs@.skip(i as int + 1));
        }
        head || rest
    }

    /// The value at input pin (`node`, `input`) at tick `t`, computed with a
    /// fresh memo: the demand-driven evaluation of one pin. A pin index
    /// beyond the node's arity never has sources in a well-formed graph, so
    /// it reads `false` — a defensive no-op rather than a crash.
    pub fn pin_value(&self, node: usize, input: usize, t: u64) -> (r: bool)
        requires
            wf(self@),
            node < self@.nodes.len(),
            input < 2,
        ensures
            r == s_pin_value(self@, t, node, input),
    {
        let mut memo = self.fresh_memo();
        self.eval_pin(node, input, t, &mut memo, Ghost(s_fuel(self@)))
    }

    /// A memo with one unvisited slot for each of the graph's pins.
    fn fresh_memo(&self) -> (memo: Vec<PinState>)
        requires
            wf(self@),
        ensures
            memo@ == s_init_memo(self@.nodes.len()),
            unvisited_count(memo@) < s_fuel(self@),
    {
        let n = self.nodes.len();
        let two_n = 2 * n;
        let mut memo: Vec<PinState> = Vec::new();
        while memo.len() < two_n
            invariant
                two_n <= usize::MAX,
                memo@.len() <= two_n,
                forall|j: int| 0 <= j < memo@.len() ==> memo@[j] is Unvisited,
            decreases two_n - memo@.len(),
        {
            memo.push(PinState::Unvisited);
        }
        proof {
            assert(memo@ =~= s_init_memo(self@.nodes.len()));
            lemma_unvisited_le_len(memo@);
        }
        memo
    }

    /// One full refresh at tick `t`: evaluates the single input pin of every
    /// `Output` node against one shared memo, in handle order, then writes
    /// the values into the `Output` payloads. The refresh is atomic: readers
    /// only ever see the state after the whole pass.
    pub fn refresh(&mut self, t: u64)
        requires
            wf(old(self)@),
        ensures
            wf(final(self)@),
            final(self)@.wires == old(self)@.wires,
            final(self)@.nodes == s_refreshed(old(self)@, t),
    {
        let ghost g0 = self@;
        let n = self.nodes.len();
        let mut memo = self.fresh_memo();
        let ghost m_init = memo@;
        let mut vals: Vec<Option<bool>> = Vec::new();
        let mut i: usize = 0;
        while i < n
            invariant
                wf(g0),
                self@ == g0,
                n == g0.nodes.len(),
                memo@.len() == 2 * g0.nodes.len(),
                unvisited_count(memo@) < s_fuel(g0),
                i <= n,
                vals@.len() == i,
                vals@ + s_out_vals(g0, t, i as int, memo@) == s_out_vals(g0, t, 0, m_init),
                m_init == s_init_memo(g0.nodes.len()),
            decreases n - i,
        {
            let ghost m_before = memo@;
            let ghost vals_before = vals@;
            let nd = self.nodes[i];
            let o: Option<bool> = match nd {
                Some(Node::Output(_)) => Some(
                    self.eval_pin(i, 0, t, &mut memo, Ghost(s_fuel(g0))),
                ),
                _ => None,
            };
            vals.push(o);
            proof {
                assert((i as int) as usize == i);
                assert(vals@ + s_out_vals(g0, t, i as int + 1, memo@) =~= vals_before
                    + s_out_vals(g0, t, i as int, m_before));
            }
            i = i + 1;
        }
        proof {
            assert(vals@ + s_out_vals(g0, t, n as int, memo@) =~= vals@);
            assert(vals@ == s_out_vals(g0, t, 0, m_init));
        }
        let mut j: usize = 0;
        while j < n
            invariant
                n == g0.nodes.len(),
                self@.nodes.len() == n,
                self@.wires == g0.wires,
                vals@.len() == n,
                vals@ == s_out_vals(g0, t, 0, s_init_memo(g0.nodes.len())),
                j <= n,
                forall|k: int|
                    0 <= j <= k < n ==> #[trigger] self@.nodes[k] == g0.nodes[k],
                forall|k: int|
                    0 <= k < j ==> #[trigger] self@.nodes[k] == s_refresh_node(
                        g0.nodes[k],
                        vals@[k],
                    ),
            decreases n - j,
        {
            let nd = self.nodes[j];
            let v = vals[j];
            match (nd, v) {
                (Some(Node::Output(_)), Some(b)) => {
                    self.nodes.set(j, Some(Node::Output(b)));
                },
                _ => {},
            }
            j = j + 1;
        }
        proof {
            assert(self@.nodes =~= s_refreshed(g0, t));
            assert forall|k: int| 0 <= k < self@.wires.len() implies wire_ok(
                self@,
                #[trigger] self@.wires[k],
            ) by {
                let w = self@.wires[k];
                assert(wire_ok(g0, g0.wires[k]));
                assert(self@.nodes[w.src as int] == s_refresh_node(
                    g0.nodes[w.src as int],
                    s_out_vals(g0, t, 0, s_init_memo(g0.nodes.len()))[w.src as int],
                ));
                assert(self@.nodes[w.dst as int] == s_refresh_node(
                    g0.nodes[w.dst as int],
                    s_out_vals(g0, t, 0, s_init_memo(g0.nodes.len()))[w.dst as int],
                ));
            }
        }
    }

    /// Feeds one frame of wall time to the clock; when it fires, the tick
    /// counter steps by one and a full refresh runs at the new tick.
    pub fn tick(&mut self, sim: &mut Simulation, dt_ns: u64)
        requires
            wf(old(self)@),
            old(sim).ticks < u64::MAX,
        ensures
            wf(final(self)@),
            final(self)@.wires == old(self)@.wires,
            *final(sim) == s_advanced(*old(sim), dt_ns),
            s_fires(*old(sim), dt_ns) ==> final(self)@.nodes == s_refreshed(
                old(self)@,
                s_advanced(*old(sim), dt_ns).ticks,
            ),
            !s_fires(*old(sim), dt_ns) ==> final(self)@.nodes == old(self)@.nodes,
    {
        let fired = sim.advance(dt_ns);
        if fired {
            self.refresh(sim.ticks);
        }
    }

    /// Fires exactly one tick immediately, bypassing the timer. Valid only
    /// while the clock is paused.
    pub fn step(&mut self, sim: &mut Simulation)
        requires
            wf(old(self)@),
            old(sim).paused,
            old(sim).ticks < u64::MAX,
        ensures
            wf(final(self)@),
            final(self)@.wires == old(self)@.wires,
            *final(sim) == (Simulation { ticks: (old(sim).ticks + 1) as u64, ..*old(sim) }),
            final(self)@.nodes == s_refreshed(old(self)@, (old(sim).ticks + 1) as u64),
    {
        sim.ticks = sim.ticks + 1;
        self.refresh(sim.ticks);
    }

    /// Replacing a node by one of the same variant keeps every wire well
    /// formed: pin counts do not depend on the payload.
    proof fn lemma_payload_update_wf(&self, g0: GraphView, h: usize)
        requires
            wf(g0),
            self@.wires == g0.wires,
            self@.nodes.len() == g0.nodes.len(),
            forall|j: int|
                0 <= j < g0.nodes.len() && j != h ==> self@.nodes[j] == g0.nodes[j],
            h < g0.nodes.len() ==> match (g0.nodes[h as int], self@.nodes[h as int]) {
                (Some(a), Some(b)) => s_input_count(a) == s_input_count(b) && s_output_count(a)
                    == s_output_count(b),
                (None, None) => true,
                _ => false,
            },
        ensures
            wf(self@),
    {
        assert forall|k: int| 0 <= k < self@.wires.len() implies wire_ok(
            self@,
            #[trigger] self@.wires[k],
        ) by {
            assert(wire_ok(g0, g0.wires[k]));
        }
    }
}

} // verus!
