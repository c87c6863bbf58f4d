//! OR-normalization: every secure OR gate has its output inversion flipped
//! and each of its inputs inverted, either in a gate that drives the input
//! or in an inverting buffer put on the wire.

use vstd::prelude::*;

use crate::circuit::{lists_rising, Circuit, CircuitView, Error};
use crate::node::{GateType, Node, NodeId, NodeKind, NodeType, NodeView};
use crate::wiring::{Link, Wire};

verus! {

/// The inverting buffer put on a wire: its node, the wire that feeds it and
/// the wire by which it drives the OR.
pub struct Inverter {
    pub node: int,
    pub feed: int,
    pub drive: int,
}

/// An unnamed inverting buffer with the given secure flag.
pub open spec fn inverter_view(secure: bool) -> NodeView {
    NodeView { secure, kind: NodeKind::Gate(GateType::Buf, true), name: None }
}

/// `b` is the node of one of the inverters.
pub open spec fn is_inverter_node(inv: Map<int, Inverter>, b: int) -> bool {
    exists|e: int| #[trigger] inv.contains_key(e) && inv[e].node == b
}

/// `x` is the feeding or the driving wire of one of the inverters.
pub open spec fn is_inverter_wire(inv: Map<int, Inverter>, x: int) -> bool {
    exists|e: int| #[trigger] inv.contains_key(e) && (inv[e].feed == x || inv[e].drive == x)
}

impl CircuitView {
    /// The node `i` is a secure gate of the OR family.
    pub open spec fn is_secure_or(self, i: int) -> bool {
        self.is_secure(i) && self.nodes[i].kind.is_or_gate()
    }

    /// The wire `e` leads into a secure OR gate.
    pub open spec fn enters_secure_or(self, e: int) -> bool {
        self.edges.contains_key(e) && self.is_secure_or(self.edges[e].dst)
    }

    /// The wires that lead into secure OR gates.
    pub open spec fn or_inputs(self) -> Set<int> {
        self.edges.dom().filter(|e: int| self.is_secure_or(self.edges[e].dst))
    }

    /// The source of the wire `e` can take an inversion itself: it is a
    /// gate, and `e` is the only wire that it drives.
    pub open spec fn absorbs(self, e: int) -> bool {
        self.nodes[self.edges[e].src].kind is Gate && self.wires_from(self.edges[e].src).len() == 1
    }

    /// Among the wires in `handled`, one from `i` has its inversion taken by
    /// `i` itself.
    pub open spec fn absorbed_among(self, handled: Set<int>, i: int) -> bool {
        exists|e: int| #[trigger] handled.contains(e) && self.edges[e].src == i && self.absorbs(e)
    }

    /// The state `post` of OR-normalization when the gates in `own` have had
    /// their own inversion flipped and the wires in `handled` have been
    /// dealt with, `inv` giving the inverter put on each wire that needed
    /// one. `self` is the circuit before.
    pub open spec fn or_progress(
        self,
        post: CircuitView,
        own: Set<int>,
        handled: Set<int>,
        inv: Map<int, Inverter>,
    ) -> bool {
        &&& post.name == self.name
        &&& post.zero == self.zero
        &&& post.one == self.one
        &&& forall|e: int| #[trigger] handled.contains(e) ==> self.enters_secure_or(e)
        &&& forall|e: int| #[trigger] inv.contains_key(e) <==> handled.contains(e) && !self.absorbs(e)
        &&& forall|e: int| #[trigger]
            inv.contains_key(e) ==> {
                &&& !self.slots.contains(inv[e].node)
                &&& post.nodes.contains_key(inv[e].node)
                &&& post.nodes[inv[e].node] == inverter_view(self.nodes[self.edges[e].src].secure)
                &&& inv[e].feed != inv[e].drive
                &&& post.edges.contains_key(inv[e].feed)
                &&& post.edges[inv[e].feed] == (Wire {
                    src: self.edges[e].src,
                    dst: inv[e].node,
                    src_port: self.edges[e].src_port,
                    dst_port: 0,
                })
                &&& post.edges.contains_key(inv[e].drive)
                &&& post.edges[inv[e].drive] == (Wire {
                    src: inv[e].node,
                    dst: self.edges[e].dst,
                    src_port: 0,
                    dst_port: self.edges[e].dst_port,
                })
                &&& !(self.edges.contains_key(inv[e].feed) && !inv.contains_key(inv[e].feed))
                &&& !(self.edges.contains_key(inv[e].drive) && !inv.contains_key(inv[e].drive))
            }
        &&& forall|e1: int, e2: int|
            #![trigger inv.contains_key(e1), inv.contains_key(e2)]
            inv.contains_key(e1) && inv.contains_key(e2) && e1 != e2 ==> {
                &&& inv[e1].node != inv[e2].node
                &&& inv[e1].feed != inv[e2].feed
                &&& inv[e1].feed != inv[e2].drive
                &&& inv[e1].drive != inv[e2].drive
            }
        &&& forall|i: int| #[trigger]
            self.nodes.contains_key(i) ==> post.nodes.contains_key(i) && post.nodes[i] == (NodeView {
                kind: if own.contains(i) != self.absorbed_among(handled, i) {
                    self.nodes[i].kind.flipped()
                } else {
                    self.nodes[i].kind
                },
                ..self.nodes[i]
            })
        &&& forall|b: int| #[trigger]
            post.nodes.contains_key(b) ==> self.nodes.contains_key(b) || is_inverter_node(inv, b)
        &&& forall|b: int| #[trigger]
            post.slots.contains(b) <==> self.slots.contains(b) || is_inverter_node(inv, b)
        &&& forall|e: int| #[trigger]
            self.edges.contains_key(e) && !inv.contains_key(e) ==> post.edges.contains_key(e)
                && post.edges[e] == self.edges[e]
        &&& forall|x: int| #[trigger]
            post.edges.contains_key(x) ==> (self.edges.contains_key(x) && !inv.contains_key(x))
                || is_inverter_wire(inv, x)
    }

    /// `post` is this circuit after OR-normalization, for some choice of
    /// the inverters.
    pub open spec fn normalizes_to(self, post: CircuitView) -> bool {
        exists|inv: Map<int, Inverter>| #[trigger] self.or_normalized(post, inv)
    }

    /// `post` is this circuit after OR-normalization, with the inverters
    /// `inv`: every secure OR gate has its inversion flipped; so has
    /// every gate whose only wire leads into a secure OR; every other wire
    /// into a secure OR is replaced by a wire into a new inverting buffer and
    /// a wire from that buffer to the OR, on the same ports; and nothing
    /// else differs.
    pub open spec fn or_normalized(self, post: CircuitView, inv: Map<int, Inverter>) -> bool {
        self.or_progress(post, Set::new(|i: int| self.is_secure_or(i)), self.or_inputs(), inv)
    }
}

/// In a set of one element, any two members are the same.
pub proof fn lemma_single_member(s: Set<int>, a: int, b: int)
    requires
        s.finite(),
        s.len() == 1,
        s.contains(a),
        s.contains(b),
    ensures
        a == b,
{
    let t = s.remove(a);
    assert(t.len() == 0);
    assert(t =~= Set::empty());
    if a != b {
        assert(t.contains(b));
    }
}

/// Flipping the inversion of a secure OR gate that has not had its own flip
/// yet is one step of the normalization.
pub proof fn lemma_flip_own(
    pre: CircuitView,
    mid: CircuitView,
    post: CircuitView,
    own: Set<int>,
    handled: Set<int>,
    inv: Map<int, Inverter>,
    g: int,
)
    requires
        pre.wf(),
        pre.or_progress(mid, own, handled, inv),
        pre.nodes.contains_key(g),
        !own.contains(g),
        post == (CircuitView {
            nodes: mid.nodes.insert(g, NodeView { kind: mid.nodes[g].kind.flipped(), ..mid.nodes[g] }),
            ..mid
        }),
    ensures
        pre.or_progress(post, own.insert(g), handled, inv),
{
    let own2 = own.insert(g);
    assert forall|e: int| #[trigger] inv.contains_key(e) implies post.nodes.contains_key(inv[e].node)
        && post.nodes[inv[e].node] == inverter_view(pre.nodes[pre.edges[e].src].secure) by {
        assert(!pre.slots.contains(inv[e].node));
        assert(pre.slots.contains(g));
    }
    assert forall|i: int| #[trigger] pre.nodes.contains_key(i) implies post.nodes.contains_key(i)
        && post.nodes[i] == (NodeView {
        kind: if own2.contains(i) != pre.absorbed_among(handled, i) {
            pre.nodes[i].kind.flipped()
        } else {
            pre.nodes[i].kind
        },
        ..pre.nodes[i]
    }) by {
        if i == g {
            lemma_flip_twice(pre.nodes[i].kind);
        }
    }
}

/// Flipping twice gives the kind back.
pub proof fn lemma_flip_twice(kind: NodeKind)
    ensures
        kind.flipped().flipped() == kind,
{
}

/// Flipping the inversion of a gate that drives a wire into a secure OR
/// gate, where that gate drives nothing else, is one step of the
/// normalization.
pub proof fn lemma_absorb(
    pre: CircuitView,
    mid: CircuitView,
    post: CircuitView,
    own: Set<int>,
    handled: Set<int>,
    inv: Map<int, Inverter>,
    e: int,
)
    requires
        pre.wf(),
        pre.or_progress(mid, own, handled, inv),
        pre.enters_secure_or(e),
        !handled.contains(e),
        pre.absorbs(e),
        post == (CircuitView {
            nodes: mid.nodes.insert(
                pre.edges[e].src,
                NodeView { kind: mid.nodes[pre.edges[e].src].kind.flipped(), ..mid.nodes[pre.edges[e].src] },
            ),
            ..mid
        }),
    ensures
        pre.or_progress(post, own, handled.insert(e), inv),
{
    let g = pre.edges[e].src;
    let handled2 = handled.insert(e);
    assert(pre.nodes.contains_key(g));
    assert(!pre.absorbed_among(handled, g)) by {
        if pre.absorbed_among(handled, g) {
            let x = choose|x: int| #[trigger] handled.contains(x) && pre.edges[x].src == g && pre.absorbs(x);
            assert(pre.enters_secure_or(x));
            assert(pre.wires_from(g).contains(x));
            assert(pre.wires_from(g).contains(e));
            lemma_single_member(pre.wires_from(g), x, e);
        }
    }
    assert(pre.absorbed_among(handled2, g)) by {
        assert(handled2.contains(e));
    }
    assert forall|i: int| i != g implies pre.absorbed_among(handled2, i) == pre.absorbed_among(handled, i) by {
        if pre.absorbed_among(handled2, i) {
            let x = choose|x: int| #[trigger] handled2.contains(x) && pre.edges[x].src == i && pre.absorbs(x);
            assert(handled.contains(x));
        }
        if pre.absorbed_among(handled, i) {
            let x = choose|x: int| #[trigger] handled.contains(x) && pre.edges[x].src == i && pre.absorbs(x);
            assert(handled2.contains(x));
        }
    }
    assert forall|x: int| #[trigger] inv.contains_key(x) implies post.nodes.contains_key(inv[x].node)
        && post.nodes[inv[x].node] == inverter_view(pre.nodes[pre.edges[x].src].secure) by {
        assert(!pre.slots.contains(inv[x].node));
    }
    assert forall|i: int| #[trigger] pre.nodes.contains_key(i) implies post.nodes.contains_key(i)
        && post.nodes[i] == (NodeView {
        kind: if own.contains(i) != pre.absorbed_among(handled2, i) {
            pre.nodes[i].kind.flipped()
        } else {
            pre.nodes[i].kind
        },
        ..pre.nodes[i]
    }) by {
        if i == g {
            lemma_flip_twice(pre.nodes[i].kind);
        }
    }
    assert forall|x: int| #[trigger] handled2.contains(x) implies pre.enters_secure_or(x) by {
        if x != e {
            assert(handled.contains(x));
        }
    }
    assert forall|x: int| #[trigger] inv.contains_key(x) <==> handled2.contains(x) && !pre.absorbs(x) by {
        if x != e {
            assert(handled2.contains(x) == handled.contains(x));
        }
    }
}

/// Putting an inverting buffer on a wire into a secure OR gate, where the
/// source of the wire cannot take the inversion, is one step of the
/// normalization.
pub proof fn lemma_insert_inverter(
    pre: CircuitView,
    mid: CircuitView,
    post: CircuitView,
    own: Set<int>,
    handled: Set<int>,
    inv: Map<int, Inverter>,
    e: int,
    b: int,
    feed: int,
    drive: int,
)
    requires
        pre.wf(),
        pre.or_progress(mid, own, handled, inv),
        pre.enters_secure_or(e),
        !handled.contains(e),
        !pre.absorbs(e),
        !mid.slots.contains(b),
        !mid.edges.remove(e).contains_key(feed),
        !mid.edges.remove(e).contains_key(drive),
        feed != drive,
        post == (CircuitView {
            nodes: mid.nodes.insert(b, inverter_view(pre.nodes[pre.edges[e].src].secure)),
            slots: mid.slots.insert(b),
            edges: mid.edges.remove(e).insert(
                feed,
                Wire {
                    src: pre.edges[e].src,
                    dst: b,
                    src_port: pre.edges[e].src_port,
                    dst_port: 0,
                },
            ).insert(
                drive,
                Wire {
                    src: b,
                    dst: pre.edges[e].dst,
                    src_port: 0,
                    dst_port: pre.edges[e].dst_port,
                },
            ),
            ..mid
        }),
    ensures
        pre.or_progress(post, own, handled.insert(e), inv.insert(e, Inverter { node: b, feed, drive })),
{
    let handled2 = handled.insert(e);
    let inv2 = inv.insert(e, Inverter { node: b, feed, drive });
    assert(!inv.contains_key(e));
    assert(mid.edges.contains_key(e) && mid.edges[e] == pre.edges[e]);
    assert forall|i: int| pre.absorbed_among(handled2, i) == pre.absorbed_among(handled, i) by {
        if pre.absorbed_among(handled2, i) {
            let x = choose|x: int| #[trigger] handled2.contains(x) && pre.edges[x].src == i && pre.absorbs(x);
            assert(handled.contains(x));
        }
        if pre.absorbed_among(handled, i) {
            let x = choose|x: int| #[trigger] handled.contains(x) && pre.edges[x].src == i && pre.absorbs(x);
            assert(handled2.contains(x));
        }
    }
    assert forall|x: int| is_inverter_node(inv, x) implies is_inverter_node(inv2, x) by {
        let y = choose|y: int| #[trigger] inv.contains_key(y) && inv[y].node == x;
        assert(inv2.contains_key(y) && inv2[y].node == x);
    }
    assert forall|x: int| is_inverter_wire(inv, x) implies is_inverter_wire(inv2, x) by {
        let y = choose|y: int| #[trigger] inv.contains_key(y) && (inv[y].feed == x || inv[y].drive == x);
        assert(inv2.contains_key(y) && (inv2[y].feed == x || inv2[y].drive == x));
    }
    assert(is_inverter_node(inv2, b)) by {
        assert(inv2.contains_key(e) && inv2[e].node == b);
    }
    assert(is_inverter_wire(inv2, feed) && is_inverter_wire(inv2, drive)) by {
        assert(inv2.contains_key(e) && inv2[e].feed == feed && inv2[e].drive == drive);
    }
    assert forall|x: int| is_inverter_node(inv2, x) implies x == b || is_inverter_node(inv, x) by {
        let y = choose|y: int| #[trigger] inv2.contains_key(y) && inv2[y].node == x;
        if y != e {
            assert(inv.contains_key(y) && inv[y].node == x);
        }
    }
    assert forall|x: int| #[trigger] handled2.contains(x) implies pre.enters_secure_or(x) by {
        if x != e {
            assert(handled.contains(x));
        }
    }
    assert forall|x: int| #[trigger] inv2.contains_key(x) <==> handled2.contains(x) && !pre.absorbs(x) by {
        if x != e {
            assert(inv2.contains_key(x) == inv.contains_key(x));
            assert(handled2.contains(x) == handled.contains(x));
        }
    }
    assert forall|x: int| #[trigger] inv.contains_key(x) implies inv[x].node != b && inv[x].feed != e
        && inv[x].drive != e && inv[x].feed != feed && inv[x].feed != drive && inv[x].drive != feed
        && inv[x].drive != drive by {
        assert(mid.slots.contains(inv[x].node)) by {
            assert(is_inverter_node(inv, inv[x].node));
        }
        assert(mid.edges.contains_key(inv[x].feed));
        assert(mid.edges.contains_key(inv[x].drive));
        assert(pre.edges.contains_key(e) && !inv.contains_key(e));
    }
    assert forall|x: int| #[trigger] inv2.contains_key(x) implies {
        &&& !pre.slots.contains(inv2[x].node)
        &&& post.nodes.contains_key(inv2[x].node)
        &&& post.nodes[inv2[x].node] == inverter_view(pre.nodes[pre.edges[x].src].secure)
        &&& inv2[x].feed != inv2[x].drive
        &&& post.edges.contains_key(inv2[x].feed)
        &&& post.edges[inv2[x].feed] == (Wire {
            src: pre.edges[x].src,
            dst: inv2[x].node,
            src_port: pre.edges[x].src_port,
            dst_port: 0,
        })
        &&& post.edges.contains_key(inv2[x].drive)
        &&& post.edges[inv2[x].drive] == (Wire {
            src: inv2[x].node,
            dst: pre.edges[x].dst,
            src_port: 0,
            dst_port: pre.edges[x].dst_port,
        })
        &&& !(pre.edges.contains_key(inv2[x].feed) && !inv2.contains_key(inv2[x].feed))
        &&& !(pre.edges.contains_key(inv2[x].drive) && !inv2.contains_key(inv2[x].drive))
    } by {
        if x == e {
            assert(!pre.slots.contains(b));
            if pre.edges.contains_key(feed) && !inv2.contains_key(feed) {
                assert(!inv.contains_key(feed));
                assert(mid.edges.contains_key(feed));
            }
            if pre.edges.contains_key(drive) && !inv2.contains_key(drive) {
                assert(!inv.contains_key(drive));
                assert(mid.edges.contains_key(drive));
            }
        } else {
            assert(inv.contains_key(x));
        }
    }
    assert forall|e1: int, e2: int|
        #![trigger inv2.contains_key(e1), inv2.contains_key(e2)]
        inv2.contains_key(e1) && inv2.contains_key(e2) && e1 != e2 implies {
            &&& inv2[e1].node != inv2[e2].node
            &&& inv2[e1].feed != inv2[e2].feed
            &&& inv2[e1].feed != inv2[e2].drive
            &&& inv2[e1].drive != inv2[e2].drive
        } by {
        if e1 == e {
            assert(inv.contains_key(e2));
        } else if e2 == e {
            assert(inv.contains_key(e1));
        } else {
            assert(inv.contains_key(e1) && inv.contains_key(e2));
        }
    }
    assert forall|i: int| #[trigger] pre.nodes.contains_key(i) implies post.nodes.contains_key(i)
        && post.nodes[i] == (NodeView {
        kind: if own.contains(i) != pre.absorbed_among(handled2, i) {
            pre.nodes[i].kind.flipped()
        } else {
            pre.nodes[i].kind
        },
        ..pre.nodes[i]
    }) by {
        assert(pre.slots.contains(i));
        assert(mid.slots.contains(i));
    }
    assert forall|x: int| #[trigger] pre.edges.contains_key(x) && !inv2.contains_key(x) implies post.edges.contains_key(
        x,
    ) && post.edges[x] == pre.edges[x] by {
        assert(x != e);
        assert(!inv.contains_key(x));
        assert(mid.edges.contains_key(x));
        assert(mid.edges.remove(e).contains_key(x));
    }
    assert forall|x: int| #[trigger] post.edges.contains_key(x) implies (pre.edges.contains_key(x)
        && !inv2.contains_key(x)) || is_inverter_wire(inv2, x) by {
        if x != feed && x != drive {
            assert(mid.edges.contains_key(x) && x != e);
            if !(pre.edges.contains_key(x) && !inv.contains_key(x)) {
                assert(is_inverter_wire(inv, x));
            }
        }
    }
}

/// Normalization neither makes nor unmakes a secure OR gate.
pub proof fn lemma_normalized_keeps_secure_ors(pre: CircuitView, post: CircuitView, inv: Map<int, Inverter>)
    requires
        pre.wf(),
        pre.or_normalized(post, inv),
    ensures
        forall|i: int| post.is_secure_or(i) <==> pre.is_secure_or(i),
{
    assert forall|i: int| post.is_secure_or(i) <==> pre.is_secure_or(i) by {
        if post.nodes.contains_key(i) && !pre.nodes.contains_key(i) {
            assert(is_inverter_node(inv, i));
            let e = choose|e: int| #[trigger] inv.contains_key(e) && inv[e].node == i;
            assert(post.nodes[i] == inverter_view(pre.nodes[pre.edges[e].src].secure));
        }
        if pre.nodes.contains_key(i) {
            assert(post.nodes.contains_key(i));
        }
    }
}

/// A circuit without a secure OR gate is its own normal form: normalization
/// flips nothing and puts in no buffer. In particular, normalizing a second
/// time changes nothing when the first time left no secure OR gate.
pub proof fn lemma_normalized_without_secure_or(pre: CircuitView, post: CircuitView, inv: Map<int, Inverter>)
    requires
        pre.wf(),
        post.wf(),
        pre.or_normalized(post, inv),
        forall|i: int| !pre.is_secure_or(i),
    ensures
        post == pre,
        inv == Map::<int, Inverter>::empty(),
{
    let handled = pre.or_inputs();
    let own = Set::new(|i: int| pre.is_secure_or(i));
    assert forall|e: int| !handled.contains(e) by {
        if handled.contains(e) {
            assert(pre.enters_secure_or(e));
        }
    }
    assert forall|e: int| !inv.contains_key(e) by {
        if inv.contains_key(e) {
            assert(handled.contains(e));
        }
    }
    assert(inv =~= Map::<int, Inverter>::empty());
    assert forall|b: int| !is_inverter_node(inv, b) by {}
    assert forall|x: int| !is_inverter_wire(inv, x) by {}
    assert forall|i: int| !pre.absorbed_among(handled, i) by {}
    assert(post.nodes =~= pre.nodes) by {
        assert forall|i: int| pre.nodes.contains_key(i) implies post.nodes.contains_key(i) && post.nodes[i]
            == pre.nodes[i] by {
            assert(!own.contains(i));
        }
    }
    assert(post.slots =~= pre.slots);
    assert(post.edges =~= pre.edges);
}

/// A wire into a secure OR gate, as it stood before the rewrite, and
/// whether its source takes the inversion itself.
struct Task {
    gate: NodeId,
    link: Link,
    absorb: bool,
}

/// The task describes a wire of `c` into a secure OR gate.
spec fn task_ok(c: CircuitView, t: Task) -> bool {
    &&& c.edges.contains_key(t.link.edge as int)
    &&& c.edges[t.link.edge as int] == (Wire {
        src: t.link.node as int,
        dst: t.gate as int,
        src_port: t.link.src_port as int,
        dst_port: t.link.dst_port as int,
    })
    &&& c.is_secure_or(t.gate as int)
    &&& t.absorb == c.absorbs(t.link.edge as int)
}

/// The edge indices of the first `k` tasks.
spec fn task_edges(tasks: Seq<Task>, k: int) -> Set<int> {
    Set::new(|e: int| exists|j: int| 0 <= j < k && j < tasks.len() && (#[trigger] tasks[j]).link.edge == e)
}

/// The first `k` gates of the list.
spec fn first_gates(gates: Seq<NodeId>, k: int) -> Set<int> {
    Set::new(|i: int| exists|j: int| 0 <= j < k && j < gates.len() && #[trigger] gates[j] == i)
}

impl CircuitView {
    /// There are indices left for one inverter on every wire into a secure
    /// OR gate.
    pub open spec fn fits_inverters(self) -> bool {
        &&& self.slots.len() + self.or_inputs().len() < u32::MAX
        &&& self.edges.dom().len() + self.or_inputs().len() < u32::MAX
    }
}

/// The secure OR gates of the circuit, in rising order, and the wires into
/// them.
fn or_tasks(c: &Circuit) -> (found: (Vec<NodeId>, Vec<Task>))
    requires
        c.wf(),
    ensures
        lists_rising(found.0@, Set::new(|i: int| c@.is_secure_or(i))),
        forall|k: int| 0 <= k < found.1@.len() ==> task_ok(c@, #[trigger] found.1@[k]),
        forall|k1: int, k2: int|
            0 <= k1 < k2 < found.1@.len() ==> (#[trigger] found.1@[k1]).link.edge != (#[trigger] found.1@[k2]).link.edge,
        forall|e: int| c@.enters_secure_or(e) ==> task_edges(found.1@, found.1@.len() as int).contains(e),
        found.1@.len() == c@.or_inputs().len(),
{
    let n = c.bound();
    let mut gates: Vec<NodeId> = Vec::new();
    let mut tasks: Vec<Task> = Vec::new();
    let ghost all = Set::new(|i: int| c@.is_secure_or(i));
    proof {
        c.lemma_view_wf();
    }
    let mut i: usize = 0;
    while i < n
        invariant
            c.wf(),
            c@.wf(),
            i <= n,
            forall|v: int| #[trigger] c@.nodes.contains_key(v) ==> v < n,
            all == Set::new(|v: int| c@.is_secure_or(v)),
            forall|a: int, b: int| 0 <= a < b < gates@.len() ==> gates@[a] < gates@[b],
            forall|a: int| 0 <= a < gates@.len() ==> all.contains(#[trigger] gates@[a] as int) && gates@[a] < i,
            forall|v: int| #[trigger] all.contains(v) && v < i ==> gates@.contains(v as u32),
            forall|k: int| 0 <= k < tasks@.len() ==> task_ok(c@, #[trigger] tasks@[k]) && tasks@[k].gate < i,
            forall|k1: int, k2: int|
                0 <= k1 < k2 < tasks@.len() ==> (#[trigger] tasks@[k1]).link.edge != (
                #[trigger] tasks@[k2]).link.edge,
            forall|e: int|
                c@.enters_secure_or(e) && c@.edges[e].dst < i ==> task_edges(tasks@, tasks@.len() as int).contains(e),
        decreases n - i,
    {
        let mut is_or = false;
        if i <= u32::MAX as usize && c.contains(i as u32) {
            let node = c.node(i as u32);
            if node.secure {
                if let NodeType::Gate(GateType::Or(_), _) = node.node_type {
                    is_or = true;
                }
            }
        }
        assert(is_or == all.contains(i as int));
        if is_or {
            let g = i as u32;
            let ghost before_gates = gates@;
            gates.push(g);
            proof {
                assert(gates@[gates@.len() - 1] == g);
                assert forall|v: int| #[trigger] all.contains(v) && v < i + 1 implies gates@.contains(v as u32) by {
                    if v < i {
                        let a = choose|a: int| 0 <= a < before_gates.len() && before_gates[a] == v as u32;
                        assert(gates@[a] == v as u32);
                    }
                }
            }
            let links = c.incoming(g);
            let ghost outer = tasks@;
            let mut j: usize = 0;
            while j < links.len()
                invariant
                    c.wf(),
                    c@.wf(),
                    j <= links@.len(),
                    g == i,
                    c@.is_secure_or(g as int),
                    crate::wiring::lists_wires_into(links@, c@.edges, g as int),
                    tasks@.len() == outer.len() + j,
                    forall|k: int| 0 <= k < outer.len() ==> tasks@[k] == outer[k],
                    forall|k: int| 0 <= k < outer.len() ==> task_ok(c@, #[trigger] outer[k]) && outer[k].gate < i,
                    forall|k: int|
                        outer.len() <= k < tasks@.len() ==> task_ok(c@, #[trigger] tasks@[k]) && tasks@[k].gate == g
                            && tasks@[k].link == links@[k - outer.len()],
                    forall|k1: int, k2: int|
                        0 <= k1 < k2 < outer.len() ==> (#[trigger] outer[k1]).link.edge != (
                        #[trigger] outer[k2]).link.edge,
                decreases links.len() - j,
            {
                let link = links[j];
                assert(c@.edges.contains_key(links@[j as int].edge as int));
                assert(c@.nodes.contains_key(link.node as int));
                let by_gate = match c.node(link.node).node_type {
                    NodeType::Gate(_, _) => true,
                    _ => false,
                };
                let absorb = by_gate && c.fanout(link.node) == 1;
                tasks.push(Task { gate: g, link, absorb });
                j = j + 1;
            }
            proof {
                assert forall|k1: int, k2: int| 0 <= k1 < k2 < tasks@.len() implies (#[trigger] tasks@[k1]).link.edge
                    != (#[trigger] tasks@[k2]).link.edge by {
                    if k2 < outer.len() {
                        assert(tasks@[k1] == outer[k1] && tasks@[k2] == outer[k2]);
                    } else if k1 < outer.len() {
                        assert(tasks@[k1] == outer[k1]);
                        assert(task_ok(c@, outer[k1]));
                        assert(task_ok(c@, tasks@[k2]));
                    } else {
                        assert(links@[k1 - outer.len()].edge != links@[k2 - outer.len()].edge);
                    }
                }
                assert forall|e: int| c@.enters_secure_or(e) && c@.edges[e].dst < i + 1 implies task_edges(
                    tasks@,
                    tasks@.len() as int,
                ).contains(e) by {
                    if c@.edges[e].dst < i {
                        assert(task_edges(outer, outer.len() as int).contains(e));
                        let k = choose|k: int| 0 <= k < outer.len() && k < outer.len() && (#[trigger] outer[k]).link.edge == e;
                        assert(tasks@[k].link.edge == e);
                    } else {
                        let a = choose|a: int| 0 <= a < links@.len() && (#[trigger] links@[a]).edge == e;
                        assert(tasks@[outer.len() + a].link.edge == e);
                    }
                }
                assert forall|k: int| 0 <= k < tasks@.len() implies task_ok(c@, #[trigger] tasks@[k]) && tasks@[k].gate
                    < i + 1 by {
                    if k < outer.len() {
                        assert(tasks@[k] == outer[k]);
                    }
                }
            }
        }
        i = i + 1;
    }
    proof {
        let ids = tasks@.map_values(|t: Task| t.link.edge as int);
        assert(ids.no_duplicates()) by {
            assert forall|a: int, b: int| 0 <= a < ids.len() && 0 <= b < ids.len() && a != b implies ids[a]
                != ids[b] by {
                if a < b {
                    assert(tasks@[a].link.edge != tasks@[b].link.edge);
                } else {
                    assert(tasks@[b].link.edge != tasks@[a].link.edge);
                }
            }
        }
        assert(ids.to_set() =~= c@.or_inputs()) by {
            assert forall|e: int| ids.to_set().contains(e) <==> c@.or_inputs().contains(e) by {
                if ids.contains(e) {
                    let k = choose|k: int| 0 <= k < ids.len() && ids[k] == e;
                    assert(task_ok(c@, tasks@[k]));
                }
                if c@.or_inputs().contains(e) {
                    assert(c@.enters_secure_or(e));
                    assert(c@.nodes.contains_key(c@.edges[e].dst));
                    assert(task_edges(tasks@, tasks@.len() as int).contains(e));
                    let k = choose|k: int| 0 <= k < tasks@.len() && k < tasks@.len() && (#[trigger] tasks@[k]).link.edge == e;
                    assert(ids[k] == e);
                }
            }
        }
        ids.unique_seq_to_set();
        assert forall|e: int| c@.enters_secure_or(e) implies task_edges(tasks@, tasks@.len() as int).contains(
            e,
        ) by {
            assert(c@.nodes.contains_key(c@.edges[e].dst));
        }
    }
    (gates, tasks)
}

impl Circuit {
    /// Normalizes the secure OR gates, as [`CircuitView::or_normalized`]
    /// describes. Nothing is changed when the indices would not suffice for
    /// an inverter on every wire into a secure OR gate.
    pub fn convert_secure_ors(&mut self) -> (r: Result<(), Error>)
        requires
            old(self).wf(),
        ensures
            final(self).wf(),
            match r {
                Ok(_) => old(self)@.fits_inverters() && old(self)@.normalizes_to(final(self)@),
                Err(e) => e is CapacityExceeded && !old(self)@.fits_inverters() && final(self)@ == old(self)@,
            },
            final(self)@.slots.len() <= old(self)@.slots.len() + old(self)@.or_inputs().len(),
            final(self)@.edges.dom().len() <= old(self)@.edges.dom().len() + old(self)@.or_inputs().len(),
    {
        let found = or_tasks(self);
        let gates = found.0;
        let tasks = found.1;
        let ghost pre = self@;
        proof {
            self.lemma_view_wf();
        }
        let slots = self.slot_count();
        let wires = self.edge_count();
        let limit = u32::MAX as usize;
        if slots >= limit || wires >= limit || tasks.len() >= limit - slots || tasks.len() >= limit - wires {
            return Err(Error::CapacityExceeded);
        }
        let ghost no_inv = Map::<int, Inverter>::empty();
        let mut k: usize = 0;
        proof {
            assert forall|i: int| !pre.absorbed_among(Set::empty(), i) by {}
            assert(pre.or_progress(pre, first_gates(gates@, 0), Set::empty(), no_inv));
        }
        while k < gates.len()
            invariant
                self.wf(),
                pre.wf(),
                k <= gates@.len(),
                lists_rising(gates@, Set::new(|i: int| pre.is_secure_or(i))),
                pre.or_progress(self@, first_gates(gates@, k as int), Set::empty(), no_inv),
                no_inv == Map::<int, Inverter>::empty(),
                self@.slots == pre.slots,
                self@.edges == pre.edges,
            decreases gates.len() - k,
        {
            let g = gates[k];
            let ghost mid = self@;
            let ghost own = first_gates(gates@, k as int);
            proof {
                assert(pre.is_secure_or(gates@[k as int] as int));
                assert(!own.contains(g as int)) by {
                    if own.contains(g as int) {
                        let j = choose|j: int| 0 <= j < k && j < gates@.len() && #[trigger] gates@[j] == g as int;
                        assert(gates@[j] < gates@[k as int]);
                    }
                }
                assert(pre.nodes.contains_key(g as int));
                assert(mid.nodes.contains_key(g as int));
            }
            self.flip_inversion(g);
            proof {
                lemma_flip_own(pre, mid, self@, own, Set::empty(), no_inv, g as int);
                assert(own.insert(g as int) =~= first_gates(gates@, k + 1)) by {
                    assert forall|i: int| own.insert(g as int).contains(i) <==> first_gates(gates@, k + 1).contains(
                        i,
                    ) by {
                        if own.contains(i) {
                            let j = choose|j: int| 0 <= j < k && j < gates@.len() && #[trigger] gates@[j] == i;
                            assert(gates@[j] == i);
                        }
                        if i == g as int {
                            assert(gates@[k as int] == i);
                        }
                    }
                }
            }
            k = k + 1;
        }
        let ghost own = Set::new(|i: int| pre.is_secure_or(i));
        proof {
            assert(first_gates(gates@, k as int) =~= own) by {
                assert forall|i: int| first_gates(gates@, k as int).contains(i) <==> own.contains(i) by {
                    if first_gates(gates@, k as int).contains(i) {
                        let j = choose|j: int| 0 <= j < k && j < gates@.len() && #[trigger] gates@[j] == i;
                        assert(own.contains(gates@[j] as int));
                    }
                    if own.contains(i) {
                        assert(gates@.contains(i as u32));
                        let j = choose|j: int| 0 <= j < gates@.len() && gates@[j] == i as u32;
                        assert(gates@[j] == i);
                    }
                }
            }
            assert(task_edges(tasks@, 0) =~= Set::empty());
        }
        let ghost mut inv = no_inv;
        let mut t: usize = 0;
        while t < tasks.len()
            invariant
                self.wf(),
                pre.wf(),
                t <= tasks@.len(),
                own == Set::new(|i: int| pre.is_secure_or(i)),
                forall|k: int| 0 <= k < tasks@.len() ==> task_ok(pre, #[trigger] tasks@[k]),
                forall|k1: int, k2: int|
                    0 <= k1 < k2 < tasks@.len() ==> (#[trigger] tasks@[k1]).link.edge != (
                    #[trigger] tasks@[k2]).link.edge,
                pre.or_progress(self@, own, task_edges(tasks@, t as int), inv),
                self@.slots.len() <= pre.slots.len() + t,
                self@.edges.dom().len() <= pre.edges.dom().len() + t,
                pre.slots.len() + tasks@.len() < u32::MAX,
                pre.edges.dom().len() + tasks@.len() < u32::MAX,
            decreases tasks.len() - t,
        {
            let gate = tasks[t].gate;
            let link = tasks[t].link;
            let absorb = tasks[t].absorb;
            let ghost mid = self@;
            let ghost handled = task_edges(tasks@, t as int);
            let ghost e = link.edge as int;
            proof {
                self.lemma_view_wf();
                assert(task_ok(pre, tasks@[t as int]));
                assert(!handled.contains(e)) by {
                    if handled.contains(e) {
                        let j = choose|j: int| 0 <= j < t && j < tasks@.len() && (#[trigger] tasks@[j]).link.edge == e;
                        assert(tasks@[j].link.edge != tasks@[t as int].link.edge);
                    }
                }
                assert(handled.insert(e) =~= task_edges(tasks@, t + 1)) by {
                    assert forall|x: int| handled.insert(e).contains(x) <==> task_edges(tasks@, t + 1).contains(
                        x,
                    ) by {
                        if handled.contains(x) {
                            let j = choose|j: int| 0 <= j < t && j < tasks@.len() && (#[trigger] tasks@[j]).link.edge == x;
                            assert(tasks@[j].link.edge == x);
                        }
                        if x == e {
                            assert(tasks@[t as int].link.edge == x);
                        }
                    }
                }
                assert(pre.nodes.contains_key(link.node as int));
                assert(pre.nodes.contains_key(gate as int));
                assert(mid.nodes.contains_key(link.node as int));
                assert(mid.nodes.contains_key(gate as int));
                assert(!inv.contains_key(e));
                assert(mid.edges.contains_key(e) && mid.edges[e] == pre.edges[e]);
            }
            if absorb {
                self.flip_inversion(link.node);
                proof {
                    lemma_absorb(pre, mid, self@, own, handled, inv, e);
                }
            } else {
                let secure = self.node(link.node).secure;
                let buffer = Node { secure, node_type: NodeType::Gate(GateType::Buf, true), name: None };
                let b = match self.add_node(buffer) {
                    Ok(b) => b,
                    Err(err) => {
                        assert(false);
                        return Err(err);
                    },
                };
                let removed = self.disconnect(link.edge);
                let feed = match self.connect(link.node, link.src_port, b, 0) {
                    Ok(x) => x,
                    Err(err) => {
                        assert(false);
                        return Err(err);
                    },
                };
                let drive = match self.connect(b, 0, gate, link.dst_port) {
                    Ok(x) => x,
                    Err(err) => {
                        assert(false);
                        return Err(err);
                    },
                };
                proof {
                    lemma_insert_inverter(
                        pre,
                        mid,
                        self@,
                        own,
                        handled,
                        inv,
                        e,
                        b as int,
                        feed as int,
                        drive as int,
                    );
                    inv = inv.insert(e, Inverter { node: b as int, feed: feed as int, drive: drive as int });
                }
            }
            t = t + 1;
        }
        proof {
            assert(task_edges(tasks@, t as int) =~= pre.or_inputs()) by {
                assert forall|x: int| task_edges(tasks@, t as int).contains(x) <==> pre.or_inputs().contains(
                    x,
                ) by {
                    if task_edges(tasks@, t as int).contains(x) {
                        let j = choose|j: int| 0 <= j < t && j < tasks@.len() && (#[trigger] tasks@[j]).link.edge == x;
                        assert(task_ok(pre, tasks@[j]));
                    }
                    if pre.or_inputs().contains(x) {
                        assert(pre.enters_secure_or(x));
                    }
                }
            }
            assert(pre.or_normalized(self@, inv));
            assert(pre.normalizes_to(self@));
        }
        Ok(())
    }
}

} // verus!
