//! Share expansion: every node to be rewritten gets its shares, and the
//! wires into it are repeated share for share.

use vstd::prelude::*;

use crate::circuit::{lemma_links_count, Circuit, CircuitView, Error};
use crate::node::{GateType, NodeId, NodeType, NodeView};
use crate::reach::{lemma_reaches_step, reached_from, reaches};
use crate::shares::{is_replica_of, share_name, share_offset, share_port, Replica, Shares};
use crate::wiring::{has_wire, lists_wires_into, reversed, Link, Wire};

verus! {

/// The node that carries share `s` of `v`: the replica that the tables name
/// for a share from 1 on of a rewritten node, and `v` itself otherwise.
pub open spec fn share_node(tables: Map<int, Seq<Replica>>, v: int, s: int) -> int {
    if tables.contains_key(v) && 1 <= s <= tables[v].len() {
        tables[v][s - 1].node as int
    } else {
        v
    }
}

/// What is added to an output port of `v` for share `s`.
pub open spec fn share_src_offset(tables: Map<int, Seq<Replica>>, v: int, s: int) -> int {
    if tables.contains_key(v) && 1 <= s <= tables[v].len() {
        tables[v][s - 1].src_offset as int
    } else {
        0
    }
}

/// What is added to an input port of `v` for share `s`.
pub open spec fn share_dst_offset(tables: Map<int, Seq<Replica>>, v: int, s: int) -> int {
    if tables.contains_key(v) && 1 <= s <= tables[v].len() {
        tables[v][s - 1].dst_offset as int
    } else {
        0
    }
}

/// The wire that carries share `s` of the wire `w`: from the share of the
/// source to the share of the destination, on the ports of that share. A
/// source without shares feeds every share of the destination.
pub open spec fn share_wire(w: Wire, tables: Map<int, Seq<Replica>>, s: int) -> Wire {
    Wire {
        src: share_node(tables, w.src, s),
        dst: share_node(tables, w.dst, s),
        src_port: w.src_port + share_src_offset(tables, w.src, s),
        dst_port: w.dst_port + share_dst_offset(tables, w.dst, s),
    }
}

/// `r` is a node that was made to carry a share of a replicated node.
pub open spec fn is_share_node(mid: CircuitView, tables: Map<int, Seq<Replica>>, r: int) -> bool {
    exists|v: int, j: int|
        tables.contains_key(v) && !mid.becomes_gadget(v) && 0 <= j < tables[v].len() && (
        #[trigger] tables[v][j]).node == r
}

/// `x` is a wire that was made to carry a share of another wire.
pub open spec fn is_share_wire(wires: Map<(int, int), int>, x: int) -> bool {
    exists|e: int, s: int| #[trigger] wires.contains_key((e, s)) && wires[(e, s)] == x
}

impl CircuitView {
    /// The nodes to be rewritten.
    pub open spec fn rewrite_set(self) -> Set<int> {
        Set::new(|v: int| self.to_rewrite(v))
    }

    /// The node `i` once the nodes in `done` are rewritten: a gadget in
    /// place of a gate that becomes one, the name of share 0 on a node that is
    /// replicated, and the node as it was otherwise.
    pub open spec fn rewritten_node(self, i: int, done: Set<int>, num_shares: u8) -> NodeView {
        if !done.contains(i) {
            self.nodes[i]
        } else if self.becomes_gadget(i) {
            NodeView { kind: self.nodes[i].kind.as_gadget(num_shares), ..self.nodes[i] }
        } else {
            NodeView { name: share_name(self.nodes[i].name, 0), ..self.nodes[i] }
        }
    }

    /// `post` is this circuit with the nodes in `done` rewritten into
    /// `num_shares` shares each, `tables` saying where the shares live; the
    /// wires are untouched.
    pub open spec fn shares_made(
        self,
        post: CircuitView,
        num_shares: u8,
        tables: Map<int, Seq<Replica>>,
        done: Set<int>,
    ) -> bool {
        &&& post.name == self.name
        &&& post.zero == self.zero
        &&& post.one == self.one
        &&& post.edges == self.edges
        &&& forall|v: int| #[trigger] tables.contains_key(v) <==> done.contains(v)
        &&& forall|v: int| #[trigger] done.contains(v) ==> self.nodes.contains_key(v) && self.to_rewrite(v)
        &&& forall|v: int| #[trigger]
            tables.contains_key(v) ==> tables[v].len() == num_shares - 1 && (self.becomes_gadget(v)
                ==> self.gadget_table(v, tables[v]))
        &&& forall|v: int, j: int|
            tables.contains_key(v) && !self.becomes_gadget(v) && 0 <= j < tables[v].len() ==> {
                &&& (#[trigger] tables[v][j]).src_offset == 0
                &&& tables[v][j].dst_offset == 0
                &&& !self.slots.contains(tables[v][j].node as int)
                &&& post.nodes.contains_key(tables[v][j].node as int)
                &&& post.nodes[tables[v][j].node as int] == (NodeView {
                    secure: true,
                    kind: self.nodes[v].kind.without_inversion(),
                    name: share_name(self.nodes[v].name, (j + 1) as nat),
                })
            }
        &&& forall|v1: int, j1: int, v2: int, j2: int|
            tables.contains_key(v1) && !self.becomes_gadget(v1) && 0 <= j1 < tables[v1].len()
                && tables.contains_key(v2) && !self.becomes_gadget(v2) && 0 <= j2 < tables[v2].len() && (v1
                != v2 || j1 != j2) ==> (#[trigger] tables[v1][j1]).node != (#[trigger] tables[v2][j2]).node
        &&& forall|i: int| #[trigger]
            self.nodes.contains_key(i) ==> post.nodes.contains_key(i) && post.nodes[i]
                == self.rewritten_node(i, done, num_shares)
        &&& forall|b: int| #[trigger]
            post.nodes.contains_key(b) ==> self.nodes.contains_key(b) || is_share_node(self, tables, b)
        &&& forall|b: int| #[trigger]
            post.slots.contains(b) <==> self.slots.contains(b) || is_share_node(self, tables, b)
    }

    /// `post` has the wires of this circuit and, for each pair of a wire and
    /// a share in `wires`, one more wire that carries that share, as
    /// [`share_wire`] describes.
    pub open spec fn shares_wired(
        self,
        post: CircuitView,
        tables: Map<int, Seq<Replica>>,
        wires: Map<(int, int), int>,
    ) -> bool {
        &&& forall|e: int| #[trigger]
            self.edges.contains_key(e) ==> post.edges.contains_key(e) && post.edges[e] == self.edges[e]
        &&& forall|e: int, s: int| #[trigger]
            wires.contains_key((e, s)) ==> {
                &&& self.edges.contains_key(e)
                &&& !self.edges.contains_key(wires[(e, s)])
                &&& post.edges.contains_key(wires[(e, s)])
                &&& post.edges[wires[(e, s)]] == share_wire(self.edges[e], tables, s)
            }
        &&& forall|e1: int, s1: int, e2: int, s2: int|
            #![trigger wires.contains_key((e1, s1)), wires.contains_key((e2, s2))]
            wires.contains_key((e1, s1)) && wires.contains_key((e2, s2)) && (e1 != e2 || s1 != s2)
                ==> wires[(e1, s1)] != wires[(e2, s2)]
        &&& forall|x: int| #[trigger]
            post.edges.contains_key(x) ==> self.edges.contains_key(x) || is_share_wire(wires, x)
    }

    /// `post` is this circuit expanded for masking of the given order: every
    /// node to be rewritten has its shares, as `tables` says, and every wire
    /// into such a node is repeated for each share from 1 to `order`, as
    /// `wires` says.
    pub open spec fn expanded(
        self,
        post: CircuitView,
        order: u8,
        tables: Map<int, Seq<Replica>>,
        wires: Map<(int, int), int>,
    ) -> bool {
        &&& order < u8::MAX
        &&& self.shares_made(
            CircuitView { edges: self.edges, ..post },
            (order + 1) as u8,
            tables,
            self.rewrite_set(),
        )
        &&& self.shares_wired(post, tables, wires)
        &&& forall|e: int, s: int| #[trigger]
            wires.contains_key((e, s)) <==> self.edges.contains_key(e) && self.to_rewrite(self.edges[e].dst)
                && 1 <= s <= order
    }
}

impl CircuitView {
    /// `post` is this circuit expanded for masking of the given order, with
    /// the shares where `tables` says, for some choice of the new wires.
    pub open spec fn expands_to(self, post: CircuitView, order: u8, tables: Map<int, Seq<Replica>>) -> bool {
        exists|wires: Map<(int, int), int>| #[trigger] self.expanded(post, order, tables, wires)
    }
}

/// Recording the replicas of one more node is one step of the expansion.
pub proof fn lemma_step_replicated(
    mid: CircuitView,
    cur: CircuitView,
    next: CircuitView,
    num_shares: u8,
    tables: Map<int, Seq<Replica>>,
    done: Set<int>,
    v: int,
    replicas: Seq<Replica>,
)
    requires
        mid.wf(),
        mid.shares_made(cur, num_shares, tables, done),
        !done.contains(v),
        mid.nodes.contains_key(v),
        mid.to_rewrite(v),
        !mid.becomes_gadget(v),
        replicas.len() == num_shares - 1,
        cur.replicated(next, v, replicas),
    ensures
        mid.shares_made(next, num_shares, tables.insert(v, replicas), done.insert(v)),
{
    let tables2 = tables.insert(v, replicas);
    let done2 = done.insert(v);
    assert(!tables.contains_key(v));
    assert(cur.nodes[v] == mid.nodes[v]);
    assert forall|b: int| is_share_node(mid, tables, b) implies is_share_node(mid, tables2, b) by {
        let (u, j) = choose|u: int, j: int|
            tables.contains_key(u) && !mid.becomes_gadget(u) && 0 <= j < tables[u].len() && (
            #[trigger] tables[u][j]).node == b;
        assert(tables2.contains_key(u) && tables2[u][j].node == b);
    }
    assert forall|b: int| is_replica_of(replicas, b) implies is_share_node(mid, tables2, b) by {
        let j = choose|j: int| 0 <= j < replicas.len() && (#[trigger] replicas[j]).node == b;
        assert(tables2.contains_key(v) && tables2[v][j].node == b);
    }
    assert forall|b: int| is_share_node(mid, tables2, b) implies is_share_node(mid, tables, b)
        || is_replica_of(replicas, b) by {
        let (u, j) = choose|u: int, j: int|
            tables2.contains_key(u) && !mid.becomes_gadget(u) && 0 <= j < tables2[u].len() && (
            #[trigger] tables2[u][j]).node == b;
        if u == v {
            assert(replicas[j].node == b);
        } else {
            assert(tables.contains_key(u) && tables[u][j].node == b);
        }
    }
    assert forall|u: int, j: int|
        tables.contains_key(u) && !mid.becomes_gadget(u) && 0 <= j < tables[u].len() implies cur.slots.contains(
        (#[trigger] tables[u][j]).node as int,
    ) && cur.nodes.contains_key(tables[u][j].node as int) && tables[u][j].node != v by {
        assert(is_share_node(mid, tables, tables[u][j].node as int));
        assert(mid.slots.contains(v));
    }
    assert forall|u: int, j: int|
        tables2.contains_key(u) && !mid.becomes_gadget(u) && 0 <= j < tables2[u].len() implies {
        &&& (#[trigger] tables2[u][j]).src_offset == 0
        &&& tables2[u][j].dst_offset == 0
        &&& !mid.slots.contains(tables2[u][j].node as int)
        &&& next.nodes.contains_key(tables2[u][j].node as int)
        &&& next.nodes[tables2[u][j].node as int] == (NodeView {
            secure: true,
            kind: mid.nodes[u].kind.without_inversion(),
            name: share_name(mid.nodes[u].name, (j + 1) as nat),
        })
    } by {
        if u == v {
            assert(tables2[u][j] == replicas[j]);
            assert(!cur.slots.contains(replicas[j].node as int));
            if mid.slots.contains(replicas[j].node as int) {
                assert(cur.slots.contains(replicas[j].node as int));
            }
        } else {
            assert(tables2[u][j] == tables[u][j]);
            assert(cur.nodes.contains_key(tables[u][j].node as int));
        }
    }
    assert forall|v1: int, j1: int, v2: int, j2: int|
        tables2.contains_key(v1) && !mid.becomes_gadget(v1) && 0 <= j1 < tables2[v1].len()
            && tables2.contains_key(v2) && !mid.becomes_gadget(v2) && 0 <= j2 < tables2[v2].len() && (v1 != v2
            || j1 != j2) implies (#[trigger] tables2[v1][j1]).node != (#[trigger] tables2[v2][j2]).node by {
        if v1 == v && v2 == v {
            if j1 < j2 {
                assert(replicas[j1].node != replicas[j2].node);
            } else {
                assert(replicas[j2].node != replicas[j1].node);
            }
        } else if v1 == v {
            assert(tables2[v2][j2] == tables[v2][j2]);
            assert(cur.slots.contains(tables[v2][j2].node as int));
            assert(!cur.slots.contains(replicas[j1].node as int));
        } else if v2 == v {
            assert(tables2[v1][j1] == tables[v1][j1]);
            assert(cur.slots.contains(tables[v1][j1].node as int));
            assert(!cur.slots.contains(replicas[j2].node as int));
        } else {
            assert(tables2[v1][j1] == tables[v1][j1]);
            assert(tables2[v2][j2] == tables[v2][j2]);
        }
    }
    assert forall|i: int| #[trigger] mid.nodes.contains_key(i) implies next.nodes.contains_key(i)
        && next.nodes[i] == mid.rewritten_node(i, done2, num_shares) by {
        assert(cur.nodes.contains_key(i));
    }
    assert forall|u: int| #[trigger] tables2.contains_key(u) implies tables2[u].len() == num_shares - 1 && (
    mid.becomes_gadget(u) ==> mid.gadget_table(u, tables2[u])) by {
        if u != v {
            assert(tables.contains_key(u));
        }
    }
    assert forall|u: int| #[trigger] done2.contains(u) implies mid.nodes.contains_key(u) && mid.to_rewrite(
        u,
    ) by {
        if u != v {
            assert(done.contains(u));
        }
    }
    assert forall|u: int| #[trigger] tables2.contains_key(u) <==> done2.contains(u) by {
        if u != v {
            assert(tables.contains_key(u) <==> done.contains(u));
        }
    }
    assert forall|b: int| #[trigger] next.nodes.contains_key(b) implies mid.nodes.contains_key(b)
        || is_share_node(mid, tables2, b) by {
        if !is_replica_of(replicas, b) {
            assert(cur.nodes.contains_key(b));
        }
    }
    assert forall|b: int| #[trigger] next.slots.contains(b) <==> mid.slots.contains(b) || is_share_node(
        mid,
        tables2,
        b,
    ) by {
        if mid.slots.contains(b) {
            assert(cur.slots.contains(b));
        }
        if is_share_node(mid, tables, b) {
            assert(cur.slots.contains(b));
        }
        if next.slots.contains(b) && !is_replica_of(replicas, b) {
            assert(cur.slots.contains(b));
        }
    }
}

/// Turning one more gate into a gadget is one step of the expansion.
pub proof fn lemma_step_gadget(
    mid: CircuitView,
    cur: CircuitView,
    next: CircuitView,
    num_shares: u8,
    tables: Map<int, Seq<Replica>>,
    done: Set<int>,
    v: int,
    replicas: Seq<Replica>,
)
    requires
        mid.wf(),
        mid.shares_made(cur, num_shares, tables, done),
        !done.contains(v),
        mid.nodes.contains_key(v),
        mid.to_rewrite(v),
        mid.becomes_gadget(v),
        replicas.len() == num_shares - 1,
        mid.gadget_table(v, replicas),
        cur.with_gadget(next, v, num_shares),
    ensures
        mid.shares_made(next, num_shares, tables.insert(v, replicas), done.insert(v)),
{
    let tables2 = tables.insert(v, replicas);
    let done2 = done.insert(v);
    assert(!tables.contains_key(v));
    assert(cur.nodes[v] == mid.nodes[v]);
    assert forall|b: int| is_share_node(mid, tables, b) implies is_share_node(mid, tables2, b) by {
        let (u, j) = choose|u: int, j: int|
            tables.contains_key(u) && !mid.becomes_gadget(u) && 0 <= j < tables[u].len() && (
            #[trigger] tables[u][j]).node == b;
        assert(tables2.contains_key(u) && tables2[u][j].node == b);
    }
    assert forall|b: int| is_share_node(mid, tables2, b) implies is_share_node(mid, tables, b) by {
        let (u, j) = choose|u: int, j: int|
            tables2.contains_key(u) && !mid.becomes_gadget(u) && 0 <= j < tables2[u].len() && (
            #[trigger] tables2[u][j]).node == b;
        assert(u != v);
        assert(tables.contains_key(u) && tables[u][j].node == b);
    }
    assert forall|u: int, j: int|
        tables2.contains_key(u) && !mid.becomes_gadget(u) && 0 <= j < tables2[u].len() implies {
        &&& (#[trigger] tables2[u][j]).src_offset == 0
        &&& tables2[u][j].dst_offset == 0
        &&& !mid.slots.contains(tables2[u][j].node as int)
        &&& next.nodes.contains_key(tables2[u][j].node as int)
        &&& next.nodes[tables2[u][j].node as int] == (NodeView {
            secure: true,
            kind: mid.nodes[u].kind.without_inversion(),
            name: share_name(mid.nodes[u].name, (j + 1) as nat),
        })
    } by {
        assert(u != v);
        assert(tables2[u][j] == tables[u][j]);
        assert(mid.slots.contains(v));
    }
    assert forall|v1: int, j1: int, v2: int, j2: int|
        tables2.contains_key(v1) && !mid.becomes_gadget(v1) && 0 <= j1 < tables2[v1].len()
            && tables2.contains_key(v2) && !mid.becomes_gadget(v2) && 0 <= j2 < tables2[v2].len() && (v1 != v2
            || j1 != j2) implies (#[trigger] tables2[v1][j1]).node != (#[trigger] tables2[v2][j2]).node by {
        assert(tables2[v1][j1] == tables[v1][j1]);
        assert(tables2[v2][j2] == tables[v2][j2]);
    }
    assert forall|i: int| #[trigger] mid.nodes.contains_key(i) implies next.nodes.contains_key(i)
        && next.nodes[i] == mid.rewritten_node(i, done2, num_shares) by {
        assert(cur.nodes.contains_key(i));
    }
    assert forall|u: int| #[trigger] tables2.contains_key(u) implies tables2[u].len() == num_shares - 1 && (
    mid.becomes_gadget(u) ==> mid.gadget_table(u, tables2[u])) by {
        if u != v {
            assert(tables.contains_key(u));
        }
    }
    assert forall|u: int| #[trigger] done2.contains(u) implies mid.nodes.contains_key(u) && mid.to_rewrite(
        u,
    ) by {
        if u != v {
            assert(done.contains(u));
        }
    }
    assert forall|u: int| #[trigger] tables2.contains_key(u) <==> done2.contains(u) by {
        if u != v {
            assert(tables.contains_key(u) <==> done.contains(u));
        }
    }
    assert forall|b: int| #[trigger] next.nodes.contains_key(b) implies mid.nodes.contains_key(b)
        || is_share_node(mid, tables2, b) by {
        assert(cur.nodes.contains_key(b));
    }
    assert forall|b: int| #[trigger] next.slots.contains(b) <==> mid.slots.contains(b) || is_share_node(
        mid,
        tables2,
        b,
    ) by {
        assert(cur.slots.contains(b) <==> mid.slots.contains(b) || is_share_node(mid, tables, b));
    }
}

/// Adding the wire that carries one more share of a wire is one step of the
/// expansion.
pub proof fn lemma_step_wire(
    mid: CircuitView,
    cur: CircuitView,
    next: CircuitView,
    tables: Map<int, Seq<Replica>>,
    wires: Map<(int, int), int>,
    e: int,
    s: int,
    x: int,
)
    requires
        mid.shares_wired(cur, tables, wires),
        mid.edges.contains_key(e),
        !wires.contains_key((e, s)),
        !cur.edges.contains_key(x),
        next.edges == cur.edges.insert(x, share_wire(mid.edges[e], tables, s)),
    ensures
        mid.shares_wired(next, tables, wires.insert((e, s), x)),
{
    let wires2 = wires.insert((e, s), x);
    assert forall|y: int| is_share_wire(wires, y) implies is_share_wire(wires2, y) && y != x by {
        let (a, b) = choose|a: int, b: int| #[trigger] wires.contains_key((a, b)) && wires[(a, b)] == y;
        assert(wires2.contains_key((a, b)) && wires2[(a, b)] == y);
        assert(cur.edges.contains_key(wires[(a, b)]));
    }
    assert(is_share_wire(wires2, x)) by {
        assert(wires2.contains_key((e, s)) && wires2[(e, s)] == x);
    }
    assert forall|a: int, b: int| #[trigger] wires2.contains_key((a, b)) implies {
        &&& mid.edges.contains_key(a)
        &&& !mid.edges.contains_key(wires2[(a, b)])
        &&& next.edges.contains_key(wires2[(a, b)])
        &&& next.edges[wires2[(a, b)]] == share_wire(mid.edges[a], tables, b)
    } by {
        if a == e && b == s {
        } else {
            assert(wires.contains_key((a, b)));
            assert(cur.edges.contains_key(wires[(a, b)]));
        }
    }
    assert forall|e1: int, s1: int, e2: int, s2: int|
        #![trigger wires2.contains_key((e1, s1)), wires2.contains_key((e2, s2))]
        wires2.contains_key((e1, s1)) && wires2.contains_key((e2, s2)) && (e1 != e2 || s1 != s2)
            implies wires2[(e1, s1)] != wires2[(e2, s2)] by {
        if e1 == e && s1 == s {
            assert(wires.contains_key((e2, s2)));
            assert(cur.edges.contains_key(wires[(e2, s2)]));
        } else if e2 == e && s2 == s {
            assert(wires.contains_key((e1, s1)));
            assert(cur.edges.contains_key(wires[(e1, s1)]));
        } else {
            assert(wires.contains_key((e1, s1)) && wires.contains_key((e2, s2)));
        }
    }
    assert forall|y: int| #[trigger] next.edges.contains_key(y) implies mid.edges.contains_key(y)
        || is_share_wire(wires2, y) by {
        if y != x {
            assert(cur.edges.contains_key(y));
        }
    }
}

/// What is to be done with a node: whether it is rewritten, whether into a
/// gadget, and for a gadget the number of wires into it.
#[derive(Clone, Copy)]
struct Plan {
    rewrite: bool,
    gadget: bool,
    width: usize,
}

/// The plan says of the node `v` of `c` what the rules say.
spec fn plan_ok(c: CircuitView, v: int, p: Plan) -> bool {
    &&& p.rewrite == c.to_rewrite(v)
    &&& p.rewrite ==> c.expandable(v) && p.gadget == c.becomes_gadget(v)
    &&& p.rewrite && p.gadget ==> p.width == c.wires_into(v).len()
}

/// A wire into a node that is rewritten.
struct Task {
    dst: NodeId,
    link: Link,
}

/// The task describes a wire of `c` into a node to rewrite.
spec fn task_ok(c: CircuitView, t: Task) -> bool {
    &&& c.edges.contains_key(t.link.edge as int)
    &&& c.edges[t.link.edge as int] == (Wire {
        src: t.link.node as int,
        dst: t.dst as int,
        src_port: t.link.src_port as int,
        dst_port: t.link.dst_port as int,
    })
    &&& c.to_rewrite(t.dst as int)
}

impl CircuitView {
    /// The circuit is small enough for masking of the given order: the
    /// number of shares fits its type, and the indices suffice for every node
    /// and every wire that normalization and expansion may add.
    pub open spec fn fits_masking(self, order: u8) -> bool {
        &&& order < u8::MAX
        &&& (order + 1) * (self.slots.len() + self.edges.dom().len()) < u32::MAX
        &&& (order + 1) * (2 * self.edges.dom().len()) < u32::MAX
    }

    /// The ports of every share of the wire `e` fit in a port number.
    pub open spec fn wire_fits(self, e: int, order: u8) -> bool {
        let w = self.edges[e];
        &&& w.dst_port + (if self.becomes_gadget(w.dst) {
            share_port(0, order as int, self.wires_into(w.dst).len() as int)
        } else {
            0
        }) <= u8::MAX
        &&& w.src_port + (if self.to_rewrite(w.src) && self.becomes_gadget(w.src) {
            order as int
        } else {
            0
        }) <= u8::MAX
    }

    /// Some wire into the node `v`, which is to be rewritten, has a share
    /// port that does not fit in a port number.
    pub open spec fn has_misfit_into(self, v: int, order: u8) -> bool {
        self.to_rewrite(v) && exists|e: int| #[trigger]
            self.edges.contains_key(e) && self.edges[e].dst == v && !self.wire_fits(e, order)
    }

    /// The share ports of every wire into a node to rewrite fit in a port
    /// number.
    pub open spec fn ports_fit(self, order: u8) -> bool {
        forall|e: int| #[trigger]
            self.edges.contains_key(e) && self.to_rewrite(self.edges[e].dst) ==> self.wire_fits(e, order)
    }
}

/// For each index below the bound of `c`, whether the node is to be
/// rewritten.
fn rewrite_marks(c: &Circuit) -> (marks: Vec<bool>)
    requires
        c.wf(),
    ensures
        forall|v: int| #[trigger] c@.slots.contains(v) ==> v < marks@.len(),
        forall|v: int| 0 <= v < marks@.len() ==> #[trigger] marks@[v] == c@.to_rewrite(v),
{
    proof {
        c.lemma_view_wf();
    }
    let outs = c.secure_outputs();
    let ghost set = outs@.map_values(|i: NodeId| i as int).to_set();
    proof {
        assert(set =~= c@.secure_outputs()) by {
            assert forall|x: int| set.contains(x) <==> c@.secure_outputs().contains(x) by {
                if set.contains(x) {
                    let all = outs@.map_values(|i: NodeId| i as int);
                    let j = choose|j: int| 0 <= j < all.len() && all[j] == x;
                    assert(c@.secure_outputs().contains(outs@[j] as int));
                }
                if c@.secure_outputs().contains(x) {
                    assert(outs@.contains(x as u32));
                    let j = choose|j: int| 0 <= j < outs@.len() && outs@[j] == x as u32;
                    assert(outs@.map_values(|i: NodeId| i as int)[j] == x);
                }
            }
        }
    }
    let reached = c.cone(&outs, true);
    let n = reached.len();
    let mut marks: Vec<bool> = Vec::new();
    let mut i: usize = 0;
    while i < n
        invariant
            c.wf(),
            c@.wf(),
            i <= n,
            n == reached@.len(),
            marks@.len() == i,
            forall|v: int| #[trigger] c@.slots.contains(v) ==> v < n,
            forall|v: int|
                0 <= v < n ==> #[trigger] reached@[v] == reached_from(reversed(c@.edges), c@.secure_outputs(), v),
            forall|v: int| 0 <= v < i ==> #[trigger] marks@[v] == c@.to_rewrite(v),
        decreases n - i,
    {
        let mark = reached[i] && i <= u32::MAX as usize && c.contains(i as u32) && c.node(i as u32).secure;
        marks.push(mark);
        i = i + 1;
    }
    marks
}

/// Decides for every node what is to be done with it. Fails with the first
/// node that is to be rewritten and cannot be.
fn make_plan(c: &Circuit, marks: &Vec<bool>) -> (r: Result<Vec<Plan>, NodeId>)
    requires
        c.wf(),
        forall|v: int| #[trigger] c@.slots.contains(v) ==> v < marks@.len(),
        forall|v: int| 0 <= v < marks@.len() ==> #[trigger] marks@[v] == c@.to_rewrite(v),
    ensures
        match r {
            Ok(plan) => plan@.len() == marks@.len() && forall|v: int|
                0 <= v < plan@.len() ==> plan_ok(c@, v, #[trigger] plan@[v]),
            Err(v) => c@.to_rewrite(v as int) && !c@.expandable(v as int) && forall|u: int|
                0 <= u < v && c@.to_rewrite(u) ==> c@.expandable(u),
        },
{
    proof {
        c.lemma_view_wf();
    }
    let n = marks.len();
    let mut plan: Vec<Plan> = Vec::new();
    let mut i: usize = 0;
    while i < n
        invariant
            c.wf(),
            c@.wf(),
            i <= n,
            n == marks@.len(),
            plan@.len() == i,
            forall|v: int| #[trigger] c@.slots.contains(v) ==> v < n,
            forall|v: int| 0 <= v < n ==> #[trigger] marks@[v] == c@.to_rewrite(v),
            forall|v: int| 0 <= v < i ==> plan_ok(c@, v, #[trigger] plan@[v]),
        decreases n - i,
    {
        if !marks[i] {
            plan.push(Plan { rewrite: false, gadget: false, width: 0 });
        } else {
            assert(c@.to_rewrite(i as int));
            assert(c@.slots.contains(i as int));
            let v = i as u32;
            let linear = match c.node(v).node_type {
                NodeType::Input | NodeType::Output | NodeType::Register => true,
                NodeType::Gate(GateType::Buf, _) | NodeType::Gate(GateType::Xor(_), _) => true,
                NodeType::Gate(_, _) => false,
                _ => {
                    assert forall|u: int| 0 <= u < v && c@.to_rewrite(u) implies c@.expandable(u) by {
                        assert(plan_ok(c@, u, plan@[u]));
                    }
                    return Err(v);
                },
            };
            if linear || !c.has_secure_inputs(v) {
                plan.push(Plan { rewrite: true, gadget: false, width: 0 });
            } else {
                let links = c.incoming(v);
                proof {
                    lemma_links_count(links@, c@.edges, v as int);
                }
                plan.push(Plan { rewrite: true, gadget: true, width: links.len() });
            }
        }
        i = i + 1;
    }
    Ok(plan)
}

/// The edge indices of the first `k` tasks.
spec fn task_edges(tasks: Seq<Task>, k: int) -> Set<int> {
    Set::new(|e: int| exists|j: int| 0 <= j < k && j < tasks.len() && (#[trigger] tasks[j]).link.edge == e)
}

/// The wires into the nodes that are to be rewritten.
fn share_tasks(c: &Circuit, marks: &Vec<bool>) -> (tasks: Vec<Task>)
    requires
        c.wf(),
        forall|v: int| #[trigger] c@.slots.contains(v) ==> v < marks@.len(),
        forall|v: int| 0 <= v < marks@.len() ==> #[trigger] marks@[v] == c@.to_rewrite(v),
    ensures
        forall|k: int| 0 <= k < tasks@.len() ==> task_ok(c@, #[trigger] tasks@[k]),
        forall|k1: int, k2: int|
            0 <= k1 < k2 < tasks@.len() ==> (#[trigger] tasks@[k1]).link.edge != (#[trigger] tasks@[k2]).link.edge,
        forall|e: int|
            c@.edges.contains_key(e) && c@.to_rewrite(c@.edges[e].dst) ==> task_edges(
                tasks@,
                tasks@.len() as int,
            ).contains(e),
        tasks@.len() <= c@.edges.dom().len(),
{
    proof {
        c.lemma_view_wf();
    }
    let n = marks.len();
    let mut tasks: Vec<Task> = Vec::new();
    let mut i: usize = 0;
    while i < n
        invariant
            c.wf(),
            c@.wf(),
            i <= n,
            n == marks@.len(),
            forall|v: int| #[trigger] c@.slots.contains(v) ==> v < n,
            forall|v: int| 0 <= v < n ==> #[trigger] marks@[v] == c@.to_rewrite(v),
            forall|k: int| 0 <= k < tasks@.len() ==> task_ok(c@, #[trigger] tasks@[k]) && tasks@[k].dst < i,
            forall|k1: int, k2: int|
                0 <= k1 < k2 < tasks@.len() ==> (#[trigger] tasks@[k1]).link.edge != (
                #[trigger] tasks@[k2]).link.edge,
            forall|e: int|
                c@.edges.contains_key(e) && c@.to_rewrite(c@.edges[e].dst) && c@.edges[e].dst < i ==> task_edges(
                    tasks@,
                    tasks@.len() as int,
                ).contains(e),
        decreases n - i,
    {
        if marks[i] {
            assert(c@.to_rewrite(i as int));
            assert(c@.slots.contains(i as int));
            let g = i as u32;
            let links = c.incoming(g);
            let ghost outer = tasks@;
            let mut j: usize = 0;
            while j < links.len()
                invariant
                    c.wf(),
                    c@.wf(),
                    j <= links@.len(),
                    g == i,
                    c@.to_rewrite(g as int),
                    lists_wires_into(links@, c@.edges, g as int),
                    tasks@.len() == outer.len() + j,
                    forall|k: int| 0 <= k < outer.len() ==> tasks@[k] == outer[k],
                    forall|k: int|
                        outer.len() <= k < tasks@.len() ==> task_ok(c@, #[trigger] tasks@[k]) && tasks@[k].dst == g
                            && tasks@[k].link == links@[k - outer.len()],
                decreases links.len() - j,
            {
                let link = links[j];
                assert(c@.edges.contains_key(links@[j as int].edge as int));
                tasks.push(Task { dst: g, link });
                j = j + 1;
            }
            proof {
                assert forall|k1: int, k2: int| 0 <= k1 < k2 < tasks@.len() implies (#[trigger] tasks@[k1]).link.edge
                    != (#[trigger] tasks@[k2]).link.edge by {
                    if k2 < outer.len() {
                        assert(tasks@[k1] == outer[k1] && tasks@[k2] == outer[k2]);
                    } else if k1 < outer.len() {
                        assert(tasks@[k1] == outer[k1]);
                        assert(task_ok(c@, outer[k1]));
                        assert(task_ok(c@, tasks@[k2]));
                    } else {
                        assert(links@[k1 - outer.len()].edge != links@[k2 - outer.len()].edge);
                    }
                }
                assert forall|e: int|
                    c@.edges.contains_key(e) && c@.to_rewrite(c@.edges[e].dst) && c@.edges[e].dst < i + 1 implies task_edges(
                    tasks@,
                    tasks@.len() as int,
                ).contains(e) by {
                    if c@.edges[e].dst < i {
                        assert(task_edges(outer, outer.len() as int).contains(e));
                        let k = choose|k: int|
                            0 <= k < outer.len() && k < outer.len() && (#[trigger] outer[k]).link.edge == e;
                        assert(tasks@[k].link.edge == e);
                    } else {
                        let a = choose|a: int| 0 <= a < links@.len() && (#[trigger] links@[a]).edge == e;
                        assert(tasks@[outer.len() + a].link.edge == e);
                    }
                }
                assert forall|k: int| 0 <= k < tasks@.len() implies task_ok(c@, #[trigger] tasks@[k]) && tasks@[k].dst
                    < i + 1 by {
                    if k < outer.len() {
                        assert(tasks@[k] == outer[k]);
                    }
                }
            }
        }
        i = i + 1;
    }
    proof {
        let ids = tasks@.map_values(|t: Task| t.link.edge as int);
        assert(ids.no_duplicates()) by {
            assert forall|a: int, b: int| 0 <= a < ids.len() && 0 <= b < ids.len() && a != b implies ids[a]
                != ids[b] by {
                if a < b {
                    assert(tasks@[a].link.edge != tasks@[b].link.edge);
                } else {
                    assert(tasks@[b].link.edge != tasks@[a].link.edge);
                }
            }
        }
        assert(ids.to_set().subset_of(c@.edges.dom())) by {
            assert forall|e: int| ids.to_set().contains(e) implies c@.edges.dom().contains(e) by {
                let k = choose|k: int| 0 <= k < ids.len() && ids[k] == e;
                assert(task_ok(c@, tasks@[k]));
            }
        }
        ids.unique_seq_to_set();
        vstd::set_lib::lemma_len_subset(ids.to_set(), c@.edges.dom());
        assert forall|e: int| c@.edges.contains_key(e) && c@.to_rewrite(c@.edges[e].dst) implies task_edges(
            tasks@,
            tasks@.len() as int,
        ).contains(e) by {
            assert(c@.slots.contains(c@.edges[e].dst));
        }
    }
    tasks
}

/// Looks for a wire into a node to rewrite whose share ports do not fit,
/// and gives the node that the first such wire leads into.
fn check_ports(c: &Circuit, plan: &Vec<Plan>, tasks: &Vec<Task>, order: u8) -> (misfit: Option<NodeId>)
    requires
        c.wf(),
        forall|v: int| #[trigger] c@.slots.contains(v) ==> v < plan@.len(),
        forall|v: int| 0 <= v < plan@.len() ==> plan_ok(c@, v, #[trigger] plan@[v]),
        forall|k: int| 0 <= k < tasks@.len() ==> task_ok(c@, #[trigger] tasks@[k]),
        forall|e: int|
            c@.edges.contains_key(e) && c@.to_rewrite(c@.edges[e].dst) ==> task_edges(
                tasks@,
                tasks@.len() as int,
            ).contains(e),
    ensures
        match misfit {
            None => c@.ports_fit(order),
            Some(v) => !c@.ports_fit(order) && c@.has_misfit_into(v as int, order),
        },
{
    proof {
        c.lemma_view_wf();
    }
    let mut t: usize = 0;
    while t < tasks.len()
        invariant
            c.wf(),
            c@.wf(),
            t <= tasks@.len(),
            forall|v: int| #[trigger] c@.slots.contains(v) ==> v < plan@.len(),
            forall|v: int| 0 <= v < plan@.len() ==> plan_ok(c@, v, #[trigger] plan@[v]),
            forall|k: int| 0 <= k < tasks@.len() ==> task_ok(c@, #[trigger] tasks@[k]),
            forall|k: int| 0 <= k < t ==> c@.wire_fits((#[trigger] tasks@[k]).link.edge as int, order),
        decreases tasks.len() - t,
    {
        let dst = tasks[t].dst;
        let link = tasks[t].link;
        let ghost e = link.edge as int;
        assert(task_ok(c@, tasks@[t as int]));
        assert(c@.nodes.contains_key(dst as int) && c@.nodes.contains_key(link.node as int));
        assert(c@.slots.contains(dst as int) && c@.slots.contains(link.node as int));
        let into = plan[dst as usize];
        let from = plan[link.node as usize];
        assert(plan_ok(c@, dst as int, into) && plan_ok(c@, link.node as int, from));
        let dst_fits = if into.gadget {
            match share_offset(order, into.width) {
                Some(o) => o as usize + link.dst_port as usize <= 255,
                None => false,
            }
        } else {
            true
        };
        let src_fits = if from.rewrite && from.gadget {
            order as usize + link.src_port as usize <= 255
        } else {
            true
        };
        if !dst_fits || !src_fits {
            assert(!c@.wire_fits(e, order));
            assert(c@.edges.contains_key(e) && c@.edges[e].dst == dst as int);
            return Some(dst);
        }
        assert(c@.wire_fits(e, order));
        t = t + 1;
    }
    proof {
        assert forall|e: int| #[trigger] c@.edges.contains_key(e) && c@.to_rewrite(c@.edges[e].dst) implies c@.wire_fits(
            e,
            order,
        ) by {
            assert(task_edges(tasks@, tasks@.len() as int).contains(e));
            let k = choose|k: int| 0 <= k < tasks@.len() && k < tasks@.len() && (#[trigger] tasks@[k]).link.edge == e;
            assert(c@.wire_fits(tasks@[k].link.edge as int, order));
        }
    }
    None
}

/// The nodes to rewrite whose index is below `i`.
spec fn rewrite_below(mid: CircuitView, i: int) -> Set<int> {
    Set::new(|v: int| 0 <= v < i && mid.to_rewrite(v))
}

/// While a node is not rewritten yet, what is decided of it is decided as
/// on the circuit before.
proof fn lemma_same_decision(
    mid: CircuitView,
    cur: CircuitView,
    num_shares: u8,
    tables: Map<int, Seq<Replica>>,
    done: Set<int>,
    v: int,
)
    requires
        mid.wf(),
        mid.shares_made(cur, num_shares, tables, done),
        mid.nodes.contains_key(v),
        !done.contains(v),
    ensures
        cur.nodes.contains_key(v),
        cur.nodes[v] == mid.nodes[v],
        cur.becomes_gadget(v) == mid.becomes_gadget(v),
        cur.wires_into(v) == mid.wires_into(v),
{
    assert forall|e: int| #[trigger] mid.edges.contains_key(e) implies cur.is_secure(mid.edges[e].src) == mid.is_secure(
        mid.edges[e].src,
    ) by {
        assert(mid.nodes.contains_key(mid.edges[e].src));
    }
    assert(cur.all_inputs_secure(v) == mid.all_inputs_secure(v));
    assert(cur.wires_into(v) =~= mid.wires_into(v));
}

/// Gives every node to rewrite its shares, in rising order of the nodes.
fn make_shares(c: &mut Circuit, plan: &Vec<Plan>, order: u8) -> (shares: Shares)
    requires
        old(c).wf(),
        order < u8::MAX,
        forall|v: int| #[trigger] old(c)@.slots.contains(v) ==> v < plan@.len(),
        forall|v: int| 0 <= v < plan@.len() ==> plan_ok(old(c)@, v, #[trigger] plan@[v]),
        (order + 1) * old(c)@.slots.len() < u32::MAX,
        forall|v: int|
            old(c)@.to_rewrite(v) && #[trigger] old(c)@.becomes_gadget(v) ==> share_port(
                0,
                order as int,
                old(c)@.wires_into(v).len() as int,
            ) <= u8::MAX,
    ensures
        final(c).wf(),
        old(c)@.shares_made(final(c)@, (order + 1) as u8, shares@, old(c)@.rewrite_set()),
{
    let ghost mid = c@;
    let num_shares: u8 = order + 1;
    let mut shares = Shares::new();
    let n = plan.len();
    let mut i: usize = 0;
    proof {
        c.lemma_view_wf();
        assert(rewrite_below(mid, 0) =~= Set::empty());
        assert forall|b: int| !is_share_node(mid, shares@, b) by {}
    }
    while i < n
        invariant
            c.wf(),
            mid.wf(),
            i <= n,
            n == plan@.len(),
            order < u8::MAX,
            num_shares == order + 1,
            forall|v: int| #[trigger] mid.slots.contains(v) ==> v < n,
            forall|v: int| 0 <= v < n ==> plan_ok(mid, v, #[trigger] plan@[v]),
            (order + 1) * mid.slots.len() < u32::MAX,
            forall|v: int|
                mid.to_rewrite(v) && #[trigger] mid.becomes_gadget(v) ==> share_port(
                    0,
                    order as int,
                    mid.wires_into(v).len() as int,
                ) <= u8::MAX,
            mid.shares_made(c@, num_shares, shares@, rewrite_below(mid, i as int)),
            rewrite_below(mid, i as int).finite(),
            rewrite_below(mid, i as int).subset_of(mid.slots),
            c@.slots.len() <= mid.slots.len() + order * rewrite_below(mid, i as int).len(),
        decreases n - i,
    {
        let ghost done = rewrite_below(mid, i as int);
        let ghost cur = c@;
        let ghost tables = shares@;
        assert(plan_ok(mid, i as int, plan@[i as int]));
        if plan[i].rewrite {
            let v = i as u32;
            proof {
                c.lemma_view_wf();
                assert(mid.to_rewrite(v as int));
                assert(!done.contains(v as int));
                lemma_same_decision(mid, cur, num_shares, tables, done, v as int);
                let done2 = done.insert(v as int);
                assert(done2 =~= rewrite_below(mid, i + 1));
                assert(done2.subset_of(mid.slots));
                vstd::set_lib::lemma_len_subset(done2, mid.slots);
                assert(done2.len() == done.len() + 1);
                assert(cur.slots.len() + order < u32::MAX) by (nonlinear_arith)
                    requires
                        cur.slots.len() <= mid.slots.len() + order * done.len(),
                        done.len() + 1 <= mid.slots.len(),
                        (order + 1) * mid.slots.len() < u32::MAX,
                        order >= 0,
                ;
            }
            let is_gate = match c.node(v).node_type {
                NodeType::Gate(_, _) => true,
                _ => false,
            };
            let result = if is_gate {
                c.replace_gate_with_gadget(num_shares, v)
            } else {
                c.replicate_node(num_shares, v)
            };
            let replicas = match result {
                Ok(replicas) => replicas,
                Err(_) => {
                    assert(false);
                    Vec::new()
                },
            };
            proof {
                if mid.becomes_gadget(v as int) {
                    lemma_step_gadget(mid, cur, c@, num_shares, tables, done, v as int, replicas@);
                    assert(c@.slots == cur.slots);
                } else {
                    lemma_step_replicated(mid, cur, c@, num_shares, tables, done, v as int, replicas@);
                }
                assert(c@.slots.len() <= mid.slots.len() + order * (done.len() + 1)) by (nonlinear_arith)
                    requires
                        c@.slots.len() <= cur.slots.len() + order,
                        cur.slots.len() <= mid.slots.len() + order * done.len(),
                ;
            }
            shares.insert(v, replicas);
        } else {
            proof {
                assert(rewrite_below(mid, i + 1) =~= done);
            }
        }
        i = i + 1;
    }
    proof {
        assert(rewrite_below(mid, i as int) =~= mid.rewrite_set()) by {
            assert forall|v: int| mid.to_rewrite(v) implies 0 <= v < i by {
                assert(mid.slots.contains(v));
            }
        }
    }
    shares
}

/// The pairs of a wire and a share that are wired when the first `t` tasks
/// are done and the next one up to share `s`.
spec fn wired_pairs(tasks: Seq<Task>, order: u8, t: int, s: int) -> Set<(int, int)> {
    Set::new(
        |p: (int, int)|
            (task_edges(tasks, t).contains(p.0) && 1 <= p.1 <= order) || (t < tasks.len() && p.0
                == tasks[t].link.edge && 1 <= p.1 < s),
    )
}

/// Repeats every wire into a rewritten node for each share from 1 on.
fn wire_shares(c: &mut Circuit, Ghost(mid): Ghost<CircuitView>, tasks: &Vec<Task>, shares: &Shares, order: u8) -> (wires:
    Ghost<Map<(int, int), int>>)
    requires
        old(c).wf(),
        mid.wf(),
        order < u8::MAX,
        mid.shares_made(old(c)@, (order + 1) as u8, shares@, mid.rewrite_set()),
        forall|k: int| 0 <= k < tasks@.len() ==> task_ok(mid, #[trigger] tasks@[k]),
        forall|k1: int, k2: int|
            0 <= k1 < k2 < tasks@.len() ==> (#[trigger] tasks@[k1]).link.edge != (#[trigger] tasks@[k2]).link.edge,
        forall|e: int|
            mid.edges.contains_key(e) && mid.to_rewrite(mid.edges[e].dst) ==> task_edges(
                tasks@,
                tasks@.len() as int,
            ).contains(e),
        mid.ports_fit(order),
        mid.edges.dom().len() + order * tasks@.len() < u32::MAX,
    ensures
        final(c).wf(),
        mid.expanded(final(c)@, order, shares@, wires@),
{
    let ghost start = c@;
    let ghost tables = shares@;
    let ghost mut wires: Map<(int, int), int> = Map::empty();
    let mut t: usize = 0;
    proof {
        assert forall|x: int| !is_share_wire(wires, x) by {}
        assert forall|p: (int, int)| !wired_pairs(tasks@, order, 0, 1).contains(p) by {}
    }
    while t < tasks.len()
        invariant
            c.wf(),
            mid.wf(),
            order < u8::MAX,
            t <= tasks@.len(),
            tables == shares@,
            mid.shares_made(start, (order + 1) as u8, tables, mid.rewrite_set()),
            forall|k: int| 0 <= k < tasks@.len() ==> task_ok(mid, #[trigger] tasks@[k]),
            forall|k1: int, k2: int|
                0 <= k1 < k2 < tasks@.len() ==> (#[trigger] tasks@[k1]).link.edge != (
                #[trigger] tasks@[k2]).link.edge,
            mid.ports_fit(order),
            mid.edges.dom().len() + order * tasks@.len() < u32::MAX,
            c@.nodes == start.nodes,
            c@.slots == start.slots,
            c@.name == start.name,
            c@.zero == start.zero,
            c@.one == start.one,
            mid.shares_wired(c@, tables, wires),
            forall|e: int, s: int| #[trigger]
                wires.contains_key((e, s)) <==> task_edges(tasks@, t as int).contains(e) && 1 <= s <= order,
            c@.edges.dom().len() == mid.edges.dom().len() + order * t,
        decreases tasks.len() - t,
    {
        let dst = tasks[t].dst;
        let link = tasks[t].link;
        let ghost e = link.edge as int;
        proof {
            assert(task_ok(mid, tasks@[t as int]));
            assert(!task_edges(tasks@, t as int).contains(e)) by {
                if task_edges(tasks@, t as int).contains(e) {
                    let j = choose|j: int| 0 <= j < t && j < tasks@.len() && (#[trigger] tasks@[j]).link.edge == e;
                    assert(tasks@[j].link.edge != tasks@[t as int].link.edge);
                }
            }
            assert(mid.wire_fits(e, order));
            assert(mid.nodes.contains_key(dst as int) && mid.nodes.contains_key(link.node as int));
            assert(mid.rewrite_set().contains(dst as int));
            assert(tables.contains_key(dst as int));
            assert(tables.contains_key(link.node as int) <==> mid.to_rewrite(link.node as int)) by {
                assert(mid.rewrite_set().contains(link.node as int) <==> mid.to_rewrite(link.node as int));
            }
        }
        let mut s: u8 = 1;
        while s <= order
            invariant
                c.wf(),
                mid.wf(),
                order < u8::MAX,
                1 <= s <= order + 1,
                t < tasks@.len(),
                tables == shares@,
                dst == tasks@[t as int].dst,
                link == tasks@[t as int].link,
                e == link.edge as int,
                task_ok(mid, tasks@[t as int]),
                mid.shares_made(start, (order + 1) as u8, tables, mid.rewrite_set()),
                mid.wire_fits(e, order),
                !task_edges(tasks@, t as int).contains(e),
                tables.contains_key(dst as int),
                tables.contains_key(link.node as int) <==> mid.to_rewrite(link.node as int),
                mid.edges.dom().len() + order * tasks@.len() < u32::MAX,
                c@.nodes == start.nodes,
                c@.slots == start.slots,
                c@.name == start.name,
                c@.zero == start.zero,
                c@.one == start.one,
                mid.shares_wired(c@, tables, wires),
                forall|a: int, b: int| #[trigger]
                    wires.contains_key((a, b)) <==> (task_edges(tasks@, t as int).contains(a) && 1 <= b <= order)
                        || (a == e && 1 <= b < s),
                c@.edges.dom().len() == mid.edges.dom().len() + order * t + (s - 1),
            decreases order + 1 - s,
        {
            let ghost cur = c@;
            let ghost w = mid.edges[e];
            proof {
                c.lemma_view_wf();
                assert(tables[dst as int].len() == order);
                if tables.contains_key(link.node as int) {
                    assert(tables[link.node as int].len() == order);
                }
            }
            let (src_node, src_extra) = match shares.get(link.node) {
                Some(table) => (table[(s - 1) as usize].node, table[(s - 1) as usize].src_offset),
                None => (link.node, 0u8),
            };
            let (dst_node, dst_extra) = match shares.get(dst) {
                Some(table) => (table[(s - 1) as usize].node, table[(s - 1) as usize].dst_offset),
                None => (dst, 0u8),
            };
            proof {
                assert(src_node == share_node(tables, w.src, s as int));
                assert(src_extra == share_src_offset(tables, w.src, s as int));
                assert(dst_node == share_node(tables, w.dst, s as int));
                assert(dst_extra == share_dst_offset(tables, w.dst, s as int));
                let width = mid.wires_into(dst as int).len() as int;
                if mid.becomes_gadget(dst as int) {
                    assert(mid.gadget_table(dst as int, tables[dst as int]));
                    assert(tables[dst as int][s - 1].dst_offset == share_port(0, s as int, width));
                    assert(share_port(0, s as int, width) <= share_port(0, order as int, width)) by (nonlinear_arith)
                        requires
                            s <= order,
                            width >= 0,
                    ;
                    assert(tables[dst as int][s - 1].node == dst);
                } else {
                    assert(tables[dst as int][s - 1].dst_offset == 0);
                    assert(start.nodes.contains_key(tables[dst as int][s - 1].node as int));
                }
                if tables.contains_key(link.node as int) {
                    if mid.becomes_gadget(link.node as int) {
                        assert(mid.gadget_table(link.node as int, tables[link.node as int]));
                        assert(tables[link.node as int][s - 1].src_offset == share_port(0, s as int, 1));
                        assert(share_port(0, s as int, 1) == s) by (nonlinear_arith);
                        assert(tables[link.node as int][s - 1].node == link.node);
                    } else {
                        assert(tables[link.node as int][s - 1].src_offset == 0);
                        assert(start.nodes.contains_key(tables[link.node as int][s - 1].node as int));
                    }
                }
                assert(start.nodes.contains_key(dst as int) && start.nodes.contains_key(link.node as int));
                assert(cur.edges.dom().len() < u32::MAX) by (nonlinear_arith)
                    requires
                        cur.edges.dom().len() == mid.edges.dom().len() + order * t + (s - 1),
                        mid.edges.dom().len() + order * tasks@.len() < u32::MAX,
                        t < tasks@.len(),
                        1 <= s <= order,
                ;
            }
            let src_port = link.src_port + src_extra;
            let dst_port = link.dst_port + dst_extra;
            let x = match c.connect(src_node, src_port, dst_node, dst_port) {
                Ok(x) => x,
                Err(_) => {
                    assert(false);
                    0u32
                },
            };
            proof {
                assert(!wires.contains_key((e, s as int)));
                lemma_step_wire(mid, cur, c@, tables, wires, e, s as int, x as int);
                wires = wires.insert((e, s as int), x as int);
            }
            s = s + 1;
        }
        proof {
            assert forall|a: int, b: int| #[trigger]
                wires.contains_key((a, b)) <==> task_edges(tasks@, t + 1).contains(a) && 1 <= b <= order by {
                if task_edges(tasks@, t as int).contains(a) {
                    let j = choose|j: int| 0 <= j < t && j < tasks@.len() && (#[trigger] tasks@[j]).link.edge == a;
                    assert(tasks@[j].link.edge == a);
                }
                if a == e {
                    assert(tasks@[t as int].link.edge == a);
                }
                if task_edges(tasks@, t + 1).contains(a) {
                    let j = choose|j: int| 0 <= j < t + 1 && j < tasks@.len() && (#[trigger] tasks@[j]).link.edge == a;
                    if j < t {
                        assert(task_edges(tasks@, t as int).contains(a));
                    }
                }
            }
            assert(mid.edges.dom().len() + order * t + (order + 1 - 1) == mid.edges.dom().len() + order * (t + 1))
                by (nonlinear_arith);
        }
        t = t + 1;
    }
    proof {
        assert forall|a: int, b: int| #[trigger]
            wires.contains_key((a, b)) <==> mid.edges.contains_key(a) && mid.to_rewrite(mid.edges[a].dst) && 1
                <= b <= order by {
            if task_edges(tasks@, t as int).contains(a) {
                let j = choose|j: int| 0 <= j < t && j < tasks@.len() && (#[trigger] tasks@[j]).link.edge == a;
                assert(task_ok(mid, tasks@[j]));
            }
        }
        assert((CircuitView { edges: mid.edges, ..c@ }) == start);
    }
    Ghost(wires)
}

impl Circuit {
    /// Whether the circuit is small enough for masking of the given order.
    pub fn fits_masking(&self, order: u8) -> (fits: bool)
        requires
            self.wf(),
        ensures
            fits == self@.fits_masking(order),
    {
        let slots = self.slot_count();
        let wires = self.edge_count();
        if order == u8::MAX {
            return false;
        }
        let limit: u64 = 0xffff_ffff;
        if slots as u64 >= limit || wires as u64 >= limit {
            assert(!self@.fits_masking(order)) by (nonlinear_arith)
                requires
                    slots >= 0xffff_ffff || wires >= 0xffff_ffff,
                    slots == self@.slots.len(),
                    wires == self@.edges.dom().len(),
                    order >= 0,
                    self@.fits_masking(order) ==> (order + 1) * (self@.slots.len() + self@.edges.dom().len())
                        < 0xffff_ffff,
            ;
            return false;
        }
        let shares: u64 = order as u64 + 1;
        assert(shares * (slots as u64 + wires as u64) <= 256 * 0x2_0000_0000) by (nonlinear_arith)
            requires
                shares <= 256,
                slots < 0xffff_ffff,
                wires < 0xffff_ffff,
        ;
        assert(shares * (2 * (wires as u64)) <= 256 * 0x2_0000_0000) by (nonlinear_arith)
            requires
                shares <= 256,
                wires < 0xffff_ffff,
        ;
        shares * (slots as u64 + wires as u64) < limit && shares * (2 * (wires as u64)) < limit
    }

    /// Expands a circuit whose secure cone is marked and whose secure OR
    /// gates are normalized: rewrites every secure node from which a secure
    /// primary output is reached into its shares, and repeats the wires into
    /// those nodes share for share, as [`CircuitView::expanded`] describes.
    /// Returns where the shares live. Fails, with nothing changed, on the
    /// first node that is to be rewritten and is of a kind that cannot be,
    /// and on a node with a wire into it of which a share port does not fit
    /// in a port number.
    pub fn expand_shares(&mut self, order: u8) -> (r: Result<Shares, Error>)
        requires
            old(self).wf(),
            order < u8::MAX,
            (order + 1) * old(self)@.slots.len() < u32::MAX,
            (order + 1) * old(self)@.edges.dom().len() < u32::MAX,
        ensures
            final(self).wf(),
            match r {
                Ok(shares) => {
                    &&& forall|v: int| old(self)@.to_rewrite(v) ==> old(self)@.expandable(v)
                    &&& old(self)@.ports_fit(order)
                    &&& old(self)@.expands_to(final(self)@, order, shares@)
                },
                Err(e) => {
                    &&& final(self)@ == old(self)@
                    &&& match e {
                        Error::NotExpandable(v) => {
                            &&& old(self)@.to_rewrite(v as int)
                            &&& !old(self)@.expandable(v as int)
                            &&& forall|u: int| 0 <= u < v && old(self)@.to_rewrite(u) ==> old(self)@.expandable(u)
                        },
                        Error::PortOverflow(v) => {
                            &&& forall|v: int| old(self)@.to_rewrite(v) ==> old(self)@.expandable(v)
                            &&& !old(self)@.ports_fit(order)
                            &&& old(self)@.has_misfit_into(v as int, order)
                        },
                        _ => false,
                    }
                },
            },
    {
        let ghost mid = self@;
        proof {
            self.lemma_view_wf();
        }
        let marks = rewrite_marks(self);
        let plan = match make_plan(self, &marks) {
            Ok(plan) => plan,
            Err(v) => {
                return Err(Error::NotExpandable(v));
            },
        };
        proof {
            assert forall|v: int| mid.to_rewrite(v) implies mid.expandable(v) by {
                assert(mid.slots.contains(v));
                assert(plan_ok(mid, v, plan@[v]));
            }
        }
        let tasks = share_tasks(self, &marks);
        if let Some(v) = check_ports(self, &plan, &tasks, order) {
            return Err(Error::PortOverflow(v));
        }
        proof {
            assert forall|v: int| mid.to_rewrite(v) && #[trigger] mid.becomes_gadget(v) implies share_port(
                0,
                order as int,
                mid.wires_into(v).len() as int,
            ) <= u8::MAX by {
                let into = mid.wires_into(v);
                if into.len() == 0 {
                    assert(share_port(0, order as int, 0) == 0) by (nonlinear_arith);
                } else {
                    assert(into.finite());
                    let e = into.choose();
                    assert(into.contains(e));
                    assert(mid.edges.contains_key(e) && mid.edges[e].dst == v);
                    assert(mid.wire_fits(e, order));
                }
            }
            assert(mid.edges.dom().len() + order * tasks@.len() < u32::MAX) by (nonlinear_arith)
                requires
                    tasks@.len() <= mid.edges.dom().len(),
                    (order + 1) * mid.edges.dom().len() < u32::MAX,
                    order >= 0,
            ;
        }
        let shares = make_shares(self, &plan, order);
        let wires = wire_shares(self, Ghost(mid), &tasks, &shares, order);
        proof {
            assert(mid.expanded(self@, order, shares@, wires@));
        }
        Ok(shares)
    }
}

impl CircuitView {
    /// Some wire enters the node `v` on the port `p`.
    pub open spec fn input_port_used(self, v: int, p: int) -> bool {
        exists|e: int| #[trigger] self.edges.contains_key(e) && self.edges[e].dst == v && self.edges[e].dst_port == p
    }
}

/// The wire of the expanded circuit that carries share `s` of the wire `e`:
/// `e` itself for share 0.
pub open spec fn bundle_wire(wires: Map<(int, int), int>, e: int, s: int) -> int {
    if s == 0 {
        e
    } else {
        wires[(e, s)]
    }
}

/// A secure node with a wire into a node that is rewritten is rewritten
/// itself, so that no share of the wire lacks the share of its source.
pub proof fn lemma_secure_source_rewritten(mid: CircuitView, e: int)
    requires
        mid.wf(),
        mid.edges.contains_key(e),
        mid.to_rewrite(mid.edges[e].dst),
        mid.is_secure(mid.edges[e].src),
    ensures
        mid.to_rewrite(mid.edges[e].src),
{
    let back = reversed(mid.edges);
    let u = mid.edges[e].src;
    let v = mid.edges[e].dst;
    let a = choose|a: int| #[trigger] mid.secure_outputs().contains(a) && reaches(back, a, v);
    assert(has_wire(back, v, u)) by {
        assert(back.contains_key(e) && back[e].src == v && back[e].dst == u);
    }
    lemma_reaches_step(back, a, v, u);
}

/// After expansion, every wire into a rewritten node is part of a bundle of
/// `order + 1` wires, one per share: share `s` of the wire joins share `s`
/// of its source to share `s` of its destination, the wires of a bundle are
/// distinct, and each enters its destination on the port of the original
/// wire within the block of its share.
pub proof fn lemma_share_bundles(
    mid: CircuitView,
    post: CircuitView,
    order: u8,
    tables: Map<int, Seq<Replica>>,
    wires: Map<(int, int), int>,
    e: int,
)
    requires
        mid.wf(),
        mid.expanded(post, order, tables, wires),
        mid.edges.contains_key(e),
        mid.to_rewrite(mid.edges[e].dst),
    ensures
        forall|s: int|
            0 <= s <= order ==> post.edges.contains_key(#[trigger] bundle_wire(wires, e, s))
                && post.edges[bundle_wire(wires, e, s)] == share_wire(mid.edges[e], tables, s),
        forall|s1: int, s2: int|
            0 <= s1 < s2 <= order ==> #[trigger] bundle_wire(wires, e, s1) != #[trigger] bundle_wire(wires, e, s2),
        forall|s: int|
            0 <= s <= order ==> (#[trigger] post.edges[bundle_wire(wires, e, s)]).dst_port
                == mid.edges[e].dst_port + share_dst_offset(tables, mid.edges[e].dst, s),
        mid.becomes_gadget(mid.edges[e].dst) ==> forall|s: int|
            0 <= s <= order ==> (#[trigger] post.edges[bundle_wire(wires, e, s)]).dst_port == share_port(
                mid.edges[e].dst_port,
                s,
                mid.wires_into(mid.edges[e].dst).len() as int,
            ),
{
    let v = mid.edges[e].dst;
    assert(mid.rewrite_set().contains(v));
    assert(tables.contains_key(v));
    assert(tables[v].len() == order);
    assert forall|s: int| 0 <= s <= order implies post.edges.contains_key(#[trigger] bundle_wire(wires, e, s))
        && post.edges[bundle_wire(wires, e, s)] == share_wire(mid.edges[e], tables, s) by {
        if s > 0 {
            assert(wires.contains_key((e, s)));
        }
    }
    assert forall|s1: int, s2: int| 0 <= s1 < s2 <= order implies #[trigger] bundle_wire(wires, e, s1)
        != #[trigger] bundle_wire(wires, e, s2) by {
        assert(wires.contains_key((e, s2)));
        if s1 > 0 {
            assert(wires.contains_key((e, s1)));
        }
    }
    if mid.becomes_gadget(v) {
        assert(mid.gadget_table(v, tables[v]));
        assert forall|s: int| 0 <= s <= order implies (#[trigger] post.edges[bundle_wire(wires, e, s)]).dst_port
            == share_port(mid.edges[e].dst_port, s, mid.wires_into(v).len() as int) by {
            if s > 0 {
                assert(wires.contains_key((e, s)));
                assert(tables[v][s - 1].dst_offset == share_port(0, s - 1 + 1, mid.wires_into(v).len() as int));
            } else {
                assert(share_port(mid.edges[e].dst_port, 0, mid.wires_into(v).len() as int)
                    == mid.edges[e].dst_port) by (nonlinear_arith);
            }
        }
    }
}

/// Within a bundle into a gadget, the ports agree modulo the number of
/// ports of one share.
pub proof fn lemma_bundle_ports_agree(port: int, share: int, num_ports: int)
    requires
        num_ports > 0,
        0 <= share,
        0 <= port,
    ensures
        share_port(port, share, num_ports) % num_ports == port % num_ports,
{
    vstd::arithmetic::div_mod::lemma_mod_multiples_vanish(share, port, num_ports);
    assert(share * num_ports + port == num_ports * share + port) by (nonlinear_arith);
}

/// After expansion, where every wire from a secure node led into a node to
/// rewrite, every wire from a secure node is in a bundle: it carries some
/// share of a wire that was there before.
pub proof fn lemma_secure_wire_in_bundle(
    mid: CircuitView,
    post: CircuitView,
    order: u8,
    tables: Map<int, Seq<Replica>>,
    wires: Map<(int, int), int>,
    x: int,
)
    requires
        mid.wf(),
        mid.expanded(post, order, tables, wires),
        forall|e: int| #[trigger]
            mid.edges.contains_key(e) && mid.is_secure(mid.edges[e].src) ==> mid.to_rewrite(mid.edges[e].dst),
        post.edges.contains_key(x),
        post.is_secure(post.edges[x].src),
    ensures
        exists|e: int, s: int|
            mid.edges.contains_key(e) && mid.to_rewrite(mid.edges[e].dst) && 0 <= s <= order && x
                == #[trigger] bundle_wire(wires, e, s),
{
    if is_share_wire(wires, x) {
        let (e, s) = choose|e: int, s: int| #[trigger] wires.contains_key((e, s)) && wires[(e, s)] == x;
        assert(x == bundle_wire(wires, e, s));
    } else {
        assert(mid.edges.contains_key(x));
        assert(post.edges[x] == mid.edges[x]);
        assert(mid.nodes.contains_key(mid.edges[x].src));
        assert(mid.is_secure(mid.edges[x].src));
        assert(x == bundle_wire(wires, x, 0));
    }
}

/// The input ports of a gadget: where the wires into a gate used each of
/// its `n` ports, and no others, the wires into the gadget that replaces it
/// use exactly the ports `s * n + p`, for every share `s` up to the order
/// and every port `p` below `n`.
pub proof fn lemma_gadget_input_ports(
    mid: CircuitView,
    post: CircuitView,
    order: u8,
    tables: Map<int, Seq<Replica>>,
    wires: Map<(int, int), int>,
    v: int,
)
    requires
        mid.wf(),
        mid.expanded(post, order, tables, wires),
        mid.to_rewrite(v),
        mid.becomes_gadget(v),
        forall|e: int| #[trigger]
            mid.edges.contains_key(e) && mid.edges[e].dst == v ==> 0 <= mid.edges[e].dst_port
                < mid.wires_into(v).len(),
        forall|p: int| 0 <= p < mid.wires_into(v).len() ==> #[trigger] mid.input_port_used(v, p),
    ensures
        forall|x: int| #[trigger]
            post.edges.contains_key(x) && post.edges[x].dst == v ==> exists|s: int, p: int|
                0 <= s <= order && 0 <= p < mid.wires_into(v).len() && post.edges[x].dst_port == #[trigger] share_port(
                    p,
                    s,
                    mid.wires_into(v).len() as int,
                ),
        forall|s: int, p: int|
            0 <= s <= order && 0 <= p < mid.wires_into(v).len() ==> post.input_port_used(
                v,
                #[trigger] share_port(p, s, mid.wires_into(v).len() as int),
            ),
{
    let n = mid.wires_into(v).len() as int;
    assert(mid.rewrite_set().contains(v));
    assert(mid.nodes.contains_key(v));
    assert(mid.slots.contains(v));
    assert forall|x: int| #[trigger] post.edges.contains_key(x) && post.edges[x].dst == v implies exists|
        s: int,
        p: int,
    |
        0 <= s <= order && 0 <= p < n && post.edges[x].dst_port == #[trigger] share_port(p, s, n) by {
        if is_share_wire(wires, x) {
            let (e, s) = choose|e: int, s: int| #[trigger] wires.contains_key((e, s)) && wires[(e, s)] == x;
            let u = mid.edges[e].dst;
            assert(mid.rewrite_set().contains(u));
            assert(tables.contains_key(u) && tables[u].len() == order);
            if u != v {
                if mid.becomes_gadget(u) {
                    assert(mid.gadget_table(u, tables[u]));
                    assert(tables[u][s - 1].node == u);
                } else {
                    assert(!mid.slots.contains(tables[u][s - 1].node as int));
                }
                assert(false);
            }
            lemma_share_bundles(mid, post, order, tables, wires, e);
            assert(x == bundle_wire(wires, e, s));
            assert(post.edges[bundle_wire(wires, e, s)].dst_port == share_port(mid.edges[e].dst_port, s, n));
        } else {
            assert(mid.edges.contains_key(x) && post.edges[x] == mid.edges[x]);
            assert(share_port(mid.edges[x].dst_port, 0, n) == mid.edges[x].dst_port) by (nonlinear_arith);
        }
    }
    assert forall|s: int, p: int| 0 <= s <= order && 0 <= p < n implies post.input_port_used(
        v,
        #[trigger] share_port(p, s, n),
    ) by {
        assert(mid.input_port_used(v, p));
        let e = choose|e: int| #[trigger]
            mid.edges.contains_key(e) && mid.edges[e].dst == v && mid.edges[e].dst_port == p;
        lemma_share_bundles(mid, post, order, tables, wires, e);
        let x = bundle_wire(wires, e, s);
        assert(post.edges.contains_key(x));
        assert(post.edges[x] == share_wire(mid.edges[e], tables, s));
        assert(tables.contains_key(v) && tables[v].len() == order);
        assert(mid.gadget_table(v, tables[v]));
        if s > 0 {
            assert(tables[v][s - 1].node == v);
        }
        assert(post.edges[x].dst == v);
        assert(post.edges[x].dst_port == share_port(p, s, n));
    }
}

/// Expansion at order 0 adds no node and no wire, and every table of
/// replicas is empty: what changes is that a node which is rewritten takes
/// the name of share 0 or, where it becomes one, the kind of a gadget on a
/// single share.
pub proof fn lemma_expanded_at_order_zero(
    mid: CircuitView,
    post: CircuitView,
    tables: Map<int, Seq<Replica>>,
    wires: Map<(int, int), int>,
)
    requires
        mid.wf(),
        mid.expanded(post, 0, tables, wires),
    ensures
        post.edges == mid.edges,
        post.slots == mid.slots,
        post.nodes.dom() == mid.nodes.dom(),
        forall|v: int| #[trigger] tables.contains_key(v) ==> tables[v].len() == 0,
        forall|i: int| #[trigger] mid.nodes.contains_key(i) ==> post.nodes[i] == mid.rewritten_node(i, mid.rewrite_set(), 1),
{
    assert forall|x: int| !is_share_wire(wires, x) by {
        if is_share_wire(wires, x) {
            let (e, s) = choose|e: int, s: int| #[trigger] wires.contains_key((e, s)) && wires[(e, s)] == x;
            assert(1 <= s <= 0);
        }
    }
    assert forall|b: int| !is_share_node(mid, tables, b) by {
        if is_share_node(mid, tables, b) {
            let (u, j) = choose|u: int, j: int|
                tables.contains_key(u) && !mid.becomes_gadget(u) && 0 <= j < tables[u].len() && (
                #[trigger] tables[u][j]).node == b;
            assert(tables[u].len() == 0);
        }
    }
    assert(post.edges =~= mid.edges);
    assert(post.slots =~= mid.slots);
    assert(post.nodes.dom() =~= mid.nodes.dom());
}

/// Expansion changes nothing where no node is to be rewritten.
pub proof fn lemma_expanded_without_rewrite(
    mid: CircuitView,
    post: CircuitView,
    order: u8,
    tables: Map<int, Seq<Replica>>,
    wires: Map<(int, int), int>,
)
    requires
        mid.wf(),
        mid.expanded(post, order, tables, wires),
        forall|v: int| !mid.to_rewrite(v),
    ensures
        post == mid,
        tables == Map::<int, Seq<Replica>>::empty(),
{
    assert forall|v: int| !tables.contains_key(v) by {
        if tables.contains_key(v) {
            assert(mid.rewrite_set().contains(v));
        }
    }
    assert(tables =~= Map::<int, Seq<Replica>>::empty());
    assert forall|x: int| !is_share_wire(wires, x) by {
        if is_share_wire(wires, x) {
            let (e, s) = choose|e: int, s: int| #[trigger] wires.contains_key((e, s)) && wires[(e, s)] == x;
            assert(mid.to_rewrite(mid.edges[e].dst));
        }
    }
    assert forall|b: int| !is_share_node(mid, tables, b) by {}
    assert(post.edges =~= mid.edges);
    assert(post.slots =~= mid.slots);
    assert(post.nodes =~= mid.nodes) by {
        assert forall|i: int| mid.nodes.contains_key(i) implies post.nodes.contains_key(i) && post.nodes[i]
            == mid.nodes[i] by {
            assert(!mid.rewrite_set().contains(i));
        }
    }
}

impl CircuitView {
    /// Some wire leaves the node `v` from the port `p`.
    pub open spec fn output_port_used(self, v: int, p: int) -> bool {
        exists|e: int| #[trigger] self.edges.contains_key(e) && self.edges[e].src == v && self.edges[e].src_port == p
    }
}

/// The output ports of a gadget: where the wires out of a gate all left
/// from port 0 and led into nodes to rewrite, and there was one at least,
/// the wires out of the gadget that replaces it leave from exactly the ports
/// 0 to the order, one port per share.
pub proof fn lemma_gadget_output_ports(
    mid: CircuitView,
    post: CircuitView,
    order: u8,
    tables: Map<int, Seq<Replica>>,
    wires: Map<(int, int), int>,
    v: int,
)
    requires
        mid.wf(),
        mid.expanded(post, order, tables, wires),
        mid.to_rewrite(v),
        mid.becomes_gadget(v),
        forall|e: int| #[trigger]
            mid.edges.contains_key(e) && mid.edges[e].src == v ==> mid.edges[e].src_port == 0 && mid.to_rewrite(
                mid.edges[e].dst,
            ),
        mid.output_port_used(v, 0),
    ensures
        forall|x: int| #[trigger]
            post.edges.contains_key(x) && post.edges[x].src == v ==> 0 <= post.edges[x].src_port <= order,
        forall|s: int| 0 <= s <= order ==> #[trigger] post.output_port_used(v, s),
{
    assert(mid.rewrite_set().contains(v));
    assert(mid.nodes.contains_key(v));
    assert(mid.slots.contains(v));
    assert(order < u8::MAX);
    assert(tables.contains_key(v));
    assert(tables[v].len() == ((order + 1) as u8) - 1);
    assert(tables[v].len() == order);
    assert(mid.gadget_table(v, tables[v]));
    assert forall|s: int| 1 <= s <= order implies share_node(tables, v, s) == v && share_src_offset(tables, v, s)
        == s by {
        assert(tables[v][s - 1].node == v);
        assert(tables[v][s - 1].src_offset == share_port(0, s - 1 + 1, 1));
        assert(share_port(0, s, 1) == s) by (nonlinear_arith);
    }
    assert forall|x: int| #[trigger] post.edges.contains_key(x) && post.edges[x].src == v implies 0
        <= post.edges[x].src_port <= order by {
        if is_share_wire(wires, x) {
            let (e, s) = choose|e: int, s: int| #[trigger] wires.contains_key((e, s)) && wires[(e, s)] == x;
            let u = mid.edges[e].src;
            assert(mid.nodes.contains_key(u));
            if u != v {
                if tables.contains_key(u) {
                    assert(tables[u].len() == order);
                    if mid.becomes_gadget(u) {
                        assert(mid.gadget_table(u, tables[u]));
                        assert(tables[u][s - 1].node == u);
                    } else {
                        assert(!mid.slots.contains(tables[u][s - 1].node as int));
                    }
                }
                assert(false);
            }
        } else {
            assert(mid.edges.contains_key(x) && post.edges[x] == mid.edges[x]);
        }
    }
    assert forall|s: int| 0 <= s <= order implies #[trigger] post.output_port_used(v, s) by {
        let e = choose|e: int| #[trigger]
            mid.edges.contains_key(e) && mid.edges[e].src == v && mid.edges[e].src_port == 0;
        lemma_share_bundles(mid, post, order, tables, wires, e);
        let x = bundle_wire(wires, e, s);
        assert(post.edges.contains_key(x));
        assert(post.edges[x] == share_wire(mid.edges[e], tables, s));
    }
}

} // verus!
