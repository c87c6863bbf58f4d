//! The circuit graph: nodes in stable slots, port-to-port wires, the role
//! sets, and the two interned constants.
//!
//! The wires are kept in a `petgraph` stable graph and the nodes in a table
//! of slots beside it, one slot per index of the graph. Removing a node
//! empties its slot and takes its wires away, but leaves its index in the
//! graph, so that the index is not handed out again.

use vstd::prelude::*;

use std::collections::HashSet;

use crate::node::{Blackbox, Node, NodeId, NodeKind, NodePortId, NodeType, NodeView};
use crate::order::{ordered_links, sort_links};
use crate::reach::{directed, lemma_closed_holds_reached, mark_reached, reached_from, reaches};
use crate::wiring::has_wire;
use crate::dot::{document, document_text, node_attributes, node_attributes_text};
use crate::wiring::{
    dot_content, lists_wires_into, string_views, wiring_add_edge, wiring_add_node,
    wiring_dot, wiring_edge_count, wiring_edges, wiring_edges_from, wiring_edges_into, wiring_new,
    wiring_node_count, wiring_nodes, wiring_remove_edge, Link, Wire, Wiring,
};

verus! {

/// Why an operation on a circuit was refused.
#[derive(Debug)]
pub enum Error {
    /// A port of the top module has no net of its name.
    NetnameNotFound(String),
    /// A port of the top module is bidirectional.
    InOutPort(String),
    /// A bit of an input port is tied to a constant.
    ConstantInput(String),
    /// A constant bit that is neither 0 nor 1 feeds a node.
    UndefinedBit,
    /// A signal is used and nothing drives it.
    UndrivenSignal(u32),
    /// A signal has more than one driver.
    DuplicateDriver(u32),
    /// The netlist has no top module.
    NoTopModule,
    /// A cell lacks a connection that its port order names, or the
    /// connection is not one bit wide.
    BadConnection(String),
    /// A node has more inputs than there are port numbers.
    TooManyPorts(NodeId),
    /// A constant node of that value exists already.
    DuplicateConstant,
    /// The node does not exist.
    NodeNotFound(NodeId),
    /// A node in the secure cone is of a kind that cannot be masked.
    NotExpandable(NodeId),
    /// A share's port number does not fit in a port.
    PortOverflow(NodeId),
    /// A primary input has no name to give to its port.
    UnnamedInput(NodeId),
    /// The circuit is too large for the index type.
    CapacityExceeded,
}

/// The mathematical value of a circuit.
pub struct CircuitView {
    /// The name of the module that the circuit was built from.
    pub name: Seq<char>,
    /// The nodes that exist, by index.
    pub nodes: Map<int, NodeView>,
    /// Every index handed out so far, whether its node still exists or not.
    pub slots: Set<int>,
    /// The wires, by edge index.
    pub edges: Map<int, Wire>,
    /// The index of the constant 0.
    pub zero: int,
    /// The index of the constant 1.
    pub one: int,
}

impl CircuitView {
    /// The node `i` exists and is of the given kind.
    pub open spec fn has_kind(self, i: int, kind: NodeKind) -> bool {
        self.nodes.contains_key(i) && self.nodes[i].kind == kind
    }

    /// The node `i` exists and is marked secure.
    pub open spec fn is_secure(self, i: int) -> bool {
        self.nodes.contains_key(i) && self.nodes[i].secure
    }

    /// The primary inputs.
    pub open spec fn inputs(self) -> Set<int> {
        Set::new(|i: int| self.has_kind(i, NodeKind::Input))
    }

    /// The clocks.
    pub open spec fn clocks(self) -> Set<int> {
        Set::new(|i: int| self.has_kind(i, NodeKind::Clock))
    }

    /// The primary outputs.
    pub open spec fn outputs(self) -> Set<int> {
        Set::new(|i: int| self.has_kind(i, NodeKind::Output))
    }

    /// The registers.
    pub open spec fn registers(self) -> Set<int> {
        Set::new(|i: int| self.has_kind(i, NodeKind::Register))
    }

    /// The index of the constant of the given value.
    pub open spec fn constant(self, value: bool) -> int {
        if value {
            self.one
        } else {
            self.zero
        }
    }

    /// What holds of every circuit: indices and ports fit their types, wires
    /// join existing nodes, and each constant exists once, at its index.
    pub open spec fn wf(self) -> bool {
        &&& self.slots.finite()
        &&& self.edges.dom().finite()
        &&& forall|i: int| #[trigger] self.slots.contains(i) ==> 0 <= i <= u32::MAX
        &&& forall|i: int| #[trigger] self.nodes.contains_key(i) ==> self.slots.contains(i)
        &&& forall|e: int| #[trigger]
            self.edges.contains_key(e) ==> {
                &&& 0 <= e <= u32::MAX
                &&& self.nodes.contains_key(self.edges[e].src)
                &&& self.nodes.contains_key(self.edges[e].dst)
                &&& 0 <= self.edges[e].src_port <= u8::MAX
                &&& 0 <= self.edges[e].dst_port <= u8::MAX
            }
        &&& self.zero != self.one
        &&& forall|i: int, value: bool| #[trigger]
            self.has_kind(i, NodeKind::Constant(value)) <==> i == self.constant(value)
    }

    /// The edge indices of the wires out of `u`.
    pub open spec fn wires_from(self, u: int) -> Set<int> {
        self.edges.dom().filter(|e: int| self.edges[e].src == u)
    }

    /// The secure nodes of a role set or any other set of nodes.
    pub open spec fn secure_among(self, role: Set<int>) -> Set<int> {
        role.filter(|i: int| self.is_secure(i))
    }

    /// The wire `e` leads into the port `port` of the node `v`.
    pub open spec fn enters(self, e: int, v: int, port: int) -> bool {
        self.edges.contains_key(e) && self.edges[e].dst == v && self.edges[e].dst_port == port
    }

    /// Of two wires into one port, `a` comes before `b`: by the node it
    /// comes from, then by the port it leaves from, then by its index.
    pub open spec fn leaves_before(self, a: int, b: int) -> bool {
        let x = self.edges[a];
        let y = self.edges[b];
        x.src < y.src || (x.src == y.src && (x.src_port < y.src_port || (x.src_port == y.src_port && a < b)))
    }

    /// The wire `e` is the first of the wires into the port `port` of `v`.
    pub open spec fn is_first_into(self, e: int, v: int, port: int) -> bool {
        self.enters(e, v, port) && forall|x: int| #[trigger] self.enters(x, v, port) ==> !self.leaves_before(x, e)
    }

    /// Where the first wire into the port `port` of `v` comes from: the
    /// node and its port. None where no wire leads into the port.
    pub open spec fn first_into(self, v: int, port: int) -> Option<(NodeId, NodePortId)> {
        if exists|e: int| self.is_first_into(e, v, port) {
            let e = choose|e: int| self.is_first_into(e, v, port);
            Some((self.edges[e].src as NodeId, self.edges[e].src_port as NodePortId))
        } else {
            None
        }
    }

    /// There is one first wire into a port at most.
    pub proof fn lemma_first_into(self, e: int, v: int, port: int)
        requires
            self.is_first_into(e, v, port),
        ensures
            self.first_into(v, port) == Some((self.edges[e].src as NodeId, self.edges[e].src_port as NodePortId)),
    {
        let c = choose|c: int| self.is_first_into(c, v, port);
        assert(self.enters(c, v, port) && self.enters(e, v, port));
        assert(!self.leaves_before(c, e) && !self.leaves_before(e, c));
    }

    /// The wires that touch neither end at `i`.
    pub open spec fn edges_without(self, i: int) -> Map<int, Wire> {
        self.edges.restrict(Set::new(|e: int| self.edges[e].src != i && self.edges[e].dst != i))
    }
}

/// A circuit: typed nodes joined by wires from output ports to input ports.
pub struct Circuit {
    name: String,
    graph: Wiring,
    slots: Vec<Option<Node>>,
    inputs: HashSet<NodeId>,
    clocks: HashSet<NodeId>,
    outputs: HashSet<NodeId>,
    registers: HashSet<NodeId>,
    consts: (NodeId, NodeId),
    input_ordering_map: Vec<(NodeType, Vec<String>)>,
    blackboxes: Vec<(String, Blackbox)>,
}

impl View for Circuit {
    type V = CircuitView;

    closed spec fn view(&self) -> CircuitView {
        CircuitView {
            name: self.name@,
            nodes: Map::new(
                |i: int| 0 <= i < self.slots@.len() && self.slots@[i].is_some(),
                |i: int| self.slots@[i].unwrap()@,
            ),
            slots: wiring_nodes(self.graph),
            edges: wiring_edges(self.graph),
            zero: self.consts.0 as int,
            one: self.consts.1 as int,
        }
    }
}

impl Circuit {
    /// The representation is consistent and the value is well formed.
    pub closed spec fn wf(&self) -> bool {
        &&& self@.wf()
        &&& forall|i: int| #[trigger] wiring_nodes(self.graph).contains(i) ==> i < self.slots@.len()
        &&& forall|i: u32| #[trigger] self.inputs@.contains(i) <==> self@.inputs().contains(i as int)
        &&& forall|i: u32| #[trigger] self.clocks@.contains(i) <==> self@.clocks().contains(i as int)
        &&& forall|i: u32| #[trigger]
            self.outputs@.contains(i) <==> self@.outputs().contains(i as int)
        &&& forall|i: u32| #[trigger]
            self.registers@.contains(i) <==> self@.registers().contains(i as int)
    }

    /// A well-formed circuit has a well-formed value.
    pub proof fn lemma_view_wf(&self)
        requires
            self.wf(),
        ensures
            self@.wf(),
    {
    }

    /// A circuit that holds the two constants and nothing else.
    pub fn new() -> (c: Circuit)
        ensures
            c.wf(),
            c@.nodes.dom() =~= set![c@.zero, c@.one],
            c@.slots =~= set![c@.zero, c@.one],
            c@.edges =~= Map::empty(),
            c@.nodes[c@.zero] == (NodeView { secure: false, kind: NodeKind::Constant(false), name: None }),
            c@.nodes[c@.one] == (NodeView { secure: false, kind: NodeKind::Constant(true), name: None }),
            c@.name == Seq::<char>::empty(),
    {
        let mut graph = wiring_new();
        let zero = wiring_add_node(&mut graph);
        let one = wiring_add_node(&mut graph);
        let mut slots: Vec<Option<Node>> = Vec::new();
        while slots.len() <= zero as usize || slots.len() <= one as usize
            invariant
                forall|i: int| 0 <= i < slots@.len() ==> slots@[i].is_none(),
            decreases (if zero >= one { zero } else { one }) + 1 - slots.len(),
        {
            slots.push(None);
        }
        slots.set(zero as usize, Some(Node::constant(false)));
        slots.set(one as usize, Some(Node::constant(true)));
        let c = Circuit {
            name: String::new(),
            graph,
            slots,
            inputs: HashSet::new(),
            clocks: HashSet::new(),
            outputs: HashSet::new(),
            registers: HashSet::new(),
            consts: (zero, one),
            input_ordering_map: Vec::new(),
            blackboxes: Vec::new(),
        };
        assert(c@.nodes.dom() =~= set![c@.zero, c@.one]);
        c
    }

    /// One more than the largest index that a node can have at present.
    pub fn bound(&self) -> (n: usize)
        requires
            self.wf(),
        ensures
            forall|i: int| #[trigger] self@.slots.contains(i) ==> i < n,
            forall|i: int| #[trigger] self@.nodes.contains_key(i) ==> i < n,
    {
        self.slots.len()
    }

    /// Whether a node of that index exists.
    pub fn contains(&self, i: NodeId) -> (b: bool)
        requires
            self.wf(),
        ensures
            b == self@.nodes.contains_key(i as int),
    {
        (i as usize) < self.slots.len() && self.slots[i as usize].is_some()
    }

    /// The node of that index.
    pub fn node(&self, i: NodeId) -> (node: &Node)
        requires
            self.wf(),
            self@.nodes.contains_key(i as int),
        ensures
            node@ == self@.nodes[i as int],
    {
        self.slots[i as usize].as_ref().unwrap()
    }

    /// The index of the constant source of `value`.
    pub fn const_node(&self, value: bool) -> (i: NodeId)
        requires
            self.wf(),
        ensures
            i == self@.constant(value),
            self@.has_kind(i as int, NodeKind::Constant(value)),
    {
        if value {
            self.consts.1
        } else {
            self.consts.0
        }
    }
}

/// Lengthens the slot table with empty slots until it has a slot `index`.
fn grow(slots: &mut Vec<Option<Node>>, index: usize)
    ensures
        final(slots)@.len() > index,
        final(slots)@.len() >= old(slots)@.len(),
        final(slots)@.subrange(0, old(slots)@.len() as int) == old(slots)@,
        forall|j: int| old(slots)@.len() <= j < final(slots)@.len() ==> final(slots)@[j].is_none(),
{
    while slots.len() <= index
        invariant
            slots@.len() >= old(slots)@.len(),
            slots@.subrange(0, old(slots)@.len() as int) == old(slots)@,
            forall|j: int| old(slots)@.len() <= j < slots@.len() ==> slots@[j].is_none(),
        decreases index + 1 - slots.len(),
    {
        slots.push(None);
        assert(slots@.subrange(0, old(slots)@.len() as int) =~= old(slots)@);
    }
    assert(slots@.subrange(0, old(slots)@.len() as int) =~= old(slots)@);
}

impl Circuit {
    /// Adds a node and returns its index, which no node has had before. A
    /// constant is refused, since both exist for as long as the circuit does;
    /// so is any node once the index type is exhausted.
    pub fn add_node(&mut self, node: Node) -> (r: Result<NodeId, Error>)
        requires
            old(self).wf(),
        ensures
            final(self).wf(),
            match r {
                Ok(i) => {
                    &&& !(node@.kind is Constant)
                    &&& old(self)@.slots.len() < u32::MAX
                    &&& !old(self)@.slots.contains(i as int)
                    &&& final(self)@ == (CircuitView {
                        nodes: old(self)@.nodes.insert(i as int, node@),
                        slots: old(self)@.slots.insert(i as int),
                        ..old(self)@
                    })
                },
                Err(e) => {
                    &&& final(self)@ == old(self)@
                    &&& (node@.kind is Constant || old(self)@.slots.len() >= u32::MAX)
                    &&& (e is DuplicateConstant || e is CapacityExceeded)
                    &&& (e is DuplicateConstant <==> node@.kind is Constant)
                },
            },
    {
        if let NodeType::Constant(_) = node.node_type {
            return Err(Error::DuplicateConstant);
        }
        let count = wiring_node_count(&self.graph);
        if count >= u32::MAX as usize {
            return Err(Error::CapacityExceeded);
        }
        let ghost before = self@;
        let i = wiring_add_node(&mut self.graph);
        grow(&mut self.slots, i as usize);
        assert(!before.nodes.contains_key(i as int));
        match node.node_type {
            NodeType::Input => {
                self.inputs.insert(i);
            },
            NodeType::Clock => {
                self.clocks.insert(i);
            },
            NodeType::Register => {
                self.registers.insert(i);
            },
            NodeType::Output => {
                self.outputs.insert(i);
            },
            _ => {},
        }
        self.slots.set(i as usize, Some(node));
        proof {
            let after = self@;
            assert(after.nodes =~= before.nodes.insert(i as int, node@));
            assert forall|j: int, value: bool| #[trigger]
                after.has_kind(j, NodeKind::Constant(value)) <==> j == after.constant(value) by {
                assert(before.has_kind(j, NodeKind::Constant(value)) <==> j == before.constant(value));
            }
            assert forall|j: u32| #[trigger] self.inputs@.contains(j) <==> after.inputs().contains(j as int) by {
                assert(old(self).inputs@.contains(j) <==> before.inputs().contains(j as int));
            }
            assert forall|j: u32| #[trigger] self.clocks@.contains(j) <==> after.clocks().contains(j as int) by {
                assert(old(self).clocks@.contains(j) <==> before.clocks().contains(j as int));
            }
            assert forall|j: u32| #[trigger] self.outputs@.contains(j) <==> after.outputs().contains(j as int) by {
                assert(old(self).outputs@.contains(j) <==> before.outputs().contains(j as int));
            }
            assert forall|j: u32| #[trigger] self.registers@.contains(j) <==> after.registers().contains(j as int) by {
                assert(old(self).registers@.contains(j) <==> before.registers().contains(j as int));
            }
        }
        Ok(i)
    }

    /// Adds a wire from output port `src_port` of `src` to input port
    /// `dst_port` of `dst` and returns its edge index. Any number of wires may
    /// join the same ports.
    pub fn connect(&mut self, src: NodeId, src_port: NodePortId, dst: NodeId, dst_port: NodePortId) -> (r:
        Result<u32, Error>)
        requires
            old(self).wf(),
        ensures
            final(self).wf(),
            match r {
                Ok(e) => {
                    &&& old(self)@.nodes.contains_key(src as int)
                    &&& old(self)@.nodes.contains_key(dst as int)
                    &&& old(self)@.edges.dom().len() < u32::MAX
                    &&& !old(self)@.edges.contains_key(e as int)
                    &&& final(self)@ == (CircuitView {
                        edges: old(self)@.edges.insert(
                            e as int,
                            Wire {
                                src: src as int,
                                dst: dst as int,
                                src_port: src_port as int,
                                dst_port: dst_port as int,
                            },
                        ),
                        ..old(self)@
                    })
                },
                Err(e) => {
                    &&& final(self)@ == old(self)@
                    &&& if !old(self)@.nodes.contains_key(src as int) {
                        e == Error::NodeNotFound(src)
                    } else if !old(self)@.nodes.contains_key(dst as int) {
                        e == Error::NodeNotFound(dst)
                    } else {
                        e is CapacityExceeded && old(self)@.edges.dom().len() >= u32::MAX
                    }
                },
            },
    {
        if !self.contains(src) {
            return Err(Error::NodeNotFound(src));
        }
        if !self.contains(dst) {
            return Err(Error::NodeNotFound(dst));
        }
        if wiring_edge_count(&self.graph) >= u32::MAX as usize {
            return Err(Error::CapacityExceeded);
        }
        let e = wiring_add_edge(&mut self.graph, src, src_port, dst, dst_port);
        proof {
            self.lemma_same_nodes(*old(self));
        }
        Ok(e)
    }

    /// Removes the wire of that edge index, if there is one, and says
    /// whether there was.
    pub fn disconnect(&mut self, edge: u32) -> (removed: bool)
        requires
            old(self).wf(),
        ensures
            final(self).wf(),
            removed == old(self)@.edges.contains_key(edge as int),
            final(self)@ == (CircuitView { edges: old(self)@.edges.remove(edge as int), ..old(self)@ }),
    {
        let removed = wiring_remove_edge(&mut self.graph, edge);
        proof {
            self.lemma_same_nodes(*old(self));
        }
        removed
    }

    /// Sets the secure flag of a node.
    pub fn set_secure(&mut self, i: NodeId, secure: bool)
        requires
            old(self).wf(),
            old(self)@.nodes.contains_key(i as int),
        ensures
            final(self).wf(),
            final(self)@ == (CircuitView {
                nodes: old(self)@.nodes.insert(
                    i as int,
                    NodeView { secure, ..old(self)@.nodes[i as int] },
                ),
                ..old(self)@
            }),
    {
        let ghost before = self@;
        let mut node = self.node(i).duplicate();
        node.secure = secure;
        self.slots.set(i as usize, Some(node));
        proof {
            let after = self@;
            assert(after.nodes =~= before.nodes.insert(
                i as int,
                NodeView { secure, ..before.nodes[i as int] },
            ));
            assert forall|j: int, value: bool| #[trigger]
                after.has_kind(j, NodeKind::Constant(value)) <==> j == after.constant(value) by {
                assert(before.has_kind(j, NodeKind::Constant(value)) <==> j == before.constant(value));
            }
            self.lemma_same_kinds(*old(self), i);
        }
    }

    /// Sets the name of a node.
    pub fn set_node_name(&mut self, i: NodeId, name: Option<String>)
        requires
            old(self).wf(),
            old(self)@.nodes.contains_key(i as int),
        ensures
            final(self).wf(),
            final(self)@ == (CircuitView {
                nodes: old(self)@.nodes.insert(
                    i as int,
                    NodeView { name: crate::node::name_view(name), ..old(self)@.nodes[i as int] },
                ),
                ..old(self)@
            }),
    {
        let ghost before = self@;
        let mut node = self.node(i).duplicate();
        node.name = name;
        self.slots.set(i as usize, Some(node));
        proof {
            let after = self@;
            assert(after.nodes =~= before.nodes.insert(
                i as int,
                NodeView { name: crate::node::name_view(name), ..before.nodes[i as int] },
            ));
            assert forall|j: int, value: bool| #[trigger]
                after.has_kind(j, NodeKind::Constant(value)) <==> j == after.constant(value) by {
                assert(before.has_kind(j, NodeKind::Constant(value)) <==> j == before.constant(value));
            }
            self.lemma_same_kinds(*old(self), i);
        }
    }

    /// Flips the output inversion of a gate.
    pub fn flip_inversion(&mut self, i: NodeId)
        requires
            old(self).wf(),
            old(self)@.nodes.contains_key(i as int),
            old(self)@.nodes[i as int].kind is Gate,
        ensures
            final(self).wf(),
            final(self)@ == (CircuitView {
                nodes: old(self)@.nodes.insert(
                    i as int,
                    NodeView {
                        kind: old(self)@.nodes[i as int].kind.flipped(),
                        ..old(self)@.nodes[i as int]
                    },
                ),
                ..old(self)@
            }),
    {
        let ghost before = self@;
        let mut node = self.node(i).duplicate();
        node.node_type = match node.node_type {
            NodeType::Gate(gate, inverted) => NodeType::Gate(gate, !inverted),
            other => other,
        };
        self.slots.set(i as usize, Some(node));
        proof {
            let after = self@;
            assert(after.nodes =~= before.nodes.insert(
                i as int,
                NodeView { kind: before.nodes[i as int].kind.flipped(), ..before.nodes[i as int] },
            ));
            assert forall|j: int, value: bool| #[trigger]
                after.has_kind(j, NodeKind::Constant(value)) <==> j == after.constant(value) by {
                assert(before.has_kind(j, NodeKind::Constant(value)) <==> j == before.constant(value));
            }
            self.lemma_same_roles(*old(self), i);
        }
    }

    /// Turns a gate into the gadget of the same family and inversion that
    /// works on `num_shares` shares.
    pub fn make_gadget(&mut self, i: NodeId, num_shares: u8)
        requires
            old(self).wf(),
            old(self)@.nodes.contains_key(i as int),
            old(self)@.nodes[i as int].kind is Gate,
        ensures
            final(self).wf(),
            final(self)@ == (CircuitView {
                nodes: old(self)@.nodes.insert(
                    i as int,
                    NodeView {
                        kind: old(self)@.nodes[i as int].kind.as_gadget(num_shares),
                        ..old(self)@.nodes[i as int]
                    },
                ),
                ..old(self)@
            }),
    {
        let ghost before = self@;
        let mut node = self.node(i).duplicate();
        node.node_type = match node.node_type {
            NodeType::Gate(gate, inverted) => NodeType::Gadget {
                base_type: gate,
                invert: inverted,
                num_shares,
            },
            other => other,
        };
        self.slots.set(i as usize, Some(node));
        proof {
            let after = self@;
            assert(after.nodes =~= before.nodes.insert(
                i as int,
                NodeView {
                    kind: before.nodes[i as int].kind.as_gadget(num_shares),
                    ..before.nodes[i as int]
                },
            ));
            assert forall|j: int, value: bool| #[trigger]
                after.has_kind(j, NodeKind::Constant(value)) <==> j == after.constant(value) by {
                assert(before.has_kind(j, NodeKind::Constant(value)) <==> j == before.constant(value));
            }
            self.lemma_same_roles(*old(self), i);
        }
    }

    /// A change of the wires alone leaves what holds of the nodes as it is.
    proof fn lemma_same_nodes(&self, before: Circuit)
        requires
            before.wf(),
            self.slots == before.slots,
            self.inputs == before.inputs,
            self.clocks == before.clocks,
            self.outputs == before.outputs,
            self.registers == before.registers,
            self.consts == before.consts,
            wiring_nodes(self.graph) == wiring_nodes(before.graph),
            wiring_edges(self.graph).dom().finite(),
            forall|e: int| #[trigger]
                wiring_edges(self.graph).contains_key(e) ==> {
                    &&& 0 <= e <= u32::MAX
                    &&& before@.nodes.contains_key(wiring_edges(self.graph)[e].src)
                    &&& before@.nodes.contains_key(wiring_edges(self.graph)[e].dst)
                    &&& 0 <= wiring_edges(self.graph)[e].src_port <= u8::MAX
                    &&& 0 <= wiring_edges(self.graph)[e].dst_port <= u8::MAX
                },
        ensures
            self.wf(),
            self@.nodes == before@.nodes,
    {
        assert(self@.nodes =~= before@.nodes);
        assert forall|j: int, value: bool| #[trigger]
            self@.has_kind(j, NodeKind::Constant(value)) <==> j == self@.constant(value) by {
            assert(before@.has_kind(j, NodeKind::Constant(value)) <==> j == before@.constant(value));
        }
        assert forall|j: u32| #[trigger] self.inputs@.contains(j) <==> self@.inputs().contains(j as int) by {
            assert(before.inputs@.contains(j) <==> before@.inputs().contains(j as int));
        }
        assert forall|j: u32| #[trigger] self.clocks@.contains(j) <==> self@.clocks().contains(j as int) by {
            assert(before.clocks@.contains(j) <==> before@.clocks().contains(j as int));
        }
        assert forall|j: u32| #[trigger] self.outputs@.contains(j) <==> self@.outputs().contains(j as int) by {
            assert(before.outputs@.contains(j) <==> before@.outputs().contains(j as int));
        }
        assert forall|j: u32| #[trigger] self.registers@.contains(j) <==> self@.registers().contains(j as int) by {
            assert(before.registers@.contains(j) <==> before@.registers().contains(j as int));
        }
    }

    /// Replacing a node by one of the same kind leaves the role sets as they
    /// are.
    proof fn lemma_same_kinds(&self, before: Circuit, i: NodeId)
        requires
            before.wf(),
            before@.nodes.contains_key(i as int),
            self@.nodes.dom() =~= before@.nodes.dom(),
            forall|j: int| #[trigger] self@.nodes.contains_key(j) ==> self@.nodes[j].kind == before@.nodes[j].kind,
            self.inputs == before.inputs,
            self.clocks == before.clocks,
            self.outputs == before.outputs,
            self.registers == before.registers,
            self.graph == before.graph,
            self.slots@.len() == before.slots@.len(),
            self.consts == before.consts,
            self@.wf(),
        ensures
            self.wf(),
    {
        assert forall|j: u32| #[trigger] self.inputs@.contains(j) <==> self@.inputs().contains(j as int) by {
            assert(before.inputs@.contains(j) <==> before@.inputs().contains(j as int));
        }
        assert forall|j: u32| #[trigger] self.clocks@.contains(j) <==> self@.clocks().contains(j as int) by {
            assert(before.clocks@.contains(j) <==> before@.clocks().contains(j as int));
        }
        assert forall|j: u32| #[trigger] self.outputs@.contains(j) <==> self@.outputs().contains(j as int) by {
            assert(before.outputs@.contains(j) <==> before@.outputs().contains(j as int));
        }
        assert forall|j: u32| #[trigger] self.registers@.contains(j) <==> self@.registers().contains(j as int) by {
            assert(before.registers@.contains(j) <==> before@.registers().contains(j as int));
        }
    }

    /// Replacing a gate by a gate or a gadget leaves the role sets as they
    /// are.
    proof fn lemma_same_roles(&self, before: Circuit, i: NodeId)
        requires
            before.wf(),
            before@.nodes.contains_key(i as int),
            before@.nodes[i as int].kind is Gate,
            self@.nodes.dom() =~= before@.nodes.dom(),
            self@.nodes[i as int].kind is Gate || self@.nodes[i as int].kind is Gadget,
            forall|j: int| #[trigger] self@.nodes.contains_key(j) && j != i ==> self@.nodes[j].kind == before@.nodes[j].kind,
            self.inputs == before.inputs,
            self.clocks == before.clocks,
            self.outputs == before.outputs,
            self.registers == before.registers,
            self.graph == before.graph,
            self.slots@.len() == before.slots@.len(),
            self.consts == before.consts,
            self@.wf(),
        ensures
            self.wf(),
    {
        assert forall|j: u32| #[trigger] self.inputs@.contains(j) <==> self@.inputs().contains(j as int) by {
            assert(before.inputs@.contains(j) <==> before@.inputs().contains(j as int));
        }
        assert forall|j: u32| #[trigger] self.clocks@.contains(j) <==> self@.clocks().contains(j as int) by {
            assert(before.clocks@.contains(j) <==> before@.clocks().contains(j as int));
        }
        assert forall|j: u32| #[trigger] self.outputs@.contains(j) <==> self@.outputs().contains(j as int) by {
            assert(before.outputs@.contains(j) <==> before@.outputs().contains(j as int));
        }
        assert forall|j: u32| #[trigger] self.registers@.contains(j) <==> self@.registers().contains(j as int) by {
            assert(before.registers@.contains(j) <==> before@.registers().contains(j as int));
        }
    }
}

/// The first position at which `names` holds `name`.
pub open spec fn first_position(names: Seq<Seq<char>>, name: Seq<char>) -> Option<int> {
    if exists|i: int| is_first_position(names, name, i) {
        Some(choose|i: int| is_first_position(names, name, i))
    } else {
        None
    }
}

/// `names` holds `name` at `i` and not before.
pub open spec fn is_first_position(names: Seq<Seq<char>>, name: Seq<char>, i: int) -> bool {
    0 <= i < names.len() && names[i] == name && forall|j: int| 0 <= j < i ==> #[trigger] names[j] != name
}

/// There is one first position at most.
pub proof fn lemma_first_position(names: Seq<Seq<char>>, name: Seq<char>, i: int)
    requires
        is_first_position(names, name, i),
    ensures
        first_position(names, name) == Some(i),
{
    let c = choose|c: int| is_first_position(names, name, c);
    if c < i {
        assert(names[c] != name);
    } else if c > i {
        assert(names[i] != name);
    }
}

/// The first position, where there is one, is a first position.
pub proof fn lemma_first_position_is(names: Seq<Seq<char>>, name: Seq<char>)
    requires
        first_position(names, name).is_some(),
    ensures
        is_first_position(names, name, first_position(names, name).unwrap()),
{
}

/// The elements of `list` are the members of `set`, in rising order.
pub open spec fn lists_rising(list: Seq<NodeId>, set: Set<int>) -> bool {
    &&& forall|i: int, j: int| 0 <= i < j < list.len() ==> list[i] < list[j]
    &&& forall|i: int| 0 <= i < list.len() ==> set.contains(#[trigger] list[i] as int)
    &&& forall|v: int| #[trigger] set.contains(v) ==> 0 <= v <= u32::MAX && list.contains(v as u32)
}

impl Circuit {
    /// Whether the node is a primary input.
    pub fn is_input(&self, i: NodeId) -> (b: bool)
        requires
            self.wf(),
        ensures
            b == self@.inputs().contains(i as int),
    {
        self.inputs.contains(&i)
    }

    /// Whether the node is a clock.
    pub fn is_clock(&self, i: NodeId) -> (b: bool)
        requires
            self.wf(),
        ensures
            b == self@.clocks().contains(i as int),
    {
        self.clocks.contains(&i)
    }

    /// Whether the node is a primary output.
    pub fn is_output(&self, i: NodeId) -> (b: bool)
        requires
            self.wf(),
        ensures
            b == self@.outputs().contains(i as int),
    {
        self.outputs.contains(&i)
    }

    /// Whether the node is a register.
    pub fn is_register(&self, i: NodeId) -> (b: bool)
        requires
            self.wf(),
        ensures
            b == self@.registers().contains(i as int),
    {
        self.registers.contains(&i)
    }

    /// The primary inputs that are marked secure, in rising order.
    pub fn secure_inputs(&self) -> (list: Vec<NodeId>)
        requires
            self.wf(),
        ensures
            lists_rising(list@, self@.secure_among(self@.inputs())),
    {
        let mut list: Vec<NodeId> = Vec::new();
        let n = self.slots.len();
        let mut i: usize = 0;
        let ghost set = self@.secure_among(self@.inputs());
        while i < n
            invariant
                self.wf(),
                n == self.slots@.len(),
                i <= n,
                set == self@.secure_among(self@.inputs()),
                forall|a: int, b: int| 0 <= a < b < list@.len() ==> list@[a] < list@[b],
                forall|a: int| 0 <= a < list@.len() ==> set.contains(#[trigger] list@[a] as int) && list@[a] < i,
                forall|v: int| #[trigger] set.contains(v) && v < i ==> list@.contains(v as u32),
            decreases n - i,
        {
            if i <= u32::MAX as usize && self.inputs.contains(&(i as u32)) && self.node(i as u32).secure {
                let ghost before = list@;
                list.push(i as u32);
                assert(list@[list@.len() - 1] == i as u32);
                assert forall|v: int| #[trigger] set.contains(v) && v < i + 1 implies list@.contains(v as u32) by {
                    if v < i {
                        let a = choose|a: int| 0 <= a < before.len() && before[a] == v as u32;
                        assert(list@[a] == v as u32);
                    }
                }
            } else {
                assert(!set.contains(i as int));
            }
            i = i + 1;
        }
        list
    }

    /// The primary outputs that are marked secure, in rising order.
    pub fn secure_outputs(&self) -> (list: Vec<NodeId>)
        requires
            self.wf(),
        ensures
            lists_rising(list@, self@.secure_among(self@.outputs())),
    {
        let mut list: Vec<NodeId> = Vec::new();
        let n = self.slots.len();
        let mut i: usize = 0;
        let ghost set = self@.secure_among(self@.outputs());
        while i < n
            invariant
                self.wf(),
                n == self.slots@.len(),
                i <= n,
                set == self@.secure_among(self@.outputs()),
                forall|a: int, b: int| 0 <= a < b < list@.len() ==> list@[a] < list@[b],
                forall|a: int| 0 <= a < list@.len() ==> set.contains(#[trigger] list@[a] as int) && list@[a] < i,
                forall|v: int| #[trigger] set.contains(v) && v < i ==> list@.contains(v as u32),
            decreases n - i,
        {
            if i <= u32::MAX as usize && self.outputs.contains(&(i as u32)) && self.node(i as u32).secure {
                let ghost before = list@;
                list.push(i as u32);
                assert(list@[list@.len() - 1] == i as u32);
                assert forall|v: int| #[trigger] set.contains(v) && v < i + 1 implies list@.contains(v as u32) by {
                    if v < i {
                        let a = choose|a: int| 0 <= a < before.len() && before[a] == v as u32;
                        assert(list@[a] == v as u32);
                    }
                }
            } else {
                assert(!set.contains(i as int));
            }
            i = i + 1;
        }
        list
    }

    /// The wires into `nx`, ordered by destination port, then by source
    /// node, source port and edge index.
    pub fn incoming(&self, nx: NodeId) -> (links: Vec<Link>)
        requires
            self.wf(),
        ensures
            lists_wires_into(links@, self@.edges, nx as int),
            ordered_links(links@),
    {
        let raw = wiring_edges_into(&self.graph, nx);
        let links = sort_links(raw);
        proof {
            let edges = self@.edges;
            assert forall|i: int| 0 <= i < links@.len() implies edges.contains_key(
                #[trigger] links@[i].edge as int,
            ) && edges[links@[i].edge as int] == (Wire {
                src: links@[i].node as int,
                dst: nx as int,
                src_port: links@[i].src_port as int,
                dst_port: links@[i].dst_port as int,
            }) by {
                assert(links@.contains(links@[i]));
                let a = choose|a: int| 0 <= a < raw@.len() && raw@[a] == links@[i];
                assert(edges.contains_key(raw@[a].edge as int));
            }
            assert forall|i: int, j: int| 0 <= i < j < links@.len() implies (#[trigger] links@[i]).edge != (
            #[trigger] links@[j]).edge by {
                assert(links@.contains(links@[i]));
                assert(links@.contains(links@[j]));
                let a = choose|a: int| 0 <= a < raw@.len() && raw@[a] == links@[i];
                let b = choose|b: int| 0 <= b < raw@.len() && raw@[b] == links@[j];
                assert(crate::order::link_before(links@[i], links@[j]));
                if a < b {
                    assert(raw@[a].edge != raw@[b].edge);
                } else if b < a {
                    assert(raw@[b].edge != raw@[a].edge);
                }
            }
            assert forall|e: int| #[trigger] edges.contains_key(e) && edges[e].dst == nx as int implies exists|
                i: int,
            |
                0 <= i < links@.len() && (#[trigger] links@[i]).edge == e by {
                let a = choose|a: int| 0 <= a < raw@.len() && (#[trigger] raw@[a]).edge == e;
                assert(raw@.contains(raw@[a]));
                assert(links@.contains(raw@[a]));
                let i = choose|i: int| 0 <= i < links@.len() && links@[i] == raw@[a];
                assert(links@[i].edge == e);
            }
        }
        links
    }

    /// The number of wires out of `nx`.
    pub fn fanout(&self, nx: NodeId) -> (n: usize)
        requires
            self.wf(),
        ensures
            n == self@.wires_from(nx as int).len(),
    {
        let raw = wiring_edges_from(&self.graph, nx);
        proof {
            let edges = self@.edges;
            let ids = raw@.map_values(|l: Link| l.edge as int);
            assert(ids.no_duplicates()) by {
                assert forall|i: int, j: int| 0 <= i < ids.len() && 0 <= j < ids.len() && i != j implies ids[i]
                    != ids[j] by {
                    if i < j {
                        assert(raw@[i].edge != raw@[j].edge);
                    } else {
                        assert(raw@[j].edge != raw@[i].edge);
                    }
                }
            }
            assert(ids.to_set() =~= self@.wires_from(nx as int)) by {
                assert forall|e: int| ids.to_set().contains(e) <==> self@.wires_from(nx as int).contains(
                    e,
                ) by {
                    if ids.contains(e) {
                        let i = choose|i: int| 0 <= i < ids.len() && ids[i] == e;
                        assert(edges.contains_key(raw@[i].edge as int));
                    }
                    if self@.wires_from(nx as int).contains(e) {
                        assert(edges.contains_key(e) && edges[e].src == nx as int);
                        let i = choose|i: int| 0 <= i < raw@.len() && (#[trigger] raw@[i]).edge == e;
                        assert(ids[i] == e);
                    }
                }
            }
            ids.unique_seq_to_set();
        }
        raw.len()
    }
}

/// The edge indices that `links` names.
pub open spec fn edge_ids(links: Seq<Link>) -> Set<int> {
    Set::new(|e: int| exists|i: int| 0 <= i < links.len() && (#[trigger] links[i]).edge == e)
}

/// Removes from the graph the wires that `links` names.
fn remove_links(graph: &mut Wiring, links: &Vec<Link>)
    ensures
        wiring_nodes(*final(graph)) == wiring_nodes(*old(graph)),
        wiring_edges(*final(graph)) == wiring_edges(*old(graph)).remove_keys(edge_ids(links@)),
{
    let mut k: usize = 0;
    assert(wiring_edges(*graph) =~= wiring_edges(*old(graph)).remove_keys(
        edge_ids(links@.subrange(0, 0)),
    ));
    while k < links.len()
        invariant
            k <= links.len(),
            wiring_nodes(*graph) == wiring_nodes(*old(graph)),
            wiring_edges(*graph) == wiring_edges(*old(graph)).remove_keys(
                edge_ids(links@.subrange(0, k as int)),
            ),
        decreases links.len() - k,
    {
        let ghost before = wiring_edges(*graph);
        wiring_remove_edge(graph, links[k].edge);
        proof {
            let done = links@.subrange(0, k as int);
            let more = links@.subrange(0, k + 1);
            assert(more[k as int] == links@[k as int]);
            assert forall|e: int| edge_ids(more).contains(e) <==> edge_ids(done).contains(e) || e
                == links@[k as int].edge as int by {
                if edge_ids(more).contains(e) {
                    let i = choose|i: int| 0 <= i < more.len() && (#[trigger] more[i]).edge == e;
                    if i < k {
                        assert(done[i].edge == e);
                    }
                }
                if edge_ids(done).contains(e) {
                    let i = choose|i: int| 0 <= i < done.len() && (#[trigger] done[i]).edge == e;
                    assert(more[i].edge == e);
                }
            }
            assert(wiring_edges(*graph) =~= wiring_edges(*old(graph)).remove_keys(edge_ids(more)));
        }
        k = k + 1;
    }
    assert(links@.subrange(0, k as int) =~= links@);
}

impl Circuit {
    /// Removes a node together with the wires at it, and says whether it did.
    /// A constant stays, and so does everything when there is no such node.
    /// The index of a removed node is not handed out again.
    pub fn remove_node(&mut self, i: NodeId) -> (removed: bool)
        requires
            old(self).wf(),
        ensures
            final(self).wf(),
            removed == (old(self)@.nodes.contains_key(i as int) && !(old(self)@.nodes[i as int].kind is Constant)),
            removed ==> final(self)@ == (CircuitView {
                nodes: old(self)@.nodes.remove(i as int),
                edges: old(self)@.edges_without(i as int),
                ..old(self)@
            }),
            !removed ==> final(self)@ == old(self)@,
    {
        if !self.contains(i) {
            return false;
        }
        if let NodeType::Constant(_) = self.node(i).node_type {
            return false;
        }
        let ghost before = self@;
        let into = wiring_edges_into(&self.graph, i);
        remove_links(&mut self.graph, &into);
        let ghost between = wiring_edges(self.graph);
        let from = wiring_edges_from(&self.graph, i);
        remove_links(&mut self.graph, &from);
        self.inputs.remove(&i);
        self.clocks.remove(&i);
        self.outputs.remove(&i);
        self.registers.remove(&i);
        self.slots.set(i as usize, None);
        proof {
            let after = self@;
            assert(after.nodes =~= before.nodes.remove(i as int));
            assert(after.edges =~= before.edges_without(i as int)) by {
                assert forall|e: int| after.edges.contains_key(e) <==> before.edges_without(
                    i as int,
                ).contains_key(e) by {
                    if before.edges.contains_key(e) {
                        if before.edges[e].dst == i as int {
                            let a = choose|a: int| 0 <= a < into@.len() && (#[trigger] into@[a]).edge == e;
                            assert(edge_ids(into@).contains(e));
                        } else {
                            if edge_ids(into@).contains(e) {
                                let a = choose|a: int| 0 <= a < into@.len() && (#[trigger] into@[a]).edge == e;
                                assert(before.edges.contains_key(into@[a].edge as int));
                            }
                            assert(between.contains_key(e));
                            if before.edges[e].src == i as int {
                                let a = choose|a: int| 0 <= a < from@.len() && (#[trigger] from@[a]).edge == e;
                                assert(edge_ids(from@).contains(e));
                            } else {
                                if edge_ids(from@).contains(e) {
                                    let a = choose|a: int| 0 <= a < from@.len() && (#[trigger] from@[a]).edge
                                        == e;
                                    assert(between.contains_key(from@[a].edge as int));
                                }
                            }
                        }
                    }
                }
            }
            assert forall|j: int, value: bool| #[trigger]
                after.has_kind(j, NodeKind::Constant(value)) <==> j == after.constant(value) by {
                assert(before.has_kind(j, NodeKind::Constant(value)) <==> j == before.constant(value));
            }
            assert forall|j: u32| #[trigger] self.inputs@.contains(j) <==> after.inputs().contains(j as int) by {
                assert(old(self).inputs@.contains(j) <==> before.inputs().contains(j as int));
            }
            assert forall|j: u32| #[trigger] self.clocks@.contains(j) <==> after.clocks().contains(j as int) by {
                assert(old(self).clocks@.contains(j) <==> before.clocks().contains(j as int));
            }
            assert forall|j: u32| #[trigger] self.outputs@.contains(j) <==> after.outputs().contains(j as int) by {
                assert(old(self).outputs@.contains(j) <==> before.outputs().contains(j as int));
            }
            assert forall|j: u32| #[trigger] self.registers@.contains(j) <==> after.registers().contains(j as int) by {
                assert(old(self).registers@.contains(j) <==> before.registers().contains(j as int));
            }
            assert(after.edges.dom().finite()) by {
                assert(after.edges.dom().subset_of(before.edges.dom()));
                vstd::set_lib::lemma_len_subset(after.edges.dom(), before.edges.dom());
            }
        }
        true
    }
}

impl Circuit {
    /// The number of indices handed out so far.
    pub fn slot_count(&self) -> (n: usize)
        requires
            self.wf(),
        ensures
            n == self@.slots.len(),
    {
        wiring_node_count(&self.graph)
    }

    /// The number of wires.
    pub fn edge_count(&self) -> (n: usize)
        requires
            self.wf(),
        ensures
            n == self@.edges.dom().len(),
    {
        wiring_edge_count(&self.graph)
    }

    /// For each index below [`Circuit::bound`], whether some node of
    /// `starts` reaches it: along the wires or, with `backward`, against
    /// them.
    pub fn cone(&self, starts: &Vec<NodeId>, backward: bool) -> (marks: Vec<bool>)
        requires
            self.wf(),
            forall|i: int| 0 <= i < starts@.len() ==> self@.nodes.contains_key(#[trigger] starts@[i] as int),
        ensures
            forall|v: int| #[trigger] self@.slots.contains(v) ==> v < marks@.len(),
            forall|v: int|
                0 <= v < marks@.len() ==> #[trigger] marks@[v] == reached_from(
                    directed(self@.edges, backward),
                    starts@.map_values(|i: NodeId| i as int).to_set(),
                    v,
                ),
            forall|v: int|
                reached_from(
                    directed(self@.edges, backward),
                    starts@.map_values(|i: NodeId| i as int).to_set(),
                    v,
                ) ==> self@.nodes.contains_key(v),
    {
        let n = self.slots.len();
        let mut marks: Vec<bool> = Vec::new();
        while marks.len() < n
            invariant
                marks@.len() <= n,
                forall|v: int| 0 <= v < marks@.len() ==> !marks@[v],
            decreases n - marks.len(),
        {
            marks.push(false);
        }
        let ghost edges = directed(self@.edges, backward);
        let ghost all = starts@.map_values(|i: NodeId| i as int);
        let mut k: usize = 0;
        while k < starts.len()
            invariant
                self.wf(),
                k <= starts@.len(),
                marks@.len() == n,
                n == self.slots@.len(),
                edges == directed(self@.edges, backward),
                all == starts@.map_values(|i: NodeId| i as int),
                forall|i: int| 0 <= i < starts@.len() ==> self@.nodes.contains_key(#[trigger] starts@[i] as int),
                forall|v: int|
                    0 <= v < n ==> #[trigger] marks@[v] == reached_from(edges, all.subrange(0, k as int).to_set(), v),
                forall|v: int|
                    reached_from(edges, all.subrange(0, k as int).to_set(), v) ==> self@.nodes.contains_key(v),
            decreases starts.len() - k,
        {
            let ghost before = marks@;
            let ghost done = all.subrange(0, k as int).to_set();
            let ghost more = all.subrange(0, k + 1).to_set();
            assert(self@.nodes.contains_key(starts@[k as int] as int));
            mark_reached(&self.graph, starts[k], backward, &mut marks);
            proof {
                let a = starts@[k as int] as int;
                assert(all.subrange(0, k + 1)[k as int] == a);
                let live = self@.nodes.dom();
                assert forall|u: int, v: int| live.contains(u) && #[trigger] has_wire(edges, u, v) implies live.contains(
                    v,
                ) by {
                    let e = choose|e: int| #[trigger] edges.contains_key(e) && edges[e].src == u && edges[e].dst == v;
                    assert(self@.edges.contains_key(e));
                }
                assert forall|v: int| reaches(edges, a, v) implies live.contains(v) by {
                    lemma_closed_holds_reached(edges, live, a, v);
                }
                assert forall|x: int| more.contains(x) <==> done.contains(x) || x == a by {
                    if more.contains(x) {
                        let longer = all.subrange(0, k + 1);
                        let i = choose|i: int| 0 <= i < longer.len() && longer[i] == x;
                        if i < k {
                            assert(all.subrange(0, k as int)[i] == x);
                        }
                    }
                    if done.contains(x) {
                        let shorter = all.subrange(0, k as int);
                        let i = choose|i: int| 0 <= i < shorter.len() && shorter[i] == x;
                        assert(all.subrange(0, k + 1)[i] == x);
                    }
                }
                assert forall|v: int| reached_from(edges, more, v) <==> reached_from(edges, done, v) || reaches(
                    edges,
                    a,
                    v,
                ) by {
                    if reached_from(edges, more, v) {
                        let x = choose|x: int| #[trigger] more.contains(x) && reaches(edges, x, v);
                        if x != a {
                            assert(done.contains(x));
                        }
                    }
                    if reached_from(edges, done, v) {
                        let x = choose|x: int| #[trigger] done.contains(x) && reaches(edges, x, v);
                        assert(more.contains(x));
                    }
                    if reaches(edges, a, v) {
                        assert(more.contains(a));
                    }
                }
            }
            k = k + 1;
        }
        assert(all.subrange(0, k as int) =~= all);
        marks
    }
}

/// A list of the wires into a node is as long as the node has wires into it.
pub proof fn lemma_links_count(links: Seq<Link>, edges: Map<int, Wire>, v: int)
    requires
        lists_wires_into(links, edges, v),
    ensures
        links.len() == edges.dom().filter(|e: int| edges[e].dst == v).len(),
{
    let ids = links.map_values(|l: Link| l.edge as int);
    let set = edges.dom().filter(|e: int| edges[e].dst == v);
    assert(ids.no_duplicates()) by {
        assert forall|i: int, j: int| 0 <= i < ids.len() && 0 <= j < ids.len() && i != j implies ids[i] != ids[j] by {
            if i < j {
                assert(links[i].edge != links[j].edge);
            } else {
                assert(links[j].edge != links[i].edge);
            }
        }
    }
    assert(ids.to_set() =~= set) by {
        assert forall|e: int| ids.to_set().contains(e) <==> set.contains(e) by {
            if ids.contains(e) {
                let i = choose|i: int| 0 <= i < ids.len() && ids[i] == e;
                assert(edges.contains_key(links[i].edge as int));
            }
            if set.contains(e) {
                assert(edges.contains_key(e) && edges[e].dst == v);
                let i = choose|i: int| 0 <= i < links.len() && (#[trigger] links[i]).edge == e;
                assert(ids[i] == e);
            }
        }
    }
    ids.unique_seq_to_set();
}

impl Circuit {
    /// The port names recorded for each kind of node, latest first among
    /// equal kinds.
    pub closed spec fn port_orders(&self) -> Seq<(NodeType, Vec<String>)> {
        self.input_ordering_map@
    }

    /// The black boxes recorded by name.
    pub closed spec fn known_blackboxes(&self) -> Seq<(String, Blackbox)> {
        self.blackboxes@
    }

    /// The name of the module that the circuit was built from.
    pub fn name(&self) -> (name: &String)
        ensures
            name@ == self@.name,
    {
        &self.name
    }

    /// Gives the circuit a name.
    pub fn set_name(&mut self, name: String)
        requires
            old(self).wf(),
        ensures
            final(self).wf(),
            final(self)@ == (CircuitView { name: name@, ..old(self)@ }),
            final(self).port_orders() == old(self).port_orders(),
            final(self).known_blackboxes() == old(self).known_blackboxes(),
    {
        self.name = name;
        proof {
            self.lemma_same_nodes(*old(self));
        }
    }

    /// Records the names of the input ports of nodes of a kind, in the order
    /// of their port numbers.
    pub fn set_input_order(&mut self, kind: NodeType, names: Vec<String>)
        requires
            old(self).wf(),
        ensures
            final(self).wf(),
            final(self)@ == old(self)@,
            final(self).port_orders() == old(self).port_orders().push((kind, names)),
            final(self).known_blackboxes() == old(self).known_blackboxes(),
    {
        self.input_ordering_map.push((kind, names));
        proof {
            self.lemma_same_nodes(*old(self));
        }
    }

    /// The names of the input ports of nodes of that kind, as last recorded.
    pub fn input_order(&self, kind: &NodeType) -> (names: Option<&Vec<String>>)
        ensures
            match names {
                Some(list) => exists|i: int|
                    0 <= i < self.port_orders().len() && (#[trigger] self.port_orders()[i]).0@ == kind@
                        && self.port_orders()[i].1 == *list && forall|j: int|
                        i < j < self.port_orders().len() ==> (#[trigger] self.port_orders()[j]).0@ != kind@,
                None => forall|j: int|
                    0 <= j < self.port_orders().len() ==> (#[trigger] self.port_orders()[j]).0@ != kind@,
            },
    {
        let mut i: usize = self.input_ordering_map.len();
        while i > 0
            invariant
                i <= self.input_ordering_map@.len(),
                forall|j: int|
                    i <= j < self.port_orders().len() ==> (#[trigger] self.port_orders()[j]).0@ != kind@,
            decreases i,
        {
            i = i - 1;
            if self.input_ordering_map[i].0.same_as(kind) {
                assert(self.port_orders()[i as int].0@ == kind@ && self.port_orders()[i as int].1
                    == self.input_ordering_map@[i as int].1);
                return Some(&self.input_ordering_map[i].1);
            }
        }
        None
    }

    /// Records the ports of a black box under its name.
    pub fn add_blackbox(&mut self, name: String, blackbox: Blackbox)
        requires
            old(self).wf(),
        ensures
            final(self).wf(),
            final(self)@ == old(self)@,
            final(self).known_blackboxes() == old(self).known_blackboxes().push((name, blackbox)),
            final(self).port_orders() == old(self).port_orders(),
    {
        self.blackboxes.push((name, blackbox));
        proof {
            self.lemma_same_nodes(*old(self));
        }
    }

    /// The ports of the black box of that name, as last recorded.
    pub fn blackbox(&self, name: &str) -> (found: Option<&Blackbox>)
        ensures
            match found {
                Some(b) => exists|i: int|
                    0 <= i < self.known_blackboxes().len() && (#[trigger] self.known_blackboxes()[i]).0@ == name@
                        && self.known_blackboxes()[i].1 == *b,
                None => forall|j: int|
                    0 <= j < self.known_blackboxes().len() ==> (#[trigger] self.known_blackboxes()[j]).0@ != name@,
            },
    {
        let wanted = name.to_owned();
        let mut i: usize = self.blackboxes.len();
        while i > 0
            invariant
                i <= self.blackboxes@.len(),
                wanted@ == name@,
                forall|j: int|
                    i <= j < self.known_blackboxes().len() ==> (#[trigger] self.known_blackboxes()[j]).0@ != name@,
            decreases i,
        {
            i = i - 1;
            if self.blackboxes[i].0 == wanted {
                assert(self.known_blackboxes()[i as int].0@ == name@ && self.known_blackboxes()[i as int].1
                    == self.blackboxes@[i as int].1);
                return Some(&self.blackboxes[i].1);
            }
        }
        None
    }

    /// The nodes that drive `nx`, in the order of [`Circuit::incoming`].
    pub fn node_inputs(&self, nx: NodeId) -> (sources: Vec<NodeId>)
        requires
            self.wf(),
        ensures
            exists|links: Seq<Link>|
                {
                    &&& #[trigger] lists_wires_into(links, self@.edges, nx as int)
                    &&& ordered_links(links)
                    &&& sources@ == links.map_values(|l: Link| l.node)
                },
    {
        let links = self.incoming(nx);
        let mut sources: Vec<NodeId> = Vec::new();
        let mut i: usize = 0;
        while i < links.len()
            invariant
                i <= links@.len(),
                sources@ == links@.subrange(0, i as int).map_values(|l: Link| l.node),
            decreases links.len() - i,
        {
            sources.push(links[i].node);
            i = i + 1;
            assert(sources@ =~= links@.subrange(0, i as int).map_values(|l: Link| l.node));
        }
        assert(links@.subrange(0, links@.len() as int) =~= links@);
        sources
    }

    /// The first wire into the port `port` of `nx`, in the order of
    /// [`Circuit::incoming`]: the node that drives it and the port that it
    /// leaves from.
    pub fn input_at(&self, nx: NodeId, port: NodePortId) -> (source: Option<(NodeId, NodePortId)>)
        requires
            self.wf(),
        ensures
            source == self@.first_into(nx as int, port as int),
    {
        let links = self.incoming(nx);
        let mut i: usize = 0;
        while i < links.len()
            invariant
                i <= links@.len(),
                lists_wires_into(links@, self@.edges, nx as int),
                ordered_links(links@),
                forall|j: int| 0 <= j < i ==> (#[trigger] links@[j]).dst_port != port,
            decreases links.len() - i,
        {
            if links[i].dst_port == port {
                proof {
                    let e = links@[i as int].edge as int;
                    assert(self@.edges.contains_key(e));
                    assert(self@.enters(e, nx as int, port as int));
                    assert forall|x: int| self@.enters(x, nx as int, port as int) implies !self@.leaves_before(x, e) by {
                        let j = choose|j: int| 0 <= j < links@.len() && (#[trigger] links@[j]).edge == x;
                        if j > i {
                            assert(crate::order::link_before(links@[i as int], links@[j]));
                        } else if j < i {
                            assert(links@[j].dst_port != port);
                        }
                    }
                    assert(self@.is_first_into(e, nx as int, port as int));
                    self@.lemma_first_into(e, nx as int, port as int);
                }
                return Some((links[i].node, links[i].src_port));
            }
            i = i + 1;
        }
        proof {
            assert forall|e: int| !self@.is_first_into(e, nx as int, port as int) by {
                if self@.enters(e, nx as int, port as int) {
                    let j = choose|j: int| 0 <= j < links@.len() && (#[trigger] links@[j]).edge == e;
                    assert(links@[j].dst_port != port);
                }
            }
        }
        None
    }

    /// The names of the input ports that were last recorded for a kind.
    pub open spec fn recorded_order(&self, kind: NodeKind) -> Option<Seq<Seq<char>>> {
        if exists|i: int| self.is_last_order(i, kind) {
            Some(string_views(self.port_orders()[choose|i: int| self.is_last_order(i, kind)].1@))
        } else {
            None
        }
    }

    /// The entry `i` of the recorded port names is the last for the kind.
    pub open spec fn is_last_order(&self, i: int, kind: NodeKind) -> bool {
        &&& 0 <= i < self.port_orders().len()
        &&& self.port_orders()[i].0@ == kind
        &&& forall|j: int| i < j < self.port_orders().len() ==> (#[trigger] self.port_orders()[j]).0@ != kind
    }

    /// The wire into the input port of that name of `nx`, where port names
    /// are recorded for the kind of `nx` and the name is among the first 256
    /// of them: the first wire into the port of the number that the name
    /// has in the list. None otherwise.
    pub fn node_input(&self, nx: NodeId, port_name: &str) -> (source: Option<(NodeId, NodePortId)>)
        requires
            self.wf(),
            self@.nodes.contains_key(nx as int),
        ensures
            source == match self.recorded_order(self@.nodes[nx as int].kind) {
                Some(names) => match first_position(names, port_name@) {
                    Some(i) => if i < 256 {
                        self@.first_into(nx as int, i)
                    } else {
                        None
                    },
                    None => None,
                },
                None => None,
            },
    {
        let kind = &self.node(nx).node_type;
        let names = match self.input_order(kind) {
            Some(names) => names,
            None => {
                assert forall|i: int| !self.is_last_order(i, kind@) by {}
                return None;
            },
        };
        proof {
            let k = choose|i: int|
                0 <= i < self.port_orders().len() && (#[trigger] self.port_orders()[i]).0@ == kind@
                    && self.port_orders()[i].1 == *names && forall|j: int|
                    i < j < self.port_orders().len() ==> (#[trigger] self.port_orders()[j]).0@ != kind@;
            assert(self.is_last_order(k, kind@));
            let c = choose|i: int| self.is_last_order(i, kind@);
            if c < k {
                assert(self.port_orders()[k].0@ != kind@);
            } else if c > k {
                assert(self.port_orders()[c].0@ != kind@);
            }
            assert(self.recorded_order(kind@) == Some(string_views(names@)));
        }
        let ghost texts = string_views(names@);
        let wanted = port_name.to_owned();
        let mut i: usize = 0;
        while i < names.len() && i < 256
            invariant
                self.wf(),
                i <= names@.len(),
                i <= 256,
                texts == string_views(names@),
                wanted@ == port_name@,
                kind@ == self@.nodes[nx as int].kind,
                self.recorded_order(kind@) == Some(texts),
                forall|j: int| 0 <= j < i ==> #[trigger] texts[j] != port_name@,
            decreases names.len() - i,
        {
            if names[i] == wanted {
                proof {
                    assert(texts[i as int] == port_name@);
                    lemma_first_position(texts, port_name@, i as int);
                }
                return self.input_at(nx, i as u8);
            }
            i = i + 1;
        }
        proof {
            match first_position(texts, port_name@) {
                Some(p) => {
                    lemma_first_position_is(texts, port_name@);
                    assert(p >= i);
                },
                None => {},
            }
        }
        None
    }
}

impl Circuit {
    /// The primary inputs, in rising order.
    pub fn inputs(&self) -> (list: Vec<NodeId>)
        requires
            self.wf(),
        ensures
            lists_rising(list@, self@.inputs()),
    {
        let mut list: Vec<NodeId> = Vec::new();
        let n = self.slots.len();
        let mut i: usize = 0;
        let ghost set = self@.inputs();
        while i < n
            invariant
                self.wf(),
                n == self.slots@.len(),
                i <= n,
                set == self@.inputs(),
                forall|a: int, b: int| 0 <= a < b < list@.len() ==> list@[a] < list@[b],
                forall|a: int| 0 <= a < list@.len() ==> set.contains(#[trigger] list@[a] as int) && list@[a] < i,
                forall|v: int| #[trigger] set.contains(v) && v < i ==> list@.contains(v as u32),
            decreases n - i,
        {
            if i <= u32::MAX as usize && self.inputs.contains(&(i as u32)) {
                let ghost before = list@;
                list.push(i as u32);
                assert(list@[list@.len() - 1] == i as u32);
                assert forall|v: int| #[trigger] set.contains(v) && v < i + 1 implies list@.contains(v as u32) by {
                    if v < i {
                        let a = choose|a: int| 0 <= a < before.len() && before[a] == v as u32;
                        assert(list@[a] == v as u32);
                    }
                }
            } else {
                assert(!set.contains(i as int));
            }
            i = i + 1;
        }
        list
    }

    /// The primary outputs, in rising order.
    pub fn outputs(&self) -> (list: Vec<NodeId>)
        requires
            self.wf(),
        ensures
            lists_rising(list@, self@.outputs()),
    {
        let mut list: Vec<NodeId> = Vec::new();
        let n = self.slots.len();
        let mut i: usize = 0;
        let ghost set = self@.outputs();
        while i < n
            invariant
                self.wf(),
                n == self.slots@.len(),
                i <= n,
                set == self@.outputs(),
                forall|a: int, b: int| 0 <= a < b < list@.len() ==> list@[a] < list@[b],
                forall|a: int| 0 <= a < list@.len() ==> set.contains(#[trigger] list@[a] as int) && list@[a] < i,
                forall|v: int| #[trigger] set.contains(v) && v < i ==> list@.contains(v as u32),
            decreases n - i,
        {
            if i <= u32::MAX as usize && self.outputs.contains(&(i as u32)) {
                let ghost before = list@;
                list.push(i as u32);
                assert(list@[list@.len() - 1] == i as u32);
                assert forall|v: int| #[trigger] set.contains(v) && v < i + 1 implies list@.contains(v as u32) by {
                    if v < i {
                        let a = choose|a: int| 0 <= a < before.len() && before[a] == v as u32;
                        assert(list@[a] == v as u32);
                    }
                }
            } else {
                assert(!set.contains(i as int));
            }
            i = i + 1;
        }
        list
    }

    /// The attributes with which the slot `i` is drawn: those of its node,
    /// or the invisible style where its node was removed.
    pub closed spec fn slot_attributes(&self, i: int) -> Seq<char> {
        match self.slots@[i] {
            Some(node) => node_attributes_text(node@),
            None => "style=\"invis\""@,
        }
    }

    /// The content of the drawing of the circuit: one line per node with
    /// its attributes, as [`node_attributes_text`] gives them, and one line
    /// per wire with its attributes, as
    /// [`crate::dot::edge_attributes_text`] gives them, as `petgraph` writes
    /// them.
    pub closed spec fn drawn(&self) -> Seq<char> {
        dot_content(
            self.graph,
            Seq::new(self.slots@.len(), |i: int| self.slot_attributes(i)),
            Seq::new(self.slots@.len(), |i: int| self.slots@[i].is_some() && self.slots@[i].unwrap().secure),
        )
    }

    /// The drawing of the circuit in the `dot` language, as
    /// [`document_text`] frames it, with the primary inputs ranked first and
    /// the primary outputs last.
    pub fn to_dot(&self) -> (text: String)
        requires
            self.wf(),
        ensures
            exists|sources: Seq<NodeId>, sinks: Seq<NodeId>|
                {
                    &&& lists_rising(sources, self@.inputs())
                    &&& lists_rising(sinks, self@.outputs())
                    &&& text@ == #[trigger] document_text(self.drawn(), sources, sinks)
                },
    {
        let n = self.slots.len();
        let mut attributes: Vec<String> = Vec::new();
        let mut secure: Vec<bool> = Vec::new();
        let mut i: usize = 0;
        while i < n
            invariant
                i <= n,
                n == self.slots@.len(),
                attributes@.len() == i,
                secure@.len() == i,
                forall|j: int| 0 <= j < i ==> (#[trigger] attributes@[j])@ == self.slot_attributes(j),
                forall|j: int|
                    0 <= j < i ==> #[trigger] secure@[j] == (self.slots@[j].is_some() && self.slots@[j].unwrap().secure),
            decreases n - i,
        {
            match &self.slots[i] {
                Some(node) => {
                    attributes.push(node_attributes(node));
                    secure.push(node.secure);
                },
                None => {
                    attributes.push("style=\"invis\"".to_owned());
                    secure.push(false);
                },
            }
            i = i + 1;
        }
        proof {
            assert(string_views(attributes@) =~= Seq::new(self.slots@.len(), |i: int| self.slot_attributes(i)));
            assert(secure@ =~= Seq::new(
                self.slots@.len(),
                |i: int| self.slots@[i].is_some() && self.slots@[i].unwrap().secure,
            ));
        }
        let content = wiring_dot(&self.graph, &attributes, &secure);
        let sources = self.inputs();
        let sinks = self.outputs();
        let text = document(content.as_str(), &sources, &sinks);
        proof {
            assert(text@ == document_text(self.drawn(), sources@, sinks@));
        }
        text
    }
}

/// Of each constant there is one node, at the place that the circuit keeps
/// for it.
pub proof fn lemma_one_of_each_constant(c: CircuitView)
    requires
        c.wf(),
    ensures
        c.has_kind(c.zero, NodeKind::Constant(false)),
        c.has_kind(c.one, NodeKind::Constant(true)),
        forall|i: int, value: bool| #[trigger] c.has_kind(i, NodeKind::Constant(value)) ==> i == c.constant(value),
{
    assert(c.has_kind(c.constant(false), NodeKind::Constant(false)));
    assert(c.has_kind(c.constant(true), NodeKind::Constant(true)));
}

/// A node is in a role set exactly when it is of the kind of that set; so
/// no node is in two of them.
pub proof fn lemma_roles_follow_kinds(c: CircuitView, i: int)
    ensures
        c.inputs().contains(i) <==> c.has_kind(i, NodeKind::Input),
        c.clocks().contains(i) <==> c.has_kind(i, NodeKind::Clock),
        c.outputs().contains(i) <==> c.has_kind(i, NodeKind::Output),
        c.registers().contains(i) <==> c.has_kind(i, NodeKind::Register),
        !(c.inputs().contains(i) && c.clocks().contains(i)),
        !(c.inputs().contains(i) && c.outputs().contains(i)),
        !(c.inputs().contains(i) && c.registers().contains(i)),
        !(c.clocks().contains(i) && c.outputs().contains(i)),
        !(c.clocks().contains(i) && c.registers().contains(i)),
        !(c.outputs().contains(i) && c.registers().contains(i)),
{
}

impl Default for Circuit {
    /// A circuit that holds the two constants and nothing else.
    fn default() -> (c: Circuit)
        ensures
            c.wf(),
            c@.nodes.dom() =~= set![c@.zero, c@.one],
            c@.slots =~= set![c@.zero, c@.one],
            c@.edges =~= Map::empty(),
            c@.nodes[c@.zero] == (NodeView { secure: false, kind: NodeKind::Constant(false), name: None }),
            c@.nodes[c@.one] == (NodeView { secure: false, kind: NodeKind::Constant(true), name: None }),
            c@.name == Seq::<char>::empty(),
    {
        Circuit::new()
    }
}

} // verus!
