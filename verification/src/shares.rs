//! Shares: the replicas of a node, the layout of share ports, and the
//! rewriting of one node into its shares.

use vstd::prelude::*;

use crate::circuit::{lemma_links_count, Circuit, CircuitView, Error};
use crate::node::{name_view, GateType, Node, NodeId, NodeKind, NodePortId, NodeType, NodeView};
use crate::reach::reached_from;
use crate::text::{bracket_cut, chars_of, decimal_text, find_bracket, push_all, push_decimal, string_of};
use crate::wiring::{lists_wires_into, reversed};

verus! {

/// Where one share of a node lives: the node that carries it, and what is
/// added to a port number on its output side and on its input side.
#[derive(Clone, Copy, Debug, PartialEq, Eq, Structural)]
pub struct Replica {
    pub node: NodeId,
    pub src_offset: NodePortId,
    pub dst_offset: NodePortId,
}

/// The port that carries `port` for the given share, on a node with
/// `num_ports` ports per share: the shares lie one after another.
pub open spec fn share_port(port: int, share: int, num_ports: int) -> int {
    share * num_ports + port
}

/// Computes the offset of a share's block of ports, `share_port(0, ..)`, if
/// it fits in a port number.
pub fn share_offset(share: u8, num_ports: usize) -> (offset: Option<NodePortId>)
    ensures
        match offset {
            Some(o) => o == share_port(0, share as int, num_ports as int),
            None => share_port(0, share as int, num_ports as int) > u8::MAX,
        },
{
    if share == 0 || num_ports == 0 {
        assert(share as int * num_ports as int == 0) by (nonlinear_arith)
            requires
                share == 0 || num_ports == 0,
        ;
        return Some(0);
    }
    if num_ports > 255 {
        assert(share as int * num_ports as int > 255) by (nonlinear_arith)
            requires
                share >= 1,
                num_ports > 255,
        ;
        return None;
    }
    assert((share as u32) * (num_ports as u32) <= 65025) by (nonlinear_arith)
        requires
            share <= 255,
            num_ports <= 255,
    ;
    let product: u32 = (share as u32) * (num_ports as u32);
    if product > 255 {
        None
    } else {
        Some(product as u8)
    }
}

/// The name of a share: the share number goes in as `_s` and the number,
/// before the last `[` of the name or, where the name has none, at its end.
pub open spec fn share_name(name: Option<Seq<char>>, share: nat) -> Option<Seq<char>> {
    match name {
        None => None,
        Some(n) => {
            let cut = bracket_cut(n, n.len() as int);
            Some(n.subrange(0, cut) + seq!['_', 's'] + decimal_text(share) + n.subrange(cut, n.len() as int))
        },
    }
}

/// Computes [`share_name`].
pub fn make_share_name(name: &Option<String>, share: u8) -> (out: Option<String>)
    ensures
        name_view(out) == share_name(name_view(*name), share as nat),
{
    match name {
        None => None,
        Some(n) => {
            let chars = chars_of(n.as_str());
            let cut = find_bracket(&chars);
            let mut out: Vec<char> = Vec::new();
            push_all(&mut out, &chars, 0, cut);
            out.push('_');
            out.push('s');
            push_decimal(&mut out, share as usize);
            push_all(&mut out, &chars, cut, chars.len());
            assert(out@ =~= chars@.subrange(0, cut as int) + seq!['_', 's'] + decimal_text(share as nat)
                + chars@.subrange(cut as int, chars@.len() as int));
            Some(string_of(&out))
        },
    }
}

/// The node of the `j`-th replica is `r`.
pub open spec fn is_replica_of(replicas: Seq<Replica>, r: int) -> bool {
    exists|j: int| 0 <= j < replicas.len() && (#[trigger] replicas[j]).node == r
}

impl CircuitView {
    /// The secure primary outputs.
    pub open spec fn secure_outputs(self) -> Set<int> {
        self.secure_among(self.outputs())
    }

    /// The node `v` is to be rewritten: it is secure, and a secure primary
    /// output is reached from it.
    pub open spec fn to_rewrite(self, v: int) -> bool {
        self.is_secure(v) && reached_from(reversed(self.edges), self.secure_outputs(), v)
    }

    /// Nodes of this kind can be rewritten into shares.
    pub open spec fn expandable(self, v: int) -> bool {
        match self.nodes[v].kind {
            NodeKind::Input | NodeKind::Output | NodeKind::Register | NodeKind::Gate(_, _) => true,
            _ => false,
        }
    }

    /// The edge indices of the wires into `v`.
    pub open spec fn wires_into(self, v: int) -> Set<int> {
        self.edges.dom().filter(|e: int| self.edges[e].dst == v)
    }

    /// Every wire into `v` comes from a secure node.
    pub open spec fn all_inputs_secure(self, v: int) -> bool {
        forall|e: int| #[trigger] self.edges.contains_key(e) && self.edges[e].dst == v ==> self.is_secure(self.edges[e].src)
    }

    /// The node `v` is replaced by a gadget rather than replicated: it is a
    /// gate of a non-linear family, and all its inputs are secure.
    pub open spec fn becomes_gadget(self, v: int) -> bool {
        match self.nodes[v].kind {
            NodeKind::Gate(gate, _) => !gate.is_linear() && self.all_inputs_secure(v),
            _ => false,
        }
    }

    /// `post` is this circuit after the node `nx` was replicated into
    /// `replicas`: one new secure node per replica, of the kind of `nx`
    /// without its inversion and with the name of its share, share numbers
    /// starting at 1; `nx` itself takes the name of share 0; no port offsets;
    /// and nothing else differs.
    pub open spec fn replicated(self, post: CircuitView, nx: int, replicas: Seq<Replica>) -> bool {
        &&& post.name == self.name
        &&& post.zero == self.zero
        &&& post.one == self.one
        &&& post.edges == self.edges
        &&& forall|j: int|
            0 <= j < replicas.len() ==> {
                &&& (#[trigger] replicas[j]).src_offset == 0
                &&& replicas[j].dst_offset == 0
                &&& !self.slots.contains(replicas[j].node as int)
                &&& post.nodes.contains_key(replicas[j].node as int)
                &&& post.nodes[replicas[j].node as int] == (NodeView {
                    secure: true,
                    kind: self.nodes[nx].kind.without_inversion(),
                    name: share_name(self.nodes[nx].name, (j + 1) as nat),
                })
            }
        &&& forall|j1: int, j2: int|
            0 <= j1 < j2 < replicas.len() ==> (#[trigger] replicas[j1]).node != (#[trigger] replicas[j2]).node
        &&& forall|i: int| #[trigger]
            self.nodes.contains_key(i) ==> post.nodes.contains_key(i) && post.nodes[i] == (if i == nx {
                NodeView { name: share_name(self.nodes[nx].name, 0), ..self.nodes[nx] }
            } else {
                self.nodes[i]
            })
        &&& forall|b: int| #[trigger]
            post.nodes.contains_key(b) ==> self.nodes.contains_key(b) || is_replica_of(replicas, b)
        &&& forall|b: int| #[trigger]
            post.slots.contains(b) <==> self.slots.contains(b) || is_replica_of(replicas, b)
    }

    /// `replicas` places the shares of the gadget that takes the place of
    /// gate `nx`: all on `nx` itself, share `s` one port up on the output
    /// side and as many ports up on the input side as `nx` has wires into
    /// it, times `s`.
    pub open spec fn gadget_table(self, nx: int, replicas: Seq<Replica>) -> bool {
        forall|j: int|
            0 <= j < replicas.len() ==> {
                &&& (#[trigger] replicas[j]).node == nx
                &&& replicas[j].src_offset == share_port(0, j + 1, 1)
                &&& replicas[j].dst_offset == share_port(0, j + 1, self.wires_into(nx).len() as int)
            }
    }

    /// `post` is this circuit with gate `nx` turned into a gadget on
    /// `num_shares` shares.
    pub open spec fn with_gadget(self, post: CircuitView, nx: int, num_shares: u8) -> bool {
        post == (CircuitView {
            nodes: self.nodes.insert(
                nx,
                NodeView { kind: self.nodes[nx].kind.as_gadget(num_shares), ..self.nodes[nx] },
            ),
            ..self
        })
    }
}

impl Circuit {
    /// Replicates the node `nx` into one new node per share beyond the
    /// first, as [`CircuitView::replicated`] describes, and returns where
    /// the shares live. Nothing is changed when there is no such node, when
    /// it is a constant, or when the indices would not suffice.
    pub fn replicate_node(&mut self, num_shares: u8, nx: NodeId) -> (r: Result<Vec<Replica>, Error>)
        requires
            old(self).wf(),
            num_shares >= 1,
        ensures
            final(self).wf(),
            match r {
                Ok(replicas) => {
                    &&& old(self)@.nodes.contains_key(nx as int)
                    &&& !(old(self)@.nodes[nx as int].kind is Constant)
                    &&& old(self)@.slots.len() + num_shares - 1 < u32::MAX
                    &&& replicas@.len() == num_shares - 1
                    &&& old(self)@.replicated(final(self)@, nx as int, replicas@)
                    &&& final(self)@.slots.len() == old(self)@.slots.len() + num_shares - 1
                },
                Err(e) => {
                    &&& final(self)@ == old(self)@
                    &&& if !old(self)@.nodes.contains_key(nx as int) {
                        e == Error::NodeNotFound(nx)
                    } else if old(self)@.nodes[nx as int].kind is Constant {
                        e is DuplicateConstant
                    } else {
                        e is CapacityExceeded && old(self)@.slots.len() + num_shares - 1 >= u32::MAX
                    }
                },
            },
    {
        if !self.contains(nx) {
            return Err(Error::NodeNotFound(nx));
        }
        if let NodeType::Constant(_) = self.node(nx).node_type {
            return Err(Error::DuplicateConstant);
        }
        let count = self.slot_count();
        let limit = u32::MAX as usize;
        if count >= limit || (num_shares - 1) as usize >= limit - count {
            return Err(Error::CapacityExceeded);
        }
        let ghost pre = self@;
        proof {
            self.lemma_view_wf();
        }
        let original = self.node(nx).duplicate();
        let kind = match original.node_type {
            NodeType::Gate(gate, _) => NodeType::Gate(gate, false),
            other => other,
        };
        let mut replicas: Vec<Replica> = Vec::new();
        let mut share: u8 = 1;
        while share < num_shares
            invariant
                self.wf(),
                pre.wf(),
                1 <= share <= num_shares,
                replicas@.len() == share - 1,
                pre.nodes.contains_key(nx as int),
                name_view(original.name) == pre.nodes[nx as int].name,
                kind@ == pre.nodes[nx as int].kind.without_inversion(),
                !(kind@ is Constant),
                pre.slots.len() + num_shares - 1 < u32::MAX,
                self@.slots.len() == pre.slots.len() + share - 1,
                self@.name == pre.name,
                self@.zero == pre.zero,
                self@.one == pre.one,
                self@.edges == pre.edges,
                forall|j: int|
                    0 <= j < replicas@.len() ==> {
                        &&& (#[trigger] replicas@[j]).src_offset == 0
                        &&& replicas@[j].dst_offset == 0
                        &&& !pre.slots.contains(replicas@[j].node as int)
                        &&& self@.nodes.contains_key(replicas@[j].node as int)
                        &&& self@.nodes[replicas@[j].node as int] == (NodeView {
                            secure: true,
                            kind: pre.nodes[nx as int].kind.without_inversion(),
                            name: share_name(pre.nodes[nx as int].name, (j + 1) as nat),
                        })
                    },
                forall|j1: int, j2: int|
                    0 <= j1 < j2 < replicas@.len() ==> (#[trigger] replicas@[j1]).node != (
                    #[trigger] replicas@[j2]).node,
                forall|i: int| #[trigger]
                    pre.nodes.contains_key(i) ==> self@.nodes.contains_key(i) && self@.nodes[i] == pre.nodes[i],
                forall|b: int| #[trigger]
                    self@.nodes.contains_key(b) ==> pre.nodes.contains_key(b) || is_replica_of(replicas@, b),
                forall|b: int| #[trigger]
                    self@.slots.contains(b) <==> pre.slots.contains(b) || is_replica_of(replicas@, b),
            decreases num_shares - share,
        {
            let ghost mid = self@;
            let ghost before = replicas@;
            proof {
                self.lemma_view_wf();
            }
            let name = make_share_name(&original.name, share);
            let node = Node { secure: true, node_type: kind.duplicate(), name };
            let r = match self.add_node(node) {
                Ok(r) => r,
                Err(err) => {
                    assert(false);
                    return Err(err);
                },
            };
            replicas.push(Replica { node: r, src_offset: 0, dst_offset: 0 });
            proof {
                let after = replicas@;
                assert(after[share - 1].node == r);
                assert forall|b: int| is_replica_of(before, b) implies is_replica_of(after, b) by {
                    let j = choose|j: int| 0 <= j < before.len() && (#[trigger] before[j]).node == b;
                    assert(after[j].node == b);
                }
                assert(is_replica_of(after, r as int));
                assert forall|b: int| is_replica_of(after, b) implies b == r as int || is_replica_of(before, b) by {
                    let j = choose|j: int| 0 <= j < after.len() && (#[trigger] after[j]).node == b;
                    if j < before.len() {
                        assert(before[j].node == b);
                    }
                }
                assert forall|j: int| 0 <= j < after.len() implies {
                    &&& (#[trigger] after[j]).src_offset == 0
                    &&& after[j].dst_offset == 0
                    &&& !pre.slots.contains(after[j].node as int)
                    &&& self@.nodes.contains_key(after[j].node as int)
                    &&& self@.nodes[after[j].node as int] == (NodeView {
                        secure: true,
                        kind: pre.nodes[nx as int].kind.without_inversion(),
                        name: share_name(pre.nodes[nx as int].name, (j + 1) as nat),
                    })
                } by {
                    if j < before.len() {
                        assert(after[j] == before[j]);
                        assert(is_replica_of(before, before[j].node as int));
                        assert(mid.slots.contains(before[j].node as int));
                    }
                }
                assert forall|j1: int, j2: int| 0 <= j1 < j2 < after.len() implies (#[trigger] after[j1]).node != (
                #[trigger] after[j2]).node by {
                    if j2 < before.len() {
                        assert(after[j1] == before[j1] && after[j2] == before[j2]);
                    } else {
                        assert(after[j1] == before[j1]);
                        assert(is_replica_of(before, before[j1].node as int));
                        assert(mid.slots.contains(before[j1].node as int));
                    }
                }
                assert forall|i: int| #[trigger] pre.nodes.contains_key(i) implies self@.nodes.contains_key(i)
                    && self@.nodes[i] == pre.nodes[i] by {
                    assert(pre.slots.contains(i));
                    assert(mid.slots.contains(i));
                }
            }
            share = share + 1;
        }
        let ghost mid = self@;
        let renamed = make_share_name(&original.name, 0);
        self.set_node_name(nx, renamed);
        proof {
            let post = self@;
            assert forall|j: int| 0 <= j < replicas@.len() implies post.nodes.contains_key(
                (#[trigger] replicas@[j]).node as int,
            ) && post.nodes[replicas@[j].node as int] == mid.nodes[replicas@[j].node as int] by {
                assert(pre.slots.contains(nx as int));
            }
        }
        Ok(replicas)
    }
}

impl Circuit {
    /// Whether every wire into `nx` comes from a secure node.
    pub fn has_secure_inputs(&self, nx: NodeId) -> (all: bool)
        requires
            self.wf(),
        ensures
            all == self@.all_inputs_secure(nx as int),
    {
        proof {
            self.lemma_view_wf();
        }
        let links = self.incoming(nx);
        let mut j: usize = 0;
        while j < links.len()
            invariant
                self.wf(),
                self@.wf(),
                j <= links@.len(),
                lists_wires_into(links@, self@.edges, nx as int),
                forall|a: int| 0 <= a < j ==> self@.is_secure((#[trigger] links@[a]).node as int),
            decreases links.len() - j,
        {
            assert(self@.edges.contains_key(links@[j as int].edge as int));
            if !self.node(links[j].node).secure {
                return false;
            }
            j = j + 1;
        }
        proof {
            assert forall|e: int| #[trigger] self@.edges.contains_key(e) && self@.edges[e].dst == nx as int implies self@.is_secure(
                self@.edges[e].src,
            ) by {
                let a = choose|a: int| 0 <= a < links@.len() && (#[trigger] links@[a]).edge == e;
                assert(self@.is_secure(links@[a].node as int));
            }
        }
        true
    }

    /// Rewrites gate `nx` for masking: into a gadget on `num_shares`
    /// shares where its family is not linear and all its inputs are secure,
    /// and into replicas otherwise. Returns where the shares live. Nothing is
    /// changed when there is no such node, when it is no gate, when a
    /// gadget's share ports would not fit in a port number, or when the
    /// indices would not suffice for the replicas.
    pub fn replace_gate_with_gadget(&mut self, num_shares: u8, nx: NodeId) -> (r: Result<Vec<Replica>, Error>)
        requires
            old(self).wf(),
            num_shares >= 1,
        ensures
            final(self).wf(),
            match r {
                Ok(replicas) => {
                    &&& old(self)@.nodes.contains_key(nx as int)
                    &&& old(self)@.nodes[nx as int].kind is Gate
                    &&& replicas@.len() == num_shares - 1
                    &&& if old(self)@.becomes_gadget(nx as int) {
                        &&& old(self)@.gadget_table(nx as int, replicas@)
                        &&& old(self)@.with_gadget(final(self)@, nx as int, num_shares)
                        &&& share_port(0, num_shares - 1, old(self)@.wires_into(nx as int).len() as int) <= u8::MAX
                    } else {
                        &&& old(self)@.replicated(final(self)@, nx as int, replicas@)
                        &&& old(self)@.slots.len() + num_shares - 1 < u32::MAX
                        &&& final(self)@.slots.len() == old(self)@.slots.len() + num_shares - 1
                    }
                },
                Err(e) => {
                    &&& final(self)@ == old(self)@
                    &&& if !old(self)@.nodes.contains_key(nx as int) {
                        e == Error::NodeNotFound(nx)
                    } else if !(old(self)@.nodes[nx as int].kind is Gate) {
                        e == Error::NotExpandable(nx)
                    } else if old(self)@.becomes_gadget(nx as int) {
                        e == Error::PortOverflow(nx) && share_port(
                            0,
                            num_shares - 1,
                            old(self)@.wires_into(nx as int).len() as int,
                        ) > u8::MAX
                    } else {
                        e is CapacityExceeded && old(self)@.slots.len() + num_shares - 1 >= u32::MAX
                    }
                },
            },
    {
        if !self.contains(nx) {
            return Err(Error::NodeNotFound(nx));
        }
        let linear = match self.node(nx).node_type {
            NodeType::Gate(GateType::Buf, _) | NodeType::Gate(GateType::Xor(_), _) => true,
            NodeType::Gate(_, _) => false,
            _ => {
                return Err(Error::NotExpandable(nx));
            },
        };
        if linear || !self.has_secure_inputs(nx) {
            return self.replicate_node(num_shares, nx);
        }
        proof {
            self.lemma_view_wf();
        }
        let links = self.incoming(nx);
        let num_in = links.len();
        proof {
            lemma_links_count(links@, self@.edges, nx as int);
        }
        let ghost width = self@.wires_into(nx as int).len() as int;
        let mut replicas: Vec<Replica> = Vec::new();
        let mut share: u8 = 1;
        while share < num_shares
            invariant
                self.wf(),
                self@ == old(self)@,
                self@.nodes.contains_key(nx as int),
                self@.nodes[nx as int].kind is Gate,
                self@.becomes_gadget(nx as int),
                width == self@.wires_into(nx as int).len(),
                1 <= share <= num_shares,
                replicas@.len() == share - 1,
                width == num_in,
                forall|j: int|
                    0 <= j < replicas@.len() ==> {
                        &&& (#[trigger] replicas@[j]).node == nx
                        &&& replicas@[j].src_offset == share_port(0, j + 1, 1)
                        &&& replicas@[j].dst_offset == share_port(0, j + 1, width)
                    },
                share > 1 ==> share_port(0, share - 1, width) <= u8::MAX,
            decreases num_shares - share,
        {
            let dst_offset = match share_offset(share, num_in) {
                Some(o) => o,
                None => {
                    assert(share_port(0, num_shares - 1, width) > u8::MAX) by (nonlinear_arith)
                        requires
                            share_port(0, share as int, width) > u8::MAX,
                            share <= num_shares - 1,
                            width >= 0,
                    ;
                    return Err(Error::PortOverflow(nx));
                },
            };
            assert(share_port(0, share as int, 1) == share) by (nonlinear_arith);
            replicas.push(Replica { node: nx, src_offset: share, dst_offset });
            share = share + 1;
        }
        assert(share_port(0, num_shares - 1, width) <= u8::MAX) by {
            if num_shares == 1 {
                assert(share_port(0, 0, width) == 0) by (nonlinear_arith);
            }
        }
        self.make_gadget(nx, num_shares);
        Ok(replicas)
    }
}

/// Where the shares of the rewritten nodes live: for each such node, one
/// [`Replica`] per share beyond the first.
pub struct Shares {
    tables: Vec<Option<Vec<Replica>>>,
}

impl View for Shares {
    type V = Map<int, Seq<Replica>>;

    closed spec fn view(&self) -> Map<int, Seq<Replica>> {
        Map::new(
            |v: int| 0 <= v < self.tables@.len() && self.tables@[v].is_some(),
            |v: int| self.tables@[v].unwrap()@,
        )
    }
}

impl Shares {
    /// No node has shares.
    pub fn new() -> (shares: Shares)
        ensures
            shares@ =~= Map::empty(),
    {
        Shares { tables: Vec::new() }
    }

    /// Records the shares of the node `v`.
    pub fn insert(&mut self, v: NodeId, replicas: Vec<Replica>)
        ensures
            final(self)@ == old(self)@.insert(v as int, replicas@),
    {
        while self.tables.len() <= v as usize
            invariant
                self.tables@.len() >= old(self).tables@.len(),
                forall|i: int| 0 <= i < old(self).tables@.len() ==> self.tables@[i] == old(self).tables@[i],
                forall|i: int| old(self).tables@.len() <= i < self.tables@.len() ==> self.tables@[i].is_none(),
            decreases v + 1 - self.tables.len(),
        {
            self.tables.push(None);
        }
        self.tables.set(v as usize, Some(replicas));
        assert(self@ =~= old(self)@.insert(v as int, replicas@));
    }

    /// The shares of the node `v`, if it was rewritten.
    pub fn get(&self, v: NodeId) -> (replicas: Option<&Vec<Replica>>)
        ensures
            match replicas {
                Some(r) => self@.contains_key(v as int) && r@ == self@[v as int],
                None => !self@.contains_key(v as int),
            },
    {
        if (v as usize) < self.tables.len() {
            self.tables[v as usize].as_ref()
        } else {
            None
        }
    }
}

} // verus!
