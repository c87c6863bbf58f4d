//! The node model: gate families, node kinds, and nodes.

use vstd::prelude::*;
use vstd::string::*;

use crate::text::{chars_of, matches_ignoring_case, parse_number, parse_unsigned, same_ignoring_case};

verus! {

/// A port of a node. Input ports and output ports are numbered separately.
pub type NodePortId = u8;

/// The index of a node in a circuit.
pub type NodeId = u32;

/// A gate family. `And`, `Or` and `Xor` carry an arity tag.
#[derive(Clone, Copy, PartialEq, Eq, Debug, Hash, Structural)]
pub enum GateType {
    And(u8),
    Buf,
    Or(u8),
    Mux,
    Xor(u8),
}

/// The coarse class of a gate family, without the arity tag.
#[derive(Clone, Copy, PartialEq, Eq, Debug, Hash, Structural)]
pub enum Family {
    And,
    Buf,
    Or,
    Mux,
    Xor,
}

impl GateType {
    /// The family of this gate.
    pub open spec fn family(self) -> Family {
        match self {
            GateType::And(_) => Family::And,
            GateType::Buf => Family::Buf,
            GateType::Or(_) => Family::Or,
            GateType::Mux => Family::Mux,
            GateType::Xor(_) => Family::Xor,
        }
    }

    /// A family is linear when masking may treat each share on its own.
    pub open spec fn is_linear(self) -> bool {
        self.family() == Family::Buf || self.family() == Family::Xor
    }

    /// The canonical upper-case name of the family.
    pub open spec fn name_text(self) -> Seq<char> {
        match self {
            GateType::And(_) => "AND"@,
            GateType::Buf => "BUF"@,
            GateType::Or(_) => "OR"@,
            GateType::Mux => "MUX"@,
            GateType::Xor(_) => "XOR"@,
        }
    }

    /// The name of the family with its output inverted.
    pub open spec fn inverted_alias_text(self) -> Seq<char> {
        match self {
            GateType::And(_) => "NAND"@,
            GateType::Buf => "NOT"@,
            GateType::Or(_) => "NOR"@,
            GateType::Mux => "NMUX"@,
            GateType::Xor(_) => "XNOR"@,
        }
    }

    /// The family that `name` denotes, ignoring case; arity tags are 0.
    pub open spec fn of_name(name: Seq<char>) -> Option<GateType> {
        if same_ignoring_case(name, "AND"@) {
            Some(GateType::And(0))
        } else if same_ignoring_case(name, "BUF"@) {
            Some(GateType::Buf)
        } else if same_ignoring_case(name, "OR"@) {
            Some(GateType::Or(0))
        } else if same_ignoring_case(name, "MUX"@) {
            Some(GateType::Mux)
        } else if same_ignoring_case(name, "XOR"@) {
            Some(GateType::Xor(0))
        } else {
            None
        }
    }

    /// The family that an inverted alias denotes, ignoring case.
    pub open spec fn of_inverted_name(name: Seq<char>) -> Option<GateType> {
        if same_ignoring_case(name, "NOT"@) {
            Some(GateType::Buf)
        } else if same_ignoring_case(name, "XNOR"@) {
            Some(GateType::Xor(0))
        } else if same_ignoring_case(name, "NAND"@) {
            Some(GateType::And(0))
        } else if same_ignoring_case(name, "NOR"@) {
            Some(GateType::Or(0))
        } else {
            None
        }
    }

    /// The canonical name: `AND`, `BUF`, `OR`, `MUX` or `XOR`.
    pub fn name(&self) -> (s: String)
        ensures
            s@ == self.name_text(),
    {
        match self {
            GateType::And(_) => "AND".to_owned(),
            GateType::Buf => "BUF".to_owned(),
            GateType::Or(_) => "OR".to_owned(),
            GateType::Mux => "MUX".to_owned(),
            GateType::Xor(_) => "XOR".to_owned(),
        }
    }

    /// The name under which the inverted gate goes: `NOT` for a buffer,
    /// `XNOR` for exclusive-or, and `N` before the canonical name otherwise.
    pub fn inverted_alias(&self) -> (s: String)
        ensures
            s@ == self.inverted_alias_text(),
    {
        match self {
            GateType::And(_) => "NAND".to_owned(),
            GateType::Buf => "NOT".to_owned(),
            GateType::Or(_) => "NOR".to_owned(),
            GateType::Mux => "NMUX".to_owned(),
            GateType::Xor(_) => "XNOR".to_owned(),
        }
    }

    /// Reads a canonical family name, ignoring case.
    pub fn from_name(name: &Vec<char>) -> (gate: Option<GateType>)
        ensures
            gate == GateType::of_name(name@),
    {
        if matches_ignoring_case(name, "AND") {
            Some(GateType::And(0))
        } else if matches_ignoring_case(name, "BUF") {
            Some(GateType::Buf)
        } else if matches_ignoring_case(name, "OR") {
            Some(GateType::Or(0))
        } else if matches_ignoring_case(name, "MUX") {
            Some(GateType::Mux)
        } else if matches_ignoring_case(name, "XOR") {
            Some(GateType::Xor(0))
        } else {
            None
        }
    }

    /// Reads an inverted alias, ignoring case.
    pub fn from_inverted_name(name: &Vec<char>) -> (gate: Option<GateType>)
        ensures
            gate == GateType::of_inverted_name(name@),
    {
        if matches_ignoring_case(name, "NOT") {
            Some(GateType::Buf)
        } else if matches_ignoring_case(name, "XNOR") {
            Some(GateType::Xor(0))
        } else if matches_ignoring_case(name, "NAND") {
            Some(GateType::And(0))
        } else if matches_ignoring_case(name, "NOR") {
            Some(GateType::Or(0))
        } else {
            None
        }
    }
}

/// The ports of a cell that is not resolved to a gate.
#[derive(Clone, PartialEq, Debug, Default)]
pub struct Blackbox {
    pub inputs: Vec<String>,
    pub outputs: Vec<String>,
}

/// What a node is.
#[derive(Clone, PartialEq, Eq, Hash, Debug)]
pub enum NodeType {
    Input,
    Clock,
    Reset,
    Gate(GateType, bool),
    Gadget { base_type: GateType, invert: bool, num_shares: u8 },
    Blackbox(String),
    Register,
    Output,
    Constant(bool),
}

/// The mathematical value of a [`NodeType`].
pub enum NodeKind {
    Input,
    Clock,
    Reset,
    Gate(GateType, bool),
    Gadget { base_type: GateType, invert: bool, num_shares: u8 },
    Blackbox(Seq<char>),
    Register,
    Output,
    Constant(bool),
}

impl View for NodeType {
    type V = NodeKind;

    open spec fn view(&self) -> NodeKind {
        match *self {
            NodeType::Input => NodeKind::Input,
            NodeType::Clock => NodeKind::Clock,
            NodeType::Reset => NodeKind::Reset,
            NodeType::Gate(gate, inverted) => NodeKind::Gate(gate, inverted),
            NodeType::Gadget { base_type, invert, num_shares } => NodeKind::Gadget {
                base_type,
                invert,
                num_shares,
            },
            NodeType::Blackbox(name) => NodeKind::Blackbox(name@),
            NodeType::Register => NodeKind::Register,
            NodeType::Output => NodeKind::Output,
            NodeType::Constant(value) => NodeKind::Constant(value),
        }
    }
}

impl NodeKind {
    /// The kind that a short cell name denotes. `DFF` is a register; a family
    /// name or an inverted alias is a gate; a decimal number is a constant,
    /// true unless the number is zero; any other name is a black box of that
    /// name. Letter case does not matter.
    pub open spec fn of_name(name: Seq<char>) -> NodeKind {
        if same_ignoring_case(name, "DFF"@) {
            NodeKind::Register
        } else if GateType::of_name(name).is_some() {
            NodeKind::Gate(GateType::of_name(name).unwrap(), false)
        } else if GateType::of_inverted_name(name).is_some() {
            NodeKind::Gate(GateType::of_inverted_name(name).unwrap(), true)
        } else if parse_number(name, 10).is_some() {
            NodeKind::Constant(parse_number(name, 10).unwrap() != 0)
        } else {
            NodeKind::Blackbox(name)
        }
    }

    /// The text shown for a kind.
    pub open spec fn text(self) -> Seq<char> {
        match self {
            NodeKind::Input => "IN"@,
            NodeKind::Clock => "CLOCK"@,
            NodeKind::Reset => "Reset"@,
            NodeKind::Gate(gate, inverted) => if inverted {
                gate.inverted_alias_text()
            } else {
                gate.name_text()
            },
            NodeKind::Gadget { base_type, invert, num_shares } => (if invert {
                base_type.inverted_alias_text()
            } else {
                base_type.name_text()
            }) + " Gadget"@,
            NodeKind::Blackbox(name) => name,
            NodeKind::Register => "FF"@,
            NodeKind::Output => "OUT"@,
            NodeKind::Constant(value) => if value {
                "1"@
            } else {
                "0"@
            },
        }
    }

    /// Kinds that take inputs from other nodes.
    pub open spec fn has_input(self) -> bool {
        self is Gate || self is Register || self is Output
    }

    /// Kinds that drive other nodes.
    pub open spec fn has_output(self) -> bool {
        self is Input || self is Clock || self is Gate || self is Register || self is Constant
    }

    /// The same kind with a gate's output inversion cleared.
    pub open spec fn without_inversion(self) -> NodeKind {
        match self {
            NodeKind::Gate(gate, _) => NodeKind::Gate(gate, false),
            other => other,
        }
    }

    /// The same kind with a gate's output inversion flipped.
    pub open spec fn flipped(self) -> NodeKind {
        match self {
            NodeKind::Gate(gate, inverted) => NodeKind::Gate(gate, !inverted),
            other => other,
        }
    }

    /// The gadget that takes the place of a gate, with that gate's family and
    /// inversion.
    pub open spec fn as_gadget(self, num_shares: u8) -> NodeKind {
        match self {
            NodeKind::Gate(gate, inverted) => NodeKind::Gadget {
                base_type: gate,
                invert: inverted,
                num_shares,
            },
            other => other,
        }
    }

    /// A gate of the `Or` family.
    pub open spec fn is_or_gate(self) -> bool {
        match self {
            NodeKind::Gate(gate, _) => gate.family() == Family::Or,
            _ => false,
        }
    }
}

impl NodeType {
    /// Resolves a short cell name to a node kind, as [`NodeKind::of_name`]
    /// describes.
    pub fn from_str(s: &str) -> (kind: NodeType)
        ensures
            kind@ == NodeKind::of_name(s@),
    {
        let chars = chars_of(s);
        if matches_ignoring_case(&chars, "DFF") {
            return NodeType::Register;
        }
        if let Some(gate) = GateType::from_name(&chars) {
            return NodeType::Gate(gate, false);
        }
        if let Some(gate) = GateType::from_inverted_name(&chars) {
            return NodeType::Gate(gate, true);
        }
        if let Some(value) = parse_unsigned(&chars, 10) {
            return NodeType::Constant(value != 0);
        }
        NodeType::Blackbox(s.to_owned())
    }

    /// The text shown for this kind.
    pub fn to_string(&self) -> (s: String)
        ensures
            s@ == self@.text(),
    {
        match self {
            NodeType::Input => "IN".to_owned(),
            NodeType::Clock => "CLOCK".to_owned(),
            NodeType::Reset => "Reset".to_owned(),
            NodeType::Gate(gate, inverted) => if *inverted {
                gate.inverted_alias()
            } else {
                gate.name()
            },
            NodeType::Gadget { base_type, invert, num_shares } => {
                let base = if *invert {
                    base_type.inverted_alias()
                } else {
                    base_type.name()
                };
                base.concat(" Gadget")
            },
            NodeType::Blackbox(name) => name.clone(),
            NodeType::Register => "FF".to_owned(),
            NodeType::Output => "OUT".to_owned(),
            NodeType::Constant(value) => if *value {
                "1".to_owned()
            } else {
                "0".to_owned()
            },
        }
    }

    /// Whether nodes of this kind take inputs.
    pub fn has_input(&self) -> (b: bool)
        ensures
            b == self@.has_input(),
    {
        match self {
            NodeType::Gate(_, _) | NodeType::Register | NodeType::Output => true,
            _ => false,
        }
    }

    /// Whether nodes of this kind drive other nodes.
    pub fn has_output(&self) -> (b: bool)
        ensures
            b == self@.has_output(),
    {
        match self {
            NodeType::Input
            | NodeType::Clock
            | NodeType::Gate(_, _)
            | NodeType::Register
            | NodeType::Constant(_) => true,
            _ => false,
        }
    }

    /// A copy of this kind.
    pub fn duplicate(&self) -> (copy: NodeType)
        ensures
            copy@ == self@,
    {
        match self {
            NodeType::Input => NodeType::Input,
            NodeType::Clock => NodeType::Clock,
            NodeType::Reset => NodeType::Reset,
            NodeType::Gate(gate, inverted) => NodeType::Gate(*gate, *inverted),
            NodeType::Gadget { base_type, invert, num_shares } => NodeType::Gadget {
                base_type: *base_type,
                invert: *invert,
                num_shares: *num_shares,
            },
            NodeType::Blackbox(name) => NodeType::Blackbox(name.clone()),
            NodeType::Register => NodeType::Register,
            NodeType::Output => NodeType::Output,
            NodeType::Constant(value) => NodeType::Constant(*value),
        }
    }
}

/// `1` for true and `0` for false.
pub fn bool_to_int(v: bool) -> (n: u8)
    ensures
        n == if v { 1u8 } else { 0u8 },
{
    if v {
        1
    } else {
        0
    }
}

/// A node of a circuit.
#[derive(Clone, Debug)]
pub struct Node {
    /// Whether the node carries secret-dependent data.
    pub secure: bool,
    pub node_type: NodeType,
    pub name: Option<String>,
}

/// The mathematical value of a [`Node`].
pub struct NodeView {
    pub secure: bool,
    pub kind: NodeKind,
    pub name: Option<Seq<char>>,
}

/// The view of an optional name.
pub open spec fn name_view(name: Option<String>) -> Option<Seq<char>> {
    match name {
        Some(s) => Some(s@),
        None => None,
    }
}

impl View for Node {
    type V = NodeView;

    open spec fn view(&self) -> NodeView {
        NodeView { secure: self.secure, kind: self.node_type@, name: name_view(self.name) }
    }
}

impl Node {
    /// A node of the given kind, not secure and without a name.
    pub fn new(node_type: NodeType) -> (node: Node)
        ensures
            node@ == (NodeView { secure: false, kind: node_type@, name: None }),
    {
        Node { secure: false, node_type, name: None }
    }

    /// The constant source of `value`.
    pub fn constant(value: bool) -> (node: Node)
        ensures
            node@ == (NodeView { secure: false, kind: NodeKind::Constant(value), name: None }),
    {
        Node { secure: false, node_type: NodeType::Constant(value), name: None }
    }

    /// A copy of this node.
    pub fn duplicate(&self) -> (copy: Node)
        ensures
            copy@ == self@,
    {
        let name = match &self.name {
            Some(s) => Some(s.clone()),
            None => None,
        };
        Node { secure: self.secure, node_type: self.node_type.duplicate(), name }
    }
}

impl NodeType {
    /// Whether two kinds are the same.
    pub fn same_as(&self, other: &NodeType) -> (same: bool)
        ensures
            same == (self@ == other@),
    {
        match (self, other) {
            (NodeType::Input, NodeType::Input) => true,
            (NodeType::Clock, NodeType::Clock) => true,
            (NodeType::Reset, NodeType::Reset) => true,
            (NodeType::Gate(a, x), NodeType::Gate(b, y)) => *a == *b && *x == *y,
            (
                NodeType::Gadget { base_type: a, invert: x, num_shares: m },
                NodeType::Gadget { base_type: b, invert: y, num_shares: n },
            ) => *a == *b && *x == *y && *m == *n,
            (NodeType::Blackbox(a), NodeType::Blackbox(b)) => *a == *b,
            (NodeType::Register, NodeType::Register) => true,
            (NodeType::Output, NodeType::Output) => true,
            (NodeType::Constant(a), NodeType::Constant(b)) => *a == *b,
            _ => false,
        }
    }
}

/// Builds a node field by field. The kind must be set; the secure flag is
/// off and the name is absent unless set.
#[derive(Clone, Debug, Default)]
pub struct NodeBuilder {
    secure: Option<bool>,
    node_type: Option<NodeType>,
    name: Option<Option<String>>,
}

impl NodeBuilder {
    /// The secure flag that the builder holds, if one was set.
    pub closed spec fn held_secure(&self) -> Option<bool> {
        self.secure
    }

    /// The kind that the builder holds, if one was set.
    pub closed spec fn held_kind(&self) -> Option<NodeKind> {
        match self.node_type {
            Some(kind) => Some(kind@),
            None => None,
        }
    }

    /// The name that the builder holds, if one was set.
    pub closed spec fn held_name(&self) -> Option<Option<Seq<char>>> {
        match self.name {
            Some(name) => Some(name_view(name)),
            None => None,
        }
    }

    /// A builder that holds nothing.
    pub fn new() -> (builder: NodeBuilder)
        ensures
            builder.held_secure().is_none(),
            builder.held_kind().is_none(),
            builder.held_name().is_none(),
    {
        NodeBuilder { secure: None, node_type: None, name: None }
    }

    /// Sets the secure flag.
    pub fn secure(self, secure: bool) -> (builder: NodeBuilder)
        ensures
            builder.held_secure() == Some(secure),
            builder.held_kind() == self.held_kind(),
            builder.held_name() == self.held_name(),
    {
        NodeBuilder { secure: Some(secure), node_type: self.node_type, name: self.name }
    }

    /// Sets the kind.
    pub fn node_type(self, node_type: NodeType) -> (builder: NodeBuilder)
        ensures
            builder.held_secure() == self.held_secure(),
            builder.held_kind() == Some(node_type@),
            builder.held_name() == self.held_name(),
    {
        NodeBuilder { secure: self.secure, node_type: Some(node_type), name: self.name }
    }

    /// Sets the name.
    pub fn name(self, name: Option<String>) -> (builder: NodeBuilder)
        ensures
            builder.held_secure() == self.held_secure(),
            builder.held_kind() == self.held_kind(),
            builder.held_name() == Some(name_view(name)),
    {
        NodeBuilder { secure: self.secure, node_type: self.node_type, name: Some(name) }
    }

    /// The node, if the kind was set.
    pub fn build(self) -> (node: Option<Node>)
        ensures
            match node {
                Some(n) => self.held_kind() == Some(n@.kind) && n@.secure == (match self.held_secure() {
                    Some(secure) => secure,
                    None => false,
                }) && n@.name == (match self.held_name() {
                    Some(name) => name,
                    None => None,
                }),
                None => self.held_kind().is_none(),
            },
    {
        let secure = match self.secure {
            Some(secure) => secure,
            None => false,
        };
        let name = match self.name {
            Some(name) => name,
            None => None,
        };
        match self.node_type {
            Some(node_type) => Some(Node { secure, node_type, name }),
            None => None,
        }
    }
}

} // verus!
