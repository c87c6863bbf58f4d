//! Building a circuit from the top module of a netlist.

use vstd::prelude::*;
use vstd::string::*;

use crate::cell_library::{texts, CellLibrary};
use crate::circuit::{Circuit, CircuitView, Error};
use crate::drafts::{build_circuit, buildable, built, draft_fault, draft_views, Draft, DraftView};
use crate::netlist::{copy_bits, AttributeVal, BitVal, Cell, Module, Netlist, Netname, PortDirection};
use crate::node::{Blackbox, Node, NodeKind, NodeType, NodeView};
use crate::text::{chars_of, decimal_text, matches_ignoring_case, push_all, push_decimal, same_ignoring_case, string_of};

verus! {

/// A netlist together with the cell library that resolves its cell types.
pub struct NetlistAndLibrary {
    netlist: Netlist,
    cell_library: CellLibrary,
}

impl NetlistAndLibrary {
    /// The netlist.
    pub closed spec fn document(&self) -> &Netlist {
        &self.netlist
    }

    /// The cell library.
    pub closed spec fn library(&self) -> &CellLibrary {
        &self.cell_library
    }

    /// The netlist with the cell library that [`CellLibrary::new`] makes.
    pub fn new(netlist: Netlist) -> (source: Self)
        ensures
            *source.document() == netlist,
            source.library().input_order("MUX"@) == Some(seq!["S"@, "A"@, "B"@]),
            source.library().input_order("DFF"@) == Some(seq!["C"@, "D"@]),
            forall|name: Seq<char>|
                name != "MUX"@ && name != "DFF"@ ==> (#[trigger] source.library().input_order(name)).is_none(),
            forall|name: Seq<char>| (#[trigger] source.library().canonical_name(name)).is_none(),
            forall|name: Seq<char>| (#[trigger] source.library().defined_kind(name)).is_none(),
    {
        NetlistAndLibrary { netlist, cell_library: CellLibrary::new() }
    }

    /// The netlist with a cell library.
    pub fn with_library(netlist: Netlist, cell_library: CellLibrary) -> (source: Self)
        ensures
            *source.document() == netlist,
            *source.library() == cell_library,
    {
        NetlistAndLibrary { netlist, cell_library }
    }

    /// The netlist.
    pub fn netlist(&self) -> (netlist: &Netlist)
        ensures
            netlist == self.document(),
    {
        &self.netlist
    }

    /// The cell library.
    pub fn cell_library(&self) -> (library: &CellLibrary)
        ensures
            library == self.library(),
    {
        &self.cell_library
    }
}

/// The kind of node and the secure flag that the attribute `MASQ` of a net
/// gives to an input port: `secure` marks a secure input, `clock` a clock and
/// `reset` a reset, whatever the case of the letters; anything else, or no
/// such attribute, leaves a plain input.
pub open spec fn masq_role(net: &Netname) -> (NodeKind, bool) {
    if net.attributes.has("MASQ"@) {
        match net.attributes.at("MASQ"@) {
            AttributeVal::String(s) => if same_ignoring_case(s@, "secure"@) {
                (NodeKind::Input, true)
            } else if same_ignoring_case(s@, "clock"@) {
                (NodeKind::Clock, false)
            } else if same_ignoring_case(s@, "reset"@) {
                (NodeKind::Reset, false)
            } else {
                (NodeKind::Input, false)
            },
            _ => (NodeKind::Input, false),
        }
    } else {
        (NodeKind::Input, false)
    }
}

/// Computes [`masq_role`].
pub fn role_of(net: &Netname) -> (role: (NodeType, bool))
    ensures
        role.0@ == masq_role(net).0,
        role.1 == masq_role(net).1,
{
    match net.attributes.get("MASQ") {
        Some(AttributeVal::String(s)) => {
            let chars = chars_of(s.as_str());
            if matches_ignoring_case(&chars, "secure") {
                (NodeType::Input, true)
            } else if matches_ignoring_case(&chars, "clock") {
                (NodeType::Clock, false)
            } else if matches_ignoring_case(&chars, "reset") {
                (NodeType::Reset, false)
            } else {
                (NodeType::Input, false)
            }
        },
        _ => (NodeType::Input, false),
    }
}

/// The name of the node of bit `idx` of a port: the name of the port, with
/// the number of the bit in brackets where the port is wider than one bit.
pub open spec fn io_name(port: Seq<char>, width: int, idx: int) -> Seq<char> {
    if width > 1 {
        port + seq!['['] + decimal_text(idx as nat) + seq![']']
    } else {
        port
    }
}

/// Computes [`io_name`].
pub fn io_node_name(port: &str, width: usize, idx: usize) -> (name: String)
    ensures
        name@ == io_name(port@, width as int, idx as int),
{
    if width > 1 {
        let chars = chars_of(port);
        let mut out: Vec<char> = Vec::new();
        push_all(&mut out, &chars, 0, chars.len());
        out.push('[');
        push_decimal(&mut out, idx);
        out.push(']');
        assert(chars@.subrange(0, chars@.len() as int) =~= chars@);
        assert(out@ =~= port@ + seq!['['] + decimal_text(idx as nat) + seq![']']);
        string_of(&out)
    } else {
        port.to_owned()
    }
}

impl Module {
    /// The port at position `p` has a net of its name.
    pub open spec fn has_net(&self, p: int) -> bool {
        self.netnames.has(self.ports.name_at(p))
    }

    /// The net of the port at position `p`.
    pub open spec fn net_of(&self, p: int) -> Netname {
        self.netnames.at(self.ports.name_at(p))
    }

    /// The number of bits of the port at position `p`.
    pub open spec fn width_of(&self, p: int) -> int {
        self.net_of(p).bits@.len() as int
    }

    /// Some bit of the net of the port at position `p` is a constant.
    pub open spec fn has_constant_bit(&self, p: int) -> bool {
        exists|i: int| 0 <= i < self.net_of(p).bits@.len() && (#[trigger] self.net_of(p).bits@[i]) is Constant
    }

    /// The port at position `p` cannot become nodes: it has no net of its
    /// name, it is bidirectional, or it is an input with a constant bit.
    pub open spec fn port_fault(&self, p: int) -> bool {
        0 <= p < self.ports.size() && (!self.has_net(p) || self.ports.value_at(p).direction == PortDirection::InOut
            || (self.ports.value_at(p).direction == PortDirection::Input && self.has_constant_bit(p)))
    }

    /// The number of nodes of the ports before position `p`.
    pub open spec fn nodes_before(&self, p: int) -> int
        decreases p,
    {
        if p <= 0 {
            0
        } else {
            self.nodes_before(p - 1) + self.width_of(p - 1)
        }
    }

    /// The draft of the node of bit `idx` of the port at position `p`: an
    /// input, clock or reset that drives the bit, or an output that takes it.
    pub open spec fn port_draft(&self, p: int, idx: int) -> DraftView {
        let net = self.net_of(p);
        let name = Some(io_name(self.ports.name_at(p), self.width_of(p), idx));
        if self.ports.value_at(p).direction == PortDirection::Input {
            DraftView {
                node: NodeView { secure: masq_role(&net).1, kind: masq_role(&net).0, name },
                outputs: seq![seq![net.bits@[idx]]],
                inputs: seq![],
            }
        } else {
            DraftView {
                node: NodeView { secure: false, kind: NodeKind::Output, name },
                outputs: seq![],
                inputs: seq![net.bits@[idx]],
            }
        }
    }
}

/// The bits of a list of input ports.
pub open spec fn input_bits(ports: Seq<(String, BitVal)>) -> Seq<BitVal> {
    ports.map_values(|port: (String, BitVal)| port.1)
}

/// The bits of a list of output ports.
pub open spec fn output_bits(ports: Seq<(String, Vec<BitVal>)>) -> Seq<Seq<BitVal>> {
    ports.map_values(|port: (String, Vec<BitVal>)| port.1@)
}

/// The names of a list of input ports.
pub open spec fn input_names(ports: Seq<(String, BitVal)>) -> Seq<Seq<char>> {
    ports.map_values(|port: (String, BitVal)| port.0@)
}

/// The connections of the cell cannot become input ports: with a port order
/// from the library, a port of the order has no connection or one that is
/// not one bit wide; without, an input port is not one bit wide.
pub open spec fn cell_fault(library: &CellLibrary, cell: &Cell) -> bool {
    match library.input_order(cell.cell_type@) {
        Some(order) => order_fault(cell, order),
        None => !cell.inputs_are_bits(),
    }
}

/// Some port of the order has no connection on the cell, or one that is not
/// one bit wide.
pub open spec fn order_fault(cell: &Cell, order: Seq<Seq<char>>) -> bool {
    exists|j: int|
        0 <= j < order.len() && !(cell.connections.has(#[trigger] order[j]) && cell.connections.at(order[j])@.len()
            == 1)
}

/// The input bits of the cell are `bits`: in the order that the library
/// gives for the cell type, or else in the order of the names of the input
/// ports.
pub open spec fn cell_inputs(library: &CellLibrary, cell: &Cell, bits: Seq<BitVal>) -> bool {
    match library.input_order(cell.cell_type@) {
        Some(order) => bits.len() == order.len() && forall|j: int|
            0 <= j < order.len() ==> cell.connections.has(#[trigger] order[j]) && cell.connections.at(order[j])@
                == seq![bits[j]],
        None => exists|ports: Seq<(String, BitVal)>| #[trigger]
            cell.lists_input_ports(ports) && bits == input_bits(ports),
    }
}

/// `d` is the draft of the node of the cell: a node of the kind that the
/// library gives for the cell type, named after the cell unless the name is
/// empty or made up; it drives the bits of its output ports, in the order of
/// their names, and takes its input bits as [`cell_inputs`] says.
pub open spec fn is_cell_draft(library: &CellLibrary, name: Seq<char>, cell: &Cell, d: DraftView) -> bool {
    &&& d.node == (NodeView {
        secure: false,
        kind: library.kind_of(cell.cell_type@),
        name: if name.len() > 0 && !cell.hide_name {
            Some(name)
        } else {
            None
        },
    })
    &&& exists|ports: Seq<(String, Vec<BitVal>)>| #[trigger]
        cell.lists_output_ports(ports) && d.outputs == output_bits(ports)
    &&& cell_inputs(library, cell, d.inputs)
}

/// `ds` are the drafts of the nodes of the module: first, port after port,
/// one draft per bit of the port; then one draft per cell.
pub open spec fn planned(module: &Module, library: &CellLibrary, ds: Seq<DraftView>) -> bool {
    let ports = module.ports.size() as int;
    &&& ds.len() == module.nodes_before(ports) + module.cells.size()
    &&& forall|p: int, idx: int|
        0 <= p < ports && 0 <= idx < module.width_of(p) ==> ds[module.nodes_before(p) + idx]
            == #[trigger] module.port_draft(p, idx)
    &&& forall|c: int|
        0 <= c < module.cells.size() ==> is_cell_draft(
            library,
            module.cells.name_at(c),
            &#[trigger] module.cells.value_at(c),
            ds[module.nodes_before(ports) + c],
        )
}

/// No port and no cell of the module has a fault.
pub open spec fn plannable(module: &Module, library: &CellLibrary) -> bool {
    &&& forall|p: int| !#[trigger] module.port_fault(p)
    &&& forall|c: int| 0 <= c < module.cells.size() ==> !cell_fault(library, &#[trigger] module.cells.value_at(c))
}

impl Module {
    /// The port at position `p` is the first with a fault.
    pub open spec fn first_port_fault(&self, p: int) -> bool {
        self.port_fault(p) && forall|q: int| 0 <= q < p ==> !#[trigger] self.port_fault(q)
    }

    /// The number of nodes before a port grows with the position.
    pub proof fn lemma_nodes_before_grow(&self, a: int, b: int)
        requires
            0 <= a <= b,
        ensures
            0 <= self.nodes_before(a) <= self.nodes_before(b),
        decreases b,
    {
        if a < b {
            self.lemma_nodes_before_grow(a, b - 1);
        } else if a > 0 {
            self.lemma_nodes_before_grow(a - 1, a - 1);
        }
    }
}

/// The cell at position `c` is the first with a fault.
pub open spec fn first_cell_fault(module: &Module, library: &CellLibrary, c: int) -> bool {
    &&& 0 <= c < module.cells.size()
    &&& cell_fault(library, &module.cells.value_at(c))
    &&& forall|b: int| 0 <= b < c ==> !cell_fault(library, &#[trigger] module.cells.value_at(b))
}

/// The error `e` names the first fault of the module: that of the first
/// port with a fault or, where no port has one, of the first cell with a
/// fault.
pub open spec fn plan_fault(module: &Module, library: &CellLibrary, e: Error) -> bool {
    match e {
        Error::NetnameNotFound(n) => exists|p: int| #[trigger]
            module.first_port_fault(p) && n@ == module.ports.name_at(p) && !module.has_net(p),
        Error::InOutPort(n) => exists|p: int| #[trigger]
            module.first_port_fault(p) && n@ == module.ports.name_at(p) && module.has_net(p)
                && module.ports.value_at(p).direction == PortDirection::InOut,
        Error::ConstantInput(n) => exists|p: int| #[trigger]
            module.first_port_fault(p) && n@ == module.ports.name_at(p) && module.has_net(p)
                && module.ports.value_at(p).direction == PortDirection::Input && module.has_constant_bit(p),
        Error::BadConnection(n) => (forall|p: int| !#[trigger] module.port_fault(p)) && exists|c: int| #[trigger]
            first_cell_fault(module, library, c) && n@ == module.cells.name_at(c),
        _ => false,
    }
}

/// Whether some bit of the list is a constant.
fn any_constant(bits: &Vec<BitVal>) -> (found: bool)
    ensures
        found == exists|i: int| 0 <= i < bits@.len() && (#[trigger] bits@[i]) is Constant,
{
    let mut i: usize = 0;
    while i < bits.len()
        invariant
            i <= bits@.len(),
            forall|j: int| 0 <= j < i ==> !((#[trigger] bits@[j]) is Constant),
        decreases bits.len() - i,
    {
        if let BitVal::Constant(_) = bits[i] {
            return true;
        }
        i = i + 1;
    }
    false
}

/// A copy of a list of names.
pub fn copy_names(names: &Vec<String>) -> (copy: Vec<String>)
    ensures
        texts(copy@) == texts(names@),
{
    let mut copy: Vec<String> = Vec::new();
    let mut i: usize = 0;
    while i < names.len()
        invariant
            i <= names@.len(),
            copy@.len() == i,
            forall|j: int| 0 <= j < i ==> (#[trigger] copy@[j])@ == names@[j]@,
        decreases names.len() - i,
    {
        copy.push(names[i].clone());
        i = i + 1;
    }
    assert(texts(copy@) =~= texts(names@));
    copy
}

/// The draft of the node of a cell, as [`is_cell_draft`] describes. None
/// where the connections of the cell have a fault.
pub fn draft_cell(library: &CellLibrary, name: &String, cell: &Cell) -> (draft: Option<Draft>)
    ensures
        match draft {
            Some(d) => !cell_fault(library, cell) && is_cell_draft(library, name@, cell, d@),
            None => cell_fault(library, cell),
        },
{
    let kind = match library.node_type_from_cell_type(cell.cell_type.as_str()) {
        Some(kind) => kind,
        None => {
            assert(false);
            NodeType::Input
        },
    };
    let node_name = if !name.as_str().is_empty() && !cell.hide_name {
        Some(name.clone())
    } else {
        None
    };
    let ports = cell.output_ports();
    let mut outputs: Vec<Vec<BitVal>> = Vec::new();
    let mut i: usize = 0;
    while i < ports.len()
        invariant
            i <= ports@.len(),
            outputs@.len() == i,
            forall|j: int| 0 <= j < i ==> (#[trigger] outputs@[j])@ == ports@[j].1@,
        decreases ports.len() - i,
    {
        outputs.push(copy_bits(&ports[i].1));
        i = i + 1;
    }
    let mut inputs: Vec<BitVal> = Vec::new();
    match library.get_input_port_order(cell.cell_type.as_str()) {
        Some(order) => {
            let ghost names = texts(order@);
            let mut j: usize = 0;
            while j < order.len()
                invariant
                    j <= order@.len(),
                    names == texts(order@),
                    library.input_order(cell.cell_type@) == Some(names),
                    inputs@.len() == j,
                    forall|a: int|
                        0 <= a < j ==> cell.connections.has(#[trigger] names[a]) && cell.connections.at(names[a])@
                            == seq![inputs@[a]],
                decreases order.len() - j,
            {
                assert(names[j as int] == order@[j as int]@);
                let bits = match cell.connections.get(order[j].as_str()) {
                    Some(bits) => bits,
                    None => {
                        assert(!cell.connections.has(names[j as int]));
                        assert(order_fault(cell, names));
                        return None;
                    },
                };
                if bits.len() != 1 {
                    assert(cell.connections.at(names[j as int])@.len() != 1);
                    assert(order_fault(cell, names));
                    return None;
                }
                inputs.push(bits[0]);
                assert(cell.connections.at(names[j as int])@ =~= seq![bits@[0]]);
                j = j + 1;
            }
            proof {
                assert forall|a: int| 0 <= a < names.len() implies cell.connections.has(#[trigger] names[a])
                    && cell.connections.at(names[a])@.len() == 1 by {
                    assert(cell.connections.at(names[a])@ == seq![inputs@[a]]);
                }
                assert(!order_fault(cell, names));
            }
        },
        None => {
            let list = match cell.input_ports() {
                Some(list) => list,
                None => {
                    return None;
                },
            };
            let mut j: usize = 0;
            while j < list.len()
                invariant
                    j <= list@.len(),
                    inputs@.len() == j,
                    forall|a: int| 0 <= a < j ==> #[trigger] inputs@[a] == list@[a].1,
                decreases list.len() - j,
            {
                inputs.push(list[j].1);
                j = j + 1;
            }
            assert(inputs@ =~= input_bits(list@));
        },
    }
    let draft = Draft { node: Node { secure: false, node_type: kind, name: node_name }, outputs, inputs };
    proof {
        assert(draft@.outputs =~= output_bits(ports@));
    }
    Some(draft)
}

/// The drafts of the nodes of a module, as [`planned`] describes. Fails on
/// the first port with a fault: a port without a net of its name, a
/// bidirectional port, an input port with a constant bit; or, where no port
/// has one, on the first cell whose connections have a fault.
pub fn plan_nodes(module: &Module, library: &CellLibrary) -> (r: Result<Vec<Draft>, Error>)
    ensures
        match r {
            Ok(drafts) => plannable(module, library) && planned(module, library, draft_views(drafts@)),
            Err(e) => !plannable(module, library) && plan_fault(module, library, e),
        },
{
    let mut drafts: Vec<Draft> = Vec::new();
    let ports = module.ports.len();
    let mut p: usize = 0;
    while p < ports
        invariant
            p <= ports,
            ports == module.ports.size(),
            forall|q: int| 0 <= q < p ==> !#[trigger] module.port_fault(q),
            drafts@.len() == module.nodes_before(p as int),
            forall|q: int, idx: int|
                0 <= q < p && 0 <= idx < module.width_of(q) ==> draft_views(drafts@)[module.nodes_before(q) + idx]
                    == #[trigger] module.port_draft(q, idx),
        decreases ports - p,
    {
        let name = module.ports.name(p);
        let port = module.ports.value(p);
        let net = match module.netnames.get(name.as_str()) {
            Some(net) => net,
            None => {
                assert(module.first_port_fault(p as int));
                return Err(Error::NetnameNotFound(name.clone()));
            },
        };
        assert(*net == module.net_of(p as int));
        let width = net.bits.len();
        let input = match port.direction {
            PortDirection::InOut => {
                assert(module.first_port_fault(p as int));
                return Err(Error::InOutPort(name.clone()));
            },
            PortDirection::Input => true,
            PortDirection::Output => false,
        };
        if input && any_constant(&net.bits) {
            assert(module.has_constant_bit(p as int));
            assert(module.first_port_fault(p as int));
            return Err(Error::ConstantInput(name.clone()));
        }
        assert(!module.port_fault(p as int));
        let ghost base = module.nodes_before(p as int);
        let mut idx: usize = 0;
        while idx < width
            invariant
                p < ports,
                ports == module.ports.size(),
                idx <= width,
                width == module.width_of(p as int),
                *net == module.net_of(p as int),
                name@ == module.ports.name_at(p as int),
                *port == module.ports.value_at(p as int),
                input == (port.direction == PortDirection::Input),
                port.direction != PortDirection::InOut,
                base == module.nodes_before(p as int),
                drafts@.len() == base + idx,
                forall|q: int, i: int|
                    0 <= q < p && 0 <= i < module.width_of(q) ==> draft_views(drafts@)[module.nodes_before(q) + i]
                        == #[trigger] module.port_draft(q, i),
                forall|i: int| 0 <= i < idx ==> draft_views(drafts@)[base + i] == #[trigger] module.port_draft(p as int, i),
            decreases width - idx,
        {
            let ghost before = draft_views(drafts@);
            let node_name = io_node_name(name.as_str(), width, idx);
            let bit = net.bits[idx];
            let draft = if input {
                let role = role_of(net);
                let mut bits: Vec<BitVal> = Vec::new();
                bits.push(bit);
                let mut outputs: Vec<Vec<BitVal>> = Vec::new();
                outputs.push(bits);
                Draft {
                    node: Node { secure: role.1, node_type: role.0, name: Some(node_name) },
                    outputs,
                    inputs: Vec::new(),
                }
            } else {
                let mut inputs: Vec<BitVal> = Vec::new();
                inputs.push(bit);
                Draft {
                    node: Node { secure: false, node_type: NodeType::Output, name: Some(node_name) },
                    outputs: Vec::new(),
                    inputs,
                }
            };
            let ghost made = draft@;
            proof {
                let expected = module.port_draft(p as int, idx as int);
                assert(made.outputs =~= expected.outputs);
                assert(made.inputs =~= expected.inputs);
                assert(made == expected);
            }
            drafts.push(draft);
            proof {
                let after = draft_views(drafts@);
                assert(after[base + idx] == made);
                assert forall|i: int| 0 <= i < before.len() implies after[i] == before[i] by {}
                assert forall|q: int, i: int| 0 <= q < p && 0 <= i < module.width_of(q) implies after[module.nodes_before(
                    q,
                ) + i] == #[trigger] module.port_draft(q, i) by {
                    module.lemma_nodes_before_grow(q + 1, p as int);
                    module.lemma_nodes_before_grow(q, q);
                    assert(module.nodes_before(q + 1) == module.nodes_before(q) + module.width_of(q));
                    assert(before[module.nodes_before(q) + i] == module.port_draft(q, i));
                }
                assert forall|i: int| 0 <= i < idx + 1 implies after[base + i] == #[trigger] module.port_draft(
                    p as int,
                    i,
                ) by {
                    module.lemma_nodes_before_grow(0, p as int);
                    if i < idx {
                        assert(before[base + i] == module.port_draft(p as int, i));
                        assert(after[base + i] == before[base + i]);
                    } else {
                        assert(after[base + i] == made);
                        assert(made == module.port_draft(p as int, idx as int));
                    }
                }
            }
            idx = idx + 1;
        }
        proof {
            assert(module.nodes_before(p + 1) == module.nodes_before(p as int) + module.width_of(p as int));
        }
        p = p + 1;
    }
    let ghost base = module.nodes_before(ports as int);
    let cells = module.cells.len();
    let mut c: usize = 0;
    while c < cells
        invariant
            c <= cells,
            cells == module.cells.size(),
            ports == module.ports.size(),
            base == module.nodes_before(ports as int),
            forall|q: int| !#[trigger] module.port_fault(q),
            drafts@.len() == base + c,
            forall|q: int, i: int|
                0 <= q < ports && 0 <= i < module.width_of(q) ==> draft_views(drafts@)[module.nodes_before(q) + i]
                    == #[trigger] module.port_draft(q, i),
            forall|b: int| 0 <= b < c ==> !cell_fault(library, &#[trigger] module.cells.value_at(b)),
            forall|b: int|
                0 <= b < c ==> is_cell_draft(
                    library,
                    module.cells.name_at(b),
                    &#[trigger] module.cells.value_at(b),
                    draft_views(drafts@)[base + b],
                ),
        decreases cells - c,
    {
        let ghost before = draft_views(drafts@);
        let name = module.cells.name(c);
        let cell = module.cells.value(c);
        let draft = match draft_cell(library, name, cell) {
            Some(draft) => draft,
            None => {
                assert(first_cell_fault(module, library, c as int));
                return Err(Error::BadConnection(name.clone()));
            },
        };
        let ghost made = draft@;
        drafts.push(draft);
        proof {
            let after = draft_views(drafts@);
            assert(after[base + c] == made);
            assert forall|i: int| 0 <= i < before.len() implies after[i] == before[i] by {}
            assert forall|q: int, i: int| 0 <= q < ports && 0 <= i < module.width_of(q) implies after[module.nodes_before(
                q,
            ) + i] == #[trigger] module.port_draft(q, i) by {
                module.lemma_nodes_before_grow(q + 1, ports as int);
                module.lemma_nodes_before_grow(q, q);
                assert(module.nodes_before(q + 1) == module.nodes_before(q) + module.width_of(q));
                assert(before[module.nodes_before(q) + i] == module.port_draft(q, i));
            }
            module.lemma_nodes_before_grow(0, ports as int);
            assert forall|b: int| 0 <= b < c + 1 implies is_cell_draft(
                library,
                module.cells.name_at(b),
                &#[trigger] module.cells.value_at(b),
                after[base + b],
            ) by {
                if b < c {
                    assert(after[base + b] == before[base + b]);
                }
            }
        }
        c = c + 1;
    }
    Ok(drafts)
}

/// The circuit `c` is the top module of the netlist, resolved with the
/// library: the first module that is marked as top gives its name; its
/// ports and cells have no fault and give the drafts of the nodes; the
/// drafts have no fault; and the circuit is built from them.
pub open spec fn ingested(netlist: &Netlist, library: &CellLibrary, c: CircuitView) -> bool {
    &&& netlist.top_position().is_some()
    &&& c.name == netlist.modules.name_at(netlist.top_position().unwrap())
    &&& plannable(&netlist.modules.value_at(netlist.top_position().unwrap()), library)
    &&& exists|ds: Seq<DraftView>| #[trigger]
        planned(&netlist.modules.value_at(netlist.top_position().unwrap()), library, ds) && buildable(ds)
            && built(ds, c)
}

/// The error `e` says why the netlist gives no circuit: no module is marked
/// as top; or the top module has a fault; or the drafts of its nodes have
/// one.
pub open spec fn ingest_fault(netlist: &Netlist, library: &CellLibrary, e: Error) -> bool {
    match netlist.top_position() {
        None => e is NoTopModule,
        Some(t) => plan_fault(&netlist.modules.value_at(t), library, e) || (plannable(
            &netlist.modules.value_at(t),
            library,
        ) && exists|ds: Seq<DraftView>| #[trigger]
            planned(&netlist.modules.value_at(t), library, ds) && !buildable(ds) && draft_fault(ds, e)),
    }
}

/// The entry `k` of `orders` holds the port names `names` under the kind
/// of the cell type.
pub open spec fn order_entry(
    library: &CellLibrary,
    cell: &Cell,
    orders: Seq<(NodeType, Vec<String>)>,
    k: int,
    names: Seq<Seq<char>>,
) -> bool {
    0 <= k < orders.len() && orders[k].0@ == library.kind_of(cell.cell_type@) && texts(orders[k].1@) == names
}

/// The port names of the cell are recorded in `orders` under the kind of
/// the cell: those that the library gives for the cell type or, where it
/// gives none and the cell has several input ports, the names of the input
/// ports in their order.
pub open spec fn order_recorded(library: &CellLibrary, cell: &Cell, orders: Seq<(NodeType, Vec<String>)>) -> bool {
    match library.input_order(cell.cell_type@) {
        Some(order) => exists|k: int| #[trigger] order_entry(library, cell, orders, k, order),
        None => cell.inputs_are_bits() ==> exists|ports: Seq<(String, BitVal)>| #[trigger]
            cell.lists_input_ports(ports) && (ports.len() > 1 ==> exists|k: int| #[trigger]
                order_entry(library, cell, orders, k, input_names(ports))),
    }
}

/// The entry `k` of `boxes` holds the names of the input and output ports
/// of the module under that name.
pub open spec fn blackbox_entry(module: &Module, name: Seq<char>, boxes: Seq<(String, Blackbox)>, k: int) -> bool {
    0 <= k < boxes.len() && boxes[k].0@ == name && module.lists_ports(boxes[k].1.inputs@, PortDirection::Input)
        && module.lists_ports(boxes[k].1.outputs@, PortDirection::Output)
}

/// The module is recorded in `boxes` under that name, with the names of its
/// input and output ports.
pub open spec fn blackbox_recorded(module: &Module, name: Seq<char>, boxes: Seq<(String, Blackbox)>) -> bool {
    exists|k: int| #[trigger] blackbox_entry(module, name, boxes, k)
}

/// What is recorded stays recorded when more is.
proof fn lemma_order_kept(
    library: &CellLibrary,
    cell: &Cell,
    before: Seq<(NodeType, Vec<String>)>,
    after: Seq<(NodeType, Vec<String>)>,
)
    requires
        order_recorded(library, cell, before),
        before.len() <= after.len(),
        forall|k: int| 0 <= k < before.len() ==> #[trigger] after[k] == before[k],
    ensures
        order_recorded(library, cell, after),
{
    match library.input_order(cell.cell_type@) {
        Some(order) => {
            let k = choose|k: int| #[trigger] order_entry(library, cell, before, k, order);
            assert(order_entry(library, cell, after, k, order));
        },
        None => {
            if cell.inputs_are_bits() {
                let ports = choose|ports: Seq<(String, BitVal)>| #[trigger]
                    cell.lists_input_ports(ports) && (ports.len() > 1 ==> exists|k: int| #[trigger]
                        order_entry(library, cell, before, k, input_names(ports)));
                if ports.len() > 1 {
                    let k = choose|k: int| #[trigger] order_entry(library, cell, before, k, input_names(ports));
                    assert(order_entry(library, cell, after, k, input_names(ports)));
                }
                assert(cell.lists_input_ports(ports));
            }
        },
    }
}

/// What is recorded stays recorded when more is.
proof fn lemma_blackbox_kept(
    module: &Module,
    name: Seq<char>,
    before: Seq<(String, Blackbox)>,
    after: Seq<(String, Blackbox)>,
)
    requires
        blackbox_recorded(module, name, before),
        before.len() <= after.len(),
        forall|k: int| 0 <= k < before.len() ==> #[trigger] after[k] == before[k],
    ensures
        blackbox_recorded(module, name, after),
{
    let k = choose|k: int| #[trigger] blackbox_entry(module, name, before, k);
    assert(blackbox_entry(module, name, after, k));
}

/// Records the port names of one cell.
fn record_order(c: &mut Circuit, library: &CellLibrary, cell: &Cell)
    requires
        old(c).wf(),
    ensures
        final(c).wf(),
        final(c)@ == old(c)@,
        final(c).known_blackboxes() == old(c).known_blackboxes(),
        order_recorded(library, cell, final(c).port_orders()),
        old(c).port_orders().len() <= final(c).port_orders().len(),
        forall|k: int|
            0 <= k < old(c).port_orders().len() ==> #[trigger] final(c).port_orders()[k] == old(c).port_orders()[k],
{
    let ghost before = c.port_orders();
    let kind = match library.node_type_from_cell_type(cell.cell_type.as_str()) {
        Some(kind) => kind,
        None => {
            assert(false);
            NodeType::Input
        },
    };
    match library.get_input_port_order(cell.cell_type.as_str()) {
        Some(order) => {
            c.set_input_order(kind, copy_names(order));
            proof {
                let names = library.input_order(cell.cell_type@).unwrap();
                assert(order_entry(library, cell, c.port_orders(), before.len() as int, names));
            }
        },
        None => {
            if let Some(list) = cell.input_ports() {
                if list.len() > 1 {
                    let mut names: Vec<String> = Vec::new();
                    let mut j: usize = 0;
                    while j < list.len()
                        invariant
                            j <= list@.len(),
                            names@.len() == j,
                            forall|a: int| 0 <= a < j ==> (#[trigger] names@[a])@ == list@[a].0@,
                        decreases list.len() - j,
                    {
                        names.push(list[j].0.clone());
                        j = j + 1;
                    }
                    assert(texts(names@) =~= input_names(list@));
                    c.set_input_order(kind, names);
                    proof {
                        assert(order_entry(library, cell, c.port_orders(), before.len() as int, input_names(list@)));
                    }
                }
                proof {
                    assert(cell.lists_input_ports(list@));
                }
            }
        },
    }
}

/// Records the port names of the cells of the module.
fn record_orders(c: &mut Circuit, module: &Module, library: &CellLibrary)
    requires
        old(c).wf(),
    ensures
        final(c).wf(),
        final(c)@ == old(c)@,
        final(c).known_blackboxes() == old(c).known_blackboxes(),
        forall|i: int|
            0 <= i < module.cells.size() ==> order_recorded(
                library,
                &#[trigger] module.cells.value_at(i),
                final(c).port_orders(),
            ),
{
    let cells = module.cells.len();
    let mut i: usize = 0;
    while i < cells
        invariant
            c.wf(),
            c@ == old(c)@,
            c.known_blackboxes() == old(c).known_blackboxes(),
            i <= cells,
            cells == module.cells.size(),
            forall|b: int|
                0 <= b < i ==> order_recorded(library, &#[trigger] module.cells.value_at(b), c.port_orders()),
        decreases cells - i,
    {
        let ghost before = c.port_orders();
        record_order(c, library, module.cells.value(i));
        proof {
            assert forall|b: int| 0 <= b < i implies order_recorded(
                library,
                &#[trigger] module.cells.value_at(b),
                c.port_orders(),
            ) by {
                lemma_order_kept(library, &module.cells.value_at(b), before, c.port_orders());
            }
        }
        i = i + 1;
    }
}

/// Records the ports of the black box modules of the netlist.
fn record_blackboxes(c: &mut Circuit, netlist: &Netlist)
    requires
        old(c).wf(),
    ensures
        final(c).wf(),
        final(c)@ == old(c)@,
        final(c).port_orders() == old(c).port_orders(),
        forall|i: int|
            0 <= i < netlist.modules.size() && (#[trigger] netlist.modules.value_at(i)).blackbox()
                ==> blackbox_recorded(
                &netlist.modules.value_at(i),
                netlist.modules.name_at(i),
                final(c).known_blackboxes(),
            ),
{
    let modules = netlist.modules.len();
    let mut i: usize = 0;
    while i < modules
        invariant
            c.wf(),
            c@ == old(c)@,
            c.port_orders() == old(c).port_orders(),
            i <= modules,
            modules == netlist.modules.size(),
            forall|b: int|
                0 <= b < i && (#[trigger] netlist.modules.value_at(b)).blackbox() ==> blackbox_recorded(
                    &netlist.modules.value_at(b),
                    netlist.modules.name_at(b),
                    c.known_blackboxes(),
                ),
        decreases modules - i,
    {
        let other = netlist.modules.value(i);
        let ghost before = c.known_blackboxes();
        if other.is_blackbox() {
            let blackbox = Blackbox { inputs: other.inputs(), outputs: other.outputs() };
            c.add_blackbox(netlist.modules.name(i).clone(), blackbox);
            proof {
                assert(blackbox_entry(
                    other,
                    netlist.modules.name_at(i as int),
                    c.known_blackboxes(),
                    before.len() as int,
                ));
            }
        }
        proof {
            let after = c.known_blackboxes();
            assert forall|b: int| 0 <= b < i && (#[trigger] netlist.modules.value_at(b)).blackbox() implies blackbox_recorded(
                &netlist.modules.value_at(b),
                netlist.modules.name_at(b),
                after,
            ) by {
                lemma_blackbox_kept(&netlist.modules.value_at(b), netlist.modules.name_at(b), before, after);
            }
        }
        i = i + 1;
    }
}

impl Circuit {
    /// Builds the circuit of the top module of a netlist, as [`ingested`]
    /// describes, and records the port names of its cells and the ports of
    /// the black box modules. Fails as [`ingest_fault`] describes.
    pub fn from_netlist(source: &NetlistAndLibrary) -> (r: Result<Circuit, Error>)
        ensures
            match r {
                Ok(c) => {
                    &&& c.wf()
                    &&& ingested(source.document(), source.library(), c@)
                    &&& forall|i: int|
                        0 <= i < source.document().modules.value_at(
                            source.document().top_position().unwrap(),
                        ).cells.size() ==> order_recorded(
                            source.library(),
                            &#[trigger] source.document().modules.value_at(
                                source.document().top_position().unwrap(),
                            ).cells.value_at(i),
                            c.port_orders(),
                        )
                    &&& forall|i: int|
                        0 <= i < source.document().modules.size() && (#[trigger] source.document().modules.value_at(
                            i,
                        )).blackbox() ==> blackbox_recorded(
                            &source.document().modules.value_at(i),
                            source.document().modules.name_at(i),
                            c.known_blackboxes(),
                        )
                },
                Err(e) => ingest_fault(source.document(), source.library(), e),
            },
    {
        let netlist = source.netlist();
        let library = source.cell_library();
        let (name, module) = match netlist.get_top() {
            Some(top) => top,
            None => {
                return Err(Error::NoTopModule);
            },
        };
        let drafts = match plan_nodes(module, library) {
            Ok(drafts) => drafts,
            Err(e) => {
                return Err(e);
            },
        };
        let mut c = match build_circuit(name.clone(), &drafts) {
            Ok(c) => c,
            Err(e) => {
                return Err(e);
            },
        };
        record_orders(&mut c, module, library);
        record_blackboxes(&mut c, netlist);
        Ok(c)
    }
}

} // verus!
