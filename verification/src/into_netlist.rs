//! Writing a circuit back as a netlist: the frame of the top module with
//! its input ports.

use vstd::prelude::*;
use vstd::string::*;

use crate::cell_library::CellLibrary;
use crate::circuit::{lists_rising, Circuit, CircuitView, Error};
use crate::drafts::{built, is_built_wire, nodes_built, wires_built, DraftView};
use crate::from_netlist::{ingested, planned};
use crate::netlist::{AttributeVal, Module, Netlist, Port, PortDirection};
use crate::node::NodeId;
use crate::table::Table;

verus! {

impl CircuitView {
    /// Some primary input has that name.
    pub open spec fn has_input_named(self, name: Seq<char>) -> bool {
        exists|i: int| #[trigger] self.inputs().contains(i) && self.nodes[i].name == Some(name)
    }

    /// The primary input `v` has no name, and every primary input of a
    /// smaller index has one.
    pub open spec fn first_unnamed_input(self, v: int) -> bool {
        &&& self.inputs().contains(v)
        &&& self.nodes[v].name.is_none()
        &&& forall|u: int| #[trigger] self.inputs().contains(u) && u < v ==> self.nodes[u].name.is_some()
    }
}

/// The port is an input port without bits, at offset 0.
pub open spec fn is_bare_input(port: Port) -> bool {
    port.direction == PortDirection::Input && port.bits@.len() == 0 && port.offset == 0
}

/// `netlist` is the frame of the circuit `c`: it is made by `masquerade` and
/// holds one module, of the name of the circuit and marked as top, whose
/// ports are one bare input port for each name of a primary input, and which
/// holds nothing else.
pub open spec fn frames(netlist: &Netlist, c: CircuitView) -> bool {
    let top = netlist.modules.value_at(0);
    &&& netlist.creator@ == "masquerade"@
    &&& netlist.modules.size() == 1
    &&& netlist.modules.name_at(0) == c.name
    &&& top.top()
    &&& top.attributes.size() == 1
    &&& top.parameter_default_values.size() == 0
    &&& top.cells.size() == 0
    &&& top.memories.size() == 0
    &&& top.netnames.size() == 0
    &&& forall|p: int|
        0 <= p < top.ports.size() ==> is_bare_input(#[trigger] top.ports.value_at(p)) && c.has_input_named(
            top.ports.name_at(p),
        )
    &&& forall|name: Seq<char>| #[trigger] c.has_input_named(name) ==> top.ports.has(name)
}

impl Circuit {
    /// The frame of the circuit as a netlist, as [`frames`] describes. Fails
    /// on the first primary input without a name.
    pub fn to_netlist(&self) -> (r: Result<Netlist, Error>)
        requires
            self.wf(),
        ensures
            match r {
                Ok(netlist) => frames(&netlist, self@) && forall|i: int| #[trigger]
                    self@.inputs().contains(i) ==> self@.nodes[i].name.is_some(),
                Err(e) => match e {
                    Error::UnnamedInput(v) => self@.first_unnamed_input(v as int),
                    _ => false,
                },
            },
    {
        let inputs = self.inputs();
        let mut ports: Table<Port> = Table::new();
        let mut k: usize = 0;
        while k < inputs.len()
            invariant
                self.wf(),
                k <= inputs@.len(),
                lists_rising(inputs@, self@.inputs()),
                forall|p: int|
                    0 <= p < ports.size() ==> is_bare_input(#[trigger] ports.value_at(p)) && self@.has_input_named(
                        ports.name_at(p),
                    ),
                forall|j: int|
                    0 <= j < k ==> self@.nodes[#[trigger] inputs@[j] as int].name.is_some() && ports.has(
                        self@.nodes[inputs@[j] as int].name.unwrap(),
                    ),
            decreases inputs.len() - k,
        {
            let nx = inputs[k];
            assert(self@.inputs().contains(inputs@[k as int] as int));
            let name = match &self.node(nx).name {
                Some(name) => name.clone(),
                None => {
                    proof {
                        assert forall|u: int| #[trigger] self@.inputs().contains(u) && u < nx implies self@.nodes[u].name.is_some() by {
                            assert(inputs@.contains(u as u32));
                            let j = choose|j: int| 0 <= j < inputs@.len() && inputs@[j] == u as u32;
                            if j >= k {
                                if j > k {
                                    assert(inputs@[k as int] < inputs@[j]);
                                }
                            }
                        }
                    }
                    return Err(Error::UnnamedInput(nx));
                },
            };
            let ghost before = ports;
            ports.insert(name, Port { direction: PortDirection::Input, bits: Vec::new(), offset: 0 });
            proof {
                let text = self@.nodes[nx as int].name.unwrap();
                assert(self@.has_input_named(text));
                assert forall|p: int| 0 <= p < ports.size() implies is_bare_input(#[trigger] ports.value_at(p))
                    && self@.has_input_named(ports.name_at(p)) by {
                    if p < before.size() && before.name_at(p) != text {
                        assert(ports.value_at(p) == before.value_at(p));
                        assert(is_bare_input(before.value_at(p)));
                    } else {
                        assert(ports.name_at(p) == text);
                        assert(ports.position(text) == p) by {
                            let q = ports.position(text);
                            assert(ports.has(text));
                            assert(ports.name_at(q) == ports.name_at(p));
                        }
                        assert(ports.value_at(p) == ports.at(text));
                    }
                }
                assert forall|j: int| 0 <= j < k + 1 implies self@.nodes[#[trigger] inputs@[j] as int].name.is_some()
                    && ports.has(self@.nodes[inputs@[j] as int].name.unwrap()) by {
                    if j < k {
                        let other = self@.nodes[inputs@[j] as int].name.unwrap();
                        let q = before.position(other);
                        assert(before.has(other));
                        assert(ports.name_at(q) == other);
                    }
                }
            }
            k = k + 1;
        }
        let mut attributes: Table<AttributeVal> = Table::new();
        attributes.insert("top".to_owned(), AttributeVal::Number(1));
        let top = Module {
            attributes,
            parameter_default_values: Table::new(),
            ports,
            cells: Table::new(),
            memories: Table::new(),
            netnames: Table::new(),
        };
        let mut modules: Table<Module> = Table::new();
        modules.insert(self.name().clone(), top);
        let netlist = Netlist { creator: "masquerade".to_owned(), modules };
        proof {
            let made = netlist.modules.value_at(0);
            assert(netlist.modules.position(self@.name) == 0);
            assert(made == top);
            assert(top.attributes.at("top"@) == AttributeVal::Number(1));
            assert forall|i: int| #[trigger] self@.inputs().contains(i) implies self@.nodes[i].name.is_some()
                && top.ports.has(self@.nodes[i].name.unwrap()) by {
                assert(inputs@.contains(i as u32));
                let j = choose|j: int| 0 <= j < inputs@.len() && inputs@[j] == i as u32;
                assert(self@.nodes[inputs@[j] as int].name.is_some());
            }
            assert forall|name: Seq<char>| #[trigger] self@.has_input_named(name) implies top.ports.has(name) by {
                let i = choose|i: int| #[trigger] self@.inputs().contains(i) && self@.nodes[i].name == Some(name);
                assert(top.ports.has(self@.nodes[i].name.unwrap()));
            }
        }
        Ok(netlist)
    }
}

/// Reading the frame of a circuit back gives a circuit of the same name
/// that holds the two constants and nothing else. So the circuit comes back,
/// up to the indices of its nodes, where it held no more itself: a frame
/// keeps neither cells nor wires, and the ports that it keeps have no nets.
pub proof fn lemma_frame_read_back(c: CircuitView, netlist: &Netlist, library: &CellLibrary, back: CircuitView)
    requires
        c.wf(),
        frames(netlist, c),
        ingested(netlist, library, back),
    ensures
        back.name == c.name,
        back.nodes.dom() =~= set![back.zero, back.one],
        back.edges =~= Map::empty(),
        (c.nodes.dom() =~= set![c.zero, c.one] && c.edges =~= Map::empty()) ==> (forall|value: bool|
            back.nodes[back.constant(value)].kind == c.nodes[c.constant(value)].kind),
{
    let top = netlist.modules.value_at(0);
    assert(netlist.top_position() == Some(0int)) by {
        assert(netlist.modules.value_at(0).top());
        let t = netlist.top_position().unwrap();
        assert(0 <= t < 1);
    }
    let ds = choose|ds: Seq<DraftView>| #[trigger] planned(&top, library, ds) && crate::drafts::buildable(ds) && built(
        ds,
        back,
    );
    // A port of the frame would have no net of its name.
    assert(top.ports.size() == 0) by {
        if top.ports.size() > 0 {
            assert(!top.netnames.has(top.ports.name_at(0)));
            assert(top.port_fault(0));
        }
    }
    assert(top.nodes_before(0) == 0);
    assert(ds.len() == 0);
    let (ids, wires) = choose|ids: Seq<int>, wires: Map<(int, int), int>|
        #![trigger nodes_built(ds, back, ids), wires_built(ds, back, ids, wires, ds.len() as int, 0)]
        nodes_built(ds, back, ids) && wires_built(ds, back, ids, wires, ds.len() as int, 0);
    assert forall|i: int| back.nodes.contains_key(i) implies i == back.zero || i == back.one by {
        if ids.contains(i) {
            let k = choose|k: int| 0 <= k < ids.len() && ids[k] == i;
        }
    }
    assert forall|x: int| !back.edges.contains_key(x) by {
        if back.edges.contains_key(x) {
            assert(is_built_wire(wires, x));
            let (k, j) = choose|k: int, j: int| #[trigger] wires.contains_key((k, j)) && wires[(k, j)] == x;
            assert(0 <= k < ds.len());
        }
    }
    if c.nodes.dom() =~= set![c.zero, c.one] {
        assert(c.has_kind(c.constant(false), crate::node::NodeKind::Constant(false)));
        assert(c.has_kind(c.constant(true), crate::node::NodeKind::Constant(true)));
    }
}

} // verus!
