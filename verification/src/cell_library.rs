//! The cell library: which kind of node a cell type stands for, and in
//! which order a cell's ports are numbered.

use vstd::prelude::*;
use vstd::string::*;

use crate::node::{NodeKind, NodeType};
use crate::table::Table;

verus! {

/// The names of a list of strings.
pub open spec fn texts(names: Seq<String>) -> Seq<Seq<char>> {
    names.map_values(|s: String| s@)
}

/// A cell library.
#[derive(Debug)]
pub struct CellLibrary {
    cell_name_map: Table<String>,
    cell_map: Table<NodeType>,
    input_port_order: Table<Vec<String>>,
    output_port_order: Table<Vec<String>>,
}

impl CellLibrary {
    /// The canonical name that the library gives for a cell type, if any.
    pub closed spec fn canonical_name(&self, cell_type: Seq<char>) -> Option<Seq<char>> {
        if self.cell_name_map.has(cell_type) {
            Some(self.cell_name_map.at(cell_type)@)
        } else {
            None
        }
    }

    /// The kind that the library gives for a cell type directly, if any.
    pub closed spec fn defined_kind(&self, cell_type: Seq<char>) -> Option<NodeKind> {
        if self.cell_map.has(cell_type) {
            Some(self.cell_map.at(cell_type)@)
        } else {
            None
        }
    }

    /// The order of the input ports of a cell type, if the library has one.
    pub closed spec fn input_order(&self, cell_type: Seq<char>) -> Option<Seq<Seq<char>>> {
        if self.input_port_order.has(cell_type) {
            Some(texts(self.input_port_order.at(cell_type)@))
        } else {
            None
        }
    }

    /// The order of the output ports of a cell type, if the library has one.
    pub closed spec fn output_order(&self, cell_type: Seq<char>) -> Option<Seq<Seq<char>>> {
        if self.output_port_order.has(cell_type) {
            Some(texts(self.output_port_order.at(cell_type)@))
        } else {
            None
        }
    }

    /// The kind of node that a cell type stands for: the kind that the
    /// library defines for it, or else the kind that its canonical name
    /// denotes, the cell type being its own canonical name where the
    /// library gives no other.
    pub open spec fn kind_of(&self, cell_type: Seq<char>) -> NodeKind {
        match self.defined_kind(cell_type) {
            Some(kind) => kind,
            None => match self.canonical_name(cell_type) {
                Some(name) => NodeKind::of_name(name),
                None => NodeKind::of_name(cell_type),
            },
        }
    }

    /// The library with the port orders of the multiplexer, `MUX`: select,
    /// then the two data inputs; and of the flip-flop, `DFF`: clock, then
    /// data. It maps no names and defines no kinds.
    pub fn new() -> (library: CellLibrary)
        ensures
            library.input_order("MUX"@) == Some(seq!["S"@, "A"@, "B"@]),
            library.input_order("DFF"@) == Some(seq!["C"@, "D"@]),
            forall|name: Seq<char>|
                name != "MUX"@ && name != "DFF"@ ==> (#[trigger] library.input_order(name)).is_none(),
            forall|name: Seq<char>| (#[trigger] library.output_order(name)).is_none(),
            forall|name: Seq<char>| (#[trigger] library.canonical_name(name)).is_none(),
            forall|name: Seq<char>| (#[trigger] library.defined_kind(name)).is_none(),
    {
        let mut mux: Vec<String> = Vec::new();
        mux.push("S".to_owned());
        mux.push("A".to_owned());
        mux.push("B".to_owned());
        let mut dff: Vec<String> = Vec::new();
        dff.push("C".to_owned());
        dff.push("D".to_owned());
        let mut orders: Table<Vec<String>> = Table::new();
        orders.insert("MUX".to_owned(), mux);
        let ghost one = orders;
        orders.insert("DFF".to_owned(), dff);
        proof {
            reveal_strlit("MUX");
            reveal_strlit("DFF");
            assert("MUX"@ != "DFF"@) by {
                assert("MUX"@[0] != "DFF"@[0]);
            }
            assert(one.size() == 1);
            assert(one.position("MUX"@) == 0);
            assert(orders.size() == 2);
            assert(orders.name_at(0) == "MUX"@);
            assert(orders.name_at(1) == "DFF"@);
            assert(orders.position("DFF"@) == 1);
            assert(orders.has("MUX"@));
            assert(orders.position("MUX"@) == 0);
            assert(orders.value_at(0) == one.value_at(0));
            assert(texts(orders.at("MUX"@)@) =~= seq!["S"@, "A"@, "B"@]);
            assert(texts(orders.at("DFF"@)@) =~= seq!["C"@, "D"@]);
            assert forall|name: Seq<char>| name != "MUX"@ && name != "DFF"@ implies !orders.has(name) by {
                if orders.has(name) {
                    let p = orders.position(name);
                    assert(p == 0 || p == 1);
                }
            }
        }
        CellLibrary {
            cell_name_map: Table::new(),
            cell_map: Table::new(),
            input_port_order: orders,
            output_port_order: Table::new(),
        }
    }

    /// Makes `canonical` the canonical name of the cell type `cell_type`.
    pub fn map_cell_name(&mut self, cell_type: String, canonical: String)
        ensures
            final(self).canonical_name(cell_type@) == Some(canonical@),
    {
        self.cell_name_map.insert(cell_type, canonical);
    }

    /// Makes `kind` the kind of the cell type `cell_type`.
    pub fn define_cell(&mut self, cell_type: String, kind: NodeType)
        ensures
            final(self).defined_kind(cell_type@) == Some(kind@),
    {
        self.cell_map.insert(cell_type, kind);
    }

    /// The order in which the input ports of a cell of that type are
    /// numbered, if the library has one.
    pub fn get_input_port_order(&self, cell: &str) -> (order: Option<&Vec<String>>)
        ensures
            match order {
                Some(names) => self.input_order(cell@) == Some(texts(names@)),
                None => self.input_order(cell@).is_none(),
            },
    {
        self.input_port_order.get(cell)
    }

    /// The order in which the output ports of a cell of that type are
    /// numbered, if the library has one.
    pub fn get_output_port_order(&self, cell: &str) -> (order: Option<&Vec<String>>)
        ensures
            match order {
                Some(names) => self.output_order(cell@) == Some(texts(names@)),
                None => self.output_order(cell@).is_none(),
            },
    {
        self.output_port_order.get(cell)
    }

    /// The kind of node that a cell of that type is, as
    /// [`CellLibrary::kind_of`] describes. There is always one: a cell type
    /// that nothing else resolves is a black box.
    pub fn node_type_from_cell_type(&self, cell_type: &str) -> (kind: Option<NodeType>)
        ensures
            kind.is_some(),
            kind.unwrap()@ == self.kind_of(cell_type@),
    {
        if let Some(kind) = self.cell_map.get(cell_type) {
            return Some(kind.duplicate());
        }
        match self.cell_name_map.get(cell_type) {
            Some(name) => Some(NodeType::from_str(name.as_str())),
            None => Some(NodeType::from_str(cell_type)),
        }
    }
}

} // verus!
