use masquerade::cell_library::CellLibrary;
use masquerade::netlist::{
    copy_bits, has_flag, AttributeVal, BitVal, Cell, ConstBit, Module, Netlist, Port, PortDirection, SpecialBit,
};
use masquerade::node::{GateType, NodeType};
use masquerade::table::Table;
use masquerade::utils::{MapToSet, MapToVec};
use masquerade::verilog::{ConstExpr, ConstRange, Literal, NetType, Number, NumberValue};

fn text(s: &str) -> AttributeVal {
    AttributeVal::String(s.to_string())
}

fn cell(kind: &str, ports: &[(&str, PortDirection, Vec<BitVal>)]) -> Cell {
    let mut port_directions = Table::new();
    let mut connections = Table::new();
    for (name, direction, bits) in ports {
        port_directions.insert(name.to_string(), *direction);
        connections.insert(name.to_string(), bits.clone());
    }
    Cell {
        hide_name: false,
        cell_type: kind.to_string(),
        parameters: Table::new(),
        attributes: Table::new(),
        port_directions,
        connections,
    }
}

fn empty_module() -> Module {
    Module {
        attributes: Table::new(),
        parameter_default_values: Table::new(),
        ports: Table::new(),
        cells: Table::new(),
        memories: Table::new(),
        netnames: Table::new(),
    }
}

#[test]
fn const_bits_have_values_or_not() {
    assert_eq!(ConstBit::_0.to_bool(), Some(false));
    assert_eq!(ConstBit::_1.to_bool(), Some(true));
    assert_eq!(ConstBit::X.to_bool(), None);
    assert_eq!(SpecialBit::Z.to_bool(), None);
}

#[test]
fn attribute_values_stand_for_numbers() {
    assert_eq!(AttributeVal::Number(5).to_number(), Some(5));
    assert_eq!(AttributeVal::Number(0).to_bool(), Some(false));
    assert_eq!(AttributeVal::Number(7).to_bool(), Some(true));
    assert_eq!(text("").to_number(), Some(0));
    assert_eq!(text("").to_bool(), Some(false));
    assert_eq!(text("101").to_number(), Some(5));
    assert_eq!(text("00000000000000000000000000000001").to_number(), Some(1));
    assert_eq!(text("00").to_bool(), Some(false));
    assert_eq!(text("10").to_bool(), Some(true));
    assert_eq!(text("12").to_number(), None);
    assert_eq!(text("secure").to_number(), None);
    assert_eq!(text("secure").to_bool(), None);
    assert_eq!(text("1x").to_number(), None);
}

#[test]
fn attribute_values_stand_for_texts() {
    assert_eq!(AttributeVal::Number(5).to_string_if_string(), None);
    assert_eq!(text("").to_string_if_string(), None);
    assert_eq!(text("0101").to_string_if_string(), None);
    assert_eq!(text("xz01").to_string_if_string(), None);
    assert_eq!(text("secure").to_string_if_string(), Some("secure"));
    assert_eq!(text("01 ").to_string_if_string(), Some("01"));
    assert_eq!(text("a b ").to_string_if_string(), Some("a b"));
    assert_eq!(text(" ").to_string_if_string(), Some(""));
    assert_eq!(text("héé ").to_string_if_string(), Some("héé"));
    assert_eq!(text("0 1").to_string_if_string(), Some("0 1"));
}

#[test]
fn tables_keep_order_and_replace_values() {
    let mut t: Table<u32> = Table::new();
    assert_eq!(t.len(), 0);
    assert_eq!(t.get("a"), None);
    t.insert("b".to_string(), 1);
    t.insert("a".to_string(), 2);
    t.insert("c".to_string(), 3);
    t.insert("a".to_string(), 4);
    assert_eq!(t.len(), 3);
    assert_eq!(t.name(0), "b");
    assert_eq!(t.name(1), "a");
    assert_eq!(t.name(2), "c");
    assert_eq!(*t.value(1), 4);
    assert_eq!(t.get("a"), Some(&4));
    assert_eq!(t.get("c"), Some(&3));
    assert_eq!(t.get("A"), None);
    assert_eq!(t.find("c"), Some(2));
    assert_eq!(t.find("d"), None);
    assert_eq!(t.by_name(), vec![1, 0, 2]);
    let copy = t.clone();
    assert_eq!(copy.len(), 3);
    assert_eq!(copy.get("a"), Some(&4));
}

#[test]
fn cell_ports_come_by_name() {
    let c = cell(
        "AND",
        &[
            ("Y", PortDirection::Output, vec![BitVal::Signal(9)]),
            ("b", PortDirection::Input, vec![BitVal::Signal(2)]),
            ("B", PortDirection::Input, vec![BitVal::Constant(ConstBit::_1)]),
            ("A", PortDirection::Input, vec![BitVal::Signal(1)]),
            ("Q", PortDirection::Output, vec![BitVal::Signal(7), BitVal::Signal(8)]),
            ("io", PortDirection::InOut, vec![BitVal::Signal(3)]),
        ],
    );
    assert_eq!(
        c.input_ports(),
        Some(vec![
            ("A".to_string(), BitVal::Signal(1)),
            ("B".to_string(), BitVal::Constant(ConstBit::_1)),
            ("b".to_string(), BitVal::Signal(2)),
        ])
    );
    assert_eq!(
        c.output_ports(),
        vec![
            ("Q".to_string(), vec![BitVal::Signal(7), BitVal::Signal(8)]),
            ("Y".to_string(), vec![BitVal::Signal(9)]),
        ]
    );
    let wide = cell("AND", &[("A", PortDirection::Input, vec![BitVal::Signal(1), BitVal::Signal(2)])]);
    assert_eq!(wide.input_ports(), None);
    let open = cell("AND", &[("A", PortDirection::Input, vec![])]);
    assert_eq!(open.input_ports(), None);
    let mut untyped = cell("AND", &[]);
    untyped.connections.insert("A".to_string(), vec![BitVal::Signal(1)]);
    assert_eq!(untyped.input_ports(), Some(vec![]));
    assert_eq!(untyped.output_ports(), vec![]);
    assert_eq!(copy_bits(&vec![BitVal::Signal(4), BitVal::Constant(ConstBit::X)]).len(), 2);
}

#[test]
fn modules_are_flagged_by_attributes() {
    let mut m = empty_module();
    assert!(!m.is_top());
    assert!(!m.is_blackbox());
    m.attributes.insert("top".to_string(), AttributeVal::Number(1));
    m.attributes.insert("blackbox".to_string(), text("00000000000000000000000000000000"));
    assert!(m.is_top());
    assert!(!m.is_blackbox());
    m.attributes.insert("top".to_string(), text("yes"));
    m.attributes.insert("blackbox".to_string(), text("00000000000000000000000000000001"));
    assert!(!m.is_top());
    assert!(m.is_blackbox());
    assert!(has_flag(&m.attributes, "blackbox"));
    assert!(!has_flag(&m.attributes, "Blackbox"));
}

#[test]
fn module_ports_are_filtered_by_direction() {
    let mut m = empty_module();
    for (name, direction) in [
        ("clk", PortDirection::Input),
        ("q", PortDirection::Output),
        ("d", PortDirection::Input),
        ("pad", PortDirection::InOut),
        ("r", PortDirection::Output),
    ] {
        m.ports.insert(name.to_string(), Port { direction, bits: vec![BitVal::Signal(2)], offset: 0 });
    }
    assert_eq!(m.inputs(), vec!["clk".to_string(), "d".to_string()]);
    assert_eq!(m.outputs(), vec!["q".to_string(), "r".to_string()]);
    assert_eq!(m.filter_ports(PortDirection::InOut), vec!["pad".to_string()]);
    assert_eq!(empty_module().inputs(), Vec::<String>::new());
}

#[test]
fn top_is_the_first_module_flagged_top() {
    let mut n = Netlist::new("masquerade");
    assert_eq!(n.creator, "masquerade");
    assert!(n.get_top().is_none());
    let mut bb = empty_module();
    bb.attributes.insert("blackbox".to_string(), AttributeVal::Number(1));
    n.modules.insert("ram".to_string(), bb);
    n.modules.insert("leaf".to_string(), empty_module());
    assert!(n.get_top().is_none());
    let mut t1 = empty_module();
    t1.attributes.insert("top".to_string(), AttributeVal::Number(1));
    t1.ports.insert("a".to_string(), Port { direction: PortDirection::Input, bits: vec![], offset: 0 });
    n.modules.insert("first".to_string(), t1);
    let mut t2 = empty_module();
    t2.attributes.insert("top".to_string(), AttributeVal::Number(1));
    n.modules.insert("second".to_string(), t2);
    let (name, module) = n.get_top().unwrap();
    assert_eq!(name, "first");
    assert_eq!(module.ports.len(), 1);
}

#[test]
fn library_orders_the_ports_of_mux_and_dff() {
    let lib = CellLibrary::new();
    assert_eq!(
        lib.get_input_port_order("MUX"),
        Some(&vec!["S".to_string(), "A".to_string(), "B".to_string()])
    );
    assert_eq!(lib.get_input_port_order("DFF"), Some(&vec!["C".to_string(), "D".to_string()]));
    assert_eq!(lib.get_input_port_order("mux"), None);
    assert_eq!(lib.get_input_port_order("AND"), None);
    assert_eq!(lib.get_output_port_order("MUX"), None);
    assert_eq!(lib.get_output_port_order("DFF"), None);
}

#[test]
fn library_resolves_cell_types() {
    let mut lib = CellLibrary::new();
    assert_eq!(lib.node_type_from_cell_type("NAND"), Some(NodeType::Gate(GateType::And(0), true)));
    assert_eq!(lib.node_type_from_cell_type("DFF"), Some(NodeType::Register));
    assert_eq!(lib.node_type_from_cell_type("0"), Some(NodeType::Constant(false)));
    assert_eq!(lib.node_type_from_cell_type("$_AND_"), Some(NodeType::Blackbox("$_AND_".to_string())));
    lib.map_cell_name("$_AND_".to_string(), "and".to_string());
    lib.map_cell_name("$_NOR_".to_string(), "NOR".to_string());
    lib.map_cell_name("$_SDFF_".to_string(), "ram".to_string());
    assert_eq!(lib.node_type_from_cell_type("$_AND_"), Some(NodeType::Gate(GateType::And(0), false)));
    assert_eq!(lib.node_type_from_cell_type("$_NOR_"), Some(NodeType::Gate(GateType::Or(0), true)));
    assert_eq!(lib.node_type_from_cell_type("$_SDFF_"), Some(NodeType::Blackbox("ram".to_string())));
    lib.define_cell("$_SDFF_".to_string(), NodeType::Register);
    lib.define_cell("AND".to_string(), NodeType::Gate(GateType::And(2), false));
    assert_eq!(lib.node_type_from_cell_type("$_SDFF_"), Some(NodeType::Register));
    assert_eq!(lib.node_type_from_cell_type("AND"), Some(NodeType::Gate(GateType::And(2), false)));
    assert_eq!(lib.node_type_from_cell_type("and"), Some(NodeType::Gate(GateType::And(0), false)));
}

#[test]
fn maps_gather_values_under_keys() {
    let mut lists: MapToVec<u32, char> = MapToVec::new();
    assert!(lists.get(&1).is_none());
    lists.append(1, 'a');
    lists.append(2, 'b');
    lists.append(1, 'c');
    lists.append(1, 'a');
    assert_eq!(lists.get(&1), Some(&vec!['a', 'c', 'a']));
    assert_eq!(lists.get(&2), Some(&vec!['b']));
    assert!(lists.get(&3).is_none());
    let mut keys: Vec<u32> = lists.iter().map(|(k, _)| *k).collect();
    keys.sort();
    assert_eq!(keys, vec![1, 2]);
    let mut entries: Vec<(u32, Vec<char>)> = lists.iter().map(|(k, l)| (*k, l.clone())).collect();
    entries.sort();
    assert_eq!(entries, vec![(1, vec!['a', 'c', 'a']), (2, vec!['b'])]);
    assert_eq!(MapToVec::<u32, char>::new().iter().count(), 0);

    let mut sets: MapToSet<u32, u8> = MapToSet::new();
    assert!(sets.get(&1).is_none());
    sets.append(1, 7);
    sets.append(1, 8);
    sets.append(1, 7);
    sets.append(5, 7);
    assert_eq!(sets.get(&1).unwrap().len(), 2);
    assert!(sets.get(&1).unwrap().contains(&7));
    assert!(sets.get(&1).unwrap().contains(&8));
    assert_eq!(sets.get(&5).unwrap().len(), 1);
    assert!(sets.get(&2).is_none());
}

#[test]
fn ranges_have_bounds_and_widths() {
    let r = ConstRange(7, 0);
    assert_eq!(r.hi(), 7);
    assert_eq!(r.lo(), 0);
    assert_eq!(r.width(), 8);
    assert_eq!(ConstRange(0, 7).width(), 8);
    assert_eq!(ConstRange(3, 3).width(), 1);
    assert_eq!(ConstRange(u32::MAX, 1).width(), u32::MAX);
    assert_eq!(ConstRange(2, 5).range(), 2..5);
    assert_eq!(ConstRange(5, 2).range().count(), 0);
    assert_eq!(ConstRange::default(), ConstRange(0, 0));
    assert_eq!(NetType::default(), NetType::Wire);
}

#[test]
fn numbers_have_values_and_bits() {
    assert_eq!(NumberValue::from_str_radix("1010", 2), Some(NumberValue(10)));
    assert_eq!(NumberValue::from_str_radix("ff", 16), Some(NumberValue(255)));
    assert_eq!(NumberValue::from_str_radix("12", 2), None);
    assert_eq!(NumberValue::from_str_radix("", 10), None);
    let v = NumberValue(0b1010);
    assert_eq!((0..5).map(|i| v.bit(i)).collect::<Vec<bool>>(), vec![false, true, false, true, false]);
    assert!(NumberValue(usize::MAX).bit(usize::BITS - 1));
    let n = Number::from_str_radix("f", 16, Some(3)).unwrap();
    assert_eq!(n, Number { size: Some(3), value: NumberValue(15) });
    assert!(n.bit(0) && n.bit(2));
    assert!(!n.bit(3));
    let free = Number::from_str_radix("f", 16, None).unwrap();
    assert!(free.bit(3));
    assert!(!free.bit(4));
    assert_eq!(Number::from_str_radix("g", 16, None), None);
    assert_eq!(n.to_size(), 15);

    let hi = ConstExpr::Primary(Literal::Number(Number { size: None, value: NumberValue(7) }));
    let lo = ConstExpr::Primary(Literal::Number(Number { size: Some(1), value: NumberValue(0) }));
    let text = ConstExpr::Primary(Literal::StringLit("7".to_string()));
    let many = ConstExpr::Concatenation(vec![]);
    assert_eq!(hi.eval(), Some(Number { size: None, value: NumberValue(7) }));
    assert_eq!(text.eval(), None);
    assert_eq!(many.eval(), None);
    assert_eq!(ConstRange::from_const_expr(&hi, &lo), Some(ConstRange(7, 0)));
    assert_eq!(ConstRange::from_const_expr(&hi, &text), None);
    assert_eq!(ConstRange::from_const_expr(&many, &lo), None);
}
