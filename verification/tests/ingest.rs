use masquerade::cell_library::CellLibrary;
use masquerade::circuit::{Circuit, Error};
use masquerade::drafts::{build_circuit, Draft};
use masquerade::from_netlist::{io_node_name, plan_nodes, role_of, NetlistAndLibrary};
use masquerade::masking::Masking;
use masquerade::netlist::{AttributeVal, BitVal, Cell, ConstBit, Module, Netlist, Netname, Port, PortDirection};
use masquerade::node::{GateType, Node, NodeId, NodeType};
use masquerade::table::Table;

fn sig(s: u32) -> BitVal {
    BitVal::Signal(s)
}

fn one() -> BitVal {
    BitVal::Constant(ConstBit::_1)
}

fn cell(kind: &str, ports: &[(&str, PortDirection, Vec<BitVal>)]) -> Cell {
    let mut port_directions = Table::new();
    let mut connections = Table::new();
    for (name, direction, bits) in ports {
        port_directions.insert(name.to_string(), *direction);
        connections.insert(name.to_string(), bits.clone());
    }
    Cell {
        hide_name: false,
        cell_type: kind.to_string(),
        parameters: Table::new(),
        attributes: Table::new(),
        port_directions,
        connections,
    }
}

fn top_module() -> Module {
    let mut m = Module {
        attributes: Table::new(),
        parameter_default_values: Table::new(),
        ports: Table::new(),
        cells: Table::new(),
        memories: Table::new(),
        netnames: Table::new(),
    };
    m.attributes.insert("top".to_string(), AttributeVal::Number(1));
    m
}

fn add_port(m: &mut Module, name: &str, direction: PortDirection, bits: Vec<BitVal>, masq: Option<&str>) {
    m.ports.insert(name.to_string(), Port { direction, bits: bits.clone(), offset: 0 });
    let mut attributes = Table::new();
    if let Some(v) = masq {
        attributes.insert("MASQ".to_string(), AttributeVal::String(v.to_string()));
    }
    m.netnames.insert(name.to_string(), Netname { hide_name: false, bits, attributes });
}

fn source(m: Module) -> NetlistAndLibrary {
    let mut n = Netlist::new("test");
    n.modules.insert("design".to_string(), m);
    NetlistAndLibrary::new(n)
}

fn by_name(c: &Circuit, name: &str) -> NodeId {
    let found: Vec<NodeId> = (0..c.bound() as u32)
        .filter(|i| c.contains(*i) && c.node(*i).name.as_deref() == Some(name))
        .collect();
    assert_eq!(found.len(), 1);
    found[0]
}

fn sources(c: &Circuit, i: NodeId) -> Vec<(NodeId, u8, u8)> {
    c.incoming(i).iter().map(|l| (l.node, l.src_port, l.dst_port)).collect()
}

#[test]
fn constant_drives_an_output() {
    let mut m = top_module();
    add_port(&mut m, "y", PortDirection::Output, vec![one(), BitVal::Constant(ConstBit::_0)], None);

    let c = Circuit::from_netlist(&source(m)).unwrap();

    let y0 = by_name(&c, "y[0]");
    let y1 = by_name(&c, "y[1]");
    assert_eq!(c.node(y0).node_type, NodeType::Output);
    assert_eq!(sources(&c, y0), vec![(c.const_node(true), 0, 0)]);
    assert_eq!(sources(&c, y1), vec![(c.const_node(false), 0, 0)]);
    assert_eq!(c.name(), "design");
    assert_eq!(c.edge_count(), 2);
}

#[test]
fn small_design_is_built_and_masked() {
    let mut m = top_module();
    add_port(&mut m, "a", PortDirection::Input, vec![sig(2)], Some("Secure"));
    add_port(&mut m, "b", PortDirection::Input, vec![sig(3), sig(4)], None);
    add_port(&mut m, "clk", PortDirection::Input, vec![sig(5)], Some("CLOCK"));
    add_port(&mut m, "rst", PortDirection::Input, vec![sig(6)], Some("reset"));
    add_port(&mut m, "y", PortDirection::Output, vec![sig(9)], Some("secure"));
    m.cells.insert(
        "g1".to_string(),
        cell(
            "XOR",
            &[
                ("B", PortDirection::Input, vec![sig(3)]),
                ("Y", PortDirection::Output, vec![sig(7)]),
                ("A", PortDirection::Input, vec![sig(2)]),
            ],
        ),
    );
    let mut hidden = cell(
        "MUX",
        &[
            ("A", PortDirection::Input, vec![sig(7)]),
            ("B", PortDirection::Input, vec![one()]),
            ("S", PortDirection::Input, vec![sig(4)]),
            ("Y", PortDirection::Output, vec![sig(8)]),
        ],
    );
    hidden.hide_name = true;
    m.cells.insert("$auto$1".to_string(), hidden);
    m.cells.insert(
        "ff".to_string(),
        cell(
            "DFF",
            &[
                ("D", PortDirection::Input, vec![sig(8)]),
                ("C", PortDirection::Input, vec![sig(5)]),
                ("Q", PortDirection::Output, vec![sig(9)]),
            ],
        ),
    );

    let mut c = Circuit::from_netlist(&source(m)).unwrap();

    let a = by_name(&c, "a");
    let b0 = by_name(&c, "b[0]");
    let b1 = by_name(&c, "b[1]");
    let clk = by_name(&c, "clk");
    let rst = by_name(&c, "rst");
    let y = by_name(&c, "y");
    let g1 = by_name(&c, "g1");
    let ff = by_name(&c, "ff");
    assert!(c.node(a).secure);
    assert!(c.is_input(a) && c.is_input(b0) && c.is_input(b1));
    assert!(c.is_clock(clk));
    assert_eq!(c.node(rst).node_type, NodeType::Reset);
    assert!(!c.node(y).secure);
    assert!(c.is_output(y));
    assert!(c.is_register(ff));
    assert_eq!(c.node(g1).node_type, NodeType::Gate(GateType::Xor(0), false));
    assert_eq!(sources(&c, g1), vec![(a, 0, 0), (b0, 0, 1)]);
    assert_eq!(sources(&c, ff), vec![(clk, 0, 0)].into_iter().chain([(sources(&c, ff)[1])]).collect::<Vec<_>>());
    let mux = sources(&c, ff)[1].0;
    assert_eq!(c.node(mux).name, None);
    assert_eq!(c.node(mux).node_type, NodeType::Gate(GateType::Mux, false));
    assert_eq!(sources(&c, mux), vec![(b1, 0, 0), (g1, 0, 1), (c.const_node(true), 0, 2)]);
    assert_eq!(sources(&c, y), vec![(ff, 0, 0)]);
    assert_eq!(c.slot_count(), 2 + 6 + 3);
    assert_eq!(c.edge_count(), 2 + 3 + 2 + 1);
    assert_eq!(c.node_input(mux, "S"), Some((b1, 0)));
    assert_eq!(c.node_input(mux, "A"), Some((g1, 0)));
    assert_eq!(c.node_input(ff, "D"), Some((mux, 0)));
    assert_eq!(c.node_input(ff, "C"), Some((clk, 0)));
    assert_eq!(c.node_input(g1, "B"), Some((b0, 0)));
    assert_eq!(
        c.input_order(&NodeType::Gate(GateType::Xor(0), false)),
        Some(&vec!["A".to_string(), "B".to_string()])
    );

    let shares = c.mask(1).unwrap();
    assert!(shares.get(a).is_some() && shares.get(g1).is_some() && shares.get(mux).is_some());
    assert!(shares.get(ff).is_some() && shares.get(y).is_some());
    assert!(shares.get(b0).is_none() && shares.get(clk).is_none());
    let ff1 = shares.get(ff).unwrap()[0].node;
    let mux1 = shares.get(mux).unwrap()[0].node;
    assert_eq!(sources(&c, ff1), vec![(clk, 0, 0), (mux1, 0, 1)]);
    assert_eq!(c.node(by_name(&c, "y_s1")).node_type, NodeType::Output);
}

#[test]
fn blackbox_modules_are_recorded() {
    let mut n = Netlist::new("test");
    let mut ram = top_module();
    ram.attributes.insert("top".to_string(), AttributeVal::Number(0));
    ram.attributes.insert("blackbox".to_string(), AttributeVal::Number(1));
    ram.ports.insert("addr".to_string(), Port { direction: PortDirection::Input, bits: vec![sig(2)], offset: 0 });
    ram.ports.insert("data".to_string(), Port { direction: PortDirection::Output, bits: vec![sig(3)], offset: 0 });
    n.modules.insert("ram".to_string(), ram);
    let mut m = top_module();
    add_port(&mut m, "a", PortDirection::Input, vec![sig(2)], None);
    add_port(&mut m, "y", PortDirection::Output, vec![sig(3)], None);
    m.cells.insert(
        "u".to_string(),
        cell("ram", &[("addr", PortDirection::Input, vec![sig(2)]), ("data", PortDirection::Output, vec![sig(3)])]),
    );
    n.modules.insert("soc".to_string(), m);

    let c = Circuit::from_netlist(&NetlistAndLibrary::new(n)).unwrap();

    assert_eq!(c.name(), "soc");
    let u = by_name(&c, "u");
    assert_eq!(c.node(u).node_type, NodeType::Blackbox("ram".to_string()));
    let bb = c.blackbox("ram").unwrap();
    assert_eq!(bb.inputs, vec!["addr".to_string()]);
    assert_eq!(bb.outputs, vec!["data".to_string()]);
    assert!(c.blackbox("soc").is_none());
    assert_eq!(sources(&c, by_name(&c, "y")), vec![(u, 0, 0)]);
}

#[test]
fn library_names_are_used_for_cells() {
    let mut lib = CellLibrary::new();
    lib.map_cell_name("$_NAND_".to_string(), "NAND".to_string());
    let mut m = top_module();
    add_port(&mut m, "a", PortDirection::Input, vec![sig(2)], None);
    add_port(&mut m, "y", PortDirection::Output, vec![sig(3)], None);
    m.cells.insert(
        "g".to_string(),
        cell(
            "$_NAND_",
            &[
                ("A", PortDirection::Input, vec![sig(2)]),
                ("B", PortDirection::Input, vec![sig(2)]),
                ("Y", PortDirection::Output, vec![sig(3)]),
            ],
        ),
    );
    m.cells.insert("".to_string(), cell("BUF", &[("A", PortDirection::Input, vec![sig(3)])]));
    let mut n = Netlist::new("test");
    n.modules.insert("design".to_string(), m);

    let c = Circuit::from_netlist(&NetlistAndLibrary::with_library(n, lib)).unwrap();

    let g = by_name(&c, "g");
    let a = by_name(&c, "a");
    assert_eq!(c.node(g).node_type, NodeType::Gate(GateType::And(0), true));
    assert_eq!(sources(&c, g), vec![(a, 0, 0), (a, 0, 1)]);
    let unnamed: Vec<NodeId> = (0..c.bound() as u32)
        .filter(|i| c.contains(*i) && c.node(*i).node_type == NodeType::Gate(GateType::Buf, false))
        .collect();
    assert_eq!(unnamed.len(), 1);
    assert_eq!(c.node(unnamed[0]).name, None);
    assert_eq!(sources(&c, unnamed[0]), vec![(g, 0, 0)]);
}

#[test]
fn netlist_without_top_is_refused() {
    let mut n = Netlist::new("test");
    let mut m = top_module();
    m.attributes.insert("top".to_string(), AttributeVal::Number(0));
    n.modules.insert("design".to_string(), m);
    assert!(matches!(Circuit::from_netlist(&NetlistAndLibrary::new(n)), Err(Error::NoTopModule)));
    assert!(matches!(
        Circuit::from_netlist(&NetlistAndLibrary::new(Netlist::new("x"))),
        Err(Error::NoTopModule)
    ));
}

#[test]
fn port_faults_are_refused() {
    let mut m = top_module();
    add_port(&mut m, "a", PortDirection::Input, vec![sig(2)], None);
    m.ports.insert("lost".to_string(), Port { direction: PortDirection::Input, bits: vec![sig(3)], offset: 0 });
    add_port(&mut m, "pad", PortDirection::InOut, vec![sig(4)], None);
    assert!(matches!(Circuit::from_netlist(&source(m)), Err(Error::NetnameNotFound(n)) if n == "lost"));

    let mut m = top_module();
    add_port(&mut m, "pad", PortDirection::InOut, vec![sig(4)], None);
    add_port(&mut m, "a", PortDirection::Input, vec![one()], None);
    assert!(matches!(Circuit::from_netlist(&source(m)), Err(Error::InOutPort(n)) if n == "pad"));

    let mut m = top_module();
    add_port(&mut m, "y", PortDirection::Output, vec![one()], None);
    add_port(&mut m, "a", PortDirection::Input, vec![sig(2), one()], None);
    assert!(matches!(Circuit::from_netlist(&source(m)), Err(Error::ConstantInput(n)) if n == "a"));
}

#[test]
fn cell_faults_are_refused() {
    let mut m = top_module();
    add_port(&mut m, "a", PortDirection::Input, vec![sig(2)], None);
    m.cells.insert(
        "ok".to_string(),
        cell("BUF", &[("A", PortDirection::Input, vec![sig(2)]), ("Y", PortDirection::Output, vec![sig(3)])]),
    );
    m.cells.insert(
        "m".to_string(),
        cell("MUX", &[("A", PortDirection::Input, vec![sig(2)]), ("S", PortDirection::Input, vec![sig(2)])]),
    );
    assert!(matches!(Circuit::from_netlist(&source(m)), Err(Error::BadConnection(n)) if n == "m"));

    let mut m = top_module();
    add_port(&mut m, "a", PortDirection::Input, vec![sig(2)], None);
    m.cells.insert(
        "ff".to_string(),
        cell("DFF", &[("C", PortDirection::Input, vec![sig(2)]), ("D", PortDirection::Input, vec![sig(2), sig(2)])]),
    );
    assert!(matches!(Circuit::from_netlist(&source(m)), Err(Error::BadConnection(n)) if n == "ff"));

    let mut m = top_module();
    add_port(&mut m, "a", PortDirection::Input, vec![sig(2)], None);
    m.cells.insert("w".to_string(), cell("AND", &[("A", PortDirection::Input, vec![sig(2), sig(2)])]));
    assert!(matches!(Circuit::from_netlist(&source(m)), Err(Error::BadConnection(n)) if n == "w"));
}

#[test]
fn driver_faults_are_refused() {
    let mut m = top_module();
    add_port(&mut m, "a", PortDirection::Input, vec![sig(2)], None);
    add_port(&mut m, "b", PortDirection::Input, vec![sig(2)], None);
    assert!(matches!(Circuit::from_netlist(&source(m)), Err(Error::DuplicateDriver(2))));

    let mut m = top_module();
    add_port(&mut m, "a", PortDirection::Input, vec![sig(2)], None);
    m.cells.insert(
        "g".to_string(),
        cell("BUF", &[("A", PortDirection::Input, vec![sig(2)]), ("Y", PortDirection::Output, vec![sig(2)])]),
    );
    assert!(matches!(Circuit::from_netlist(&source(m)), Err(Error::DuplicateDriver(2))));

    let mut m = top_module();
    add_port(&mut m, "y", PortDirection::Output, vec![sig(5)], None);
    assert!(matches!(Circuit::from_netlist(&source(m)), Err(Error::UndrivenSignal(5))));

    let mut m = top_module();
    add_port(&mut m, "y", PortDirection::Output, vec![BitVal::Constant(ConstBit::X)], None);
    assert!(matches!(Circuit::from_netlist(&source(m)), Err(Error::UndefinedBit)));

    let mut m = top_module();
    add_port(&mut m, "y", PortDirection::Output, vec![BitVal::Constant(ConstBit::Z)], None);
    assert!(matches!(Circuit::from_netlist(&source(m)), Err(Error::UndefinedBit)));
}

#[test]
fn constant_cells_and_wide_cells_are_refused() {
    let mut m = top_module();
    m.cells.insert("k".to_string(), cell("1", &[("Y", PortDirection::Output, vec![sig(2)])]));
    assert!(matches!(Circuit::from_netlist(&source(m)), Err(Error::DuplicateConstant)));

    let mut m = top_module();
    add_port(&mut m, "a", PortDirection::Input, vec![sig(2)], None);
    let names: Vec<String> = (0..257).map(|k| format!("p{}", k)).collect();
    let ports: Vec<(&str, PortDirection, Vec<BitVal>)> =
        names.iter().map(|n| (n.as_str(), PortDirection::Input, vec![sig(2)])).collect();
    m.cells.insert("wide".to_string(), cell("AND", &ports));
    assert!(matches!(Circuit::from_netlist(&source(m)), Err(Error::TooManyPorts(1))));
}

#[test]
fn drafts_are_planned_port_by_port() {
    let mut m = top_module();
    add_port(&mut m, "a", PortDirection::Input, vec![sig(2), sig(3)], Some("secure"));
    add_port(&mut m, "y", PortDirection::Output, vec![sig(4)], None);
    m.cells.insert(
        "g".to_string(),
        cell(
            "AND",
            &[
                ("B", PortDirection::Input, vec![sig(3)]),
                ("A", PortDirection::Input, vec![sig(2)]),
                ("Y", PortDirection::Output, vec![sig(4), one()]),
            ],
        ),
    );
    let drafts = plan_nodes(&m, &CellLibrary::new()).unwrap();
    assert_eq!(drafts.len(), 4);
    assert_eq!(drafts[0].node.name, Some("a[0]".to_string()));
    assert_eq!(drafts[1].node.name, Some("a[1]".to_string()));
    assert!(drafts[0].node.secure && drafts[1].node.secure);
    assert_eq!(drafts[1].outputs, vec![vec![sig(3)]]);
    assert_eq!(drafts[1].inputs, vec![]);
    assert_eq!(drafts[2].node.name, Some("y".to_string()));
    assert_eq!(drafts[2].node.node_type, NodeType::Output);
    assert_eq!(drafts[2].outputs, Vec::<Vec<BitVal>>::new());
    assert_eq!(drafts[2].inputs, vec![sig(4)]);
    assert_eq!(drafts[3].node.name, Some("g".to_string()));
    assert_eq!(drafts[3].outputs, vec![vec![sig(4), one()]]);
    assert_eq!(drafts[3].inputs, vec![sig(2), sig(3)]);
}

#[test]
fn circuits_are_built_from_drafts() {
    let draft = |kind: NodeType, outputs: Vec<Vec<BitVal>>, inputs: Vec<BitVal>| Draft {
        node: Node { secure: false, node_type: kind, name: None },
        outputs,
        inputs,
    };
    let drafts = vec![
        draft(NodeType::Input, vec![vec![sig(1)]], vec![]),
        draft(NodeType::Blackbox("two".to_string()), vec![vec![sig(2)], vec![one(), sig(3)]], vec![sig(1), sig(3)]),
        draft(NodeType::Output, vec![], vec![sig(3)]),
    ];
    let c = build_circuit("t".to_string(), &drafts).unwrap();
    let input = (0..c.bound() as u32).find(|i| c.contains(*i) && c.is_input(*i)).unwrap();
    let output = (0..c.bound() as u32).find(|i| c.contains(*i) && c.is_output(*i)).unwrap();
    let bb = sources(&c, output)[0].0;
    assert_eq!(sources(&c, output), vec![(bb, 1, 0)]);
    assert_eq!(sources(&c, bb), vec![(input, 0, 0), (bb, 1, 1)]);
    assert_eq!(c.name(), "t");

    let twice = vec![
        draft(NodeType::Input, vec![vec![sig(1), sig(1)]], vec![]),
    ];
    assert!(matches!(build_circuit("t".to_string(), &twice), Err(Error::DuplicateDriver(1))));
    let many = vec![draft(NodeType::Input, (0..257).map(|k| vec![sig(k)]).collect(), vec![])];
    assert!(matches!(build_circuit("t".to_string(), &many), Err(Error::TooManyPorts(0))));
}

#[test]
fn roles_and_names_of_port_nodes() {
    let net = |v: Option<AttributeVal>| {
        let mut attributes = Table::new();
        if let Some(v) = v {
            attributes.insert("MASQ".to_string(), v);
        }
        Netname { hide_name: false, bits: vec![], attributes }
    };
    let s = |t: &str| Some(AttributeVal::String(t.to_string()));
    assert_eq!(role_of(&net(s("secure"))), (NodeType::Input, true));
    assert_eq!(role_of(&net(s("SECURE"))), (NodeType::Input, true));
    assert_eq!(role_of(&net(s("clock"))), (NodeType::Clock, false));
    assert_eq!(role_of(&net(s("Reset"))), (NodeType::Reset, false));
    assert_eq!(role_of(&net(s("secure "))), (NodeType::Input, false));
    assert_eq!(role_of(&net(s("other"))), (NodeType::Input, false));
    assert_eq!(role_of(&net(Some(AttributeVal::Number(1)))), (NodeType::Input, false));
    assert_eq!(role_of(&net(None)), (NodeType::Input, false));
    let mut wrong = Table::new();
    wrong.insert("masq".to_string(), AttributeVal::String("secure".to_string()));
    assert_eq!(role_of(&Netname { hide_name: false, bits: vec![], attributes: wrong }), (NodeType::Input, false));

    assert_eq!(io_node_name("a", 1, 0), "a");
    assert_eq!(io_node_name("a", 0, 0), "a");
    assert_eq!(io_node_name("a", 2, 0), "a[0]");
    assert_eq!(io_node_name("data", 128, 127), "data[127]");
    assert_eq!(io_node_name("d", 1000, 1000), "d[1000]");
}

#[test]
fn circuit_is_framed_as_a_netlist() {
    let mut c = Circuit::new();
    c.set_name("design".to_string());
    let named = |kind: NodeType, name: &str| Node { secure: false, node_type: kind, name: Some(name.to_string()) };
    c.add_node(named(NodeType::Input, "b")).unwrap();
    c.add_node(named(NodeType::Output, "y")).unwrap();
    c.add_node(named(NodeType::Input, "a[1]")).unwrap();
    c.add_node(named(NodeType::Gate(GateType::Buf, false), "g")).unwrap();
    c.add_node(named(NodeType::Input, "b")).unwrap();

    let n = c.to_netlist().unwrap();

    assert_eq!(n.creator, "masquerade");
    assert_eq!(n.modules.len(), 1);
    assert_eq!(n.modules.name(0), "design");
    let top = n.modules.value(0);
    assert!(top.is_top());
    assert_eq!(top.inputs(), vec!["b".to_string(), "a[1]".to_string()]);
    assert_eq!(top.outputs(), Vec::<String>::new());
    assert_eq!(top.ports.value(0).bits.len(), 0);
    assert_eq!(top.cells.len(), 0);
    assert_eq!(top.netnames.len(), 0);
    // The frame has no nets, so it cannot be read back with its ports.
    assert!(matches!(
        Circuit::from_netlist(&NetlistAndLibrary::new(n)),
        Err(Error::NetnameNotFound(name)) if name == "b"
    ));

    let unnamed = c.add_node(Node { secure: false, node_type: NodeType::Input, name: None }).unwrap();
    assert!(matches!(c.to_netlist(), Err(Error::UnnamedInput(v)) if v == unnamed));

    let mut bare = Circuit::new();
    bare.set_name("bare".to_string());
    let back = Circuit::from_netlist(&NetlistAndLibrary::new(bare.to_netlist().unwrap())).unwrap();
    assert_eq!(back.name(), "bare");
    assert_eq!(back.slot_count(), 2);
    assert_eq!(back.edge_count(), 0);
}
