use masquerade::circuit::Circuit;
use masquerade::dot::{document, edge_attributes, node_attributes, node_label, node_shape, ranked};
use masquerade::masking::Masking;
use masquerade::node::{GateType, Node, NodeType};

fn node(kind: NodeType, secure: bool, name: Option<&str>) -> Node {
    Node { secure, node_type: kind, name: name.map(|s| s.to_string()) }
}

#[test]
fn node_attributes_show_label_shape_and_colour() {
    let gate = NodeType::Gate(GateType::And(2), true);
    assert_eq!(node_attributes(&node(gate.clone(), false, None)), "label=\"NAND\", shape=\"record\"");
    assert_eq!(
        node_attributes(&node(gate.clone(), true, Some("g1"))),
        "label=\"g1\", shape=\"record\", color=\"red\""
    );
    assert_eq!(node_attributes(&node(NodeType::Register, false, None)), "label=\"FF\", shape=\"record\"");
    assert_eq!(
        node_attributes(&node(NodeType::Constant(true), false, None)),
        "label=\"1\", shape=\"octagon\""
    );
    assert_eq!(node_attributes(&node(NodeType::Input, true, Some("a[0]"))), "label=\"a[0]\", color=\"red\"");
    assert_eq!(node_attributes(&node(NodeType::Output, false, None)), "label=\"OUT\"");
    assert_eq!(
        node_attributes(&node(
            NodeType::Gadget { base_type: GateType::And(2), invert: false, num_shares: 2 },
            true,
            None
        )),
        "label=\"AND Gadget\", color=\"red\""
    );
    assert_eq!(node_label(&node(NodeType::Clock, false, None)), "CLOCK");
    assert_eq!(node_shape(&NodeType::Blackbox("x".to_string())), None);
    assert_eq!(node_shape(&gate), Some("record"));
}

#[test]
fn edge_attributes_show_colour_and_ports() {
    assert_eq!(edge_attributes(false, 0, 0), "label=\"0,0\"");
    assert_eq!(edge_attributes(true, 1, 12), "color=\"red\", label=\"1,12\"");
    assert_eq!(edge_attributes(false, 255, 100), "label=\"255,100\"");
}

#[test]
fn documents_frame_the_content() {
    assert_eq!(ranked(&vec![]), "");
    assert_eq!(ranked(&vec![2, 10, 300]), "2;10;300;");
    assert_eq!(
        document("body", &vec![2, 3], &vec![]),
        "digraph \"netlist\" {\n  rankdir=\"LR\";\n  remincross=true;\nbody\n  {rank=\"source\";2;3;}\n  {rank=\"sink\";}\n}"
    );
}

#[test]
fn circuit_is_drawn_node_by_node_and_wire_by_wire() {
    let mut c = Circuit::new();
    let a = c.add_node(node(NodeType::Input, true, Some("a"))).unwrap();
    let g = c.add_node(node(NodeType::Gate(GateType::Buf, true), false, None)).unwrap();
    let y = c.add_node(node(NodeType::Output, false, Some("y"))).unwrap();
    let gone = c.add_node(node(NodeType::Register, false, None)).unwrap();
    c.connect(a, 0, g, 0).unwrap();
    c.connect(g, 0, y, 0).unwrap();
    c.connect(g, 0, gone, 1).unwrap();
    assert!(c.remove_node(gone));
    let zero = c.const_node(false);
    let one = c.const_node(true);
    assert_eq!((zero, one, a, g, y, gone), (0, 1, 2, 3, 4, 5));

    let expected = "digraph \"netlist\" {\n  rankdir=\"LR\";\n  remincross=true;\n    \
        0 [ label=\"0\", shape=\"octagon\"]\n    \
        1 [ label=\"1\", shape=\"octagon\"]\n    \
        2 [ label=\"a\", color=\"red\"]\n    \
        3 [ label=\"NOT\", shape=\"record\"]\n    \
        4 [ label=\"y\"]\n    \
        5 [ style=\"invis\"]\n    \
        2 -> 3 [ color=\"red\", label=\"0,0\"]\n    \
        3 -> 4 [ label=\"0,0\"]\n\
        \n  {rank=\"source\";2;}\n  {rank=\"sink\";4;}\n}";
    assert_eq!(c.to_dot(), expected);
    assert_eq!(c.inputs(), vec![a]);
    assert_eq!(c.outputs(), vec![y]);

    c.mask(1).unwrap();
    let text = c.to_dot();
    assert!(text.contains("label=\"a_s1\", color=\"red\""));
    assert!(text.contains("label=\"y_s0\", color=\"red\""));
    assert!(text.contains("{rank=\"source\";2;6;}"));
    assert_eq!(text.matches(" -> ").count(), 4);
}
