use masquerade::circuit::{Circuit, Error};
use masquerade::node::{Blackbox, GateType, Node, NodeId, NodeType};

fn plain(kind: NodeType) -> Node {
    Node { secure: false, node_type: kind, name: None }
}

fn live(c: &Circuit) -> Vec<NodeId> {
    (0..c.bound() as u32).filter(|i| c.contains(*i)).collect()
}

#[test]
fn new_circuit_holds_the_two_constants() {
    let c = Circuit::new();
    let zero = c.const_node(false);
    let one = c.const_node(true);
    assert_ne!(zero, one);
    assert_eq!(c.node(zero).node_type, NodeType::Constant(false));
    assert_eq!(c.node(one).node_type, NodeType::Constant(true));
    assert_eq!(live(&c).len(), 2);
    assert_eq!(c.slot_count(), 2);
    assert_eq!(c.edge_count(), 0);
    assert_eq!(c.name(), "");
}

#[test]
fn default_circuit_is_the_new_circuit() {
    let c = Circuit::default();
    assert_eq!(c.slot_count(), 2);
    assert_eq!(c.edge_count(), 0);
    assert_eq!(c.node(c.const_node(true)).node_type, NodeType::Constant(true));
    assert_eq!(c.inputs(), Vec::<NodeId>::new());
}

#[test]
fn constants_are_interned_for_good() {
    let mut c = Circuit::new();
    let zero = c.const_node(false);
    let one = c.const_node(true);
    assert!(matches!(c.add_node(Node::constant(true)), Err(Error::DuplicateConstant)));
    assert!(matches!(c.add_node(Node::constant(false)), Err(Error::DuplicateConstant)));
    assert!(!c.remove_node(zero));
    assert!(!c.remove_node(one));
    let a = c.add_node(plain(NodeType::Input)).unwrap();
    assert!(c.remove_node(a));
    assert_eq!(c.const_node(false), zero);
    assert_eq!(c.const_node(true), one);
    assert_eq!(live(&c), {
        let mut v = vec![zero, one];
        v.sort();
        v
    });
}

#[test]
fn role_sets_follow_the_kinds() {
    let mut c = Circuit::new();
    let i = c.add_node(plain(NodeType::Input)).unwrap();
    let k = c.add_node(plain(NodeType::Clock)).unwrap();
    let r = c.add_node(plain(NodeType::Register)).unwrap();
    let o = c.add_node(plain(NodeType::Output)).unwrap();
    let g = c.add_node(plain(NodeType::Gate(GateType::And(2), false))).unwrap();
    let t = c.add_node(plain(NodeType::Reset)).unwrap();
    for n in live(&c) {
        assert_eq!(c.is_input(n), n == i);
        assert_eq!(c.is_clock(n), n == k);
        assert_eq!(c.is_register(n), n == r);
        assert_eq!(c.is_output(n), n == o);
    }
    assert!(c.remove_node(i));
    assert!(c.remove_node(o));
    assert!(!c.is_input(i));
    assert!(!c.is_output(o));
    assert!(c.is_clock(k));
    c.make_gadget(g, 3);
    assert!(!c.is_input(g) && !c.is_output(g) && !c.is_register(g) && !c.is_clock(g));
    assert!(c.contains(t));
}

#[test]
fn removed_index_is_not_handed_out_again() {
    let mut c = Circuit::new();
    let a = c.add_node(plain(NodeType::Input)).unwrap();
    let b = c.add_node(plain(NodeType::Gate(GateType::Buf, false))).unwrap();
    let o = c.add_node(plain(NodeType::Output)).unwrap();
    c.connect(a, 0, b, 0).unwrap();
    c.connect(b, 0, o, 0).unwrap();
    c.connect(b, 0, b, 1).unwrap();
    assert_eq!(c.edge_count(), 3);

    assert!(c.remove_node(b));

    assert!(!c.contains(b));
    assert!(!c.remove_node(b));
    assert_eq!(c.edge_count(), 0);
    assert_eq!(c.incoming(o).len(), 0);
    assert_eq!(c.fanout(a), 0);
    let mut seen = vec![a, b, o, c.const_node(false), c.const_node(true)];
    for _ in 0..5 {
        let n = c.add_node(plain(NodeType::Gate(GateType::Buf, false))).unwrap();
        assert!(!seen.contains(&n));
        seen.push(n);
    }
    assert!(!c.contains(b));
    assert!(matches!(c.connect(a, 0, b, 0), Err(Error::NodeNotFound(n)) if n == b));
    assert!(matches!(c.connect(b, 0, a, 0), Err(Error::NodeNotFound(n)) if n == b));
}

#[test]
fn several_wires_may_enter_one_port() {
    let mut c = Circuit::new();
    let a = c.add_node(plain(NodeType::Input)).unwrap();
    let b = c.add_node(plain(NodeType::Input)).unwrap();
    let g = c.add_node(plain(NodeType::Gate(GateType::Xor(2), false))).unwrap();
    let e1 = c.connect(a, 0, g, 0).unwrap();
    let e2 = c.connect(b, 0, g, 0).unwrap();
    let e3 = c.connect(a, 0, g, 0).unwrap();
    assert_ne!(e1, e2);
    assert_ne!(e1, e3);
    assert_eq!(c.incoming(g).len(), 3);
    assert_eq!(c.fanout(a), 2);
    assert!(c.disconnect(e1));
    assert!(!c.disconnect(e1));
    assert_eq!(c.incoming(g).len(), 2);
    assert_eq!(c.fanout(a), 1);
    assert_eq!(c.edge_count(), 2);
}

#[test]
fn incoming_is_ordered_by_port_then_source() {
    let mut c = Circuit::new();
    let a = c.add_node(plain(NodeType::Input)).unwrap();
    let b = c.add_node(plain(NodeType::Input)).unwrap();
    let d = c.add_node(plain(NodeType::Input)).unwrap();
    let g = c.add_node(plain(NodeType::Gate(GateType::And(3), false))).unwrap();
    c.connect(d, 0, g, 2).unwrap();
    c.connect(b, 3, g, 1).unwrap();
    c.connect(b, 1, g, 1).unwrap();
    c.connect(d, 0, g, 0).unwrap();
    c.connect(a, 0, g, 1).unwrap();
    c.connect(a, 0, g, 0).unwrap();
    let got: Vec<(NodeId, u8, u8)> = c.incoming(g).iter().map(|l| (l.node, l.src_port, l.dst_port)).collect();
    assert_eq!(got, vec![(a, 0, 0), (d, 0, 0), (a, 0, 1), (b, 1, 1), (b, 3, 1), (d, 0, 2)]);
    assert_eq!(c.node_inputs(g), vec![a, d, a, b, b, d]);
    assert_eq!(c.input_at(g, 1), Some((a, 0)));
    assert_eq!(c.input_at(g, 2), Some((d, 0)));
    assert_eq!(c.input_at(g, 3), None);
    assert_eq!(c.incoming(a).len(), 0);
}

#[test]
fn secure_inputs_and_outputs_are_filtered_and_rising() {
    let mut c = Circuit::new();
    let mut ins = Vec::new();
    let mut outs = Vec::new();
    for k in 0..6 {
        let i = c.add_node(Node { secure: k % 2 == 0, node_type: NodeType::Input, name: None }).unwrap();
        let o = c.add_node(Node { secure: k % 3 == 0, node_type: NodeType::Output, name: None }).unwrap();
        if k % 2 == 0 {
            ins.push(i);
        }
        if k % 3 == 0 {
            outs.push(o);
        }
    }
    c.add_node(Node { secure: true, node_type: NodeType::Gate(GateType::Buf, false), name: None }).unwrap();
    ins.sort();
    outs.sort();
    assert_eq!(c.secure_inputs(), ins);
    assert_eq!(c.secure_outputs(), outs);
    c.set_secure(ins[0], false);
    assert_eq!(c.secure_inputs(), ins[1..].to_vec());
}

#[test]
fn node_attributes_can_be_changed() {
    let mut c = Circuit::new();
    let g = c.add_node(plain(NodeType::Gate(GateType::Or(2), false))).unwrap();
    c.set_secure(g, true);
    c.set_node_name(g, Some("g".to_string()));
    c.flip_inversion(g);
    assert!(c.node(g).secure);
    assert_eq!(c.node(g).name, Some("g".to_string()));
    assert_eq!(c.node(g).node_type, NodeType::Gate(GateType::Or(2), true));
    c.flip_inversion(g);
    assert_eq!(c.node(g).node_type, NodeType::Gate(GateType::Or(2), false));
    c.make_gadget(g, 2);
    assert_eq!(
        c.node(g).node_type,
        NodeType::Gadget { base_type: GateType::Or(2), invert: false, num_shares: 2 }
    );
    c.set_name("top".to_string());
    assert_eq!(c.name(), "top");
}

#[test]
fn cone_follows_wires_forward_and_backward() {
    let mut c = Circuit::new();
    let n: Vec<NodeId> = (0..6).map(|_| c.add_node(plain(NodeType::Gate(GateType::Buf, false))).unwrap()).collect();
    c.connect(n[0], 0, n[1], 0).unwrap();
    c.connect(n[1], 0, n[2], 0).unwrap();
    c.connect(n[2], 0, n[1], 0).unwrap();
    c.connect(n[3], 0, n[2], 0).unwrap();
    c.connect(n[4], 0, n[5], 0).unwrap();
    let forward = c.cone(&vec![n[0]], false);
    let reached: Vec<NodeId> = n.iter().copied().filter(|i| forward[*i as usize]).collect();
    assert_eq!(reached, vec![n[0], n[1], n[2]]);
    let backward = c.cone(&vec![n[2], n[5]], true);
    let reached: Vec<NodeId> = n.iter().copied().filter(|i| backward[*i as usize]).collect();
    assert_eq!(reached, vec![n[0], n[1], n[2], n[3], n[4], n[5]]);
    let none = c.cone(&Vec::new(), false);
    assert!(none.iter().all(|m| !m));
    assert!(!forward[c.const_node(true) as usize]);
}

#[test]
fn port_names_and_blackboxes_are_recorded() {
    let mut c = Circuit::new();
    let mux = c.add_node(plain(NodeType::Gate(GateType::Mux, false))).unwrap();
    let s = c.add_node(plain(NodeType::Input)).unwrap();
    let a = c.add_node(plain(NodeType::Input)).unwrap();
    c.connect(s, 0, mux, 0).unwrap();
    c.connect(a, 2, mux, 1).unwrap();
    assert!(c.input_order(&NodeType::Gate(GateType::Mux, false)).is_none());
    assert_eq!(c.node_input(mux, "S"), None);
    c.set_input_order(
        NodeType::Gate(GateType::Mux, false),
        vec!["S".to_string(), "A".to_string(), "B".to_string()],
    );
    assert_eq!(c.input_order(&NodeType::Gate(GateType::Mux, false)).unwrap().len(), 3);
    assert!(c.input_order(&NodeType::Gate(GateType::Mux, true)).is_none());
    assert_eq!(c.node_input(mux, "S"), Some((s, 0)));
    assert_eq!(c.node_input(mux, "A"), Some((a, 2)));
    assert_eq!(c.node_input(mux, "B"), None);
    assert_eq!(c.node_input(mux, "Q"), None);
    c.set_input_order(NodeType::Gate(GateType::Mux, false), vec!["A".to_string(), "S".to_string()]);
    assert_eq!(c.node_input(mux, "S"), Some((a, 2)));

    assert!(c.blackbox("ram").is_none());
    c.add_blackbox(
        "ram".to_string(),
        Blackbox { inputs: vec!["addr".to_string()], outputs: vec!["data".to_string()] },
    );
    assert_eq!(c.blackbox("ram").unwrap().inputs, vec!["addr".to_string()]);
    assert!(c.blackbox("rom").is_none());
}
