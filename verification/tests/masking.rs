use masquerade::circuit::{Circuit, Error};
use masquerade::masking::Masking;
use masquerade::node::{GateType, Node, NodeId, NodeType};
use masquerade::shares::Replica;
use masquerade::wiring::Link;

fn named(kind: NodeType, secure: bool, name: &str) -> Node {
    Node { secure, node_type: kind, name: Some(name.to_string()) }
}

fn gate(family: GateType, name: &str) -> Node {
    named(NodeType::Gate(family, false), false, name)
}

fn name_of(c: &Circuit, i: NodeId) -> Option<String> {
    c.node(i).name.clone()
}

fn sources(c: &Circuit, i: NodeId) -> Vec<(NodeId, u8, u8)> {
    c.incoming(i).iter().map(|l: &Link| (l.node, l.src_port, l.dst_port)).collect()
}

fn live_nodes(c: &Circuit) -> Vec<NodeId> {
    (0..c.bound() as u32).filter(|i| c.contains(*i)).collect()
}

fn snapshot(c: &Circuit) -> Vec<(NodeId, bool, NodeType, Option<String>, Vec<(NodeId, u8, u8)>)> {
    live_nodes(c)
        .into_iter()
        .map(|i| (i, c.node(i).secure, c.node(i).node_type.clone(), c.node(i).name.clone(), sources(c, i)))
        .collect()
}

#[test]
fn secure_buffer_is_replicated_share_for_share() {
    let mut c = Circuit::new();
    let a = c.add_node(named(NodeType::Input, true, "a")).unwrap();
    let b = c.add_node(gate(GateType::Buf, "b")).unwrap();
    let y = c.add_node(named(NodeType::Output, false, "y")).unwrap();
    c.connect(a, 0, b, 0).unwrap();
    c.connect(b, 0, y, 0).unwrap();

    let shares = c.mask(1).unwrap();

    let a1 = shares.get(a).unwrap()[0].node;
    let b1 = shares.get(b).unwrap()[0].node;
    let y1 = shares.get(y).unwrap()[0].node;
    assert_eq!(name_of(&c, a), Some("a_s0".to_string()));
    assert_eq!(name_of(&c, a1), Some("a_s1".to_string()));
    assert_eq!(name_of(&c, b), Some("b_s0".to_string()));
    assert_eq!(name_of(&c, b1), Some("b_s1".to_string()));
    assert_eq!(name_of(&c, y), Some("y_s0".to_string()));
    assert_eq!(name_of(&c, y1), Some("y_s1".to_string()));
    assert_eq!(sources(&c, b), vec![(a, 0, 0)]);
    assert_eq!(sources(&c, b1), vec![(a1, 0, 0)]);
    assert_eq!(sources(&c, y), vec![(b, 0, 0)]);
    assert_eq!(sources(&c, y1), vec![(b1, 0, 0)]);
    for i in [a, a1, b, b1, y, y1] {
        assert!(c.node(i).secure);
        assert!(!matches!(c.node(i).node_type, NodeType::Gadget { .. }));
    }
    assert_eq!(c.node(b1).node_type, NodeType::Gate(GateType::Buf, false));
    assert_eq!(c.node(y1).node_type, NodeType::Output);
    assert!(c.is_output(y1));
    assert!(c.is_input(a1));
    assert_eq!(live_nodes(&c).len(), 8);
    assert_eq!(c.edge_count(), 4);
}

#[test]
fn secure_or_is_consolidated_into_its_single_fanout_inputs() {
    let mut c = Circuit::new();
    let i1 = c.add_node(named(NodeType::Input, true, "i1")).unwrap();
    let i2 = c.add_node(named(NodeType::Input, true, "i2")).unwrap();
    let a = c.add_node(gate(GateType::Buf, "a")).unwrap();
    let b = c.add_node(gate(GateType::Buf, "b")).unwrap();
    let y = c.add_node(gate(GateType::Or(2), "y")).unwrap();
    let o = c.add_node(named(NodeType::Output, false, "o")).unwrap();
    c.connect(i1, 0, a, 0).unwrap();
    c.connect(i2, 0, b, 0).unwrap();
    c.connect(a, 0, y, 0).unwrap();
    c.connect(b, 0, y, 1).unwrap();
    c.connect(y, 0, o, 0).unwrap();

    c.propagate_secure();
    let before = live_nodes(&c).len();
    c.convert_secure_ors().unwrap();

    assert_eq!(live_nodes(&c).len(), before);
    assert_eq!(c.node(y).node_type, NodeType::Gate(GateType::Or(2), true));
    assert_eq!(c.node(a).node_type, NodeType::Gate(GateType::Buf, true));
    assert_eq!(c.node(b).node_type, NodeType::Gate(GateType::Buf, true));
    assert_eq!(sources(&c, y), vec![(a, 0, 0), (b, 0, 1)]);

    let shares = c.expand_shares(1).unwrap();

    assert_eq!(
        c.node(y).node_type,
        NodeType::Gadget { base_type: GateType::Or(2), invert: true, num_shares: 2 }
    );
    assert_eq!(shares.get(y).unwrap().clone(), vec![Replica { node: y, src_offset: 1, dst_offset: 2 }]);
}

#[test]
fn masking_turns_secure_or_into_gadget() {
    let mut c = Circuit::new();
    let i1 = c.add_node(named(NodeType::Input, true, "i1")).unwrap();
    let i2 = c.add_node(named(NodeType::Input, true, "i2")).unwrap();
    let a = c.add_node(gate(GateType::Buf, "a")).unwrap();
    let b = c.add_node(gate(GateType::Buf, "b")).unwrap();
    let y = c.add_node(gate(GateType::Or(2), "y")).unwrap();
    let o = c.add_node(named(NodeType::Output, false, "o")).unwrap();
    c.connect(i1, 0, a, 0).unwrap();
    c.connect(i2, 0, b, 0).unwrap();
    c.connect(a, 0, y, 0).unwrap();
    c.connect(b, 0, y, 1).unwrap();
    c.connect(y, 0, o, 0).unwrap();

    let shares = c.mask(1).unwrap();

    assert_eq!(
        c.node(y).node_type,
        NodeType::Gadget { base_type: GateType::Or(2), invert: true, num_shares: 2 }
    );
    let a1 = shares.get(a).unwrap()[0].node;
    let b1 = shares.get(b).unwrap()[0].node;
    let o1 = shares.get(o).unwrap()[0].node;
    // The original carries the inversion, the replica does not.
    assert_eq!(c.node(a).node_type, NodeType::Gate(GateType::Buf, true));
    assert_eq!(c.node(a1).node_type, NodeType::Gate(GateType::Buf, false));
    assert_eq!(sources(&c, y), vec![(a, 0, 0), (b, 0, 1), (a1, 0, 2), (b1, 0, 3)]);
    assert_eq!(sources(&c, o), vec![(y, 0, 0)]);
    assert_eq!(sources(&c, o1), vec![(y, 1, 0)]);
}

#[test]
fn or_with_multi_fanout_input_gets_an_inverter_on_that_wire_only() {
    let mut c = Circuit::new();
    let i1 = c.add_node(named(NodeType::Input, true, "i1")).unwrap();
    let i2 = c.add_node(named(NodeType::Input, true, "i2")).unwrap();
    let a = c.add_node(gate(GateType::Buf, "a")).unwrap();
    let b = c.add_node(gate(GateType::Buf, "b")).unwrap();
    let y = c.add_node(gate(GateType::Or(2), "y")).unwrap();
    let z = c.add_node(gate(GateType::Buf, "z")).unwrap();
    c.connect(i1, 0, a, 0).unwrap();
    c.connect(i2, 0, b, 0).unwrap();
    c.connect(a, 0, y, 0).unwrap();
    c.connect(b, 0, y, 1).unwrap();
    c.connect(a, 0, z, 0).unwrap();

    c.propagate_secure();
    let bound = c.bound() as u32;
    c.convert_secure_ors().unwrap();

    let added: Vec<NodeId> = live_nodes(&c).into_iter().filter(|i| *i >= bound).collect();
    assert_eq!(added.len(), 1);
    let inv = added[0];
    assert_eq!(c.node(inv).node_type, NodeType::Gate(GateType::Buf, true));
    assert_eq!(c.node(inv).name, None);
    assert!(c.node(inv).secure);
    assert_eq!(sources(&c, inv), vec![(a, 0, 0)]);
    assert_eq!(sources(&c, y), vec![(inv, 0, 0), (b, 0, 1)]);
    // The other sink and the shared driver are untouched.
    assert_eq!(sources(&c, z), vec![(a, 0, 0)]);
    assert_eq!(c.node(a).node_type, NodeType::Gate(GateType::Buf, false));
    assert_eq!(c.node(b).node_type, NodeType::Gate(GateType::Buf, true));
    assert_eq!(c.node(y).node_type, NodeType::Gate(GateType::Or(2), true));
    assert_eq!(c.fanout(a), 2);
}

#[test]
fn and_with_an_insecure_input_is_replicated_and_the_input_broadcast() {
    let mut c = Circuit::new();
    let a = c.add_node(named(NodeType::Input, true, "a")).unwrap();
    let b = c.add_node(named(NodeType::Input, false, "b")).unwrap();
    let y = c.add_node(gate(GateType::And(2), "y")).unwrap();
    let o = c.add_node(named(NodeType::Output, false, "o")).unwrap();
    c.connect(a, 0, y, 0).unwrap();
    c.connect(b, 0, y, 1).unwrap();
    c.connect(y, 0, o, 0).unwrap();

    let shares = c.mask(2).unwrap();

    let ys = shares.get(y).unwrap().clone();
    let az = shares.get(a).unwrap().clone();
    assert_eq!(ys.len(), 2);
    assert_eq!(az.len(), 2);
    assert!(shares.get(b).is_none());
    assert_eq!(c.node(y).node_type, NodeType::Gate(GateType::And(2), false));
    assert_eq!(sources(&c, y), vec![(a, 0, 0), (b, 0, 1)]);
    for s in 0..2 {
        assert_eq!(ys[s].src_offset, 0);
        assert_eq!(ys[s].dst_offset, 0);
        assert_eq!(c.node(ys[s].node).node_type, NodeType::Gate(GateType::And(2), false));
        assert_eq!(sources(&c, ys[s].node), vec![(az[s].node, 0, 0), (b, 0, 1)]);
    }
    assert_eq!(name_of(&c, ys[0].node), Some("y_s1".to_string()));
    assert_eq!(name_of(&c, ys[1].node), Some("y_s2".to_string()));
    assert_eq!(name_of(&c, y), Some("y_s0".to_string()));
    assert!(!c.node(b).secure);
    assert_eq!(name_of(&c, b), Some("b".to_string()));
    assert_eq!(c.fanout(b), 3);
}

#[test]
fn mux_with_an_insecure_select_is_replicated() {
    let mut c = Circuit::new();
    let s = c.add_node(named(NodeType::Input, false, "s")).unwrap();
    let a = c.add_node(named(NodeType::Input, true, "A")).unwrap();
    let b = c.add_node(named(NodeType::Input, true, "B")).unwrap();
    let y = c.add_node(gate(GateType::Mux, "y")).unwrap();
    let o = c.add_node(named(NodeType::Output, false, "o")).unwrap();
    c.connect(s, 0, y, 0).unwrap();
    c.connect(a, 0, y, 1).unwrap();
    c.connect(b, 0, y, 2).unwrap();
    c.connect(y, 0, o, 0).unwrap();

    let shares = c.mask(1).unwrap();

    let y1 = shares.get(y).unwrap()[0].node;
    let a1 = shares.get(a).unwrap()[0].node;
    let b1 = shares.get(b).unwrap()[0].node;
    assert_ne!(y1, y);
    assert_eq!(c.node(y).node_type, NodeType::Gate(GateType::Mux, false));
    assert_eq!(c.node(y1).node_type, NodeType::Gate(GateType::Mux, false));
    assert_eq!(sources(&c, y), vec![(s, 0, 0), (a, 0, 1), (b, 0, 2)]);
    assert_eq!(sources(&c, y1), vec![(s, 0, 0), (a1, 0, 1), (b1, 0, 2)]);
}

#[test]
fn secure_and_with_secure_inputs_becomes_a_gadget_on_two_shares() {
    let mut c = Circuit::new();
    let a = c.add_node(named(NodeType::Input, true, "a")).unwrap();
    let b = c.add_node(named(NodeType::Input, true, "b")).unwrap();
    let y = c.add_node(named(NodeType::Gate(GateType::And(2), true), false, "y")).unwrap();
    let o = c.add_node(named(NodeType::Output, false, "o")).unwrap();
    c.connect(a, 0, y, 0).unwrap();
    c.connect(b, 0, y, 1).unwrap();
    c.connect(y, 0, o, 0).unwrap();

    let shares = c.mask(1).unwrap();

    assert_eq!(
        c.node(y).node_type,
        NodeType::Gadget { base_type: GateType::And(2), invert: true, num_shares: 2 }
    );
    assert_eq!(shares.get(y).unwrap().clone(), vec![Replica { node: y, src_offset: 1, dst_offset: 2 }]);
    let a1 = shares.get(a).unwrap()[0].node;
    let b1 = shares.get(b).unwrap()[0].node;
    let o1 = shares.get(o).unwrap()[0].node;
    // Two blocks of two input ports: ports 0, 1 for share 0 and 2, 3 for share 1.
    assert_eq!(sources(&c, y), vec![(a, 0, 0), (b, 0, 1), (a1, 0, 2), (b1, 0, 3)]);
    let ports: Vec<u8> = c.incoming(y).iter().map(|l| l.dst_port).collect();
    assert_eq!(ports, vec![0, 1, 2, 3]);
    // Two output ports: 0 for share 0 and 1 for share 1.
    assert_eq!(sources(&c, o), vec![(y, 0, 0)]);
    assert_eq!(sources(&c, o1), vec![(y, 1, 0)]);
    assert_eq!(name_of(&c, y), Some("y".to_string()));
}

#[test]
fn gadget_ports_follow_the_share_layout_at_order_two() {
    let mut c = Circuit::new();
    let a = c.add_node(named(NodeType::Input, true, "a")).unwrap();
    let b = c.add_node(named(NodeType::Input, true, "b")).unwrap();
    let d = c.add_node(named(NodeType::Input, true, "d")).unwrap();
    let y = c.add_node(gate(GateType::Mux, "y")).unwrap();
    let o = c.add_node(named(NodeType::Output, false, "o")).unwrap();
    c.connect(a, 0, y, 0).unwrap();
    c.connect(b, 0, y, 1).unwrap();
    c.connect(d, 0, y, 2).unwrap();
    c.connect(y, 0, o, 0).unwrap();

    let shares = c.mask(2).unwrap();

    assert_eq!(
        shares.get(y).unwrap().clone(),
        vec![
            Replica { node: y, src_offset: 1, dst_offset: 3 },
            Replica { node: y, src_offset: 2, dst_offset: 6 },
        ]
    );
    let ports: Vec<u8> = c.incoming(y).iter().map(|l| l.dst_port).collect();
    assert_eq!(ports, vec![0, 1, 2, 3, 4, 5, 6, 7, 8]);
    for l in c.incoming(y) {
        let share = (l.dst_port / 3) as usize;
        let port = l.dst_port % 3;
        let original = [a, b, d][port as usize];
        let expected = if share == 0 { original } else { shares.get(original).unwrap()[share - 1].node };
        assert_eq!(l.node, expected);
    }
    let os = shares.get(o).unwrap().clone();
    assert_eq!(sources(&c, os[0].node), vec![(y, 1, 0)]);
    assert_eq!(sources(&c, os[1].node), vec![(y, 2, 0)]);
}

#[test]
fn propagation_marks_the_cone_of_the_secure_inputs() {
    let mut c = Circuit::new();
    let a = c.add_node(named(NodeType::Input, true, "a")).unwrap();
    let b = c.add_node(named(NodeType::Input, false, "b")).unwrap();
    let g = c.add_node(gate(GateType::Xor(2), "g")).unwrap();
    let h = c.add_node(gate(GateType::Buf, "h")).unwrap();
    let r = c.add_node(named(NodeType::Register, false, "r")).unwrap();
    let o = c.add_node(named(NodeType::Output, false, "o")).unwrap();
    let p = c.add_node(named(NodeType::Output, false, "p")).unwrap();
    c.connect(a, 0, g, 0).unwrap();
    c.connect(b, 0, g, 1).unwrap();
    c.connect(g, 0, r, 0).unwrap();
    c.connect(r, 0, g, 1).unwrap();
    c.connect(r, 0, o, 0).unwrap();
    c.connect(b, 0, h, 0).unwrap();
    c.connect(h, 0, p, 0).unwrap();

    c.propagate_secure();

    for i in [a, g, r, o] {
        assert!(c.node(i).secure);
    }
    for i in [b, h, p] {
        assert!(!c.node(i).secure);
    }
    assert_eq!(c.secure_inputs(), vec![a]);
    assert_eq!(c.secure_outputs(), vec![o]);
    for i in live_nodes(&c) {
        for l in c.incoming(i) {
            assert!(!c.node(l.node).secure || c.node(i).secure);
        }
    }
    let first = snapshot(&c);
    c.propagate_secure();
    assert_eq!(snapshot(&c), first);
}

#[test]
fn normalization_keeps_secure_or_gates_and_leaves_others_alone() {
    let mut c = Circuit::new();
    let a = c.add_node(named(NodeType::Input, true, "a")).unwrap();
    let b = c.add_node(named(NodeType::Input, false, "b")).unwrap();
    let plain = c.add_node(gate(GateType::Or(2), "plain")).unwrap();
    let g = c.add_node(gate(GateType::And(2), "g")).unwrap();
    c.connect(b, 0, plain, 0).unwrap();
    c.connect(b, 0, plain, 1).unwrap();
    c.connect(a, 0, g, 0).unwrap();
    c.connect(plain, 0, g, 1).unwrap();
    c.propagate_secure();
    let before = snapshot(&c);

    c.convert_secure_ors().unwrap();
    assert_eq!(snapshot(&c), before);
    c.convert_secure_ors().unwrap();
    assert_eq!(snapshot(&c), before);

    let or = c.add_node(named(NodeType::Gate(GateType::Or(1), false), true, "or")).unwrap();
    c.connect(a, 0, or, 0).unwrap();
    c.convert_secure_ors().unwrap();
    assert_eq!(c.node(or).node_type, NodeType::Gate(GateType::Or(1), true));
    assert!(c.node(or).secure);
    assert_eq!(c.node(plain).node_type, NodeType::Gate(GateType::Or(2), false));
}

#[test]
fn order_zero_adds_nothing() {
    let mut c = Circuit::new();
    let a = c.add_node(named(NodeType::Input, true, "a[0]")).unwrap();
    let b = c.add_node(named(NodeType::Input, true, "b")).unwrap();
    let y = c.add_node(gate(GateType::And(2), "y")).unwrap();
    let o = c.add_node(named(NodeType::Output, false, "o")).unwrap();
    c.connect(a, 0, y, 0).unwrap();
    c.connect(b, 0, y, 1).unwrap();
    c.connect(y, 0, o, 0).unwrap();
    let nodes = live_nodes(&c);

    let shares = c.mask(0).unwrap();

    assert_eq!(live_nodes(&c), nodes);
    assert_eq!(c.edge_count(), 3);
    for i in [a, b, y, o] {
        assert_eq!(shares.get(i).unwrap().len(), 0);
    }
    assert_eq!(sources(&c, y), vec![(a, 0, 0), (b, 0, 1)]);
    assert_eq!(sources(&c, o), vec![(y, 0, 0)]);
    assert_eq!(name_of(&c, a), Some("a_s0[0]".to_string()));
    assert_eq!(
        c.node(y).node_type,
        NodeType::Gadget { base_type: GateType::And(2), invert: false, num_shares: 1 }
    );
}

#[test]
fn circuit_without_secure_nodes_is_left_alone() {
    for order in [0u8, 1, 3] {
        let mut c = Circuit::new();
        let a = c.add_node(named(NodeType::Input, false, "a")).unwrap();
        let b = c.add_node(named(NodeType::Input, false, "b")).unwrap();
        let y = c.add_node(gate(GateType::Or(2), "y")).unwrap();
        let o = c.add_node(named(NodeType::Output, false, "o")).unwrap();
        c.connect(a, 0, y, 0).unwrap();
        c.connect(b, 0, y, 1).unwrap();
        c.connect(y, 0, o, 0).unwrap();
        let before = snapshot(&c);

        let shares = c.mask(order).unwrap();

        assert_eq!(snapshot(&c), before);
        for i in live_nodes(&c) {
            assert!(shares.get(i).is_none());
        }
    }
}

#[test]
fn secure_node_that_reaches_no_secure_output_is_not_rewritten() {
    let mut c = Circuit::new();
    let a = c.add_node(named(NodeType::Input, true, "a")).unwrap();
    let g = c.add_node(gate(GateType::Buf, "g")).unwrap();
    let o = c.add_node(named(NodeType::Output, false, "o")).unwrap();
    let dead = c.add_node(gate(GateType::Buf, "dead")).unwrap();
    c.connect(a, 0, g, 0).unwrap();
    c.connect(g, 0, o, 0).unwrap();
    c.connect(a, 0, dead, 0).unwrap();

    let shares = c.mask(1).unwrap();

    assert!(c.node(dead).secure);
    assert!(shares.get(dead).is_none());
    assert_eq!(name_of(&c, dead), Some("dead".to_string()));
    assert_eq!(sources(&c, dead), vec![(a, 0, 0)]);
    assert!(shares.get(g).is_some());
}

#[test]
fn blackbox_in_the_secure_cone_is_refused() {
    let mut c = Circuit::new();
    let a = c.add_node(named(NodeType::Input, true, "a")).unwrap();
    let x = c.add_node(named(NodeType::Blackbox("ram".to_string()), false, "x")).unwrap();
    let o = c.add_node(named(NodeType::Output, false, "o")).unwrap();
    c.connect(a, 0, x, 0).unwrap();
    c.connect(x, 0, o, 0).unwrap();
    let count = live_nodes(&c).len();

    let r = c.mask(1);

    match r {
        Err(Error::NotExpandable(v)) => assert_eq!(v, x),
        _ => panic!("the black box must be refused"),
    }
    assert_eq!(live_nodes(&c).len(), count);
    assert!(c.node(x).secure);
}

#[test]
fn share_ports_beyond_the_port_range_are_refused() {
    let mut c = Circuit::new();
    let a = c.add_node(named(NodeType::Input, true, "a")).unwrap();
    let b = c.add_node(named(NodeType::Input, true, "b")).unwrap();
    let y = c.add_node(gate(GateType::And(2), "y")).unwrap();
    let o = c.add_node(named(NodeType::Output, false, "o")).unwrap();
    c.connect(a, 0, y, 0).unwrap();
    c.connect(b, 0, y, 1).unwrap();
    c.connect(y, 0, o, 0).unwrap();

    // 200 further shares of two ports each do not fit in 256 ports.
    assert!(matches!(c.mask(200), Err(Error::PortOverflow(v)) if v == y));
    assert_eq!(c.node(y).node_type, NodeType::Gate(GateType::And(2), false));
    assert_eq!(c.edge_count(), 3);
    // 127 further shares do: the last port is 127 * 2 + 1.
    let shares = c.mask(127).unwrap();
    assert_eq!(shares.get(y).unwrap()[126], Replica { node: y, src_offset: 127, dst_offset: 254 });
    assert_eq!(c.incoming(y).last().unwrap().dst_port, 255);
}

#[test]
fn gadget_output_ports_beyond_the_port_range_are_refused() {
    let mut c = Circuit::new();
    let a = c.add_node(named(NodeType::Input, true, "a")).unwrap();
    let y = c.add_node(gate(GateType::And(1), "y")).unwrap();
    let o = c.add_node(named(NodeType::Output, false, "o")).unwrap();
    c.connect(a, 0, y, 0).unwrap();
    c.connect(y, 250, o, 0).unwrap();
    // Share 6 of the wire out of the gadget would leave from port 256.
    assert!(matches!(c.mask(6), Err(Error::PortOverflow(v)) if v == o));
    let shares = c.mask(5).unwrap();
    let last = shares.get(o).unwrap()[4].node;
    assert_eq!(sources(&c, last), vec![(y, 255, 0)]);
}

#[test]
fn masked_circuit_cannot_be_masked_again() {
    let mut c = Circuit::new();
    let a = c.add_node(named(NodeType::Input, true, "a")).unwrap();
    let y = c.add_node(gate(GateType::And(1), "y")).unwrap();
    let o = c.add_node(named(NodeType::Output, false, "o")).unwrap();
    c.connect(a, 0, y, 0).unwrap();
    c.connect(y, 0, o, 0).unwrap();
    c.mask(1).unwrap();
    assert!(matches!(c.mask(1), Err(Error::NotExpandable(v)) if v == y));
}

#[test]
fn order_beyond_the_share_count_is_refused() {
    let mut c = Circuit::new();
    let a = c.add_node(named(NodeType::Input, true, "a")).unwrap();
    let o = c.add_node(named(NodeType::Output, false, "o")).unwrap();
    c.connect(a, 0, o, 0).unwrap();
    assert!(!c.fits_masking(255));
    assert!(c.fits_masking(254));
    assert!(matches!(c.mask(255), Err(Error::CapacityExceeded)));
    assert!(!c.node(o).secure);
}

#[test]
fn replicate_node_names_and_clears_inversion() {
    let mut c = Circuit::new();
    let g = c.add_node(named(NodeType::Gate(GateType::Xor(2), true), false, "bus[12]")).unwrap();
    let u = c.add_node(Node { secure: false, node_type: NodeType::Register, name: None }).unwrap();

    let replicas = c.replicate_node(3, g).unwrap();

    assert_eq!(replicas.len(), 2);
    assert_eq!(name_of(&c, g), Some("bus_s0[12]".to_string()));
    assert_eq!(c.node(g).node_type, NodeType::Gate(GateType::Xor(2), true));
    assert!(!c.node(g).secure);
    for (k, r) in replicas.iter().enumerate() {
        assert_eq!(r.src_offset, 0);
        assert_eq!(r.dst_offset, 0);
        assert_eq!(name_of(&c, r.node), Some(format!("bus_s{}[12]", k + 1)));
        assert_eq!(c.node(r.node).node_type, NodeType::Gate(GateType::Xor(2), false));
        assert!(c.node(r.node).secure);
    }
    let unnamed = c.replicate_node(2, u).unwrap();
    assert_eq!(name_of(&c, u), None);
    assert_eq!(name_of(&c, unnamed[0].node), None);
    assert!(c.is_register(unnamed[0].node));
    assert!(matches!(c.replicate_node(2, 9999), Err(Error::NodeNotFound(9999))));
    let zero = c.const_node(false);
    assert!(matches!(c.replicate_node(2, zero), Err(Error::DuplicateConstant)));
}

#[test]
fn replace_gate_with_gadget_decides_by_family_and_inputs() {
    let mut c = Circuit::new();
    let a = c.add_node(named(NodeType::Input, true, "a")).unwrap();
    let b = c.add_node(named(NodeType::Input, false, "b")).unwrap();
    let x = c.add_node(named(NodeType::Gate(GateType::Xor(2), false), true, "x")).unwrap();
    let m = c.add_node(named(NodeType::Gate(GateType::And(2), false), true, "m")).unwrap();
    let n = c.add_node(named(NodeType::Gate(GateType::And(1), false), true, "n")).unwrap();
    c.connect(a, 0, x, 0).unwrap();
    c.connect(a, 0, m, 0).unwrap();
    c.connect(b, 0, m, 1).unwrap();
    c.connect(a, 0, n, 0).unwrap();

    let rx = c.replace_gate_with_gadget(2, x).unwrap();
    assert_ne!(rx[0].node, x);
    assert_eq!(c.node(x).node_type, NodeType::Gate(GateType::Xor(2), false));
    let rm = c.replace_gate_with_gadget(2, m).unwrap();
    assert_ne!(rm[0].node, m);
    let rn = c.replace_gate_with_gadget(4, n).unwrap();
    assert_eq!(
        rn,
        vec![
            Replica { node: n, src_offset: 1, dst_offset: 1 },
            Replica { node: n, src_offset: 2, dst_offset: 2 },
            Replica { node: n, src_offset: 3, dst_offset: 3 },
        ]
    );
    assert_eq!(
        c.node(n).node_type,
        NodeType::Gadget { base_type: GateType::And(1), invert: false, num_shares: 4 }
    );
    assert!(matches!(c.replace_gate_with_gadget(2, a), Err(Error::NotExpandable(v)) if v == a));
    assert!(matches!(c.replace_gate_with_gadget(2, 777), Err(Error::NodeNotFound(777))));
}
