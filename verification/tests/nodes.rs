use masquerade::node::{bool_to_int, GateType, Node, NodeBuilder, NodeType};
use masquerade::shares::{make_share_name, share_offset};
use masquerade::text::{chars_of, comes_before, find_bracket, parse_unsigned, string_of};

#[test]
fn gate_names_resolve_to_gates() {
    assert_eq!(NodeType::from_str("AND"), NodeType::Gate(GateType::And(0), false));
    assert_eq!(NodeType::from_str("BUF"), NodeType::Gate(GateType::Buf, false));
    assert_eq!(NodeType::from_str("OR"), NodeType::Gate(GateType::Or(0), false));
    assert_eq!(NodeType::from_str("MUX"), NodeType::Gate(GateType::Mux, false));
    assert_eq!(NodeType::from_str("XOR"), NodeType::Gate(GateType::Xor(0), false));
}

#[test]
fn inverted_aliases_resolve_to_inverted_gates() {
    assert_eq!(NodeType::from_str("NAND"), NodeType::Gate(GateType::And(0), true));
    assert_eq!(NodeType::from_str("NOT"), NodeType::Gate(GateType::Buf, true));
    assert_eq!(NodeType::from_str("NOR"), NodeType::Gate(GateType::Or(0), true));
    assert_eq!(NodeType::from_str("XNOR"), NodeType::Gate(GateType::Xor(0), true));
    assert_eq!(NodeType::from_str("NMUX"), NodeType::Blackbox("NMUX".to_string()));
}

#[test]
fn names_resolve_whatever_their_case() {
    assert_eq!(NodeType::from_str("and"), NodeType::Gate(GateType::And(0), false));
    assert_eq!(NodeType::from_str("Xnor"), NodeType::Gate(GateType::Xor(0), true));
    assert_eq!(NodeType::from_str("nOt"), NodeType::Gate(GateType::Buf, true));
    assert_eq!(NodeType::from_str("dff"), NodeType::Register);
    assert_eq!(NodeType::from_str("DFF"), NodeType::Register);
    assert_eq!(NodeType::from_str("Dff"), NodeType::Register);
}

#[test]
fn numbers_resolve_to_constants_and_the_rest_to_black_boxes() {
    assert_eq!(NodeType::from_str("0"), NodeType::Constant(false));
    assert_eq!(NodeType::from_str("1"), NodeType::Constant(true));
    assert_eq!(NodeType::from_str("000"), NodeType::Constant(false));
    assert_eq!(NodeType::from_str("42"), NodeType::Constant(true));
    assert_eq!(NodeType::from_str("+7"), NodeType::Constant(true));
    assert_eq!(NodeType::from_str("-1"), NodeType::Blackbox("-1".to_string()));
    assert_eq!(NodeType::from_str("1x"), NodeType::Blackbox("1x".to_string()));
    assert_eq!(NodeType::from_str(""), NodeType::Blackbox("".to_string()));
    assert_eq!(NodeType::from_str("AND2"), NodeType::Blackbox("AND2".to_string()));
    assert_eq!(NodeType::from_str("sky130_fd_sc_hd__nand2_1"), NodeType::Blackbox("sky130_fd_sc_hd__nand2_1".to_string()));
    assert_eq!(
        NodeType::from_str("99999999999999999999999999"),
        NodeType::Blackbox("99999999999999999999999999".to_string())
    );
}

#[test]
fn kinds_have_their_texts() {
    assert_eq!(NodeType::Input.to_string(), "IN");
    assert_eq!(NodeType::Clock.to_string(), "CLOCK");
    assert_eq!(NodeType::Reset.to_string(), "Reset");
    assert_eq!(NodeType::Register.to_string(), "FF");
    assert_eq!(NodeType::Output.to_string(), "OUT");
    assert_eq!(NodeType::Constant(false).to_string(), "0");
    assert_eq!(NodeType::Constant(true).to_string(), "1");
    assert_eq!(NodeType::Blackbox("ram".to_string()).to_string(), "ram");
    assert_eq!(NodeType::Gate(GateType::And(2), false).to_string(), "AND");
    assert_eq!(NodeType::Gate(GateType::And(2), true).to_string(), "NAND");
    assert_eq!(NodeType::Gate(GateType::Buf, true).to_string(), "NOT");
    assert_eq!(NodeType::Gate(GateType::Xor(2), true).to_string(), "XNOR");
    assert_eq!(NodeType::Gate(GateType::Mux, true).to_string(), "NMUX");
    assert_eq!(
        NodeType::Gadget { base_type: GateType::Or(2), invert: true, num_shares: 2 }.to_string(),
        "NOR Gadget"
    );
    assert_eq!(
        NodeType::Gadget { base_type: GateType::Mux, invert: false, num_shares: 3 }.to_string(),
        "MUX Gadget"
    );
}

#[test]
fn gate_families_have_names_and_aliases() {
    let all = [GateType::And(3), GateType::Buf, GateType::Or(1), GateType::Mux, GateType::Xor(2)];
    let names = ["AND", "BUF", "OR", "MUX", "XOR"];
    let aliases = ["NAND", "NOT", "NOR", "NMUX", "XNOR"];
    for k in 0..5 {
        assert_eq!(all[k].name(), names[k]);
        assert_eq!(all[k].inverted_alias(), aliases[k]);
    }
    assert_eq!(GateType::from_name(&chars_of("xor")), Some(GateType::Xor(0)));
    assert_eq!(GateType::from_name(&chars_of("nand")), None);
    assert_eq!(GateType::from_inverted_name(&chars_of("nand")), Some(GateType::And(0)));
    assert_eq!(GateType::from_inverted_name(&chars_of("and")), None);
}

#[test]
fn kinds_know_whether_they_have_inputs_and_outputs() {
    let gate = NodeType::Gate(GateType::Buf, false);
    let gadget = NodeType::Gadget { base_type: GateType::And(2), invert: false, num_shares: 2 };
    assert!(gate.has_input() && gate.has_output());
    assert!(NodeType::Register.has_input() && NodeType::Register.has_output());
    assert!(NodeType::Output.has_input() && !NodeType::Output.has_output());
    assert!(!NodeType::Input.has_input() && NodeType::Input.has_output());
    assert!(!NodeType::Clock.has_input() && NodeType::Clock.has_output());
    assert!(!NodeType::Constant(true).has_input() && NodeType::Constant(true).has_output());
    assert!(!NodeType::Reset.has_input() && !NodeType::Reset.has_output());
    assert!(!gadget.has_input() && !gadget.has_output());
    assert!(!NodeType::Blackbox("x".to_string()).has_input());
}

#[test]
fn nodes_are_made_and_copied() {
    let n = Node::constant(true);
    assert_eq!(n.node_type, NodeType::Constant(true));
    assert!(!n.secure);
    assert_eq!(n.name, None);
    let m = Node::new(NodeType::Blackbox("ram".to_string()));
    assert!(!m.secure);
    let named = Node { secure: true, node_type: NodeType::Register, name: Some("r".to_string()) };
    let copy = named.duplicate();
    assert!(copy.secure);
    assert_eq!(copy.node_type, NodeType::Register);
    assert_eq!(copy.name, Some("r".to_string()));
    assert_eq!(m.node_type.duplicate(), m.node_type);
    assert!(NodeType::Gate(GateType::And(2), false).same_as(&NodeType::Gate(GateType::And(2), false)));
    assert!(!NodeType::Gate(GateType::And(2), false).same_as(&NodeType::Gate(GateType::And(3), false)));
    assert!(!NodeType::Gate(GateType::And(2), false).same_as(&NodeType::Gate(GateType::And(2), true)));
    assert!(NodeType::Blackbox("a".to_string()).same_as(&NodeType::Blackbox("a".to_string())));
    assert!(!NodeType::Blackbox("a".to_string()).same_as(&NodeType::Blackbox("b".to_string())));
    assert!(!NodeType::Input.same_as(&NodeType::Clock));
    assert_eq!(bool_to_int(true), 1);
    assert_eq!(bool_to_int(false), 0);
}

#[test]
fn share_names_go_before_the_last_bracket() {
    let name = |s: &str| Some(s.to_string());
    assert_eq!(make_share_name(&name("a[3]"), 1), name("a_s1[3]"));
    assert_eq!(make_share_name(&name("a[3]"), 0), name("a_s0[3]"));
    assert_eq!(make_share_name(&name("a"), 2), name("a_s2"));
    assert_eq!(make_share_name(&name("m[1][22]"), 10), name("m[1]_s10[22]"));
    assert_eq!(make_share_name(&name("[0]"), 255), name("_s255[0]"));
    assert_eq!(make_share_name(&name(""), 7), name("_s7"));
    assert_eq!(make_share_name(&name("x]"), 100), name("x]_s100"));
    assert_eq!(make_share_name(&None, 1), None);
}

#[test]
fn share_offsets_are_products_that_fit_a_port() {
    assert_eq!(share_offset(0, 1000), Some(0));
    assert_eq!(share_offset(7, 0), Some(0));
    assert_eq!(share_offset(1, 2), Some(2));
    assert_eq!(share_offset(3, 5), Some(15));
    assert_eq!(share_offset(85, 3), Some(255));
    assert_eq!(share_offset(86, 3), None);
    assert_eq!(share_offset(255, 1), Some(255));
    assert_eq!(share_offset(1, 255), Some(255));
    assert_eq!(share_offset(1, 256), None);
    assert_eq!(share_offset(2, 128), None);
    assert_eq!(share_offset(255, 255), None);
}

#[test]
fn numbers_are_parsed_in_their_radix() {
    let p = |s: &str, r: u32| parse_unsigned(&chars_of(s), r);
    assert_eq!(p("0", 10), Some(0));
    assert_eq!(p("1234", 10), Some(1234));
    assert_eq!(p("+12", 10), Some(12));
    assert_eq!(p("", 10), None);
    assert_eq!(p("+", 10), None);
    assert_eq!(p("12a", 10), None);
    assert_eq!(p("-3", 10), None);
    assert_eq!(p("1011", 2), Some(11));
    assert_eq!(p("102", 2), None);
    assert_eq!(p("ff", 16), Some(255));
    assert_eq!(p("FF", 16), Some(255));
    assert_eq!(p("zz", 36), Some(35 * 36 + 35));
    assert_eq!(p(&usize::MAX.to_string(), 10), Some(usize::MAX));
    assert_eq!(p("18446744073709551616", 10), None);
    assert_eq!(p("99999999999999999999x", 10), None);
}

#[test]
fn texts_convert_and_order() {
    assert_eq!(string_of(&chars_of("héllo[0]")), "héllo[0]");
    assert_eq!(chars_of("ab"), vec!['a', 'b']);
    assert_eq!(find_bracket(&chars_of("a[1][2]")), 4);
    assert_eq!(find_bracket(&chars_of("abc")), 3);
    let before = |a: &str, b: &str| comes_before(&chars_of(a), &chars_of(b));
    assert!(before("A", "B"));
    assert!(before("A", "AA"));
    assert!(before("", "A"));
    assert!(!before("A", "A"));
    assert!(!before("B", "A"));
    assert!(!before("AA", "A"));
    assert!(before("B", "a"));
    assert!(before("a1", "a2"));
    assert!(!before("", ""));
}

#[test]
fn builder_needs_a_kind_and_defaults_the_rest() {
    assert!(NodeBuilder::new().build().is_none());
    assert!(NodeBuilder::default().secure(true).name(Some("a".to_string())).build().is_none());
    let n = NodeBuilder::default().node_type(NodeType::Clock).build().unwrap();
    assert_eq!(n.node_type, NodeType::Clock);
    assert!(!n.secure);
    assert_eq!(n.name, None);
    let m = NodeBuilder::new()
        .secure(true)
        .node_type(NodeType::Input)
        .name(Some("a[0]".to_string()))
        .node_type(NodeType::Output)
        .secure(false)
        .secure(true)
        .build()
        .unwrap();
    assert_eq!(m.node_type, NodeType::Output);
    assert!(m.secure);
    assert_eq!(m.name, Some("a[0]".to_string()));
    let unnamed = NodeBuilder::new().name(Some("x".to_string())).name(None).node_type(NodeType::Reset).build().unwrap();
    assert_eq!(unnamed.name, None);
}
