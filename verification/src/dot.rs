//! The attributes of nodes and wires in a drawing of the circuit, and the
//! frame of the drawing.

use vstd::prelude::*;
use vstd::string::*;

use crate::node::{Node, NodeId, NodeKind, NodeType, NodeView};
use crate::text::{chars_of, decimal_text, push_all, push_decimal, string_of};

verus! {

/// The shape in which a node of that kind is drawn, if it has one of its
/// own: a record for gates and registers, an octagon for constants.
pub open spec fn shape_text(kind: NodeKind) -> Option<Seq<char>> {
    match kind {
        NodeKind::Gate(_, _) => Some("record"@),
        NodeKind::Register => Some("record"@),
        NodeKind::Constant(_) => Some("octagon"@),
        _ => None,
    }
}

/// The label of a node: its name or, without one, the text of its kind.
pub open spec fn label_text(node: NodeView) -> Seq<char> {
    match node.name {
        Some(name) => name,
        None => node.kind.text(),
    }
}

/// The attributes of a node: its label, its shape if it has one, and the
/// colour red if it is secure.
pub open spec fn node_attributes_text(node: NodeView) -> Seq<char> {
    "label=\""@ + label_text(node) + "\""@ + (match shape_text(node.kind) {
        Some(shape) => ", shape=\""@ + shape + "\""@,
        None => Seq::empty(),
    }) + (if node.secure {
        ", color=\"red\""@
    } else {
        Seq::empty()
    })
}

/// The attributes of a wire: the colour red if its source is secure, and
/// the two ports as its label.
pub open spec fn edge_attributes_text(secure: bool, src_port: u8, dst_port: u8) -> Seq<char> {
    (if secure {
        "color=\"red\", "@
    } else {
        Seq::empty()
    }) + "label=\""@ + decimal_text(src_port as nat) + ","@ + decimal_text(dst_port as nat) + "\""@
}

/// The numbers of a list, each followed by a semicolon.
pub open spec fn ranked_text(ids: Seq<NodeId>) -> Seq<char>
    decreases ids.len(),
{
    if ids.len() == 0 {
        Seq::empty()
    } else {
        ranked_text(ids.drop_last()) + decimal_text(ids.last() as nat) + ";"@
    }
}

/// The drawing: a directed graph laid out from left to right, with the
/// hint to minimise crossings, around the given content; the nodes in
/// `sources` ranked first and those in `sinks` ranked last.
pub open spec fn document_text(content: Seq<char>, sources: Seq<NodeId>, sinks: Seq<NodeId>) -> Seq<char> {
    "digraph \"netlist\" {\n  rankdir=\"LR\";\n  remincross=true;\n"@ + content + "\n  {rank=\"source\";"@
        + ranked_text(sources) + "}\n  {rank=\"sink\";"@ + ranked_text(sinks) + "}\n}"@
}

/// Computes [`shape_text`].
pub fn node_shape(kind: &NodeType) -> (shape: Option<&'static str>)
    ensures
        match shape {
            Some(s) => shape_text(kind@) == Some(s@),
            None => shape_text(kind@).is_none(),
        },
{
    match kind {
        NodeType::Gate(_, _) => Some("record"),
        NodeType::Register => Some("record"),
        NodeType::Constant(_) => Some("octagon"),
        _ => None,
    }
}

/// Computes [`label_text`].
pub fn node_label(node: &Node) -> (label: String)
    ensures
        label@ == label_text(node@),
{
    match &node.name {
        Some(name) => name.clone(),
        None => node.node_type.to_string(),
    }
}

/// Computes [`node_attributes_text`].
pub fn node_attributes(node: &Node) -> (attributes: String)
    ensures
        attributes@ == node_attributes_text(node@),
{
    let mut out = "label=\"".to_owned();
    out.append(node_label(node).as_str());
    out.append("\"");
    match node_shape(&node.node_type) {
        Some(shape) => {
            out.append(", shape=\"");
            out.append(shape);
            out.append("\"");
            assert(out@ =~= "label=\""@ + label_text(node@) + "\""@ + (", shape=\""@ + shape@ + "\""@));
        },
        None => {
            assert(out@ =~= "label=\""@ + label_text(node@) + "\""@ + Seq::<char>::empty());
        },
    }
    if node.secure {
        out.append(", color=\"red\"");
    } else {
        assert(out@ =~= out@ + Seq::<char>::empty());
    }
    out
}

/// Computes [`edge_attributes_text`].
pub fn edge_attributes(secure: bool, src_port: u8, dst_port: u8) -> (attributes: String)
    ensures
        attributes@ == edge_attributes_text(secure, src_port, dst_port),
{
    let mut out: Vec<char> = Vec::new();
    if secure {
        let colour = chars_of("color=\"red\", ");
        push_all(&mut out, &colour, 0, colour.len());
        assert(colour@.subrange(0, colour@.len() as int) =~= colour@);
    }
    let ghost first = out@;
    assert(first =~= (if secure {
        "color=\"red\", "@
    } else {
        Seq::<char>::empty()
    }));
    let label = chars_of("label=\"");
    push_all(&mut out, &label, 0, label.len());
    assert(label@.subrange(0, label@.len() as int) =~= label@);
    push_decimal(&mut out, src_port as usize);
    let comma = chars_of(",");
    push_all(&mut out, &comma, 0, comma.len());
    assert(comma@.subrange(0, comma@.len() as int) =~= comma@);
    push_decimal(&mut out, dst_port as usize);
    let quote = chars_of("\"");
    push_all(&mut out, &quote, 0, quote.len());
    assert(quote@.subrange(0, quote@.len() as int) =~= quote@);
    assert(out@ =~= first + "label=\""@ + decimal_text(src_port as nat) + ","@ + decimal_text(dst_port as nat)
        + "\""@);
    string_of(&out)
}

/// Computes [`ranked_text`].
pub fn ranked(ids: &Vec<NodeId>) -> (text: String)
    ensures
        text@ == ranked_text(ids@),
{
    let mut out: Vec<char> = Vec::new();
    let mut i: usize = 0;
    while i < ids.len()
        invariant
            i <= ids@.len(),
            out@ == ranked_text(ids@.subrange(0, i as int)),
        decreases ids.len() - i,
    {
        let ghost before = out@;
        push_decimal(&mut out, ids[i] as usize);
        out.push(';');
        proof {
            reveal_strlit(";");
            let longer = ids@.subrange(0, i + 1);
            assert(longer.drop_last() =~= ids@.subrange(0, i as int));
            assert(longer.last() == ids@[i as int]);
            assert(";"@ =~= seq![';']);
            assert(out@ =~= before + decimal_text(ids@[i as int] as nat) + ";"@);
        }
        i = i + 1;
    }
    assert(ids@.subrange(0, ids@.len() as int) =~= ids@);
    string_of(&out)
}

/// Computes [`document_text`].
pub fn document(content: &str, sources: &Vec<NodeId>, sinks: &Vec<NodeId>) -> (text: String)
    ensures
        text@ == document_text(content@, sources@, sinks@),
{
    let mut out = "digraph \"netlist\" {\n  rankdir=\"LR\";\n  remincross=true;\n".to_owned();
    out.append(content);
    out.append("\n  {rank=\"source\";");
    out.append(ranked(sources).as_str());
    out.append("}\n  {rank=\"sink\";");
    out.append(ranked(sinks).as_str());
    out.append("}\n}");
    out
}

} // verus!
