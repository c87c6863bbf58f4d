//! Building a circuit from drafts of its nodes: each draft says what the
//! node is, which signals it drives from which output port, and which bits
//! its input ports take.

use vstd::prelude::*;

use std::collections::HashMap;

use crate::circuit::{Circuit, CircuitView, Error};
use crate::netlist::{BitVal, SignalId};
use crate::node::{Node, NodeId, NodeKind, NodeView};

verus! {

/// The draft of a node.
#[derive(Debug)]
pub struct Draft {
    /// The node to create.
    pub node: Node,
    /// For each output port, in the order of the port numbers, the bits that
    /// it drives.
    pub outputs: Vec<Vec<BitVal>>,
    /// For each input port, in the order of the port numbers, the bit that
    /// it takes.
    pub inputs: Vec<BitVal>,
}

/// The mathematical value of a [`Draft`].
pub struct DraftView {
    pub node: NodeView,
    pub outputs: Seq<Seq<BitVal>>,
    pub inputs: Seq<BitVal>,
}

impl View for Draft {
    type V = DraftView;

    open spec fn view(&self) -> DraftView {
        DraftView {
            node: self.node@,
            outputs: self.outputs@.map_values(|bits: Vec<BitVal>| bits@),
            inputs: self.inputs@,
        }
    }
}

/// The values of a list of drafts.
pub open spec fn draft_views(drafts: Seq<Draft>) -> Seq<DraftView> {
    drafts.map_values(|d: Draft| d@)
}

/// A place in the drafts: `(k, p, m)` stands for bit `m` of output port `p`
/// of draft `k`.
pub type Place = (int, int, int);

/// The places that exist in the drafts.
pub open spec fn places(ds: Seq<DraftView>) -> Set<Place> {
    Set::new(
        |a: Place| 0 <= a.0 < ds.len() && 0 <= a.1 < ds[a.0].outputs.len() && 0 <= a.2 < ds[a.0].outputs[a.1].len(),
    )
}

/// The bit at a place.
pub open spec fn bit_at(ds: Seq<DraftView>, a: Place) -> BitVal {
    ds[a.0].outputs[a.1][a.2]
}

/// The place `a` comes before the place `b`.
pub open spec fn place_before(a: Place, b: Place) -> bool {
    a.0 < b.0 || (a.0 == b.0 && (a.1 < b.1 || (a.1 == b.1 && a.2 < b.2)))
}

/// The signal `sig` is driven at one of the places in `done`.
pub open spec fn driven_in(ds: Seq<DraftView>, done: Set<Place>, sig: SignalId) -> bool {
    exists|a: Place| #[trigger] done.contains(a) && bit_at(ds, a) == BitVal::Signal(sig)
}

/// Among the places in `done`, no signal is driven twice.
pub open spec fn single_in(ds: Seq<DraftView>, done: Set<Place>) -> bool {
    forall|a: Place, b: Place|
        #![trigger done.contains(a), done.contains(b)]
        done.contains(a) && done.contains(b) && bit_at(ds, a) is Signal && bit_at(ds, a) == bit_at(ds, b) ==> a
            == b
}

/// Some draft drives the signal `sig`.
pub open spec fn is_driven(ds: Seq<DraftView>, sig: SignalId) -> bool {
    driven_in(ds, places(ds), sig)
}

/// No signal is driven twice.
pub open spec fn single_driver(ds: Seq<DraftView>) -> bool {
    single_in(ds, places(ds))
}

/// The signal `sig` is driven at two places.
pub open spec fn driven_twice(ds: Seq<DraftView>, sig: SignalId) -> bool {
    exists|a: Place, b: Place|
        #![trigger places(ds).contains(a), places(ds).contains(b)]
        places(ds).contains(a) && places(ds).contains(b) && a != b && bit_at(ds, a) == BitVal::Signal(sig)
            && bit_at(ds, b) == BitVal::Signal(sig)
}

/// Some draft is that of a constant.
pub open spec fn has_constant(ds: Seq<DraftView>) -> bool {
    exists|k: int| 0 <= k < ds.len() && (#[trigger] ds[k]).node.kind is Constant
}

/// The number of input bits of the first `k` drafts.
pub open spec fn inputs_before(ds: Seq<DraftView>, k: int) -> int
    decreases k,
{
    if k <= 0 {
        0
    } else {
        inputs_before(ds, k - 1) + ds[k - 1].inputs.len()
    }
}

/// The nodes or the wires would not fit the index type.
pub open spec fn too_large(ds: Seq<DraftView>) -> bool {
    ds.len() + 2 >= u32::MAX || inputs_before(ds, ds.len() as int) >= u32::MAX
}

/// The draft at `k` has more input or output ports than port numbers.
pub open spec fn too_many_ports(ds: Seq<DraftView>, k: int) -> bool {
    0 <= k < ds.len() && (ds[k].outputs.len() > 256 || ds[k].inputs.len() > 256)
}

/// The input bit `j` of draft `k` is a signal that nothing drives.
pub open spec fn undriven_at(ds: Seq<DraftView>, k: int, j: int) -> bool {
    0 <= k < ds.len() && 0 <= j < ds[k].inputs.len() && match ds[k].inputs[j] {
        BitVal::Signal(s) => !is_driven(ds, s),
        _ => false,
    }
}

/// The input bit `j` of draft `k` is a constant without a logic value.
pub open spec fn undefined_at(ds: Seq<DraftView>, k: int, j: int) -> bool {
    0 <= k < ds.len() && 0 <= j < ds[k].inputs.len() && match ds[k].inputs[j] {
        BitVal::Constant(b) => b.value().is_none(),
        _ => false,
    }
}

/// Every input bit is a driven signal or a constant with a logic value.
pub open spec fn inputs_resolve(ds: Seq<DraftView>) -> bool {
    &&& forall|k: int, j: int| !#[trigger] undriven_at(ds, k, j)
    &&& forall|k: int, j: int| !#[trigger] undefined_at(ds, k, j)
}

/// The drafts can be built: none of the faults is present.
pub open spec fn buildable(ds: Seq<DraftView>) -> bool {
    &&& !has_constant(ds)
    &&& !too_large(ds)
    &&& forall|k: int| !#[trigger] too_many_ports(ds, k)
    &&& single_driver(ds)
    &&& inputs_resolve(ds)
}

/// The wire for the bit `bit` starts at port `port` of the node `src`: at
/// the place that drives the signal, `ids` giving the node of each draft, or
/// at port 0 of the constant.
pub open spec fn starts_at(ds: Seq<DraftView>, ids: Seq<int>, c: CircuitView, bit: BitVal, src: int, port: int) -> bool {
    match bit {
        BitVal::Signal(s) => exists|a: Place| #[trigger]
            places(ds).contains(a) && bit_at(ds, a) == BitVal::Signal(s) && src == ids[a.0] && port == a.1,
        BitVal::Constant(b) => b.value().is_some() && src == c.constant(b.value().unwrap()) && port == 0,
    }
}

/// `x` is one of the wires in `wires`.
pub open spec fn is_built_wire(wires: Map<(int, int), int>, x: int) -> bool {
    exists|k: int, j: int| #[trigger] wires.contains_key((k, j)) && wires[(k, j)] == x
}

/// The nodes of the circuit `c` are the two constants and one node per
/// draft, `ids` giving the node of each draft.
pub open spec fn nodes_built(ds: Seq<DraftView>, c: CircuitView, ids: Seq<int>) -> bool {
    &&& ids.len() == ds.len()
    &&& c.nodes.dom() == c.slots
    &&& c.nodes.contains_key(c.zero) && c.nodes[c.zero] == (NodeView {
        secure: false,
        kind: NodeKind::Constant(false),
        name: None,
    })
    &&& c.nodes.contains_key(c.one) && c.nodes[c.one] == (NodeView {
        secure: false,
        kind: NodeKind::Constant(true),
        name: None,
    })
    &&& forall|k: int|
        0 <= k < ids.len() ==> c.nodes.contains_key(#[trigger] ids[k]) && c.nodes[ids[k]] == ds[k].node
    &&& forall|k1: int, k2: int| 0 <= k1 < k2 < ids.len() ==> #[trigger] ids[k1] != #[trigger] ids[k2]
    &&& forall|i: int| #[trigger]
        c.nodes.contains_key(i) ==> i == c.zero || i == c.one || ids.contains(i)
}

/// The wires of the circuit `c` are one per input bit of the first `upto`
/// drafts and, of the draft `upto`, of the first `bits` bits; `wires` gives
/// the wire of input bit `j` of draft `k`.
pub open spec fn wires_built(
    ds: Seq<DraftView>,
    c: CircuitView,
    ids: Seq<int>,
    wires: Map<(int, int), int>,
    upto: int,
    bits: int,
) -> bool {
    &&& forall|k: int, j: int| #[trigger]
        wires.contains_key((k, j)) <==> 0 <= k < ds.len() && 0 <= j < ds[k].inputs.len() && (k < upto || (k
            == upto && j < bits))
    &&& forall|k: int, j: int| #[trigger]
        wires.contains_key((k, j)) ==> {
            &&& c.edges.contains_key(wires[(k, j)])
            &&& c.edges[wires[(k, j)]].dst == ids[k]
            &&& c.edges[wires[(k, j)]].dst_port == j
            &&& starts_at(
                ds,
                ids,
                c,
                ds[k].inputs[j],
                c.edges[wires[(k, j)]].src,
                c.edges[wires[(k, j)]].src_port,
            )
        }
    &&& forall|k1: int, j1: int, k2: int, j2: int|
        #![trigger wires.contains_key((k1, j1)), wires.contains_key((k2, j2))]
        wires.contains_key((k1, j1)) && wires.contains_key((k2, j2)) && (k1 != k2 || j1 != j2) ==> wires[(
            k1,
            j1,
        )] != wires[(k2, j2)]
    &&& forall|x: int| #[trigger] c.edges.contains_key(x) ==> is_built_wire(wires, x)
}

/// The circuit `c` is built from the drafts: its nodes are the two
/// constants and one node per draft, as the draft says; and for each input
/// bit of each draft it has one wire, from the place that drives the bit to
/// the input port of the bit's number.
pub open spec fn built(ds: Seq<DraftView>, c: CircuitView) -> bool {
    exists|ids: Seq<int>, wires: Map<(int, int), int>|
        #![trigger nodes_built(ds, c, ids), wires_built(ds, c, ids, wires, ds.len() as int, 0)]
        nodes_built(ds, c, ids) && wires_built(ds, c, ids, wires, ds.len() as int, 0)
}

/// The places before `bound`.
spec fn places_before(ds: Seq<DraftView>, bound: Place) -> Set<Place> {
    Set::new(|a: Place| places(ds).contains(a) && place_before(a, bound))
}

/// The entry `(k, p)` of the driver table names a place that drives `sig`.
spec fn entry_ok(ds: Seq<DraftView>, sig: SignalId, entry: (usize, u8)) -> bool {
    exists|a: Place| #[trigger]
        places(ds).contains(a) && a.0 == entry.0 && a.1 == entry.1 && bit_at(ds, a) == BitVal::Signal(sig)
}

/// The first draft of a constant, if there is one.
fn find_constant(drafts: &Vec<Draft>) -> (found: Option<usize>)
    ensures
        found.is_some() == has_constant(draft_views(drafts@)),
{
    let ghost ds = draft_views(drafts@);
    let mut k: usize = 0;
    while k < drafts.len()
        invariant
            k <= drafts@.len(),
            ds == draft_views(drafts@),
            forall|i: int| 0 <= i < k ==> !((#[trigger] ds[i]).node.kind is Constant),
        decreases drafts.len() - k,
    {
        if let crate::node::NodeType::Constant(_) = drafts[k].node.node_type {
            assert(ds[k as int].node.kind is Constant);
            return Some(k);
        }
        k = k + 1;
    }
    None
}

/// The number of input bits of all drafts, if it is below `u32::MAX`.
fn count_inputs(drafts: &Vec<Draft>) -> (total: Option<usize>)
    ensures
        match total {
            Some(n) => n == inputs_before(draft_views(drafts@), drafts@.len() as int) && n < u32::MAX,
            None => inputs_before(draft_views(drafts@), drafts@.len() as int) >= u32::MAX,
        },
{
    let ghost ds = draft_views(drafts@);
    let limit = u32::MAX as usize;
    let mut total: usize = 0;
    let mut k: usize = 0;
    while k < drafts.len()
        invariant
            k <= drafts@.len(),
            ds == draft_views(drafts@),
            limit == u32::MAX,
            total == inputs_before(ds, k as int),
            total < limit,
        decreases drafts.len() - k,
    {
        let n = drafts[k].inputs.len();
        assert(inputs_before(ds, k + 1) == inputs_before(ds, k as int) + ds[k as int].inputs.len());
        if n >= limit - total {
            proof {
                lemma_inputs_grow(ds, k + 1, drafts@.len() as int);
            }
            return None;
        }
        total = total + n;
        k = k + 1;
    }
    Some(total)
}

/// The number of input bits grows with the number of drafts.
proof fn lemma_inputs_grow(ds: Seq<DraftView>, a: int, b: int)
    requires
        0 <= a <= b,
    ensures
        inputs_before(ds, a) <= inputs_before(ds, b),
    decreases b - a,
{
    if a < b {
        lemma_inputs_grow(ds, a, b - 1);
    }
}

/// The first draft with more ports than port numbers, if there is one.
fn find_wide(drafts: &Vec<Draft>) -> (found: Option<usize>)
    ensures
        match found {
            Some(k) => too_many_ports(draft_views(drafts@), k as int),
            None => forall|k: int| !#[trigger] too_many_ports(draft_views(drafts@), k),
        },
{
    let ghost ds = draft_views(drafts@);
    let mut k: usize = 0;
    while k < drafts.len()
        invariant
            k <= drafts@.len(),
            ds == draft_views(drafts@),
            forall|i: int| 0 <= i < k ==> !#[trigger] too_many_ports(ds, i),
        decreases drafts.len() - k,
    {
        if drafts[k].outputs.len() > 256 || drafts[k].inputs.len() > 256 {
            return Some(k);
        }
        k = k + 1;
    }
    None
}

/// For each signal the draft and the output port that drive it. Fails with
/// a signal that is driven twice.
fn driver_table(drafts: &Vec<Draft>) -> (r: Result<HashMap<SignalId, (usize, u8)>, SignalId>)
    requires
        forall|k: int| !#[trigger] too_many_ports(draft_views(drafts@), k),
    ensures
        match r {
            Ok(table) => {
                &&& single_driver(draft_views(drafts@))
                &&& forall|sig: SignalId| #[trigger]
                    table@.contains_key(sig) <==> is_driven(draft_views(drafts@), sig)
                &&& forall|sig: SignalId| #[trigger]
                    table@.contains_key(sig) ==> entry_ok(draft_views(drafts@), sig, table@[sig])
            },
            Err(sig) => driven_twice(draft_views(drafts@), sig),
        },
{
    let ghost ds = draft_views(drafts@);
    let mut table: HashMap<SignalId, (usize, u8)> = HashMap::new();
    let mut k: usize = 0;
    while k < drafts.len()
        invariant
            k <= drafts@.len(),
            ds == draft_views(drafts@),
            forall|i: int| !#[trigger] too_many_ports(ds, i),
            single_in(ds, places_before(ds, (k as int, 0, 0))),
            forall|sig: SignalId| #[trigger]
                table@.contains_key(sig) <==> driven_in(ds, places_before(ds, (k as int, 0, 0)), sig),
            forall|sig: SignalId| #[trigger] table@.contains_key(sig) ==> entry_ok(ds, sig, table@[sig]),
        decreases drafts.len() - k,
    {
        assert(!too_many_ports(ds, k as int));
        let mut p: usize = 0;
        while p < drafts[k as usize].outputs.len()
            invariant
                k < drafts@.len(),
                ds == draft_views(drafts@),
                p <= ds[k as int].outputs.len() <= 256,
                single_in(ds, places_before(ds, (k as int, p as int, 0))),
                forall|sig: SignalId| #[trigger]
                    table@.contains_key(sig) <==> driven_in(ds, places_before(ds, (k as int, p as int, 0)), sig),
                forall|sig: SignalId| #[trigger] table@.contains_key(sig) ==> entry_ok(ds, sig, table@[sig]),
            decreases ds[k as int].outputs.len() - p,
        {
            let mut m: usize = 0;
            while m < drafts[k as usize].outputs[p as usize].len()
                invariant
                    k < drafts@.len(),
                    ds == draft_views(drafts@),
                    p < ds[k as int].outputs.len() <= 256,
                    m <= ds[k as int].outputs[p as int].len(),
                    single_in(ds, places_before(ds, (k as int, p as int, m as int))),
                    forall|sig: SignalId| #[trigger]
                        table@.contains_key(sig) <==> driven_in(
                            ds,
                            places_before(ds, (k as int, p as int, m as int)),
                            sig,
                        ),
                    forall|sig: SignalId| #[trigger] table@.contains_key(sig) ==> entry_ok(ds, sig, table@[sig]),
                decreases ds[k as int].outputs[p as int].len() - m,
            {
                let ghost here: Place = (k as int, p as int, m as int);
                let ghost done = places_before(ds, here);
                let ghost more = places_before(ds, (k as int, p as int, m + 1));
                let bit = drafts[k].outputs[p][m];
                proof {
                    assert(places(ds).contains(here));
                    assert(bit_at(ds, here) == bit);
                    assert(more =~= done.insert(here));
                    assert(!done.contains(here));
                }
                match bit {
                    BitVal::Signal(sig) => {
                        if table.contains_key(&sig) {
                            proof {
                                assert(driven_in(ds, done, sig));
                                let a = choose|a: Place| #[trigger] done.contains(a) && bit_at(ds, a) == BitVal::Signal(sig);
                                assert(places(ds).contains(a) && places(ds).contains(here) && a != here);
                            }
                            return Err(sig);
                        }
                        let ghost before = table@;
                        table.insert(sig, (k, p as u8));
                        proof {
                            assert(!driven_in(ds, done, sig));
                            assert forall|a: Place, b: Place|
                                #![trigger more.contains(a), more.contains(b)]
                                more.contains(a) && more.contains(b) && bit_at(ds, a) is Signal && bit_at(ds, a)
                                    == bit_at(ds, b) implies a == b by {
                                if a == here && b != here {
                                    assert(done.contains(b));
                                } else if b == here && a != here {
                                    assert(done.contains(a));
                                } else if a != here && b != here {
                                    assert(done.contains(a) && done.contains(b));
                                }
                            }
                            assert forall|s2: SignalId| #[trigger] table@.contains_key(s2) <==> driven_in(
                                ds,
                                more,
                                s2,
                            ) by {
                                if s2 == sig {
                                    assert(more.contains(here));
                                } else {
                                    if driven_in(ds, more, s2) {
                                        let a = choose|a: Place| #[trigger] more.contains(a) && bit_at(ds, a) == BitVal::Signal(s2);
                                        assert(done.contains(a));
                                    }
                                    if driven_in(ds, done, s2) {
                                        let a = choose|a: Place| #[trigger] done.contains(a) && bit_at(ds, a) == BitVal::Signal(s2);
                                        assert(more.contains(a));
                                    }
                                    assert(before.contains_key(s2) <==> driven_in(ds, done, s2));
                                }
                            }
                            assert forall|s2: SignalId| #[trigger] table@.contains_key(s2) implies entry_ok(
                                ds,
                                s2,
                                table@[s2],
                            ) by {
                                if s2 == sig {
                                    assert(places(ds).contains(here) && here.0 == k && here.1 == p as u8);
                                } else {
                                    assert(before.contains_key(s2));
                                }
                            }
                        }
                    },
                    BitVal::Constant(_) => {
                        proof {
                            assert forall|a: Place, b: Place|
                                #![trigger more.contains(a), more.contains(b)]
                                more.contains(a) && more.contains(b) && bit_at(ds, a) is Signal && bit_at(ds, a)
                                    == bit_at(ds, b) implies a == b by {
                                if a != here && b != here {
                                    assert(done.contains(a) && done.contains(b));
                                }
                            }
                            assert forall|s2: SignalId| driven_in(ds, more, s2) <==> driven_in(ds, done, s2) by {
                                if driven_in(ds, more, s2) {
                                    let a = choose|a: Place| #[trigger] more.contains(a) && bit_at(ds, a) == BitVal::Signal(s2);
                                    assert(done.contains(a));
                                }
                                if driven_in(ds, done, s2) {
                                    let a = choose|a: Place| #[trigger] done.contains(a) && bit_at(ds, a) == BitVal::Signal(s2);
                                    assert(more.contains(a));
                                }
                            }
                        }
                    },
                }
                m = m + 1;
            }
            proof {
                assert(places_before(ds, (k as int, p as int, m as int)) =~= places_before(ds, (k as int, p + 1, 0)));
            }
            p = p + 1;
        }
        proof {
            assert(places_before(ds, (k as int, p as int, 0)) =~= places_before(ds, (k + 1, 0, 0)));
        }
        k = k + 1;
    }
    proof {
        assert(places_before(ds, (k as int, 0, 0)) =~= places(ds));
    }
    Ok(table)
}

/// Looks for an input bit that is a signal without a driver or a constant
/// without a logic value, and fails with the first one.
fn check_inputs(drafts: &Vec<Draft>, table: &HashMap<SignalId, (usize, u8)>) -> (r: Result<(), Error>)
    requires
        forall|sig: SignalId| #[trigger] table@.contains_key(sig) <==> is_driven(draft_views(drafts@), sig),
    ensures
        match r {
            Ok(_) => inputs_resolve(draft_views(drafts@)),
            Err(e) => match e {
                Error::UndrivenSignal(s) => exists|k: int, j: int| #[trigger]
                    undriven_at(draft_views(drafts@), k, j) && draft_views(drafts@)[k].inputs[j] == BitVal::Signal(
                        s,
                    ),
                Error::UndefinedBit => exists|k: int, j: int| #[trigger] undefined_at(draft_views(drafts@), k, j),
                _ => false,
            },
        },
{
    let ghost ds = draft_views(drafts@);
    let mut k: usize = 0;
    while k < drafts.len()
        invariant
            k <= drafts@.len(),
            ds == draft_views(drafts@),
            forall|sig: SignalId| #[trigger] table@.contains_key(sig) <==> is_driven(ds, sig),
            forall|i: int, j: int| 0 <= i < k ==> !#[trigger] undriven_at(ds, i, j),
            forall|i: int, j: int| 0 <= i < k ==> !#[trigger] undefined_at(ds, i, j),
        decreases drafts.len() - k,
    {
        let mut j: usize = 0;
        while j < drafts[k as usize].inputs.len()
            invariant
                k < drafts@.len(),
                ds == draft_views(drafts@),
                j <= ds[k as int].inputs.len(),
                forall|sig: SignalId| #[trigger] table@.contains_key(sig) <==> is_driven(ds, sig),
                forall|i: int| 0 <= i < j ==> !#[trigger] undriven_at(ds, k as int, i),
                forall|i: int| 0 <= i < j ==> !#[trigger] undefined_at(ds, k as int, i),
            decreases ds[k as int].inputs.len() - j,
        {
            match drafts[k].inputs[j] {
                BitVal::Signal(s) => {
                    if !table.contains_key(&s) {
                        assert(undriven_at(ds, k as int, j as int));
                        return Err(Error::UndrivenSignal(s));
                    }
                },
                BitVal::Constant(b) => {
                    if b.to_bool().is_none() {
                        assert(undefined_at(ds, k as int, j as int));
                        return Err(Error::UndefinedBit);
                    }
                },
            }
            j = j + 1;
        }
        k = k + 1;
    }
    Ok(())
}

/// The error `e` names a fault of the drafts, and none of the faults that
/// are looked for before it is present. The faults are looked for in this
/// order: a draft of a constant; too many nodes or wires; a draft with too
/// many ports; a signal driven twice; an input bit without a driver or
/// without a logic value.
pub open spec fn draft_fault(ds: Seq<DraftView>, e: Error) -> bool {
    match e {
        Error::DuplicateConstant => has_constant(ds),
        Error::CapacityExceeded => !has_constant(ds) && too_large(ds),
        Error::TooManyPorts(k) => !has_constant(ds) && !too_large(ds) && too_many_ports(ds, k as int),
        Error::DuplicateDriver(sig) => !has_constant(ds) && !too_large(ds) && (forall|k: int|
            !#[trigger] too_many_ports(ds, k)) && driven_twice(ds, sig),
        Error::UndrivenSignal(s) => !has_constant(ds) && !too_large(ds) && (forall|k: int|
            !#[trigger] too_many_ports(ds, k)) && single_driver(ds) && exists|k: int, j: int| #[trigger]
            undriven_at(ds, k, j) && ds[k].inputs[j] == BitVal::Signal(s),
        Error::UndefinedBit => !has_constant(ds) && !too_large(ds) && (forall|k: int|
            !#[trigger] too_many_ports(ds, k)) && single_driver(ds) && exists|k: int, j: int| #[trigger]
            undefined_at(ds, k, j),
        _ => false,
    }
}

/// The node indices as integers.
spec fn as_ints(ids: Seq<NodeId>) -> Seq<int> {
    ids.map_values(|i: NodeId| i as int)
}

/// A signal that is driven twice is a fault.
proof fn lemma_twice_is_not_single(ds: Seq<DraftView>, sig: SignalId)
    requires
        driven_twice(ds, sig),
    ensures
        !single_driver(ds),
{
    let (a, b) = choose|a: Place, b: Place|
        #![trigger places(ds).contains(a), places(ds).contains(b)]
        places(ds).contains(a) && places(ds).contains(b) && a != b && bit_at(ds, a) == BitVal::Signal(sig)
            && bit_at(ds, b) == BitVal::Signal(sig);
    if single_driver(ds) {
        assert(places(ds).contains(a) && places(ds).contains(b));
        assert(a == b);
    }
}

/// Builds the circuit of that name from the drafts, as [`built`] describes.
/// Fails on the first of these faults that is present: a draft of a
/// constant; more nodes or wires than the index type can number; a draft
/// with more ports than port numbers; a signal that is driven twice; an
/// input bit that is a signal without a driver; an input bit that is a
/// constant without a logic value.
pub fn build_circuit(name: String, drafts: &Vec<Draft>) -> (r: Result<Circuit, Error>)
    ensures
        match r {
            Ok(c) => c.wf() && c@.name == name@ && buildable(draft_views(drafts@)) && built(
                draft_views(drafts@),
                c@,
            ),
            Err(e) => !buildable(draft_views(drafts@)) && draft_fault(draft_views(drafts@), e),
        },
{
    let ghost ds = draft_views(drafts@);
    if find_constant(drafts).is_some() {
        return Err(Error::DuplicateConstant);
    }
    let limit = u32::MAX as usize;
    if drafts.len() >= limit - 2 {
        return Err(Error::CapacityExceeded);
    }
    let total = match count_inputs(drafts) {
        Some(n) => n,
        None => {
            return Err(Error::CapacityExceeded);
        },
    };
    if let Some(k) = find_wide(drafts) {
        return Err(Error::TooManyPorts(k as u32));
    }
    let table = match driver_table(drafts) {
        Ok(table) => table,
        Err(sig) => {
            proof {
                lemma_twice_is_not_single(ds, sig);
            }
            return Err(Error::DuplicateDriver(sig));
        },
    };
    match check_inputs(drafts, &table) {
        Ok(_) => {},
        Err(e) => {
            return Err(e);
        },
    }
    assert(buildable(ds));
    let mut c = Circuit::new();
    c.set_name(name);
    let mut ids: Vec<NodeId> = Vec::new();
    let mut k: usize = 0;
    proof {
        c.lemma_view_wf();
        assert(c@.nodes.dom() =~= c@.slots);
        assert(c@.slots.len() == 2);
    }
    while k < drafts.len()
        invariant
            c.wf(),
            k <= drafts@.len(),
            ds == draft_views(drafts@),
            buildable(ds),
            ids@.len() == k,
            c@.name == name@,
            c@.edges =~= Map::empty(),
            c@.slots.len() == 2 + k,
            nodes_built(ds.take(k as int), c@, as_ints(ids@)),
        decreases drafts.len() - k,
    {
        let ghost before = c@;
        let ghost old_ids = as_ints(ids@);
        proof {
            c.lemma_view_wf();
            assert(!(ds[k as int].node.kind is Constant));
        }
        let id = match c.add_node(drafts[k].node.duplicate()) {
            Ok(id) => id,
            Err(e) => {
                assert(false);
                return Err(e);
            },
        };
        ids.push(id);
        proof {
            let new_ids = as_ints(ids@);
            let shorter = ds.take(k as int);
            let longer = ds.take(k + 1);
            assert(new_ids[k as int] == id);
            assert(longer[k as int] == ds[k as int]);
            assert forall|i: int| 0 <= i < new_ids.len() implies c@.nodes.contains_key(#[trigger] new_ids[i])
                && c@.nodes[new_ids[i]] == longer[i].node by {
                if i < k {
                    assert(new_ids[i] == old_ids[i]);
                    assert(before.nodes.contains_key(old_ids[i]));
                    assert(longer[i] == shorter[i]);
                }
            }
            assert forall|i1: int, i2: int| 0 <= i1 < i2 < new_ids.len() implies #[trigger] new_ids[i1]
                != #[trigger] new_ids[i2] by {
                assert(new_ids[i1] == old_ids[i1]);
                assert(before.nodes.contains_key(old_ids[i1]));
                if i2 < k {
                    assert(new_ids[i2] == old_ids[i2]);
                }
            }
            assert forall|i: int| #[trigger] c@.nodes.contains_key(i) implies i == c@.zero || i == c@.one
                || new_ids.contains(i) by {
                if i == id as int {
                    assert(new_ids[k as int] == i);
                } else {
                    assert(before.nodes.contains_key(i));
                    if old_ids.contains(i) {
                        let a = choose|a: int| 0 <= a < old_ids.len() && old_ids[a] == i;
                        assert(new_ids[a] == i);
                    }
                }
            }
            assert(c@.nodes.dom() =~= c@.slots);
        }
        k = k + 1;
    }
    assert(ds.take(k as int) =~= ds);
    let ghost idv = as_ints(ids@);
    let ghost mut wires: Map<(int, int), int> = Map::empty();
    let mut k: usize = 0;
    proof {
        assert forall|x: int| !is_built_wire(wires, x) by {}
    }
    while k < drafts.len()
        invariant
            c.wf(),
            k <= drafts@.len(),
            ds == draft_views(drafts@),
            buildable(ds),
            idv == as_ints(ids@),
            ids@.len() == drafts@.len(),
            c@.name == name@,
            nodes_built(ds, c@, idv),
            wires_built(ds, c@, idv, wires, k as int, 0),
            c@.edges.dom().len() == inputs_before(ds, k as int),
            forall|sig: SignalId| #[trigger] table@.contains_key(sig) <==> is_driven(ds, sig),
            forall|sig: SignalId| #[trigger] table@.contains_key(sig) ==> entry_ok(ds, sig, table@[sig]),
        decreases drafts.len() - k,
    {
        let mut j: usize = 0;
        assert(!too_many_ports(ds, k as int));
        while j < drafts[k as usize].inputs.len()
            invariant
                c.wf(),
                k < drafts@.len(),
                ds == draft_views(drafts@),
                buildable(ds),
                idv == as_ints(ids@),
                ids@.len() == drafts@.len(),
                j <= ds[k as int].inputs.len() <= 256,
                c@.name == name@,
                nodes_built(ds, c@, idv),
                wires_built(ds, c@, idv, wires, k as int, j as int),
                c@.edges.dom().len() == inputs_before(ds, k as int) + j,
                forall|sig: SignalId| #[trigger] table@.contains_key(sig) <==> is_driven(ds, sig),
                forall|sig: SignalId| #[trigger] table@.contains_key(sig) ==> entry_ok(ds, sig, table@[sig]),
            decreases ds[k as int].inputs.len() - j,
        {
            let ghost before = c@;
            let bit = drafts[k].inputs[j];
            proof {
                c.lemma_view_wf();
                assert(!undriven_at(ds, k as int, j as int));
                assert(!undefined_at(ds, k as int, j as int));
                assert(inputs_before(ds, k + 1) == inputs_before(ds, k as int) + ds[k as int].inputs.len());
                lemma_inputs_grow(ds, k + 1, ds.len() as int);
                assert(idv[k as int] == ids@[k as int]);
                assert(before.nodes.contains_key(idv[k as int]));
            }
            let (src, src_port) = match bit {
                BitVal::Signal(s) => {
                    let entry = table.get(&s);
                    assert(table@.contains_key(s));
                    match entry {
                        Some(e) => {
                            proof {
                                assert(entry_ok(ds, s, *e));
                                let a = choose|a: Place| #[trigger]
                                    places(ds).contains(a) && a.0 == e.0 && a.1 == e.1 && bit_at(ds, a)
                                        == BitVal::Signal(s);
                                assert(idv[a.0] == ids@[a.0]);
                                assert(before.nodes.contains_key(idv[a.0]));
                            }
                            (ids[e.0], e.1)
                        },
                        None => {
                            assert(false);
                            (0u32, 0u8)
                        },
                    }
                },
                BitVal::Constant(b) => match b.to_bool() {
                    Some(v) => (c.const_node(v), 0u8),
                    None => {
                        assert(false);
                        (0u32, 0u8)
                    },
                },
            };
            assert(starts_at(ds, idv, before, bit, src as int, src_port as int));
            let x = match c.connect(src, src_port, ids[k], j as u8) {
                Ok(x) => x,
                Err(e) => {
                    assert(false);
                    return Err(e);
                },
            };
            proof {
                let after = c@;
                let wires2 = wires.insert((k as int, j as int), x as int);
                assert(!wires.contains_key((k as int, j as int)));
                assert forall|y: int| is_built_wire(wires, y) implies is_built_wire(wires2, y) && y != x by {
                    let (a, b) = choose|a: int, b: int| #[trigger] wires.contains_key((a, b)) && wires[(a, b)] == y;
                    assert(wires2.contains_key((a, b)) && wires2[(a, b)] == y);
                    assert(before.edges.contains_key(wires[(a, b)]));
                }
                assert(is_built_wire(wires2, x as int)) by {
                    assert(wires2.contains_key((k as int, j as int)) && wires2[(k as int, j as int)] == x);
                }
                assert forall|a: int, b: int| #[trigger] wires2.contains_key((a, b)) implies {
                    &&& after.edges.contains_key(wires2[(a, b)])
                    &&& after.edges[wires2[(a, b)]].dst == idv[a]
                    &&& after.edges[wires2[(a, b)]].dst_port == b
                    &&& starts_at(
                        ds,
                        idv,
                        after,
                        ds[a].inputs[b],
                        after.edges[wires2[(a, b)]].src,
                        after.edges[wires2[(a, b)]].src_port,
                    )
                } by {
                    if a == k && b == j {
                    } else {
                        assert(wires.contains_key((a, b)));
                        assert(before.edges.contains_key(wires[(a, b)]));
                        assert(starts_at(
                            ds,
                            idv,
                            before,
                            ds[a].inputs[b],
                            before.edges[wires[(a, b)]].src,
                            before.edges[wires[(a, b)]].src_port,
                        ));
                    }
                }
                assert forall|k1: int, j1: int, k2: int, j2: int|
                    #![trigger wires2.contains_key((k1, j1)), wires2.contains_key((k2, j2))]
                    wires2.contains_key((k1, j1)) && wires2.contains_key((k2, j2)) && (k1 != k2 || j1 != j2)
                        implies wires2[(k1, j1)] != wires2[(k2, j2)] by {
                    if k1 == k && j1 == j {
                        assert(wires.contains_key((k2, j2)));
                        assert(before.edges.contains_key(wires[(k2, j2)]));
                    } else if k2 == k && j2 == j {
                        assert(wires.contains_key((k1, j1)));
                        assert(before.edges.contains_key(wires[(k1, j1)]));
                    } else {
                        assert(wires.contains_key((k1, j1)) && wires.contains_key((k2, j2)));
                    }
                }
                assert forall|y: int| #[trigger] after.edges.contains_key(y) implies is_built_wire(wires2, y) by {
                    if y != x {
                        assert(before.edges.contains_key(y));
                    }
                }
                assert forall|a: int, b: int| #[trigger]
                    wires2.contains_key((a, b)) <==> 0 <= a < ds.len() && 0 <= b < ds[a].inputs.len() && (a < k
                        || (a == k && b < j + 1)) by {
                    if a == k && b == j {
                    } else {
                        assert(wires2.contains_key((a, b)) == wires.contains_key((a, b)));
                    }
                }
                wires = wires2;
            }
            j = j + 1;
        }
        proof {
            assert(inputs_before(ds, k + 1) == inputs_before(ds, k as int) + ds[k as int].inputs.len());
            assert forall|a: int, b: int| #[trigger]
                wires.contains_key((a, b)) <==> 0 <= a < ds.len() && 0 <= b < ds[a].inputs.len() && (a < k + 1
                    || (a == k + 1 && b < 0)) by {}
        }
        k = k + 1;
    }
    proof {
        assert(nodes_built(ds, c@, idv) && wires_built(ds, c@, idv, wires, ds.len() as int, 0));
    }
    Ok(c)
}

} // verus!
