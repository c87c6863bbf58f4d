//! The masking pass: sensitivity propagation, OR-normalization, share
//! expansion and reconnection.

use vstd::prelude::*;

use crate::circuit::{Circuit, CircuitView, Error};
use crate::expand::lemma_expanded_without_rewrite;
use crate::normalize::{lemma_normalized_without_secure_or, Inverter};
use crate::shares::{Replica, Shares};
use crate::node::{NodeId, NodeView};
use crate::reach::{lemma_reaches_self, lemma_reaches_step, lemma_reaches_trans, reached_from, reaches};
use crate::wiring::has_wire;

verus! {

impl CircuitView {
    /// The secure primary inputs, from which sensitivity spreads.
    pub open spec fn secure_inputs(self) -> Set<int> {
        self.secure_among(self.inputs())
    }

    /// Some secure primary input reaches `i` along the wires.
    pub open spec fn in_secure_cone(self, i: int) -> bool {
        reached_from(self.edges, self.secure_inputs(), i)
    }

    /// The circuit after sensitivity propagation: a node is secure if it was
    /// before or if a secure primary input reaches it. Nothing else changes.
    pub open spec fn propagated(self) -> CircuitView {
        CircuitView {
            nodes: Map::new(
                |i: int| self.nodes.contains_key(i),
                |i: int|
                    NodeView { secure: self.nodes[i].secure || self.in_secure_cone(i), ..self.nodes[i] },
            ),
            ..self
        }
    }

    /// Sensitivity is closed under wires: a wire from a secure node leads to
    /// a secure node.
    pub open spec fn secure_closed(self) -> bool {
        forall|e: int| #[trigger]
            self.edges.contains_key(e) && self.is_secure(self.edges[e].src) ==> self.is_secure(
                self.edges[e].dst,
            )
    }

    /// Every wire from a node that is marked secure without being in the
    /// secure cone leads to a node that is secure or in the cone.
    pub open spec fn stray_secure_closed(self) -> bool {
        forall|e: int| #[trigger]
            self.edges.contains_key(e) && self.is_secure(self.edges[e].src) && !self.in_secure_cone(
                self.edges[e].src,
            ) ==> self.is_secure(self.edges[e].dst) || self.in_secure_cone(self.edges[e].dst)
    }
}

/// After propagation, sensitivity is closed under wires exactly when the
/// marks that stood outside the secure cone were closed to begin with. In
/// particular it is closed when only primary inputs were marked.
pub proof fn lemma_propagation_closed(c: CircuitView)
    requires
        c.wf(),
    ensures
        c.propagated().secure_closed() <==> c.stray_secure_closed(),
        (forall|i: int| c.is_secure(i) ==> c.inputs().contains(i)) ==> c.propagated().secure_closed(),
{
    let p = c.propagated();
    assert forall|e: int| #[trigger] c.edges.contains_key(e) && c.in_secure_cone(c.edges[e].src) implies c.in_secure_cone(
        c.edges[e].dst,
    ) by {
        let a = choose|a: int| #[trigger] c.secure_inputs().contains(a) && reaches(c.edges, a, c.edges[e].src);
        assert(has_wire(c.edges, c.edges[e].src, c.edges[e].dst));
        lemma_reaches_step(c.edges, a, c.edges[e].src, c.edges[e].dst);
    }
    if c.stray_secure_closed() {
        assert forall|e: int| #[trigger] p.edges.contains_key(e) && p.is_secure(p.edges[e].src) implies p.is_secure(
            p.edges[e].dst,
        ) by {
            assert(c.edges.contains_key(e));
            assert(c.nodes.contains_key(c.edges[e].src));
            assert(c.nodes.contains_key(c.edges[e].dst));
        }
    }
    if p.secure_closed() {
        assert forall|e: int| #[trigger]
            c.edges.contains_key(e) && c.is_secure(c.edges[e].src) && !c.in_secure_cone(
                c.edges[e].src,
            ) implies c.is_secure(c.edges[e].dst) || c.in_secure_cone(c.edges[e].dst) by {
            assert(p.edges.contains_key(e));
            assert(p.is_secure(p.edges[e].src));
            assert(p.is_secure(p.edges[e].dst));
        }
    }
    if forall|i: int| c.is_secure(i) ==> c.inputs().contains(i) {
        assert forall|e: int| #[trigger]
            c.edges.contains_key(e) && c.is_secure(c.edges[e].src) && !c.in_secure_cone(
                c.edges[e].src,
            ) implies c.is_secure(c.edges[e].dst) || c.in_secure_cone(c.edges[e].dst) by {
            let u = c.edges[e].src;
            assert(c.inputs().contains(u));
            assert(c.secure_inputs().contains(u));
            lemma_reaches_self(c.edges, u);
        }
    }
}

/// Propagating a second time changes nothing.
pub proof fn lemma_propagation_idempotent(c: CircuitView)
    requires
        c.wf(),
    ensures
        c.propagated().propagated() == c.propagated(),
{
    let p = c.propagated();
    let q = p.propagated();
    assert forall|i: int| p.nodes.contains_key(i) implies (p.nodes[i].secure || p.in_secure_cone(i)) == p.nodes[i].secure by {
        if p.in_secure_cone(i) {
            let a = choose|a: int| #[trigger] p.secure_inputs().contains(a) && reaches(p.edges, a, i);
            assert(c.inputs().contains(a));
            if c.nodes[a].secure {
                assert(c.secure_inputs().contains(a));
            } else {
                assert(c.in_secure_cone(a));
                let b = choose|b: int| #[trigger] c.secure_inputs().contains(b) && reaches(c.edges, b, a);
                lemma_reaches_trans(c.edges, b, a, i);
            }
            assert(c.in_secure_cone(i));
        }
    }
    assert(q.nodes =~= p.nodes);
}

impl Circuit {
    /// Marks as secure every node that a secure primary input reaches along
    /// the wires.
    pub fn propagate_secure(&mut self)
        requires
            old(self).wf(),
        ensures
            final(self).wf(),
            final(self)@ == old(self)@.propagated(),
    {
        let starts = self.secure_inputs();
        let ghost before = self@;
        let ghost set = starts@.map_values(|i: NodeId| i as int).to_set();
        proof {
            self.lemma_view_wf();
            assert(set =~= before.secure_inputs()) by {
                assert forall|x: int| set.contains(x) <==> before.secure_inputs().contains(x) by {
                    if set.contains(x) {
                        let all = starts@.map_values(|i: NodeId| i as int);
                        let j = choose|j: int| 0 <= j < all.len() && all[j] == x;
                        assert(before.secure_inputs().contains(starts@[j] as int));
                    }
                    if before.secure_inputs().contains(x) {
                        assert(starts@.contains(x as u32));
                        let j = choose|j: int| 0 <= j < starts@.len() && starts@[j] == x as u32;
                        assert(starts@.map_values(|i: NodeId| i as int)[j] == x);
                    }
                }
            }
        }
        let marks = self.cone(&starts, false);
        let n = marks.len();
        let mut i: usize = 0;
        assert(before.nodes =~= Map::new(
            |v: int| before.nodes.contains_key(v),
            |v: int|
                NodeView {
                    secure: before.nodes[v].secure || (v < 0 && before.in_secure_cone(v)),
                    ..before.nodes[v]
                },
        ));
        while i < n
            invariant
                self.wf(),
                i <= n,
                n == marks@.len(),
                before.wf(),
                forall|v: int| #[trigger] before.slots.contains(v) ==> v < n,
                forall|v: int| 0 <= v < n ==> #[trigger] marks@[v] == before.in_secure_cone(v),
                forall|v: int| before.in_secure_cone(v) ==> before.nodes.contains_key(v),
                self@ == (CircuitView {
                    nodes: Map::new(
                        |v: int| before.nodes.contains_key(v),
                        |v: int|
                            NodeView {
                                secure: before.nodes[v].secure || (v < i && before.in_secure_cone(v)),
                                ..before.nodes[v]
                            },
                    ),
                    ..before
                }),
            decreases n - i,
        {
            let ghost now = self@;
            if marks[i] && i <= u32::MAX as usize {
                assert(before.nodes.contains_key(i as int));
                assert(now.nodes.contains_key(i as int));
                self.set_secure(i as u32, true);
                assert(self@.nodes =~= Map::new(
                    |v: int| before.nodes.contains_key(v),
                    |v: int|
                        NodeView {
                            secure: before.nodes[v].secure || (v < i + 1 && before.in_secure_cone(v)),
                            ..before.nodes[v]
                        },
                ));
            } else {
                assert(!before.in_secure_cone(i as int)) by {
                    if before.in_secure_cone(i as int) {
                        assert(before.slots.contains(i as int));
                    }
                }
                assert(self@.nodes =~= Map::new(
                    |v: int| before.nodes.contains_key(v),
                    |v: int|
                        NodeView {
                            secure: before.nodes[v].secure || (v < i + 1 && before.in_secure_cone(v)),
                            ..before.nodes[v]
                        },
                ));
            }
            i = i + 1;
        }
        proof {
            assert(self@.nodes =~= before.propagated().nodes) by {
                assert forall|v: int| before.nodes.contains_key(v) implies (v < n && before.in_secure_cone(v))
                    == before.in_secure_cone(v) by {
                    assert(before.slots.contains(v));
                }
            }
        }
    }
}

impl CircuitView {
    /// `post` is this circuit masked at the given order, with the shares
    /// where `tables` says: sensitivity is propagated, the secure OR gates
    /// are normalized, and the result is expanded into shares.
    pub open spec fn masks_to(self, post: CircuitView, order: u8, tables: Map<int, Seq<Replica>>) -> bool {
        exists|mid: CircuitView|
            {
                &&& #[trigger] self.propagated().normalizes_to(mid)
                &&& mid.wf()
                &&& mid.expands_to(post, order, tables)
            }
    }
}

/// Masking of a circuit in place.
pub trait Masking: Sized {
    /// The value is one that can be masked.
    spec fn maskable(&self) -> bool;

    /// Masks the circuit at the given order, so that every sensitive wire is
    /// carried by `order + 1` shares, and returns where the shares live.
    fn mask(&mut self, order: u8) -> (r: Result<Shares, Error>)
        requires
            old(self).maskable(),
    ;
}

impl Masking for Circuit {
    open spec fn maskable(&self) -> bool {
        self.wf()
    }

    /// Propagates sensitivity, normalizes the secure OR gates and expands
    /// the secure cone into shares. Fails with nothing changed when the
    /// circuit is too large; fails after normalization, and before any
    /// expansion, on a node that cannot be rewritten or a share port that
    /// does not fit.
    fn mask(&mut self, order: u8) -> (r: Result<Shares, Error>)
        ensures
            final(self).wf(),
            match r {
                Ok(shares) => {
                    &&& old(self)@.fits_masking(order)
                    &&& old(self)@.masks_to(final(self)@, order, shares@)
                },
                Err(e) => match e {
                    Error::CapacityExceeded => !old(self)@.fits_masking(order) && final(self)@ == old(self)@,
                    Error::NotExpandable(v) => {
                        &&& old(self)@.fits_masking(order)
                        &&& old(self)@.propagated().normalizes_to(final(self)@)
                        &&& final(self)@.to_rewrite(v as int)
                        &&& !final(self)@.expandable(v as int)
                        &&& forall|u: int| 0 <= u < v && final(self)@.to_rewrite(u) ==> final(self)@.expandable(u)
                    },
                    Error::PortOverflow(v) => {
                        &&& old(self)@.fits_masking(order)
                        &&& old(self)@.propagated().normalizes_to(final(self)@)
                        &&& forall|v: int| final(self)@.to_rewrite(v) ==> final(self)@.expandable(v)
                        &&& !final(self)@.ports_fit(order)
                        &&& final(self)@.has_misfit_into(v as int, order)
                    },
                    _ => false,
                },
            },
    {
        if !self.fits_masking(order) {
            return Err(Error::CapacityExceeded);
        }
        let ghost pre = self@;
        proof {
            self.lemma_view_wf();
        }
        self.propagate_secure();
        let ghost marked = self@;
        proof {
            self.lemma_view_wf();
            let inputs = marked.or_inputs();
            assert(inputs.subset_of(marked.edges.dom()));
            vstd::set_lib::lemma_len_subset(inputs, marked.edges.dom());
            assert(marked.fits_inverters()) by (nonlinear_arith)
                requires
                    marked.or_inputs().len() <= marked.edges.dom().len(),
                    (order + 1) * (marked.slots.len() + marked.edges.dom().len()) < u32::MAX,
                    (order + 1) * (2 * marked.edges.dom().len()) < u32::MAX,
                    order >= 0,
                    marked.fits_inverters() == (marked.slots.len() + marked.or_inputs().len() < u32::MAX
                        && marked.edges.dom().len() + marked.or_inputs().len() < u32::MAX),
            ;
        }
        match self.convert_secure_ors() {
            Ok(_) => {},
            Err(e) => {
                assert(false);
                return Err(e);
            },
        }
        let ghost mid = self@;
        proof {
            self.lemma_view_wf();
            assert((order + 1) * mid.slots.len() < u32::MAX) by (nonlinear_arith)
                requires
                    mid.slots.len() <= marked.slots.len() + marked.or_inputs().len(),
                    marked.or_inputs().len() <= marked.edges.dom().len(),
                    (order + 1) * (marked.slots.len() + marked.edges.dom().len()) < u32::MAX,
                    order >= 0,
            ;
            assert((order + 1) * mid.edges.dom().len() < u32::MAX) by (nonlinear_arith)
                requires
                    mid.edges.dom().len() <= marked.edges.dom().len() + marked.or_inputs().len(),
                    marked.or_inputs().len() <= marked.edges.dom().len(),
                    (order + 1) * (2 * marked.edges.dom().len()) < u32::MAX,
                    order >= 0,
            ;
        }
        let r = self.expand_shares(order);
        proof {
            if r.is_ok() {
                assert(marked.normalizes_to(mid));
                assert(pre.masks_to(self@, order, r.unwrap()@));
            }
        }
        r
    }
}

/// A circuit without a secure node is left as it is by masking at any
/// order, and no node gets shares.
pub proof fn lemma_mask_without_secure(pre: CircuitView, post: CircuitView, order: u8, tables: Map<int, Seq<Replica>>)
    requires
        pre.wf(),
        pre.masks_to(post, order, tables),
        forall|i: int| !pre.is_secure(i),
    ensures
        post == pre,
        tables == Map::<int, Seq<Replica>>::empty(),
{
    let marked = pre.propagated();
    assert(marked.nodes =~= pre.nodes) by {
        assert forall|i: int| pre.nodes.contains_key(i) implies !pre.in_secure_cone(i) by {
            if pre.in_secure_cone(i) {
                let a = choose|a: int| #[trigger] pre.secure_inputs().contains(a) && reaches(pre.edges, a, i);
                assert(pre.is_secure(a));
            }
        }
    }
    assert(marked == pre);
    let mid = choose|mid: CircuitView|
        {
            &&& #[trigger] pre.propagated().normalizes_to(mid)
            &&& mid.wf()
            &&& mid.expands_to(post, order, tables)
        };
    let inv = choose|inv: Map<int, Inverter>| #[trigger] marked.or_normalized(mid, inv);
    assert forall|i: int| !pre.is_secure_or(i) by {}
    lemma_normalized_without_secure_or(pre, mid, inv);
    let wires = choose|wires: Map<(int, int), int>| #[trigger] mid.expanded(post, order, tables, wires);
    assert forall|v: int| !mid.to_rewrite(v) by {}
    lemma_expanded_without_rewrite(mid, post, order, tables, wires);
}

/// Masking leaves the two constants where they are.
pub proof fn lemma_mask_keeps_constants(pre: CircuitView, post: CircuitView, order: u8, tables: Map<int, Seq<Replica>>)
    requires
        pre.masks_to(post, order, tables),
    ensures
        post.zero == pre.zero,
        post.one == pre.one,
{
    let mid = choose|mid: CircuitView|
        {
            &&& #[trigger] pre.propagated().normalizes_to(mid)
            &&& mid.wf()
            &&& mid.expands_to(post, order, tables)
        };
    let inv = choose|inv: Map<int, Inverter>| #[trigger] pre.propagated().or_normalized(mid, inv);
    let wires = choose|wires: Map<(int, int), int>| #[trigger] mid.expanded(post, order, tables, wires);
}

} // verus!
