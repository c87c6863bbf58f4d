//! The order in which the wires at a node are handed out: by destination
//! port, then by the node at the other end, then by source port, then by
//! edge index.

use vstd::prelude::*;

use crate::wiring::Link;

verus! {

/// `a` comes strictly before `b`.
pub open spec fn link_before(a: Link, b: Link) -> bool {
    ||| a.dst_port < b.dst_port
    ||| a.dst_port == b.dst_port && a.node < b.node
    ||| a.dst_port == b.dst_port && a.node == b.node && a.src_port < b.src_port
    ||| a.dst_port == b.dst_port && a.node == b.node && a.src_port == b.src_port && a.edge
        < b.edge
}

/// Each element comes strictly before every later one.
pub open spec fn ordered_links(links: Seq<Link>) -> bool {
    forall|i: int, j: int| 0 <= i < j < links.len() ==> link_before(#[trigger] links[i], #[trigger] links[j])
}

/// No two elements have the same edge index.
pub open spec fn distinct_edges(links: Seq<Link>) -> bool {
    forall|i: int, j: int|
        0 <= i < j < links.len() ==> (#[trigger] links[i]).edge != (#[trigger] links[j]).edge
}

/// Decides [`link_before`].
pub fn precedes(a: &Link, b: &Link) -> (before: bool)
    ensures
        before == link_before(*a, *b),
{
    if a.dst_port != b.dst_port {
        a.dst_port < b.dst_port
    } else if a.node != b.node {
        a.node < b.node
    } else if a.src_port != b.src_port {
        a.src_port < b.src_port
    } else {
        a.edge < b.edge
    }
}

/// The same links in order. The edge indices must differ from one another,
/// as those of the wires at one node do.
pub fn sort_links(links: Vec<Link>) -> (out: Vec<Link>)
    requires
        distinct_edges(links@),
    ensures
        ordered_links(out@),
        out@.len() == links@.len(),
        forall|x: Link| out@.contains(x) <==> links@.contains(x),
{
    let mut out: Vec<Link> = Vec::new();
    let mut k: usize = 0;
    while k < links.len()
        invariant
            k <= links.len(),
            distinct_edges(links@),
            ordered_links(out@),
            out@.len() == k,
            forall|x: Link| out@.contains(x) <==> exists|j: int| 0 <= j < k && links@[j] == x,
        decreases links.len() - k,
    {
        let x = links[k];
        let mut p: usize = 0;
        while p < out.len() && precedes(&out[p], &x)
            invariant
                p <= out.len(),
                forall|q: int| 0 <= q < p ==> link_before(#[trigger] out@[q], x),
            decreases out.len() - p,
        {
            p = p + 1;
        }
        let ghost before = out@;
        out.insert(p, x);
        proof {
            let after = out@;
            assert(after.len() == before.len() + 1);
            assert(forall|q: int| 0 <= q < p ==> after[q] == before[q]);
            assert(after[p as int] == x);
            assert(forall|q: int| p < q < after.len() ==> after[q] == before[q - 1]);
            assert forall|q: int| p <= q < before.len() implies link_before(x, #[trigger] before[q]) by {
                assert(before.contains(before[q]));
                let j = choose|j: int| 0 <= j < k && links@[j] == before[q];
                assert(links@[j].edge != links@[k as int].edge);
                assert(before.contains(before[p as int]));
                let jp = choose|j: int| 0 <= j < k && links@[j] == before[p as int];
                assert(links@[jp].edge != links@[k as int].edge);
                if q > p {
                    assert(link_before(before[p as int], before[q]));
                }
            }
            assert forall|a: int, b: int| 0 <= a < b < after.len() implies link_before(
                #[trigger] after[a],
                #[trigger] after[b],
            ) by {
                if b < p {
                    assert(link_before(before[a], before[b]));
                } else if b == p {
                } else if a < p {
                    assert(link_before(before[a], before[b - 1]));
                } else if a == p {
                } else {
                    assert(link_before(before[a - 1], before[b - 1]));
                }
            }
            assert forall|y: Link| after.contains(y) <==> exists|j: int|
                0 <= j < k + 1 && links@[j] == y by {
                if after.contains(y) {
                    let q = choose|q: int| 0 <= q < after.len() && after[q] == y;
                    if q < p {
                        assert(before.contains(before[q]));
                    } else if q == p {
                        assert(links@[k as int] == y);
                    } else {
                        assert(before.contains(before[q - 1]));
                    }
                }
                if exists|j: int| 0 <= j < k + 1 && links@[j] == y {
                    let j = choose|j: int| 0 <= j < k + 1 && links@[j] == y;
                    if j == k {
                        assert(after[p as int] == y);
                    } else {
                        assert(before.contains(y));
                        let q = choose|q: int| 0 <= q < before.len() && before[q] == y;
                        if q < p {
                            assert(after[q] == y);
                        } else {
                            assert(after[q + 1] == y);
                        }
                    }
                }
            }
        }
        k = k + 1;
    }
    proof {
        assert forall|x: Link| out@.contains(x) <==> links@.contains(x) by {
            if links@.contains(x) {
                let j = choose|j: int| 0 <= j < links@.len() && links@[j] == x;
                assert(0 <= j < k && links@[j] == x);
            }
        }
    }
    out
}

} // verus!
