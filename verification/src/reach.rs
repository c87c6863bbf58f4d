//! Reachability along wires, and the traversal that computes it.

use vstd::prelude::*;

use crate::wiring::{
    dfs_limit, dfs_new, dfs_next, dfs_next_reversed, dfs_seen, dfs_stack, dfs_step, has_wire, reversed,
    wiring_edges, wiring_nodes, Walk, Wire, Wiring,
};

verus! {

/// `p` is a walk along the wires: each node has a wire to the next.
pub open spec fn is_path(edges: Map<int, Wire>, p: Seq<int>) -> bool {
    &&& p.len() > 0
    &&& forall|i: int| 0 <= i < p.len() - 1 ==> has_wire(edges, #[trigger] p[i], p[i + 1])
}

/// There is a walk along the wires from `a` to `b`, possibly of no step.
pub open spec fn reaches(edges: Map<int, Wire>, a: int, b: int) -> bool {
    exists|p: Seq<int>| #[trigger] is_path(edges, p) && p[0] == a && p.last() == b
}

/// Some member of `starts` reaches `b`.
pub open spec fn reached_from(edges: Map<int, Wire>, starts: Set<int>, b: int) -> bool {
    exists|a: int| #[trigger] starts.contains(a) && reaches(edges, a, b)
}

/// `s` holds every node that a member has a wire to.
pub open spec fn closed_under_wires(edges: Map<int, Wire>, s: Set<int>) -> bool {
    forall|u: int, v: int| s.contains(u) && #[trigger] has_wire(edges, u, v) ==> s.contains(v)
}

/// Every node reaches itself.
pub proof fn lemma_reaches_self(edges: Map<int, Wire>, a: int)
    ensures
        reaches(edges, a, a),
{
    let p = seq![a];
    assert(is_path(edges, p));
    assert(p[0] == a && p.last() == a);
}

/// A walk can be lengthened by one wire.
pub proof fn lemma_reaches_step(edges: Map<int, Wire>, a: int, u: int, v: int)
    requires
        reaches(edges, a, u),
        has_wire(edges, u, v),
    ensures
        reaches(edges, a, v),
{
    let p = choose|p: Seq<int>| #[trigger] is_path(edges, p) && p[0] == a && p.last() == u;
    let q = p.push(v);
    assert forall|i: int| 0 <= i < q.len() - 1 implies has_wire(edges, #[trigger] q[i], q[i + 1]) by {
        if i < p.len() - 1 {
            assert(q[i] == p[i] && q[i + 1] == p[i + 1]);
        } else {
            assert(q[i] == u && q[i + 1] == v);
        }
    }
    assert(is_path(edges, q));
    assert(q[0] == a && q.last() == v);
}

/// A set that is closed under wires holds whatever its members reach.
pub proof fn lemma_closed_holds_reached(edges: Map<int, Wire>, s: Set<int>, a: int, b: int)
    requires
        closed_under_wires(edges, s),
        s.contains(a),
        reaches(edges, a, b),
    ensures
        s.contains(b),
{
    let p = choose|p: Seq<int>| #[trigger] is_path(edges, p) && p[0] == a && p.last() == b;
    lemma_path_stays(edges, s, p, p.len() - 1);
}

proof fn lemma_path_stays(edges: Map<int, Wire>, s: Set<int>, p: Seq<int>, i: int)
    requires
        closed_under_wires(edges, s),
        is_path(edges, p),
        s.contains(p[0]),
        0 <= i < p.len(),
    ensures
        s.contains(p[i]),
    decreases i,
{
    if i > 0 {
        lemma_path_stays(edges, s, p, i - 1);
        assert(has_wire(edges, p[i - 1], p[i - 1 + 1]));
    }
}

/// Walks compose.
pub proof fn lemma_reaches_trans(edges: Map<int, Wire>, a: int, b: int, c: int)
    requires
        reaches(edges, a, b),
        reaches(edges, b, c),
    ensures
        reaches(edges, a, c),
{
    let s = Set::new(|v: int| reaches(edges, a, v));
    assert forall|u: int, v: int| s.contains(u) && #[trigger] has_wire(edges, u, v) implies s.contains(
        v,
    ) by {
        lemma_reaches_step(edges, a, u, v);
    }
    lemma_closed_holds_reached(edges, s, b, c);
}

/// The wires that a traversal follows: the wires themselves, or the
/// reversed wires when it goes backward.
pub open spec fn directed(edges: Map<int, Wire>, backward: bool) -> Map<int, Wire> {
    if backward {
        reversed(edges)
    } else {
        edges
    }
}

/// What holds of a traversal from `start` between two steps.
spec fn walk_inv(edges: Map<int, Wire>, nodes: Set<int>, start: int, w: Walk) -> bool {
    let stack = dfs_stack(w);
    let seen = dfs_seen(w);
    &&& forall|i: int|
        0 <= i < stack.len() ==> nodes.contains(#[trigger] stack[i]) && reaches(edges, start, stack[i])
    &&& forall|v: int| #[trigger] seen.contains(v) ==> nodes.contains(v) && reaches(edges, start, v)
    &&& (seen.contains(start) || exists|i: int| 0 <= i < stack.len() && #[trigger] stack[i] == start)
    &&& forall|u: int, v: int|
        seen.contains(u) && #[trigger] has_wire(edges, u, v) ==> seen.contains(v) || exists|i: int|
            0 <= i < stack.len() && #[trigger] stack[i] == v
    &&& forall|v: int| #[trigger] nodes.contains(v) ==> 0 <= v < dfs_limit(w)
}

/// A step that hands out a node keeps [`walk_inv`].
proof fn lemma_walk_step(
    edges: Map<int, Wire>,
    nodes: Set<int>,
    start: int,
    w0: Walk,
    w1: Walk,
    n: u32,
)
    requires
        walk_inv(edges, nodes, start, w0),
        forall|u: int, v: int| nodes.contains(u) && #[trigger] has_wire(edges, u, v) ==> nodes.contains(v),
        dfs_step(edges, dfs_stack(w0), dfs_seen(w0), dfs_stack(w1), dfs_seen(w1), Some(n)),
        dfs_limit(w1) == dfs_limit(w0),
    ensures
        walk_inv(edges, nodes, start, w1),
        !dfs_seen(w0).contains(n as int),
        dfs_seen(w1) == dfs_seen(w0).insert(n as int),
        nodes.contains(n as int),
{
    let stack0 = dfs_stack(w0);
    let seen0 = dfs_seen(w0);
    let stack1 = dfs_stack(w1);
    let seen1 = dfs_seen(w1);
    let k = choose|k: int|
        {
            &&& 0 <= k < stack0.len()
            &&& #[trigger] stack0[k] == n as int
            &&& !seen0.contains(n as int)
            &&& forall|j: int| k < j < stack0.len() ==> seen0.contains(#[trigger] stack0[j])
            &&& seen1 == seen0.insert(n as int)
            &&& stack1.len() >= k
            &&& stack1.subrange(0, k) == stack0.subrange(0, k)
            &&& forall|j: int|
                k <= j < stack1.len() ==> has_wire(edges, n as int, #[trigger] stack1[j]) && !seen1.contains(
                    stack1[j],
                )
            &&& forall|v: int|
                has_wire(edges, n as int, v) && !seen1.contains(v) ==> exists|j: int|
                    k <= j < stack1.len() && #[trigger] stack1[j] == v
        };
    assert(nodes.contains(stack0[k]));
    assert forall|j: int| 0 <= j < k implies stack1[j] == stack0[j] by {
        assert(stack1.subrange(0, k)[j] == stack0.subrange(0, k)[j]);
    }
    assert forall|i: int| 0 <= i < stack1.len() implies nodes.contains(#[trigger] stack1[i]) && reaches(
        edges,
        start,
        stack1[i],
    ) by {
        if i < k {
            assert(stack1[i] == stack0[i]);
        } else {
            assert(has_wire(edges, n as int, stack1[i]));
            lemma_reaches_step(edges, start, n as int, stack1[i]);
        }
    }
    if !seen1.contains(start) {
        let i = choose|i: int| 0 <= i < stack0.len() && #[trigger] stack0[i] == start;
        if i > k {
            assert(seen0.contains(stack0[i]));
        }
        assert(i < k);
        assert(stack1[i] == start);
    }
    assert forall|u: int, v: int| seen1.contains(u) && #[trigger] has_wire(edges, u, v) implies seen1.contains(
        v,
    ) || exists|i: int| 0 <= i < stack1.len() && #[trigger] stack1[i] == v by {
        if !seen1.contains(v) {
            if u == n as int {
            } else {
                assert(seen0.contains(u));
                let i = choose|i: int| 0 <= i < stack0.len() && #[trigger] stack0[i] == v;
                if i > k {
                    assert(seen0.contains(stack0[i]));
                }
                assert(i < k);
                assert(stack1[i] == v);
            }
        }
    }
}

/// When the traversal ends, it has handed out exactly what `start` reaches.
proof fn lemma_walk_end(edges: Map<int, Wire>, nodes: Set<int>, start: int, w0: Walk, w1: Walk)
    requires
        walk_inv(edges, nodes, start, w0),
        dfs_step(edges, dfs_stack(w0), dfs_seen(w0), dfs_stack(w1), dfs_seen(w1), None),
    ensures
        forall|v: int| dfs_seen(w1).contains(v) <==> reaches(edges, start, v),
{
    let stack0 = dfs_stack(w0);
    let seen = dfs_seen(w0);
    assert forall|u: int, v: int| seen.contains(u) && #[trigger] has_wire(edges, u, v) implies seen.contains(
        v,
    ) by {
        if !seen.contains(v) {
            let i = choose|i: int| 0 <= i < stack0.len() && #[trigger] stack0[i] == v;
            assert(seen.contains(stack0[i]));
        }
    }
    if !seen.contains(start) {
        let i = choose|i: int| 0 <= i < stack0.len() && #[trigger] stack0[i] == start;
        assert(seen.contains(stack0[i]));
    }
    assert forall|v: int| reaches(edges, start, v) implies seen.contains(v) by {
        lemma_closed_holds_reached(edges, seen, start, v);
    }
}

/// Sets the mark of every node that `start` reaches, along the wires or,
/// with `backward`, against them. Other marks stay as they are.
pub(crate) fn mark_reached(g: &Wiring, start: u32, backward: bool, marks: &mut Vec<bool>)
    requires
        wiring_nodes(*g).finite(),
        wiring_nodes(*g).contains(start as int),
        forall|v: int| #[trigger] wiring_nodes(*g).contains(v) ==> 0 <= v < old(marks)@.len(),
        forall|e: int| #[trigger]
            wiring_edges(*g).contains_key(e) ==> wiring_nodes(*g).contains(wiring_edges(*g)[e].src)
                && wiring_nodes(*g).contains(wiring_edges(*g)[e].dst),
    ensures
        final(marks)@.len() == old(marks)@.len(),
        forall|v: int|
            0 <= v < old(marks)@.len() ==> #[trigger] final(marks)@[v] == (old(marks)@[v] || reaches(
                directed(wiring_edges(*g), backward),
                start as int,
                v,
            )),
        forall|v: int| reaches(directed(wiring_edges(*g), backward), start as int, v) ==> wiring_nodes(*g).contains(v),
{
    let ghost edges = directed(wiring_edges(*g), backward);
    let ghost nodes = wiring_nodes(*g);
    let mut walk = dfs_new(g, start);
    let mut done = false;
    proof {
        lemma_reaches_self(edges, start as int);
        assert(dfs_stack(walk)[0] == start as int);
        assert forall|u: int, v: int| nodes.contains(u) && #[trigger] has_wire(edges, u, v) implies nodes.contains(
            v,
        ) by {
            let e = choose|e: int| #[trigger] edges.contains_key(e) && edges[e].src == u && edges[e].dst == v;
            assert(wiring_edges(*g).contains_key(e));
        }
        assert(dfs_seen(walk).finite());
        assert(dfs_seen(walk).len() == 0);
    }
    while !done
        invariant
            edges == directed(wiring_edges(*g), backward),
            nodes == wiring_nodes(*g),
            nodes.finite(),
            marks@.len() == old(marks)@.len(),
            forall|v: int| #[trigger] nodes.contains(v) ==> 0 <= v < marks@.len(),
            forall|u: int, v: int| nodes.contains(u) && #[trigger] has_wire(edges, u, v) ==> nodes.contains(v),
            dfs_seen(walk).finite(),
            dfs_seen(walk).subset_of(nodes),
            dfs_seen(walk).len() <= nodes.len(),
            !done ==> walk_inv(edges, nodes, start as int, walk),
            done ==> forall|v: int| dfs_seen(walk).contains(v) <==> reaches(edges, start as int, v),
            forall|v: int|
                0 <= v < marks@.len() ==> #[trigger] marks@[v] == (old(marks)@[v] || dfs_seen(walk).contains(v)),
        decreases nodes.len() - dfs_seen(walk).len() + (if done { 0int } else { 1int }),
    {
        let ghost w0 = walk;
        let next = if backward {
            dfs_next_reversed(&mut walk, g)
        } else {
            dfs_next(&mut walk, g)
        };
        match next {
            None => {
                proof {
                    lemma_walk_end(edges, nodes, start as int, w0, walk);
                    assert(dfs_seen(walk) == dfs_seen(w0));
                }
                done = true;
            },
            Some(n) => {
                proof {
                    lemma_walk_step(edges, nodes, start as int, w0, walk, n);
                    assert(dfs_seen(walk).len() == dfs_seen(w0).len() + 1);
                    assert(dfs_seen(walk).subset_of(nodes));
                    vstd::set_lib::lemma_len_subset(dfs_seen(walk), nodes);
                }
                marks.set(n as usize, true);
            },
        }
    }
}

} // verus!
