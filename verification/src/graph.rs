//! Reachability over the directed relation edges, and the cycle detector.
//!
//! The relation graph must stay a DAG at all times. The detector decides,
//! for a candidate edge `parent -> child`, whether the parent is already
//! reachable from the child — in which case inserting the edge would close
//! a directed cycle — by a breadth-first traversal from the child over an
//! explicit visited list.

use vstd::prelude::*;

use crate::models::Edge;

verus! {

/// The directed pairs `(parent, child)` of an edge sequence.
pub open spec fn edge_pairs(edges: Seq<Edge>) -> Seq<(i64, i64)> {
    edges.map_values(|e: Edge| (e.card_parent_id, e.card_child_id))
}

/// `p` is a directed walk through the pairs `es`: at least one node, and
/// every consecutive pair of nodes an edge.
pub open spec fn is_path(es: Seq<(i64, i64)>, p: Seq<i64>) -> bool {
    &&& p.len() >= 1
    &&& forall|k: int| 0 <= k < p.len() - 1 ==> es.contains((#[trigger] p[k], p[k + 1]))
}

/// There is a directed walk of at least one edge from `a` to `b`.
pub open spec fn reaches(es: Seq<(i64, i64)>, a: i64, b: i64) -> bool {
    exists|p: Seq<i64>|
        {
            &&& #[trigger] is_path(es, p)
            &&& p.len() >= 2
            &&& p.first() == a
            &&& p.last() == b
        }
}

/// `b` is `a` itself, or reachable from `a`.
pub open spec fn reaches_or_eq(es: Seq<(i64, i64)>, a: i64, b: i64) -> bool {
    a == b || reaches(es, a, b)
}

/// No node reaches itself: the pairs form a directed acyclic graph.
pub open spec fn acyclic(es: Seq<(i64, i64)>) -> bool {
    forall|a: i64| !reaches(es, a, a)
}

/// Inserting `parent -> child` would close a directed cycle: the candidate
/// is a self-loop, or the parent is already reachable from the child.
pub open spec fn would_cycle(es: Seq<(i64, i64)>, parent: i64, child: i64) -> bool {
    parent == child || reaches(es, child, parent)
}

/// A single edge is a walk.
proof fn lemma_edge_reaches(es: Seq<(i64, i64)>, a: i64, b: i64)
    requires
        es.contains((a, b)),
    ensures
        reaches(es, a, b),
{
    let p = seq![a, b];
    assert(es.contains((p[0], p[1])));
    assert(is_path(es, p));
}

/// A walk from `a` to `b` extended by the edge `b -> c` is a walk from `a`
/// to `c`.
proof fn lemma_reach_extend(es: Seq<(i64, i64)>, a: i64, b: i64, c: i64)
    requires
        reaches_or_eq(es, a, b),
        es.contains((b, c)),
    ensures
        reaches(es, a, c),
{
    if a == b {
        lemma_edge_reaches(es, a, c);
    } else {
        let p = choose|p: Seq<i64>|
            {
                &&& is_path(es, p)
                &&& p.len() >= 2
                &&& p.first() == a
                &&& p.last() == b
            };
        let q = p.push(c);
        assert forall|k: int| 0 <= k < q.len() - 1 implies es.contains(
            (#[trigger] q[k], q[k + 1]),
        ) by {
            if k < p.len() - 1 {
                assert(es.contains((p[k], p[k + 1])));
                assert(q[k] == p[k] && q[k + 1] == p[k + 1]);
            } else {
                assert(q[k] == b && q[k + 1] == c);
            }
        }
        assert(is_path(es, q));
        assert(q.first() == a && q.last() == c);
    }
}

/// An edge `a -> b` followed by a walk from `b` lands wherever the walk
/// lands.
proof fn lemma_reach_prepend(es: Seq<(i64, i64)>, a: i64, b: i64, c: i64)
    requires
        es.contains((a, b)),
        reaches_or_eq(es, b, c),
    ensures
        reaches(es, a, c),
{
    if b == c {
        lemma_edge_reaches(es, a, c);
    } else {
        let p = choose|p: Seq<i64>|
            {
                &&& is_path(es, p)
                &&& p.len() >= 2
                &&& p.first() == b
                &&& p.last() == c
            };
        let q = seq![a] + p;
        assert forall|k: int| 0 <= k < q.len() - 1 implies es.contains(
            (#[trigger] q[k], q[k + 1]),
        ) by {
            if k == 0 {
                assert(q[0] == a && q[1] == p[0]);
            } else {
                assert(es.contains((p[k - 1], p[k])));
                assert(q[k] == p[k - 1] && q[k + 1] == p[k]);
            }
        }
        assert(is_path(es, q));
        assert(q.first() == a && q.last() == c);
    }
}

/// Reachability-or-equality is transitive.
proof fn lemma_reach_trans(es: Seq<(i64, i64)>, a: i64, b: i64, c: i64)
    requires
        reaches_or_eq(es, a, b),
        reaches_or_eq(es, b, c),
    ensures
        reaches_or_eq(es, a, c),
{
    if a == b || b == c {
    } else {
        let p = choose|p: Seq<i64>|
            {
                &&& is_path(es, p)
                &&& p.len() >= 2
                &&& p.first() == a
                &&& p.last() == b
            };
        lemma_reach_trans_helper(es, a, b, c, p);
    }
}

/// The inductive step of [`lemma_reach_trans`], driven by an explicit walk
/// so that the induction terminates.
proof fn lemma_reach_trans_helper(es: Seq<(i64, i64)>, b1: i64, b: i64, c: i64, q: Seq<i64>)
    requires
        is_path(es, q),
        q.first() == b1,
        q.last() == b,
        reaches_or_eq(es, b, c),
    ensures
        reaches_or_eq(es, b1, c),
    decreases q.len(),
{
    if q.len() == 1 {
        assert(b1 == b);
    } else {
        let r = q.drop_first();
        assert(es.contains((q[0], q[1])));
        assert forall|k: int| 0 <= k < r.len() - 1 implies es.contains(
            (#[trigger] r[k], r[k + 1]),
        ) by {
            assert(es.contains((q[k + 1], q[k + 2])));
            assert(r[k] == q[k + 1] && r[k + 1] == q[k + 2]);
        }
        assert(is_path(es, r));
        assert(r.first() == q[1] && r.last() == b);
        lemma_reach_trans_helper(es, q[1], b, c, r);
        lemma_reach_prepend(es, b1, q[1], c);
    }
}

/// Every walk through a subset of the pairs is a walk through the whole.
proof fn lemma_reaches_in_superset(es1: Seq<(i64, i64)>, es2: Seq<(i64, i64)>, a: i64, b: i64)
    requires
        reaches(es1, a, b),
        forall|pr: (i64, i64)| #[trigger] es1.contains(pr) ==> es2.contains(pr),
    ensures
        reaches(es2, a, b),
{
    let p = choose|p: Seq<i64>|
        {
            &&& is_path(es1, p)
            &&& p.len() >= 2
            &&& p.first() == a
            &&& p.last() == b
        };
    assert forall|k: int| 0 <= k < p.len() - 1 implies es2.contains((#[trigger] p[k], p[k + 1])) by {
        assert(es1.contains((p[k], p[k + 1])));
    }
    assert(is_path(es2, p));
}

/// Removing edges cannot create a cycle.
pub proof fn lemma_acyclic_subset(es1: Seq<(i64, i64)>, es2: Seq<(i64, i64)>)
    requires
        acyclic(es2),
        forall|pr: (i64, i64)| #[trigger] es1.contains(pr) ==> es2.contains(pr),
    ensures
        acyclic(es1),
{
    assert forall|a: i64| !reaches(es1, a, a) by {
        if reaches(es1, a, a) {
            lemma_reaches_in_superset(es1, es2, a, a);
        }
    }
}

/// Containment in a pushed sequence.
proof fn lemma_push_contains(es: Seq<(i64, i64)>, e: (i64, i64), x: (i64, i64))
    requires
        es.push(e).contains(x),
    ensures
        es.contains(x) || x == e,
{
    let j = choose|j: int| 0 <= j < es.push(e).len() && es.push(e)[j] == x;
    if j < es.len() {
        assert(es[j] == x);
    }
}

/// Any walk through the pairs extended by the candidate edge
/// `pe -> ce` either avoids the candidate, or passes `pe` before it and
/// `ce` after it — provided `pe` is not already reachable from `ce`.
#[verifier::rlimit(100)]
proof fn lemma_path_with_new_edge(es: Seq<(i64, i64)>, pe: i64, ce: i64, p: Seq<i64>)
    requires
        is_path(es.push((pe, ce)), p),
        !reaches_or_eq(es, ce, pe),
    ensures
        is_path(es, p) || (reaches_or_eq(es, p.first(), pe) && reaches_or_eq(es, ce, p.last())),
    decreases p.len(),
{
    let es2 = es.push((pe, ce));
    if p.len() == 1 {
        assert(is_path(es, p));
    } else {
        let q = p.drop_first();
        assert(es2.contains((p[0], p[1])));
        assert forall|k: int| 0 <= k < q.len() - 1 implies es2.contains(
            (#[trigger] q[k], q[k + 1]),
        ) by {
            assert(es2.contains((p[k + 1], p[k + 2])));
            assert(q[k] == p[k + 1] && q[k + 1] == p[k + 2]);
        }
        assert(is_path(es2, q));
        assert(q.first() == p[1] && q.last() == p.last());
        lemma_path_with_new_edge(es, pe, ce, q);
        lemma_push_contains(es, (pe, ce), (p[0], p[1]));
        if (p[0], p[1]) == (pe, ce) {
            if is_path(es, q) {
                if q.len() == 1 {
                    assert(reaches_or_eq(es, ce, p.last()));
                } else {
                    assert(reaches(es, p[1], p.last()));
                }
            } else {
                assert(reaches_or_eq(es, q.first(), pe));
                assert(false);
            }
            assert(reaches_or_eq(es, p.first(), pe));
        } else {
            assert(es.contains((p[0], p[1])));
            if is_path(es, q) {
                assert forall|k: int| 0 <= k < p.len() - 1 implies es.contains(
                    (#[trigger] p[k], p[k + 1]),
                ) by {
                    if k > 0 {
                        assert(es.contains((q[k - 1], q[k])));
                        assert(q[k - 1] == p[k] && q[k] == p[k + 1]);
                    }
                }
                assert(is_path(es, p));
            } else {
                lemma_reach_prepend(es, p[0], p[1], pe);
            }
        }
    }
}

/// The child nodes of the edges, one for each edge.
pub open spec fn child_ids(edges: Seq<Edge>) -> Seq<i64> {
    edges.map_values(|e: Edge| e.card_child_id)
}

/// `v` is the traversal root, or the child of some edge.
pub open spec fn root_or_child(edges: Seq<Edge>, root: i64, v: i64) -> bool {
    v == root || child_ids(edges).contains(v)
}

/// Every edge whose parent stands among the first `n` visited nodes leads
/// back into the visited list.
pub open spec fn closed_upto(edges: Seq<Edge>, vs: Seq<i64>, n: int) -> bool {
    forall|k: int, m: int|
        #![trigger vs[k], edges[m]]
        0 <= k < n && 0 <= m < edges.len() && edges[m].card_parent_id == vs[k] ==> vs.contains(
            edges[m].card_child_id,
        )
}

/// A walk that starts in a closed visited list cannot leave it.
proof fn lemma_closed_blocks(edges: Seq<Edge>, vs: Seq<i64>, p: Seq<i64>)
    requires
        is_path(edge_pairs(edges), p),
        vs.contains(p.first()),
        closed_upto(edges, vs, vs.len() as int),
    ensures
        vs.contains(p.last()),
    decreases p.len(),
{
    if p.len() > 1 {
        let es = edge_pairs(edges);
        assert(es.contains((p[0], p[1])));
        let m = choose|m: int| 0 <= m < es.len() && es[m] == (p[0], p[1]);
        assert(edges[m].card_parent_id == p[0] && edges[m].card_child_id == p[1]);
        let k = choose|k: int| 0 <= k < vs.len() && vs[k] == p[0];
        assert(vs.contains(edges[m].card_child_id));
        let q = p.drop_first();
        assert forall|j: int| 0 <= j < q.len() - 1 implies es.contains(
            (#[trigger] q[j], q[j + 1]),
        ) by {
            assert(es.contains((p[j + 1], p[j + 2])));
            assert(q[j] == p[j + 1] && q[j + 1] == p[j + 2]);
        }
        assert(is_path(es, q));
        assert(q.first() == p[1] && q.last() == p.last());
        lemma_closed_blocks(edges, vs, q);
    }
}

/// A duplicate-free visited list drawn from the traversal root and the
/// edges' children cannot outgrow the edge count by more than one.
proof fn lemma_visited_bound(edges: Seq<Edge>, vs: Seq<i64>, root: i64)
    requires
        vs.no_duplicates(),
        forall|k: int| 0 <= k < vs.len() ==> root_or_child(edges, root, #[trigger] vs[k]),
    ensures
        vs.len() <= edges.len() + 1,
{
    broadcast use vstd::seq_lib::seq_to_set_is_finite;

    vs.unique_seq_to_set();
    let cs = child_ids(edges);
    let big = cs.to_set().insert(root);
    assert forall|v: i64| vs.to_set().contains(v) implies big.contains(v) by {
        assert(vs.contains(v));
        let k = choose|k: int| 0 <= k < vs.len() && vs[k] == v;
        assert(root_or_child(edges, root, vs[k]));
    }
    assert(vs.to_set().subset_of(big));
    cs.lemma_cardinality_of_set();
    vstd::set_lib::lemma_len_subset(vs.to_set(), big);
    assert(big.len() <= cs.to_set().len() + 1);
}

/// Decides membership in a visited list.
fn contains_id(v: &Vec<i64>, x: i64) -> (r: bool)
    ensures
        r == v@.contains(x),
{
    let mut k: usize = 0;
    while k < v.len()
        invariant
            k <= v@.len(),
            forall|j: int| 0 <= j < k ==> v@[j] != x,
        decreases v@.len() - k,
    {
        if v[k] == x {
            return true;
        }
        k = k + 1;
    }
    false
}

/// Decides whether `to` is `from` itself, or reachable from `from` along
/// the directed edges: a breadth-first traversal from `from` whose visited
/// list doubles as the work queue.
pub fn can_reach(edges: &Vec<Edge>, from: i64, to: i64) -> (r: bool)
    ensures
        r == reaches_or_eq(edge_pairs(edges@), from, to),
{
    if from == to {
        return true;
    }
    let ghost es = edge_pairs(edges@);
    let mut visited: Vec<i64> = Vec::new();
    visited.push(from);
    proof {
        assert(visited@[0] == from);
        assert(visited@.contains(from));
        assert(!visited@.contains(to)) by {
            if visited@.contains(to) {
                let j = choose|j: int| 0 <= j < visited@.len() && visited@[j] == to;
                assert(visited@[j] == from);
            }
        }
    }
    let mut i: usize = 0;
    while i < visited.len()
        invariant
            es == edge_pairs(edges@),
            from != to,
            i <= visited@.len(),
            visited@.len() <= edges@.len() + 1,
            visited@.contains(from),
            visited@.no_duplicates(),
            forall|k: int| 0 <= k < visited@.len() ==> reaches_or_eq(es, from, #[trigger] visited@[k]),
            forall|k: int| 0 <= k < visited@.len() ==> root_or_child(edges@, from, #[trigger] visited@[k]),
            !visited@.contains(to),
            closed_upto(edges@, visited@, i as int),
        decreases edges@.len() + 1 - i,
    {
        let u = visited[i];
        let mut m: usize = 0;
        while m < edges.len()
            invariant
                es == edge_pairs(edges@),
                from != to,
                i < visited@.len(),
                u == visited@[i as int],
                m <= edges@.len(),
                visited@.len() <= edges@.len() + 1,
                visited@.contains(from),
                visited@.no_duplicates(),
                forall|k: int| 0 <= k < visited@.len() ==> reaches_or_eq(es, from, #[trigger] visited@[k]),
                forall|k: int| 0 <= k < visited@.len() ==> root_or_child(edges@, from, #[trigger] visited@[k]),
                !visited@.contains(to),
                closed_upto(edges@, visited@, i as int),
                forall|mm: int|
                    0 <= mm < m && edges@[mm].card_parent_id == u ==> visited@.contains(
                        #[trigger] edges@[mm].card_child_id,
                    ),
            decreases edges@.len() - m,
        {
            let ep = edges[m].card_parent_id;
            let ec = edges[m].card_child_id;
            proof {
                assert(es[m as int] == (ep, ec));
            }
            if ep == u {
                proof {
                    assert(es.contains((u, ec)));
                    lemma_reach_extend(es, from, u, ec);
                }
                if ec == to {
                    return true;
                }
                if !contains_id(&visited, ec) {
                    let ghost old_vs = visited@;
                    visited.push(ec);
                    proof {
                        assert forall|z: i64| old_vs.contains(z) implies visited@.contains(z) by {
                            let j = choose|j: int| 0 <= j < old_vs.len() && old_vs[j] == z;
                            assert(visited@[j] == z);
                        }
                        assert(!visited@.contains(to)) by {
                            if visited@.contains(to) {
                                let j = choose|j: int|
                                    0 <= j < visited@.len() && visited@[j] == to;
                                if j < old_vs.len() {
                                    assert(old_vs[j] == to);
                                }
                            }
                        }
                        assert(visited@.no_duplicates()) by {
                            assert forall|a: int, b: int|
                                0 <= a < b < visited@.len() implies visited@[a] != visited@[b] by {
                                if b < old_vs.len() {
                                    assert(old_vs[a] == visited@[a] && old_vs[b] == visited@[b]);
                                } else {
                                    assert(visited@[b] == ec);
                                    assert(visited@[a] == old_vs[a]);
                                    if old_vs[a] == ec {
                                        assert(old_vs.contains(ec));
                                    }
                                }
                            }
                        }
                        assert(child_ids(edges@)[m as int] == ec);
                        assert(child_ids(edges@).contains(ec));
                        assert forall|k: int|
                            0 <= k < visited@.len() implies root_or_child(
                            edges@,
                            from,
                            #[trigger] visited@[k],
                        ) by {
                            if k < old_vs.len() {
                                assert(visited@[k] == old_vs[k]);
                            } else {
                                assert(visited@[k] == ec);
                            }
                        }
                        assert(closed_upto(edges@, visited@, i as int)) by {
                            assert forall|k: int, mm: int|
                                #![trigger visited@[k], edges@[mm]]
                                0 <= k < i && 0 <= mm < edges@.len()
                                    && edges@[mm].card_parent_id == visited@[k] implies visited@
                                .contains(edges@[mm].card_child_id) by {
                                assert(old_vs[k] == visited@[k]);
                                assert(old_vs.contains(edges@[mm].card_child_id));
                            }
                        }
                        assert forall|mm: int|
                            0 <= mm <= m as int && edges@[mm].card_parent_id == u implies visited@
                            .contains(#[trigger] edges@[mm].card_child_id) by {
                            if mm < m as int {
                                assert(old_vs.contains(edges@[mm].card_child_id));
                            } else {
                                assert(visited@[visited@.len() - 1] == ec);
                            }
                        }
                        lemma_visited_bound(edges@, visited@, from);
                    }
                } else {
                    proof {
                        assert forall|mm: int|
                            0 <= mm <= m as int && edges@[mm].card_parent_id == u implies visited@
                            .contains(#[trigger] edges@[mm].card_child_id) by {}
                    }
                }
            }
            m = m + 1;
        }
        proof {
            assert(closed_upto(edges@, visited@, i + 1)) by {
                assert forall|k: int, mm: int|
                    #![trigger visited@[k], edges@[mm]]
                    0 <= k < i + 1 && 0 <= mm < edges@.len() && edges@[mm].card_parent_id
                        == visited@[k] implies visited@.contains(edges@[mm].card_child_id) by {
                    if k == i {
                        assert(visited@[k] == u);
                    }
                }
            }
        }
        i = i + 1;
    }
    proof {
        if reaches(es, from, to) {
            let p = choose|p: Seq<i64>|
                {
                    &&& is_path(es, p)
                    &&& p.len() >= 2
                    &&& p.first() == from
                    &&& p.last() == to
                };
            lemma_closed_blocks(edges@, visited@, p);
        }
    }
    false
}

/// The heart of cycle prevention: a DAG stays a DAG when an edge
/// `parent -> child` is inserted whose parent the child does not already
/// reach and which is no self-loop.
pub proof fn lemma_acyclic_after_insert(es: Seq<(i64, i64)>, pe: i64, ce: i64)
    requires
        acyclic(es),
        !would_cycle(es, pe, ce),
    ensures
        acyclic(es.push((pe, ce))),
{
    let es2 = es.push((pe, ce));
    assert forall|a: i64| !reaches(es2, a, a) by {
        if reaches(es2, a, a) {
            let p = choose|p: Seq<i64>|
                {
                    &&& is_path(es2, p)
                    &&& p.len() >= 2
                    &&& p.first() == a
                    &&& p.last() == a
                };
            lemma_path_with_new_edge(es, pe, ce, p);
            if is_path(es, p) {
                assert(reaches(es, a, a));
            } else {
                lemma_reach_trans(es, ce, a, pe);
            }
        }
    }
}

/// Cycle prevention, immediate case: once an edge `a -> b` stands, the
/// reverse candidate edge `b -> a` would close a cycle, whatever else the
/// graph holds.
pub proof fn lemma_immediate_cycle(es: Seq<(i64, i64)>, a: i64, b: i64)
    requires
        es.contains((a, b)),
    ensures
        would_cycle(es, b, a),
{
    lemma_edge_reaches(es, a, b);
}

/// Cycle prevention, transitive case: with edges `a -> b` and `b -> c` in
/// place, the candidate edge `c -> a` would close a three-node cycle,
/// whatever else the graph holds.
pub proof fn lemma_transitive_cycle(es: Seq<(i64, i64)>, a: i64, b: i64, c: i64)
    requires
        es.contains((a, b)),
        es.contains((b, c)),
    ensures
        would_cycle(es, c, a),
{
    lemma_edge_reaches(es, a, b);
    lemma_reach_extend(es, a, b, c);
}

} // verus!
