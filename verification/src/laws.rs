//! The laws the solver obeys, stated over plain tours: the returned path is
//! a Hamiltonian cycle whose edges sum to the returned cost, the returned
//! cost is minimal among all Hamiltonian cycles, and an answer exists
//! exactly when some Hamiltonian cycle has all its edges present.

use vstd::prelude::*;
use vstd::arithmetic::power2::*;
use crate::matrix::DistanceMatrix;
use crate::solver::{
    add_cost, better, cost_of, full_mask, hk_cell, hk_scan, hk_walk, in_mask, lemma_bit_half,
    lemma_in_mask_bound, lemma_in_mask_le, lemma_mask_remove, lemma_popcnt_zero, lemma_scan_defined,
    lemma_scan_min, popcnt, solution_matches, tour_cost, tour_path,
};

verus! {

/// The cost of a path given as a node sequence: the sum of the costs of
/// consecutive edges, absent as soon as one edge is absent.
pub open spec fn path_cost(m: DistanceMatrix, p: Seq<usize>) -> Option<int>
    decreases p.len(),
{
    if p.len() < 2 {
        Some(0)
    } else {
        add_cost(m.edge(p[0] as int, p[1] as int), path_cost(m, p.skip(1)))
    }
}

/// A Hamiltonian cycle of `m`: node 0 first and last, length `size + 1`,
/// and every other node visited exactly once in between.
pub open spec fn is_tour(m: DistanceMatrix, p: Seq<usize>) -> bool {
    &&& p.len() == m.size + 1
    &&& p[0] == 0
    &&& p[p.len() - 1] == 0
    &&& forall|t: int| 0 < t < p.len() - 1 ==> 1 <= #[trigger] p[t] < m.size
    &&& forall|t1: int, t2: int| 0 < t1 < t2 < p.len() - 1 ==> p[t1] != p[t2]
    &&& forall|k: usize| 1 <= k < m.size ==> #[trigger] p.subrange(1, p.len() - 1).contains(k)
}

/// The bits of the full mask are exactly the nodes `1..n`, and it holds
/// `n - 1` of them.
proof fn lemma_full_mask_bits(n: nat)
    requires
        n >= 1,
    ensures
        full_mask(n) < pow2(n),
        popcnt(full_mask(n)) == n - 1,
        forall|k: nat| #[trigger] in_mask(full_mask(n), k) <==> 1 <= k < n,
    decreases n,
{
    lemma_pow2_pos(n);
    lemma2_to64();
    if n == 1 {
        assert(full_mask(1) == 0);
        assert forall|k: nat| !in_mask(0, k) by {
            lemma_pow2_pos(k);
        }
    } else {
        lemma_full_mask_bits((n - 1) as nat);
        lemma_pow2_unfold(n);
        let fm = full_mask(n);
        let half = full_mask((n - 1) as nat);
        // fm == 2 * half + 2, and fm / 2 == half + 1 == pow2(n-1) - 1
        assert(fm == 2 * half + 2);
        assert(fm % 2 == 0 && fm / 2 == half + 1) by (nonlinear_arith)
            requires
                fm == 2 * half + 2,
        ;
        // half + 1 has exactly the bits 0..n-1: it is half with bit 0 set
        assert(half % 2 == 0) by {
            if n == 2 {
                assert(half == 0);
            } else {
                lemma_pow2_unfold((n - 1) as nat);
                assert(half == 2 * (pow2((n - 2) as nat) - 1));
                assert(half % 2 == 0) by (nonlinear_arith)
                    requires
                        half == 2 * (pow2((n - 2) as nat) - 1),
                        pow2((n - 2) as nat) >= 1,
                ;
            }
        }
        assert(in_mask(half + 1, 0) && popcnt(half + 1) == popcnt(half) + 1 && forall|k: nat|
            k != 0 ==> in_mask(half + 1, k) == in_mask(half, k)) by {
            assert((half + 1) % 2 == 1) by (nonlinear_arith)
                requires
                    half % 2 == 0,
            ;
            assert(in_mask(half + 1, 0)) by {
                vstd::arithmetic::div_mod::lemma_div_basics((half + 1) as int);
            }
            lemma_mask_remove(half + 1, 0);
            assert((half + 1 - pow2(0)) as nat == half);
        }
        assert forall|k: nat| #[trigger] in_mask(fm, k) <==> 1 <= k < n by {
            if k == 0 {
                vstd::arithmetic::div_mod::lemma_div_basics(fm as int);
                assert(!in_mask(fm, 0));
            } else {
                lemma_bit_half(fm, k);
                assert(in_mask(fm, k) == in_mask(half + 1, (k - 1) as nat));
                if k >= 2 {
                    assert(in_mask(half + 1, (k - 1) as nat) == in_mask(half, (k - 1) as nat));
                    assert(in_mask(half, (k - 1) as nat) <==> 1 <= k - 1 < n - 1);
                }
            }
        }
        assert(popcnt(fm) == fm % 2 + popcnt(fm / 2));
    }
}

/// What a defined cell guarantees of its recorded walk: the walk lists
/// every node of `mask` exactly once, ends by coming home to node 0, and
/// its edges (starting from `cur`) sum to exactly the cell's cost.
proof fn lemma_walk(m: DistanceMatrix, mask: nat, cur: nat)
    requires
        m.wf(),
        m.size >= 2,
        cur < m.size,
        mask < pow2(m.size as nat),
        hk_cell(m, mask, cur).1 is Some,
    ensures
        ({
            let w = hk_walk(m, mask, cur);
            &&& w.len() == popcnt(mask) + 1
            &&& w[w.len() - 1] == 0
            &&& forall|t: int|
                0 <= t < w.len() - 1 ==> in_mask(mask, (#[trigger] w[t]) as nat) && 1 <= w[t]
                    < m.size
            &&& forall|t1: int, t2: int| 0 <= t1 < t2 < w.len() - 1 ==> w[t1] != w[t2]
            &&& forall|k: nat|
                #[trigger] in_mask(mask, k) ==> w.subrange(0, w.len() - 1).contains(k as usize)
            &&& path_cost(m, seq![cur as usize] + w) == hk_cell(m, mask, cur).1
        }),
    decreases mask,
{
    let w = hk_walk(m, mask, cur);
    if mask == 0 {
        assert(w =~= seq![0usize]);
        assert forall|k: nat| !in_mask(0, k) by {
            lemma_pow2_pos(k);
        }
        let p = seq![cur as usize] + w;
        assert(p.len() == 2 && p[0] == cur && p[1] == 0);
        assert(p.skip(1) =~= seq![0usize]);
        assert(path_cost(m, p.skip(1)) == Some(0int));
        assert(path_cost(m, p) == add_cost(m.edge(cur as int, 0), Some(0)));
        assert(path_cost(m, p) == cost_of(m.edge(cur as int, 0)));
    } else {
        lemma_scan_defined(m, mask, cur, m.size as nat);
        let j = hk_cell(m, mask, cur).0;
        lemma_in_mask_le(mask, j);
        lemma_in_mask_bound(mask, j, m.size as nat);
        let sub = (mask - pow2(j)) as nat;
        lemma_mask_remove(mask, j);
        lemma_walk(m, sub, j);
        let ws = hk_walk(m, sub, j);
        assert(w == seq![j as usize] + ws);
        assert(w.len() == popcnt(mask) + 1);
        assert(w[w.len() - 1] == ws[ws.len() - 1]);
        // membership and ranges
        assert forall|t: int|
            0 <= t < w.len() - 1 implies in_mask(mask, (#[trigger] w[t]) as nat) && 1 <= w[t]
            < m.size by {
            if t == 0 {
            } else {
                assert(w[t] == ws[t - 1]);
                assert(in_mask(sub, ws[t - 1] as nat));
            }
        }
        // distinctness: the head is not in `sub`, the tail repeats nothing
        assert forall|t1: int, t2: int| 0 <= t1 < t2 < w.len() - 1 implies w[t1] != w[t2] by {
            if t1 == 0 {
                assert(w[t2] == ws[t2 - 1]);
                assert(in_mask(sub, ws[t2 - 1] as nat));
                assert(!in_mask(sub, j));
            } else {
                assert(w[t1] == ws[t1 - 1] && w[t2] == ws[t2 - 1]);
            }
        }
        // coverage
        assert forall|k: nat| #[trigger] in_mask(mask, k) implies w.subrange(
            0,
            w.len() - 1,
        ).contains(k as usize) by {
            let head = w.subrange(0, w.len() - 1);
            assert(head =~= seq![j as usize] + ws.subrange(0, ws.len() - 1));
            if k == j {
                assert(head[0] == k as usize);
            } else {
                assert(in_mask(sub, k));
                let tail = ws.subrange(0, ws.len() - 1);
                assert(tail.contains(k as usize));
                let t = choose|t: int| 0 <= t < tail.len() && tail[t] == k as usize;
                assert(head[t + 1] == k as usize);
            }
        }
        // cost
        let p = seq![cur as usize] + w;
        let ps = seq![j as usize] + ws;
        assert(p.len() >= 2 && p[0] == cur && p[1] == j as usize);
        assert(p.skip(1) =~= ps);
        assert(path_cost(m, p) == add_cost(m.edge(cur as int, j as int), path_cost(m, ps)));
        assert(path_cost(m, ps) == hk_cell(m, sub, j).1);
    }
}

/// Round trip: an answer that satisfies the solver's contract carries a
/// genuine Hamiltonian cycle — node 0 first and last, every node exactly
/// once, length `size + 1` — whose consecutive edge costs sum exactly to
/// the answered cost.
pub proof fn lemma_round_trip(m: DistanceMatrix, c: u64, path: Seq<usize>)
    requires
        m.wf(),
        m.size >= 2,
        solution_matches(m, Some((c, path))),
    ensures
        is_tour(m, path),
        path_cost(m, path) == Some(c as int),
{
    lemma_tour_path_good(m);
}

/// The optimal path of a solvable matrix is a Hamiltonian cycle priced at
/// exactly the optimal cost.
proof fn lemma_tour_path_good(m: DistanceMatrix)
    requires
        m.wf(),
        m.size >= 2,
        tour_cost(m) is Some,
    ensures
        is_tour(m, tour_path(m)),
        path_cost(m, tour_path(m)) == tour_cost(m),
{
    let path = tour_path(m);
    let n = m.size as nat;
    let fm = full_mask(n);
    lemma_full_mask_bits(n);
    lemma_walk(m, fm, 0);
    let w = hk_walk(m, fm, 0);
    assert(path == seq![0usize] + w);
    assert(path.len() == n + 1);
    assert(path[0] == 0 && path[path.len() - 1] == w[w.len() - 1]);
    assert forall|t: int| 0 < t < path.len() - 1 implies 1 <= #[trigger] path[t] < m.size by {
        assert(path[t] == w[t - 1]);
    }
    assert forall|t1: int, t2: int| 0 < t1 < t2 < path.len() - 1 implies path[t1] != path[t2] by {
        assert(path[t1] == w[t1 - 1] && path[t2] == w[t2 - 1]);
    }
    assert forall|k: usize| 1 <= k < m.size implies #[trigger] path.subrange(
        1,
        path.len() - 1,
    ).contains(k) by {
        assert(in_mask(fm, k as nat));
        let head = w.subrange(0, w.len() - 1);
        assert(head.contains(k));
        assert(path.subrange(1, path.len() - 1) =~= head);
    }
    assert(seq![0usize] + w =~= path);
    assert(path_cost(m, path) == hk_cell(m, fm, 0).1);
}

/// Any explicitly listed route that leaves `i`, walks through exactly the
/// nodes of `mask` and comes home bounds the cell's cost from above: the
/// cell is defined and no more expensive than the route.
proof fn lemma_cell_min_route(m: DistanceMatrix, mask: nat, i: nat, q: Seq<usize>, c: int)
    requires
        m.wf(),
        m.size >= 2,
        i < m.size,
        mask < pow2(m.size as nat),
        !in_mask(mask, 0),
        q.len() == popcnt(mask),
        forall|t: int| 0 <= t < q.len() ==> in_mask(mask, (#[trigger] q[t]) as nat),
        forall|t1: int, t2: int| 0 <= t1 < t2 < q.len() ==> q[t1] != q[t2],
        path_cost(m, seq![i as usize] + q + seq![0usize]) == Some(c),
    ensures
        hk_cell(m, mask, i).1 is Some,
        hk_cell(m, mask, i).1->Some_0 <= c,
    decreases q.len(),
{
    let p = seq![i as usize] + q + seq![0usize];
    if q.len() == 0 {
        lemma_popcnt_zero(mask);
        assert(p =~= seq![i as usize, 0usize]);
        assert(p.skip(1) =~= seq![0usize]);
        assert(path_cost(m, p.skip(1)) == Some(0int));
        assert(Some(c) == add_cost(m.edge(i as int, 0), Some(0)));
        assert(hk_cell(m, mask, i).1 == cost_of(m.edge(i as int, 0)));
    } else {
        lemma_popcnt_zero(mask);
        let j = q[0] as nat;
        assert(in_mask(mask, j));
        lemma_in_mask_le(mask, j);
        lemma_in_mask_bound(mask, j, m.size as nat);
        assert(j >= 1);
        lemma_mask_remove(mask, j);
        let sub = (mask - pow2(j)) as nat;
        let qs = q.skip(1);
        assert forall|t: int| 0 <= t < qs.len() implies in_mask(sub, (#[trigger] qs[t]) as nat) by {
            assert(qs[t] == q[t + 1]);
            assert(in_mask(mask, q[t + 1] as nat));
            assert(q[t + 1] != q[0]);
        }
        let ps = seq![q[0]] + qs + seq![0usize];
        assert(p.skip(1) =~= ps);
        assert(p.len() >= 2 && p[0] == i && p[1] == q[0]);
        assert(path_cost(m, p) == add_cost(m.edge(i as int, j as int), path_cost(m, ps)));
        let e = m.edge(i as int, j as int);
        assert(e is Some);
        let cs = path_cost(m, ps)->Some_0;
        lemma_cell_min_route(m, sub, j, qs, cs);
        // the scan considered candidate `j`, whose cost is at most `c`
        assert(add_cost(e, hk_cell(m, sub, j).1) is Some);
        lemma_scan_min(m, mask, i, m.size as nat, j);
    }
}

/// Minimality: the cost of any Hamiltonian cycle with all edges present
/// bounds the solver's answer from above — in particular, whenever any
/// such cycle exists the solver does return an answer.
pub proof fn lemma_minimal(m: DistanceMatrix, p: Seq<usize>, c: int)
    requires
        m.wf(),
        m.size >= 2,
        is_tour(m, p),
        path_cost(m, p) == Some(c),
    ensures
        tour_cost(m) is Some,
        tour_cost(m)->Some_0 <= c,
{
    let n = m.size as nat;
    let fm = full_mask(n);
    lemma_full_mask_bits(n);
    let q = p.subrange(1, p.len() - 1);
    assert forall|t: int| 0 <= t < q.len() implies in_mask(fm, (#[trigger] q[t]) as nat) by {
        assert(q[t] == p[t + 1]);
        assert(1 <= p[t + 1] < m.size);
    }
    assert forall|t1: int, t2: int| 0 <= t1 < t2 < q.len() implies q[t1] != q[t2] by {
        assert(q[t1] == p[t1 + 1] && q[t2] == p[t2 + 1]);
    }
    assert(seq![0usize] + q + seq![0usize] =~= p);
    lemma_cell_min_route(m, fm, 0, q, c);
}

/// Feasibility: the solver answers exactly when some Hamiltonian cycle has
/// every one of its edges present.
pub proof fn lemma_feasibility(m: DistanceMatrix)
    requires
        m.wf(),
        m.size >= 2,
    ensures
        tour_cost(m) is Some <==> exists|p: Seq<usize>|
            is_tour(m, p) && #[trigger] path_cost(m, p) is Some,
{
    if tour_cost(m) is Some {
        lemma_tour_path_good(m);
        assert(is_tour(m, tour_path(m)) && path_cost(m, tour_path(m)) is Some);
    }
    if exists|p: Seq<usize>| is_tour(m, p) && #[trigger] path_cost(m, p) is Some {
        let p = choose|p: Seq<usize>| is_tour(m, p) && #[trigger] path_cost(m, p) is Some;
        lemma_minimal(m, p, path_cost(m, p)->Some_0);
    }
}

/// The two-node boundary case: when both edges between node 0 and node 1
/// are present, the optimal tour is `[0, 1, 0]` and its cost is their sum.
pub proof fn lemma_two_nodes(m: DistanceMatrix, a: u32, b: u32)
    requires
        m.wf(),
        m.size == 2,
        m.edge(0, 1) == Some(a),
        m.edge(1, 0) == Some(b),
    ensures
        tour_cost(m) == Some(a + b),
        tour_path(m) == seq![0usize, 1usize, 0usize],
{
    lemma2_to64();
    let fm = full_mask(2);
    assert(fm == 2);
    assert(in_mask(2, 1)) by {
        assert(pow2(1) == 2);
        assert((2nat / 2) % 2 == 1);
    }
    assert(hk_cell(m, 0, 1) == (0nat, cost_of(m.edge(1, 0))));
    assert(hk_scan(m, 2, 0, 1) == (0nat, None::<int>));
    assert((2 - pow2(1)) as nat == 0);
    assert(hk_cell(m, 2, 0) == hk_scan(m, 2, 0, 2));
    assert(hk_scan(m, 2, 0, 2) == better(
        (0nat, None::<int>),
        1,
        add_cost(m.edge(0, 1), hk_cell(m, 0, 1).1),
    ));
    assert(add_cost(m.edge(0, 1), Some(b as int)) == Some(a + b));
    assert(tour_cost(m) == Some(a + b));
    assert(hk_walk(m, 0, 1) == seq![0usize]);
    assert(hk_cell(m, 2, 0).0 == 1);
    assert(hk_walk(m, 2, 0) == seq![1usize] + hk_walk(m, 0, 1));
    assert(tour_path(m) =~= seq![0usize, 1usize, 0usize]);
}

} // verus!
