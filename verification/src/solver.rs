use vstd::prelude::*;
use vstd::arithmetic::div_mod::*;
use vstd::arithmetic::power2::*;
use crate::matrix::DistanceMatrix;

verus! {

/// The largest node count the solver accepts: the subset table has one row
/// per bitmask below `2^size`, so anything larger cannot be allocated.
pub const MAX_NODES: usize = 24;

/// The largest cost a single edge can carry (`u32::MAX`).
pub const EDGE_COST_LIMIT: u64 = 0xffff_ffff;

/// Membership of node `j` in the subset that `mask` encodes: bit `j` of
/// `mask`, read arithmetically.
pub open spec fn in_mask(mask: nat, j: nat) -> bool {
    (mask / pow2(j)) % 2 == 1
}

/// A mask contains at least the power of two of each of its set bits.
pub(crate) proof fn lemma_in_mask_le(mask: nat, j: nat)
    requires
        in_mask(mask, j),
    ensures
        pow2(j) <= mask,
        pow2(j) >= 1,
{
    lemma_pow2_pos(j);
    let q = mask / pow2(j);
    assert(q >= 1);
    lemma_fundamental_div_mod(mask as int, pow2(j) as int);
    assert(pow2(j) as int * q >= pow2(j) as int * 1) by (nonlinear_arith)
        requires
            q >= 1,
            pow2(j) as int >= 1,
    ;
}

/// A set bit of a mask below `pow2(n)` has index below `n`.
pub(crate) proof fn lemma_in_mask_bound(mask: nat, j: nat, n: nat)
    requires
        in_mask(mask, j),
        mask < pow2(n),
    ensures
        j < n,
{
    lemma_in_mask_le(mask, j);
    if j >= n {
        lemma_pow2_strictly_increases(n, j + 1);
        lemma_pow2_unfold(j + 1);
        if j > n {
            lemma_pow2_strictly_increases(n, j);
        }
        assert(pow2(j) >= pow2(n));
    }
}

/// Lifts an edge cost into the table's cost domain.
pub open spec fn cost_of(e: Option<u32>) -> Option<int> {
    match e {
        None => None,
        Some(w) => Some(w as int),
    }
}

/// `e + c`, where an absent operand makes the sum absent.
pub open spec fn add_cost(e: Option<u32>, c: Option<int>) -> Option<int> {
    match (e, c) {
        (Some(w), Some(c)) => Some(w as int + c),
        _ => None,
    }
}

/// Keeps the better of the best candidate so far and candidate `j`: a
/// defined cost beats an absent one, a smaller cost beats a larger one,
/// and on a tie the earlier candidate (the smaller index) is kept.
pub open spec fn better(prev: (nat, Option<int>), j: nat, cj: Option<int>) -> (nat, Option<int>) {
    match (prev.1, cj) {
        (_, None) => prev,
        (None, Some(c)) => (j, Some(c)),
        (Some(b), Some(c)) => if c < b {
            (j, Some(c))
        } else {
            prev
        },
    }
}

/// One cell of the Held-Karp table, for a subset `mask` of the nodes
/// `1..n` and a departure node `i`: the first step taken and the least
/// cost of leaving `i`, visiting every node of the subset exactly once,
/// and returning to node 0. The cost is `None` when no such route exists,
/// and then the recorded step is the placeholder 0.
pub open spec fn hk_cell(m: DistanceMatrix, mask: nat, i: nat) -> (nat, Option<int>)
    decreases mask, m.size as nat + 1,
{
    if mask == 0 {
        (0, cost_of(m.edge(i as int, 0)))
    } else {
        hk_scan(m, mask, i, m.size as nat)
    }
}

/// The best first step among the candidates `1 <= j < hi` for the cell
/// `(mask, i)` of `hk_cell`, scanning candidates in increasing order.
pub open spec fn hk_scan(m: DistanceMatrix, mask: nat, i: nat, hi: nat) -> (nat, Option<int>)
    decreases mask, hi,
    via hk_scan_decreases
{
    if hi <= 1 {
        (0, None)
    } else {
        let j = (hi - 1) as nat;
        let prev = hk_scan(m, mask, i, j);
        if in_mask(mask, j) {
            better(
                prev,
                j,
                add_cost(m.edge(i as int, j as int), hk_cell(m, (mask - pow2(j)) as nat, j).1),
            )
        } else {
            prev
        }
    }
}

#[via_fn]
proof fn hk_scan_decreases(m: DistanceMatrix, mask: nat, i: nat, hi: nat) {
    if hi > 1 {
        let j = (hi - 1) as nat;
        if in_mask(mask, j) {
            lemma_in_mask_le(mask, j);
        }
    }
}

/// Every defined cell cost is nonnegative and at most `(mask + 1)` full
/// edge costs, which keeps the running sums inside `u64`.
pub(crate) proof fn lemma_cell_bound(m: DistanceMatrix, mask: nat, i: nat)
    ensures
        match hk_cell(m, mask, i).1 {
            Some(c) => 0 <= c <= (mask + 1) * EDGE_COST_LIMIT,
            None => true,
        },
    decreases mask, m.size as nat + 1,
{
    if mask == 0 {
    } else {
        lemma_scan_bound(m, mask, i, m.size as nat);
    }
}

/// Bound of `lemma_cell_bound` for the partial scans.
proof fn lemma_scan_bound(m: DistanceMatrix, mask: nat, i: nat, hi: nat)
    ensures
        match hk_scan(m, mask, i, hi).1 {
            Some(c) => 0 <= c <= (mask + 1) * EDGE_COST_LIMIT,
            None => true,
        },
    decreases mask, hi,
{
    if hi <= 1 {
    } else {
        let j = (hi - 1) as nat;
        lemma_scan_bound(m, mask, i, j);
        if in_mask(mask, j) {
            lemma_in_mask_le(mask, j);
            let sub = (mask - pow2(j)) as nat;
            lemma_cell_bound(m, sub, j);
            match hk_cell(m, sub, j).1 {
                Some(c) => {
                    assert((sub + 1) * EDGE_COST_LIMIT <= mask * EDGE_COST_LIMIT)
                        by (nonlinear_arith)
                        requires
                            sub + 1 <= mask,
                            EDGE_COST_LIMIT >= 0,
                    ;
                    assert(mask * EDGE_COST_LIMIT + EDGE_COST_LIMIT == (mask + 1)
                        * EDGE_COST_LIMIT) by (nonlinear_arith);
                },
                None => {},
            }
        }
    }
}

/// A scan that found a defined cost names a real candidate: a node of the
/// mask, with a present edge from `i` and a defined cell for the rest of
/// the subset, and the cost is exactly the sum of those two parts.
pub(crate) proof fn lemma_scan_defined(m: DistanceMatrix, mask: nat, i: nat, hi: nat)
    requires
        hk_scan(m, mask, i, hi).1 is Some,
    ensures
        ({
            let j = hk_scan(m, mask, i, hi).0;
            &&& 1 <= j < hi
            &&& in_mask(mask, j)
            &&& m.edge(i as int, j as int) is Some
            &&& hk_cell(m, (mask - pow2(j)) as nat, j).1 is Some
            &&& hk_scan(m, mask, i, hi).1 == add_cost(
                m.edge(i as int, j as int),
                hk_cell(m, (mask - pow2(j)) as nat, j).1,
            )
        }),
    decreases hi,
{
    if hi <= 1 {
    } else {
        let j = (hi - 1) as nat;
        let prev = hk_scan(m, mask, i, j);
        if in_mask(mask, j) {
            let cj = add_cost(
                m.edge(i as int, j as int),
                hk_cell(m, (mask - pow2(j)) as nat, j).1,
            );
            if hk_scan(m, mask, i, hi) == better(prev, j, cj) {
                match (prev.1, cj) {
                    (_, None) => lemma_scan_defined(m, mask, i, j),
                    (None, Some(_)) => {},
                    (Some(b), Some(c)) => {
                        if c < b {
                        } else {
                            lemma_scan_defined(m, mask, i, j);
                        }
                    },
                }
            }
        } else {
            lemma_scan_defined(m, mask, i, j);
        }
    }
}

/// The mask encoding the full subset `{1, ..., n-1}` of non-start nodes.
pub open spec fn full_mask(n: nat) -> nat {
    (pow2(n) - 2) as nat
}

/// The cost of the optimal tour of `m`: the cell that leaves node 0,
/// visits every other node exactly once, and returns to node 0. `None`
/// when no such tour exists.
pub open spec fn tour_cost(m: DistanceMatrix) -> Option<int> {
    hk_cell(m, full_mask(m.size as nat), 0).1
}

/// The tail of the optimal tour after node `cur`, with `mask` still to be
/// visited: the recorded first steps followed in order until the subset is
/// exhausted, then the return to node 0.
pub open spec fn hk_walk(m: DistanceMatrix, mask: nat, cur: nat) -> Seq<usize>
    decreases mask,
    via hk_walk_decreases
{
    if mask == 0 {
        seq![0usize]
    } else {
        let nxt = hk_cell(m, mask, cur).0;
        if in_mask(mask, nxt) {
            seq![nxt as usize] + hk_walk(m, (mask - pow2(nxt)) as nat, nxt)
        } else {
            seq![0usize]
        }
    }
}

#[via_fn]
proof fn hk_walk_decreases(m: DistanceMatrix, mask: nat, cur: nat) {
    if mask != 0 {
        let nxt = hk_cell(m, mask, cur).0;
        if in_mask(mask, nxt) {
            lemma_in_mask_le(mask, nxt);
        }
    }
}

/// The optimal tour of `m` as a node sequence: node 0 first, then the
/// recorded steps through all other nodes, then node 0 again. Meaningful
/// only when `tour_cost(m)` is defined.
pub open spec fn tour_path(m: DistanceMatrix) -> Seq<usize> {
    seq![0usize] + hk_walk(m, full_mask(m.size as nat), 0)
}

/// Everything the solver promises of a result on matrix `m`: no answer
/// exactly when no tour exists, otherwise the optimal cost paired with
/// the optimal path.
pub open spec fn solution_matches(m: DistanceMatrix, r: Option<(u64, Seq<usize>)>) -> bool {
    match r {
        None => tour_cost(m) is None,
        Some((c, path)) => tour_cost(m) == Some(c as int) && path == tour_path(m),
    }
}

/// The table cell `e` stores exactly the mathematical cell `c`.
pub open spec fn cell_matches(e: (usize, Option<u64>), c: (nat, Option<int>)) -> bool {
    &&& e.0 as nat == c.0
    &&& match (e.1, c.1) {
        (None, None) => true,
        (Some(a), Some(b)) => a as int == b,
        _ => false,
    }
}

/// The table row `row` stores the cells of subset `mask` for every
/// departure node.
pub open spec fn row_matches(m: DistanceMatrix, row: Seq<(usize, Option<u64>)>, mask: nat) -> bool {
    &&& row.len() == m.size
    &&& forall|i: nat| i < m.size ==> cell_matches(#[trigger] row[i as int], hk_cell(m, mask, i))
}

/// Whenever some candidate `j` of the scan has a defined cost, the scan's
/// result is defined and no larger than that candidate's cost.
pub(crate) proof fn lemma_scan_min(m: DistanceMatrix, mask: nat, i: nat, hi: nat, j: nat)
    requires
        1 <= j < hi,
        in_mask(mask, j),
        add_cost(m.edge(i as int, j as int), hk_cell(m, (mask - pow2(j)) as nat, j).1) is Some,
    ensures
        ({
            let cj = add_cost(
                m.edge(i as int, j as int),
                hk_cell(m, (mask - pow2(j)) as nat, j).1,
            );
            match hk_scan(m, mask, i, hi).1 {
                Some(c) => c <= cj->Some_0,
                None => false,
            }
        }),
    decreases hi,
{
    if hi <= 1 {
    } else {
        let last = (hi - 1) as nat;
        if j == last {
        } else {
            lemma_scan_min(m, mask, i, last, j);
        }
    }
}

/// The powers of two up to `2^n`, as a lookup table.
#[verifier::loop_isolation(false)]
fn pow_table(n: usize) -> (pows: Vec<usize>)
    requires
        n <= MAX_NODES,
    ensures
        pows@.len() == n + 1,
        forall|j: int| 0 <= j <= n ==> pows@[j] == pow2(j as nat),
{
    let mut pows: Vec<usize> = Vec::new();
    pows.push(1);
    proof {
        lemma2_to64();
    }
    while pows.len() <= n
        invariant
            1 <= pows@.len() <= n + 1,
            forall|j: int| 0 <= j < pows@.len() ==> pows@[j] == pow2(j as nat),
        decreases n + 1 - pows@.len(),
    {
        let len = pows.len();
        let last = pows[len - 1];
        proof {
            lemma_pow2_unfold(len as nat);
            if len - 1 < MAX_NODES {
                lemma_pow2_strictly_increases((len - 1) as nat, MAX_NODES as nat);
            }
        }
        pows.push(2 * last);
    }
    pows
}

/// The fold that `set_to_num` computes: the bitwise union of `1 << x` over
/// the listed node indices.
pub open spec fn mask_of(nodes: Seq<usize>) -> usize
    decreases nodes.len(),
{
    if nodes.len() == 0 {
        0usize
    } else {
        mask_of(nodes.drop_last()) | (1usize << nodes.last())
    }
}

/// Encodes a list of node indices as a subset bitmask: bit `x` is set
/// exactly for the listed indices `x`.
pub fn set_to_num(nodes: &Vec<usize>) -> (r: usize)
    requires
        forall|t: int| 0 <= t < nodes@.len() ==> nodes@[t] < usize::BITS,
    ensures
        r == mask_of(nodes@),
{
    let mut bin: usize = 0;
    let mut t: usize = 0;
    while t < nodes.len()
        invariant
            t <= nodes@.len(),
            forall|u: int| 0 <= u < nodes@.len() ==> nodes@[u] < usize::BITS,
            bin == mask_of(nodes@.take(t as int)),
        decreases nodes@.len() - t,
    {
        bin = bin | (1usize << nodes[t]);
        proof {
            assert(nodes@.take(t as int + 1).drop_last() =~= nodes@.take(t as int));
            assert(nodes@.take(t as int + 1).last() == nodes@[t as int]);
        }
        t += 1;
    }
    proof {
        assert(nodes@.take(nodes@.len() as int) =~= nodes@);
    }
    bin
}

/// Computes the table row of subset `mask`, reading only rows of strictly
/// smaller masks (each one a subset of `mask` with one node removed).
/// Rows of the same population count never read each other, so any batch
/// of them may be evaluated independently from the same table.
#[verifier::loop_isolation(false)]
fn compute_row(
    m: &DistanceMatrix,
    table: &Vec<Vec<(usize, Option<u64>)>>,
    pows: &Vec<usize>,
    mask: usize,
) -> (row: Vec<(usize, Option<u64>)>)
    requires
        m.wf(),
        2 <= m.size <= MAX_NODES,
        pows@.len() == m.size + 1,
        forall|j: int| 0 <= j <= m.size ==> pows@[j] == pow2(j as nat),
        1 <= mask <= full_mask(m.size as nat),
        table@.len() >= mask,
        forall|j: nat|
            1 <= j < m.size && in_mask(mask as nat, j) ==> row_matches(
                *m,
                table@[mask - #[trigger] pow2(j)]@,
                (mask - pow2(j)) as nat,
            ),
    ensures
        row_matches(*m, row@, mask as nat),
{
    let n = m.size;
    let ghost mn = mask as nat;
    proof {
        lemma_pow2_strictly_increases(m.size as nat, MAX_NODES as nat + 1);
        lemma2_to64();
    }
    let mut row: Vec<(usize, Option<u64>)> = Vec::new();
    let mut i: usize = 0;
    while i < n
        invariant
            row@.len() == i,
            i <= n,
            forall|t: nat| t < i ==> cell_matches(#[trigger] row@[t as int], hk_cell(*m, mn, t)),
        decreases n - i,
    {
        let mut best: (usize, Option<u64>) = (0, None);
        let mut j: usize = 1;
        while j < n
            invariant
                1 <= j <= n,
                cell_matches(best, hk_scan(*m, mn, i as nat, j as nat)),
            decreases n - j,
        {
            proof {
                lemma_pow2_pos(j as nat);
            }
            if (mask / pows[j]) % 2 == 1 {
                proof {
                    lemma_in_mask_le(mn, j as nat);
                }
                let sub = mask - pows[j];
                let e = m.get(i, j);
                let entry = table[sub][j];
                proof {
                    assert(cell_matches(entry, hk_cell(*m, (mn - pow2(j as nat)) as nat, j as nat)));
                }
                let cand: Option<u64> = match (e, entry.1) {
                    (Some(w), Some(c)) => {
                        proof {
                            lemma_cell_bound(*m, (mn - pow2(j as nat)) as nat, j as nat);
                            assert((mn - pow2(j as nat) + 1) * EDGE_COST_LIMIT <= mn
                                * EDGE_COST_LIMIT) by (nonlinear_arith)
                                requires
                                    mn - pow2(j as nat) + 1 <= mn,
                                    EDGE_COST_LIMIT >= 0,
                            ;
                            assert(mn * EDGE_COST_LIMIT <= pow2(MAX_NODES as nat)
                                * EDGE_COST_LIMIT) by (nonlinear_arith)
                                requires
                                    mn <= pow2(MAX_NODES as nat),
                                    EDGE_COST_LIMIT >= 0,
                            ;
                        }
                        Some(w as u64 + c)
                    },
                    _ => None,
                };
                best = match (best.1, cand) {
                    (_, None) => best,
                    (None, Some(c)) => (j, Some(c)),
                    (Some(b), Some(c)) => if c < b {
                        (j, Some(c))
                    } else {
                        best
                    },
                };
            }
            j += 1;
        }
        row.push(best);
        i += 1;
    }
    row
}

/// Builds the whole subset table bottom-up: the boundary row for the empty
/// subset first, then every mask in increasing order, so that each row only
/// reads rows already committed.
#[verifier::loop_isolation(false)]
fn build_table(m: &DistanceMatrix, pows: &Vec<usize>) -> (table: Vec<Vec<(usize, Option<u64>)>>)
    requires
        m.wf(),
        2 <= m.size <= MAX_NODES,
        pows@.len() == m.size + 1,
        forall|j: int| 0 <= j <= m.size ==> pows@[j] == pow2(j as nat),
    ensures
        table@.len() == full_mask(m.size as nat) + 1,
        forall|s: nat|
            s <= full_mask(m.size as nat) ==> row_matches(*m, #[trigger] table@[s as int]@, s),
{
    let n = m.size;
    proof {
        lemma_pow2_strictly_increases(1, m.size as nat);
        lemma2_to64();
    }
    let mut boundary: Vec<(usize, Option<u64>)> = Vec::new();
    let mut i: usize = 0;
    while i < n
        invariant
            boundary@.len() == i,
            i <= n,
            forall|t: nat|
                t < i ==> cell_matches(#[trigger] boundary@[t as int], hk_cell(*m, 0, t)),
        decreases n - i,
    {
        let home: Option<u64> = match m.get(i, 0) {
            Some(w) => Some(w as u64),
            None => None,
        };
        boundary.push((0, home));
        i += 1;
    }
    let mut table: Vec<Vec<(usize, Option<u64>)>> = Vec::new();
    table.push(boundary);
    let full = pows[n] - 2;
    let mut mask: usize = 1;
    while mask <= full
        invariant
            table@.len() == mask,
            1 <= mask <= full + 1,
            forall|s: nat| s < mask ==> row_matches(*m, #[trigger] table@[s as int]@, s),
        decreases full + 1 - mask,
    {
        proof {
            assert forall|j: nat| 1 <= j < m.size && in_mask(mask as nat, j) implies row_matches(
                *m,
                table@[mask - #[trigger] pow2(j)]@,
                (mask - pow2(j)) as nat,
            ) by {
                lemma_in_mask_le(mask as nat, j);
            }
        }
        let row = compute_row(m, &table, pows, mask);
        table.push(row);
        mask += 1;
    }
    table
}

/// The final step of the solver on a finished table: reads the answer
/// cell and walks the recorded first steps to assemble the closed tour.
#[verifier::loop_isolation(false)]
fn reconstruct(
    w_array: &DistanceMatrix,
    table: &Vec<Vec<(usize, Option<u64>)>>,
    pows: &Vec<usize>,
) -> (r: Option<(u64, Vec<usize>)>)
    requires
        w_array.wf(),
        2 <= w_array.size <= MAX_NODES,
        pows@.len() == w_array.size + 1,
        forall|j: int| 0 <= j <= w_array.size ==> pows@[j] == pow2(j as nat),
        table@.len() == full_mask(w_array.size as nat) + 1,
        forall|s: nat|
            s <= full_mask(w_array.size as nat) ==> row_matches(
                *w_array,
                #[trigger] table@[s as int]@,
                s,
            ),
    ensures
        solution_matches(
            *w_array,
            match r {
                None => None,
                Some((c, trip)) => Some((c, trip@)),
            },
        ),
{
    let n = w_array.size;
    let ghost fm = full_mask(n as nat);
    proof {
        lemma_pow2_strictly_increases(1, n as nat);
        lemma2_to64();
    }
    let full = pows[n] - 2;
    let first = table[full][0];
    match first.1 {
        None => None,
        Some(cost) => {
            let mut trip: Vec<usize> = Vec::new();
            trip.push(0);
            let mut cur: usize = 0;
            let mut mask: usize = full;
            proof {
                assert(trip@ + hk_walk(*w_array, fm, 0) =~= tour_path(*w_array));
            }
            while mask > 0
                invariant
                    mask <= full,
                    cur < n,
                    hk_cell(*w_array, mask as nat, cur as nat).1 is Some,
                    trip@ + hk_walk(*w_array, mask as nat, cur as nat) == tour_path(*w_array),
                decreases mask,
            {
                let entry = table[mask][cur];
                proof {
                    assert(cell_matches(entry, hk_cell(*w_array, mask as nat, cur as nat)));
                    lemma_scan_defined(*w_array, mask as nat, cur as nat, n as nat);
                    lemma_in_mask_le(mask as nat, entry.0 as nat);
                    lemma_in_mask_bound(mask as nat, entry.0 as nat, n as nat);
                }
                let next = entry.0;
                trip.push(next);
                proof {
                    let sub = (mask as nat - pow2(next as nat)) as nat;
                    assert(hk_walk(*w_array, mask as nat, cur as nat) == seq![next] + hk_walk(
                        *w_array,
                        sub,
                        next as nat,
                    ));
                    assert(trip@ + hk_walk(*w_array, sub, next as nat) =~= tour_path(*w_array));
                }
                mask = mask - pows[next];
                cur = next;
            }
            trip.push(0);
            proof {
                assert(trip@ =~= tour_path(*w_array));
            }
            Some((cost, trip))
        },
    }
}

/// Solves the traveling-salesperson problem on `w_array` with the
/// Held-Karp dynamic program: the returned cost and closed tour are the
/// optimal ones (`tour_cost` / `tour_path`), with ties broken toward the
/// smallest node index at every step; no answer is returned exactly when
/// the absent edges leave no closed tour through all nodes.
pub fn travel(w_array: DistanceMatrix) -> (r: Option<(u64, Vec<usize>)>)
    requires
        w_array.wf(),
        2 <= w_array.size <= MAX_NODES,
    ensures
        solution_matches(
            w_array,
            match r {
                None => None,
                Some((c, trip)) => Some((c, trip@)),
            },
        ),
{
    let pows = pow_table(w_array.size);
    let table = build_table(&w_array, &pows);
    reconstruct(&w_array, &table, &pows)
}

/// The population count of a mask: how many nodes its subset holds.
pub open spec fn popcnt(mask: nat) -> nat
    decreases mask,
{
    if mask == 0 {
        0
    } else {
        mask % 2 + popcnt(mask / 2)
    }
}

/// The population count never exceeds the mask itself.
proof fn lemma_popcnt_le(mask: nat)
    ensures
        popcnt(mask) <= mask,
    decreases mask,
{
    if mask != 0 {
        lemma_popcnt_le(mask / 2);
        lemma_fundamental_div_mod(mask as int, 2);
    }
}

/// Only the empty subset has population count zero.
pub(crate) proof fn lemma_popcnt_zero(mask: nat)
    ensures
        popcnt(mask) == 0 <==> mask == 0,
    decreases mask,
{
    if mask != 0 && mask % 2 == 0 {
        lemma_fundamental_div_mod(mask as int, 2);
        lemma_popcnt_zero(mask / 2);
    }
}

/// Bit `k` of a mask is bit `k - 1` of its half.
pub(crate) proof fn lemma_bit_half(mask: nat, k: nat)
    requires
        k >= 1,
    ensures
        in_mask(mask, k) == in_mask(mask / 2, (k - 1) as nat),
{
    lemma_pow2_pos((k - 1) as nat);
    lemma_pow2_unfold(k);
    lemma_div_denominator(mask as int, 2, pow2((k - 1) as nat) as int);
}

/// Removing one set bit from a mask clears exactly that bit: every other
/// bit is unchanged and the population count drops by one.
pub(crate) proof fn lemma_mask_remove(mask: nat, j: nat)
    requires
        in_mask(mask, j),
    ensures
        !in_mask((mask - pow2(j)) as nat, j),
        forall|k: nat| k != j ==> in_mask((mask - pow2(j)) as nat, k) == in_mask(mask, k),
        popcnt((mask - pow2(j)) as nat) + 1 == popcnt(mask),
    decreases j,
{
    lemma_in_mask_le(mask, j);
    let sub = (mask - pow2(j)) as nat;
    assert(popcnt(sub) == sub % 2 + popcnt(sub / 2));
    if j == 0 {
        lemma2_to64();
        lemma_div_basics(mask as int);
        lemma_div_basics(sub as int);
        assert(mask % 2 == 1);
        assert(sub % 2 == 0 && sub / 2 == mask / 2) by (nonlinear_arith)
            requires
                mask % 2 == 1,
                mask >= 1,
                sub == mask - 1,
        ;
        assert forall|k: nat| k != 0 implies in_mask(sub, k) == in_mask(mask, k) by {
            lemma_bit_half(sub, k);
            lemma_bit_half(mask, k);
        }
    } else {
        lemma_pow2_unfold(j);
        let ph = pow2((j - 1) as nat);
        lemma_pow2_pos((j - 1) as nat);
        // parity is kept: the removed power of two is even
        lemma_mod_multiples_vanish(-(ph as int), mask as int, 2);
        assert(sub % 2 == mask % 2);
        // halving commutes with the removal
        lemma_hoist_over_denominator(sub as int, ph as int, 2);
        assert(sub as int / 2 + ph == mask as int / 2);
        lemma_bit_half(mask, j);
        assert(in_mask((mask / 2) as nat, (j - 1) as nat));
        lemma_mask_remove(mask / 2, (j - 1) as nat);
        assert(sub / 2 == ((mask / 2) - pow2((j - 1) as nat)) as nat);
        assert forall|k: nat| k != j implies in_mask(sub, k) == in_mask(mask, k) by {
            if k != 0 {
                lemma_bit_half(sub, k);
                lemma_bit_half(mask, k);
            } else {
                lemma2_to64();
                lemma_div_basics(sub as int);
                lemma_div_basics(mask as int);
            }
        }
        assert(!in_mask(sub, j)) by {
            lemma_bit_half(sub, j);
        }
        assert(popcnt(mask) == mask % 2 + popcnt(mask / 2));
    }
}

/// A mask below `pow2(n)` holds at most `n` nodes.
pub(crate) proof fn lemma_popcnt_bound(mask: nat, n: nat)
    requires
        mask < pow2(n),
    ensures
        popcnt(mask) <= n,
    decreases n,
{
    if n == 0 {
        lemma2_to64();
    } else {
        lemma_pow2_unfold(n);
        assert(mask / 2 < pow2((n - 1) as nat)) by (nonlinear_arith)
            requires
                mask < 2 * pow2((n - 1) as nat),
        ;
        lemma_popcnt_bound(mask / 2, (n - 1) as nat);
    }
}

/// A mask strictly below `pow2(n) - 1` holds at most `n - 1` nodes.
proof fn lemma_popcnt_strict(mask: nat, n: nat)
    requires
        n >= 1,
        mask < pow2(n) - 1,
    ensures
        popcnt(mask) <= n - 1,
    decreases n,
{
    if n == 1 {
        lemma2_to64();
    } else {
        lemma_pow2_unfold(n);
        if mask % 2 == 0 {
            assert(mask / 2 < pow2((n - 1) as nat)) by (nonlinear_arith)
                requires
                    mask < 2 * pow2((n - 1) as nat),
            ;
            lemma_popcnt_bound(mask / 2, (n - 1) as nat);
        } else {
            assert(mask / 2 < pow2((n - 1) as nat) - 1) by (nonlinear_arith)
                requires
                    mask % 2 == 1,
                    mask < 2 * pow2((n - 1) as nat) - 1,
            ;
            lemma_popcnt_strict(mask / 2, (n - 1) as nat);
        }
    }
}

/// Counts the nodes of a subset mask.
fn count_bits(mask: usize) -> (c: usize)
    ensures
        c == popcnt(mask as nat),
{
    proof {
        lemma_popcnt_le(mask as nat);
    }
    let mut c: usize = 0;
    let mut rest: usize = mask;
    while rest > 0
        invariant
            c + popcnt(rest as nat) == popcnt(mask as nat),
            popcnt(mask as nat) <= mask,
        decreases rest,
    {
        c += rest % 2;
        rest = rest / 2;
    }
    c
}

/// The solver with the parallel work schedule of the table fill: the rows
/// of one subset-size level are produced as an independent batch, each row
/// reading only rows of strictly smaller levels, and the batch is merged
/// into the table only at the level boundary. Rows of the same level never
/// read one another, so a worker pool may produce them in any order; the
/// merged table, and therefore the answer, is the same as `travel`'s.
#[verifier::loop_isolation(false)]
pub fn par_travel(w_array: DistanceMatrix) -> (r: Option<(u64, Vec<usize>)>)
    requires
        w_array.wf(),
        2 <= w_array.size <= MAX_NODES,
    ensures
        solution_matches(
            w_array,
            match r {
                None => None,
                Some((c, trip)) => Some((c, trip@)),
            },
        ),
{
    let n = w_array.size;
    let pows = pow_table(n);
    proof {
        lemma_pow2_strictly_increases(1, n as nat);
        lemma2_to64();
    }
    let full = pows[n] - 2;
    let ghost fm = full_mask(n as nat);
    let mut boundary: Vec<(usize, Option<u64>)> = Vec::new();
    let mut i: usize = 0;
    while i < n
        invariant
            boundary@.len() == i,
            i <= n,
            forall|t: nat|
                t < i ==> cell_matches(#[trigger] boundary@[t as int], hk_cell(w_array, 0, t)),
        decreases n - i,
    {
        let home: Option<u64> = match w_array.get(i, 0) {
            Some(w) => Some(w as u64),
            None => None,
        };
        boundary.push((0, home));
        i += 1;
    }
    let mut table: Vec<Vec<(usize, Option<u64>)>> = Vec::new();
    table.push(boundary);
    while table.len() <= full
        invariant
            1 <= table@.len() <= full + 1,
            row_matches(w_array, table@[0]@, 0),
        decreases full + 1 - table@.len(),
    {
        table.push(Vec::new());
    }
    proof {
        assert forall|mk: nat| mk <= fm && popcnt(mk) < 1 implies row_matches(
            w_array,
            #[trigger] table@[mk as int]@,
            mk,
        ) by {
            lemma_popcnt_zero(mk);
        }
    }
    let mut s: usize = 1;
    while s < n
        invariant
            1 <= s <= n,
            table@.len() == full + 1,
            forall|mk: nat|
                mk <= fm && popcnt(mk) < s ==> row_matches(
                    w_array,
                    #[trigger] table@[mk as int]@,
                    mk,
                ),
        decreases n - s,
    {
        let mut batch: Vec<(usize, Vec<(usize, Option<u64>)>)> = Vec::new();
        let mut mask: usize = 1;
        while mask <= full
            invariant
                1 <= mask <= full + 1,
                forall|t: int|
                    0 <= t < batch@.len() ==> {
                        &&& 1 <= (#[trigger] batch@[t]).0 <= full
                        &&& popcnt(batch@[t].0 as nat) == s
                        &&& row_matches(w_array, batch@[t].1@, batch@[t].0 as nat)
                    },
                forall|mk: nat|
                    1 <= mk < mask && popcnt(mk) == s ==> exists|t: int|
                        0 <= t < batch@.len() && (#[trigger] batch@[t]).0 == mk,
            decreases full + 1 - mask,
        {
            if count_bits(mask) == s {
                proof {
                    assert forall|j: nat|
                        1 <= j < n && in_mask(mask as nat, j) implies row_matches(
                        w_array,
                        table@[mask - #[trigger] pow2(j)]@,
                        (mask - pow2(j)) as nat,
                    ) by {
                        lemma_in_mask_le(mask as nat, j);
                        lemma_mask_remove(mask as nat, j);
                        let sub = (mask as nat - pow2(j)) as nat;
                        assert(sub <= fm && popcnt(sub) < s);
                        assert(row_matches(w_array, table@[sub as int]@, sub));
                    }
                }
                let ghost batch0 = batch@;
                let row = compute_row(&w_array, &table, &pows, mask);
                batch.push((mask, row));
                proof {
                    assert forall|mk: nat|
                        1 <= mk < mask + 1 && popcnt(mk) == s implies exists|t: int|
                        0 <= t < batch@.len() && (#[trigger] batch@[t]).0 == mk by {
                        if mk == mask as nat {
                            assert(batch@[batch@.len() - 1].0 == mk);
                        } else {
                            let t = choose|t: int|
                                0 <= t < batch0.len() && (#[trigger] batch0[t]).0 == mk;
                            assert(batch@[t].0 == mk);
                        }
                    }
                }
            }
            mask += 1;
        }
        while batch.len() > 0
            invariant
                table@.len() == full + 1,
                forall|t: int|
                    0 <= t < batch@.len() ==> {
                        &&& 1 <= (#[trigger] batch@[t]).0 <= full
                        &&& popcnt(batch@[t].0 as nat) == s
                        &&& row_matches(w_array, batch@[t].1@, batch@[t].0 as nat)
                    },
                forall|mk: nat|
                    mk <= fm && popcnt(mk) < s ==> row_matches(
                        w_array,
                        #[trigger] table@[mk as int]@,
                        mk,
                    ),
                forall|mk: nat|
                    1 <= mk <= fm && popcnt(mk) == s ==> row_matches(
                        w_array,
                        #[trigger] table@[mk as int]@,
                        mk,
                    ) || exists|t: int| 0 <= t < batch@.len() && batch@[t].0 == mk,
            decreases batch@.len(),
        {
            let ghost batch0 = batch@;
            let ghost table0 = table@;
            let pair = batch.pop().unwrap();
            let mk = pair.0;
            table[mk] = pair.1;
            proof {
                assert(table@ == table0.update(mk as int, batch0.last().1));
                assert(row_matches(w_array, table@[mk as int]@, mk as nat));
                assert forall|mk2: nat|
                    1 <= mk2 <= fm && popcnt(mk2) == s implies row_matches(
                    w_array,
                    #[trigger] table@[mk2 as int]@,
                    mk2,
                ) || exists|t: int| 0 <= t < batch@.len() && batch@[t].0 == mk2 by {
                    if mk2 != mk as nat && !row_matches(w_array, table0[mk2 as int]@, mk2) {
                        let t = choose|t: int|
                            0 <= t < batch0.len() && (#[trigger] batch0[t]).0 == mk2;
                        assert(t < batch0.len() - 1);
                        assert(batch@[t].0 == mk2);
                    }
                }
            }
        }
        proof {
            assert forall|mk: nat|
                mk <= fm && popcnt(mk) < s + 1 implies row_matches(
                w_array,
                #[trigger] table@[mk as int]@,
                mk,
            ) by {
                if popcnt(mk) == s {
                    if mk == 0 {
                    } else {
                        assert(row_matches(w_array, table@[mk as int]@, mk));
                    }
                }
            }
        }
        s += 1;
    }
    proof {
        assert forall|mk: nat| mk <= fm implies row_matches(
            w_array,
            #[trigger] table@[mk as int]@,
            mk,
        ) by {
            lemma_popcnt_strict(mk, n as nat);
        }
    }
    reconstruct(&w_array, &table, &pows)
}

/// Determinism of the contract: any two results that satisfy the solver's
/// promise on the same matrix are identical, cost and path alike. Since
/// both the sequential and the batched solver promise exactly this, it also
/// says that the two variants agree on every input.
pub proof fn lemma_solution_unique(
    m: DistanceMatrix,
    r1: Option<(u64, Seq<usize>)>,
    r2: Option<(u64, Seq<usize>)>,
)
    requires
        solution_matches(m, r1),
        solution_matches(m, r2),
    ensures
        r1 == r2,
{
}

} // verus!
