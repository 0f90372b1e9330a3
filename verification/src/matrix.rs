use vstd::prelude::*;

verus! {

/// An `n x n` table of directed edge costs, stored row-major. `None` in a
/// cell means the ordered pair has no direct edge (infinite cost). The
/// constructor decodes a raw cost of `0` as "no edge", following the
/// convention that the input encodes absent edges as zero.
#[derive(Debug, Clone)]
pub struct DistanceMatrix {
    pub size: usize,
    pub array: Vec<Option<u32>>,
}

impl DistanceMatrix {
    /// Shape invariant: one cell for every ordered pair of nodes.
    pub open spec fn wf(self) -> bool {
        self.array@.len() == self.size * self.size
    }

    /// The cost of the directed edge from `i` to `j`.
    pub open spec fn edge(self, i: int, j: int) -> Option<u32> {
        self.array@[i * self.size + j]
    }

    /// How one raw input value is decoded: `0` means "no edge", any other
    /// value is a real cost.
    pub open spec fn decode(raw: u32) -> Option<u32> {
        if raw == 0 {
            None
        } else {
            Some(raw)
        }
    }

    /// Builds the matrix from `n` and the flat row-major cost values.
    pub fn new(n: usize, distances: Vec<u32>) -> (r: DistanceMatrix)
        requires
            distances@.len() == n * n,
        ensures
            r.wf(),
            r.size == n,
            forall|t: int| 0 <= t < n * n ==> r.array@[t] == Self::decode(distances@[t]),
            forall|i: int, j: int|
                0 <= i < n && 0 <= j < n ==> r.edge(i, j) == Self::decode(distances@[i * n + j]),
    {
        let mut cells: Vec<Option<u32>> = Vec::new();
        let mut t: usize = 0;
        while t < distances.len()
            invariant
                t <= distances@.len(),
                cells@.len() == t,
                forall|u: int| 0 <= u < t ==> cells@[u] == Self::decode(distances@[u]),
            decreases distances@.len() - t,
        {
            let raw = distances[t];
            if raw == 0 {
                cells.push(None);
            } else {
                cells.push(Some(raw));
            }
            t += 1;
        }
        let r = DistanceMatrix { size: n, array: cells };
        proof {
            assert forall|i: int, j: int| 0 <= i < n && 0 <= j < n implies r.edge(i, j)
                == Self::decode(distances@[i * n + j]) by {
                assert(0 <= i * n + j < n * n) by (nonlinear_arith)
                    requires
                        0 <= i < n,
                        0 <= j < n,
                ;
            }
        }
        r
    }

    /// Builds the matrix only when the flat cost list has exactly `n * n`
    /// entries; a malformed input is rejected as `None`.
    pub fn try_new(n: usize, distances: Vec<u32>) -> (r: Option<DistanceMatrix>)
        ensures
            match r {
                Some(m) => {
                    &&& distances@.len() == n * n
                    &&& m.wf()
                    &&& m.size == n
                    &&& forall|t: int|
                        0 <= t < n * n ==> m.array@[t] == Self::decode(distances@[t])
                },
                None => distances@.len() != n * n,
            },
    {
        if n == 0 {
            if distances.len() == 0 {
                Some(Self::new(n, distances))
            } else {
                None
            }
        } else if distances.len() % n == 0 && distances.len() / n == n {
            proof {
                vstd::arithmetic::div_mod::lemma_fundamental_div_mod(
                    distances@.len() as int,
                    n as int,
                );
            }
            Some(Self::new(n, distances))
        } else {
            proof {
                if distances@.len() == n * n {
                    vstd::arithmetic::div_mod::lemma_mod_multiples_basic(n as int, n as int);
                    vstd::arithmetic::div_mod::lemma_div_by_multiple(n as int, n as int);
                }
            }
            None
        }
    }

    /// The cost of going from node `v1` to node `v2`; `None` means the two
    /// nodes have no direct edge.
    pub fn get(&self, v1: usize, v2: usize) -> (r: Option<u32>)
        requires
            self.wf(),
            v1 < self.size,
            v2 < self.size,
        ensures
            r == self.edge(v1 as int, v2 as int),
    {
        let len = self.array.len();
        proof {
            assert(v2 + self.size * v1 < self.size * self.size && v2 + self.size * v1 == v1
                * self.size + v2) by (nonlinear_arith)
                requires
                    v1 < self.size,
                    v2 < self.size,
            ;
            assert(len == self.size * self.size);
        }
        self.array[v2 + self.size * v1]
    }

    /// Bounds-checked lookup: `None` exactly when either index is out of
    /// range, otherwise the same cell as `get`.
    pub fn try_get(&self, v1: usize, v2: usize) -> (r: Option<Option<u32>>)
        requires
            self.wf(),
        ensures
            match r {
                Some(c) => v1 < self.size && v2 < self.size && c == self.edge(
                    v1 as int,
                    v2 as int,
                ),
                None => v1 >= self.size || v2 >= self.size,
            },
    {
        if v1 < self.size && v2 < self.size {
            Some(self.get(v1, v2))
        } else {
            None
        }
    }
}

} // verus!
