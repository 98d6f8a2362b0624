//! The Held-Karp dynamic-programming solver.
//!
//! `TSPSolver` owns the distance matrix, a memo table from encoded
//! `(mask, pos)` states to their exact cost-to-go, and two observational
//! progress counters.  `solve` computes the minimum Hamiltonian-cycle cost
//! and reconstructs one optimal visiting order deterministically.

use vstd::prelude::*;
use std::collections::HashMap;
use crate::model::{
    INF, bit_set, with_bit, full_mask, unvisited, matrix_wf, tsp_cost, best_upto, cand_cost,
    greedy_next, greedy_tail, greedy_path, path_cost, is_tour, lemma_unvisited_with_bit,
    lemma_all_visited_is_full, lemma_full_all_visited,
    lemma_best_upto_le_cand, lemma_tsp_cost_range, lemma_path_cost_push, lemma_unvisited_one,
    lemma_all_set_none_unvisited, lemma_full_bit_set, lemma_first_unvisited_is, lemma_argmin_is,
};

verus! {

broadcast use vstd::std_specs::hash::group_hash_axioms;

/// Why a distance matrix was rejected at construction.
#[derive(Debug, Clone, Copy, PartialEq, Eq)]
pub enum SolverError {
    /// The matrix has no rows at all.
    EmptyMatrix,
    /// More cities than the bitmask state encoding can address.
    TooManyCities,
    /// Some row does not have exactly one entry per city.
    NotSquare,
    /// Some entry is negative or larger than the sentinel `INF`.
    CostOutOfRange,
}

/// View of a vector-of-rows matrix as a mathematical sequence of rows.
pub open spec fn matrix_view(m: Vec<Vec<i32>>) -> Seq<Seq<i32>> {
    Seq::new(m@.len(), |i: int| m@[i]@)
}

/// Memo key of the state `(mask, pos)`: the base-`n` pairing
/// `mask * n + pos`, injective over valid states.
pub open spec fn state_key(n: int, mask: u64, pos: int) -> u64 {
    (mask * n + pos) as u64
}

/// Exact Traveling Salesman solver over a fixed distance matrix.
pub struct TSPSolver {
    n: usize,
    dist: Vec<Vec<i32>>,
    dp: HashMap<u64, i32>,
    total_states: u64,
    computed_states: u64,
}

impl TSPSolver {
    /// Number of cities.
    pub closed spec fn cities(self) -> int {
        self.n as int
    }

    /// The distance matrix, row by row.
    pub closed spec fn matrix(self) -> Seq<Seq<i32>> {
        matrix_view(self.dist)
    }

    /// The memo table: encoded state to computed cost-to-go.
    pub closed spec fn memo(self) -> Map<u64, i32> {
        self.dp@
    }

    /// Precomputed state-space size `n * 2^n`, for progress reporting.
    pub closed spec fn progress_total(self) -> int {
        self.total_states as int
    }

    /// Number of DP-state evaluations so far, for progress reporting.
    pub closed spec fn progress_done(self) -> int {
        self.computed_states as int
    }

    /// Internal invariant: the matrix is well formed, the state count is
    /// the precomputed `n * 2^n`, and every memo entry holds exactly the
    /// `tsp_cost` of the state its key encodes.
    pub closed spec fn wf(self) -> bool {
        let d = self.matrix();
        let n = self.cities();
        &&& matrix_wf(d, n)
        &&& self.total_states as int == n * (full_mask(n) as int + 1)
        &&& self.dp@.dom().finite()
        &&& forall|k: u64| self.dp@.contains_key(k) ==> (k as int) < self.total_states as int
        &&& forall|mask: u64, pos: int|
            0 <= pos < n && mask <= full_mask(n) && #[trigger] self.dp@.contains_key(
                state_key(n, mask, pos),
            ) ==> self.dp@[state_key(n, mask, pos)] as int == tsp_cost(d, n, mask, pos)
    }
}

/// Every row of the matrix has exactly one entry per city.
pub open spec fn rows_square(d: Seq<Seq<i32>>, n: int) -> bool {
    forall|i: int| 0 <= i < n ==> (#[trigger] d[i]).len() == n
}

/// Every entry lies in `[0, INF]`.
pub open spec fn costs_in_range(d: Seq<Seq<i32>>, n: int) -> bool {
    forall|i: int, j: int| 0 <= i < n && 0 <= j < n ==> 0 <= #[trigger] d[i][j] <= INF
}

impl TSPSolver {
    /// Builds a solver over `distances`, rejecting matrices the DP engine
    /// cannot handle: empty, too many cities for the bitmask encoding,
    /// non-square, or entries outside `[0, INF]` (negative costs and
    /// entries that could overflow when summed with the sentinel).
    pub fn new(distances: Vec<Vec<i32>>) -> (r: Result<TSPSolver, SolverError>)
        ensures
            ({
                let d = matrix_view(distances);
                let n = distances@.len() as int;
                match r {
                    Ok(s) => {
                        &&& s.wf()
                        &&& s.matrix() == d
                        &&& s.cities() == n
                        &&& s.memo() == Map::<u64, i32>::empty()
                        &&& s.progress_done() == 0
                        &&& 1 <= n <= 57
                        &&& rows_square(d, n)
                        &&& costs_in_range(d, n)
                    },
                    Err(SolverError::EmptyMatrix) => n == 0,
                    Err(SolverError::TooManyCities) => n > 57,
                    Err(SolverError::NotSquare) => 1 <= n <= 57 && !rows_square(d, n),
                    Err(SolverError::CostOutOfRange) => 1 <= n <= 57 && rows_square(d, n)
                        && !costs_in_range(d, n),
                }
            }),
    {
        let ghost d = matrix_view(distances);
        let n = distances.len();
        if n == 0 {
            return Err(SolverError::EmptyMatrix);
        }
        if n > 57 {
            return Err(SolverError::TooManyCities);
        }
        let mut i: usize = 0;
        while i < n
            invariant
                i <= n,
                1 <= n <= 57,
                n == distances@.len(),
                d == matrix_view(distances),
                forall|r: int| 0 <= r < i ==> (#[trigger] d[r]).len() == n,
            decreases n - i,
        {
            if distances[i].len() != n {
                assert(d[i as int].len() != n);
                return Err(SolverError::NotSquare);
            }
            i = i + 1;
        }
        let mut i: usize = 0;
        while i < n
            invariant
                i <= n,
                1 <= n <= 57,
                n == distances@.len(),
                d == matrix_view(distances),
                rows_square(d, n as int),
                forall|r: int, c: int|
                    0 <= r < i && 0 <= c < n ==> 0 <= #[trigger] d[r][c] <= INF,
            decreases n - i,
        {
            let mut j: usize = 0;
            while j < n
                invariant
                    i < n,
                    j <= n,
                    1 <= n <= 57,
                    n == distances@.len(),
                    d == matrix_view(distances),
                    rows_square(d, n as int),
                    forall|r: int, c: int|
                        0 <= r < i && 0 <= c < n ==> 0 <= #[trigger] d[r][c] <= INF,
                    forall|c: int| 0 <= c < j ==> 0 <= #[trigger] d[i as int][c] <= INF,
                decreases n - j,
            {
                proof {
                    assert(d[i as int] == distances@[i as int]@);
                    assert(d[i as int].len() == n);
                }
                let e = distances[i][j];
                if e < 0 || e > INF {
                    assert(e == d[i as int][j as int]);
                    assert(!(0 <= d[i as int][j as int] <= INF));
                    return Err(SolverError::CostOutOfRange);
                }
                j = j + 1;
            }
            i = i + 1;
        }
        let nu = n as u64;
        proof {
            assert((1u64 << nu) >= 1 && (1u64 << nu) <= 0x0200_0000_0000_0000) by (bit_vector)
                requires
                    1 <= nu <= 57,
            ;
            assert(full_mask(n as int) == ((1u64 << nu) - 1) as u64);
            assert(nu * (1u64 << nu) <= 57 * 0x0200_0000_0000_0000) by (nonlinear_arith)
                requires
                    1 <= nu <= 57,
                    1 <= (1u64 << nu) <= 0x0200_0000_0000_0000,
            ;
        }
        let total: u64 = nu * (1u64 << nu);
        Ok(TSPSolver {
            n,
            dist: distances,
            dp: HashMap::new(),
            total_states: total,
            computed_states: 0,
        })
    }
}

impl TSPSolver {
    /// Memoized Held-Karp recurrence: the exact cost of visiting every
    /// city outside `mask` from `pos` and returning to city `0`.  Looks
    /// the state up first; on a miss, minimizes over every unvisited next
    /// city and records the result before returning.  Memo entries are
    /// write-once: every key present on entry keeps its value.
    pub fn tsp_dp(&mut self, mask: u64, pos: usize) -> (r: i32)
        requires
            old(self).wf(),
            (pos as int) < old(self).cities(),
            mask <= full_mask(old(self).cities()),
        ensures
            final(self).wf(),
            final(self).matrix() == old(self).matrix(),
            final(self).cities() == old(self).cities(),
            final(self).progress_total() == old(self).progress_total(),
            final(self).progress_done() >= old(self).progress_done(),
            forall|k: u64|
                #[trigger] old(self).memo().contains_key(k) ==> final(self).memo().contains_key(
                    k,
                ) && final(self).memo()[k] == old(self).memo()[k],
            mask == full_mask(old(self).cities()) || old(self).memo().contains_key(
                state_key(old(self).cities(), mask, pos as int),
            ) ==> final(self).memo() == old(self).memo() && final(self).progress_done() == (
            if old(self).progress_done() < u64::MAX {
                old(self).progress_done() + 1
            } else {
                old(self).progress_done()
            }),
            old(self).progress_done() < u64::MAX ==> final(self).progress_done() >= old(self).progress_done() + 1,
            r as int == tsp_cost(old(self).matrix(), old(self).cities(), mask, pos as int),
            0 <= r <= INF,
        decreases unvisited(mask, old(self).cities()),
    {
        let ghost d = self.matrix();
        let ghost n_int = self.cities();
        if self.computed_states < u64::MAX {
            self.computed_states = self.computed_states + 1;
        }
        let n = self.n;
        let nu = n as u64;
        proof {
            assert((1u64 << nu) >= 1) by (bit_vector)
                requires
                    1 <= nu <= 57,
            ;
            assert(full_mask(n_int) == ((1u64 << nu) - 1) as u64);
        }
        let full: u64 = (1u64 << nu) - 1;
        if mask == full {
            proof {
                assert(d[pos as int] == self.dist@[pos as int]@);
            }
            return self.dist[pos][0];
        }
        proof {
            lemma_state_key_bound(n_int, mask, pos as int);
        }
        let key: u64 = mask * nu + (pos as u64);
        proof {
            assert(key == state_key(n_int, mask, pos as int));
        }
        if let Some(v) = self.dp.get(&key) {
            let hit = *v;
            proof {
                assert(self.dp@.contains_key(key));
                assert(hit as int == tsp_cost(d, n_int, mask, pos as int));
                lemma_tsp_cost_range(d, n_int, mask, pos as int);
            }
            return hit;
        }
        let mut ans: i32 = INF;
        let mut city: usize = 0;
        while city < n
            invariant
                self.wf(),
                self.matrix() == d,
                self.cities() == n_int,
                n == self.cities(),
                self.progress_total() == old(self).progress_total(),
                self.progress_done() >= old(self).progress_done(),
                forall|k: u64|
                    #[trigger] old(self).memo().contains_key(k) ==> self.memo().contains_key(k)
                        && self.memo()[k] == old(self).memo()[k],
                city <= n,
                nu == n as u64,
                n_int == old(self).cities(),
                d == old(self).matrix(),
                (pos as int) < n_int,
                mask <= full_mask(n_int),
                mask != full_mask(n_int),
                key == state_key(n_int, mask, pos as int),
                !old(self).memo().contains_key(key),
                old(self).progress_done() < u64::MAX ==> self.progress_done() >= old(self).progress_done() + 1,
                ans as int == best_upto(d, n_int, mask, pos as int, city as int),
                0 <= ans <= INF,
            decreases n - city,
        {
            let cu = city as u64;
            if mask & (1u64 << cu) == 0 {
                proof {
                    assert(!bit_set(mask, cu));
                    lemma_unvisited_with_bit(mask, cu, n_int);
                    assert(full_mask(n_int) == ((1u64 << nu) - 1) as u64);
                    assert((mask | (1u64 << cu)) <= ((1u64 << nu) - 1) as u64) by (bit_vector)
                        requires
                            cu < nu,
                            nu <= 57,
                            mask <= ((1u64 << nu) - 1) as u64,
                    ;
                }
                let new_mask = mask | (1u64 << cu);
                let ghost prev = *self;
                let sub_cost = self.tsp_dp(new_mask, city);
                proof {
                    assert forall|k: u64| old(self).memo().contains_key(k) implies self.memo()
                        .contains_key(k) && self.memo()[k] == old(self).memo()[k] by {
                        assert(prev.memo().contains_key(k) && prev.memo()[k] == old(
                            self,
                        ).memo()[k]);
                    }
                    assert(d[pos as int] == self.dist@[pos as int]@);
                }
                let cost = self.dist[pos][city] + sub_cost;
                proof {
                    assert(cost as int == cand_cost(d, n_int, mask, pos as int, city as int));
                }
                if cost < ans {
                    ans = cost;
                }
            }
            city = city + 1;
        }
        proof {
            assert(ans as int == tsp_cost(d, n_int, mask, pos as int));
        }
        let ghost pre = self.dp@;
        self.dp.insert(key, ans);
        proof {
            assert(self.dp@ == pre.insert(key, ans));
            assert forall|m2: u64, p2: int|
                0 <= p2 < n_int && m2 <= full_mask(n_int) && #[trigger] self.dp@.contains_key(
                    state_key(n_int, m2, p2),
                ) implies self.dp@[state_key(n_int, m2, p2)] as int == tsp_cost(
                d,
                n_int,
                m2,
                p2,
            ) by {
                let k2 = state_key(n_int, m2, p2);
                if k2 == key {
                    lemma_state_key_injective(n_int, m2, p2, mask, pos as int);
                } else {
                    assert(pre.contains_key(k2) && self.dp@[k2] == pre[k2]);
                }
            }
            assert forall|k2: u64| self.dp@.contains_key(k2) implies (k2 as int)
                < self.total_states as int by {
                if k2 != key {
                    assert(pre.contains_key(k2));
                }
            }
        }
        ans
    }
}

impl TSPSolver {
    /// Walks the memoized states forward from `(mask = {0}, pos = 0)`,
    /// at each step choosing the lowest-indexed unvisited city whose edge
    /// plus cost-to-go attains the state's minimum (looking states up in
    /// the memo and falling back to `tsp_dp` for any state not yet
    /// solved), and closes the cycle at city `0`.  The result is exactly
    /// the deterministic `greedy_path`, a syntactically valid tour, and —
    /// whenever the instance is feasible — a tour realizing the optimal
    /// cost `tsp_cost(matrix, n, {0}, 0)`.
    pub fn reconstruct_path(&mut self) -> (path: Vec<usize>)
        requires
            old(self).wf(),
        ensures
            final(self).wf(),
            final(self).matrix() == old(self).matrix(),
            final(self).cities() == old(self).cities(),
            final(self).progress_total() == old(self).progress_total(),
            final(self).progress_done() >= old(self).progress_done(),
            forall|k: u64|
                #[trigger] old(self).memo().contains_key(k) ==> final(self).memo().contains_key(
                    k,
                ) && final(self).memo()[k] == old(self).memo()[k],
            path@ == greedy_path(old(self).matrix(), old(self).cities()),
            is_tour(old(self).cities(), path@),
            tsp_cost(old(self).matrix(), old(self).cities(), 1u64, 0) < INF ==> path_cost(
                old(self).matrix(),
                path@,
            ) == tsp_cost(old(self).matrix(), old(self).cities(), 1u64, 0),
    {
        let ghost d = self.matrix();
        let ghost n_int = self.cities();
        let n = self.n;
        let nu = n as u64;
        proof {
            assert(1 <= nu <= 57);
            assert((1u64 << nu) >= 1) by (bit_vector)
                requires
                    1 <= nu <= 57,
            ;
            assert(1u64 <= ((1u64 << nu) - 1) as u64) by (bit_vector)
                requires
                    1 <= nu <= 57,
            ;
            assert(full_mask(n_int) == ((1u64 << nu) - 1) as u64);
        }
        let full: u64 = (1u64 << nu) - 1;
        let mut path: Vec<usize> = Vec::new();
        let mut mask: u64 = 1;
        let mut pos: usize = 0;
        path.push(0);
        proof {
            lemma_unvisited_one(n_int);
            assert(bit_set(1u64, 0u64)) by (bit_vector);
            assert(path@ =~= seq![0usize]);
            assert(seq![0usize] + greedy_tail(d, n_int, 1u64, 0) =~= path@ + greedy_tail(
                d,
                n_int,
                1u64,
                0,
            ));
            assert forall|c: int| 0 <= c < n_int implies (bit_set(1u64, #[trigger] (c as u64))
                <==> path@.contains(c as usize)) by {
                let cu = c as u64;
                assert(bit_set(1u64, cu) <==> cu == 0) by (bit_vector);
                if c == 0 {
                    assert(path@[0] == 0usize);
                }
                if path@.contains(c as usize) {
                    assert(path@[choose|i: int| 0 <= i < path@.len() && path@[i] == c as usize]
                        == c as usize);
                }
            }
        }
        while mask != full
            invariant
                self.wf(),
                self.matrix() == d,
                self.cities() == n_int,
                n == self.cities(),
                nu == n as u64,
                n_int == old(self).cities(),
                d == old(self).matrix(),
                self.progress_total() == old(self).progress_total(),
                self.progress_done() >= old(self).progress_done(),
                forall|k: u64|
                    #[trigger] old(self).memo().contains_key(k) ==> self.memo().contains_key(k)
                        && self.memo()[k] == old(self).memo()[k],
                full == full_mask(n_int),
                mask <= full_mask(n_int),
                (pos as int) < n_int,
                bit_set(mask, pos as u64),
                path@.len() >= 1,
                path@[0] == 0usize,
                path@.last() == pos,
                path@.len() + unvisited(mask, n_int) == n_int,
                forall|idx: int| 0 <= idx < path@.len() ==> (#[trigger] path@[idx]) < n,
                forall|i: int, j: int| 0 <= i < j < path@.len() ==> path@[i] != path@[j],
                forall|c: int|
                    0 <= c < n_int ==> (bit_set(mask, #[trigger] (c as u64))
                        <==> path@.contains(c as usize)),
                seq![0usize] + greedy_tail(d, n_int, 1u64, 0) == path@ + greedy_tail(
                    d,
                    n_int,
                    mask,
                    pos as int,
                ),
                tsp_cost(d, n_int, 1u64, 0) < INF ==> path_cost(d, path@) + tsp_cost(
                    d,
                    n_int,
                    mask,
                    pos as int,
                ) == tsp_cost(d, n_int, 1u64, 0) && tsp_cost(d, n_int, mask, pos as int) < INF,
            decreases unvisited(mask, n_int),
        {
            proof {
                if unvisited(mask, n_int) == 0 {
                    lemma_all_visited_is_full(mask, n_int);
                }
            }
            // Lowest-indexed unvisited city: the deterministic fallback
            // when no finite candidate exists.
            let mut fb: usize = 0;
            let mut have: bool = false;
            let mut j: usize = 0;
            while j < n
                invariant
                    j <= n,
                    nu == n as u64,
                    1 <= n <= 57,
                    !have ==> forall|jj: int| 0 <= jj < j ==> bit_set(mask, #[trigger] (jj as u64)),
                    have ==> (fb as int) < j && !bit_set(mask, fb as u64) && forall|jj: int|
                        0 <= jj < fb ==> bit_set(mask, #[trigger] (jj as u64)),
                decreases n - j,
            {
                if !have && (mask & (1u64 << (j as u64)) == 0) {
                    fb = j;
                    have = true;
                    assert(!bit_set(mask, fb as u64));
                }
                j = j + 1;
            }
            proof {
                if !have {
                    lemma_all_set_none_unvisited(mask, n_int);
                    assert(false);
                }
                lemma_first_unvisited_is(mask, n_int, fb as int, 0);
            }
            let mut next_city: usize = fb;
            let mut min_cost: i32 = INF;
            let mut city: usize = 0;
            while city < n
                invariant
                    self.wf(),
                    self.matrix() == d,
                    self.cities() == n_int,
                    n == self.cities(),
                    nu == n as u64,
                    n_int == old(self).cities(),
                    d == old(self).matrix(),
                    self.progress_total() == old(self).progress_total(),
                    self.progress_done() >= old(self).progress_done(),
                    forall|k: u64|
                        #[trigger] old(self).memo().contains_key(k) ==> self.memo().contains_key(
                            k,
                        ) && self.memo()[k] == old(self).memo()[k],
                    mask <= full_mask(n_int),
                    mask != full_mask(n_int),
                    (pos as int) < n_int,
                    city <= n,
                    (fb as int) < n_int,
                    !bit_set(mask, fb as u64),
                    min_cost as int == best_upto(d, n_int, mask, pos as int, city as int),
                    INF >= min_cost >= 0,
                    min_cost == INF ==> next_city == fb,
                    min_cost < INF ==> (next_city as int) < city && !bit_set(mask, next_city as u64)
                        && cand_cost(d, n_int, mask, pos as int, next_city as int)
                        == min_cost as int && forall|jj: int|
                        0 <= jj < next_city && !bit_set(mask, jj as u64)
                            ==> #[trigger] cand_cost(d, n_int, mask, pos as int, jj)
                            > min_cost as int,
                decreases n - city,
            {
                let cu = city as u64;
                if mask & (1u64 << cu) == 0 {
                    proof {
                        assert(!bit_set(mask, cu));
                        assert(full_mask(n_int) == ((1u64 << nu) - 1) as u64);
                        assert((mask | (1u64 << cu)) <= ((1u64 << nu) - 1) as u64) by (bit_vector)
                            requires
                                cu < nu,
                                nu <= 57,
                                mask <= ((1u64 << nu) - 1) as u64,
                        ;
                        lemma_state_key_bound(n_int, with_bit(mask, cu), city as int);
                    }
                    let new_mask = mask | (1u64 << cu);
                    let key2: u64 = new_mask * nu + (city as u64);
                    proof {
                        assert(key2 == state_key(n_int, new_mask, city as int));
                    }
                    let looked = self.dp.get(&key2);
                    let dp_value: i32 = if let Some(v) = looked {
                        let hit = *v;
                        proof {
                            assert(self.dp@.contains_key(key2));
                            assert(hit as int == tsp_cost(d, n_int, new_mask, city as int));
                            lemma_tsp_cost_range(d, n_int, new_mask, city as int);
                        }
                        hit
                    } else {
                        let ghost prev = *self;
                        let computed = self.tsp_dp(new_mask, city);
                        proof {
                            assert forall|k: u64| old(self).memo().contains_key(k) implies self
                                .memo().contains_key(k) && self.memo()[k] == old(
                                self,
                            ).memo()[k] by {
                                assert(prev.memo().contains_key(k) && prev.memo()[k] == old(
                                    self,
                                ).memo()[k]);
                            }
                        }
                        computed
                    };
                    proof {
                        assert(d[pos as int] == self.dist@[pos as int]@);
                    }
                    let cost = self.dist[pos][city] + dp_value;
                    proof {
                        assert(cost as int == cand_cost(d, n_int, mask, pos as int, city as int));
                    }
                    if cost < min_cost {
                        proof {
                            assert forall|jj: int|
                                0 <= jj < city && !bit_set(mask, jj as u64) implies #[trigger]
                            cand_cost(d, n_int, mask, pos as int, jj) > cost as int by {
                                lemma_best_upto_le_cand(d, n_int, mask, pos as int, jj, city as int);
                            }
                        }
                        min_cost = cost;
                        next_city = city;
                    }
                }
                city = city + 1;
            }
            proof {
                assert(min_cost as int == best_upto(d, n_int, mask, pos as int, n_int));
                assert(min_cost as int == tsp_cost(d, n_int, mask, pos as int));
                if min_cost < INF {
                    lemma_argmin_is(d, n_int, mask, pos as int, next_city as int, 0);
                    assert(greedy_next(d, n_int, mask, pos as int) == next_city as int);
                } else {
                    assert(greedy_next(d, n_int, mask, pos as int) == fb as int);
                    assert(next_city == fb);
                }
                assert(!bit_set(mask, next_city as u64));
                assert((next_city as int) < n_int);
            }
            let ghost old_path = path@;
            let ghost old_mask = mask;
            let ghost old_pos = pos;
            let cu2 = next_city as u64;
            proof {
                lemma_unvisited_with_bit(mask, cu2, n_int);
                assert(full_mask(n_int) == ((1u64 << nu) - 1) as u64);
                assert((mask | (1u64 << cu2)) <= ((1u64 << nu) - 1) as u64) by (bit_vector)
                    requires
                        cu2 < nu,
                        nu <= 57,
                        mask <= ((1u64 << nu) - 1) as u64,
                ;
                assert(bit_set(with_bit(mask, cu2), cu2)) by (bit_vector)
                    requires
                        cu2 < 64,
                ;
                lemma_path_cost_push(d, path@, next_city);
            }
            path.push(next_city);
            mask = mask | (1u64 << cu2);
            pos = next_city;
            proof {
                let c_int = next_city as int;
                assert(path@ == old_path.push(next_city));
                // Membership after marking `next_city` visited.
                assert forall|c: int| 0 <= c < n_int implies (bit_set(mask, #[trigger] (c as u64))
                    <==> path@.contains(c as usize)) by {
                    let ccu = c as u64;
                    assert(bit_set(with_bit(old_mask, cu2), ccu) <==> (ccu == cu2 || bit_set(
                        old_mask,
                        ccu,
                    ))) by (bit_vector)
                        requires
                            cu2 < 64,
                    ;
                    if bit_set(mask, ccu) {
                        if ccu == cu2 {
                            assert(path@[path@.len() - 1] == c as usize);
                        } else {
                            assert(old_path.contains(c as usize));
                            let w = choose|i: int|
                                0 <= i < old_path.len() && old_path[i] == c as usize;
                            assert(path@[w] == c as usize);
                        }
                    }
                    if path@.contains(c as usize) {
                        let w = choose|i: int| 0 <= i < path@.len() && path@[i] == c as usize;
                        if w < old_path.len() {
                            assert(old_path[w] == c as usize);
                        }
                    }
                }
                // Distinctness: the appended city was unvisited, so it is new.
                assert forall|i: int, j: int| 0 <= i < j < path@.len() implies path@[i]
                    != path@[j] by {
                    if j == path@.len() - 1 {
                        assert(old_path[i] == path@[i]);
                        if old_path[i] == next_city {
                            assert(old_path.contains(next_city));
                            assert(bit_set(old_mask, cu2));
                        }
                    }
                }
                // The greedy spec makes the same choice.
                assert(greedy_tail(d, n_int, old_mask, old_pos as int) == seq![next_city]
                    + greedy_tail(d, n_int, mask, pos as int));
                assert(old_path + (seq![next_city] + greedy_tail(d, n_int, mask, pos as int))
                    =~= path@ + greedy_tail(d, n_int, mask, pos as int));
                // Cost bookkeeping for the feasible case.
                if tsp_cost(d, n_int, 1u64, 0) < INF {
                    assert(tsp_cost(d, n_int, old_mask, old_pos as int) == cand_cost(
                        d,
                        n_int,
                        old_mask,
                        old_pos as int,
                        c_int,
                    ));
                    lemma_tsp_cost_range(d, n_int, mask, pos as int);
                }
            }
        }
        proof {
            assert(mask == full_mask(n_int));
            lemma_full_all_visited(n_int, n_int);
            assert(unvisited(mask, n_int) == 0);
            assert(path@.len() == n_int);
            assert(greedy_tail(d, n_int, mask, pos as int) =~= seq![0usize]);
            lemma_path_cost_push(d, path@, 0);
            assert(tsp_cost(d, n_int, mask, pos as int) == d[pos as int][0]);
        }
        let ghost pre_close = path@;
        path.push(0);
        proof {
            assert(path@ == pre_close.push(0usize));
            assert(path@ =~= seq![0usize] + greedy_tail(d, n_int, 1u64, 0));
            assert(path@ == greedy_path(d, n_int));
            // The closed walk is a syntactically valid tour.
            assert(path@.subrange(0, n_int) =~= pre_close);
            assert forall|c: int| 0 <= c < n_int implies #[trigger] path@.subrange(
                0,
                n_int,
            ).contains(c as usize) by {
                lemma_full_bit_set(n_int, c);
                assert(pre_close.contains(c as usize));
            }
            assert(is_tour(n_int, path@));
        }
        path
    }
}

impl TSPSolver {
    /// Solves the instance: returns the minimum Hamiltonian-cycle cost
    /// (the sentinel `INF` exactly when no finite tour exists) together
    /// with one optimal visiting order that starts and ends at city `0`.
    /// With one city or fewer the cost is `0` and the path the trivial
    /// single-city sequence.  The returned order is the deterministic
    /// `greedy_path`, so equal-cost ties always resolve to the
    /// lowest-indexed candidate, and for feasible instances the returned
    /// path's edge sum equals the returned cost.
    pub fn solve(&mut self) -> (r: (i32, Vec<usize>))
        requires
            old(self).wf(),
        ensures
            final(self).wf(),
            final(self).matrix() == old(self).matrix(),
            final(self).cities() == old(self).cities(),
            final(self).progress_total() == old(self).progress_total(),
            final(self).progress_done() >= old(self).progress_done(),
            forall|k: u64|
                #[trigger] old(self).memo().contains_key(k) ==> final(self).memo().contains_key(
                    k,
                ) && final(self).memo()[k] == old(self).memo()[k],
            old(self).cities() <= 1 ==> r.0 == 0 && r.1@ == seq![0usize] && *final(self) == *old(self),
            old(self).cities() >= 2 && old(self).progress_done() < u64::MAX ==> final(self).progress_done() >= old(self).progress_done() + 1,
            old(self).cities() >= 2 ==> ({
                let d = old(self).matrix();
                let n = old(self).cities();
                &&& r.0 as int == tsp_cost(d, n, 1u64, 0)
                &&& 0 <= r.0 <= INF
                &&& r.1@ == greedy_path(d, n)
                &&& is_tour(n, r.1@)
                &&& (r.0 < INF ==> path_cost(d, r.1@) == r.0 as int)
                &&& forall|p: Seq<usize>| #[trigger] is_tour(n, p) ==> r.0 as int <= path_cost(d, p)
            }),
    {
        if self.n <= 1 {
            let mut p: Vec<usize> = Vec::new();
            p.push(0);
            proof {
                assert(p@ =~= seq![0usize]);
            }
            return (0, p);
        }
        proof {
            let nu = self.n as u64;
            assert(1u64 <= ((1u64 << nu) - 1) as u64) by (bit_vector)
                requires
                    1 <= nu <= 57,
            ;
            assert(full_mask(self.cities()) == ((1u64 << nu) - 1) as u64);
        }
        let min_cost = self.tsp_dp(1, 0);
        let ghost prev = *self;
        let path = self.reconstruct_path();
        proof {
            assert forall|k: u64| old(self).memo().contains_key(k) implies self.memo()
                .contains_key(k) && self.memo()[k] == old(self).memo()[k] by {
                assert(prev.memo().contains_key(k) && prev.memo()[k] == old(self).memo()[k]);
            }
            assert forall|p: Seq<usize>|
                #[trigger] is_tour(old(self).cities(), p) implies min_cost as int <= path_cost(
                old(self).matrix(),
                p,
            ) by {
                crate::laws::lemma_cost_lower_bound(old(self).matrix(), old(self).cities(), p);
            }
        }
        (min_cost, path)
    }

    /// Number of cities in this instance.
    pub fn num_cities(&self) -> (r: usize)
        ensures
            r as int == self.cities(),
    {
        self.n
    }

    /// Precomputed state-space size `n * 2^n`, the denominator for
    /// progress reporting.
    pub fn total_states(&self) -> (r: u64)
        ensures
            r as int == self.progress_total(),
    {
        self.total_states
    }

    /// Monotonically increasing count of DP-state evaluations, the
    /// numerator for progress reporting; purely observational.
    pub fn computed_states(&self) -> (r: u64)
        ensures
            r as int == self.progress_done(),
    {
        self.computed_states
    }

    /// Number of distinct states currently memoized.
    pub fn memo_entries(&self) -> (r: usize)
        ensures
            r as int == self.memo().len(),
    {
        self.dp.len()
    }
}

/// Every memoized entry holds exactly the `tsp_cost` of the state its
/// key encodes, so a memo hit returns the stored value unchanged.
pub proof fn lemma_memo_entry_exact(s: TSPSolver, mask: u64, pos: int)
    requires
        s.wf(),
        0 <= pos < s.cities(),
        mask <= full_mask(s.cities()),
        s.memo().contains_key(state_key(s.cities(), mask, pos)),
    ensures
        s.memo()[state_key(s.cities(), mask, pos)] as int == tsp_cost(
            s.matrix(),
            s.cities(),
            mask,
            pos,
        ),
{
}

/// The set of `u64` values below `bound`.
spec fn keys_below(bound: int) -> Set<u64> {
    Set::new(|k: u64| (k as int) < bound)
}

proof fn lemma_keys_below_len(bound: int)
    requires
        0 <= bound <= u64::MAX as int,
    ensures
        keys_below(bound).finite(),
        keys_below(bound).len() == bound,
    decreases bound,
{
    if bound == 0 {
        assert(keys_below(0) =~= Set::<u64>::empty());
    } else {
        lemma_keys_below_len(bound - 1);
        let last = (bound - 1) as u64;
        assert(keys_below(bound) =~= keys_below(bound - 1).insert(last));
        assert(!keys_below(bound - 1).contains(last));
    }
}

/// Memoization bound: the memo table never holds more than `n * 2^n`
/// entries — one per distinct `(mask, pos)` state.  (That an entry, once
/// written, keeps its value is part of the write-once clauses of `tsp_dp`
/// and `solve`, and of the solver invariant, which pins every entry to the
/// unique `tsp_cost` of its state.)
pub proof fn lemma_memo_entries_bound(s: TSPSolver)
    requires
        s.wf(),
    ensures
        s.memo().dom().len() <= s.progress_total(),
        s.progress_total() == s.cities() * (full_mask(s.cities()) as int + 1),
{
    let bound = s.progress_total();
    lemma_state_key_bound(s.cities(), 0u64, 0);
    lemma_keys_below_len(bound);
    assert(s.memo().dom().subset_of(keys_below(bound)));
    vstd::set_lib::lemma_len_subset(s.memo().dom(), keys_below(bound));
}

/// `full_mask(n)` fits well under `2^57`, and state keys fit a `u64`.
proof fn lemma_state_key_bound(n: int, mask: u64, pos: int)
    requires
        1 <= n <= 57,
        0 <= pos < n,
        mask <= full_mask(n),
    ensures
        0 <= mask * n + pos < n * (full_mask(n) as int + 1),
        n * (full_mask(n) as int + 1) <= 0x7300_0000_0000_0000,
        state_key(n, mask, pos) as int == mask * n + pos,
{
    let nu = n as u64;
    assert(((1u64 << nu) - 1) as u64 <= 0x01FF_FFFF_FFFF_FFFF) by (bit_vector)
        requires
            1 <= nu <= 57,
    ;
    assert(full_mask(n) == ((1u64 << nu) - 1) as u64);
    let fm = full_mask(n) as int;
    assert(mask * n + pos < n * (fm + 1) && n * (fm + 1) <= 57 * (fm + 1)) by (nonlinear_arith)
        requires
            1 <= n <= 57,
            0 <= pos < n,
            0 <= mask <= fm,
    ;
    assert(0 <= mask * n) by (nonlinear_arith)
        requires
            0 <= mask,
            0 <= n,
    ;
}

/// Distinct valid states have distinct memo keys.
proof fn lemma_state_key_injective(n: int, m1: u64, p1: int, m2: u64, p2: int)
    requires
        1 <= n <= 57,
        0 <= p1 < n,
        0 <= p2 < n,
        m1 <= full_mask(n),
        m2 <= full_mask(n),
        state_key(n, m1, p1) == state_key(n, m2, p2),
    ensures
        m1 == m2 && p1 == p2,
{
    lemma_state_key_bound(n, m1, p1);
    lemma_state_key_bound(n, m2, p2);
    assert(m1 * n + p1 == m2 * n + p2);
    assert(m1 == m2 && p1 == p2) by (nonlinear_arith)
        requires
            m1 * n + p1 == m2 * n + p2,
            0 <= p1 < n,
            0 <= p2 < n,
    ;
}

} // verus!
