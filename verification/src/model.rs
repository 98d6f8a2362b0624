//! Mathematical model of the Held-Karp state space.
//!
//! A partial tour is a pair `(mask, pos)`: `mask` is a visited-set bitmask
//! (bit `c` set means city `c` has been visited) and `pos` is the city the
//! tour currently stands at.  `tsp_cost` is the exact cost-to-go of such a
//! state: the cheapest way to visit every remaining city and return to the
//! anchor city `0`, or the sentinel `INF` when no finite completion exists.

use vstd::prelude::*;

verus! {

/// Sentinel standing for "no edge" / "infeasible".  Chosen so that the sum
/// of two sentinels still fits in `i32`.
pub const INF: i32 = 1073741823;

/// True when bit `c` of `mask` is set, i.e. city `c` has been visited.
pub open spec fn bit_set(mask: u64, c: u64) -> bool {
    mask & (1u64 << c) != 0
}

/// `mask` with bit `c` set: the visited set after moving to city `c`.
pub open spec fn with_bit(mask: u64, c: u64) -> u64 {
    mask | (1u64 << c)
}

/// Bitmask in which every one of the `n` cities is marked visited.
pub open spec fn full_mask(n: int) -> u64 {
    ((1u64 << (n as u64)) - 1) as u64
}

/// Number of cities in `0..n` whose bit is clear in `mask`.
pub open spec fn unvisited(mask: u64, n: int) -> nat
    decreases n,
{
    if n <= 0 {
        0
    } else {
        unvisited(mask, n - 1) + (if bit_set(mask, (n - 1) as u64) {
            0nat
        } else {
            1nat
        })
    }
}

/// Setting a clear bit `c` removes exactly that city from the unvisited
/// count when `c < n`, and changes nothing when `c >= n`.
pub proof fn lemma_unvisited_with_bit(mask: u64, c: u64, n: int)
    requires
        c < 64,
        !bit_set(mask, c),
        n <= 64,
    ensures
        unvisited(with_bit(mask, c), n) + (if c < n {
            1nat
        } else {
            0nat
        }) == unvisited(mask, n),
    decreases n,
{
    if n <= 0 {
    } else {
        lemma_unvisited_with_bit(mask, c, n - 1);
        let bu = (n - 1) as u64;
        if bu == c {
            assert(bit_set(with_bit(mask, c), c)) by (bit_vector)
                requires
                    c < 64,
            ;
        } else {
            assert(bit_set(with_bit(mask, c), bu) == bit_set(mask, bu)) by (bit_vector)
                requires
                    bu != c,
            ;
        }
    }
}

/// Well-formed `n`-city distance matrix: square, non-empty, small enough
/// that state bitmasks and the state count `n * 2^n` fit the machine word,
/// and every entry within `[0, INF]` so that sums of one edge and one
/// cost-to-go never overflow `i32`.
pub open spec fn matrix_wf(d: Seq<Seq<i32>>, n: int) -> bool {
    &&& d.len() == n
    &&& 1 <= n <= 57
    &&& forall|i: int| 0 <= i < n ==> (#[trigger] d[i]).len() == n
    &&& forall|i: int, j: int| 0 <= i < n && 0 <= j < n ==> 0 <= #[trigger] d[i][j] <= INF
}

/// Exact cost-to-go of the state `(mask, pos)`: the cheapest cost of
/// visiting every city whose bit is clear in `mask` exactly once, starting
/// from `pos` and finally returning to city `0`.  When every city is
/// visited only the closing edge back to `0` remains; otherwise the cost is
/// the minimum over every unvisited next city, or `INF` when no choice
/// completes finitely.
pub open spec fn tsp_cost(d: Seq<Seq<i32>>, n: int, mask: u64, pos: int) -> int
    decreases unvisited(mask, n), n + 1,
        when 0 <= n <= 57
{
    if mask == full_mask(n) {
        d[pos][0] as int
    } else {
        best_upto(d, n, mask, pos, n)
    }
}

/// Minimum, over the unvisited cities `c < k`, of the cost of moving to
/// `c` next and completing optimally; `INF` when there is no such city.
pub open spec fn best_upto(d: Seq<Seq<i32>>, n: int, mask: u64, pos: int, k: int) -> int
    decreases unvisited(mask, n), k,
        when 0 <= n <= 57
        via best_upto_decreases
{
    if k <= 0 || k > n {
        INF as int
    } else {
        let prev = best_upto(d, n, mask, pos, k - 1);
        if !bit_set(mask, (k - 1) as u64) {
            let cand = d[pos][k - 1] + tsp_cost(d, n, with_bit(mask, (k - 1) as u64), k - 1);
            if cand < prev {
                cand
            } else {
                prev
            }
        } else {
            prev
        }
    }
}

#[via_fn]
proof fn best_upto_decreases(d: Seq<Seq<i32>>, n: int, mask: u64, pos: int, k: int) {
    if 0 < k <= n <= 57 && !bit_set(mask, (k - 1) as u64) {
        lemma_unvisited_with_bit(mask, (k - 1) as u64, n);
    }
}

/// Cost of choosing unvisited city `c` next from the state `(mask, pos)`.
pub open spec fn cand_cost(d: Seq<Seq<i32>>, n: int, mask: u64, pos: int, c: int) -> int {
    d[pos][c] + tsp_cost(d, n, with_bit(mask, c as u64), c)
}

/// The prefix minimum never exceeds any of its candidates.
pub proof fn lemma_best_upto_le_cand(d: Seq<Seq<i32>>, n: int, mask: u64, pos: int, c: int, k: int)
    requires
        n <= 57,
        0 <= c < k <= n,
        !bit_set(mask, c as u64),
    ensures
        best_upto(d, n, mask, pos, k) <= cand_cost(d, n, mask, pos, c),
    decreases k,
{
    if c < k - 1 {
        lemma_best_upto_le_cand(d, n, mask, pos, c, k - 1);
    }
}

/// Every state cost lies in `[0, INF]`: candidate sums are clipped by the
/// `INF`-initialized minimum, and edges are non-negative.
pub proof fn lemma_tsp_cost_range(d: Seq<Seq<i32>>, n: int, mask: u64, pos: int)
    requires
        matrix_wf(d, n),
        0 <= pos < n,
    ensures
        0 <= tsp_cost(d, n, mask, pos) <= INF,
    decreases unvisited(mask, n), n + 1,
{
    if mask == full_mask(n) {
    } else {
        lemma_best_upto_range(d, n, mask, pos, n);
    }
}

/// Range of the prefix minimum, by the same induction.
pub proof fn lemma_best_upto_range(d: Seq<Seq<i32>>, n: int, mask: u64, pos: int, k: int)
    requires
        matrix_wf(d, n),
        0 <= pos < n,
        k <= n,
    ensures
        0 <= best_upto(d, n, mask, pos, k) <= INF,
    decreases unvisited(mask, n), k,
{
    if k <= 0 || k > n {
    } else {
        lemma_best_upto_range(d, n, mask, pos, k - 1);
        if !bit_set(mask, (k - 1) as u64) {
            lemma_unvisited_with_bit(mask, (k - 1) as u64, n);
            lemma_tsp_cost_range(d, n, with_bit(mask, (k - 1) as u64), k - 1);
        }
    }
}

/// Masking away bits at positions `>= k` does not change which of the
/// cities `0..n` are unvisited, as long as `n <= k`.
proof fn lemma_unvisited_low(mask: u64, k: int, n: int)
    requires
        0 <= n <= k <= 63,
    ensures
        unvisited(mask & full_mask(k), n) == unvisited(mask, n),
    decreases n,
{
    if n <= 0 {
    } else {
        lemma_unvisited_low(mask, k, n - 1);
        let bu = (n - 1) as u64;
        let ku = k as u64;
        assert(full_mask(k) == ((1u64 << ku) - 1) as u64);
        assert(bit_set(mask & (((1u64 << ku) - 1) as u64), bu) == bit_set(mask, bu))
            by (bit_vector)
            requires
                bu < ku,
                ku <= 63,
        ;
    }
}

/// A mask within range whose unvisited count is zero is the full mask.
pub proof fn lemma_all_visited_is_full(mask: u64, n: int)
    requires
        0 <= n <= 57,
        mask <= full_mask(n),
        unvisited(mask, n) == 0,
    ensures
        mask == full_mask(n),
    decreases n,
{
    let nu = n as u64;
    if n == 0 {
        assert(((1u64 << 0u64) - 1) as u64 == 0) by (bit_vector);
    } else {
        let bu = (n - 1) as u64;
        assert(bit_set(mask, bu));
        lemma_unvisited_low(mask, n - 1, n - 1);
        let lo = mask & full_mask(n - 1);
        assert(full_mask(n - 1) == ((1u64 << bu) - 1) as u64);
        assert((mask & (((1u64 << bu) - 1) as u64)) <= ((1u64 << bu) - 1) as u64) by (bit_vector);
        lemma_all_visited_is_full(lo, n - 1);
        assert(mask == ((1u64 << nu) - 1) as u64) by (bit_vector)
            requires
                1 <= nu <= 57,
                bu == (nu - 1) as u64,
                mask <= ((1u64 << nu) - 1) as u64,
                mask & (1u64 << bu) != 0,
                (mask & (((1u64 << bu) - 1) as u64)) == ((1u64 << bu) - 1) as u64,
        ;
        assert(full_mask(n) == ((1u64 << nu) - 1) as u64);
    }
}

/// In the full mask every city is visited.
pub proof fn lemma_full_all_visited(n: int, j: int)
    requires
        0 <= j <= n <= 57,
    ensures
        unvisited(full_mask(n), j) == 0,
    decreases j,
{
    if j > 0 {
        lemma_full_all_visited(n, j - 1);
        let bu = (j - 1) as u64;
        let nu = n as u64;
        assert((((1u64 << nu) - 1) as u64) & (1u64 << bu) != 0) by (bit_vector)
            requires
                bu < nu,
                nu <= 57,
        ;
        assert(full_mask(n) == ((1u64 << nu) - 1) as u64);
    }
}

/// Lowest-indexed city at index `k` or later that is still unvisited;
/// `n` when every city from `k` on is visited.
pub open spec fn first_unvisited(mask: u64, n: int, k: int) -> int
    decreases n - k,
{
    if k < 0 || k >= n {
        n
    } else if !bit_set(mask, k as u64) {
        k
    } else {
        first_unvisited(mask, n, k + 1)
    }
}

/// `first_unvisited` returns an unvisited city, skips only visited ones,
/// and returns `n` only when the cities from `k` on are all visited.
pub proof fn lemma_first_unvisited(mask: u64, n: int, k: int)
    requires
        0 <= k <= n,
    ensures
        ({
            let c = first_unvisited(mask, n, k);
            &&& k <= c <= n
            &&& c < n ==> !bit_set(mask, c as u64)
            &&& forall|j: int| k <= j < c ==> #[trigger] bit_set(mask, j as u64)
            &&& c == n ==> unvisited(mask, n) <= unvisited(mask, k)
        }),
    decreases n - k,
{
    if k < n && bit_set(mask, k as u64) {
        lemma_first_unvisited(mask, n, k + 1);
    }
}

/// Lowest-indexed unvisited city at index `k` or later whose candidate
/// cost attains the state's minimum; `n` when none does.
pub open spec fn argmin_from(d: Seq<Seq<i32>>, n: int, mask: u64, pos: int, k: int) -> int
    decreases n - k,
{
    if k < 0 || k >= n {
        n
    } else if !bit_set(mask, k as u64) && cand_cost(d, n, mask, pos, k) == best_upto(
        d,
        n,
        mask,
        pos,
        n,
    ) {
        k
    } else {
        argmin_from(d, n, mask, pos, k + 1)
    }
}

/// `argmin_from` returns an attaining city and skips exactly the cities
/// that are visited or fail to attain the minimum.
pub proof fn lemma_argmin_from(d: Seq<Seq<i32>>, n: int, mask: u64, pos: int, k: int)
    requires
        0 <= k <= n,
    ensures
        ({
            let c = argmin_from(d, n, mask, pos, k);
            let best = best_upto(d, n, mask, pos, n);
            &&& k <= c <= n
            &&& c < n ==> !bit_set(mask, c as u64) && cand_cost(d, n, mask, pos, c) == best
            &&& forall|j: int|
                k <= j < c ==> !(!bit_set(mask, j as u64) && #[trigger] cand_cost(
                    d,
                    n,
                    mask,
                    pos,
                    j,
                ) == best)
        }),
    decreases n - k,
{
    if k < n && !(!bit_set(mask, k as u64) && cand_cost(d, n, mask, pos, k) == best_upto(
        d,
        n,
        mask,
        pos,
        n,
    )) {
        lemma_argmin_from(d, n, mask, pos, k + 1);
    }
}

/// A finite prefix minimum is attained by some unvisited candidate.
pub proof fn lemma_best_achieved(d: Seq<Seq<i32>>, n: int, mask: u64, pos: int, k: int)
    requires
        0 <= k <= n <= 57,
        best_upto(d, n, mask, pos, k) < INF,
    ensures
        exists|c: int|
            0 <= c < k && !bit_set(mask, c as u64) && #[trigger] cand_cost(d, n, mask, pos, c)
                == best_upto(d, n, mask, pos, k),
    decreases k,
{
    let best = best_upto(d, n, mask, pos, k);
    if best_upto(d, n, mask, pos, k - 1) == best {
        lemma_best_achieved(d, n, mask, pos, k - 1);
    } else {
        assert(!bit_set(mask, (k - 1) as u64) && cand_cost(d, n, mask, pos, k - 1) == best);
    }
}

/// The deterministic next-city choice of path reconstruction: the
/// lowest-indexed unvisited city attaining the state's minimum when the
/// state is feasible, and the lowest-indexed unvisited city otherwise.
pub open spec fn greedy_next(d: Seq<Seq<i32>>, n: int, mask: u64, pos: int) -> int {
    if best_upto(d, n, mask, pos, n) < INF {
        argmin_from(d, n, mask, pos, 0)
    } else {
        first_unvisited(mask, n, 0)
    }
}

/// The remainder of the reconstructed visiting order from state
/// `(mask, pos)`, ending with the return to city `0`.
pub open spec fn greedy_tail(d: Seq<Seq<i32>>, n: int, mask: u64, pos: int) -> Seq<usize>
    decreases unvisited(mask, n),
        when 0 <= n <= 57
        via greedy_tail_decreases
{
    if unvisited(mask, n) == 0 {
        seq![0usize]
    } else {
        let c = greedy_next(d, n, mask, pos);
        seq![c as usize] + greedy_tail(d, n, with_bit(mask, c as u64), c)
    }
}

#[via_fn]
proof fn greedy_tail_decreases(d: Seq<Seq<i32>>, n: int, mask: u64, pos: int) {
    if 0 <= n <= 57 && unvisited(mask, n) != 0 {
        lemma_greedy_next_unvisited(d, n, mask, pos);
        let c = greedy_next(d, n, mask, pos);
        lemma_unvisited_with_bit(mask, c as u64, n);
    }
}

/// When some city is unvisited, the greedy choice is a real, unvisited city.
pub proof fn lemma_greedy_next_unvisited(d: Seq<Seq<i32>>, n: int, mask: u64, pos: int)
    requires
        0 <= n <= 57,
        unvisited(mask, n) >= 1,
    ensures
        ({
            let c = greedy_next(d, n, mask, pos);
            0 <= c < n && !bit_set(mask, c as u64)
        }),
{
    if best_upto(d, n, mask, pos, n) < INF {
        lemma_best_achieved(d, n, mask, pos, n);
        lemma_argmin_from(d, n, mask, pos, 0);
        let c = argmin_from(d, n, mask, pos, 0);
        assert(c < n) by {
            if c == n {
                let w = choose|w: int|
                    0 <= w < n && !bit_set(mask, w as u64) && #[trigger] cand_cost(
                        d,
                        n,
                        mask,
                        pos,
                        w,
                    ) == best_upto(d, n, mask, pos, n);
                assert(!(!bit_set(mask, w as u64) && cand_cost(d, n, mask, pos, w) == best_upto(
                    d,
                    n,
                    mask,
                    pos,
                    n,
                )));
            }
        }
    } else {
        lemma_first_unvisited(mask, n, 0);
    }
}

/// The reconstructed visiting order for a whole instance: start at the
/// anchor city `0` with only it visited, then follow the greedy choices.
pub open spec fn greedy_path(d: Seq<Seq<i32>>, n: int) -> Seq<usize> {
    seq![0usize] + greedy_tail(d, n, 1u64, 0)
}

/// Sum of the edge costs along consecutive entries of `p`.
pub open spec fn path_cost(d: Seq<Seq<i32>>, p: Seq<usize>) -> int
    decreases p.len(),
{
    if p.len() <= 1 {
        0
    } else {
        d[p[0] as int][p[1] as int] + path_cost(d, p.drop_first())
    }
}

/// A syntactically valid Hamiltonian cycle on `n` cities: starts and ends
/// at city `0`, and its first `n` entries visit every city exactly once.
pub open spec fn is_tour(n: int, p: Seq<usize>) -> bool {
    &&& p.len() == n + 1
    &&& p[0] == 0usize
    &&& p[n] == 0usize
    &&& forall|i: int| 0 <= i < n ==> (#[trigger] p[i]) < n
    &&& forall|i: int, j: int| 0 <= i < j < n ==> p[i] != p[j]
    &&& forall|c: int| 0 <= c < n ==> #[trigger] p.subrange(0, n).contains(c as usize)
}

/// With no city visited, all `n` cities are unvisited.
pub proof fn lemma_unvisited_zero(n: int)
    requires
        0 <= n,
    ensures
        unvisited(0u64, n) == n,
    decreases n,
{
    if n > 0 {
        lemma_unvisited_zero(n - 1);
        let bu = (n - 1) as u64;
        assert(!bit_set(0u64, bu)) by (bit_vector);
    }
}

/// With only the anchor city visited, `n - 1` cities remain.
pub proof fn lemma_unvisited_one(n: int)
    requires
        1 <= n <= 64,
    ensures
        unvisited(1u64, n) == n - 1,
{
    lemma_unvisited_zero(n);
    assert(!bit_set(0u64, 0u64) && with_bit(0u64, 0u64) == 1u64) by (bit_vector);
    lemma_unvisited_with_bit(0u64, 0u64, n);
}

/// If every city's bit is set, the unvisited count is zero.
pub proof fn lemma_all_set_none_unvisited(mask: u64, n: int)
    requires
        forall|j: int| 0 <= j < n ==> bit_set(mask, #[trigger] (j as u64)),
    ensures
        unvisited(mask, n) == 0,
    decreases n,
{
    if n > 0 {
        lemma_all_set_none_unvisited(mask, n - 1);
    }
}

/// Every city of a full mask is visited.
pub proof fn lemma_full_bit_set(n: int, c: int)
    requires
        0 <= c < n <= 57,
    ensures
        bit_set(full_mask(n), c as u64),
{
    let nu = n as u64;
    let cu = c as u64;
    assert(bit_set(((1u64 << nu) - 1) as u64, cu)) by (bit_vector)
        requires
            cu < nu,
            nu <= 57,
    ;
    assert(full_mask(n) == ((1u64 << nu) - 1) as u64);
}

/// A city below everything unvisited, itself unvisited, is exactly what
/// `first_unvisited` finds.
pub proof fn lemma_first_unvisited_is(mask: u64, n: int, c: int, k: int)
    requires
        0 <= k <= c < n,
        !bit_set(mask, c as u64),
        forall|j: int| 0 <= j < c ==> bit_set(mask, #[trigger] (j as u64)),
    ensures
        first_unvisited(mask, n, k) == c,
    decreases n - k,
{
    if k < c {
        lemma_first_unvisited_is(mask, n, c, k + 1);
    }
}

/// An unvisited city attaining the minimum, below which no unvisited city
/// attains it, is exactly what `argmin_from` finds.
pub proof fn lemma_argmin_is(d: Seq<Seq<i32>>, n: int, mask: u64, pos: int, c: int, k: int)
    requires
        0 <= k <= c < n,
        !bit_set(mask, c as u64),
        cand_cost(d, n, mask, pos, c) == best_upto(d, n, mask, pos, n),
        forall|j: int|
            0 <= j < c && !bit_set(mask, j as u64) ==> #[trigger] cand_cost(d, n, mask, pos, j)
                > best_upto(d, n, mask, pos, n),
    ensures
        argmin_from(d, n, mask, pos, k) == c,
    decreases n - k,
{
    if k < c {
        lemma_argmin_is(d, n, mask, pos, c, k + 1);
    }
}

/// Appending a step to a path adds the closing edge to its cost.
pub proof fn lemma_path_cost_push(d: Seq<Seq<i32>>, p: Seq<usize>, x: usize)
    requires
        p.len() >= 1,
    ensures
        path_cost(d, p.push(x)) == path_cost(d, p) + d[p.last() as int][x as int],
    decreases p.len(),
{
    if p.len() == 1 {
        let q = p.push(x);
        assert(q.drop_first() =~= seq![x]);
        assert(path_cost(d, q.drop_first()) == 0);
        assert(q[0] == p[0] && q[1] == x);
    } else {
        assert(p.push(x).drop_first() =~= p.drop_first().push(x));
        lemma_path_cost_push(d, p.drop_first(), x);
        assert(p.drop_first().last() == p.last());
        assert(p.push(x)[0] == p[0] && p.push(x)[1] == p[1]);
    }
}

} // verus!
