//! Global laws of the solver, proved once and for all: reversal symmetry
//! of path costs, the memo-table size bound, lowest-index tie-breaking,
//! optimality of the computed cost, and infeasibility for isolated cities.

use vstd::prelude::*;
use crate::model::{
    INF, bit_set, with_bit, full_mask, unvisited, matrix_wf, tsp_cost, best_upto, cand_cost,
    greedy_next, path_cost, is_tour, lemma_unvisited_with_bit, lemma_all_visited_is_full,
    lemma_full_bit_set, lemma_argmin_from, lemma_best_achieved, lemma_greedy_next_unvisited,
    lemma_best_upto_le_cand, lemma_tsp_cost_range, lemma_path_cost_push,
    lemma_all_set_none_unvisited,
};

verus! {

/// The matrix is symmetric over the first `n` cities.
pub open spec fn symmetric(d: Seq<Seq<i32>>, n: int) -> bool {
    forall|i: int, j: int| 0 <= i < n && 0 <= j < n ==> #[trigger] d[i][j] == d[j][i]
}

/// Symmetry round-trip: over a symmetric matrix, a path costs the same
/// traversed forward or in reverse.
pub proof fn lemma_path_cost_reverse(d: Seq<Seq<i32>>, n: int, p: Seq<usize>)
    requires
        symmetric(d, n),
        forall|i: int| 0 <= i < p.len() ==> (#[trigger] p[i] as int) < n,
        forall|i: int| 0 <= i < p.len() ==> 0 <= #[trigger] p[i],
    ensures
        path_cost(d, p.reverse()) == path_cost(d, p),
    decreases p.len(),
{
    if p.len() <= 1 {
        assert(p.reverse() =~= p);
    } else {
        let q = p.drop_first();
        assert forall|i: int| 0 <= i < q.len() implies (#[trigger] q[i] as int) < n by {
            assert(q[i] == p[i + 1]);
        }
        assert(p.reverse() =~= q.reverse().push(p[0]));
        lemma_path_cost_reverse(d, n, q);
        lemma_path_cost_push(d, q.reverse(), p[0]);
        assert(q.reverse().last() == q[0]);
        assert(d[p[1] as int][p[0] as int] == d[p[0] as int][p[1] as int]);
    }
}

/// Tie-break determinism: on a feasible state the greedy choice is an
/// unvisited city attaining the minimum, and no lower-indexed unvisited
/// city attains it.
pub proof fn lemma_greedy_tie_break(d: Seq<Seq<i32>>, n: int, mask: u64, pos: int)
    requires
        0 <= n <= 57,
        best_upto(d, n, mask, pos, n) < INF,
    ensures
        ({
            let c = greedy_next(d, n, mask, pos);
            let best = best_upto(d, n, mask, pos, n);
            &&& 0 <= c < n
            &&& !bit_set(mask, c as u64)
            &&& cand_cost(d, n, mask, pos, c) == best
            &&& forall|j: int|
                0 <= j < c && !bit_set(mask, j as u64) ==> #[trigger] cand_cost(d, n, mask, pos, j)
                    != best
        }),
{
    lemma_best_achieved(d, n, mask, pos, n);
    let w = choose|w: int|
        0 <= w < n && !bit_set(mask, w as u64) && #[trigger] cand_cost(d, n, mask, pos, w)
            == best_upto(d, n, mask, pos, n);
    lemma_unvisited_with_bit(mask, w as u64, n);
    lemma_greedy_next_unvisited(d, n, mask, pos);
    lemma_argmin_from(d, n, mask, pos, 0);
}

/// Bitmask of the cities listed in `q`.
pub open spec fn or_bits(q: Seq<usize>) -> u64
    decreases q.len(),
{
    if q.len() == 0 {
        0u64
    } else {
        with_bit(or_bits(q.drop_first()), q[0] as u64)
    }
}

/// Cost of visiting the cities of `q` in order, starting from `pos` and
/// closing with the edge from the last one back to city `0`.
pub open spec fn chain_cost(d: Seq<Seq<i32>>, pos: int, q: Seq<usize>) -> int
    decreases q.len(),
{
    if q.len() == 0 {
        d[pos][0] as int
    } else {
        d[pos][q[0] as int] + chain_cost(d, q[0] as int, q.drop_first())
    }
}

/// Cities listed in `q` stay within the mask `q` generates.
proof fn lemma_or_bits_le_full(q: Seq<usize>, n: int)
    requires
        1 <= n <= 57,
        forall|i: int| 0 <= i < q.len() ==> (#[trigger] q[i] as int) < n,
    ensures
        or_bits(q) <= full_mask(n),
    decreases q.len(),
{
    let nu = n as u64;
    assert(0u64 <= ((1u64 << nu) - 1) as u64) by (bit_vector);
    assert(full_mask(n) == ((1u64 << nu) - 1) as u64);
    if q.len() > 0 {
        let q2 = q.drop_first();
        assert forall|i: int| 0 <= i < q2.len() implies (#[trigger] q2[i] as int) < n by {
            assert(q2[i] == q[i + 1]);
        }
        lemma_or_bits_le_full(q2, n);
        let m = or_bits(q2);
        let cu = q[0] as u64;
        assert((m | (1u64 << cu)) <= ((1u64 << nu) - 1) as u64) by (bit_vector)
            requires
                cu < nu,
                nu <= 57,
                m <= ((1u64 << nu) - 1) as u64,
        ;
    }
}

/// Every listed city's bit is set in the generated mask.
proof fn lemma_or_bits_contains(q: Seq<usize>, x: usize)
    requires
        q.contains(x),
        (x as int) < 64,
    ensures
        bit_set(or_bits(q), x as u64),
    decreases q.len(),
{
    let xu = x as u64;
    let cu = q[0] as u64;
    let m = or_bits(q.drop_first());
    if q[0] == x {
        assert(bit_set(with_bit(m, xu), xu)) by (bit_vector)
            requires
                xu < 64,
        ;
    } else {
        let w = choose|i: int| 0 <= i < q.len() && q[i] == x;
        assert(q.drop_first()[w - 1] == x);
        assert(q.drop_first().contains(x));
        lemma_or_bits_contains(q.drop_first(), x);
        assert(bit_set(m, xu) ==> bit_set(with_bit(m, cu), xu)) by (bit_vector);
    }
}

/// The Held-Karp recurrence never exceeds the cost of any concrete way of
/// finishing the tour: visiting the not-yet-visited cities `q` in order
/// and returning home.
proof fn lemma_chain_bound(d: Seq<Seq<i32>>, n: int, mask: u64, pos: int, q: Seq<usize>)
    requires
        matrix_wf(d, n),
        0 <= pos < n,
        mask <= full_mask(n),
        forall|i: int|
            0 <= i < q.len() ==> (#[trigger] q[i] as int) < n && !bit_set(mask, q[i] as u64),
        forall|i: int, j: int| 0 <= i < j < q.len() ==> q[i] != q[j],
        (mask | or_bits(q)) == full_mask(n),
    ensures
        tsp_cost(d, n, mask, pos) <= chain_cost(d, pos, q),
    decreases q.len(),
{
    if q.len() == 0 {
        assert((mask | 0u64) == mask) by (bit_vector);
        assert(mask == full_mask(n));
    } else {
        let c = q[0] as int;
        let cu = q[0] as u64;
        let m2 = with_bit(mask, cu);
        let q2 = q.drop_first();
        let nu = n as u64;
        assert(full_mask(n) == ((1u64 << nu) - 1) as u64);
        lemma_full_bit_set(n, c);
        assert(mask != full_mask(n));
        assert((mask | (1u64 << cu)) <= ((1u64 << nu) - 1) as u64) by (bit_vector)
            requires
                cu < nu,
                nu <= 57,
                mask <= ((1u64 << nu) - 1) as u64,
        ;
        assert forall|i: int|
            0 <= i < q2.len() implies (#[trigger] q2[i] as int) < n && !bit_set(
            m2,
            q2[i] as u64,
        ) by {
            assert(q2[i] == q[i + 1]);
            let ju = q2[i] as u64;
            assert(!bit_set(mask, ju) && ju != cu ==> !bit_set(mask | (1u64 << cu), ju))
                by (bit_vector);
        }
        assert forall|i: int, j: int| 0 <= i < j < q2.len() implies q2[i] != q2[j] by {
            assert(q2[i] == q[i + 1] && q2[j] == q[j + 1]);
        }
        let ob2 = or_bits(q2);
        assert(((mask | (1u64 << cu)) | ob2) == (mask | (ob2 | (1u64 << cu)))) by (bit_vector);
        assert(or_bits(q) == (ob2 | (1u64 << cu)));
        assert((m2 | or_bits(q2)) == full_mask(n));
        lemma_chain_bound(d, n, m2, c, q2);
        lemma_best_upto_le_cand(d, n, mask, pos, c, n);
        assert(chain_cost(d, pos, q) == d[pos][c] + chain_cost(d, c, q2));
        assert(tsp_cost(d, n, mask, pos) <= cand_cost(d, n, mask, pos, c));
    }
}

/// A closed walk's edge sum equals the chain cost of its interior.
proof fn lemma_path_cost_as_chain(d: Seq<Seq<i32>>, p: Seq<usize>)
    requires
        p.len() >= 2,
        p.last() == 0usize,
    ensures
        path_cost(d, p) == chain_cost(d, p[0] as int, p.subrange(1, p.len() - 1)),
    decreases p.len(),
{
    if p.len() == 2 {
        assert(p.subrange(1, 1) =~= Seq::<usize>::empty());
        assert(p.drop_first() =~= seq![p[1]]);
        assert(path_cost(d, p.drop_first()) == 0);
        assert(p[1] == 0usize);
        assert(chain_cost(d, p[0] as int, p.subrange(1, 1)) == d[p[0] as int][0] as int);
    } else {
        let pd = p.drop_first();
        assert(pd.last() == 0usize);
        assert(pd.len() >= 2);
        lemma_path_cost_as_chain(d, pd);
        assert(path_cost(d, p) == d[p[0] as int][p[1] as int] + path_cost(d, pd));
        assert(pd[0] == p[1]);
        let q = p.subrange(1, p.len() - 1);
        assert(pd.subrange(1, pd.len() - 1) =~= q.drop_first());
        assert(q[0] == p[1]);
        assert(chain_cost(d, p[0] as int, q) == d[p[0] as int][p[1] as int] + chain_cost(
            d,
            p[1] as int,
            q.drop_first(),
        ));
    }
}

/// Optimality lower bound: the solver's computed cost from the initial
/// state never exceeds the cost of any Hamiltonian cycle, so together
/// with the tour `solve` returns it is the exact minimum over all tours.
pub proof fn lemma_cost_lower_bound(d: Seq<Seq<i32>>, n: int, p: Seq<usize>)
    requires
        matrix_wf(d, n),
        n >= 2,
        is_tour(n, p),
    ensures
        tsp_cost(d, n, 1u64, 0) <= path_cost(d, p),
{
    let q = p.subrange(1, n);
    let nu = n as u64;
    assert(full_mask(n) == ((1u64 << nu) - 1) as u64);
    assert forall|i: int|
        0 <= i < q.len() implies (#[trigger] q[i] as int) < n && !bit_set(1u64, q[i] as u64) by {
        assert(q[i] == p[i + 1]);
        assert(p[i + 1] != p[0]);
        let ju = q[i] as u64;
        assert(1 <= ju < 64 ==> !bit_set(1u64, ju)) by (bit_vector);
    }
    assert forall|i: int, j: int| 0 <= i < j < q.len() implies q[i] != q[j] by {
        assert(q[i] == p[i + 1] && q[j] == p[j + 1]);
    }
    // Every city's bit is set in `1 | or_bits(q)`, so it is the full mask.
    lemma_or_bits_le_full(q, n);
    let united = 1u64 | or_bits(q);
    assert forall|c: int| 0 <= c < n implies bit_set(united, #[trigger] (c as u64)) by {
        let ob = or_bits(q);
        if c == 0 {
            assert(bit_set(1u64 | ob, 0u64)) by (bit_vector);
            assert(united == (1u64 | ob));
        } else {
            assert(p.subrange(0, n).contains(c as usize));
            let w = choose|i: int| 0 <= i < n && p.subrange(0, n)[i] == c as usize;
            assert(p[w] == c as usize);
            assert(w != 0);
            assert(q[w - 1] == c as usize);
            assert(q.contains(c as usize));
            lemma_or_bits_contains(q, c as usize);
            let ccu = c as u64;
            assert(bit_set(ob, ccu) ==> bit_set(1u64 | ob, ccu)) by (bit_vector);
        }
    }
    assert forall|j: int| 0 <= j < n implies bit_set(united, #[trigger] (j as u64)) by {}
    lemma_all_set_none_unvisited(united, n);
    let ob = or_bits(q);
    assert((1u64 | ob) <= ((1u64 << nu) - 1) as u64) by (bit_vector)
        requires
            1 <= nu <= 57,
            ob <= ((1u64 << nu) - 1) as u64,
    ;
    lemma_all_visited_is_full(united, n);
    assert(bit_set(1u64, 0u64)) by (bit_vector);
    assert(1u64 <= ((1u64 << nu) - 1) as u64) by (bit_vector)
        requires
            1 <= nu <= 57,
    ;
    lemma_chain_bound(d, n, 1u64, 0, q);
    lemma_path_cost_as_chain(d, p);
    assert(p.subrange(1, p.len() - 1) =~= q);
}

/// A city is isolated when every edge into or out of it is the sentinel.
pub open spec fn isolated(d: Seq<Seq<i32>>, n: int, k: int) -> bool {
    &&& forall|j: int| 0 <= j < n && j != k ==> #[trigger] d[k][j] == INF
    &&& forall|j: int| 0 <= j < n && j != k ==> #[trigger] d[j][k] == INF
}

/// If every unvisited candidate of a state costs at least `INF`, the
/// state's minimum is exactly `INF`.
proof fn lemma_best_upto_all_inf(d: Seq<Seq<i32>>, n: int, mask: u64, pos: int, kidx: int)
    requires
        0 <= n <= 57,
        kidx <= n,
        forall|c: int|
            0 <= c < kidx && !bit_set(mask, c as u64) ==> #[trigger] cand_cost(d, n, mask, pos, c)
                >= INF,
    ensures
        best_upto(d, n, mask, pos, kidx) == INF,
    decreases kidx,
{
    if kidx > 0 {
        lemma_best_upto_all_inf(d, n, mask, pos, kidx - 1);
        if !bit_set(mask, (kidx - 1) as u64) {
            assert(cand_cost(d, n, mask, pos, kidx - 1) >= INF);
            assert(cand_cost(d, n, mask, pos, kidx - 1) == d[pos][kidx - 1] + tsp_cost(
                d,
                n,
                with_bit(mask, (kidx - 1) as u64),
                kidx - 1,
            ));
        }
    }
}

/// From any state in which the isolated city `k` is still unvisited and
/// the tour stands elsewhere, no finite completion exists.
proof fn lemma_isolated_state(d: Seq<Seq<i32>>, n: int, k: int, mask: u64, pos: int)
    requires
        matrix_wf(d, n),
        0 <= k < n,
        isolated(d, n, k),
        0 <= pos < n,
        pos != k,
        mask <= full_mask(n),
        !bit_set(mask, k as u64),
    ensures
        tsp_cost(d, n, mask, pos) == INF,
    decreases unvisited(mask, n),
{
    lemma_full_bit_set(n, k);
    assert(mask != full_mask(n));
    lemma_unvisited_with_bit(mask, k as u64, n);
    let nu = n as u64;
    assert(full_mask(n) == ((1u64 << nu) - 1) as u64);
    assert forall|c: int|
        0 <= c < n && !bit_set(mask, c as u64) implies #[trigger] cand_cost(d, n, mask, pos, c)
        >= INF by {
        let cu = c as u64;
        let m2 = with_bit(mask, cu);
        if c == k {
            lemma_tsp_cost_range(d, n, m2, c);
            assert(d[k][pos] == INF && d[pos][k] == INF);
            assert(d[pos][c] == INF);
        } else {
            assert((mask | (1u64 << cu)) <= ((1u64 << nu) - 1) as u64) by (bit_vector)
                requires
                    cu < nu,
                    nu <= 57,
                    mask <= ((1u64 << nu) - 1) as u64,
            ;
            let ku = k as u64;
            assert(!bit_set(mask, ku) && ku != cu ==> !bit_set(mask | (1u64 << cu), ku))
                by (bit_vector);
            lemma_unvisited_with_bit(mask, cu, n);
            lemma_isolated_state(d, n, k, m2, c);
        }
    }
    lemma_best_upto_all_inf(d, n, mask, pos, n);
}

/// Infeasibility detection: a graph with an isolated city admits no
/// finite tour, so the cost from the initial state is the sentinel.
pub proof fn lemma_isolated_infeasible(d: Seq<Seq<i32>>, n: int, k: int)
    requires
        matrix_wf(d, n),
        n >= 2,
        0 <= k < n,
        isolated(d, n, k),
    ensures
        tsp_cost(d, n, 1u64, 0) >= INF,
{
    let nu = n as u64;
    assert(full_mask(n) == ((1u64 << nu) - 1) as u64);
    if k == 0 {
        lemma_full_bit_set(n, 1);
        assert(!bit_set(1u64, 1u64)) by (bit_vector);
        assert(1u64 != full_mask(n));
        assert forall|c: int|
            0 <= c < n && !bit_set(1u64, c as u64) implies #[trigger] cand_cost(d, n, 1u64, 0, c)
            >= INF by {
            let cu = c as u64;
            assert(!bit_set(1u64, cu) ==> cu != 0) by (bit_vector);
            lemma_tsp_cost_range(d, n, with_bit(1u64, cu), c);
            assert(d[k][c] == INF && d[c][k] == INF);
            assert(d[0][c] == INF);
        }
        lemma_best_upto_all_inf(d, n, 1u64, 0, n);
    } else {
        let ku = k as u64;
        assert(1 <= ku < 64);
        assert(!bit_set(1u64, ku)) by (bit_vector)
            requires
                1 <= ku < 64,
        ;
        assert(1u64 <= ((1u64 << nu) - 1) as u64) by (bit_vector)
            requires
                1 <= nu <= 57,
        ;
        lemma_isolated_state(d, n, k, 1u64, 0);
    }
}

} // verus!
