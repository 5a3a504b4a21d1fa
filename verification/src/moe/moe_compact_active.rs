//! Active experts of sorted rows: which experts have rows, and where.
use crate::moe::gather::ascending;
use vstd::prelude::*;

verus! {

/// The end of the run of equal entries that starts at `lo`.
pub open spec fn run_end(s: Seq<u32>, m: int, lo: int, at: int) -> int
    decreases m - at,
{
    if at < m && s[at] == s[lo] {
        run_end(s, m, lo, at + 1)
    } else {
        at
    }
}

/// Where run `n` starts: each run starts where the one before it ends.
pub open spec fn run_start(s: Seq<u32>, m: int, n: int) -> int
    decreases n,
{
    if n <= 0 {
        0
    } else {
        let lo = run_start(s, m, n - 1);
        if lo < m {
            run_end(s, m, lo, lo)
        } else {
            lo
        }
    }
}

/// A run ends inside the rows and holds one value.
pub proof fn lemma_run(s: Seq<u32>, m: int, lo: int, at: int)
    requires
        0 <= lo <= at <= m,
        forall|i: int| lo <= i < at ==> #[trigger] s[i] == s[lo],
    ensures
        at <= run_end(s, m, lo, at) <= m,
        forall|i: int| lo <= i < run_end(s, m, lo, at) ==> #[trigger] s[i] == s[lo],
        run_end(s, m, lo, at) < m ==> s[run_end(s, m, lo, at)] != s[lo],
    decreases m - at,
{
    if at < m && s[at] == s[lo] {
        lemma_run(s, m, lo, at + 1);
    }
}

/// Runs are not empty, and neighbouring runs differ: the spans cut the rows into maximal
/// runs of one expert.
pub proof fn law_spans_are_maximal_runs(s: Seq<u32>, m: int, n: int)
    requires
        0 <= n,
        0 <= m,
        run_start(s, m, n) < m,
    ensures
        0 <= run_start(s, m, n) < run_start(s, m, n + 1) <= m,
        forall|i: int|
            run_start(s, m, n) <= i < run_start(s, m, n + 1) ==> #[trigger] s[i] == s[run_start(
                s,
                m,
                n,
            )],
        run_start(s, m, n + 1) < m ==> s[run_start(s, m, n + 1)] != s[run_start(s, m, n)],
    decreases n,
{
    lemma_run_start(s, m, n);
    let lo = run_start(s, m, n);
    lemma_run(s, m, lo, lo + 1);
}

/// Runs start inside the rows or at their end.
proof fn lemma_run_start(s: Seq<u32>, m: int, n: int)
    requires
        0 <= m,
    ensures
        0 <= run_start(s, m, n) <= m,
    decreases n,
{
    if n > 0 {
        lemma_run_start(s, m, n - 1);
        let lo = run_start(s, m, n - 1);
        if lo < m {
            lemma_run(s, m, lo, lo);
        }
    }
}

/// In ascending rows every active expert is listed once, in ascending order.
pub proof fn law_active_experts_ascend(s: Seq<u32>, m: int, n: int, a: int)
    requires
        0 <= m <= s.len(),
        ascending(s, m),
        0 <= a < n,
        run_start(s, m, n) < m,
    ensures
        run_start(s, m, a) < m,
        s[run_start(s, m, a)] < s[run_start(s, m, n)],
    decreases n,
{
    lemma_run_start(s, m, n - 1);
    law_spans_are_maximal_runs(s, m, n - 1);
    let (p, q) = (run_start(s, m, n - 1), run_start(s, m, n));
    assert(s[p] <= s[q]);
    if a < n - 1 {
        law_active_experts_ascend(s, m, n - 1, a);
    }
}

/// Run `n` of the first `cap` runs, where there is one, is written to slot `n`.
pub open spec fn runs_written(
    s: Seq<u32>,
    m: int,
    n: int,
    active: Seq<u32>,
    lo: Seq<u32>,
    hi: Seq<u32>,
) -> bool {
    forall|a: int|
        0 <= a < n ==> {
            &&& #[trigger] active[a] == s[run_start(s, m, a)]
            &&& lo[a] == run_start(s, m, a)
            &&& hi[a] == run_start(s, m, a + 1)
        }
}

/// `n` is the number of runs, or `cap` where there are more.
pub open spec fn is_run_count(s: Seq<u32>, m: int, cap: int, n: int) -> bool {
    &&& 0 <= n <= cap
    &&& forall|a: int| 0 <= a < n ==> #[trigger] run_start(s, m, a) < m
    &&& n < cap ==> run_start(s, m, n) >= m
}

/// The first three entries are the grid `[n_out / 32, active, 1]`.
pub open spec fn grid_written(before: Seq<u32>, after: Seq<u32>, n_out: int, n: int) -> bool {
    after == before.update(0, (n_out / 32) as u32).update(1, n as u32).update(2, 1)
}

/// Compacts sorted experts to the list of active ones with their row spans, and writes the
/// grids of the dispatches that follow: `[n_out / 32, active, 1]`.
#[allow(clippy::too_many_arguments)]
#[verifier::loop_isolation(false)]
pub fn iron_moe_compact_active_experts(
    sorted_experts: &[u32],
    active_experts: &mut Vec<u32>,
    row_lo: &mut Vec<u32>,
    row_hi: &mut Vec<u32>,
    n_active_out: &mut Vec<u32>,
    indirect_gu: &mut Vec<u32>,
    indirect_down: &mut Vec<u32>,
    m_total: u32,
    n_out_gu: u32,
    n_out_down: u32,
    n_experts_cap: u32,
)
    requires
        m_total <= sorted_experts@.len(),
        forall|n: int|
            #[trigger] is_run_count(sorted_experts@, m_total as int, n_experts_cap as int, n) ==> n
                <= old(active_experts)@.len() && n <= old(row_lo)@.len() && n <= old(row_hi)@.len(),
        old(n_active_out)@.len() >= 1,
        old(indirect_gu)@.len() >= 3,
        old(indirect_down)@.len() >= 3,
    ensures
        final(active_experts)@.len() == old(active_experts)@.len(),
        final(row_lo)@.len() == old(row_lo)@.len(),
        final(row_hi)@.len() == old(row_hi)@.len(),
        final(n_active_out)@ == old(n_active_out)@.update(0, final(n_active_out)@[0]),
        ({
            let n = final(n_active_out)@[0];
            &&& is_run_count(sorted_experts@, m_total as int, n_experts_cap as int, n as int)
            &&& runs_written(
                sorted_experts@,
                m_total as int,
                n as int,
                final(active_experts)@,
                final(row_lo)@,
                final(row_hi)@,
            )
            &&& forall|a: int|
                n <= a < old(active_experts)@.len() ==> #[trigger] final(active_experts)@[a] == old(
                    active_experts,
                )@[a]
            &&& forall|a: int|
                n <= a < old(row_lo)@.len() ==> #[trigger] final(row_lo)@[a] == old(row_lo)@[a]
            &&& forall|a: int|
                n <= a < old(row_hi)@.len() ==> #[trigger] final(row_hi)@[a] == old(row_hi)@[a]
            &&& grid_written(old(indirect_gu)@, final(indirect_gu)@, n_out_gu as int, n as int)
            &&& grid_written(
                old(indirect_down)@,
                final(indirect_down)@,
                n_out_down as int,
                n as int,
            )
        }),
{
    let ghost s = sorted_experts@;
    let ghost m = m_total as int;
    let ghost (a0, l0, h0) = (active_experts@, row_lo@, row_hi@);
    let mut n_active: u32 = 0;
    let mut i: u32 = 0;
    let mut step: u32 = 0;
    while step < n_experts_cap
        invariant
            step <= n_experts_cap,
            i <= m_total,
            i == run_start(s, m, n_active as int),
            n_active <= step,
            i < m_total ==> n_active == step,
            forall|a: int| 0 <= a < n_active ==> #[trigger] run_start(s, m, a) < m,
            active_experts@.len() == a0.len(),
            row_lo@.len() == l0.len(),
            row_hi@.len() == h0.len(),
            runs_written(s, m, n_active as int, active_experts@, row_lo@, row_hi@),
            forall|a: int| n_active <= a < a0.len() ==> #[trigger] active_experts@[a] == a0[a],
            forall|a: int| n_active <= a < l0.len() ==> #[trigger] row_lo@[a] == l0[a],
            forall|a: int| n_active <= a < h0.len() ==> #[trigger] row_hi@[a] == h0[a],
        decreases n_experts_cap - step,
    {
        if i < m_total {
            let e: u32 = sorted_experts[i as usize];
            let lo: u32 = i;
            proof {
                lemma_run(s, m, lo as int, lo + 1);
            }
            let mut j: u32 = i + 1;
            let mut inner: u32 = 0;
            proof {
                assert(run_end(s, m, lo as int, lo as int) == run_end(s, m, lo as int, lo + 1));
            }
            while inner < m_total
                invariant
                    inner <= m_total,
                    lo < j <= m_total,
                    e == s[lo as int],
                    run_end(s, m, lo as int, j as int) == run_end(s, m, lo as int, lo as int),
                    j >= lo + 1 + inner || run_end(s, m, lo as int, j as int) == j,
                decreases m_total - inner,
            {
                let cont: bool = j < m_total && sorted_experts[j as usize] == e;
                if cont {
                    j = j + 1;
                }
                inner = inner + 1;
            }
            proof {
                assert(run_start(s, m, n_active + 1) == j);
                lemma_enough_slots(s, m, n_experts_cap as int, n_active as int);
            }
            active_experts[n_active as usize] = e;
            row_lo[n_active as usize] = lo;
            row_hi[n_active as usize] = j;
            n_active = n_active + 1;
            i = j;
        }
        step = step + 1;
    }
    n_active_out[0] = n_active;
    indirect_gu[0] = n_out_gu / 32;
    indirect_gu[1] = n_active;
    indirect_gu[2] = 1;
    indirect_down[0] = n_out_down / 32;
    indirect_down[1] = n_active;
    indirect_down[2] = 1;
}

/// Where run `n` exists and the cap allows it, the run count exceeds `n`.
proof fn lemma_enough_slots(s: Seq<u32>, m: int, cap: int, n: int)
    requires
        0 <= n < cap,
        forall|a: int| 0 <= a <= n ==> #[trigger] run_start(s, m, a) < m,
    ensures
        exists|c: int| n < c && #[trigger] is_run_count(s, m, cap, c),
    decreases cap - n,
{
    if n + 1 == cap || run_start(s, m, n + 1) >= m {
        assert(is_run_count(s, m, cap, n + 1));
    } else {
        lemma_enough_slots(s, m, cap, n + 1);
    }
}

/// The spans of the active experts follow one another from row 0 on, hold their expert's rows
/// and no others, and leave no row out unless the list is full.
#[allow(clippy::too_many_arguments)]
pub proof fn law_active_spans(
    s: Seq<u32>,
    m: int,
    cap: int,
    n: int,
    active: Seq<u32>,
    lo: Seq<u32>,
    hi: Seq<u32>,
    a: int,
)
    requires
        0 <= m,
        is_run_count(s, m, cap, n),
        runs_written(s, m, n, active, lo, hi),
        0 <= a < n,
    ensures
        a == 0 ==> lo[a] == 0,
        a > 0 ==> lo[a] == hi[a - 1],
        lo[a] < hi[a] <= m,
        forall|r: int| lo[a] <= r < hi[a] ==> #[trigger] s[r] == active[a],
        hi[a] < m ==> s[hi[a] as int] != active[a],
        a == n - 1 && n < cap ==> hi[a] == m,
{
    assert(run_start(s, m, a) < m);
    law_spans_are_maximal_runs(s, m, a);
    assert(active[a] == s[run_start(s, m, a)]);
    if a > 0 {
        assert(active[a - 1] == s[run_start(s, m, a - 1)]);
    }
}

/// A grid has a column of threadgroups for every 32 outputs, a row for every active expert,
/// and one layer.
pub proof fn law_grids(before: Seq<u32>, after: Seq<u32>, n_out: int, n: int)
    requires
        grid_written(before, after, n_out, n),
        before.len() >= 3,
        0 <= n_out <= u32::MAX,
        0 <= n <= u32::MAX,
    ensures
        after.len() == before.len(),
        after[0] * 32 <= n_out < after[0] * 32 + 32,
        after[1] == n,
        after[2] == 1,
        after.skip(3) == before.skip(3),
{
    assert(after.skip(3) =~= before.skip(3));
}

} // verus!
