//! Tile plans: how the expert-sorted rows are cut into single-expert tiles.
use vstd::prelude::*;

verus! {

/// One tile of a plan.
pub struct Tile {
    pub expert: int,
    pub start: int,
    pub count: int,
}

/// `n` tiles of height `bm` over the `count` rows of an expert that start at `base`.
pub open spec fn tiles_of(expert: int, base: int, count: int, n: int, bm: int) -> Seq<Tile> {
    Seq::new(
        n as nat,
        |j: int|
            Tile {
                expert,
                start: base + j * bm,
                count: if count - j * bm < bm {
                    count - j * bm
                } else {
                    bm
                },
            },
    )
}

/// The tiles of experts `0..n` one after the other. Expert `e` has `count(e)` rows from
/// `base(e)` on, cut into `per(count(e))` tiles.
pub open spec fn plan(
    base: spec_fn(int) -> int,
    count: spec_fn(int) -> int,
    per: spec_fn(int) -> int,
    bm: int,
    n: int,
) -> Seq<Tile>
    decreases n,
{
    if n <= 0 {
        Seq::empty()
    } else {
        plan(base, count, per, bm, n - 1) + tiles_of(
            n - 1,
            base(n - 1),
            count(n - 1),
            per(count(n - 1)),
            bm,
        )
    }
}

/// As many tiles as it takes to hold all rows.
pub open spec fn all_tiles(bm: int) -> spec_fn(int) -> int {
    |count: int| (count + bm - 1) / bm
}

/// As many 32-row tiles as hold all rows but a remainder of 1 to 16.
pub open spec fn own_tiles() -> spec_fn(int) -> int {
    |count: int|
        count / 32 + (if count % 32 > 16 {
            1int
        } else {
            0int
        })
}

/// The rows of experts `0..e`.
pub open spec fn rows_before(count: spec_fn(int) -> int, e: int) -> int
    decreases e,
{
    if e <= 0 {
        0
    } else {
        rows_before(count, e - 1) + count(e - 1)
    }
}

/// [`rows_before`] as a function.
pub open spec fn stacked(count: spec_fn(int) -> int) -> spec_fn(int) -> int {
    |e: int| rows_before(count, e)
}

/// The first `p.len()` entries of the three buffers hold the plan `p`.
pub open spec fn holds_plan(
    expert: Seq<u32>,
    start: Seq<u32>,
    count: Seq<u32>,
    p: Seq<Tile>,
) -> bool {
    &&& p.len() <= expert.len()
    &&& p.len() <= start.len()
    &&& p.len() <= count.len()
    &&& forall|t: int|
        0 <= t < p.len() ==> {
            &&& #[trigger] expert[t] == p[t].expert
            &&& start[t] == p[t].start
            &&& count[t] == p[t].count
        }
}

/// How many of the first `m` entries lie below `key`.
pub open spec fn below(s: Seq<u32>, m: int, key: int) -> int
    decreases m,
{
    if m <= 0 {
        0
    } else {
        below(s, m - 1, key) + (if s[m - 1] < key {
            1int
        } else {
            0int
        })
    }
}

/// The first row of each expert in sorted rows.
pub open spec fn sorted_base(s: Seq<u32>, m: int) -> spec_fn(int) -> int {
    |e: int| below(s, m, e)
}

/// The number of rows of each expert in sorted rows.
pub open spec fn sorted_count(s: Seq<u32>, m: int) -> spec_fn(int) -> int {
    |e: int| below(s, m, e + 1) - below(s, m, e)
}

/// A buffer as a function of the expert.
pub open spec fn entries(s: Seq<u32>) -> spec_fn(int) -> int {
    |e: int| s[e] as int
}

/// The host's row counts as a function of the expert.
pub open spec fn sizes(s: Seq<usize>) -> spec_fn(int) -> int {
    |e: int| s[e] as int
}

/// What a split leaves in the place of a split point.
pub proof fn lemma_below(s: Seq<u32>, m: int, key: int, p: int)
    requires
        0 <= p <= m,
        forall|r: int| 0 <= r < p ==> #[trigger] s[r] < key,
        forall|r: int| p <= r < m ==> #[trigger] s[r] >= key,
    ensures
        below(s, m, key) == p,
    decreases m,
{
    if m > p {
        lemma_below(s, m - 1, key, p);
    } else if m > 0 {
        lemma_below(s, m - 1, key, p - 1);
    }
}

/// Counts below a key are monotone in the key and bounded by the number of entries.
pub proof fn lemma_below_mono(s: Seq<u32>, m: int, a: int, b: int)
    requires
        0 <= m,
        a <= b,
    ensures
        0 <= below(s, m, a) <= below(s, m, b) <= m,
    decreases m,
{
    if m > 0 {
        lemma_below_mono(s, m - 1, a, b);
    }
}

/// A plan grows with the number of experts.
pub proof fn lemma_plan_grows(
    base: spec_fn(int) -> int,
    count: spec_fn(int) -> int,
    per: spec_fn(int) -> int,
    bm: int,
    a: int,
    b: int,
)
    requires
        a <= b,
    ensures
        plan(base, count, per, bm, a).len() <= plan(base, count, per, bm, b).len(),
    decreases b - a,
{
    if a < b && b > 0 {
        lemma_plan_grows(base, count, per, bm, a, b - 1);
    }
}

/// Plans over the same rows are the same plan.
pub proof fn lemma_plan_same(
    base: spec_fn(int) -> int,
    count: spec_fn(int) -> int,
    base2: spec_fn(int) -> int,
    count2: spec_fn(int) -> int,
    per: spec_fn(int) -> int,
    bm: int,
    n: int,
)
    requires
        forall|e: int| 0 <= e < n ==> #[trigger] base(e) == base2(e),
        forall|e: int| 0 <= e < n ==> #[trigger] count(e) == count2(e),
    ensures
        plan(base, count, per, bm, n) == plan(base2, count2, per, bm, n),
    decreases n,
{
    if n > 0 {
        lemma_plan_same(base, count, base2, count2, per, bm, n - 1);
        assert(base(n - 1) == base2(n - 1) && count(n - 1) == count2(n - 1));
    }
}

/// The tiles follow one another without a gap, from row 0 to row `rows`.
pub open spec fn contiguous(p: Seq<Tile>, rows: int) -> bool {
    &&& p.len() == 0 ==> rows == 0
    &&& p.len() > 0 ==> p[0].start == 0 && p.last().start + p.last().count == rows
    &&& forall|t: int, u: int|
        0 <= t && u == t + 1 && u < p.len() ==> #[trigger] p[t].start + p[t].count == (
        #[trigger] p[u]).start
}

/// `ceil(count / bm)` tiles hold `count` rows and no more than one of them is short.
pub proof fn lemma_all_tiles(count: int, bm: int)
    requires
        0 <= count,
        0 < bm,
    ensures
        ({
            let n = (all_tiles(bm))(count);
            &&& 0 <= n
            &&& n == 0 <==> count == 0
            &&& n > 0 ==> (n - 1) * bm < count <= n * bm
        }),
{
    let n = (count + bm - 1) / bm;
    vstd::arithmetic::div_mod::lemma_fundamental_div_mod(count + bm - 1, bm);
    let r = (count + bm - 1) % bm;
    assert(0 <= n && (n == 0 <==> count == 0) && (n > 0 ==> (n - 1) * bm < count) && count <= n
        * bm) by (nonlinear_arith)
        requires
            count + bm - 1 == bm * n + r,
            0 <= r < bm,
            0 <= count,
    ;
}

/// Tile `j` of `ceil(count / bm)`.
proof fn lemma_tile(expert: int, base: int, count: int, bm: int, j: int)
    requires
        0 <= count,
        0 < bm,
        0 <= j < (all_tiles(bm))(count),
    ensures
        ({
            let n = (all_tiles(bm))(count);
            let t = tiles_of(expert, base, count, n, bm)[j];
            &&& t.expert == expert
            &&& t.start == base + j * bm
            &&& 1 <= t.count <= bm
            &&& j < n - 1 ==> t.count == bm
            &&& j == n - 1 ==> t.start + t.count == base + count
            &&& base <= t.start
            &&& t.start + t.count <= base + count
        }),
{
    lemma_all_tiles(count, bm);
    let n = (all_tiles(bm))(count);
    assert(j < n - 1 ==> j * bm + bm <= (n - 1) * bm) by (nonlinear_arith)
        requires
            0 < bm,
    ;
    assert(j * bm <= (n - 1) * bm) by (nonlinear_arith)
        requires
            j <= n - 1,
            0 < bm,
    ;
    assert(0 <= j * bm) by (nonlinear_arith)
        requires
            0 <= j,
            0 < bm,
    ;
    assert(n * bm == (n - 1) * bm + bm) by (nonlinear_arith);
}

/// No expert has fewer than no rows.
pub open spec fn counted(count: spec_fn(int) -> int, n: int) -> bool {
    forall|e: int| 0 <= e < n ==> 0 <= #[trigger] count(e)
}

/// The plan that takes `ceil(count / bm)` tiles of every expert.
pub open spec fn full_plan(count: spec_fn(int) -> int, bm: int, n: int) -> Seq<Tile> {
    plan(stacked(count), count, all_tiles(bm), bm, n)
}

/// Every tile of a full plan has 1 to `bm` rows and belongs to an expert that has rows: an
/// expert without rows contributes no tile.
pub proof fn law_tiles_are_filled(count: spec_fn(int) -> int, bm: int, n: int, t: int)
    requires
        0 < bm,
        counted(count, n),
        0 <= t < full_plan(count, bm, n).len(),
    ensures
        ({
            let tile = full_plan(count, bm, n)[t];
            &&& 1 <= tile.count <= bm
            &&& 0 <= tile.expert < n
            &&& count(tile.expert) > 0
        }),
    decreases n,
{
    let before = full_plan(count, bm, n - 1);
    if t < before.len() {
        law_tiles_are_filled(count, bm, n - 1, t);
    } else {
        assert(0 <= count(n - 1));
        lemma_all_tiles(count(n - 1), bm);
        lemma_tile(
            n - 1,
            rows_before(count, n - 1),
            count(n - 1),
            bm,
            t - before.len(),
        );
    }
}

/// Every row of a tile belongs to the tile's expert.
pub proof fn law_tiles_are_single_expert(count: spec_fn(int) -> int, bm: int, n: int, t: int)
    requires
        0 < bm,
        counted(count, n),
        0 <= t < full_plan(count, bm, n).len(),
    ensures
        ({
            let tile = full_plan(count, bm, n)[t];
            &&& rows_before(count, tile.expert) <= tile.start
            &&& tile.start + tile.count <= rows_before(count, tile.expert + 1)
        }),
    decreases n,
{
    let before = full_plan(count, bm, n - 1);
    if t < before.len() {
        law_tiles_are_single_expert(count, bm, n - 1, t);
    } else {
        assert(0 <= count(n - 1));
        lemma_all_tiles(count(n - 1), bm);
        lemma_tile(
            n - 1,
            rows_before(count, n - 1),
            count(n - 1),
            bm,
            t - before.len(),
        );
    }
}

/// Tiles come in ascending expert order.
pub proof fn law_experts_ascend(count: spec_fn(int) -> int, bm: int, n: int, t: int, u: int)
    requires
        0 < bm,
        counted(count, n),
        0 <= t <= u < full_plan(count, bm, n).len(),
    ensures
        full_plan(count, bm, n)[t].expert <= full_plan(count, bm, n)[u].expert,
    decreases n,
{
    let before = full_plan(count, bm, n - 1);
    if u < before.len() {
        law_experts_ascend(count, bm, n - 1, t, u);
    } else if t < before.len() {
        law_tiles_are_filled(count, bm, n - 1, t);
    }
}

/// The tiles of a full plan follow one another without a gap and end with the last row.
pub proof fn law_tiles_are_contiguous(count: spec_fn(int) -> int, bm: int, n: int)
    requires
        0 < bm,
        0 <= n,
        counted(count, n),
    ensures
        contiguous(full_plan(count, bm, n), rows_before(count, n)),
    decreases n,
{
    if n > 0 {
        law_tiles_are_contiguous(count, bm, n - 1);
        let before = full_plan(count, bm, n - 1);
        let (base, c) = (rows_before(count, n - 1), count(n - 1));
        assert(0 <= count(n - 1));
        lemma_all_tiles(c, bm);
        let k = (all_tiles(bm))(c);
        let mine = tiles_of(n - 1, base, c, k, bm);
        let p = full_plan(count, bm, n);
        assert(p == before + mine);
        assert forall|t: int, u: int| 0 <= t && u == t + 1 && u < p.len() implies #[trigger] p[t].start
            + p[t].count == (#[trigger] p[u]).start by {
            if u < before.len() {
                assert(p[t] == before[t] && p[u] == before[u]);
                assert(before[t].start + before[t].count == before[u].start);
            } else if t >= before.len() {
                let j = t - before.len();
                assert(p[t] == mine[j] && p[u] == mine[j + 1]);
                lemma_tile(n - 1, base, c, bm, j);
                lemma_tile(n - 1, base, c, bm, j + 1);
                assert((j + 1) * bm == j * bm + bm) by (nonlinear_arith);
            } else {
                assert(p[t] == before.last() && p[u] == mine[0]);
                lemma_tile(n - 1, base, c, bm, 0);
                assert(0 * bm == 0) by (nonlinear_arith);
            }
        }
        if k > 0 {
            lemma_tile(n - 1, base, c, bm, k - 1);
            lemma_tile(n - 1, base, c, bm, 0);
            assert(p.last() == mine[k - 1]);
            if before.len() == 0 {
                assert(p[0] == mine[0]);
            }
        } else {
            assert(p =~= before);
        }
    }
}

/// The tiles of a plan that comes behind `experts` other experts with `rows` rows.
pub open spec fn shifted(p: Seq<Tile>, experts: int, rows: int) -> Seq<Tile> {
    Seq::new(
        p.len(),
        |t: int|
            Tile { expert: p[t].expert + experts, start: p[t].start + rows, count: p[t].count },
    )
}

/// `count` has the row counts `first` of `n` experts and, behind them, `second` of `m` more.
pub open spec fn joins(
    count: spec_fn(int) -> int,
    first: spec_fn(int) -> int,
    n: int,
    second: spec_fn(int) -> int,
    m: int,
) -> bool {
    &&& forall|e: int| 0 <= e < n ==> #[trigger] count(e) == first(e)
    &&& forall|e: int| 0 <= e < m ==> count(n + e) == #[trigger] second(e)
}

/// The full plan of two lists of row counts joined is the plan of the first and behind it the
/// plan of the second, its owners shifted by the number of experts of the first and its starts
/// by their rows.
pub proof fn law_plans_join(
    count: spec_fn(int) -> int,
    first: spec_fn(int) -> int,
    n: int,
    second: spec_fn(int) -> int,
    m: int,
    bm: int,
)
    requires
        0 < bm,
        0 <= n,
        0 <= m,
        joins(count, first, n, second, m),
    ensures
        full_plan(count, bm, n + m) == full_plan(first, bm, n) + shifted(
            full_plan(second, bm, m),
            n,
            rows_before(first, n),
        ),
        rows_before(count, n + m) == rows_before(first, n) + rows_before(second, m),
    decreases m,
{
    let rows = rows_before(first, n);
    let front = full_plan(first, bm, n);
    let back = shifted(full_plan(second, bm, m), n, rows);
    if m > 0 {
        law_plans_join(count, first, n, second, m - 1, bm);
        let c = second(m - 1);
        assert(count(n + (m - 1)) == second(m - 1));
        let k = (all_tiles(bm))(c);
        let own = tiles_of(m - 1, rows_before(second, m - 1), c, k, bm);
        let mine = tiles_of(n + m - 1, rows_before(count, n + m - 1), c, k, bm);
        assert(mine =~= shifted(own, n, rows));
        assert(back =~= shifted(full_plan(second, bm, m - 1), n, rows) + mine);
        assert(full_plan(count, bm, n + m) =~= front + back);
    } else {
        lemma_rows_same(count, first, n);
        assert forall|e: int| 0 <= e < n implies #[trigger] (stacked(count))(e) == (stacked(first))(
            e,
        ) by {
            lemma_rows_same(count, first, e);
        }
        lemma_plan_same(stacked(count), count, stacked(first), first, all_tiles(bm), bm, n);
        assert(front + back =~= front);
    }
}

/// The same row counts have the same sums.
proof fn lemma_rows_same(a: spec_fn(int) -> int, b: spec_fn(int) -> int, n: int)
    requires
        forall|e: int| 0 <= e < n ==> #[trigger] a(e) == b(e),
    ensures
        rows_before(a, n) == rows_before(b, n),
    decreases n,
{
    if n > 0 {
        lemma_rows_same(a, b, n - 1);
        assert(a(n - 1) == b(n - 1));
    }
}

/// The end of tile `t` is at most the start of any later tile.
proof fn lemma_later_tile(p: Seq<Tile>, rows: int, t: int, u: int)
    requires
        contiguous(p, rows),
        forall|i: int| 0 <= i < p.len() ==> 0 <= #[trigger] p[i].count,
        0 <= t < u < p.len(),
    ensures
        p[t].start + p[t].count <= p[u].start,
    decreases u - t,
{
    if t + 1 < u {
        lemma_later_tile(p, rows, t, u - 1);
        assert(p[u - 1].start + p[u - 1].count == p[u].start);
        assert(0 <= p[u - 1].count);
    } else {
        assert(p[t].start + p[t].count == p[u].start);
    }
}

/// Every row lies in some tile of a contiguous plan.
proof fn lemma_some_tile(p: Seq<Tile>, rows: int, n: int, r: int) -> (t: int)
    requires
        contiguous(p, rows),
        0 < n <= p.len(),
        0 <= r < p[n - 1].start + p[n - 1].count,
    ensures
        0 <= t < n,
        p[t].start <= r < p[t].start + p[t].count,
    decreases n,
{
    if r >= p[n - 1].start {
        n - 1
    } else {
        assert(p[n - 2].start + p[n - 2].count == p[n - 1].start);
        lemma_some_tile(p, rows, n - 1, r)
    }
}

/// Every row of the plan's experts lies in exactly one tile.
pub proof fn law_every_row_in_one_tile(count: spec_fn(int) -> int, bm: int, n: int, r: int) -> (t:
    int)
    requires
        0 < bm,
        0 <= n,
        counted(count, n),
        0 <= r < rows_before(count, n),
    ensures
        ({
            let p = full_plan(count, bm, n);
            &&& 0 <= t < p.len()
            &&& p[t].start <= r < p[t].start + p[t].count
            &&& forall|u: int|
                0 <= u < p.len() && p[u].start <= r < (#[trigger] p[u]).start + p[u].count ==> u
                    == t
        }),
{
    law_tiles_are_contiguous(count, bm, n);
    let p = full_plan(count, bm, n);
    let t = lemma_some_tile(p, rows_before(count, n), p.len() as int, r);
    assert forall|i: int| 0 <= i < p.len() implies 0 <= #[trigger] p[i].count by {
        law_tiles_are_filled(count, bm, n, i);
    }
    assert forall|u: int|
        0 <= u < p.len() && p[u].start <= r < (#[trigger] p[u]).start + p[u].count implies u == t by {
        if u < t {
            lemma_later_tile(p, rows_before(count, n), u, t);
        } else if t < u {
            lemma_later_tile(p, rows_before(count, n), t, u);
        }
    }
    t
}

/// `ceil(rows / bm) + n` entries hold the plan of `n` experts, whatever their row counts.
pub proof fn law_capacity_bounds_tiles(count: spec_fn(int) -> int, bm: int, n: int)
    requires
        0 < bm,
        0 <= n,
        counted(count, n),
    ensures
        full_plan(count, bm, n).len() <= (rows_before(count, n) + bm - 1) / bm + n,
        bm * full_plan(count, bm, n).len() <= rows_before(count, n) + n * (bm - 1),
        0 <= rows_before(count, n),
    decreases n,
{
    if n > 0 {
        law_capacity_bounds_tiles(count, bm, n - 1);
        let c = count(n - 1);
        assert(0 <= count(n - 1));
        lemma_all_tiles(c, bm);
        let k = (all_tiles(bm))(c);
        let len = full_plan(count, bm, n - 1).len() as int;
        assert(full_plan(count, bm, n).len() == len + k);
        assert(bm * k <= c + bm - 1) by (nonlinear_arith)
            requires
                k == 0 || (k - 1) * bm < c,
                0 <= c,
                0 < bm,
        ;
        assert(bm * (len + k) == bm * len + bm * k && n * (bm - 1) == (n - 1) * (bm - 1) + (bm - 1))
            by (nonlinear_arith);
    } else {
        assert(bm * 0 == 0 && 0 * (bm - 1) == 0) by (nonlinear_arith);
    }
    let (len, rows) = (full_plan(count, bm, n).len() as int, rows_before(count, n));
    let top = (rows + bm - 1) / bm;
    vstd::arithmetic::div_mod::lemma_fundamental_div_mod(rows + bm - 1, bm);
    assert(len <= top + n) by (nonlinear_arith)
        requires
            bm * len <= rows + n * (bm - 1),
            rows <= bm * top,
            0 <= n,
            0 < bm,
    ;
}

/// The plan of sorted rows is the plan of their counts.
pub proof fn law_sorted_plan_is_counted_plan(
    s: Seq<u32>,
    m: int,
    per: spec_fn(int) -> int,
    bm: int,
    n: int,
)
    requires
        0 <= m,
        0 <= n,
    ensures
        plan(sorted_base(s, m), sorted_count(s, m), per, bm, n) == plan(
            stacked(sorted_count(s, m)),
            sorted_count(s, m),
            per,
            bm,
            n,
        ),
        counted(sorted_count(s, m), n),
        rows_before(sorted_count(s, m), n) == below(s, m, n),
{
    let (base, count) = (sorted_base(s, m), sorted_count(s, m));
    assert forall|e: int| 0 <= e < n implies #[trigger] base(e) == (stacked(count))(e) by {
        lemma_stacked_sorted(s, m, e);
    }
    lemma_stacked_sorted(s, m, n);
    assert forall|e: int| 0 <= e < n implies 0 <= #[trigger] count(e) by {
        lemma_below_mono(s, m, e, e + 1);
    }
    lemma_plan_same(base, count, stacked(count), count, per, bm, n);
}

/// Row counts of sorted rows add up to the rows below.
proof fn lemma_stacked_sorted(s: Seq<u32>, m: int, e: int)
    requires
        0 <= m,
        0 <= e,
    ensures
        rows_before(sorted_count(s, m), e) == below(s, m, e),
    decreases e,
{
    if e > 0 {
        lemma_stacked_sorted(s, m, e - 1);
    } else {
        lemma_below(s, m, 0, 0);
    }
}

/// A tile of sorted rows holds rows of its expert only.
pub proof fn law_sorted_tile_rows(s: Seq<u32>, m: int, bm: int, n: int, t: int, r: int)
    requires
        0 < bm,
        0 <= m <= s.len(),
        0 <= n,
        forall|i: int, j: int| 0 <= i <= j < m ==> #[trigger] s[i] <= #[trigger] s[j],
        ({
            let p = plan(sorted_base(s, m), sorted_count(s, m), all_tiles(bm), bm, n);
            &&& 0 <= t < p.len()
            &&& p[t].start <= r < p[t].start + p[t].count
        }),
    ensures
        0 <= r < m,
        s[r] == plan(sorted_base(s, m), sorted_count(s, m), all_tiles(bm), bm, n)[t].expert,
{
    let count = sorted_count(s, m);
    law_sorted_plan_is_counted_plan(s, m, all_tiles(bm), bm, n);
    law_tiles_are_single_expert(count, bm, n, t);
    law_tiles_are_filled(count, bm, n, t);
    let e = full_plan(count, bm, n)[t].expert;
    lemma_stacked_sorted(s, m, e);
    lemma_stacked_sorted(s, m, e + 1);
    lemma_below_mono(s, m, e, e + 1);
    lemma_sorted_below(s, m, e, r);
    lemma_sorted_below(s, m, e + 1, r);
}

/// In ascending rows, the rows below a key come first.
proof fn lemma_sorted_below(s: Seq<u32>, m: int, key: int, r: int)
    requires
        0 <= m <= s.len(),
        forall|i: int, j: int| 0 <= i <= j < m ==> #[trigger] s[i] <= #[trigger] s[j],
        0 <= r < m,
    ensures
        s[r] < key <==> r < below(s, m, key),
    decreases m,
{
    lemma_below_mono(s, m - 1, key, key);
    if r < m - 1 {
        lemma_sorted_below(s, m - 1, key, r);
        if s[m - 1] < key {
            assert(s[r] <= s[m - 1]);
            lemma_all_below(s, m - 1, key);
        }
    } else if s[m - 1] < key {
        lemma_all_below(s, m - 1, key);
    }
}

/// Where all rows lie below a key, so many do.
proof fn lemma_all_below(s: Seq<u32>, m: int, key: int)
    requires
        0 <= m < s.len(),
        forall|i: int, j: int| 0 <= i <= j <= m ==> #[trigger] s[i] <= #[trigger] s[j],
        s[m] < key,
    ensures
        below(s, m, key) == m,
    decreases m,
{
    if m > 0 {
        assert(s[m - 1] <= s[m]);
        assert forall|i: int, j: int| 0 <= i <= j <= m - 1 implies #[trigger] s[i]
            <= #[trigger] s[j] by {
        }
        lemma_all_below(s, m - 1, key);
    }
}

/// The own cut takes as many tiles as the full one, but one fewer where the remainder is 1
/// to 16 rows.
pub proof fn law_own_tiles(count: int)
    requires
        0 <= count,
    ensures
        (own_tiles())(count) == (all_tiles(32))(count) - (if 1 <= count % 32 <= 16 {
            1int
        } else {
            0int
        }),
        (own_tiles())(count) <= (all_tiles(32))(count),
{
}

/// Every tile of the own cut has 32 rows, or the 17 to 31 rows of a remainder; what it
/// leaves out of an expert's rows is the remainder of 1 to 16.
pub proof fn law_own_tiles_are_full(expert: int, base: int, count: int, j: int)
    requires
        0 <= count,
        0 <= j < (own_tiles())(count),
    ensures
        ({
            let n = (own_tiles())(count);
            let t = tiles_of(expert, base, count, n, 32);
            &&& t[j].count == 32 || j == n - 1 && 17 <= t[j].count <= 31
            &&& t[n - 1].start + t[n - 1].count == base + count - (if 1 <= count % 32 <= 16 {
                count % 32
            } else {
                0
            })
        }),
{
}

/// A tile that is followed by one of the same expert is full.
pub proof fn law_tiles_are_full(count: spec_fn(int) -> int, bm: int, n: int, t: int)
    requires
        0 < bm,
        counted(count, n),
        0 <= t,
        t + 1 < full_plan(count, bm, n).len(),
        full_plan(count, bm, n)[t].expert == full_plan(count, bm, n)[t + 1].expert,
    ensures
        full_plan(count, bm, n)[t].count == bm,
    decreases n,
{
    let before = full_plan(count, bm, n - 1);
    let p = full_plan(count, bm, n);
    let c = count(n - 1);
    assert(0 <= count(n - 1));
    lemma_all_tiles(c, bm);
    if t + 1 < before.len() {
        assert(p[t] == before[t] && p[t + 1] == before[t + 1]);
        law_tiles_are_full(count, bm, n - 1, t);
    } else if t < before.len() {
        assert(p[t] == before[t]);
        law_tiles_are_filled(count, bm, n - 1, t);
        lemma_tile(n - 1, rows_before(count, n - 1), c, bm, 0);
    } else {
        lemma_tile(n - 1, rows_before(count, n - 1), c, bm, t - before.len());
    }
}

/// In ascending rows, the rows from an expert's base on, as many as it has, are its rows, and
/// no others are.
pub proof fn law_expert_spans(s: Seq<u32>, m: int, e: int, r: int)
    requires
        0 <= m <= s.len(),
        forall|i: int, j: int| 0 <= i <= j < m ==> #[trigger] s[i] <= #[trigger] s[j],
        0 <= r < m,
    ensures
        s[r] == e <==> (sorted_base(s, m))(e) <= r < (sorted_base(s, m))(e) + (sorted_count(
            s,
            m,
        ))(e),
{
    lemma_sorted_below(s, m, e, r);
    lemma_sorted_below(s, m, e + 1, r);
}

/// Whatever the experts' bases, tile `j` of expert `e` starts `j` heights behind the expert's
/// base and ends inside its rows, and the tiles of later experts come behind it.
pub proof fn law_tiles_keep_their_base(
    base: spec_fn(int) -> int,
    count: spec_fn(int) -> int,
    bm: int,
    n: int,
    t: int,
)
    requires
        0 < bm,
        counted(count, n),
        0 <= t < plan(base, count, all_tiles(bm), bm, n).len(),
    ensures
        ({
            let tile = plan(base, count, all_tiles(bm), bm, n)[t];
            let j = t - plan(base, count, all_tiles(bm), bm, tile.expert).len();
            &&& 0 <= tile.expert < n
            &&& 0 <= j
            &&& t < plan(base, count, all_tiles(bm), bm, tile.expert + 1).len()
            &&& tile.start == base(tile.expert) + j * bm
            &&& tile.start + tile.count <= base(tile.expert) + count(tile.expert)
            &&& tile.count == bm || tile.start + tile.count == base(tile.expert) + count(
                tile.expert,
            )
            &&& 1 <= tile.count <= bm
        }),
    decreases n,
{
    let before = plan(base, count, all_tiles(bm), bm, n - 1);
    let p = plan(base, count, all_tiles(bm), bm, n);
    if t < before.len() {
        assert(p[t] == before[t]);
        law_tiles_keep_their_base(base, count, bm, n - 1, t);
    } else {
        assert(0 <= count(n - 1));
        lemma_all_tiles(count(n - 1), bm);
        lemma_tile(n - 1, base(n - 1), count(n - 1), bm, t - before.len());
    }
}

} // verus!
