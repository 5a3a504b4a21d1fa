//! Device-side tile-plan builders, in one dispatch and in two.
use crate::moe::gather::{ascending, lower_bound};
use crate::moe::tile_plan::{
    all_tiles, below, entries, holds_plan, law_own_tiles, law_sorted_plan_is_counted_plan,
    lemma_all_tiles, lemma_below, lemma_below_mono, lemma_plan_grows, lemma_plan_same, own_tiles,
    plan, sorted_base, sorted_count, tiles_of, Tile,
};
use vstd::prelude::*;

verus! {

/// Finds an expert's rows in the sorted list: the first one and how many there are.
fn expert_rows(sorted_experts: &[u32], m_total: u32, e: u32) -> (r: (u32, u32))
    requires
        m_total <= sorted_experts@.len(),
        ascending(sorted_experts@, m_total as int),
        e < u32::MAX,
    ensures
        r.0 == below(sorted_experts@, m_total as int, e as int),
        r.1 == below(sorted_experts@, m_total as int, e + 1) - below(
            sorted_experts@,
            m_total as int,
            e as int,
        ),
        r.0 + r.1 <= m_total,
{
    let lo: usize = lower_bound(sorted_experts, m_total as usize, e);
    let hi: usize = lower_bound(sorted_experts, m_total as usize, e + 1);
    proof {
        lemma_below(sorted_experts@, m_total as int, e as int, lo as int);
        lemma_below(sorted_experts@, m_total as int, e + 1, hi as int);
        lemma_below_mono(sorted_experts@, m_total as int, e as int, e + 1);
    }
    (lo as u32, (hi - lo) as u32)
}

/// Expert `e` of the split has its rows inside `u32` range.
pub open spec fn rows_fit(base: spec_fn(int) -> int, count: spec_fn(int) -> int, n: int) -> bool {
    forall|e: int|
        0 <= e < n ==> 0 <= #[trigger] base(e) && 0 <= count(e) && base(e) + count(e) <= u32::MAX
            - 64
}

/// One more tile after the plan `p`.
proof fn lemma_wrote_next(
    p: Seq<Tile>,
    tile: Tile,
    before: (Seq<u32>, Seq<u32>, Seq<u32>),
    now: (Seq<u32>, Seq<u32>, Seq<u32>),
    next: (Seq<u32>, Seq<u32>, Seq<u32>),
    entry: (u32, u32, u32),
)
    requires
        wrote_plan(p, before.0, before.1, before.2, now.0, now.1, now.2),
        p.len() < before.0.len(),
        p.len() < before.1.len(),
        p.len() < before.2.len(),
        next.0 == now.0.update(p.len() as int, entry.0),
        next.1 == now.1.update(p.len() as int, entry.1),
        next.2 == now.2.update(p.len() as int, entry.2),
        entry.0 == tile.expert,
        entry.1 == tile.start,
        entry.2 == tile.count,
    ensures
        wrote_plan(p.push(tile), before.0, before.1, before.2, next.0, next.1, next.2),
{
    let q = p.push(tile);
    assert forall|t: int| 0 <= t < q.len() implies {
        &&& #[trigger] next.0[t] == q[t].expert
        &&& next.1[t] == q[t].start
        &&& next.2[t] == q[t].count
    } by {
        if t < p.len() {
            assert(now.0[t] == p[t].expert);
            assert(q[t] == p[t]);
        }
    }
}

/// Lane `e` writes its tiles after those of the lanes before it.
fn emit_expert(
    e: u32,
    base: u32,
    count: u32,
    num_tiles: u32,
    tile_offset: u32,
    bm: u32,
    tile_expert: &mut Vec<u32>,
    tile_row_start: &mut Vec<u32>,
    tile_row_count: &mut Vec<u32>,
    done: Ghost<Seq<Tile>>,
    before: Ghost<(Seq<u32>, Seq<u32>, Seq<u32>)>,
)
    requires
        0 < bm <= 64,
        base + count <= u32::MAX - 64,
        num_tiles == 0 || (num_tiles - 1) * bm < count,
        tile_offset == done@.len(),
        tile_offset + num_tiles <= u32::MAX,
        tile_offset + num_tiles <= before@.0.len(),
        tile_offset + num_tiles <= before@.1.len(),
        tile_offset + num_tiles <= before@.2.len(),
        wrote_plan(
            done@,
            before@.0,
            before@.1,
            before@.2,
            old(tile_expert)@,
            old(tile_row_start)@,
            old(tile_row_count)@,
        ),
    ensures
        wrote_plan(
            done@ + tiles_of(e as int, base as int, count as int, num_tiles as int, bm as int),
            before@.0,
            before@.1,
            before@.2,
            final(tile_expert)@,
            final(tile_row_start)@,
            final(tile_row_count)@,
        ),
{
    let mut local: u32 = 0;
    assert(done@ + tiles_of(e as int, base as int, count as int, 0, bm as int) =~= done@);
    while local < num_tiles
        invariant
            0 < bm <= 64,
            base + count <= u32::MAX - 64,
            num_tiles == 0 || (num_tiles - 1) * bm < count,
            tile_offset == done@.len(),
            tile_offset + num_tiles <= u32::MAX,
            tile_offset + num_tiles <= before@.0.len(),
            tile_offset + num_tiles <= before@.1.len(),
            tile_offset + num_tiles <= before@.2.len(),
            local <= num_tiles,
            wrote_plan(
                done@ + tiles_of(e as int, base as int, count as int, local as int, bm as int),
                before@.0,
                before@.1,
                before@.2,
                tile_expert@,
                tile_row_start@,
                tile_row_count@,
            ),
        decreases num_tiles - local,
    {
        proof {
            assert(0 <= local * bm <= (num_tiles - 1) * bm) by (nonlinear_arith)
                requires
                    0 <= local <= num_tiles - 1,
                    0 < bm,
            ;
            assert(tile_expert@.len() == tile_expert.len());
        }
        let idx: usize = tile_offset as usize + local as usize;
        let start: u32 = base + local * bm;
        let remaining: u32 = count - local * bm;
        let rc: u32 = if remaining < bm {
            remaining
        } else {
            bm
        };
        let ghost now = (tile_expert@, tile_row_start@, tile_row_count@);
        tile_expert[idx] = e;
        tile_row_start[idx] = start;
        tile_row_count[idx] = rc;
        proof {
            let p = done@ + tiles_of(e as int, base as int, count as int, local as int, bm as int);
            let tile = Tile { expert: e as int, start: start as int, count: rc as int };
            lemma_wrote_next(
                p,
                tile,
                before@,
                now,
                (tile_expert@, tile_row_start@, tile_row_count@),
                (e, start, rc),
            );
            assert(p.push(tile) =~= done@ + tiles_of(
                e as int,
                base as int,
                count as int,
                local + 1,
                bm as int,
            ));
        }
        local = local + 1;
    }
}

/// The second half of every builder: lane `e` sums the tile counts of the lanes before it
/// and writes its own tiles there. Returns the number of tiles.
#[verifier::loop_isolation(false)]
fn emit_tiles(
    row_base: &Vec<u32>,
    row_count: &Vec<u32>,
    num_tiles_pe: &Vec<u32>,
    tile_expert: &mut Vec<u32>,
    tile_row_start: &mut Vec<u32>,
    tile_row_count: &mut Vec<u32>,
    n_experts: u32,
    bm: u32,
    per: Ghost<spec_fn(int) -> int>,
) -> (total: u32)
    requires
        0 < bm <= 64,
        row_base@.len() == n_experts,
        row_count@.len() == n_experts,
        num_tiles_pe@.len() == n_experts,
        rows_fit(entries(row_base@), entries(row_count@), n_experts as int),
        forall|e: int|
            0 <= e < n_experts ==> #[trigger] num_tiles_pe@[e] == (per@)(row_count@[e] as int) && (
            num_tiles_pe@[e] == 0 || (num_tiles_pe@[e] - 1) * bm < row_count@[e]),
        fits_plan(
            plan(
                entries(row_base@),
                entries(row_count@),
                per@,
                bm as int,
                n_experts as int,
            ),
            old(tile_expert)@,
            old(tile_row_start)@,
            old(tile_row_count)@,
        ),
    ensures
        total == plan(
            entries(row_base@),
            entries(row_count@),
            per@,
            bm as int,
            n_experts as int,
        ).len(),
        wrote_plan(
            plan(
                entries(row_base@),
                entries(row_count@),
                per@,
                bm as int,
                n_experts as int,
            ),
            old(tile_expert)@,
            old(tile_row_start)@,
            old(tile_row_count)@,
            final(tile_expert)@,
            final(tile_row_start)@,
            final(tile_row_count)@,
        ),
{
    let ghost (te, ts, tc) = (tile_expert@, tile_row_start@, tile_row_count@);
    let ghost (base, count) = (entries(row_base@), entries(row_count@));
    let ghost whole = plan(base, count, per@, bm as int, n_experts as int);
    let mut total: u32 = 0;
    let mut e: u32 = 0;
    while e < n_experts
        invariant
            e <= n_experts,
            total == plan(base, count, per@, bm as int, e as int).len(),
            wrote_plan(
                plan(base, count, per@, bm as int, e as int),
                te,
                ts,
                tc,
                tile_expert@,
                tile_row_start@,
                tile_row_count@,
            ),
        decreases n_experts - e,
    {
        let num_tiles: u32 = num_tiles_pe[e as usize];
        let ghost done = plan(base, count, per@, bm as int, e as int);
        let ghost mine = tiles_of(
            e as int,
            base(e as int),
            count(e as int),
            num_tiles as int,
            bm as int,
        );
        let ghost next = plan(base, count, per@, bm as int, e + 1);
        let mut tile_offset: u32 = 0;
        let mut e2: u32 = 0;
        proof {
            assert(num_tiles_pe@[e as int] == (per@)(row_count@[e as int] as int));
            assert(next == done + mine);
            lemma_plan_grows(base, count, per@, bm as int, e + 1, n_experts as int);
        }
        while e2 < n_experts
            invariant
                e2 <= n_experts,
                tile_offset == plan(
                    base,
                    count,
                    per@,
                    bm as int,
                    if e2 < e {
                        e2 as int
                    } else {
                        e as int
                    },
                ).len(),
            decreases n_experts - e2,
        {
            if e2 < e {
                proof {
                    assert(num_tiles_pe@[e2 as int] == (per@)(row_count@[e2 as int] as int));
                    lemma_plan_grows(base, count, per@, bm as int, e2 + 1, e as int);
                }
                tile_offset = tile_offset + num_tiles_pe[e2 as usize];
            }
            e2 = e2 + 1;
        }
        proof {
            assert(base(e as int) + count(e as int) <= u32::MAX - 64);
        }
        emit_expert(
            e,
            row_base[e as usize],
            row_count[e as usize],
            num_tiles,
            tile_offset,
            bm,
            tile_expert,
            tile_row_start,
            tile_row_count,
            Ghost(done),
            Ghost((te, ts, tc)),
        );
        total = tile_offset + num_tiles;
        e = e + 1;
    }
    total
}

/// A plan fits its buffers and its length a word.
pub open spec fn fits_plan(
    p: Seq<Tile>,
    expert: Seq<u32>,
    start: Seq<u32>,
    count: Seq<u32>,
) -> bool {
    &&& p.len() <= u32::MAX
    &&& p.len() <= expert.len()
    &&& p.len() <= start.len()
    &&& p.len() <= count.len()
}

/// The buffers hold the plan, and past it what they held before.
pub open spec fn wrote_plan(
    p: Seq<Tile>,
    expert: Seq<u32>,
    start: Seq<u32>,
    count: Seq<u32>,
    expert2: Seq<u32>,
    start2: Seq<u32>,
    count2: Seq<u32>,
) -> bool {
    &&& expert2.len() == expert.len()
    &&& start2.len() == start.len()
    &&& count2.len() == count.len()
    &&& holds_plan(expert2, start2, count2, p)
    &&& forall|t: int| p.len() <= t < expert.len() ==> #[trigger] expert2[t] == expert[t]
    &&& forall|t: int| p.len() <= t < start.len() ==> #[trigger] start2[t] == start[t]
    &&& forall|t: int| p.len() <= t < count.len() ==> #[trigger] count2[t] == count[t]
}

/// The tiles that hold `count` rows: `ceil(count / bm)`.
fn ceil_tiles(count: u32, bm: u32) -> (n: u32)
    requires
        0 < bm <= 64,
        count <= u32::MAX - 64,
    ensures
        n == (all_tiles(bm as int))(count as int),
        n == 0 || (n - 1) * bm < count,
{
    let n: u32 = (count + bm - 1) / bm;
    proof {
        vstd::arithmetic::div_mod::lemma_fundamental_div_mod(count + bm - 1, bm as int);
        assert(n == 0 || (n - 1) * bm < count) by (nonlinear_arith)
            requires
                count + bm - 1 == bm * n + (count + bm - 1) % (bm as int),
                0 <= (count + bm - 1) % (bm as int),
        ;
    }
    n
}

/// The full 32-row tiles of `count` rows, and one more for a remainder of 17 to 31.
fn solo_tiles(count: u32) -> (n: u32)
    ensures
        n == (own_tiles())(count as int),
        n == 0 || (n - 1) * 32 < count,
{
    let full: u32 = count / 32;
    let remainder: u32 = count - full * 32;
    let is_solo: u32 = if remainder > 16 {
        1
    } else {
        0
    };
    full + is_solo
}

/// Which tile counts a builder takes.
#[derive(Clone, Copy)]
enum Cut {
    All(u32),
    Own,
}

impl Cut {
    spec fn per(self) -> spec_fn(int) -> int {
        match self {
            Cut::All(bm) => all_tiles(bm as int),
            Cut::Own => own_tiles(),
        }
    }

    spec fn height(self) -> int {
        match self {
            Cut::All(bm) => bm as int,
            Cut::Own => 32,
        }
    }
}

/// Prefix sum and emission from per-expert rows.
#[verifier::loop_isolation(false)]
fn build(
    row_base: &Vec<u32>,
    row_count: &Vec<u32>,
    tile_expert: &mut Vec<u32>,
    tile_row_start: &mut Vec<u32>,
    tile_row_count: &mut Vec<u32>,
    n_experts: u32,
    cut: Cut,
) -> (total: u32)
    requires
        0 < cut.height() <= 64,
        row_base@.len() == n_experts,
        row_count@.len() == n_experts,
        rows_fit(entries(row_base@), entries(row_count@), n_experts as int),
        fits_plan(
            plan(
                entries(row_base@),
                entries(row_count@),
                cut.per(),
                cut.height(),
                n_experts as int,
            ),
            old(tile_expert)@,
            old(tile_row_start)@,
            old(tile_row_count)@,
        ),
    ensures
        total == plan(
            entries(row_base@),
            entries(row_count@),
            cut.per(),
            cut.height(),
            n_experts as int,
        ).len(),
        wrote_plan(
            plan(
                entries(row_base@),
                entries(row_count@),
                cut.per(),
                cut.height(),
                n_experts as int,
            ),
            old(tile_expert)@,
            old(tile_row_start)@,
            old(tile_row_count)@,
            final(tile_expert)@,
            final(tile_row_start)@,
            final(tile_row_count)@,
        ),
{
    let mut num_tiles_pe: Vec<u32> = Vec::new();
    let mut e: u32 = 0;
    let bm: u32 = match cut {
        Cut::All(bm) => bm,
        Cut::Own => 32,
    };
    while e < n_experts
        invariant
            e <= n_experts,
            num_tiles_pe@.len() == e,
            forall|i: int|
                0 <= i < e ==> #[trigger] num_tiles_pe@[i] == (cut.per())(row_count@[i] as int) && (
                num_tiles_pe@[i] == 0 || (num_tiles_pe@[i] - 1) * bm < row_count@[i]),
        decreases n_experts - e,
    {
        proof {
            let (b, c) = (entries(row_base@), entries(row_count@));
            assert(0 <= b(e as int) && b(e as int) + c(e as int) <= u32::MAX - 64);
        }
        let count: u32 = row_count[e as usize];
        let n: u32 = match cut {
            Cut::All(bm) => ceil_tiles(count, bm),
            Cut::Own => solo_tiles(count),
        };
        num_tiles_pe.push(n);
        e = e + 1;
    }
    emit_tiles(
        row_base,
        row_count,
        &num_tiles_pe,
        tile_expert,
        tile_row_start,
        tile_row_count,
        n_experts,
        bm,
        Ghost(cut.per()),
    )
}

/// Finds every expert's rows in the sorted list.
#[verifier::loop_isolation(false)]
fn all_rows(sorted_experts: &[u32], m_total: u32, n_experts: u32) -> (r: (Vec<u32>, Vec<u32>))
    requires
        m_total <= sorted_experts@.len(),
        m_total <= u32::MAX - 64,
        ascending(sorted_experts@, m_total as int),
    ensures
        r.0@.len() == n_experts,
        r.1@.len() == n_experts,
        forall|e: int|
            0 <= e < n_experts ==> #[trigger] r.0@[e] == (sorted_base(
                sorted_experts@,
                m_total as int,
            ))(e),
        forall|e: int|
            0 <= e < n_experts ==> #[trigger] r.1@[e] == (sorted_count(
                sorted_experts@,
                m_total as int,
            ))(e),
        rows_fit(entries(r.0@), entries(r.1@), n_experts as int),
{
    let mut bases: Vec<u32> = Vec::new();
    let mut counts: Vec<u32> = Vec::new();
    let mut e: u32 = 0;
    while e < n_experts
        invariant
            e <= n_experts,
            bases@.len() == e,
            counts@.len() == e,
            forall|i: int|
                0 <= i < e ==> #[trigger] bases@[i] == (sorted_base(
                    sorted_experts@,
                    m_total as int,
                ))(i),
            forall|i: int|
                0 <= i < e ==> #[trigger] counts@[i] == (sorted_count(
                    sorted_experts@,
                    m_total as int,
                ))(i),
            forall|i: int| 0 <= i < e ==> #[trigger] bases@[i] + counts@[i] <= m_total,
        decreases n_experts - e,
    {
        let (b, c): (u32, u32) = expert_rows(sorted_experts, m_total, e);
        bases.push(b);
        counts.push(c);
        e = e + 1;
    }
    assert(rows_fit(entries(bases@), entries(counts@), n_experts as int)) by {
        assert forall|e: int| 0 <= e < n_experts implies 0 <= #[trigger] (entries(bases@))(e) && 0
            <= (entries(counts@))(e) && (entries(bases@))(e) + (entries(counts@))(e) <= u32::MAX
            - 64 by {
            assert(bases@[e] + counts@[e] <= m_total);
        }
    }
    (bases, counts)
}

/// The plan of sorted rows.
pub open spec fn sorted_plan(
    s: Seq<u32>,
    m: int,
    per: spec_fn(int) -> int,
    bm: int,
    n: int,
) -> Seq<Tile> {
    plan(sorted_base(s, m), sorted_count(s, m), per, bm, n)
}

/// Builds the plan of sorted rows.
fn build_sorted(
    sorted_experts: &[u32],
    tile_expert: &mut Vec<u32>,
    tile_row_start: &mut Vec<u32>,
    tile_row_count: &mut Vec<u32>,
    m_total: u32,
    n_experts: u32,
    cut: Cut,
) -> (total: u32)
    requires
        0 < cut.height() <= 64,
        m_total <= sorted_experts@.len(),
        m_total <= u32::MAX - 64,
        ascending(sorted_experts@, m_total as int),
        fits_plan(
            sorted_plan(
                sorted_experts@,
                m_total as int,
                cut.per(),
                cut.height(),
                n_experts as int,
            ),
            old(tile_expert)@,
            old(tile_row_start)@,
            old(tile_row_count)@,
        ),
    ensures
        total == sorted_plan(
            sorted_experts@,
            m_total as int,
            cut.per(),
            cut.height(),
            n_experts as int,
        ).len(),
        wrote_plan(
            sorted_plan(
                sorted_experts@,
                m_total as int,
                cut.per(),
                cut.height(),
                n_experts as int,
            ),
            old(tile_expert)@,
            old(tile_row_start)@,
            old(tile_row_count)@,
            final(tile_expert)@,
            final(tile_row_start)@,
            final(tile_row_count)@,
        ),
{
    let (bases, counts): (Vec<u32>, Vec<u32>) = all_rows(sorted_experts, m_total, n_experts);
    proof {
        let (sb, sc) = (
            sorted_base(sorted_experts@, m_total as int),
            sorted_count(sorted_experts@, m_total as int),
        );
        let (b, c) = (entries(bases@), entries(counts@));
        assert forall|e: int| 0 <= e < n_experts implies #[trigger] b(e) == sb(e) by {
            assert(bases@[e] == sb(e));
        }
        assert forall|e: int| 0 <= e < n_experts implies #[trigger] c(e) == sc(e) by {
            assert(counts@[e] == sc(e));
        }
        lemma_plan_same(b, c, sb, sc, cut.per(), cut.height(), n_experts as int);
    }
    build(&bases, &counts, tile_expert, tile_row_start, tile_row_count, n_experts, cut)
}

/// The first row and the number of rows of each of `n_experts` experts.
#[verifier::loop_isolation(false)]
pub fn iron_moe_tile_plan_expert_counts(
    sorted_experts: &[u32],
    expert_row_base: &mut Vec<u32>,
    expert_count: &mut Vec<u32>,
    m_total: u32,
    n_experts: u32,
)
    requires
        m_total <= sorted_experts@.len(),
        ascending(sorted_experts@, m_total as int),
        n_experts <= old(expert_row_base)@.len(),
        n_experts <= old(expert_count)@.len(),
    ensures
        final(expert_row_base)@.len() == old(expert_row_base)@.len(),
        final(expert_count)@.len() == old(expert_count)@.len(),
        forall|e: int|
            0 <= e < n_experts ==> #[trigger] final(expert_row_base)@[e] == (sorted_base(
                sorted_experts@,
                m_total as int,
            ))(e),
        forall|e: int|
            0 <= e < n_experts ==> #[trigger] final(expert_count)@[e] == (sorted_count(
                sorted_experts@,
                m_total as int,
            ))(e),
        forall|e: int|
            n_experts <= e < old(expert_row_base)@.len() ==> #[trigger] final(expert_row_base)@[e]
                == old(expert_row_base)@[e],
        forall|e: int|
            n_experts <= e < old(expert_count)@.len() ==> #[trigger] final(expert_count)@[e]
                == old(expert_count)@[e],
{
    let ghost (was_base, was_count) = (expert_row_base@, expert_count@);
    let mut e: u32 = 0;
    while e < n_experts
        invariant
            e <= n_experts,
            expert_row_base@.len() == was_base.len(),
            expert_count@.len() == was_count.len(),
            forall|i: int|
                0 <= i < e ==> #[trigger] expert_row_base@[i] == (sorted_base(
                    sorted_experts@,
                    m_total as int,
                ))(i),
            forall|i: int|
                0 <= i < e ==> #[trigger] expert_count@[i] == (sorted_count(
                    sorted_experts@,
                    m_total as int,
                ))(i),
            forall|i: int|
                e <= i < was_base.len() ==> #[trigger] expert_row_base@[i] == was_base[i],
            forall|i: int| e <= i < was_count.len() ==> #[trigger] expert_count@[i] == was_count[i],
        decreases n_experts - e,
    {
        let (b, c): (u32, u32) = expert_rows(sorted_experts, m_total, e);
        expert_row_base[e as usize] = b;
        expert_count[e as usize] = c;
        e = e + 1;
    }
}

/// Writes the plan of 16-row tiles over sorted rows.
pub fn iron_moe_build_tile_plan(
    sorted_experts: &[u32],
    tile_expert: &mut Vec<u32>,
    tile_row_start: &mut Vec<u32>,
    tile_row_count: &mut Vec<u32>,
    m_total: u32,
    n_experts: u32,
)
    requires
        m_total <= sorted_experts@.len(),
        m_total <= u32::MAX - 64,
        ascending(sorted_experts@, m_total as int),
        fits_plan(
            sorted_plan(sorted_experts@, m_total as int, all_tiles(16), 16, n_experts as int),
            old(tile_expert)@,
            old(tile_row_start)@,
            old(tile_row_count)@,
        ),
    ensures
        wrote_plan(
            sorted_plan(sorted_experts@, m_total as int, all_tiles(16), 16, n_experts as int),
            old(tile_expert)@,
            old(tile_row_start)@,
            old(tile_row_count)@,
            final(tile_expert)@,
            final(tile_row_start)@,
            final(tile_row_count)@,
        ),
{
    let _total: u32 = build_sorted(
        sorted_experts,
        tile_expert,
        tile_row_start,
        tile_row_count,
        m_total,
        n_experts,
        Cut::All(16),
    );
}

/// The real number of tiles, for both indirect dispatches.
pub open spec fn wrote_total(before: Seq<u32>, after: Seq<u32>, total: int, lanes: int) -> bool {
    if lanes > 0 {
        after.len() == before.len() && after[0] == total && forall|i: int|
            1 <= i < before.len() ==> #[trigger] after[i] == before[i]
    } else {
        after == before
    }
}

/// Writes the number of tiles, which the last lane knows.
fn publish(
    tile_count_gateup: &mut Vec<u32>,
    tile_count_down: &mut Vec<u32>,
    total: u32,
    n_experts: u32,
)
    requires
        old(tile_count_gateup)@.len() > 0,
        old(tile_count_down)@.len() > 0,
    ensures
        wrote_total(
            old(tile_count_gateup)@,
            final(tile_count_gateup)@,
            total as int,
            n_experts as int,
        ),
        wrote_total(old(tile_count_down)@, final(tile_count_down)@, total as int, n_experts as int),
{
    if n_experts > 0 {
        tile_count_gateup[0] = total;
        tile_count_down[0] = total;
    }
}

/// Writes the plan of 32-row tiles over sorted rows, without remainders of 1 to 16 rows.
#[allow(clippy::too_many_arguments)]
pub fn iron_moe_build_tile_plan_bm32_own(
    sorted_experts: &[u32],
    tile_expert: &mut Vec<u32>,
    tile_row_start: &mut Vec<u32>,
    tile_row_count: &mut Vec<u32>,
    tile_count_gateup: &mut Vec<u32>,
    tile_count_down: &mut Vec<u32>,
    m_total: u32,
    n_experts: u32,
)
    requires
        m_total <= sorted_experts@.len(),
        m_total <= u32::MAX - 64,
        ascending(sorted_experts@, m_total as int),
        fits_plan(
            sorted_plan(sorted_experts@, m_total as int, own_tiles(), 32, n_experts as int),
            old(tile_expert)@,
            old(tile_row_start)@,
            old(tile_row_count)@,
        ),
        old(tile_count_gateup)@.len() > 0,
        old(tile_count_down)@.len() > 0,
    ensures
        wrote_plan(
            sorted_plan(sorted_experts@, m_total as int, own_tiles(), 32, n_experts as int),
            old(tile_expert)@,
            old(tile_row_start)@,
            old(tile_row_count)@,
            final(tile_expert)@,
            final(tile_row_start)@,
            final(tile_row_count)@,
        ),
        wrote_total(
            old(tile_count_gateup)@,
            final(tile_count_gateup)@,
            sorted_plan(
                sorted_experts@,
                m_total as int,
                own_tiles(),
                32,
                n_experts as int,
            ).len() as int,
            n_experts as int,
        ),
        wrote_total(
            old(tile_count_down)@,
            final(tile_count_down)@,
            sorted_plan(
                sorted_experts@,
                m_total as int,
                own_tiles(),
                32,
                n_experts as int,
            ).len() as int,
            n_experts as int,
        ),
{
    let total: u32 = build_sorted(
        sorted_experts,
        tile_expert,
        tile_row_start,
        tile_row_count,
        m_total,
        n_experts,
        Cut::Own,
    );
    publish(tile_count_gateup, tile_count_down, total, n_experts);
}

/// The per-expert rows of a first dispatch.
pub open spec fn split_fits(base: Seq<u32>, count: Seq<u32>, n: int) -> bool {
    &&& n <= base.len()
    &&& n <= count.len()
    &&& rows_fit(entries(base), entries(count), n)
}

/// The plan of per-expert rows.
pub open spec fn split_plan(
    base: Seq<u32>,
    count: Seq<u32>,
    per: spec_fn(int) -> int,
    bm: int,
    n: int,
) -> Seq<Tile> {
    plan(entries(base), entries(count), per, bm, n)
}

/// Builds the plan of per-expert rows.
fn build_split(
    expert_row_base: &[u32],
    expert_count: &[u32],
    tile_expert: &mut Vec<u32>,
    tile_row_start: &mut Vec<u32>,
    tile_row_count: &mut Vec<u32>,
    n_experts: u32,
    cut: Cut,
) -> (total: u32)
    requires
        0 < cut.height() <= 64,
        split_fits(expert_row_base@, expert_count@, n_experts as int),
        fits_plan(
            split_plan(
                expert_row_base@,
                expert_count@,
                cut.per(),
                cut.height(),
                n_experts as int,
            ),
            old(tile_expert)@,
            old(tile_row_start)@,
            old(tile_row_count)@,
        ),
    ensures
        total == split_plan(
            expert_row_base@,
            expert_count@,
            cut.per(),
            cut.height(),
            n_experts as int,
        ).len(),
        wrote_plan(
            split_plan(
                expert_row_base@,
                expert_count@,
                cut.per(),
                cut.height(),
                n_experts as int,
            ),
            old(tile_expert)@,
            old(tile_row_start)@,
            old(tile_row_count)@,
            final(tile_expert)@,
            final(tile_row_start)@,
            final(tile_row_count)@,
        ),
{
    let bases: Vec<u32> = prefix(expert_row_base, n_experts);
    let counts: Vec<u32> = prefix(expert_count, n_experts);
    proof {
        let (b, c) = (entries(bases@), entries(counts@));
        let (b2, c2) = (entries(expert_row_base@), entries(expert_count@));
        assert forall|e: int| 0 <= e < n_experts implies #[trigger] b(e) == b2(e) by {
        }
        assert forall|e: int| 0 <= e < n_experts implies #[trigger] c(e) == c2(e) by {
        }
        lemma_plan_same(b, c, b2, c2, cut.per(), cut.height(), n_experts as int);
        assert(rows_fit(b, c, n_experts as int)) by {
            assert forall|e: int| 0 <= e < n_experts implies 0 <= #[trigger] b(e) && 0 <= c(e)
                && b(e) + c(e) <= u32::MAX - 64 by {
                assert(0 <= b2(e));
            }
        }
    }
    build(&bases, &counts, tile_expert, tile_row_start, tile_row_count, n_experts, cut)
}

/// The first `n` entries of a buffer, one to a lane.
fn prefix(s: &[u32], n: u32) -> (r: Vec<u32>)
    requires
        n <= s@.len(),
    ensures
        r@ == s@.subrange(0, n as int),
{
    let mut r: Vec<u32> = Vec::new();
    let mut i: usize = 0;
    while i < n as usize
        invariant
            i <= n <= s@.len(),
            r@ == s@.subrange(0, i as int),
        decreases n - i,
    {
        r.push(s[i]);
        i = i + 1;
    }
    r
}

/// Writes the plan of 16-row tiles over the per-expert rows of a first dispatch.
pub fn iron_moe_build_tile_plan_parallel(
    expert_row_base: &[u32],
    expert_count: &[u32],
    tile_expert: &mut Vec<u32>,
    tile_row_start: &mut Vec<u32>,
    tile_row_count: &mut Vec<u32>,
    n_experts: u32,
)
    requires
        split_fits(expert_row_base@, expert_count@, n_experts as int),
        fits_plan(
            split_plan(expert_row_base@, expert_count@, all_tiles(16), 16, n_experts as int),
            old(tile_expert)@,
            old(tile_row_start)@,
            old(tile_row_count)@,
        ),
    ensures
        wrote_plan(
            split_plan(expert_row_base@, expert_count@, all_tiles(16), 16, n_experts as int),
            old(tile_expert)@,
            old(tile_row_start)@,
            old(tile_row_count)@,
            final(tile_expert)@,
            final(tile_row_start)@,
            final(tile_row_count)@,
        ),
{
    let _total: u32 = build_split(
        expert_row_base,
        expert_count,
        tile_expert,
        tile_row_start,
        tile_row_count,
        n_experts,
        Cut::All(16),
    );
}

/// Writes the plan of 32-row tiles over the per-expert rows of a first dispatch.
#[allow(clippy::too_many_arguments)]
pub fn iron_moe_build_tile_plan_bm32_parallel(
    expert_row_base: &[u32],
    expert_count: &[u32],
    tile_expert: &mut Vec<u32>,
    tile_row_start: &mut Vec<u32>,
    tile_row_count: &mut Vec<u32>,
    tile_count_gateup: &mut Vec<u32>,
    tile_count_down: &mut Vec<u32>,
    n_experts: u32,
)
    requires
        split_fits(expert_row_base@, expert_count@, n_experts as int),
        fits_plan(
            split_plan(expert_row_base@, expert_count@, all_tiles(32), 32, n_experts as int),
            old(tile_expert)@,
            old(tile_row_start)@,
            old(tile_row_count)@,
        ),
        old(tile_count_gateup)@.len() > 0,
        old(tile_count_down)@.len() > 0,
    ensures
        wrote_plan(
            split_plan(expert_row_base@, expert_count@, all_tiles(32), 32, n_experts as int),
            old(tile_expert)@,
            old(tile_row_start)@,
            old(tile_row_count)@,
            final(tile_expert)@,
            final(tile_row_start)@,
            final(tile_row_count)@,
        ),
        wrote_total(
            old(tile_count_gateup)@,
            final(tile_count_gateup)@,
            split_plan(
                expert_row_base@,
                expert_count@,
                all_tiles(32),
                32,
                n_experts as int,
            ).len() as int,
            n_experts as int,
        ),
        wrote_total(
            old(tile_count_down)@,
            final(tile_count_down)@,
            split_plan(
                expert_row_base@,
                expert_count@,
                all_tiles(32),
                32,
                n_experts as int,
            ).len() as int,
            n_experts as int,
        ),
{
    let total: u32 = build_split(
        expert_row_base,
        expert_count,
        tile_expert,
        tile_row_start,
        tile_row_count,
        n_experts,
        Cut::All(32),
    );
    publish(tile_count_gateup, tile_count_down, total, n_experts);
}

/// Writes the plan of 32-row tiles over the per-expert rows of a first dispatch, without
/// remainders of 1 to 16 rows.
#[allow(clippy::too_many_arguments)]
pub fn iron_moe_build_tile_plan_bm32_own_parallel(
    expert_row_base: &[u32],
    expert_count: &[u32],
    tile_expert: &mut Vec<u32>,
    tile_row_start: &mut Vec<u32>,
    tile_row_count: &mut Vec<u32>,
    tile_count_gateup: &mut Vec<u32>,
    tile_count_down: &mut Vec<u32>,
    n_experts: u32,
)
    requires
        split_fits(expert_row_base@, expert_count@, n_experts as int),
        fits_plan(
            split_plan(expert_row_base@, expert_count@, own_tiles(), 32, n_experts as int),
            old(tile_expert)@,
            old(tile_row_start)@,
            old(tile_row_count)@,
        ),
        old(tile_count_gateup)@.len() > 0,
        old(tile_count_down)@.len() > 0,
    ensures
        wrote_plan(
            split_plan(expert_row_base@, expert_count@, own_tiles(), 32, n_experts as int),
            old(tile_expert)@,
            old(tile_row_start)@,
            old(tile_row_count)@,
            final(tile_expert)@,
            final(tile_row_start)@,
            final(tile_row_count)@,
        ),
        wrote_total(
            old(tile_count_gateup)@,
            final(tile_count_gateup)@,
            split_plan(
                expert_row_base@,
                expert_count@,
                own_tiles(),
                32,
                n_experts as int,
            ).len() as int,
            n_experts as int,
        ),
        wrote_total(
            old(tile_count_down)@,
            final(tile_count_down)@,
            split_plan(
                expert_row_base@,
                expert_count@,
                own_tiles(),
                32,
                n_experts as int,
            ).len() as int,
            n_experts as int,
        ),
{
    let total: u32 = build_split(
        expert_row_base,
        expert_count,
        tile_expert,
        tile_row_start,
        tile_row_count,
        n_experts,
        Cut::Own,
    );
    publish(tile_count_gateup, tile_count_down, total, n_experts);
}

/// From the rows that [`iron_moe_tile_plan_expert_counts`] leaves, the split builders build the
/// plan that the builders over sorted rows build.
pub proof fn law_split_plan_is_sorted_plan(
    s: Seq<u32>,
    m: int,
    base: Seq<u32>,
    count: Seq<u32>,
    per: spec_fn(int) -> int,
    bm: int,
    n: int,
)
    requires
        forall|e: int| 0 <= e < n ==> #[trigger] base[e] == (sorted_base(s, m))(e),
        forall|e: int| 0 <= e < n ==> #[trigger] count[e] == (sorted_count(s, m))(e),
    ensures
        split_plan(base, count, per, bm, n) == sorted_plan(s, m, per, bm, n),
{
    assert forall|e: int| 0 <= e < n implies #[trigger] (entries(base))(e) == (sorted_base(
        s,
        m,
    ))(e) by {
        assert(base[e] == (sorted_base(s, m))(e));
    }
    assert forall|e: int| 0 <= e < n implies #[trigger] (entries(count))(e) == (sorted_count(
        s,
        m,
    ))(e) by {
        assert(count[e] == (sorted_count(s, m))(e));
    }
    lemma_plan_same(
        entries(base),
        entries(count),
        sorted_base(s, m),
        sorted_count(s, m),
        per,
        bm,
        n,
    );
}

/// The own cut of sorted rows never has more tiles than the full one, so it fits wherever the
/// full one does.
pub proof fn law_own_plan_is_no_longer(s: Seq<u32>, m: int, n: int)
    requires
        0 <= m,
        0 <= n,
    ensures
        sorted_plan(s, m, own_tiles(), 32, n).len()
            <= sorted_plan(s, m, all_tiles(32), 32, n).len(),
    decreases n,
{
    if n > 0 {
        law_own_plan_is_no_longer(s, m, n - 1);
        let c = (sorted_count(s, m))(n - 1);
        law_sorted_plan_is_counted_plan(s, m, own_tiles(), 32, n);
        assert(0 <= (sorted_count(s, m))(n - 1));
        law_own_tiles(c);
        lemma_all_tiles(c, 32);
    }
}

/// The count words say how many entries of the three buffers are tiles of the plan; these are
/// the plan's tiles in order, and all other entries are what they were before.
#[allow(clippy::too_many_arguments)]
pub proof fn law_counted_entries_are_the_plan(
    p: Seq<Tile>,
    before: (Seq<u32>, Seq<u32>, Seq<u32>),
    now: (Seq<u32>, Seq<u32>, Seq<u32>),
    total0: Seq<u32>,
    total: Seq<u32>,
    lanes: int,
    t: int,
)
    requires
        wrote_plan(p, before.0, before.1, before.2, now.0, now.1, now.2),
        wrote_total(total0, total, p.len() as int, lanes),
        0 < lanes,
        0 < total0.len(),
        0 <= t,
    ensures
        t < total[0] ==> now.0[t] == p[t].expert && now.1[t] == p[t].start && now.2[t]
            == p[t].count,
        t >= total[0] && t < before.0.len() ==> now.0[t] == before.0[t],
        t >= total[0] && t < before.1.len() ==> now.1[t] == before.1[t],
        t >= total[0] && t < before.2.len() ==> now.2[t] == before.2[t],
        total[0] == p.len(),
        total.skip(1) == total0.skip(1),
{
    assert(total.skip(1) =~= total0.skip(1));
    if t < total[0] {
        assert(now.0[t] == p[t].expert);
    }
}

} // verus!
