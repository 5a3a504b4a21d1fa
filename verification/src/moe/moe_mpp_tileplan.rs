//! Grouped int4 expert product over an expert-aligned tile plan, and the plan itself.
//!
//! A tile plan names for every tile the expert that owns it, its first row in the
//! expert-sorted row space and its number of rows. Every tile belongs to one expert, so a
//! threadgroup makes one pass over the inner dimension.
use crate::moe::affine::{
    affine_stack_fits, affine_weights, source_rows, staged_rows, AffineTiles,
};
use crate::moe::gather::{finished, write_back};
use crate::moe::tile_plan::{
    all_tiles, counted, full_plan, holds_plan, law_every_row_in_one_tile, law_plans_join,
    law_tiles_are_contiguous, law_tiles_are_filled, law_tiles_are_single_expert, lemma_all_tiles,
    rows_before, shifted, sizes, tiles_of, Tile,
};
use crate::scalar::{Scalar, Storage};
use crate::tensor::cell;
use crate::tile::{mma_cell, tile, Shape, TileSource};
use std::marker::PhantomData;
use vstd::prelude::*;

verus! {

/// Tile `t` holds row `r`.
pub open spec fn covers(start: Seq<u32>, count: Seq<u32>, t: int, r: int) -> bool {
    start[t] <= r < start[t] + count[t]
}

/// Tiles of at most 16 rows, inside `rows` rows, none of which shares a row with another.
pub open spec fn separate_tiles(start: Seq<u32>, count: Seq<u32>, n: int, rows: int) -> bool {
    &&& n <= start.len()
    &&& n <= count.len()
    &&& forall|t: int| 0 <= t < n ==> #[trigger] count[t] <= 16
    &&& forall|t: int, r: int|
        0 <= t < n && #[trigger] covers(start, count, t, r) ==> r < rows
    &&& forall|t: int, u: int, r: int|
        0 <= t < n && 0 <= u < n && #[trigger] covers(start, count, t, r) && #[trigger] covers(
            start,
            count,
            u,
            r,
        ) ==> t == u
}

/// `out[r, c] = x[x_rows[r]] . W[e, c]` for every row `r` of every tile of the plan, `e` its
/// expert. The grid is `[n_out / 32, num_tiles]`. Tiles without rows do nothing, and rows of
/// no tile are left alone.
#[allow(clippy::too_many_arguments)]
#[verifier::loop_isolation(false)]
#[verifier::rlimit(40)]
pub fn iron_moe_gather_qmm_mma_int4_bm16_mpp_tileplan<A: Scalar, S: Storage<A>, T: Storage<A>>(
    x: &[T],
    w: &[u32],
    scales: &[T],
    biases: &[T],
    tile_expert: &[u32],
    tile_row_start: &[u32],
    tile_row_count: &[u32],
    x_rows: &[u32],
    out: &mut Vec<T>,
    n_out: u32,
    k_in: u32,
    group_size: u32,
    num_tiles: u32,
)
    requires
        k_in % 16 == 0,
        n_out % 32 == 0,
        group_size > 0,
        k_in as int % group_size as int == 0,
        separate_tiles(tile_row_start@, tile_row_count@, num_tiles as int, x_rows@.len() as int),
        num_tiles <= tile_expert@.len(),
        forall|t: int|
            0 <= t < num_tiles ==> affine_stack_fits(
                4,
                w@,
                scales@,
                biases@,
                n_out as int,
                k_in as int,
                group_size as int,
                #[trigger] tile_expert@[t] + 1,
            ),
        forall|r: int| 0 <= r < x_rows@.len() ==> (#[trigger] x_rows@[r] + 1) * k_in <= x@.len(),
        x_rows@.len() + 256 <= u32::MAX,
        x_rows@.len() * n_out <= old(out)@.len(),
    ensures
        planned_rows(
            old(out)@,
            final(out)@,
            tile_expert@,
            tile_row_start@,
            tile_row_count@,
            num_tiles as int,
            x_rows@.len() as int,
            n_out as int,
            plan_outputs::<A, S, T>(
                x@,
                w@,
                scales@,
                biases@,
                x_rows@,
                n_out as int,
                k_in as int,
                group_size as int,
            ),
        ),
{
    let ghost was = out@;
    let ghost (start, count) = (tile_row_start@, tile_row_count@);
    let rows: usize = x_rows.len();
    let (n, k): (usize, usize) = (n_out as usize, k_in as usize);
    let stage: PhantomData<S> = PhantomData;
    let src = AffineTiles {
        bits: 4,
        x,
        w,
        scales,
        biases,
        map: Some(x_rows),
        n_out: n,
        k_in: k,
        group_size: group_size as usize,
        rows,
        depth: k,
        stage,
    };
    let shape = Shape { bm: 16, bn: 32, bk: 16, sm: 16, sn: 32 };
    let mut tx: usize = 0;
    while tx < n / 32
        invariant
            tx <= n / 32,
            out@.len() == was.len(),
            forall|i: int| rows * n <= i < was.len() ==> #[trigger] out@[i] == was[i],
            forall|t: int, r: int, c: int|
                0 <= t < num_tiles && 0 <= c < tx * 32 && #[trigger] covers(start, count, t, r)
                    ==> #[trigger] cell(out@, n as int, r, c) == plan_cell::<A, S, T>(
                    x@,
                    w@,
                    scales@,
                    biases@,
                    x_rows@,
                    n as int,
                    k as int,
                    group_size as int,
                    tile_expert@[t] as int,
                    r,
                    c,
                ),
            forall|r: int, c: int|
                0 <= r < rows && 0 <= c < n && (c >= tx * 32 || (forall|t: int|
                    0 <= t < num_tiles ==> !#[trigger] covers(start, count, t, r)))
                    ==> #[trigger] cell(out@, n as int, r, c) == cell(was, n as int, r, c),
        decreases n / 32 - tx,
    {
        let n_base: usize = tx * 32;
        let mut ti: usize = 0;
        while ti < num_tiles as usize
            invariant
                ti <= num_tiles,
                out@.len() == was.len(),
                forall|i: int| rows * n <= i < was.len() ==> #[trigger] out@[i] == was[i],
                forall|t: int, r: int, c: int|
                    0 <= t < num_tiles && 0 <= c < n_base + 32 && (c < n_base || t < ti)
                        && #[trigger] covers(start, count, t, r) ==> #[trigger] cell(
                        out@,
                        n as int,
                        r,
                        c,
                    ) == plan_cell::<A, S, T>(
                        x@,
                        w@,
                        scales@,
                        biases@,
                        x_rows@,
                        n as int,
                        k as int,
                        group_size as int,
                        tile_expert@[t] as int,
                        r,
                        c,
                    ),
                forall|r: int, c: int|
                    0 <= r < rows && 0 <= c < n && (c >= n_base + 32 || c >= n_base && (forall|
                        t: int,
                    |
                        0 <= t < ti ==> !#[trigger] covers(start, count, t, r)) || (forall|t: int|
                        0 <= t < num_tiles ==> !#[trigger] covers(start, count, t, r)))
                        ==> #[trigger] cell(out@, n as int, r, c) == cell(was, n as int, r, c),
            decreases num_tiles - ti,
        {
            let base: usize = tile_row_start[ti] as usize;
            let row_count: usize = tile_row_count[ti] as usize;
            let expert: u32 = tile_expert[ti];
            proof {
                assert forall|m: int| 0 <= m < row_count implies #[trigger] TileSource::<A>::has_row(
                    &src,
                    base + m,
                ) by {
                    assert(covers(start, count, ti as int, base + m));
                }
                if row_count > 0 {
                    assert(covers(start, count, ti as int, base + row_count - 1));
                }
            }
            if row_count > 0 {
                let acc: Vec<A> = tile(
                    &src,
                    &shape,
                    base,
                    0,
                    row_count,
                    expert as usize,
                    n_base,
                    n,
                    8,
                    k,
                );
                let ghost prev = out@;
                write_back(&acc, &shape, out, base, 0, row_count, n_base, rows, n, None::<A>);
                proof {
                    assert forall|r: int, c: int|
                        0 <= r < rows && 0 <= c < n && !(covers(start, count, ti as int, r)
                            && n_base <= c < n_base + 32) implies #[trigger] cell(
                        out@,
                        n as int,
                        r,
                        c,
                    ) == cell(prev, n as int, r, c) by {
                    }
                }
            }
            ti = ti + 1;
        }
        tx = tx + 1;
    }
}

/// Output `(r, c)` of a tile that belongs to `expert`.
#[allow(clippy::too_many_arguments)]
pub open spec fn plan_cell<A: Scalar, S: Storage<A>, T: Storage<A>>(
    x: Seq<T>,
    w: Seq<u32>,
    scales: Seq<T>,
    biases: Seq<T>,
    x_rows: Seq<u32>,
    n_out: int,
    k_in: int,
    group_size: int,
    expert: int,
    r: int,
    c: int,
) -> T {
    finished::<A, T>(
        None,
        mma_cell(
            staged_rows::<A, S, T>(x, source_rows(Some(x_rows)), k_in),
            affine_weights::<A, S, T>(4, w, scales, biases, n_out, k_in, group_size, expert),
            r,
            c,
            16,
            k_in / 16,
        ),
    )
}

/// [`plan_cell`] as a function of the expert, the row and the column.
#[allow(clippy::too_many_arguments)]
pub open spec fn plan_outputs<A: Scalar, S: Storage<A>, T: Storage<A>>(
    x: Seq<T>,
    w: Seq<u32>,
    scales: Seq<T>,
    biases: Seq<T>,
    x_rows: Seq<u32>,
    n_out: int,
    k_in: int,
    group_size: int,
) -> spec_fn(int, int, int) -> T {
    |expert: int, r: int, c: int|
        plan_cell::<A, S, T>(
            x,
            w,
            scales,
            biases,
            x_rows,
            n_out,
            k_in,
            group_size,
            expert,
            r,
            c,
        )
}

/// The rows of every tile hold `value` of the tile's expert; everything else is what it was
/// before.
#[allow(clippy::too_many_arguments)]
pub open spec fn planned_rows<T>(
    before: Seq<T>,
    out: Seq<T>,
    expert: Seq<u32>,
    start: Seq<u32>,
    count: Seq<u32>,
    num_tiles: int,
    rows: int,
    cols: int,
    value: spec_fn(int, int, int) -> T,
) -> bool {
    &&& out.len() == before.len()
    &&& forall|i: int| rows * cols <= i < before.len() ==> #[trigger] out[i] == before[i]
    &&& forall|t: int, r: int, c: int|
        0 <= t < num_tiles && 0 <= c < cols && #[trigger] covers(start, count, t, r)
            ==> #[trigger] cell(out, cols, r, c) == value(expert[t] as int, r, c)
    &&& forall|r: int, c: int|
        0 <= r < rows && 0 <= c < cols && (forall|t: int|
            0 <= t < num_tiles ==> !#[trigger] covers(start, count, t, r)) ==> #[trigger] cell(
            out,
            cols,
            r,
            c,
        ) == cell(before, cols, r, c)
}

/// The tile plan of the given row counts with 16-row tiles: owner, first row and number of
/// rows of every tile.
pub fn build_tile_plan(counts: &[usize]) -> (r: (Vec<u32>, Vec<u32>, Vec<u32>))
    requires
        counts@.len() <= u32::MAX,
        rows_before(sizes(counts@), counts@.len() as int) <= u32::MAX,
    ensures
        is_plan(r.0@, r.1@, r.2@, full_plan(sizes(counts@), 16, counts@.len() as int)),
{
    build_tile_plan_with_bm(counts, 16)
}

/// The three buffers are the plan, entry by entry.
pub open spec fn is_plan(expert: Seq<u32>, start: Seq<u32>, count: Seq<u32>, p: Seq<Tile>) -> bool {
    &&& expert.len() == p.len()
    &&& start.len() == p.len()
    &&& count.len() == p.len()
    &&& holds_plan(expert, start, count, p)
}

/// The three buffers hold the first `n` entries of the plan.
spec fn agrees(
    expert: Seq<u32>,
    start: Seq<u32>,
    count: Seq<u32>,
    p: Seq<Tile>,
    n: int,
) -> bool {
    &&& expert.len() == n
    &&& start.len() == n
    &&& count.len() == n
    &&& forall|t: int| 0 <= t < n ==> #[trigger] expert[t] == p[t].expert
    &&& forall|t: int| 0 <= t < n ==> #[trigger] start[t] == p[t].start
    &&& forall|t: int| 0 <= t < n ==> #[trigger] count[t] == p[t].count
}

/// Entry `t` of a plan's buffers.
proof fn lemma_entry(expert: Seq<u32>, start: Seq<u32>, count: Seq<u32>, p: Seq<Tile>, t: int)
    requires
        holds_plan(expert, start, count, p),
        0 <= t < p.len(),
    ensures
        expert[t] == p[t].expert,
        start[t] == p[t].start,
        count[t] == p[t].count,
{
    assert(expert[t] == p[t].expert);
}

/// One more entry.
proof fn lemma_agrees_push(
    expert: Seq<u32>,
    start: Seq<u32>,
    count: Seq<u32>,
    p: Seq<Tile>,
    n: int,
    e: u32,
    s: u32,
    c: u32,
)
    requires
        agrees(expert, start, count, p, n),
        e == p[n].expert,
        s == p[n].start,
        c == p[n].count,
    ensures
        agrees(expert.push(e), start.push(s), count.push(c), p, n + 1),
{
}

/// A plan's entries stay the first ones of a longer plan.
proof fn lemma_agrees_prefix(
    expert: Seq<u32>,
    start: Seq<u32>,
    count: Seq<u32>,
    p: Seq<Tile>,
    more: Seq<Tile>,
)
    requires
        is_plan(expert, start, count, p),
    ensures
        agrees(expert, start, count, p + more, p.len() as int),
{
    assert forall|t: int| 0 <= t < p.len() implies #[trigger] expert[t] == (p + more)[t].expert by {
        lemma_entry(expert, start, count, p, t);
    }
    assert forall|t: int| 0 <= t < p.len() implies #[trigger] start[t] == (p + more)[t].start by {
        lemma_entry(expert, start, count, p, t);
    }
    assert forall|t: int| 0 <= t < p.len() implies #[trigger] count[t] == (p + more)[t].count by {
        lemma_entry(expert, start, count, p, t);
    }
}

/// The tile plan of the given row counts with tiles of `bm` rows: `ceil(count / bm)` tiles
/// for every expert, in ascending expert order.
#[verifier::loop_isolation(false)]
pub fn build_tile_plan_with_bm(counts: &[usize], bm: usize) -> (r: (Vec<u32>, Vec<u32>, Vec<u32>))
    requires
        bm > 0,
        counts@.len() <= u32::MAX,
        rows_before(sizes(counts@), counts@.len() as int) <= u32::MAX,
    ensures
        is_plan(r.0@, r.1@, r.2@, full_plan(sizes(counts@), bm as int, counts@.len() as int)),
{
    let ghost count = sizes(counts@);
    let mut tile_expert: Vec<u32> = Vec::new();
    let mut tile_row_start: Vec<u32> = Vec::new();
    let mut tile_row_count: Vec<u32> = Vec::new();
    let mut row_base: usize = 0;
    let mut e: usize = 0;
    while e < counts.len()
        invariant
            e <= counts@.len(),
            row_base == rows_before(count, e as int),
            row_base <= u32::MAX,
            is_plan(
                tile_expert@,
                tile_row_start@,
                tile_row_count@,
                full_plan(count, bm as int, e as int),
            ),
        decreases counts@.len() - e,
    {
        let c: usize = counts[e];
        let ghost before = full_plan(count, bm as int, e as int);
        let ghost next = full_plan(count, bm as int, e + 1);
        let ghost k = (all_tiles(bm as int))(c as int);
        proof {
            lemma_rows_grow(count, e + 1, counts@.len() as int, counts@);
            assert(rows_before(count, e + 1) == row_base + c);
            assert(row_base + c <= u32::MAX);
            lemma_all_tiles(c as int, bm as int);
            assert(next == before + tiles_of(e as int, row_base as int, c as int, k, bm as int));
        }
        let mut done: usize = 0;
        let ghost mut j: int = 0;
        proof {
            lemma_agrees_prefix(
                tile_expert@,
                tile_row_start@,
                tile_row_count@,
                before,
                tiles_of(e as int, row_base as int, c as int, k, bm as int),
            );
        }
        while done < c
            invariant
                0 <= j <= k,
                done <= c,
                done == if j * bm < c {
                    j * bm
                } else {
                    c as int
                },
                done == c ==> j == k,
                done < c ==> j < k,
                agrees(tile_expert@, tile_row_start@, tile_row_count@, next, before.len() + j),
            decreases c - done,
        {
            let n: usize = if c - done < bm {
                c - done
            } else {
                bm
            };
            proof {
                assert(next[before.len() + j] == tiles_of(
                    e as int,
                    row_base as int,
                    c as int,
                    k,
                    bm as int,
                )[j]);
                let t = next[before.len() + j];
                assert(t.expert == e && t.start == row_base + done && t.count == n);
                assert((j + 1) * bm == j * bm + bm) by (nonlinear_arith);
                assert((j + 1 < k ==> (j + 1) * bm <= (k - 1) * bm) && (j + 1 >= k ==> k * bm <= (j
                    + 1) * bm)) by (nonlinear_arith)
                    requires
                        0 < bm,
                ;
            }
            let (owner, start, rows): (u32, u32, u32) = (
                e as u32,
                (row_base + done) as u32,
                n as u32,
            );
            proof {
                lemma_agrees_push(
                    tile_expert@,
                    tile_row_start@,
                    tile_row_count@,
                    next,
                    before.len() + j,
                    owner,
                    start,
                    rows,
                );
            }
            tile_expert.push(owner);
            tile_row_start.push(start);
            tile_row_count.push(rows);
            done = done + n;
            proof {
                j = j + 1;
            }
        }
        row_base = row_base + c;
        e = e + 1;
    }
    (tile_expert, tile_row_start, tile_row_count)
}

/// The buffers of the plan of two count lists joined are the buffers of the two plans joined,
/// with the second list's owners shifted by the length of the first and its starts by the
/// rows of the first.
#[allow(clippy::too_many_arguments)]
pub proof fn law_joined_counts_join_buffers(
    first: Seq<usize>,
    second: Seq<usize>,
    bm: int,
    fe: Seq<u32>,
    fs: Seq<u32>,
    fc: Seq<u32>,
    se: Seq<u32>,
    ss: Seq<u32>,
    sc: Seq<u32>,
    expert: Seq<u32>,
    start: Seq<u32>,
    count: Seq<u32>,
)
    requires
        bm > 0,
        is_plan(fe, fs, fc, full_plan(sizes(first), bm, first.len() as int)),
        is_plan(se, ss, sc, full_plan(sizes(second), bm, second.len() as int)),
        is_plan(
            expert,
            start,
            count,
            full_plan(sizes(first + second), bm, (first + second).len() as int),
        ),
    ensures
        expert == fe + se.map_values(|e: u32| (e + first.len()) as u32),
        start == fs + ss.map_values(
            |s: u32| (s + rows_before(sizes(first), first.len() as int)) as u32,
        ),
        count == fc + sc,
{
    let (n, m) = (first.len() as int, second.len() as int);
    let rows = rows_before(sizes(first), n);
    let front = full_plan(sizes(first), bm, n);
    let back = full_plan(sizes(second), bm, m);
    law_plans_join(sizes(first + second), sizes(first), n, sizes(second), m, bm);
    let p = front + shifted(back, n, rows);
    assert(full_plan(sizes(first + second), bm, (first + second).len() as int) == p);
    let es = fe + se.map_values(|e: u32| (e + first.len()) as u32);
    let starts = fs + ss.map_values(|s: u32| (s + rows) as u32);
    assert forall|t: int| 0 <= t < p.len() implies #[trigger] expert[t] == es[t] by {
        lemma_entry(expert, start, count, p, t);
        if t < front.len() {
            lemma_entry(fe, fs, fc, front, t);
        } else {
            lemma_entry(se, ss, sc, back, t - front.len());
        }
    }
    assert forall|t: int| 0 <= t < p.len() implies #[trigger] start[t] == starts[t] by {
        lemma_entry(expert, start, count, p, t);
        if t < front.len() {
            lemma_entry(fe, fs, fc, front, t);
        } else {
            lemma_entry(se, ss, sc, back, t - front.len());
        }
    }
    assert forall|t: int| 0 <= t < p.len() implies #[trigger] count[t] == (fc + sc)[t] by {
        lemma_entry(expert, start, count, p, t);
        if t < front.len() {
            lemma_entry(fe, fs, fc, front, t);
        } else {
            lemma_entry(se, ss, sc, back, t - front.len());
        }
    }
    assert(expert =~= es);
    assert(start =~= starts);
    assert(count =~= fc + sc);
}

/// The rows before an expert are at most all rows.
proof fn lemma_rows_grow(count: spec_fn(int) -> int, a: int, b: int, s: Seq<usize>)
    requires
        count == sizes(s),
        0 <= a <= b <= s.len(),
    ensures
        0 <= rows_before(count, a) <= rows_before(count, b),
    decreases b,
{
    if a < b {
        lemma_rows_grow(count, a, b - 1, s);
    } else if a > 0 {
        lemma_rows_grow(count, a - 1, b - 1, s);
    }
}

/// The tiles of a full plan of 16-row tiles share no row and lie inside the plan's rows, also
/// where the buffers hold entries without rows past the plan.
pub proof fn law_plan_tiles_are_separate(
    count: spec_fn(int) -> int,
    n: int,
    tile_expert: Seq<u32>,
    tile_row_start: Seq<u32>,
    tile_row_count: Seq<u32>,
    num_tiles: int,
)
    requires
        0 <= n,
        counted(count, n),
        holds_plan(tile_expert, tile_row_start, tile_row_count, full_plan(count, 16, n)),
        num_tiles <= tile_row_start.len(),
        num_tiles <= tile_row_count.len(),
        forall|t: int|
            full_plan(count, 16, n).len() <= t < num_tiles ==> #[trigger] tile_row_count[t] == 0,
    ensures
        separate_tiles(tile_row_start, tile_row_count, num_tiles, rows_before(count, n)),
{
    let p = full_plan(count, 16, n);
    let rows = rows_before(count, n);
    law_tiles_are_contiguous(count, 16, n);
    assert forall|t: int| 0 <= t < num_tiles implies #[trigger] tile_row_count[t] <= 16 by {
        if t < p.len() {
            assert(tile_expert[t] == p[t].expert);
            law_tiles_are_filled(count, 16, n, t);
        }
    }
    assert forall|t: int, r: int|
        0 <= t < num_tiles && #[trigger] covers(tile_row_start, tile_row_count, t, r) implies t
        < p.len() && p[t].start <= r < p[t].start + p[t].count && r < rows by {
        if t < p.len() {
            assert(tile_expert[t] == p[t].expert);
            law_tiles_are_filled(count, 16, n, t);
            law_tiles_are_single_expert(count, 16, n, t);
            lemma_stack_grows(count, p[t].expert + 1, n);
        }
    }
    assert forall|t: int, u: int, r: int|
        0 <= t < num_tiles && 0 <= u < num_tiles && #[trigger] covers(
            tile_row_start,
            tile_row_count,
            t,
            r,
        ) && #[trigger] covers(tile_row_start, tile_row_count, u, r) implies t == u by {
        assert(p[t].start <= r);
        let only = law_every_row_in_one_tile(count, 16, n, r);
    }
}

/// The rows before an expert are at most the rows before a later one.
proof fn lemma_stack_grows(count: spec_fn(int) -> int, a: int, b: int)
    requires
        0 <= a <= b,
        counted(count, b),
    ensures
        rows_before(count, a) <= rows_before(count, b),
    decreases b - a,
{
    if a < b {
        lemma_stack_grows(count, a, b - 1);
        assert(0 <= count(b - 1));
    }
}

} // verus!
