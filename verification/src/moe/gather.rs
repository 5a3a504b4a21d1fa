//! The dispatches that gathered expert products share.
use crate::scalar::{Scalar, Storage};
use crate::tensor::{cell, put};
use crate::tile::{mma_cell, product, product_at, tile, Shape, TileSource};
use vstd::prelude::*;

verus! {

/// The row index that names no expert.
pub const NO_EXPERT: u32 = 4294967295;

/// An accumulator as it is stored: multiplied by `comp`, where there is one, and narrowed.
pub open spec fn finished<A: Scalar, T: Storage<A>>(comp: Option<A>, v: A) -> T {
    T::narrow_spec(
        match comp {
            Some(k) => v.times_spec(k),
            None => v,
        },
    )
}

/// Of the first `rows` rows, those that are routed hold `value`; everything else is what it
/// was before.
pub open spec fn routed_rows<T>(
    before: Seq<T>,
    out: Seq<T>,
    rows: int,
    cols: int,
    routed: spec_fn(int) -> bool,
    value: spec_fn(int, int) -> T,
) -> bool {
    &&& out.len() == before.len()
    &&& forall|i: int| rows * cols <= i < before.len() ==> #[trigger] out[i] == before[i]
    &&& forall|r: int, c: int|
        0 <= r < rows && 0 <= c < cols ==> #[trigger] cell(out, cols, r, c) == (if routed(r) {
            value(r, c)
        } else {
            cell(before, cols, r, c)
        })
}

/// The rows whose index names an expert.
pub open spec fn named_rows(indices: Seq<u32>) -> spec_fn(int) -> bool {
    |r: int| indices[r] != NO_EXPERT
}

/// The rows whose index names one of the first `n_experts` experts.
pub open spec fn covered_rows(indices: Seq<u32>, n_experts: int) -> spec_fn(int) -> bool {
    |r: int| indices[r] < n_experts
}

/// Stores tile rows `lo..hi` of an accumulator tile.
#[allow(clippy::too_many_arguments)]
#[verifier::loop_isolation(false)]
pub(crate) fn write_back<A: Scalar, T: Storage<A>>(
    acc: &Vec<A>,
    shape: &Shape,
    out: &mut Vec<T>,
    row0: usize,
    lo: usize,
    hi: usize,
    n_base: usize,
    rows: usize,
    cols: usize,
    comp: Option<A>,
)
    requires
        shape.wf(),
        acc@.len() == shape.bm * shape.bn,
        lo <= hi <= shape.bm,
        lo < hi ==> row0 + hi <= rows,
        n_base + shape.bn <= usize::MAX,
        rows * cols <= old(out)@.len(),
    ensures
        final(out)@.len() == old(out)@.len(),
        forall|i: int|
            rows * cols <= i < old(out)@.len() ==> #[trigger] final(out)@[i] == old(out)@[i],
        forall|r: int, c: int|
            0 <= r < rows && 0 <= c < cols ==> #[trigger] cell(final(out)@, cols as int, r, c) == (
            if row0 + lo <= r < row0 + hi && n_base <= c < n_base + shape.bn {
                finished::<A, T>(comp, product_at(acc@, *shape, r - row0, c - n_base))
            } else {
                cell(old(out)@, cols as int, r, c)
            }),
{
    let ghost was = out@;
    let mut mr: usize = lo;
    while mr < hi
        invariant
            lo <= mr <= hi,
            out@.len() == was.len(),
            forall|i: int| rows * cols <= i < was.len() ==> #[trigger] out@[i] == was[i],
            forall|r: int, c: int|
                0 <= r < rows && 0 <= c < cols ==> #[trigger] cell(out@, cols as int, r, c) == (
                if row0 + lo <= r < row0 + mr && n_base <= c < n_base + shape.bn {
                    finished::<A, T>(comp, product_at(acc@, *shape, r - row0, c - n_base))
                } else {
                    cell(was, cols as int, r, c)
                }),
        decreases hi - mr,
    {
        let mut nc: usize = 0;
        while nc < shape.bn
            invariant
                nc <= shape.bn,
                out@.len() == was.len(),
                forall|i: int| rows * cols <= i < was.len() ==> #[trigger] out@[i] == was[i],
                forall|r: int, c: int|
                    0 <= r < rows && 0 <= c < cols ==> #[trigger] cell(out@, cols as int, r, c) == (
                    if row0 + lo <= r && n_base <= c < n_base + shape.bn && (r < row0 + mr || r
                        == row0 + mr && c < n_base + nc) {
                        finished::<A, T>(comp, product_at(acc@, *shape, r - row0, c - n_base))
                    } else {
                        cell(was, cols as int, r, c)
                    }),
            decreases shape.bn - nc,
        {
            if n_base + nc < cols {
                let v: A = product(acc, shape, mr, nc);
                let v: A = match comp {
                    Some(k) => v.times(k),
                    None => v,
                };
                put(out, Ghost(rows as int), cols, row0 + mr, n_base + nc, T::narrow(v));
            }
            nc = nc + 1;
        }
        mr = mr + 1;
    }
}

/// The end of the run of equal indices that starts at tile row `off`.
fn sub_run_end(indices: &[u32], m_total: usize, base: usize, off: usize, bm: usize) -> (end: usize)
    requires
        m_total <= indices@.len(),
        off <= bm <= 64,
        base + 130 <= usize::MAX,
    ensures
        off < bm ==> off < end <= bm,
        off == bm ==> end == bm,
        off < bm && base + off < m_total ==> base + end <= m_total && forall|r: int|
            base + off <= r < base + end ==> #[trigger] indices@[r] == indices@[base + off],
{
    let valid: bool = off < bm && base + off < m_total;
    let expert: u32 = if valid {
        indices[base + off]
    } else {
        NO_EXPERT
    };
    let mut end: usize = bm;
    let mut found: bool = false;
    let mut i: usize = 0;
    while i < bm
        invariant
            m_total <= indices@.len(),
            off <= bm <= 64,
            base + 130 <= usize::MAX,
            valid == (off < bm && base + off < m_total),
            valid ==> expert == indices@[base + off],
            i <= bm,
            !found ==> end == bm,
            found ==> off < end < bm,
            !found && valid ==> base + off + (if off + i < bm {
                i as int
            } else {
                bm - 1 - off
            }) < m_total,
            !found && valid ==> forall|r: int|
                base + off <= r < base + bm && r <= base + off + i ==> #[trigger] indices@[r]
                    == expert,
            found && valid ==> base + end <= m_total && forall|r: int|
                base + off <= r < base + end ==> #[trigger] indices@[r] == expert,
        decreases bm - i,
    {
        let probe: usize = off + 1 + i;
        if probe < bm && !found {
            if base + probe < m_total {
                if indices[base + probe] != expert {
                    end = probe;
                    found = true;
                }
            } else {
                end = probe;
                found = true;
            }
        }
        i = i + 1;
    }
    end
}

/// One threadgroup per output tile. Each walks the runs of equal indices in its rows and
/// multiplies each run with its expert's weights.
#[allow(clippy::too_many_arguments)]
#[verifier::loop_isolation(false)]
#[verifier::rlimit(40)]
pub(crate) fn gather_walk<A: Scalar, T: Storage<A>, W: TileSource<A>>(
    src: &W,
    shape: &Shape,
    indices: &[u32],
    out: &mut Vec<T>,
    m_total: usize,
    n_out: usize,
    unit: usize,
    depth: usize,
    comp: Option<A>,
)
    requires
        src.ready(),
        shape.wf(),
        m_total <= indices@.len(),
        forall|r: int| 0 <= r < m_total ==> #[trigger] src.has_row(r),
        forall|r: int|
            0 <= r < m_total && #[trigger] indices@[r] != NO_EXPERT ==> src.has_expert(
                indices@[r] as int,
            ),
        n_out == src.cols(),
        n_out as int % shape.bn as int == 0 || n_out + 64 <= usize::MAX,
        unit == src.unit(),
        unit > 0,
        shape.bk as int % unit as int == 0,
        depth == src.depth(),
        depth as int % shape.bk as int == 0,
        m_total + 256 <= usize::MAX,
        m_total * n_out <= old(out)@.len(),
    ensures
        final(out)@.len() == old(out)@.len(),
        forall|i: int|
            m_total * n_out <= i < old(out)@.len() ==> #[trigger] final(out)@[i] == old(out)@[i],
        forall|r: int, c: int|
            0 <= r < m_total && 0 <= c < n_out ==> #[trigger] cell(final(out)@, n_out as int, r, c)
                == (if indices@[r] == NO_EXPERT {
                cell(old(out)@, n_out as int, r, c)
            } else {
                finished::<A, T>(
                    comp,
                    mma_cell(
                        src.x_at(),
                        src.w_at(indices@[r] as int),
                        r,
                        c,
                        shape.bk as int,
                        depth as int / shape.bk as int,
                    ),
                )
            }),
{
    let ghost was = out@;
    let ghost want = |r: int, c: int|
        if indices@[r] == NO_EXPERT {
            cell(was, n_out as int, r, c)
        } else {
            finished::<A, T>(
                comp,
                mma_cell(
                    src.x_at(),
                    src.w_at(indices@[r] as int),
                    r,
                    c,
                    shape.bk as int,
                    depth as int / shape.bk as int,
                ),
            )
        };
    let (bm, bn): (usize, usize) = (shape.bm, shape.bn);
    let n_tiles: usize = n_out / bn + if n_out % bn == 0 {
        0
    } else {
        1
    };
    let m_tiles: usize = (m_total + bm - 1) / bm;
    proof {
        vstd::arithmetic::div_mod::lemma_fundamental_div_mod(n_out as int, bn as int);
        vstd::arithmetic::div_mod::lemma_fundamental_div_mod(m_total + bm - 1, bm as int);
        let (whole, rest) = (n_out as int / bn as int, n_out as int % bn as int);
        assert(n_tiles * bn == n_out - rest + (if rest == 0 {
            0
        } else {
            bn as int
        })) by (nonlinear_arith)
            requires
                n_out == bn * whole + rest,
                n_tiles == whole + (if rest == 0 {
                    0int
                } else {
                    1
                }),
        ;
        assert(m_tiles * bm >= m_total && m_tiles * bm <= m_total + bm - 1) by (nonlinear_arith)
            requires
                m_total + bm - 1 == bm * m_tiles + (m_total + bm - 1) % (bm as int),
                0 <= (m_total + bm - 1) % (bm as int) < bm,
        ;
    }
    let mut tx: usize = 0;
    while tx < n_tiles
        invariant
            tx <= n_tiles,
            out@.len() == was.len(),
            forall|i: int| m_total * n_out <= i < was.len() ==> #[trigger] out@[i] == was[i],
            forall|r: int, c: int|
                0 <= r < m_total && 0 <= c < n_out ==> #[trigger] cell(out@, n_out as int, r, c)
                    == (if c < tx * bn {
                    want(r, c)
                } else {
                    cell(was, n_out as int, r, c)
                }),
        decreases n_tiles - tx,
    {
        proof {
            assert(tx * bn + bn <= n_tiles * bn) by (nonlinear_arith)
                requires
                    tx + 1 <= n_tiles,
            ;
            assert((tx + 1) * bn == tx * bn + bn && 0 <= tx * bn) by (nonlinear_arith);
        }
        let n_base: usize = tx * bn;
        let mut ty: usize = 0;
        while ty < m_tiles
            invariant
                ty <= m_tiles,
                out@.len() == was.len(),
                forall|i: int| m_total * n_out <= i < was.len() ==> #[trigger] out@[i] == was[i],
                forall|r: int, c: int|
                    0 <= r < m_total && 0 <= c < n_out ==> #[trigger] cell(out@, n_out as int, r, c)
                        == (if c < n_base || c < n_base + bn && r < ty * bm {
                        want(r, c)
                    } else {
                        cell(was, n_out as int, r, c)
                    }),
            decreases m_tiles - ty,
        {
            proof {
                assert(ty * bm + bm <= m_tiles * bm) by (nonlinear_arith)
                    requires
                        ty + 1 <= m_tiles,
                ;
                assert((ty + 1) * bm == ty * bm + bm && 0 <= ty * bm) by (nonlinear_arith);
            }
            let base: usize = ty * bm;
            let mut off: usize = 0;
            let mut sub: usize = 0;
            while sub < bm
                invariant
                    sub <= bm,
                    sub <= off <= bm,
                    out@.len() == was.len(),
                    forall|i: int|
                        m_total * n_out <= i < was.len() ==> #[trigger] out@[i] == was[i],
                    forall|r: int, c: int|
                        0 <= r < m_total && 0 <= c < n_out ==> #[trigger] cell(
                            out@,
                            n_out as int,
                            r,
                            c,
                        ) == (if c < n_base || c < n_base + bn && r < base + off {
                            want(r, c)
                        } else {
                            cell(was, n_out as int, r, c)
                        }),
                decreases bm - sub,
            {
                let end: usize = sub_run_end(indices, m_total, base, off, bm);
                if off < bm && base + off < m_total {
                    let expert: u32 = indices[base + off];
                    proof {
                        assert forall|m: int| off <= m < end implies #[trigger] src.has_row(
                            base + m,
                        ) by {
                            assert(base + m < m_total);
                        }
                    }
                    if expert != NO_EXPERT {
                        let acc: Vec<A> = tile(
                            src,
                            shape,
                            base,
                            off,
                            end,
                            expert as usize,
                            n_base,
                            n_out,
                            unit,
                            depth,
                        );
                        write_back(
                            &acc,
                            shape,
                            out,
                            base,
                            off,
                            end,
                            n_base,
                            m_total,
                            n_out,
                            comp,
                        );
                    }
                }
                off = end;
                sub = sub + 1;
            }
            ty = ty + 1;
        }
        tx = tx + 1;
    }
}

/// Ascending indices.
pub open spec fn ascending(indices: Seq<u32>, n: int) -> bool {
    forall|i: int, j: int| 0 <= i <= j < n ==> #[trigger] indices[i] <= #[trigger] indices[j]
}

/// The rows of `expert` are exactly `lo..hi`.
pub open spec fn is_run(indices: Seq<u32>, n: int, expert: int, lo: int, hi: int) -> bool {
    &&& 0 <= lo <= hi <= n
    &&& forall|r: int| 0 <= r < n ==> (#[trigger] indices[r] == expert <==> lo <= r < hi)
}

/// Finds an expert's rows by a linear scan of the sorted indices.
pub(crate) fn scan_run(indices: &[u32], m_total: usize, expert: u32) -> (run: (usize, usize))
    requires
        m_total <= indices@.len(),
        ascending(indices@, m_total as int),
    ensures
        is_run(indices@, m_total as int, expert as int, run.0 as int, run.1 as int),
{
    let mut lo: usize = m_total;
    let mut hi: usize = m_total;
    let mut found: bool = false;
    let mut i: usize = 0;
    while i < m_total
        invariant
            m_total <= indices@.len(),
            ascending(indices@, m_total as int),
            i <= m_total,
            !found ==> lo == m_total && hi == m_total,
            !found ==> forall|r: int| 0 <= r < i ==> #[trigger] indices@[r] != expert,
            found ==> lo < hi <= i && indices@[lo as int] == expert && indices@[hi - 1] == expert,
            found ==> forall|r: int|
                0 <= r < i ==> (#[trigger] indices@[r] == expert <==> lo <= r < hi),
        decreases m_total - i,
    {
        let e: u32 = indices[i];
        if e == expert && !found {
            lo = i;
            found = true;
        }
        if e == expert && found {
            hi = i + 1;
        }
        i = i + 1;
    }
    (lo, hi)
}

/// The first row whose index is at least `key`, found by bisection.
pub(crate) fn lower_bound(indices: &[u32], m_total: usize, key: u32) -> (p: usize)
    requires
        m_total <= indices@.len(),
        ascending(indices@, m_total as int),
    ensures
        p <= m_total,
        forall|r: int| 0 <= r < p ==> #[trigger] indices@[r] < key,
        forall|r: int| p <= r < m_total ==> #[trigger] indices@[r] >= key,
{
    let mut lo: usize = 0;
    let mut hi: usize = m_total;
    while lo < hi
        invariant
            m_total <= indices@.len(),
            ascending(indices@, m_total as int),
            lo <= hi <= m_total,
            forall|r: int| 0 <= r < lo ==> #[trigger] indices@[r] < key,
            forall|r: int| hi <= r < m_total ==> #[trigger] indices@[r] >= key,
        decreases hi - lo,
    {
        let mid: usize = lo + (hi - lo) / 2;
        if indices[mid] < key {
            lo = mid + 1;
        } else {
            hi = mid;
        }
    }
    lo
}

/// Finds an expert's rows by two bisections of the sorted indices.
pub(crate) fn bisect_run(indices: &[u32], m_total: usize, expert: u32) -> (run: (usize, usize))
    requires
        m_total <= indices@.len(),
        ascending(indices@, m_total as int),
        expert < u32::MAX,
    ensures
        is_run(indices@, m_total as int, expert as int, run.0 as int, run.1 as int),
{
    let lo: usize = lower_bound(indices, m_total, expert);
    let hi: usize = lower_bound(indices, m_total, expert + 1);
    proof {
        if lo > hi {
            assert(indices@[hi as int] < expert && indices@[hi as int] >= expert + 1);
        }
    }
    (lo, hi)
}

/// One threadgroup per output column tile and expert. Each finds its expert's rows in the
/// sorted indices and walks them in tiles of `bm` rows.
#[allow(clippy::too_many_arguments)]
#[verifier::loop_isolation(false)]
#[verifier::rlimit(40)]
pub(crate) fn expert_grid<A: Scalar, T: Storage<A>, W: TileSource<A>>(
    src: &W,
    shape: &Shape,
    indices: &[u32],
    out: &mut Vec<T>,
    m_total: usize,
    n_out: usize,
    n_experts: u32,
    unit: usize,
    depth: usize,
    comp: Option<A>,
    scan: bool,
)
    requires
        src.ready(),
        shape.wf(),
        m_total <= indices@.len(),
        ascending(indices@, m_total as int),
        forall|r: int| 0 <= r < m_total ==> #[trigger] src.has_row(r),
        forall|e: int| 0 <= e < n_experts ==> #[trigger] src.has_expert(e),
        n_out == src.cols(),
        n_out as int % shape.bn as int == 0,
        unit == src.unit(),
        unit > 0,
        shape.bk as int % unit as int == 0,
        depth == src.depth(),
        depth as int % shape.bk as int == 0,
        m_total + 256 <= usize::MAX,
        m_total * n_out <= old(out)@.len(),
    ensures
        final(out)@.len() == old(out)@.len(),
        forall|i: int|
            m_total * n_out <= i < old(out)@.len() ==> #[trigger] final(out)@[i] == old(out)@[i],
        forall|r: int, c: int|
            0 <= r < m_total && 0 <= c < n_out ==> #[trigger] cell(final(out)@, n_out as int, r, c)
                == (if indices@[r] < n_experts {
                finished::<A, T>(
                    comp,
                    mma_cell(
                        src.x_at(),
                        src.w_at(indices@[r] as int),
                        r,
                        c,
                        shape.bk as int,
                        depth as int / shape.bk as int,
                    ),
                )
            } else {
                cell(old(out)@, n_out as int, r, c)
            }),
{
    let ghost was = out@;
    let ghost want = |r: int, c: int|
        finished::<A, T>(
            comp,
            mma_cell(
                src.x_at(),
                src.w_at(indices@[r] as int),
                r,
                c,
                shape.bk as int,
                depth as int / shape.bk as int,
            ),
        );
    let (bm, bn): (usize, usize) = (shape.bm, shape.bn);
    let n_tiles: usize = n_out / bn;
    proof {
        vstd::arithmetic::div_mod::lemma_fundamental_div_mod(n_out as int, bn as int);
        assert(n_tiles * bn == n_out) by (nonlinear_arith)
            requires
                n_out == bn * n_tiles,
        ;
    }
    let mut tx: usize = 0;
    while tx < n_tiles
        invariant
            tx <= n_tiles,
            out@.len() == was.len(),
            forall|i: int| m_total * n_out <= i < was.len() ==> #[trigger] out@[i] == was[i],
            forall|r: int, c: int|
                0 <= r < m_total && 0 <= c < n_out ==> #[trigger] cell(out@, n_out as int, r, c)
                    == (if c < tx * bn && indices@[r] < n_experts {
                    want(r, c)
                } else {
                    cell(was, n_out as int, r, c)
                }),
        decreases n_tiles - tx,
    {
        proof {
            assert(tx * bn + bn <= n_tiles * bn) by (nonlinear_arith)
                requires
                    tx + 1 <= n_tiles,
            ;
            assert((tx + 1) * bn == tx * bn + bn && 0 <= tx * bn) by (nonlinear_arith);
        }
        let n_base: usize = tx * bn;
        let mut expert: u32 = 0;
        while expert < n_experts
            invariant
                expert <= n_experts,
                out@.len() == was.len(),
                forall|i: int| m_total * n_out <= i < was.len() ==> #[trigger] out@[i] == was[i],
                forall|r: int, c: int|
                    0 <= r < m_total && 0 <= c < n_out ==> #[trigger] cell(out@, n_out as int, r, c)
                        == (if indices@[r] < n_experts && (c < n_base || c < n_base + bn
                        && indices@[r] < expert) {
                        want(r, c)
                    } else {
                        cell(was, n_out as int, r, c)
                    }),
            decreases n_experts - expert,
        {
            let (lo, hi): (usize, usize) = if scan {
                scan_run(indices, m_total, expert)
            } else {
                bisect_run(indices, m_total, expert)
            };
            let mut row0: usize = lo;
            while row0 < hi
                invariant
                    lo <= row0,
                    row0 <= hi + 64,
                    out@.len() == was.len(),
                    forall|i: int|
                        m_total * n_out <= i < was.len() ==> #[trigger] out@[i] == was[i],
                    forall|r: int, c: int|
                        0 <= r < m_total && 0 <= c < n_out ==> #[trigger] cell(
                            out@,
                            n_out as int,
                            r,
                            c,
                        ) == (if indices@[r] < n_experts && (c < n_base || c < n_base + bn && (
                        indices@[r] < expert || indices@[r] == expert && r < row0)) {
                            want(r, c)
                        } else {
                            cell(was, n_out as int, r, c)
                        }),
                decreases hi + 64 - row0,
            {
                let count: usize = if row0 + bm < hi {
                    bm
                } else {
                    hi - row0
                };
                assert(src.has_expert(expert as int));
                assert forall|m: int| 0 <= m < count implies #[trigger] src.has_row(row0 + m) by {
                }
                let acc: Vec<A> = tile(
                    src,
                    shape,
                    row0,
                    0,
                    count,
                    expert as usize,
                    n_base,
                    n_out,
                    unit,
                    depth,
                );
                write_back(&acc, shape, out, row0, 0, count, n_base, m_total, n_out, comp);
                row0 = row0 + bm;
            }
            expert = expert + 1;
        }
        tx = tx + 1;
    }
}

/// Routed rows lie row by row: element `i` is in row `i / cols`, column `i % cols`. Elements of
/// other rows, and what comes behind all rows, are what they were before.
#[allow(clippy::too_many_arguments)]
pub proof fn law_routed_rows<T>(
    before: Seq<T>,
    out: Seq<T>,
    rows: int,
    cols: int,
    routed: spec_fn(int) -> bool,
    value: spec_fn(int, int) -> T,
    i: int,
)
    requires
        routed_rows(before, out, rows, cols, routed, value),
        0 < cols,
        0 <= i < before.len(),
    ensures
        out.len() == before.len(),
        out[i] == (if i < rows * cols && routed(i / cols) {
            value(i / cols, i % cols)
        } else {
            before[i]
        }),
{
    if i < rows * cols {
        let (r, c) = (i / cols, i % cols);
        vstd::arithmetic::div_mod::lemma_fundamental_div_mod(i, cols);
        vstd::arithmetic::div_mod::lemma_mod_bound(i, cols);
        vstd::arithmetic::div_mod::lemma_div_pos_is_pos(i, cols);
        assert(r < rows) by (nonlinear_arith)
            requires
                i == cols * r + c,
                0 <= c,
                i < rows * cols,
                0 < cols,
        ;
        assert(cols * r == r * cols) by (nonlinear_arith);
        assert(cell(out, cols, r, c) == (if routed(r) {
            value(r, c)
        } else {
            cell(before, cols, r, c)
        }));
    }
}

} // verus!
