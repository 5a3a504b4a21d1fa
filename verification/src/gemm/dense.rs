//! Tiled products over one weight matrix.
use crate::moe::gather::write_back;
use crate::scalar::{sum_from, whole, Scalar, Storage};
use crate::tensor::cell;
use crate::tile::{fma_terms, fma_tile, mma_cell, tile, Shape, TileSource};
use vstd::prelude::*;

verus! {

/// Element `(r, c)` of a tiled product: multiply-accumulate steps of depth `bk`, or products
/// added one by one.
pub open spec fn dense_cell<A: Scalar>(
    mma: bool,
    x: spec_fn(int, int) -> A,
    w: spec_fn(int, int) -> A,
    r: int,
    c: int,
    bk: int,
    depth: int,
) -> A {
    if mma {
        mma_cell(x, w, r, c, bk, depth / bk)
    } else {
        sum_from(whole(0), 0, depth, fma_terms(x, w, r, c))
    }
}

/// The threadgroups of one column of output tiles. Rows and columns that the output lacks
/// are staged as zeros and not stored.
#[allow(clippy::too_many_arguments)]
#[verifier::loop_isolation(false)]
pub(crate) fn column_tiles<A: Scalar, T: Storage<A>, W: TileSource<A>>(
    mma: bool,
    src: &W,
    shape: &Shape,
    out: &mut Vec<T>,
    rows: usize,
    cols: usize,
    n_base: usize,
    unit: usize,
    depth: usize,
)
    requires
        src.ready(),
        shape.wf(),
        !mma ==> shape.sm == shape.bm && shape.sn == shape.bn,
        forall|r: int| 0 <= r < rows ==> #[trigger] src.has_row(r),
        src.has_expert(0),
        cols == src.cols(),
        unit == src.unit(),
        unit > 0,
        shape.bk as int % unit as int == 0,
        depth == src.depth(),
        depth as int % shape.bk as int == 0,
        rows + 64 <= usize::MAX,
        n_base + shape.bn <= usize::MAX,
        rows * cols <= old(out)@.len(),
    ensures
        final(out)@.len() == old(out)@.len(),
        forall|i: int|
            rows * cols <= i < old(out)@.len() ==> #[trigger] final(out)@[i] == old(out)@[i],
        forall|r: int, c: int|
            0 <= r < rows && 0 <= c < cols ==> #[trigger] cell(final(out)@, cols as int, r, c) == (
            if n_base <= c < n_base + shape.bn {
                T::narrow_spec(
                    dense_cell(
                        mma,
                        src.x_at(),
                        src.w_at(0),
                        r,
                        c,
                        shape.bk as int,
                        depth as int,
                    ),
                )
            } else {
                cell(old(out)@, cols as int, r, c)
            }),
{
    let ghost was = out@;
    let bm: usize = shape.bm;
    let mut row0: usize = 0;
    while row0 < rows
        invariant
            row0 < rows + bm,
            out@.len() == was.len(),
            forall|i: int| rows * cols <= i < was.len() ==> #[trigger] out@[i] == was[i],
            forall|r: int, c: int|
                0 <= r < rows && 0 <= c < cols ==> #[trigger] cell(out@, cols as int, r, c) == (
                if r < row0 && n_base <= c < n_base + shape.bn {
                    T::narrow_spec(
                        dense_cell(
                            mma,
                            src.x_at(),
                            src.w_at(0),
                            r,
                            c,
                            shape.bk as int,
                            depth as int,
                        ),
                    )
                } else {
                    cell(was, cols as int, r, c)
                }),
        decreases rows + bm - row0,
    {
        let hi: usize = if rows - row0 < bm {
            rows - row0
        } else {
            bm
        };
        assert forall|m: int| 0 <= m < hi implies #[trigger] src.has_row(row0 + m) by {
            assert(0 <= row0 + m < rows);
        }
        let acc: Vec<A> = if mma {
            tile(src, shape, row0, 0, hi, 0, n_base, cols, unit, depth)
        } else {
            fma_tile(src, shape, row0, hi, 0, n_base, cols, unit, depth)
        };
        let ghost prev = out@;
        write_back(&acc, shape, out, row0, 0, hi, n_base, rows, cols, None);
        row0 = row0 + bm;
    }
}

} // verus!
