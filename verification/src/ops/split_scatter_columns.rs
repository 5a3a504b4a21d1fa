//! Splits rows into one scattered and two contiguous outputs.
//!
//! An input row holds `scatter_width` columns that overwrite indexed columns of the primary
//! output, then `copy_width` columns for each of the two other outputs.
use crate::tensor::lemma_flat_apart;
use vstd::prelude::*;

verus! {

/// The input row and column of element `idx`.
pub open spec fn input_place(idx: int, scatter_width: int, copy_width: int) -> (int, int) {
    let width = scatter_width + 2 * copy_width;
    (idx / width, idx % width)
}

/// Which output element `idx` goes to (0, 1 or 2), and where in it.
pub open spec fn target(
    indices: Seq<u32>,
    scatter_width: int,
    primary_width: int,
    copy_width: int,
    idx: int,
) -> (int, int) {
    let (row, col) = input_place(idx, scatter_width, copy_width);
    if col < scatter_width {
        (0, row * primary_width + indices[col])
    } else if col < scatter_width + copy_width {
        (1, row * copy_width + col - scatter_width)
    } else {
        (2, row * copy_width + col - scatter_width - copy_width)
    }
}

/// Scattered columns are distinct and lie in the primary output.
pub open spec fn scatters(indices: Seq<u32>, scatter_width: int, primary_width: int) -> bool {
    &&& scatter_width <= indices.len()
    &&& forall|c: int| 0 <= c < scatter_width ==> #[trigger] indices[c] < primary_width
    &&& forall|c: int, e: int|
        0 <= c < e < scatter_width ==> #[trigger] indices[c] != #[trigger] indices[e]
}

/// `now` holds what the first `n` input elements sent to output `which`, and what `before`
/// held wherever none went.
pub open spec fn received<T>(
    which: int,
    before: Seq<T>,
    now: Seq<T>,
    input: Seq<T>,
    indices: Seq<u32>,
    scatter_width: int,
    primary_width: int,
    copy_width: int,
    n: int,
) -> bool {
    &&& now.len() == before.len()
    &&& forall|idx: int|
        #![trigger target(indices, scatter_width, primary_width, copy_width, idx)]
        0 <= idx < n && target(indices, scatter_width, primary_width, copy_width, idx).0 == which
            ==> now[target(indices, scatter_width, primary_width, copy_width, idx).1] == input[idx]
    &&& forall|i: int|
        0 <= i < now.len() && (forall|idx: int|
            0 <= idx < n ==> #[trigger] target(
                indices,
                scatter_width,
                primary_width,
                copy_width,
                idx,
            ) != (which, i)) ==> #[trigger] now[i] == before[i]
}

/// Every target of the first `n` elements is in its output.
pub open spec fn targets_fit(
    indices: Seq<u32>,
    scatter_width: int,
    primary_width: int,
    copy_width: int,
    n: int,
    lens: (int, int, int),
) -> bool {
    forall|idx: int|
        0 <= idx < n ==> {
            let (which, at) = #[trigger] target(
                indices,
                scatter_width,
                primary_width,
                copy_width,
                idx,
            );
            at < (if which == 0 {
                lens.0
            } else if which == 1 {
                lens.1
            } else {
                lens.2
            })
        }
}

/// Distinct elements have distinct targets.
pub proof fn law_targets_are_distinct(
    indices: Seq<u32>,
    scatter_width: int,
    primary_width: int,
    copy_width: int,
    i: int,
    j: int,
)
    requires
        scatters(indices, scatter_width, primary_width),
        0 <= scatter_width,
        0 <= copy_width,
        0 < scatter_width + copy_width,
        0 <= i < j,
    ensures
        target(indices, scatter_width, primary_width, copy_width, i) != target(
            indices,
            scatter_width,
            primary_width,
            copy_width,
            j,
        ),
{
    let width = scatter_width + 2 * copy_width;
    let (r, c) = input_place(i, scatter_width, copy_width);
    let (s, e) = input_place(j, scatter_width, copy_width);
    vstd::arithmetic::div_mod::lemma_fundamental_div_mod(i, width);
    vstd::arithmetic::div_mod::lemma_fundamental_div_mod(j, width);
    vstd::arithmetic::div_mod::lemma_mod_bound(i, width);
    vstd::arithmetic::div_mod::lemma_mod_bound(j, width);
    let (a, b) = (
        target(indices, scatter_width, primary_width, copy_width, i),
        target(indices, scatter_width, primary_width, copy_width, j),
    );
    if a == b {
        if c < scatter_width {
            lemma_flat_apart(primary_width, r, indices[c] as int, s, indices[e] as int);
            if c < e {
                assert(indices[c] != indices[e]);
            } else if e < c {
                assert(indices[e] != indices[c]);
            }
        } else if c < scatter_width + copy_width {
            lemma_flat_apart(copy_width, r, c - scatter_width, s, e - scatter_width);
        } else {
            lemma_flat_apart(
                copy_width,
                r,
                c - scatter_width - copy_width,
                s,
                e - scatter_width - copy_width,
            );
        }
        assert(r == s && c == e);
    }
}

/// Moves every input element to its target.
#[allow(clippy::too_many_arguments)]
#[verifier::loop_isolation(false)]
pub fn iron_split_scatter_columns<T: Copy>(
    input: &[T],
    indices: &[u32],
    primary: &mut Vec<T>,
    secondary: &mut Vec<T>,
    tertiary: &mut Vec<T>,
    scatter_width: u32,
    primary_width: u32,
    copy_width: u32,
    n_elems: u32,
)
    requires
        0 < scatter_width + copy_width,
        scatter_width + 2 * copy_width <= u32::MAX,
        n_elems <= input@.len(),
        scatters(indices@, scatter_width as int, primary_width as int),
        targets_fit(
            indices@,
            scatter_width as int,
            primary_width as int,
            copy_width as int,
            n_elems as int,
            (
                old(primary)@.len() as int,
                old(secondary)@.len() as int,
                old(tertiary)@.len() as int,
            ),
        ),
    ensures
        received(
            0,
            old(primary)@,
            final(primary)@,
            input@,
            indices@,
            scatter_width as int,
            primary_width as int,
            copy_width as int,
            n_elems as int,
        ),
        received(
            1,
            old(secondary)@,
            final(secondary)@,
            input@,
            indices@,
            scatter_width as int,
            primary_width as int,
            copy_width as int,
            n_elems as int,
        ),
        received(
            2,
            old(tertiary)@,
            final(tertiary)@,
            input@,
            indices@,
            scatter_width as int,
            primary_width as int,
            copy_width as int,
            n_elems as int,
        ),
{
    let ghost (sw, pw, cw) = (scatter_width as int, primary_width as int, copy_width as int);
    let ghost (p0, s0, t0) = (primary@, secondary@, tertiary@);
    let input_width: usize = scatter_width as usize + 2 * copy_width as usize;
    let mut idx: usize = 0;
    while idx < n_elems as usize
        invariant
            idx <= n_elems,
            received(0, p0, primary@, input@, indices@, sw, pw, cw, idx as int),
            received(1, s0, secondary@, input@, indices@, sw, pw, cw, idx as int),
            received(2, t0, tertiary@, input@, indices@, sw, pw, cw, idx as int),
        decreases n_elems - idx,
    {
        let row: usize = idx / input_width;
        proof {
            vstd::arithmetic::div_mod::lemma_fundamental_div_mod(idx as int, input_width as int);
            vstd::arithmetic::div_mod::lemma_mod_bound(idx as int, input_width as int);
            assert(row * input_width == input_width * row) by (nonlinear_arith);
            assert(primary@.len() == primary.len() && secondary@.len() == secondary.len()
                && tertiary@.len() == tertiary.len());
            assert forall|e: int| 0 <= e < idx implies #[trigger] target(
                indices@,
                sw,
                pw,
                cw,
                e,
            ) != target(indices@, sw, pw, cw, idx as int) by {
                law_targets_are_distinct(indices@, sw, pw, cw, e, idx as int);
            }
            assert(0 <= row * primary_width && 0 <= row * copy_width) by (nonlinear_arith);
            assert forall|e: int| 0 <= e <= idx implies 0 <= (#[trigger] target(
                indices@,
                sw,
                pw,
                cw,
                e,
            )).1 by {
                lemma_target_nonneg(indices@, sw, pw, cw, e);
            }
        }
        let ghost to = target(indices@, sw, pw, cw, idx as int);
        let col: usize = idx - row * input_width;
        let value: T = input[idx];
        let ghost (p, s, t) = (primary@, secondary@, tertiary@);
        if col < scatter_width as usize {
            let out_col: u32 = indices[col];
            assert(to == (0int, row * pw + out_col));
            let at: usize = row * (primary_width as usize) + out_col as usize;
            primary[at] = value;
        } else if col < scatter_width as usize + copy_width as usize {
            assert(to == (1int, row * cw + col - sw));
            let at: usize = row * (copy_width as usize) + (col - scatter_width as usize);
            secondary[at] = value;
        } else {
            assert(to == (2int, row * cw + col - sw - cw));
            let at: usize = row * (copy_width as usize) + (col - scatter_width as usize
                - copy_width as usize);
            tertiary[at] = value;
        }
        proof {
            lemma_received(0, p0, p, primary@, input@, indices@, sw, pw, cw, idx as int);
            lemma_received(1, s0, s, secondary@, input@, indices@, sw, pw, cw, idx as int);
            lemma_received(2, t0, t, tertiary@, input@, indices@, sw, pw, cw, idx as int);
        }
        idx = idx + 1;
    }
}

/// Targets are positions.
proof fn lemma_target_nonneg(indices: Seq<u32>, sw: int, pw: int, cw: int, idx: int)
    requires
        0 <= sw,
        0 <= pw,
        0 <= cw,
        0 < sw + cw,
        0 <= idx,
    ensures
        0 <= target(indices, sw, pw, cw, idx).1,
{
    let (row, col) = input_place(idx, sw, cw);
    vstd::arithmetic::div_mod::lemma_div_pos_is_pos(idx, sw + 2 * cw);
    vstd::arithmetic::div_mod::lemma_mod_bound(idx, sw + 2 * cw);
    assert(0 <= row * pw && 0 <= row * cw) by (nonlinear_arith)
        requires
            0 <= row,
            0 <= pw,
            0 <= cw,
    ;
}

/// One more element arrives.
proof fn lemma_received<T>(
    which: int,
    before: Seq<T>,
    was: Seq<T>,
    now: Seq<T>,
    input: Seq<T>,
    indices: Seq<u32>,
    sw: int,
    pw: int,
    cw: int,
    n: int,
)
    requires
        0 <= n,
        received(which, before, was, input, indices, sw, pw, cw, n),
        forall|e: int|
            0 <= e < n ==> #[trigger] target(indices, sw, pw, cw, e) != target(
                indices,
                sw,
                pw,
                cw,
                n,
            ),
        forall|e: int|
            0 <= e <= n && (#[trigger] target(indices, sw, pw, cw, e)).0 == which ==> 0 <= target(
                indices,
                sw,
                pw,
                cw,
                e,
            ).1 < was.len(),
        target(indices, sw, pw, cw, n).0 == which ==> now == was.update(
            target(indices, sw, pw, cw, n).1,
            input[n],
        ),
        target(indices, sw, pw, cw, n).0 != which ==> now == was,
    ensures
        received(which, before, now, input, indices, sw, pw, cw, n + 1),
{
    assert forall|i: int|
        0 <= i < now.len() && (forall|idx: int|
            0 <= idx < n + 1 ==> #[trigger] target(indices, sw, pw, cw, idx) != (
                which,
                i,
            )) implies #[trigger] now[i] == before[i] by {
        assert(target(indices, sw, pw, cw, n) != (which, i));
        assert(was[i] == before[i]);
    }
}

/// Row `r` of the input is cut into three: its first columns overwrite the columns of row `r`
/// of the primary output that the indices name, the next become row `r` of the secondary
/// output, the last row `r` of the tertiary one.
#[allow(clippy::too_many_arguments)]
pub proof fn law_rows_are_split<T>(
    input: Seq<T>,
    indices: Seq<u32>,
    before: (Seq<T>, Seq<T>, Seq<T>),
    now: (Seq<T>, Seq<T>, Seq<T>),
    sw: int,
    pw: int,
    cw: int,
    n: int,
    r: int,
    c: int,
)
    requires
        scatters(indices, sw, pw),
        0 <= sw,
        0 <= cw,
        0 < sw + cw,
        received(0, before.0, now.0, input, indices, sw, pw, cw, n),
        received(1, before.1, now.1, input, indices, sw, pw, cw, n),
        received(2, before.2, now.2, input, indices, sw, pw, cw, n),
        0 <= r,
    ensures
        0 <= c < sw && r * (sw + 2 * cw) + c < n ==> now.0[r * pw + indices[c]] == input[r * (sw + 2 * cw) + c],
        0 <= c < cw && r * (sw + 2 * cw) + sw + c < n ==> now.1[r * cw + c] == input[r * (sw + 2
            * cw) + sw + c],
        0 <= c < cw && r * (sw + 2 * cw) + sw + cw + c < n ==> now.2[r * cw + c] == input[r * (sw
            + 2 * cw) + sw + cw + c],
        0 <= c < pw && r * pw + c < now.0.len() && (forall|i: int|
            0 <= i < sw ==> #[trigger] indices[i] != c) ==> now.0[r * pw + c] == before.0[r * pw
            + c],
{
    let width = sw + 2 * cw;
    if 0 <= c < sw {
        lemma_target(indices, sw, pw, cw, r, c);
        assert(target(indices, sw, pw, cw, r * width + c) == (0int, r * pw + indices[c]));
    }
    if 0 <= c < cw {
        lemma_target(indices, sw, pw, cw, r, sw + c);
        assert(target(indices, sw, pw, cw, r * width + (sw + c)) == (1int, r * cw + c));
        lemma_target(indices, sw, pw, cw, r, sw + cw + c);
        assert(target(indices, sw, pw, cw, r * width + (sw + cw + c)) == (2int, r * cw + c));
    }
    if 0 <= c < pw && r * pw + c < now.0.len() && (forall|i: int|
        0 <= i < sw ==> #[trigger] indices[i] != c) {
        let i = r * pw + c;
        assert forall|idx: int| 0 <= idx < n implies #[trigger] target(
            indices,
            sw,
            pw,
            cw,
            idx,
        ) != (0int, i) by {
            let (row, col) = input_place(idx, sw, cw);
            vstd::arithmetic::div_mod::lemma_mod_bound(idx, width);
            if col < sw && row * pw + indices[col] == i {
                lemma_flat_apart(pw, row, indices[col] as int, r, c);
            }
        }
        assert(0 <= r * pw) by (nonlinear_arith)
            requires
                0 <= r,
                0 <= pw,
        ;
        assert(now.0[i] == before.0[i]);
    }
}

/// Column `c` of input row `r`.
proof fn lemma_target(
    indices: Seq<u32>,
    sw: int,
    pw: int,
    cw: int,
    r: int,
    c: int,
)
    requires
        0 <= sw,
        0 <= cw,
        0 <= r,
        0 <= c < sw + 2 * cw,
    ensures
        input_place(r * (sw + 2 * cw) + c, sw, cw) == (r, c),
        0 <= r * (sw + 2 * cw) + c,
{
    let width = sw + 2 * cw;
    crate::tensor::lemma_flat(r + 1, width, r, c);
    vstd::arithmetic::div_mod::lemma_fundamental_div_mod_converse(r * width + c, width, r, c);
}

} // verus!
