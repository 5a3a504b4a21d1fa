//! Compaction of padded caches, and transposition of token and head axes.
use crate::rows::{fill_grid, GridWork};
use crate::tensor::{cell, lemma_flat, read};
use vstd::prelude::*;

verus! {

/// Element `(i, j, k)` of a buffer of shape `[_, m, n]`.
pub open spec fn cell3<T>(s: Seq<T>, m: int, n: int, i: int, j: int, k: int) -> T {
    cell(s, n, i * m + j, k)
}

/// `now` holds, past shape `[a, b, c]`, what it held before.
pub open spec fn tail_kept<T>(before: Seq<T>, now: Seq<T>, a: int, b: int, c: int) -> bool {
    &&& now.len() == before.len()
    &&& forall|i: int| (a * b) * c <= i < now.len() ==> #[trigger] now[i] == before[i]
}

/// `dst`, of shape `[n_kv, k_len, head_dim]`, holds the first `k_len` entries of the middle
/// axis of `src`, of shape `[n_kv, max_seq, head_dim]`.
pub open spec fn compacted<T>(
    src: Seq<T>,
    dst: Seq<T>,
    n_kv: int,
    max_seq: int,
    k_len: int,
    head_dim: int,
) -> bool {
    forall|h: int, t: int, d: int|
        0 <= h < n_kv && 0 <= t < k_len && 0 <= d < head_dim ==> #[trigger] cell3(
            dst,
            k_len,
            head_dim,
            h,
            t,
            d,
        ) == cell3(src, max_seq, head_dim, h, t, d)
}

/// Both buffers hold the same elements with the first two axes exchanged: `out` has shape
/// `[b, a, c]`, `input` shape `[a, b, c]`.
pub open spec fn exchanged<T>(input: Seq<T>, out: Seq<T>, a: int, b: int, c: int) -> bool {
    forall|i: int, j: int, k: int|
        0 <= i < a && 0 <= j < b && 0 <= k < c ==> #[trigger] cell3(out, a, c, j, i, k) == cell3(
            input,
            b,
            c,
            i,
            j,
            k,
        )
}

/// Rows of a buffer, each taken from row `from(r)` of another.
struct Moved<'a, T> {
    input: &'a [T],
    /// Input rows per step of the outer axis of the output.
    outer: usize,
    /// Input rows per step of the inner axis of the output.
    inner: usize,
    inner_len: usize,
    cols: usize,
    rows: usize,
    input_rows: Ghost<int>,
}

/// The input row of output row `r`.
spec fn from_row(r: int, outer: int, inner: int, inner_len: int) -> int {
    (r / inner_len) * outer + (r % inner_len) * inner
}

/// The elements of moved rows.
spec fn moved_rows<T>(
    input: Seq<T>,
    outer: int,
    inner: int,
    inner_len: int,
    cols: int,
) -> spec_fn(int, int) -> T {
    |r: int, c: int| cell(input, cols, from_row(r, outer, inner, inner_len), c)
}

impl<'a, T: Copy> GridWork<T> for Moved<'a, T> {
    closed spec fn ready(&self) -> bool {
        &&& self.input_rows@ * self.cols <= self.input@.len()
        &&& self.input_rows@ <= usize::MAX
        &&& forall|r: int|
            0 <= r < self.rows ==> self.inner_len > 0 && 0 <= (r / self.inner_len as int)
                * self.outer && 0 <= (r % self.inner_len as int) * self.inner && #[trigger] from_row(
                r,
                self.outer as int,
                self.inner as int,
                self.inner_len as int,
            ) < self.input_rows@
    }

    closed spec fn rows(&self) -> int {
        self.rows as int
    }

    closed spec fn cols(&self) -> int {
        self.cols as int
    }

    closed spec fn values(&self) -> spec_fn(int, int) -> T {
        moved_rows(
            self.input@,
            self.outer as int,
            self.inner as int,
            self.inner_len as int,
            self.cols as int,
        )
    }

    fn at(&self, r: usize, c: usize) -> (v: T) {
        assert(from_row(r as int, self.outer as int, self.inner as int, self.inner_len as int)
            < self.input_rows@);
        let from: usize = (r / self.inner_len) * self.outer + (r % self.inner_len) * self.inner;
        read(self.input, self.input_rows, self.cols, from, c)
    }
}

/// Row `r` of shape `[a, b]` is `(r / b, r % b)`.
proof fn lemma_row_parts(a: int, b: int, r: int)
    requires
        0 <= r < a * b,
        0 <= b,
    ensures
        b > 0,
        0 <= r / b < a,
        0 <= r % b < b,
        r == (r / b) * b + r % b,
{
    assert(b > 0) by (nonlinear_arith)
        requires
            0 <= r < a * b,
            0 <= b,
    ;
    vstd::arithmetic::div_mod::lemma_fundamental_div_mod(r, b);
    vstd::arithmetic::div_mod::lemma_mod_bound(r, b);
    let q = r / b;
    assert(0 <= q < a) by (nonlinear_arith)
        requires
            r == b * q + r % b,
            0 <= r % b < b,
            0 <= r < a * b,
    ;
    assert(b * q == q * b) by (nonlinear_arith);
}

/// Position `(i, j)` of shape `[a, b]` has those parts.
proof fn lemma_parts_of(a: int, b: int, i: int, j: int)
    requires
        0 <= i < a,
        0 <= j < b,
    ensures
        0 <= i * b + j < a * b,
        (i * b + j) / b == i,
        (i * b + j) % b == j,
{
    lemma_flat(a, b, i, j);
    vstd::arithmetic::div_mod::lemma_fundamental_div_mod_converse(i * b + j, b, i, j);
}

/// Keeps the first `k_len` of `max_seq` positions of every head.
pub fn iron_compact_kv<T: Copy>(
    src: &[T],
    dst: &mut Vec<T>,
    n_kv: u32,
    max_seq: u32,
    k_len: u32,
    head_dim: u32,
)
    requires
        k_len <= max_seq,
        (n_kv * max_seq) * head_dim <= src@.len(),
        (n_kv * k_len) * head_dim <= old(dst)@.len(),
        n_kv * max_seq <= u32::MAX,
        head_dim < u32::MAX,
    ensures
        tail_kept(old(dst)@, final(dst)@, n_kv as int, k_len as int, head_dim as int),
        compacted(
            src@,
            final(dst)@,
            n_kv as int,
            max_seq as int,
            k_len as int,
            head_dim as int,
        ),
{
    proof {
        let (a, b, m) = (n_kv as int, k_len as int, max_seq as int);
        assert(a * b <= a * m) by (nonlinear_arith)
            requires
                0 <= a,
                b <= m,
        ;
        assert forall|r: int| 0 <= r < a * b implies b > 0 && 0 <= (r / b) * m && 0 <= (r % b) * 1
            && #[trigger] from_row(r, m, 1, b) < a * m by {
            lemma_row_parts(a, b, r);
            lemma_flat(a, m, r / b, r % b);
        }
    }
    let rows: usize = n_kv as usize * k_len as usize;
    let work = Moved {
        input: src,
        outer: max_seq as usize,
        inner: 1,
        inner_len: k_len as usize,
        cols: head_dim as usize,
        rows,
        input_rows: Ghost(n_kv * max_seq),
    };
    fill_grid(&work, dst, rows, head_dim as usize, 1);
    proof {
        assert forall|h: int, t: int, d: int|
            0 <= h < n_kv && 0 <= t < k_len && 0 <= d < head_dim implies #[trigger] cell3(
            dst@,
            k_len as int,
            head_dim as int,
            h,
            t,
            d,
        ) == cell3(src@, max_seq as int, head_dim as int, h, t, d) by {
            lemma_parts_of(n_kv as int, k_len as int, h, t);
        }
    }
}

/// Exchanges the first two axes of a `[a, b, c]` buffer.
fn exchange<T: Copy>(input: &[T], out: &mut Vec<T>, a: u32, b: u32, c: u32)
    requires
        (a * b) * c <= input@.len(),
        (a * b) * c <= old(out)@.len(),
        a * b <= u32::MAX,
        c < u32::MAX,
    ensures
        tail_kept(old(out)@, final(out)@, a as int, b as int, c as int),
        exchanged(input@, final(out)@, a as int, b as int, c as int),
{
    let rows: usize = a as usize * b as usize;
    let work = Moved {
        input,
        outer: 1,
        inner: b as usize,
        inner_len: a as usize,
        cols: c as usize,
        rows,
        input_rows: Ghost(a * b),
    };
    proof {
        assert(a * b == b * a) by (nonlinear_arith);
        assert forall|r: int| 0 <= r < work.rows implies work.inner_len > 0 && 0 <= (r
            / work.inner_len as int) * work.outer && 0 <= (r % work.inner_len as int) * work.inner
            && #[trigger] from_row(
            r,
            work.outer as int,
            work.inner as int,
            work.inner_len as int,
        ) < work.input_rows@ by {
            lemma_row_parts(b as int, a as int, r);
            lemma_flat(a as int, b as int, r % a as int, r / a as int);
        }
    }
    fill_grid(&work, out, rows, c as usize, 1);
    proof {
        assert forall|i: int, j: int, k: int|
            0 <= i < a && 0 <= j < b && 0 <= k < c implies #[trigger] cell3(
            out@,
            a as int,
            c as int,
            j,
            i,
            k,
        ) == cell3(input@, b as int, c as int, i, j, k) by {
            lemma_parts_of(b as int, a as int, j, i);
            assert(from_row(j * a + i, 1, b as int, a as int) == i * b + j);
        }
    }
}

/// Transposes `[T, H, D]` to `[H, T, D]`.
pub fn iron_transpose_thd<T: Copy>(
    input: &[T],
    out: &mut Vec<T>,
    t_len: u32,
    n_heads: u32,
    head_dim: u32,
)
    requires
        (t_len * n_heads) * head_dim <= input@.len(),
        (t_len * n_heads) * head_dim <= old(out)@.len(),
        t_len * n_heads <= u32::MAX,
        head_dim < u32::MAX,
    ensures
        tail_kept(old(out)@, final(out)@, t_len as int, n_heads as int, head_dim as int),
        exchanged(input@, final(out)@, t_len as int, n_heads as int, head_dim as int),
{
    exchange(input, out, t_len, n_heads, head_dim);
}

/// Transposes `[H, T, D]` to `[T, H, D]`.
pub fn iron_transpose_htd<T: Copy>(
    input: &[T],
    out: &mut Vec<T>,
    t_len: u32,
    n_heads: u32,
    head_dim: u32,
)
    requires
        (n_heads * t_len) * head_dim <= input@.len(),
        (n_heads * t_len) * head_dim <= old(out)@.len(),
        n_heads * t_len <= u32::MAX,
        head_dim < u32::MAX,
    ensures
        tail_kept(old(out)@, final(out)@, n_heads as int, t_len as int, head_dim as int),
        exchanged(input@, final(out)@, n_heads as int, t_len as int, head_dim as int),
{
    exchange(input, out, n_heads, t_len, head_dim);
}

/// Transposing there and back gives every element back.
pub proof fn law_transposes_are_inverse<T>(
    input: Seq<T>,
    there: Seq<T>,
    back: Seq<T>,
    a: int,
    b: int,
    c: int,
)
    requires
        0 <= a,
        0 <= b,
        0 <= c,
        (a * b) * c <= input.len(),
        (a * b) * c <= back.len(),
        exchanged(input, there, a, b, c),
        exchanged(there, back, b, a, c),
    ensures
        back.take((a * b) * c) == input.take((a * b) * c),
{
    assert forall|x: int| 0 <= x < (a * b) * c implies back[x] == input[x] by {
        lemma_row_parts(a * b, c, x);
        let r = x / c;
        let k = x % c;
        lemma_row_parts(a, b, r);
        let i = r / b;
        let j = r % b;
        assert(cell3(back, b, c, i, j, k) == cell3(there, a, c, j, i, k));
        assert(cell3(there, a, c, j, i, k) == cell3(input, b, c, i, j, k));
    }
    assert(back.take((a * b) * c) =~= input.take((a * b) * c));
}

/// Element `(h, t, d)` of a compacted cache, stored without gaps, is that of the padded one,
/// where every head has room for `max_seq` tokens.
#[allow(clippy::too_many_arguments)]
pub proof fn law_compaction<T>(
    src: Seq<T>,
    dst: Seq<T>,
    n_kv: int,
    max_seq: int,
    k_len: int,
    head_dim: int,
    h: int,
    t: int,
    d: int,
)
    requires
        compacted(src, dst, n_kv, max_seq, k_len, head_dim),
        0 <= h < n_kv,
        0 <= t < k_len,
        0 <= d < head_dim,
    ensures
        dst[(h * k_len + t) * head_dim + d] == src[(h * max_seq + t) * head_dim + d],
{
    assert(cell3(dst, k_len, head_dim, h, t, d) == cell3(src, max_seq, head_dim, h, t, d));
}

/// Element `(i, j, k)` of a buffer goes to `(j, i, k)` of the transposed one.
#[allow(clippy::too_many_arguments)]
pub proof fn law_transposition<T>(
    input: Seq<T>,
    out: Seq<T>,
    a: int,
    b: int,
    c: int,
    i: int,
    j: int,
    k: int,
)
    requires
        exchanged(input, out, a, b, c),
        0 <= i < a,
        0 <= j < b,
        0 <= k < c,
    ensures
        out[(j * a + i) * c + k] == input[(i * b + j) * c + k],
{
    assert(cell3(out, a, c, j, i, k) == cell3(input, b, c, i, j, k));
}

/// What comes behind the written shape is what it was before.
pub proof fn law_tail_is_kept<T>(before: Seq<T>, now: Seq<T>, a: int, b: int, c: int)
    requires
        tail_kept(before, now, a, b, c),
        0 <= (a * b) * c <= before.len(),
    ensures
        now.skip((a * b) * c) == before.skip((a * b) * c),
{
    assert(now.skip((a * b) * c) =~= before.skip((a * b) * c));
}

} // verus!
