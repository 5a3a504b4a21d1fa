//! Row-major views of flat buffers.
use vstd::prelude::*;

verus! {

/// Element `(r, c)` of a row-major buffer with `cols` columns.
pub open spec fn cell<T>(s: Seq<T>, cols: int, r: int, c: int) -> T {
    s[r * cols + c]
}

/// The first `n` elements hold `value`, the others what they held before.
pub open spec fn filled<T>(before: Seq<T>, now: Seq<T>, n: int, value: spec_fn(int) -> T) -> bool {
    &&& now.len() == before.len()
    &&& forall|i: int| 0 <= i < n ==> #[trigger] now[i] == value(i)
    &&& forall|i: int| n <= i < now.len() ==> #[trigger] now[i] == before[i]
}

/// The first `rows * cols` elements hold the matrix `value`, the others what they held
/// before.
pub open spec fn filled2<T>(
    before: Seq<T>,
    now: Seq<T>,
    rows: int,
    cols: int,
    value: spec_fn(int, int) -> T,
) -> bool {
    &&& now.len() == before.len()
    &&& forall|r: int, c: int|
        0 <= r < rows && 0 <= c < cols ==> #[trigger] cell(now, cols, r, c) == value(r, c)
    &&& forall|i: int| rows * cols <= i < now.len() ==> #[trigger] now[i] == before[i]
}

/// A row-major position lies inside the buffer.
pub proof fn lemma_flat(rows: int, cols: int, r: int, c: int)
    requires
        0 <= r < rows,
        0 <= c < cols,
    ensures
        0 <= r * cols,
        r * cols + c < rows * cols,
        r * cols + cols <= rows * cols,
{
    assert(r * cols + cols == (r + 1) * cols) by (nonlinear_arith);
    assert((r + 1) * cols <= rows * cols) by (nonlinear_arith)
        requires
            r + 1 <= rows,
            0 <= cols,
    ;
    assert(0 <= r * cols) by (nonlinear_arith)
        requires
            0 <= r,
            0 <= cols,
    ;
}

/// Distinct positions are stored apart.
pub proof fn lemma_flat_apart(cols: int, r: int, c: int, r2: int, c2: int)
    requires
        0 <= c < cols,
        0 <= c2 < cols,
        r * cols + c == r2 * cols + c2,
    ensures
        r == r2,
        c == c2,
{
    assert(r == r2) by (nonlinear_arith)
        requires
            0 <= c < cols,
            0 <= c2 < cols,
            r * cols + c == r2 * cols + c2,
    ;
}

/// The flat index of `(r, c)` in a buffer of `rows` rows.
pub(crate) fn flat(rows: Ghost<int>, cols: usize, r: usize, c: usize) -> (i: usize)
    requires
        r < rows@,
        c < cols,
        rows@ * cols <= usize::MAX,
    ensures
        i == r * cols + c,
        i < rows@ * cols,
{
    proof {
        lemma_flat(rows@, cols as int, r as int, c as int);
    }
    r * cols + c
}

/// Reads `(r, c)`.
pub(crate) fn read<T: Copy>(s: &[T], rows: Ghost<int>, cols: usize, r: usize, c: usize) -> (v: T)
    requires
        r < rows@,
        c < cols,
        rows@ * cols <= s@.len(),
    ensures
        v == cell(s@, cols as int, r as int, c as int),
{
    assert(s@.len() == s.len());
    let i = flat(rows, cols, r, c);
    s[i]
}

/// Writes `(r, c)`, leaving every other element of the buffer alone.
pub(crate) fn put<T>(s: &mut Vec<T>, rows: Ghost<int>, cols: usize, r: usize, c: usize, v: T)
    requires
        r < rows@,
        c < cols,
        rows@ * cols <= old(s)@.len(),
    ensures
        final(s)@ == old(s)@.update(r * cols + c, v),
        forall|r2: int, c2: int|
            0 <= r2 && 0 <= c2 < cols && r2 < rows@ ==> #[trigger] cell(
                final(s)@,
                cols as int,
                r2,
                c2,
            ) == (if r2 == r && c2 == c {
                v
            } else {
                cell(old(s)@, cols as int, r2, c2)
            }),
        forall|i: int|
            rows@ * cols <= i < old(s)@.len() ==> #[trigger] final(s)@[i] == old(s)@[i],
        final(s)@.len() == old(s)@.len(),
{
    assert(s@.len() == s.len());
    let i = flat(rows, cols, r, c);
    s[i] = v;
    proof {
        assert forall|r2: int, c2: int|
            0 <= r2 && 0 <= c2 < cols && r2 < rows@ implies #[trigger] cell(
            s@,
            cols as int,
            r2,
            c2,
        ) == (if r2 == r && c2 == c {
            v
        } else {
            cell(old(s)@, cols as int, r2, c2)
        }) by {
            lemma_flat(rows@, cols as int, r2, c2);
            if r2 * cols + c2 == i {
                lemma_flat_apart(cols as int, r as int, c as int, r2, c2);
            }
        }
    }
}

/// Writes row `r`, leaving every other element of the buffer alone.
#[verifier::loop_isolation(false)]
pub(crate) fn put_row<T: Copy>(
    s: &mut Vec<T>,
    rows: Ghost<int>,
    cols: usize,
    r: usize,
    vals: &Vec<T>,
)
    requires
        r < rows@,
        vals@.len() == cols,
        rows@ * cols <= old(s)@.len(),
    ensures
        final(s)@.len() == old(s)@.len(),
        forall|r2: int, c2: int|
            0 <= r2 < rows@ && 0 <= c2 < cols ==> #[trigger] cell(final(s)@, cols as int, r2, c2)
                == (if r2 == r {
                vals@[c2]
            } else {
                cell(old(s)@, cols as int, r2, c2)
            }),
        forall|i: int|
            rows@ * cols <= i < old(s)@.len() ==> #[trigger] final(s)@[i] == old(s)@[i],
{
    let ghost was = s@;
    let mut c: usize = 0;
    while c < cols
        invariant
            c <= cols,
            s@.len() == was.len(),
            forall|r2: int, c2: int|
                0 <= r2 < rows@ && 0 <= c2 < cols ==> #[trigger] cell(s@, cols as int, r2, c2) == (
                if r2 == r && c2 < c {
                    vals@[c2]
                } else {
                    cell(was, cols as int, r2, c2)
                }),
            forall|i: int| rows@ * cols <= i < was.len() ==> #[trigger] s@[i] == was[i],
        decreases cols - c,
    {
        put(s, rows, cols, r, c, vals[c]);
        c = c + 1;
    }
}

/// A filled buffer is its values followed by what it held before.
pub proof fn law_filled<T>(before: Seq<T>, now: Seq<T>, n: int, value: spec_fn(int) -> T)
    requires
        filled(before, now, n, value),
        0 <= n <= before.len(),
    ensures
        now == Seq::new(n as nat, value) + before.skip(n),
{
    assert(now =~= Seq::new(n as nat, value) + before.skip(n));
}

/// A filled matrix lies row by row: element `i` is in row `i / cols`, column `i % cols`. What
/// comes behind it is what it was before.
pub proof fn law_filled2<T>(
    before: Seq<T>,
    now: Seq<T>,
    rows: int,
    cols: int,
    value: spec_fn(int, int) -> T,
    i: int,
)
    requires
        filled2(before, now, rows, cols, value),
        0 < cols,
        0 <= i < before.len(),
    ensures
        now.len() == before.len(),
        now[i] == (if i < rows * cols {
            value(i / cols, i % cols)
        } else {
            before[i]
        }),
{
    if i < rows * cols {
        let (r, c) = (i / cols, i % cols);
        vstd::arithmetic::div_mod::lemma_fundamental_div_mod(i, cols);
        vstd::arithmetic::div_mod::lemma_mod_bound(i, cols);
        vstd::arithmetic::div_mod::lemma_div_pos_is_pos(i, cols);
        assert(r < rows) by (nonlinear_arith)
            requires
                i == cols * r + c,
                0 <= c,
                i < rows * cols,
                0 < cols,
        ;
        assert(cols * r == r * cols) by (nonlinear_arith);
        assert(cell(now, cols, r, c) == value(r, c));
    }
}

} // verus!
