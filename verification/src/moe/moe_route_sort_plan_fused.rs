//! The stable counting sort of routed rows by expert, in one dispatch.
//!
//! Every threadgroup owns a block of rows. It counts for itself how many rows each expert
//! has in all and how many in earlier blocks, and scatters its own rows from there.
use crate::moe::tile_plan::{below, lemma_below};
use vstd::prelude::*;

verus! {

/// How many of the first `n` entries are `key`.
pub open spec fn occurrences(s: Seq<u32>, n: int, key: int) -> int
    decreases n,
{
    if n <= 0 {
        0
    } else {
        occurrences(s, n - 1, key) + (if s[n - 1] == key {
            1int
        } else {
            0int
        })
    }
}

/// Where row `i` goes: behind all rows of smaller experts and the earlier rows of its own.
pub open spec fn place(ids: Seq<u32>, m: int, i: int) -> int {
    below(ids, m, ids[i] as int) + occurrences(ids, i, ids[i] as int)
}

/// Keys split the entries below the next key.
pub proof fn lemma_below_next(s: Seq<u32>, n: int, key: int)
    requires
        0 <= n,
    ensures
        below(s, n, key + 1) == below(s, n, key) + occurrences(s, n, key),
        0 <= occurrences(s, n, key) <= n,
        0 <= below(s, n, key) <= n,
    decreases n,
{
    if n > 0 {
        lemma_below_next(s, n - 1, key);
    }
}

/// More entries, more occurrences.
proof fn lemma_occurrences_grow(s: Seq<u32>, a: int, b: int, key: int)
    requires
        0 <= a <= b,
    ensures
        occurrences(s, a, key) <= occurrences(s, b, key),
        a < b && s[a] == key ==> occurrences(s, a, key) < occurrences(s, b, key),
    decreases b - a,
{
    if a < b {
        lemma_occurrences_grow(s, a, b - 1, key);
    }
}

/// Keys in order, entries below them in order.
proof fn lemma_below_order(s: Seq<u32>, n: int, a: int, b: int)
    requires
        0 <= n,
        a <= b,
    ensures
        below(s, n, a) <= below(s, n, b),
    decreases n,
{
    if n > 0 {
        lemma_below_order(s, n - 1, a, b);
    }
}

/// A row of a smaller expert goes before one of a larger expert, and of two rows of one
/// expert the earlier goes first: the sort is stable.
pub proof fn law_places_are_ordered(ids: Seq<u32>, m: int, i: int, j: int)
    requires
        0 <= i < m,
        0 <= j < m,
        ids[i] < ids[j] || ids[i] == ids[j] && i < j,
    ensures
        place(ids, m, i) < place(ids, m, j),
{
    let (a, b) = (ids[i] as int, ids[j] as int);
    lemma_occurrences_grow(ids, i, m, a);
    lemma_below_next(ids, m, a);
    lemma_below_next(ids, j, b);
    if a < b {
        lemma_below_order(ids, m, a + 1, b);
    } else {
        lemma_occurrences_grow(ids, i, j, a);
    }
}

/// Every row goes to a place of its own among the rows: the plan is a permutation.
pub proof fn law_places_are_a_permutation(ids: Seq<u32>, m: int, i: int, j: int)
    requires
        0 <= i < m,
        0 <= j < m,
    ensures
        0 <= place(ids, m, i) < m,
        place(ids, m, i) == place(ids, m, j) ==> i == j,
{
    let key = ids[i] as int;
    lemma_below_next(ids, m, key);
    lemma_below_next(ids, m, key + 1);
    lemma_below_next(ids, i, key);
    lemma_occurrences_grow(ids, i, m, key);
    if i != j {
        if ids[i] < ids[j] || ids[i] == ids[j] && i < j {
            law_places_are_ordered(ids, m, i, j);
        } else {
            law_places_are_ordered(ids, m, j, i);
        }
    }
}

/// The key whose rows take place `p`, among the keys below `top`.
proof fn lemma_key_of_place(ids: Seq<u32>, m: int, top: int, p: int) -> (key: int)
    requires
        0 <= m,
        0 <= top,
        0 <= p < below(ids, m, top),
    ensures
        below(ids, m, key) <= p < below(ids, m, key + 1),
    decreases top,
{
    if top == 0 {
        lemma_below(ids, m, 0, 0);
        0
    } else if below(ids, m, top - 1) <= p {
        top - 1
    } else {
        lemma_key_of_place(ids, m, top - 1, p)
    }
}

/// The row that is occurrence `c` of a key.
proof fn lemma_row_of_occurrence(ids: Seq<u32>, n: int, key: int, c: int) -> (i: int)
    requires
        0 <= n,
        0 <= c < occurrences(ids, n, key),
    ensures
        0 <= i < n,
        ids[i] == key,
        occurrences(ids, i, key) == c,
    decreases n,
{
    if ids[n - 1] == key && c == occurrences(ids, n - 1, key) {
        n - 1
    } else {
        lemma_row_of_occurrence(ids, n - 1, key, c)
    }
}

/// Every place among the rows is taken by some row.
pub proof fn law_every_place_is_taken(ids: Seq<u32>, m: int, p: int) -> (i: int)
    requires
        0 <= p < m,
    ensures
        0 <= i < m,
        place(ids, m, i) == p,
{
    lemma_below(ids, m, u32::MAX + 1, m);
    let key = lemma_key_of_place(ids, m, u32::MAX + 1, p);
    lemma_below_next(ids, m, key);
    lemma_row_of_occurrence(ids, m, key, p - below(ids, m, key))
}

/// The sorted experts ascend.
pub proof fn law_sorted_experts_ascend(ids: Seq<u32>, m: int, sorted: Seq<u32>, p: int, q: int)
    requires
        forall|i: int| 0 <= i < m ==> sorted[#[trigger] place(ids, m, i)] == ids[i],
        0 <= p <= q < m,
    ensures
        sorted[p] <= sorted[q],
{
    let i = law_every_place_is_taken(ids, m, p);
    let j = law_every_place_is_taken(ids, m, q);
    if ids[i] > ids[j] {
        law_places_are_ordered(ids, m, j, i);
    }
}

/// The rows placed when the block `start..end` has gone through all experts below `e`, and
/// through its rows before `at` for expert `e`.
spec fn done(ids: Seq<u32>, start: int, end: int, e: int, at: int, i: int) -> bool {
    i < start || i < end && ids[i] < e || i < at && ids[i] == e
}

/// The plan holds row `i`.
pub open spec fn row_placed(
    ids: Seq<u32>,
    m: int,
    k: int,
    sorted: Seq<u32>,
    source: Seq<u32>,
    inv: Seq<u32>,
    i: int,
) -> bool {
    &&& inv[i] == place(ids, m, i)
    &&& sorted[place(ids, m, i)] == ids[i]
    &&& source[place(ids, m, i)] == i / k
}

/// The plan holds every row that is done.
spec fn placed(
    ids: Seq<u32>,
    m: int,
    k: int,
    start: int,
    end: int,
    e: int,
    at: int,
    sorted: Seq<u32>,
    source: Seq<u32>,
    inv: Seq<u32>,
) -> bool {
    forall|i: int|
        0 <= i < m && done(ids, start, end, e, at, i) ==> #[trigger] row_placed(
            ids,
            m,
            k,
            sorted,
            source,
            inv,
            i,
        )
}

/// Counts each expert's rows among all rows, and among those before `block_start`.
#[verifier::loop_isolation(false)]
fn histogram(topk_ids: &[u32], m_total: usize, n_experts: usize, block_start: usize) -> (r: (
    Vec<u32>,
    Vec<u32>,
))
    requires
        m_total <= topk_ids@.len(),
        m_total <= u32::MAX,
        block_start <= m_total,
        forall|i: int| 0 <= i < m_total ==> #[trigger] topk_ids@[i] < n_experts,
    ensures
        r.0@.len() == n_experts,
        r.1@.len() == n_experts,
        forall|e: int|
            0 <= e < n_experts ==> #[trigger] r.0@[e] == occurrences(
                topk_ids@,
                m_total as int,
                e,
            ),
        forall|e: int|
            0 <= e < n_experts ==> #[trigger] r.1@[e] == occurrences(
                topk_ids@,
                block_start as int,
                e,
            ),
{
    let mut total: Vec<u32> = Vec::new();
    let mut before: Vec<u32> = Vec::new();
    let mut e: usize = 0;
    while e < n_experts
        invariant
            e <= n_experts,
            total@.len() == e,
            before@.len() == e,
            forall|i: int| 0 <= i < e ==> #[trigger] total@[i] == 0,
            forall|i: int| 0 <= i < e ==> #[trigger] before@[i] == 0,
        decreases n_experts - e,
    {
        total.push(0);
        before.push(0);
        e = e + 1;
    }
    let mut idx: usize = 0;
    while idx < m_total
        invariant
            idx <= m_total,
            total@.len() == n_experts,
            before@.len() == n_experts,
            forall|e: int|
                0 <= e < n_experts ==> #[trigger] total@[e] == occurrences(
                    topk_ids@,
                    idx as int,
                    e,
                ),
            forall|e: int|
                0 <= e < n_experts ==> #[trigger] before@[e] == occurrences(
                    topk_ids@,
                    if idx < block_start {
                        idx as int
                    } else {
                        block_start as int
                    },
                    e,
                ),
        decreases m_total - idx,
    {
        let ej: usize = topk_ids[idx] as usize;
        assert(topk_ids@[idx as int] < n_experts);
        proof {
            lemma_below_next(topk_ids@, idx as int, ej as int);
        }
        total[ej] = total[ej] + 1;
        if idx < block_start {
            before[ej] = before[ej] + 1;
        }
        idx = idx + 1;
    }
    (total, before)
}

/// The first place of expert `e` in this block: behind all rows of smaller experts and its
/// own rows in earlier blocks.
fn block_offset(
    total: &Vec<u32>,
    before: &Vec<u32>,
    e: usize,
    ids: Ghost<Seq<u32>>,
    m: Ghost<int>,
    block_start: Ghost<int>,
) -> (off: u32)
    requires
        e < total@.len(),
        before@.len() == total@.len(),
        0 <= block_start@ <= m@ <= u32::MAX,
        forall|x: int| 0 <= x < total@.len() ==> #[trigger] total@[x] == occurrences(ids@, m@, x),
        forall|x: int|
            0 <= x < total@.len() ==> #[trigger] before@[x] == occurrences(
                ids@,
                block_start@,
                x,
            ),
    ensures
        off == below(ids@, m@, e as int) + occurrences(ids@, block_start@, e as int),
{
    let mut base: u32 = 0;
    let mut e2: usize = 0;
    proof {
        lemma_below(ids@, m@, 0, 0);
    }
    while e2 < total.len()
        invariant
            e < total@.len(),
            e2 <= total@.len(),
            0 <= m@ <= u32::MAX,
            forall|x: int|
                0 <= x < total@.len() ==> #[trigger] total@[x] == occurrences(ids@, m@, x),
            base == below(
                ids@,
                m@,
                if e2 < e {
                    e2 as int
                } else {
                    e as int
                },
            ),
        decreases total@.len() - e2,
    {
        if e2 < e {
            proof {
                lemma_below_next(ids@, m@, e2 as int);
                lemma_below_next(ids@, m@, e2 + 1);
                assert(total@[e2 as int] == occurrences(ids@, m@, e2 as int));
            }
            base = base + total[e2];
        }
        e2 = e2 + 1;
    }
    proof {
        lemma_below_next(ids@, m@, e as int);
        lemma_below_next(ids@, m@, e + 1);
        lemma_occurrences_grow(ids@, block_start@, m@, e as int);
        assert(before@[e as int] == occurrences(ids@, block_start@, e as int));
    }
    base + before[e]
}

/// One lane's part of a block: the rows of expert `e`, in ascending order.
#[allow(clippy::too_many_arguments)]
fn scatter(
    topk_ids: &[u32],
    sorted_experts: &mut Vec<u32>,
    source_tokens: &mut Vec<u32>,
    inv_perm: &mut Vec<u32>,
    rows: usize,
    k: usize,
    e: usize,
    block_start: usize,
    block_end: usize,
    first: u32,
)
    requires
        rows <= topk_ids@.len(),
        rows <= old(sorted_experts)@.len(),
        rows <= old(source_tokens)@.len(),
        rows <= old(inv_perm)@.len(),
        rows <= u32::MAX,
        e <= u32::MAX,
        k > 0,
        block_start <= block_end <= rows,
        first == below(topk_ids@, rows as int, e as int) + occurrences(
            topk_ids@,
            block_start as int,
            e as int,
        ),
        placed(
            topk_ids@,
            rows as int,
            k as int,
            block_start as int,
            block_end as int,
            e as int,
            0,
            old(sorted_experts)@,
            old(source_tokens)@,
            old(inv_perm)@,
        ),
    ensures
        final(sorted_experts)@.len() == old(sorted_experts)@.len(),
        final(source_tokens)@.len() == old(source_tokens)@.len(),
        final(inv_perm)@.len() == old(inv_perm)@.len(),
        past_rows_kept(old(sorted_experts)@, final(sorted_experts)@, rows as int),
        past_rows_kept(old(source_tokens)@, final(source_tokens)@, rows as int),
        past_rows_kept(old(inv_perm)@, final(inv_perm)@, rows as int),
        placed(
            topk_ids@,
            rows as int,
            k as int,
            block_start as int,
            block_end as int,
            e + 1,
            0,
            final(sorted_experts)@,
            final(source_tokens)@,
            final(inv_perm)@,
        ),
{
    let ghost (s0, t0, p0) = (sorted_experts@, source_tokens@, inv_perm@);
    let ghost ids = topk_ids@;
    let ghost m = rows as int;
    let mut off: u32 = first;
    let mut idx: usize = block_start;
    while idx < block_end
        invariant
            ids == topk_ids@,
            m == rows,
            rows <= topk_ids@.len(),
            rows <= s0.len(),
            rows <= t0.len(),
            rows <= p0.len(),
            rows <= u32::MAX,
            e <= u32::MAX,
            k > 0,
            block_start <= idx <= block_end <= rows,
            off == below(ids, m, e as int) + occurrences(ids, idx as int, e as int),
            sorted_experts@.len() == s0.len(),
            source_tokens@.len() == t0.len(),
            inv_perm@.len() == p0.len(),
            past_rows_kept(s0, sorted_experts@, m),
            past_rows_kept(t0, source_tokens@, m),
            past_rows_kept(p0, inv_perm@, m),
            placed(
                ids,
                m,
                k as int,
                block_start as int,
                block_end as int,
                e as int,
                idx as int,
                sorted_experts@,
                source_tokens@,
                inv_perm@,
            ),
        decreases block_end - idx,
    {
        let ej: u32 = topk_ids[idx];
        if ej as usize == e {
            let ghost (s1, t1, p1) = (sorted_experts@, source_tokens@, inv_perm@);
            proof {
                assert(off == place(ids, m, idx as int));
                law_places_are_a_permutation(ids, m, idx as int, idx as int);
                assert(idx as int / k as int <= idx) by (nonlinear_arith)
                    requires
                        k > 0,
                        idx >= 0,
                ;
            }
            sorted_experts[off as usize] = ej;
            source_tokens[off as usize] = (idx / k) as u32;
            inv_perm[idx] = off;
            proof {
                assert forall|i: int|
                    0 <= i < m && done(
                        ids,
                        block_start as int,
                        block_end as int,
                        e as int,
                        idx + 1,
                        i,
                    ) implies #[trigger] row_placed(
                    ids,
                    m,
                    k as int,
                    sorted_experts@,
                    source_tokens@,
                    inv_perm@,
                    i,
                ) by {
                    law_places_are_a_permutation(ids, m, i, idx as int);
                    if i != idx {
                        assert(row_placed(ids, m, k as int, s1, t1, p1, i));
                    }
                }
            }
            off = off + 1;
        } else {
            proof {
                assert forall|i: int|
                    0 <= i < m && done(
                        ids,
                        block_start as int,
                        block_end as int,
                        e as int,
                        idx + 1,
                        i,
                    ) implies #[trigger] row_placed(
                    ids,
                    m,
                    k as int,
                    sorted_experts@,
                    source_tokens@,
                    inv_perm@,
                    i,
                ) by {
                    assert(done(
                        ids,
                        block_start as int,
                        block_end as int,
                        e as int,
                        idx as int,
                        i,
                    ));
                }
            }
        }
        idx = idx + 1;
    }
    proof {
        assert forall|i: int|
            0 <= i < m && done(
                ids,
                block_start as int,
                block_end as int,
                e + 1,
                0,
                i,
            ) implies #[trigger] row_placed(
            ids,
            m,
            k as int,
            sorted_experts@,
            source_tokens@,
            inv_perm@,
            i,
        ) by {
            assert(done(
                ids,
                block_start as int,
                block_end as int,
                e as int,
                block_end as int,
                i,
            ));
        }
    }
}

/// Entries past the rows are left alone.
pub open spec fn past_rows_kept(before: Seq<u32>, after: Seq<u32>, m: int) -> bool {
    forall|i: int| m <= i < before.len() ==> #[trigger] after[i] == before[i]
}

/// Sorts the `m_total` routed rows `topk_ids` stably by expert: `inv_perm[i]` is where row
/// `i` goes, `sorted_experts` and `source_tokens` hold there its expert and its token.
#[allow(clippy::too_many_arguments)]
#[verifier::loop_isolation(false)]
pub fn iron_moe_route_sort_plan_fused(
    topk_ids: &[u32],
    sorted_experts: &mut Vec<u32>,
    source_tokens: &mut Vec<u32>,
    inv_perm: &mut Vec<u32>,
    m_total: u32,
    k: u32,
    n_experts: u32,
    block_size: u32,
)
    requires
        m_total <= topk_ids@.len(),
        m_total <= old(sorted_experts)@.len(),
        m_total <= old(source_tokens)@.len(),
        m_total <= old(inv_perm)@.len(),
        k > 0,
        block_size > 0,
        m_total + block_size <= u32::MAX,
        forall|i: int| 0 <= i < m_total ==> #[trigger] topk_ids@[i] < n_experts,
    ensures
        final(sorted_experts)@.len() == old(sorted_experts)@.len(),
        final(source_tokens)@.len() == old(source_tokens)@.len(),
        final(inv_perm)@.len() == old(inv_perm)@.len(),
        forall|i: int|
            0 <= i < m_total ==> #[trigger] row_placed(
                topk_ids@,
                m_total as int,
                k as int,
                final(sorted_experts)@,
                final(source_tokens)@,
                final(inv_perm)@,
                i,
            ),
        past_rows_kept(old(sorted_experts)@, final(sorted_experts)@, m_total as int),
        past_rows_kept(old(source_tokens)@, final(source_tokens)@, m_total as int),
        past_rows_kept(old(inv_perm)@, final(inv_perm)@, m_total as int),
{
    let ghost (s0, t0, p0) = (sorted_experts@, source_tokens@, inv_perm@);
    let ghost ids = topk_ids@;
    let ghost m = m_total as int;
    let (rows, experts, size): (usize, usize, usize) = (
        m_total as usize,
        n_experts as usize,
        block_size as usize,
    );
    let n_blocks: usize = (rows + size - 1) / size;
    proof {
        vstd::arithmetic::div_mod::lemma_fundamental_div_mod(rows + size - 1, size as int);
        assert(rows <= n_blocks * size <= rows + size - 1) by (nonlinear_arith)
            requires
                rows + size - 1 == size * n_blocks + (rows + size - 1) % (size as int),
                0 <= (rows + size - 1) % (size as int) < size,
        ;
    }
    let mut b: usize = 0;
    let mut block_start: usize = 0;
    while b < n_blocks
        invariant
            b <= n_blocks,
            block_start == if b * size < rows {
                b * size
            } else {
                rows as int
            },
            sorted_experts@.len() == s0.len(),
            source_tokens@.len() == t0.len(),
            inv_perm@.len() == p0.len(),
            past_rows_kept(s0, sorted_experts@, m),
            past_rows_kept(t0, source_tokens@, m),
            past_rows_kept(p0, inv_perm@, m),
            placed(
                ids,
                m,
                k as int,
                block_start as int,
                block_start as int,
                0,
                0,
                sorted_experts@,
                source_tokens@,
                inv_perm@,
            ),
        decreases n_blocks - b,
    {
        proof {
            assert(b * size + size <= n_blocks * size) by (nonlinear_arith)
                requires
                    b + 1 <= n_blocks,
            ;
            assert((b + 1) * size == b * size + size && 0 <= b * size) by (nonlinear_arith);
        }
        let remaining: usize = rows - block_start;
        let block_len: usize = if remaining < size {
            remaining
        } else {
            size
        };
        let block_end: usize = block_start + block_len;
        let (total, before): (Vec<u32>, Vec<u32>) = histogram(topk_ids, rows, experts, block_start);
        let mut e: usize = 0;
        assert(placed(
            ids,
            m,
            k as int,
            block_start as int,
            block_end as int,
            0,
            0,
            sorted_experts@,
            source_tokens@,
            inv_perm@,
        ));
        while e < experts
            invariant
                e <= experts,
                sorted_experts@.len() == s0.len(),
                source_tokens@.len() == t0.len(),
                inv_perm@.len() == p0.len(),
                past_rows_kept(s0, sorted_experts@, m),
                past_rows_kept(t0, source_tokens@, m),
                past_rows_kept(p0, inv_perm@, m),
                placed(
                    ids,
                    m,
                    k as int,
                    block_start as int,
                    block_end as int,
                    e as int,
                    0,
                    sorted_experts@,
                    source_tokens@,
                    inv_perm@,
                ),
            decreases experts - e,
        {
            let first: u32 = block_offset(
                &total,
                &before,
                e,
                Ghost(ids),
                Ghost(m),
                Ghost(block_start as int),
            );
            scatter(
                topk_ids,
                sorted_experts,
                source_tokens,
                inv_perm,
                rows,
                k as usize,
                e,
                block_start,
                block_end,
                first,
            );
            e = e + 1;
        }
        proof {
            assert forall|i: int|
                0 <= i < m && done(
                    ids,
                    block_end as int,
                    block_end as int,
                    0,
                    0,
                    i,
                ) implies #[trigger] row_placed(
                ids,
                m,
                k as int,
                sorted_experts@,
                source_tokens@,
                inv_perm@,
                i,
            ) by {
                assert(topk_ids@[i] < n_experts);
                assert(done(
                    ids,
                    block_start as int,
                    block_end as int,
                    experts as int,
                    0,
                    i,
                ));
            }
        }
        block_start = block_end;
        b = b + 1;
    }
    proof {
        assert forall|i: int| 0 <= i < m implies #[trigger] row_placed(
            ids,
            m,
            k as int,
            sorted_experts@,
            source_tokens@,
            inv_perm@,
            i,
        ) by {
            assert(done(ids, m, m, 0, 0, i));
        }
    }
}

/// The plan sorts the rows: `inv` sends every row to a place of its own, where `sorted` has
/// its expert and `source` its token; sorted experts ascend, and rows of one expert keep their
/// order.
#[allow(clippy::too_many_arguments)]
pub proof fn law_rows_are_sorted(
    ids: Seq<u32>,
    m: int,
    k: int,
    sorted: Seq<u32>,
    source: Seq<u32>,
    inv: Seq<u32>,
    i: int,
    j: int,
)
    requires
        0 <= i < m,
        0 <= j < m,
        0 < k,
        forall|r: int| 0 <= r < m ==> #[trigger] row_placed(ids, m, k, sorted, source, inv, r),
    ensures
        inv[i] < m,
        inv[i] == inv[j] ==> i == j,
        sorted[inv[i] as int] == ids[i],
        source[inv[i] as int] as int * k <= i < (source[inv[i] as int] + 1) * k,
        ids[i] < ids[j] ==> inv[i] < inv[j],
        ids[i] == ids[j] && i < j ==> inv[i] < inv[j],
        i <= j ==> sorted[i] <= sorted[j],
{
    assert(row_placed(ids, m, k, sorted, source, inv, i));
    assert(row_placed(ids, m, k, sorted, source, inv, j));
    law_places_are_a_permutation(ids, m, i, j);
    if ids[i] < ids[j] || ids[i] == ids[j] && i < j {
        law_places_are_ordered(ids, m, i, j);
    }
    if i <= j {
        assert forall|r: int| 0 <= r < m implies sorted[#[trigger] place(ids, m, r)] == ids[r] by {
            assert(row_placed(ids, m, k, sorted, source, inv, r));
        }
        law_sorted_experts_ascend(ids, m, sorted, i, j);
    }
    let t = i / k;
    vstd::arithmetic::div_mod::lemma_fundamental_div_mod(i, k);
    vstd::arithmetic::div_mod::lemma_mod_bound(i, k);
    assert(t * k <= i < (t + 1) * k) by (nonlinear_arith)
        requires
            i == k * t + i % k,
            0 <= i % k < k,
    ;
}

/// What comes behind the rows is what it was before.
pub proof fn law_past_rows_are_kept(before: Seq<u32>, now: Seq<u32>, m: int)
    requires
        past_rows_kept(before, now, m),
        now.len() == before.len(),
        0 <= m <= before.len(),
    ensures
        now.skip(m) == before.skip(m),
{
    assert(now.skip(m) =~= before.skip(m));
}

} // verus!
