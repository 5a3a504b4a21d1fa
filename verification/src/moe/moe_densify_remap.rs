//! Dense slabs of the active experts' weights, and expert ids as places among them.
use crate::rows::{fill_grid, fill_rows, GridWork, RowWork};
use crate::tensor::{cell, filled, filled2, read};
use vstd::prelude::*;

verus! {

/// The slabs of the active experts, one after the other.
pub open spec fn slabs<T>(src: Seq<T>, active: Seq<u32>, slab: int) -> spec_fn(int, int) -> T {
    |a: int, p: int| cell(src, slab, active[a] as int, p)
}

/// The slab of every active expert is in `src`.
pub open spec fn slabs_fit<T>(src: Seq<T>, active: Seq<u32>, n_active: int, slab: int) -> bool {
    &&& n_active <= active.len()
    &&& forall|a: int| 0 <= a < n_active ==> (#[trigger] active[a] + 1) * slab <= src.len()
}

/// The last place of expert `e` among the first `n` active experts, 0 where it is not there.
pub open spec fn last_place(active: Seq<u32>, n: int, e: u32) -> int
    decreases n,
{
    if n <= 0 {
        0
    } else if active[n - 1] == e {
        n - 1
    } else {
        last_place(active, n - 1, e)
    }
}

/// The places of the sorted experts.
pub open spec fn dense_places(sorted: Seq<u32>, active: Seq<u32>, n_active: int) -> spec_fn(
    int,
) -> u32 {
    |i: int| last_place(active, n_active, sorted[i]) as u32
}

/// An active expert's place leads back to it; it is its only place where the active experts
/// are distinct.
pub proof fn law_places_lead_back(active: Seq<u32>, n: int, a: int)
    requires
        0 <= a < n <= active.len(),
    ensures
        a <= last_place(active, n, active[a]) < n,
        active[last_place(active, n, active[a])] == active[a],
        (forall|i: int, j: int|
            0 <= i < j < n ==> #[trigger] active[i] != #[trigger] active[j]) ==> last_place(
            active,
            n,
            active[a],
        ) == a,
    decreases n,
{
    if active[n - 1] != active[a] {
        law_places_lead_back(active, n - 1, a);
    }
}

/// Among the dense slabs, an active expert's place holds that expert's slab.
pub proof fn law_dense_slabs_are_the_experts<T>(
    src: Seq<T>,
    dense: Seq<T>,
    active: Seq<u32>,
    n: int,
    slab: int,
    a: int,
    p: int,
)
    requires
        0 <= a < n <= active.len(),
        0 <= p < slab,
        forall|b: int, q: int|
            0 <= b < n && 0 <= q < slab ==> #[trigger] cell(dense, slab, b, q) == (slabs(
                src,
                active,
                slab,
            ))(b, q),
    ensures
        cell(dense, slab, last_place(active, n, active[a]), p) == cell(
            src,
            slab,
            active[a] as int,
            p,
        ),
{
    law_places_lead_back(active, n, a);
}

struct Slabs<'a, T> {
    src: &'a [T],
    active: &'a [u32],
    n_active: usize,
    slab: usize,
}

impl<'a, T: Copy> GridWork<T> for Slabs<'a, T> {
    closed spec fn ready(&self) -> bool {
        slabs_fit(self.src@, self.active@, self.n_active as int, self.slab as int)
    }

    closed spec fn rows(&self) -> int {
        self.n_active as int
    }

    closed spec fn cols(&self) -> int {
        self.slab as int
    }

    closed spec fn values(&self) -> spec_fn(int, int) -> T {
        slabs(self.src@, self.active@, self.slab as int)
    }

    fn at(&self, r: usize, c: usize) -> (v: T) {
        let expert: u32 = self.active[r];
        read(self.src, Ghost(expert + 1), self.slab, expert as usize, c)
    }
}

/// Copies the active experts' weights, scales and biases into dense slabs, 256 threads per
/// expert.
#[allow(clippy::too_many_arguments)]
pub fn iron_moe_densify_int2_experts<D: Copy>(
    weight_src: &[u32],
    scales_src: &[D],
    biases_src: &[D],
    active_experts: &[u32],
    weight_dst: &mut Vec<u32>,
    scales_dst: &mut Vec<D>,
    biases_dst: &mut Vec<D>,
    n_out: u32,
    packs_per_row: u32,
    groups_per_row: u32,
    n_active: u32,
)
    requires
        n_out * packs_per_row + 256 <= u32::MAX,
        n_out * groups_per_row + 256 <= u32::MAX,
        slabs_fit(weight_src@, active_experts@, n_active as int, n_out * packs_per_row),
        slabs_fit(scales_src@, active_experts@, n_active as int, n_out * groups_per_row),
        slabs_fit(biases_src@, active_experts@, n_active as int, n_out * groups_per_row),
        n_active * (n_out * packs_per_row) <= old(weight_dst)@.len(),
        n_active * (n_out * groups_per_row) <= old(scales_dst)@.len(),
        n_active * (n_out * groups_per_row) <= old(biases_dst)@.len(),
    ensures
        filled2(
            old(weight_dst)@,
            final(weight_dst)@,
            n_active as int,
            n_out * packs_per_row,
            slabs(weight_src@, active_experts@, n_out * packs_per_row),
        ),
        filled2(
            old(scales_dst)@,
            final(scales_dst)@,
            n_active as int,
            n_out * groups_per_row,
            slabs(scales_src@, active_experts@, n_out * groups_per_row),
        ),
        filled2(
            old(biases_dst)@,
            final(biases_dst)@,
            n_active as int,
            n_out * groups_per_row,
            slabs(biases_src@, active_experts@, n_out * groups_per_row),
        ),
{
    let total_packs: usize = n_out as usize * packs_per_row as usize;
    let total_sb: usize = n_out as usize * groups_per_row as usize;
    let experts: usize = n_active as usize;
    let weights = Slabs {
        src: weight_src,
        active: active_experts,
        n_active: experts,
        slab: total_packs,
    };
    let scales = Slabs {
        src: scales_src,
        active: active_experts,
        n_active: experts,
        slab: total_sb,
    };
    let biases = Slabs {
        src: biases_src,
        active: active_experts,
        n_active: experts,
        slab: total_sb,
    };
    fill_grid(&weights, weight_dst, experts, total_packs, 256);
    fill_grid(&scales, scales_dst, experts, total_sb, 256);
    fill_grid(&biases, biases_dst, experts, total_sb, 256);
}

struct Remap<'a> {
    sorted: &'a [u32],
    active: &'a [u32],
    m_total: usize,
    n_active: u32,
}

impl<'a> RowWork<u32> for Remap<'a> {
    closed spec fn ready(&self) -> bool {
        &&& self.m_total <= self.sorted@.len()
        &&& self.n_active <= self.active@.len()
    }

    closed spec fn rows(&self) -> int {
        self.m_total as int
    }

    closed spec fn values(&self, before: Seq<u32>) -> spec_fn(int) -> u32 {
        dense_places(self.sorted@, self.active@, self.n_active as int)
    }

    fn row(&self, prev: u32, r: usize, before: Ghost<Seq<u32>>) -> (v: u32) {
        let e: u32 = self.sorted[r];
        let mut dense: u32 = 0;
        let mut a: u32 = 0;
        while a < self.n_active
            invariant
                self.n_active <= self.active@.len(),
                a <= self.n_active,
                dense == last_place(self.active@, a as int, e),
            decreases self.n_active - a,
        {
            if self.active[a as usize] == e {
                dense = a;
            }
            a = a + 1;
        }
        dense
    }
}

/// Writes every sorted expert's place among the active experts.
pub fn iron_moe_remap_experts_dense(
    sorted_experts: &[u32],
    active_experts: &[u32],
    dense_indices: &mut Vec<u32>,
    m_total: u32,
    n_active: u32,
)
    requires
        m_total <= sorted_experts@.len(),
        n_active <= active_experts@.len(),
        m_total <= old(dense_indices)@.len(),
        m_total < u32::MAX,
    ensures
        filled(
            old(dense_indices)@,
            final(dense_indices)@,
            m_total as int,
            dense_places(sorted_experts@, active_experts@, n_active as int),
        ),
{
    let work = Remap {
        sorted: sorted_experts,
        active: active_experts,
        m_total: m_total as usize,
        n_active,
    };
    fill_rows(&work, dense_indices, m_total as usize, 1);
}

/// Slab `a` of the dense buffer is the slab of active expert `a`.
#[allow(clippy::too_many_arguments)]
pub proof fn law_dense_slabs<T>(
    src: Seq<T>,
    active: Seq<u32>,
    before: Seq<T>,
    dense: Seq<T>,
    n_active: int,
    slab: int,
    a: int,
)
    requires
        filled2(before, dense, n_active, slab, slabs(src, active, slab)),
        0 <= a < n_active,
        0 <= slab,
        (active[a] + 1) * slab <= src.len(),
        n_active * slab <= dense.len(),
    ensures
        dense.subrange(a * slab, a * slab + slab) == src.subrange(
            active[a] * slab,
            active[a] * slab + slab,
        ),
{
    let e = active[a] as int;
    assert(e * slab + slab == (e + 1) * slab && 0 <= e * slab) by (nonlinear_arith)
        requires
            0 <= e,
            0 <= slab,
    ;
    assert(a * slab + slab <= n_active * slab && 0 <= a * slab) by (nonlinear_arith)
        requires
            0 <= a,
            a + 1 <= n_active,
            0 <= slab,
    ;
    let own = dense.subrange(a * slab, a * slab + slab);
    let theirs = src.subrange(e * slab, e * slab + slab);
    assert forall|p: int| 0 <= p < slab implies #[trigger] own[p] == theirs[p] by {
        assert(cell(dense, slab, a, p) == (slabs(src, active, slab))(a, p));
    }
    assert(own =~= theirs);
}

/// The place of an active expert names that expert again; an expert that is not active is
/// given place 0.
pub proof fn law_remapped_experts(
    sorted: Seq<u32>,
    active: Seq<u32>,
    before: Seq<u32>,
    dense: Seq<u32>,
    m_total: int,
    n_active: int,
    i: int,
)
    requires
        filled(before, dense, m_total, dense_places(sorted, active, n_active)),
        0 <= i < m_total,
        0 <= n_active <= active.len(),
        n_active <= u32::MAX,
    ensures
        (exists|a: int| 0 <= a < n_active && #[trigger] active[a] == sorted[i]) ==> dense[i]
            < n_active && active[dense[i] as int] == sorted[i],
        (forall|a: int| 0 <= a < n_active ==> #[trigger] active[a] != sorted[i]) ==> dense[i] == 0,
{
    assert(dense[i] == (dense_places(sorted, active, n_active))(i));
    if exists|a: int| 0 <= a < n_active && #[trigger] active[a] == sorted[i] {
        let a = choose|a: int| 0 <= a < n_active && #[trigger] active[a] == sorted[i];
        law_places_lead_back(active, n_active, a);
    } else {
        lemma_no_place(active, n_active, sorted[i]);
    }
}

/// An expert that is not among the active ones has place 0.
proof fn lemma_no_place(active: Seq<u32>, n: int, e: u32)
    requires
        forall|a: int| 0 <= a < n ==> #[trigger] active[a] != e,
    ensures
        last_place(active, n, e) == 0,
    decreases n,
{
    if n > 0 {
        lemma_no_place(active, n - 1, e);
    }
}

} // verus!
