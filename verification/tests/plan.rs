//! Tile plans, sort plans and active-expert lists.
use wh_iron_std::moe::moe_compact_active::iron_moe_compact_active_experts;
use wh_iron_std::moe::moe_densify_remap::{
    iron_moe_densify_int2_experts, iron_moe_remap_experts_dense,
};
use wh_iron_std::moe::moe_mpp_tileplan::{build_tile_plan, build_tile_plan_with_bm};
use wh_iron_std::moe::moe_route_sort_plan_fused::iron_moe_route_sort_plan_fused;
use wh_iron_std::moe::moe_tile_plan_builder::{
    iron_moe_build_tile_plan, iron_moe_build_tile_plan_bm32_own,
    iron_moe_build_tile_plan_bm32_own_parallel, iron_moe_build_tile_plan_bm32_parallel,
    iron_moe_build_tile_plan_parallel, iron_moe_tile_plan_expert_counts,
};

const COUNTS: [usize; 8] = [1, 0, 130, 0, 5, 40, 0, 74];

/// Expert ids of rows sorted by expert.
fn sorted_ids(counts: &[usize]) -> Vec<u32> {
    let mut ids = Vec::new();
    for (e, &c) in counts.iter().enumerate() {
        for _ in 0..c {
            ids.push(e as u32);
        }
    }
    ids
}

/// Full tiles of 32 rows, and a last one only for remainders above 16.
fn own_plan(counts: &[usize]) -> Vec<(u32, u32, u32)> {
    let mut plan = Vec::new();
    let mut base = 0;
    for (e, &c) in counts.iter().enumerate() {
        let mut done = 0;
        while c - done > 16 {
            let n = (c - done).min(32);
            plan.push((e as u32, (base + done) as u32, n as u32));
            done += n;
        }
        base += c;
    }
    plan
}

#[test]
fn empty_experts_contribute_no_tiles() {
    let counts = [1usize, 0, 130, 0, 5, 40, 0, 74];
    let (te, trs, trc) = build_tile_plan(&counts);
    assert_eq!(te.len(), 19);
    assert_eq!(trs.len(), 19);
    assert_eq!(trc.len(), 19);
    assert!(trc.iter().all(|&c| (1..=16).contains(&c)));
    let total_rows: u32 = trc.iter().sum();
    assert_eq!(total_rows as usize, counts.iter().sum::<usize>());
    assert_eq!((te[0], trs[0], trc[0]), (0, 0, 1));
}

#[test]
fn build_tile_plan_is_the_bm16_case_of_the_general_builder() {
    let counts = [1usize, 0, 130, 0, 5, 40, 0, 74];
    assert_eq!(build_tile_plan(&counts), build_tile_plan_with_bm(&counts, 16));
}

#[test]
fn bm32_halves_tile_count_on_large_runs_and_handles_short_runs() {
    let counts = [1usize, 0, 130, 0, 5, 40, 0, 74];
    let (te, trs, trc) = build_tile_plan_with_bm(&counts, 32);
    assert_eq!(te.len(), 12);
    assert_eq!(trs.len(), 12);
    assert_eq!(trc.len(), 12);
    assert!(trc.iter().all(|&c| (1..=32).contains(&c)));
    let total_rows: u32 = trc.iter().sum();
    assert_eq!(total_rows as usize, counts.iter().sum::<usize>());
    assert_eq!((te[0], trs[0], trc[0]), (0, 0, 1));
    let e2_tiles: Vec<u32> =
        te.iter().zip(&trc).filter(|&(&e, _)| e == 2).map(|(_, &c)| c).collect();
    assert_eq!(e2_tiles, vec![32, 32, 32, 32, 2]);
}

#[test]
fn no_experts_no_tiles() {
    assert_eq!(build_tile_plan(&[]), (vec![], vec![], vec![]));
    assert_eq!(build_tile_plan(&[0, 0]), (vec![], vec![], vec![]));
}

#[test]
fn device_plan_is_the_host_plan() {
    let ids = sorted_ids(&COUNTS);
    let (te, trs, trc) = build_tile_plan(&COUNTS);
    let (mut a, mut b, mut c) = (vec![9u32; 24], vec![9u32; 24], vec![9u32; 24]);
    iron_moe_build_tile_plan(&ids, &mut a, &mut b, &mut c, ids.len() as u32, 8);
    assert_eq!((&a[..19], &b[..19], &c[..19]), (&te[..], &trs[..], &trc[..]));
    assert!(a[19..].iter().all(|&v| v == 9));
}

#[test]
fn two_dispatch_plan_is_the_single_dispatch_plan() {
    let ids = sorted_ids(&COUNTS);
    let (mut base, mut count) = (vec![0u32; 8], vec![0u32; 8]);
    iron_moe_tile_plan_expert_counts(&ids, &mut base, &mut count, ids.len() as u32, 8);
    assert_eq!(count, vec![1, 0, 130, 0, 5, 40, 0, 74]);
    assert_eq!(base, vec![0, 1, 1, 131, 131, 136, 176, 176]);
    let (mut a, mut b, mut c) = (vec![0u32; 19], vec![0u32; 19], vec![0u32; 19]);
    iron_moe_build_tile_plan(&ids, &mut a, &mut b, &mut c, ids.len() as u32, 8);
    let (mut d, mut e, mut f) = (vec![0u32; 19], vec![0u32; 19], vec![0u32; 19]);
    iron_moe_build_tile_plan_parallel(&base, &count, &mut d, &mut e, &mut f, 8);
    assert_eq!((a, b, c), (d, e, f));
}

#[test]
fn bm32_parallel_plan_is_the_host_plan() {
    let ids = sorted_ids(&COUNTS);
    let (mut base, mut count) = (vec![0u32; 8], vec![0u32; 8]);
    iron_moe_tile_plan_expert_counts(&ids, &mut base, &mut count, ids.len() as u32, 8);
    let (mut a, mut b, mut c) = (vec![0u32; 12], vec![0u32; 12], vec![0u32; 12]);
    let (mut gu, mut down) = (vec![7u32, 8, 9], vec![7u32, 8, 9]);
    iron_moe_build_tile_plan_bm32_parallel(
        &base, &count, &mut a, &mut b, &mut c, &mut gu, &mut down, 8,
    );
    assert_eq!((a, b, c), build_tile_plan_with_bm(&COUNTS, 32));
    assert_eq!(gu, vec![12, 8, 9]);
    assert_eq!(down, vec![12, 8, 9]);
}

#[test]
fn own_plans_leave_short_remainders_out() {
    let ids = sorted_ids(&COUNTS);
    let want = own_plan(&COUNTS);
    let n = want.len();
    let (mut a, mut b, mut c) = (vec![0u32; n], vec![0u32; n], vec![0u32; n]);
    let (mut gu, mut down) = (vec![0u32; 3], vec![0u32; 3]);
    iron_moe_build_tile_plan_bm32_own(
        &ids, &mut a, &mut b, &mut c, &mut gu, &mut down, ids.len() as u32, 8,
    );
    let got: Vec<(u32, u32, u32)> = (0..n).map(|t| (a[t], b[t], c[t])).collect();
    assert_eq!(got, want);
    assert_eq!((gu[0], down[0]), (n as u32, n as u32));
    let (mut base, mut count) = (vec![0u32; 8], vec![0u32; 8]);
    iron_moe_tile_plan_expert_counts(&ids, &mut base, &mut count, ids.len() as u32, 8);
    let (mut d, mut e, mut f) = (vec![0u32; n], vec![0u32; n], vec![0u32; n]);
    iron_moe_build_tile_plan_bm32_own_parallel(
        &base, &count, &mut d, &mut e, &mut f, &mut gu, &mut down, 8,
    );
    assert_eq!((a, b, c), (d, e, f));
}

#[test]
fn sort_plan_is_a_stable_sort() {
    let (k, m_total) = (2usize, 12usize);
    let ids: Vec<u32> = vec![2, 0, 1, 2, 0, 0, 4, 1, 2, 4, 0, 1];
    let mut order: Vec<usize> = (0..m_total).collect();
    order.sort_by_key(|&i| (ids[i], i));
    let (mut se, mut st, mut ip) = (vec![0u32; m_total], vec![0u32; m_total], vec![0u32; m_total]);
    for (dst, &i) in order.iter().enumerate() {
        se[dst] = ids[i];
        st[dst] = (i / k) as u32;
        ip[i] = dst as u32;
    }
    for block in [6u32, 1, 5, 64] {
        let (mut a, mut b, mut c) = (vec![0u32; m_total], vec![0u32; m_total], vec![0u32; m_total]);
        iron_moe_route_sort_plan_fused(&ids, &mut a, &mut b, &mut c, 12, 2, 5, block);
        assert_eq!((&a, &b, &c), (&se, &st, &ip));
    }
    assert_eq!(se, vec![0, 0, 0, 0, 1, 1, 1, 2, 2, 2, 4, 4]);
}

#[test]
fn compact_active_lists_runs_and_grids() {
    let sorted = vec![0u32, 0, 0, 2, 2, 5, 5, 5, 5];
    let (mut active, mut lo, mut hi) = (vec![0u32; 16], vec![0u32; 16], vec![0u32; 16]);
    let (mut n, mut gu, mut down) = (vec![0u32], vec![0u32; 3], vec![0u32; 3]);
    iron_moe_compact_active_experts(
        &sorted, &mut active, &mut lo, &mut hi, &mut n, &mut gu, &mut down, 9, 64, 128, 16,
    );
    assert_eq!(n, vec![3]);
    assert_eq!(&active[..3], &[0, 2, 5]);
    assert_eq!(&lo[..3], &[0, 3, 5]);
    assert_eq!(&hi[..3], &[3, 5, 9]);
    assert!(active[3..].iter().chain(&lo[3..]).chain(&hi[3..]).all(|&v| v == 0));
    assert_eq!(gu, vec![2, 3, 1]);
    assert_eq!(down, vec![4, 3, 1]);
}

#[test]
fn compact_active_stops_at_its_capacity() {
    let sorted = vec![0u32, 1, 2, 3];
    let (mut active, mut lo, mut hi) = (vec![0u32; 2], vec![0u32; 2], vec![0u32; 2]);
    let (mut n, mut gu, mut down) = (vec![0u32], vec![0u32; 3], vec![0u32; 3]);
    iron_moe_compact_active_experts(
        &sorted, &mut active, &mut lo, &mut hi, &mut n, &mut gu, &mut down, 4, 64, 64, 2,
    );
    assert_eq!((n, active, lo, hi), (vec![2], vec![0, 1], vec![0, 1], vec![1, 2]));
}

#[test]
fn remap_gives_places_among_the_active() {
    let sorted = vec![0u32, 0, 2, 2, 5];
    let active = vec![0u32, 2, 5];
    let mut dense = vec![9u32; 6];
    iron_moe_remap_experts_dense(&sorted, &active, &mut dense, 5, 3);
    assert_eq!(dense, vec![0, 0, 1, 1, 2, 9]);
    iron_moe_remap_experts_dense(&[7], &active, &mut dense, 1, 3);
    assert_eq!(dense[0], 0);
    iron_moe_remap_experts_dense(&[2], &[2, 1, 2], &mut dense, 1, 3);
    assert_eq!(dense[0], 2);
}

#[test]
fn densify_copies_the_active_slabs() {
    let (n_out, packs, groups) = (2usize, 2usize, 3usize);
    let active = vec![1u32, 3];
    let w: Vec<u32> = (0..4 * n_out * packs).map(|i| i as u32 + 7).collect();
    let s: Vec<u16> = (0..4 * n_out * groups).map(|i| 100 + i as u16).collect();
    let b: Vec<u16> = (0..4 * n_out * groups).map(|i| 500 + i as u16).collect();
    let (mut wd, mut sd, mut bd) = (vec![0u32; 8], vec![0u16; 12], vec![0u16; 13]);
    iron_moe_densify_int2_experts(
        &w, &s, &b, &active, &mut wd, &mut sd, &mut bd, 2, 2, 3, 2,
    );
    assert_eq!(wd, vec![11, 12, 13, 14, 19, 20, 21, 22]);
    assert_eq!(&sd[..6], &s[6..12]);
    assert_eq!(&sd[6..], &s[18..24]);
    assert_eq!(&bd[..6], &b[6..12]);
    assert_eq!(&bd[6..12], &b[18..24]);
    assert_eq!(bd[12], 0);
}

#[test]
fn plans_of_joined_counts_join() {
    let (a, b) = ([20usize, 0, 7], [33usize, 16]);
    for bm in [1usize, 16, 32] {
        let joined: Vec<usize> = a.iter().chain(&b).copied().collect();
        let (mut e, mut s, mut c) = build_tile_plan_with_bm(&a, bm);
        let (f, t, d) = build_tile_plan_with_bm(&b, bm);
        e.extend(f.iter().map(|e| e + 3));
        s.extend(t.iter().map(|s| s + 27));
        c.extend(d);
        assert_eq!(build_tile_plan_with_bm(&joined, bm), (e, s, c));
    }
}
