//! Mixture-of-experts routing, gathering and combining.

pub mod affine;
pub mod expert_products;
pub mod gather;
pub mod iq2xxs;
pub mod moe_bgemm_iq2xxs_view;
pub mod moe_bgemm_iq2xxs_view_u16_bm64;
pub mod moe_compact_active;
pub mod moe_densify_remap;
pub mod moe_down_weighted_sum_f16;
pub mod moe_gather_q4;
pub mod moe_gather_qmm_expert_mpp;
pub mod moe_gather_qmm_expert_mpp_bn64wn1;
pub mod moe_gemv_ws_iq2xxs;
pub mod moe_mpp_bm16_bk32_block_scaled;
pub mod moe_mpp_bm64_bk64_nvfp4;
pub mod moe_mpp_expert_grid;
pub mod moe_mpp_tileplan;
pub mod moe_route_sort_plan_fused;
pub mod moe_router_topk;
pub mod moe_router_topk_biased_rows_fused;
pub mod moe_sigmoid_bias;
pub mod moe_tile_plan_builder;
pub mod moe_unpermute_tail;
pub mod nvfp4;
pub mod router_weights;
pub mod staged_products;
pub mod tile_plan;
