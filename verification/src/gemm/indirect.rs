//! Which kernels are also dispatched indirectly.
use vstd::prelude::*;
use vstd::string::StrSliceExecFns;

verus! {

/// Compares two strings character by character.
fn same(a: &str, b: &str) -> (r: bool)
    ensures
        r == (a@ == b@),
{
    let n: usize = a.unicode_len();
    if n != b.unicode_len() {
        return false;
    }
    let mut i: usize = 0;
    while i < n
        invariant
            i <= n,
            n == a@.len(),
            n == b@.len(),
            forall|j: int| 0 <= j < i ==> a@[j] == b@[j],
        decreases n - i,
    {
        if a.get_char(i) != b.get_char(i) {
            assert(a@[i as int] != b@[i as int]);
            return false;
        }
        i = i + 1;
    }
    assert(a@ =~= b@);
    true
}

/// The names of the kernels with an indirect variant.
pub open spec fn wants_indirect(name: Seq<char>) -> bool {
    name == "iron_dequant_gemv_int4_f16"@ || name == "iron_dequant_gemv_int4_bf16"@
}

/// Whether the kernel of this name has an indirect variant, whose grid comes from a buffer:
/// the 4-bit dequantising GEMV over 16-bit activations does.
pub fn iron_dequant_gemv_wants_indirect(kernel_name: &str) -> (r: bool)
    ensures
        r == wants_indirect(kernel_name@),
{
    same(kernel_name, "iron_dequant_gemv_int4_f16") || same(
        kernel_name,
        "iron_dequant_gemv_int4_bf16",
    )
}

/// The kernels with an indirect variant are those of the 4-bit dequantising GEMV whose
/// activations are 16-bit floats of either kind.
pub proof fn law_indirect_names(name: Seq<char>)
    ensures
        wants_indirect(name) <==> name == "iron_dequant_gemv_int4_"@ + "f16"@ || name
            == "iron_dequant_gemv_int4_"@ + "bf16"@,
{
    reveal_strlit("iron_dequant_gemv_int4_");
    reveal_strlit("f16");
    reveal_strlit("bf16");
    reveal_strlit("iron_dequant_gemv_int4_f16");
    reveal_strlit("iron_dequant_gemv_int4_bf16");
    assert("iron_dequant_gemv_int4_"@ + "f16"@ =~= "iron_dequant_gemv_int4_f16"@);
    assert("iron_dequant_gemv_int4_"@ + "bf16"@ =~= "iron_dequant_gemv_int4_bf16"@);
}

} // verus!
