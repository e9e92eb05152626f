//! KV cache types: names, sizes and the corrections that keep output coherent.
use crate::text;
use vstd::prelude::*;

verus! {

/// The data type of a KV cache, as llama.cpp knows it.
#[allow(non_camel_case_types)]
#[derive(Debug, Clone, Copy, PartialEq, Eq, Structural)]
pub enum KvCacheType {
    /// A type without a name of its own, by its raw id.
    Unknown(u32),
    F32,
    F16,
    Q4_0,
    Q4_1,
    Q5_0,
    Q5_1,
    Q8_0,
    Q8_1,
    Q2_K,
    Q3_K,
    Q4_K,
    Q5_K,
    Q6_K,
    Q8_K,
    IQ2_XXS,
    IQ2_XS,
    IQ3_XXS,
    IQ1_S,
    IQ4_NL,
    IQ3_S,
    IQ2_S,
    IQ4_XS,
    I8,
    I16,
    I32,
    I64,
    F64,
    IQ1_M,
    BF16,
    TQ1_0,
    TQ2_0,
    MXFP4,
}

/// The types that can be asked for by name.
pub open spec fn selectable(t: KvCacheType) -> bool {
    match t {
        KvCacheType::F16
        | KvCacheType::F32
        | KvCacheType::Q8_0
        | KvCacheType::Q4_0
        | KvCacheType::Q4_1
        | KvCacheType::Q5_0
        | KvCacheType::Q5_1 => true,
        _ => false,
    }
}

/// The type with a name, given in lower case.
pub open spec fn type_named(name: Seq<char>) -> Option<KvCacheType> {
    if name == "f16"@ {
        Some(KvCacheType::F16)
    } else if name == "f32"@ {
        Some(KvCacheType::F32)
    } else if name == "q8_0"@ {
        Some(KvCacheType::Q8_0)
    } else if name == "q4_0"@ {
        Some(KvCacheType::Q4_0)
    } else if name == "q4_1"@ {
        Some(KvCacheType::Q4_1)
    } else if name == "q5_0"@ {
        Some(KvCacheType::Q5_0)
    } else if name == "q5_1"@ {
        Some(KvCacheType::Q5_1)
    } else {
        None
    }
}

/// The type whose name, in lower case, is `name`.
pub fn cache_type_named(name: &str) -> (r: Option<KvCacheType>)
    ensures
        r == type_named(name@),
{
    if text::same_text(name, "f16") {
        Some(KvCacheType::F16)
    } else if text::same_text(name, "f32") {
        Some(KvCacheType::F32)
    } else if text::same_text(name, "q8_0") {
        Some(KvCacheType::Q8_0)
    } else if text::same_text(name, "q4_0") {
        Some(KvCacheType::Q4_0)
    } else if text::same_text(name, "q4_1") {
        Some(KvCacheType::Q4_1)
    } else if text::same_text(name, "q5_0") {
        Some(KvCacheType::Q5_0)
    } else if text::same_text(name, "q5_1") {
        Some(KvCacheType::Q5_1)
    } else {
        None
    }
}

/// The message for a name that no type has.
pub open spec fn unknown_type_message(s: Seq<char>) -> Seq<char> {
    "Unknown cache type '"@ + s + "'. Options: f16, f32, q8_0, q4_0, q4_1, q5_0, q5_1"@
}

/// Parse a KV cache type string (e.g. "q8_0", "q4_0", "f16") into a `KvCacheType`.
pub fn parse_cache_type(s: &str) -> (r: Result<KvCacheType, String>)
    ensures
        match type_named(text::lowercase(s@)) {
            Some(t) => r == Ok::<KvCacheType, String>(t),
            None => r matches Err(m) && m@ == unknown_type_message(s@),
        },
{
    let lower: String = text::to_lowercase(s);
    match cache_type_named(lower.as_str()) {
        Some(t) => Ok(t),
        None => {
            let mut m: String = text::copy_text("Unknown cache type '");
            m.append(s);
            m.append("'. Options: f16, f32, q8_0, q4_0, q4_1, q5_0, q5_1");
            Err(m)
        },
    }
}

/// Whether a KV cache type is a four-bit quantization.
pub fn is_four_bit(t: KvCacheType) -> (r: bool)
    ensures
        r == (t == KvCacheType::Q4_0 || t == KvCacheType::Q4_1),
{
    match t {
        KvCacheType::Q4_0 => true,
        KvCacheType::Q4_1 => true,
        _ => false,
    }
}

/// The key cache type to use: four-bit keys do not go with flash attention.
pub open spec fn corrected_key(k: KvCacheType, flash_attn: bool) -> KvCacheType {
    if flash_attn && (k == KvCacheType::Q4_0 || k == KvCacheType::Q4_1) {
        KvCacheType::Q8_0
    } else {
        k
    }
}

/// A four-bit key cache combined with flash attention produces garbage output.
/// Raise the key cache to q8_0 when both are asked for, and say so.
///
/// Returns `(effective_k, corrected)`.
pub fn correct_kv_cache_for_flash_attn(cache_type_k: KvCacheType, flash_attn: bool) -> (r: (
    KvCacheType,
    bool,
))
    ensures
        r.0 == corrected_key(cache_type_k, flash_attn),
        r.1 == (r.0 != cache_type_k),
{
    if flash_attn && is_four_bit(cache_type_k) {
        (KvCacheType::Q8_0, true)
    } else {
        (cache_type_k, false)
    }
}

/// Correcting a key cache type a second time changes nothing.
pub proof fn law_key_correction_is_idempotent(k: KvCacheType, flash_attn: bool)
    ensures
        corrected_key(corrected_key(k, flash_attn), flash_attn) == corrected_key(k, flash_attn),
{
}

/// The name by which a type is asked for. Every other type goes by "f16".
pub open spec fn name_of(t: KvCacheType) -> Seq<char> {
    match t {
        KvCacheType::F16 => "f16"@,
        KvCacheType::F32 => "f32"@,
        KvCacheType::Q8_0 => "q8_0"@,
        KvCacheType::Q4_0 => "q4_0"@,
        KvCacheType::Q4_1 => "q4_1"@,
        KvCacheType::Q5_0 => "q5_0"@,
        KvCacheType::Q5_1 => "q5_1"@,
        _ => "f16"@,
    }
}

/// The CLI spelling of a cache type — the inverse of [`parse_cache_type`].
pub fn cache_type_name(t: KvCacheType) -> (r: &'static str)
    ensures
        r@ == name_of(t),
{
    match t {
        KvCacheType::F16 => "f16",
        KvCacheType::F32 => "f32",
        KvCacheType::Q8_0 => "q8_0",
        KvCacheType::Q4_0 => "q4_0",
        KvCacheType::Q4_1 => "q4_1",
        KvCacheType::Q5_0 => "q5_0",
        KvCacheType::Q5_1 => "q5_1",
        _ => "f16",
    }
}

/// The name of a type that can be asked for leads back to it, and is in lower
/// case already.
pub proof fn law_names_lead_back_to_their_types(t: KvCacheType)
    requires
        selectable(t),
    ensures
        type_named(name_of(t)) == Some(t),
        text::lowered(name_of(t)) == name_of(t),
{
    reveal_strlit("f16");
    reveal_strlit("f32");
    reveal_strlit("q8_0");
    reveal_strlit("q4_0");
    reveal_strlit("q4_1");
    reveal_strlit("q5_0");
    reveal_strlit("q5_1");
    assert("f16"@[0] == 'f' && "f16"@[1] == '1');
    assert("f32"@[1] == '3');
    assert("q8_0"@[1] == '8' && "q4_0"@[1] == '4' && "q4_1"@[1] == '4' && "q5_0"@[1] == '5'
        && "q5_1"@[1] == '5');
    assert("q4_0"@[3] == '0' && "q4_1"@[3] == '1' && "q5_0"@[3] == '0' && "q5_1"@[3] == '1');
    assert(text::lowered(name_of(t)) =~= name_of(t));
}

/// The explanation of a correction that [`correct_kv_cache_for_flash_attn`] made.
pub fn report_flash_attn_kv_correction(requested_k: KvCacheType) -> (r: Vec<String>)
    ensures
        text::views(r@) == seq![
            "[EULLM] --cache-type-k "@ + name_of(requested_k)
                + " requested with flash attention enabled."@,
            "[EULLM] That combination produces incoherent output (measured on CPU and Metal), so the key cache is being raised to q8_0."@,
            "[EULLM] Pass --no-flash-attn as well if you really need 4-bit keys — that path works, at a throughput cost."@,
        ],
{
    let mut r: Vec<String> = Vec::new();
    let mut first: String = text::copy_text("[EULLM] --cache-type-k ");
    first.append(cache_type_name(requested_k));
    first.append(" requested with flash attention enabled.");
    r.push(first);
    r.push(
        text::copy_text(
            "[EULLM] That combination produces incoherent output (measured on CPU and Metal), so the key cache is being raised to q8_0.",
        ),
    );
    r.push(
        text::copy_text(
            "[EULLM] Pass --no-flash-attn as well if you really need 4-bit keys — that path works, at a throughput cost.",
        ),
    );
    assert(text::views(r@) =~= seq![
        "[EULLM] --cache-type-k "@ + name_of(requested_k)
            + " requested with flash attention enabled."@,
        "[EULLM] That combination produces incoherent output (measured on CPU and Metal), so the key cache is being raised to q8_0."@,
        "[EULLM] Pass --no-flash-attn as well if you really need 4-bit keys — that path works, at a throughput cost."@,
    ]);
    r
}

/// The model's name says that it is a Gemma 4.
pub open spec fn names_gemma4(lower: Seq<char>) -> bool {
    text::occurs(lower, "gemma-4"@) || text::occurs(lower, "gemma4"@)
}

/// Corrects the cache types for a model whose name, in lower case, is `lower`:
/// Gemma 4 needs f16 for both.
pub fn correct_kv_cache_for_name(lower: &str, k: KvCacheType, v: KvCacheType) -> (r: (
    KvCacheType,
    KvCacheType,
    bool,
))
    ensures
        r == if names_gemma4(lower@) && (k != KvCacheType::F16 || v != KvCacheType::F16) {
            (KvCacheType::F16, KvCacheType::F16, true)
        } else {
            (k, v, false)
        },
{
    let name: Vec<char> = text::to_chars(lower);
    let dashed: Vec<char> = text::to_chars("gemma-4");
    let plain: Vec<char> = text::to_chars("gemma4");
    let gemma4: bool = text::contains(&name, &dashed) || text::contains(&name, &plain);
    if gemma4 && (k != KvCacheType::F16 || v != KvCacheType::F16) {
        (KvCacheType::F16, KvCacheType::F16, true)
    } else {
        (k, v, false)
    }
}

/// Gemma 4's mixed attention is incompatible with a quantized KV cache: all
/// non-f16 types are corrected to f16 for it.
///
/// Returns the (possibly corrected) cache types and whether a correction
/// was applied.
pub fn correct_kv_cache_for_model(
    model_name: &str,
    cache_type_k: KvCacheType,
    cache_type_v: KvCacheType,
) -> (r: (KvCacheType, KvCacheType, bool))
    ensures
        r == if names_gemma4(text::lowercase(model_name@)) && (cache_type_k != KvCacheType::F16
            || cache_type_v != KvCacheType::F16) {
            (KvCacheType::F16, KvCacheType::F16, true)
        } else {
            (cache_type_k, cache_type_v, false)
        },
{
    let lower: String = text::to_lowercase(model_name);
    correct_kv_cache_for_name(lower.as_str(), cache_type_k, cache_type_v)
}

/// Bytes that 32 elements of a cache type take; types without an entry count
/// as f16.
pub open spec fn block_bytes(t: KvCacheType) -> u32 {
    match t {
        KvCacheType::F16 => 64,
        KvCacheType::F32 => 128,
        KvCacheType::Q8_0 => 34,
        KvCacheType::Q4_0 => 18,
        KvCacheType::Q4_1 => 20,
        KvCacheType::Q5_0 => 22,
        KvCacheType::Q5_1 => 24,
        _ => 64,
    }
}

pub fn cache_type_block_bytes(t: KvCacheType) -> (r: u32)
    ensures
        r == block_bytes(t),
        18 <= r <= 128,
{
    match t {
        KvCacheType::F16 => 64,
        KvCacheType::F32 => 128,
        KvCacheType::Q8_0 => 34,
        KvCacheType::Q4_0 => 18,
        KvCacheType::Q4_1 => 20,
        KvCacheType::Q5_0 => 22,
        KvCacheType::Q5_1 => 24,
        _ => 64,
    }
}

/// The display name of a cache type.
pub open spec fn display_name(t: KvCacheType) -> Seq<char> {
    match t {
        KvCacheType::Unknown(id) => "Unknown("@ + text::decimal(id as nat) + ")"@,
        KvCacheType::F32 => "F32"@,
        KvCacheType::F16 => "F16"@,
        KvCacheType::Q4_0 => "Q4_0"@,
        KvCacheType::Q4_1 => "Q4_1"@,
        KvCacheType::Q5_0 => "Q5_0"@,
        KvCacheType::Q5_1 => "Q5_1"@,
        KvCacheType::Q8_0 => "Q8_0"@,
        KvCacheType::Q8_1 => "Q8_1"@,
        KvCacheType::Q2_K => "Q2_K"@,
        KvCacheType::Q3_K => "Q3_K"@,
        KvCacheType::Q4_K => "Q4_K"@,
        KvCacheType::Q5_K => "Q5_K"@,
        KvCacheType::Q6_K => "Q6_K"@,
        KvCacheType::Q8_K => "Q8_K"@,
        KvCacheType::IQ2_XXS => "IQ2_XXS"@,
        KvCacheType::IQ2_XS => "IQ2_XS"@,
        KvCacheType::IQ3_XXS => "IQ3_XXS"@,
        KvCacheType::IQ1_S => "IQ1_S"@,
        KvCacheType::IQ4_NL => "IQ4_NL"@,
        KvCacheType::IQ3_S => "IQ3_S"@,
        KvCacheType::IQ2_S => "IQ2_S"@,
        KvCacheType::IQ4_XS => "IQ4_XS"@,
        KvCacheType::I8 => "I8"@,
        KvCacheType::I16 => "I16"@,
        KvCacheType::I32 => "I32"@,
        KvCacheType::I64 => "I64"@,
        KvCacheType::F64 => "F64"@,
        KvCacheType::IQ1_M => "IQ1_M"@,
        KvCacheType::BF16 => "BF16"@,
        KvCacheType::TQ1_0 => "TQ1_0"@,
        KvCacheType::TQ2_0 => "TQ2_0"@,
        KvCacheType::MXFP4 => "MXFP4"@,
    }
}

/// Human-readable name for a KV cache type.
pub fn cache_type_display(ct: &KvCacheType) -> (r: String)
    ensures
        r@ == display_name(*ct),
{
    let name: &str = match ct {
        KvCacheType::Unknown(id) => {
            let mut r: String = text::copy_text("Unknown(");
            r.append(text::decimal_text(*id as u64).as_str());
            r.append(")");
            return r;
        },
        KvCacheType::F32 => "F32",
        KvCacheType::F16 => "F16",
        KvCacheType::Q4_0 => "Q4_0",
        KvCacheType::Q4_1 => "Q4_1",
        KvCacheType::Q5_0 => "Q5_0",
        KvCacheType::Q5_1 => "Q5_1",
        KvCacheType::Q8_0 => "Q8_0",
        KvCacheType::Q8_1 => "Q8_1",
        KvCacheType::Q2_K => "Q2_K",
        KvCacheType::Q3_K => "Q3_K",
        KvCacheType::Q4_K => "Q4_K",
        KvCacheType::Q5_K => "Q5_K",
        KvCacheType::Q6_K => "Q6_K",
        KvCacheType::Q8_K => "Q8_K",
        KvCacheType::IQ2_XXS => "IQ2_XXS",
        KvCacheType::IQ2_XS => "IQ2_XS",
        KvCacheType::IQ3_XXS => "IQ3_XXS",
        KvCacheType::IQ1_S => "IQ1_S",
        KvCacheType::IQ4_NL => "IQ4_NL",
        KvCacheType::IQ3_S => "IQ3_S",
        KvCacheType::IQ2_S => "IQ2_S",
        KvCacheType::IQ4_XS => "IQ4_XS",
        KvCacheType::I8 => "I8",
        KvCacheType::I16 => "I16",
        KvCacheType::I32 => "I32",
        KvCacheType::I64 => "I64",
        KvCacheType::F64 => "F64",
        KvCacheType::IQ1_M => "IQ1_M",
        KvCacheType::BF16 => "BF16",
        KvCacheType::TQ1_0 => "TQ1_0",
        KvCacheType::TQ2_0 => "TQ2_0",
        KvCacheType::MXFP4 => "MXFP4",
    };
    text::copy_text(name)
}

/// The dimensions of a model that its KV cache depends on; zero where unknown.
#[derive(Debug, Clone, Copy)]
pub struct KvDims {
    pub n_embd: u32,
    pub n_layer: u32,
    pub n_head: u32,
    pub n_head_kv: u32,
}

/// The KV elements of `n_ctx` tokens, times the number of heads.
pub open spec fn kv_elements(d: KvDims, n_ctx: u32) -> int {
    d.n_layer * n_ctx * d.n_head_kv * d.n_embd
}

/// Bytes of the elements at `block` bytes for 32 of them, rounded down.
pub open spec fn kv_bytes(d: KvDims, n_ctx: u32, block: int) -> int {
    kv_elements(d, n_ctx) * block / (32 * d.n_head)
}

/// Estimate KV cache memory, in bytes, of keys and of values. A dimension that
/// is not known makes both zero; `None` stands for a size beyond any machine.
pub fn estimate_kv_memory(d: KvDims, n_ctx: u32, k: KvCacheType, v: KvCacheType) -> (r: Option<
    (u128, u128),
>)
    ensures
        if d.n_embd == 0 || d.n_layer == 0 || d.n_head == 0 || d.n_head_kv == 0 {
            r == Some((0u128, 0u128))
        } else if kv_elements(d, n_ctx) * 128 > u128::MAX {
            r is None
        } else {
            r matches Some((a, b)) && a == kv_bytes(d, n_ctx, block_bytes(k) as int) && b
                == kv_bytes(d, n_ctx, block_bytes(v) as int)
        },
{
    if d.n_embd == 0 || d.n_layer == 0 || d.n_head == 0 || d.n_head_kv == 0 {
        return Some((0, 0));
    }
    proof {
        assert(d.n_layer * n_ctx <= 0xFFFF_FFFF * 0xFFFF_FFFF) by (nonlinear_arith)
            requires
                0 <= d.n_layer <= 0xFFFF_FFFF,
                0 <= n_ctx <= 0xFFFF_FFFF,
        ;
    }
    let a: u128 = (d.n_layer as u128) * (n_ctx as u128);
    proof {
        assert(a * d.n_head_kv <= 0xFFFF_FFFE_0000_0001 * 0xFFFF_FFFF) by (nonlinear_arith)
            requires
                0 <= a <= 0xFFFF_FFFE_0000_0001,
                0 <= d.n_head_kv <= 0xFFFF_FFFF,
        ;
    }
    let b: u128 = a * (d.n_head_kv as u128);
    proof {
        assert(b * d.n_embd <= 0xFFFF_FFFD_0000_0002_FFFF_FFFF * 0xFFFF_FFFF) by (nonlinear_arith)
            requires
                0 <= b <= 0xFFFF_FFFD_0000_0002_FFFF_FFFF,
                0 <= d.n_embd <= 0xFFFF_FFFF,
        ;
    }
    let n: u128 = b * (d.n_embd as u128);
    assert(n == kv_elements(d, n_ctx));
    if n > u128::MAX / 128 {
        return None;
    }
    let den: u128 = 32 * d.n_head as u128;
    let bk: u128 = cache_type_block_bytes(k) as u128;
    let bv: u128 = cache_type_block_bytes(v) as u128;
    proof {
        assert(n * bk <= n * 128 && n * bv <= n * 128) by (nonlinear_arith)
            requires
                0 <= n,
                0 <= bk <= 128,
                0 <= bv <= 128,
        ;
    }
    Some((n * bk / den, n * bv / den))
}

/// A block of 32 elements takes as many bytes as its elements and its scales: two
/// or four bytes an element, or a quantized byte or half, with a scale, an offset
/// and fifth bits where the type has them.
pub proof fn law_a_block_takes_its_elements_and_scales()
    ensures
        block_bytes(KvCacheType::F32) == 32 * 4,
        block_bytes(KvCacheType::F16) == 32 * 2,
        block_bytes(KvCacheType::Q8_0) == 32 + 2,
        block_bytes(KvCacheType::Q4_0) == 16 + 2,
        block_bytes(KvCacheType::Q4_1) == 16 + 2 + 2,
        block_bytes(KvCacheType::Q5_0) == 16 + 4 + 2,
        block_bytes(KvCacheType::Q5_1) == 16 + 4 + 2 + 2,
{
}

/// A cache takes, for each layer and token, the KV heads' share of the embedding:
/// its bytes, times 32 and the number of heads, are the elements times the bytes
/// of a block, but for what is rounded off.
pub proof fn law_a_cache_takes_its_heads_share(d: KvDims, n_ctx: u32, block: int)
    requires
        0 < d.n_head,
        0 <= block,
    ensures
        ({
            let all = d.n_layer * n_ctx * d.n_head_kv * d.n_embd * block;
            let bytes = kv_bytes(d, n_ctx, block);
            bytes * (32 * d.n_head) <= all < (bytes + 1) * (32 * d.n_head)
        }),
{
    let all = d.n_layer * n_ctx * d.n_head_kv * d.n_embd * block;
    let m = 32 * d.n_head as int;
    let q = all / m;
    vstd::arithmetic::div_mod::lemma_fundamental_div_mod(all, m);
    vstd::arithmetic::div_mod::lemma_mod_bound(all, m);
    vstd::arithmetic::mul::lemma_mul_is_commutative(m, q);
    assert((q + 1) * m == q * m + m) by (nonlinear_arith);
}

/// Only a four-bit key cache under flash attention is changed, to eight bits.
pub proof fn law_only_four_bit_keys_are_raised(k: KvCacheType, flash_attn: bool)
    ensures
        corrected_key(k, flash_attn) != k <==> flash_attn && (k == KvCacheType::Q4_0 || k
            == KvCacheType::Q4_1),
        corrected_key(k, flash_attn) != k ==> corrected_key(k, flash_attn) == KvCacheType::Q8_0,
{
}

/// Gemma 4 is recognised by its name, with a dash in it or without.
pub proof fn law_gemma_4_is_recognised(lower: Seq<char>)
    ensures
        names_gemma4(lower) <==> (exists|i: int|
            0 <= i <= lower.len() - 7 && #[trigger] lower.subrange(i, i + 7) == "gemma-4"@) || (
        exists|i: int|
            0 <= i <= lower.len() - 6 && #[trigger] lower.subrange(i, i + 6) == "gemma4"@),
{
    reveal_strlit("gemma-4");
    reveal_strlit("gemma4");
    text::law_a_text_occurs_where_it_stands(lower, "gemma-4"@);
    text::law_a_text_occurs_where_it_stands(lower, "gemma4"@);
}

} // verus!
