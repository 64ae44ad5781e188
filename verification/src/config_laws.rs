//! What a configuration says, in terms of the pairs that it was written with.
use vstd::prelude::*;

use crate::config::{config_is, ArchKind, Config, GateAct, LayerKind, RopeStyle, RouterKind};
use crate::dflash2::{params_are, DFlash2Params};
use crate::json::{
    bool_at, lemma_member_index, list_at, member, member_index, num_at, text_at, whole, whole_at, wholes, Json, Num,
};

verus! {

/// Whether `x` stands under `key` in an object: the first pair with that key holds it.
pub open spec fn holds(v: Json, key: Seq<char>, x: Json) -> bool {
    v matches Json::Object(o) && exists|i: int|
        0 <= i < o@.len() && (#[trigger] o@[i]).0@ == key && o@[i].1 == x && forall|j: int|
            0 <= j < i ==> (#[trigger] o@[j]).0@ != key
}

/// Whether nothing stands under `key`.
pub open spec fn lacks(v: Json, key: Seq<char>) -> bool {
    v matches Json::Object(o) ==> forall|i: int| 0 <= i < o@.len() ==> (#[trigger] o@[i]).0@ != key
}

/// Whether the number `n` stands under `key`.
pub open spec fn holds_number(v: Json, key: Seq<char>, n: Num) -> bool {
    holds(v, key, Json::Number(n))
}

/// Whether the whole number `n` stands under `key`.
pub open spec fn holds_whole(v: Json, key: Seq<char>, n: i64) -> bool {
    (n >= 0 && holds(v, key, Json::Number(Num::Unsigned(n as u64)))) || holds(
        v,
        key,
        Json::Number(Num::Negative(n)),
    )
}

/// Whether no whole number stands under `key`.
pub open spec fn no_whole(v: Json, key: Seq<char>) -> bool {
    forall|n: i64| !#[trigger] holds_whole(v, key, n)
}

/// Whether `got` is the whole number under `key`, and `default` only where there is none.
pub open spec fn is_whole_or(got: int, v: Json, key: Seq<char>, default: int) -> bool {
    &&& forall|n: i64| #[trigger] holds_whole(v, key, n) ==> got == n
    &&& no_whole(v, key) ==> got == default
}

/// Whether `got` is the whole number under `key`, where there is one.
pub open spec fn is_whole(got: Option<i64>, v: Json, key: Seq<char>) -> bool {
    &&& forall|n: i64| #[trigger] holds_whole(v, key, n) ==> got == Some(n)
    &&& no_whole(v, key) ==> got is None
}

/// Whether `got` is the whole number under `key` in `a`, or, where `a` has none, in `b`.
pub open spec fn is_whole_of(got: Option<i64>, a: Json, b: Json, key: Seq<char>) -> bool {
    &&& forall|n: i64| #[trigger] holds_whole(a, key, n) ==> got == Some(n)
    &&& no_whole(a, key) ==> is_whole(got, b, key)
}

/// Whether the truth value `b` stands under `key`.
pub open spec fn holds_bool(v: Json, key: Seq<char>, b: bool) -> bool {
    holds(v, key, Json::Bool(b))
}

/// Whether a text stands under `key`.
pub open spec fn holds_text(v: Json, key: Seq<char>, t: Seq<char>) -> bool {
    exists|s: String| s@ == t && #[trigger] holds(v, key, Json::Text(s))
}

/// Whether `tc` is the decoder's configuration: what stands under `text_config`, and the root
/// only where nothing does.
pub open spec fn is_decoder(tc: Json, raw: Json) -> bool {
    holds(raw, "text_config"@, tc) || (lacks(raw, "text_config"@) && tc == raw)
}

/// Whether `p` holds the RoPE parameters: what stands under `rope_parameters`, and what stands
/// under `rope_scaling` only where nothing does.
pub open spec fn are_rope(p: Json, tc: Json) -> bool {
    holds(tc, "rope_parameters"@, p) || (lacks(tc, "rope_parameters"@) && holds(tc, "rope_scaling"@, p))
}

/// Whether the RoPE parameters hold no number under `key`.
pub open spec fn rope_lacks(tc: Json, key: Seq<char>) -> bool {
    forall|p: Json, n: Num| #[trigger] are_rope(p, tc) ==> !#[trigger] holds_number(p, key, n)
}

/// Whether `got` is the number that a RoPE setting has: among the RoPE parameters; where they
/// hold none, in the decoder's configuration; where neither does, the default.
pub open spec fn is_rope_number(got: Num, tc: Json, key: Seq<char>, default: Seq<char>) -> bool {
    &&& forall|p: Json, n: Num| #[trigger] are_rope(p, tc) && #[trigger] holds_number(p, key, n) ==> got == n
    &&& forall|n: Num| rope_lacks(tc, key) && #[trigger] holds_number(tc, key, n) ==> got == n
    &&& rope_lacks(tc, key) && (forall|n: Num| !#[trigger] holds_number(tc, key, n)) ==> got is Real
        && got->Real_0@ == default
}

/// A member is what the first pair with its key holds; there is none exactly where no pair has
/// the key.
pub proof fn members_are_the_first_pairs(v: Json, key: Seq<char>)
    ensures
        forall|x: Json| #[trigger] holds(v, key, x) <==> member(v, key) == Some(x),
        lacks(v, key) <==> member(v, key) is None,
{
    if let Json::Object(o) = v {
        let s = o@;
        lemma_member_index(s, key);
        let p = member_index(s, key);
        assert forall|x: Json| #[trigger] holds(v, key, x) <==> member(v, key) == Some(x) by {
            if holds(v, key, x) {
                let i = choose|i: int|
                    0 <= i < s.len() && (#[trigger] s[i]).0@ == key && s[i].1 == x && forall|j: int|
                        0 <= j < i ==> (#[trigger] s[j]).0@ != key;
                if p < i {
                    assert(s[p].0@ != key);
                }
                assert(i == p);
            }
            if member(v, key) == Some(x) {
                assert(s[p].0@ == key);
            }
        }
    }
}

proof fn lemma_numbers(v: Json, key: Seq<char>)
    ensures
        forall|n: Num| #[trigger] holds_number(v, key, n) <==> num_at(v, key) == Some(n),
        forall|n: i64| #[trigger] holds_whole(v, key, n) <==> whole_at(v, key) == Some(n),
        no_whole(v, key) <==> whole_at(v, key) is None,
        forall|b: bool| #[trigger] holds_bool(v, key, b) <==> bool_at(v, key) == Some(b),
{
    members_are_the_first_pairs(v, key);
    assert forall|n: i64| #[trigger] holds_whole(v, key, n) <==> whole_at(v, key) == Some(n) by {
        if n >= 0 {
            assert(holds(v, key, Json::Number(Num::Unsigned(n as u64))) <==> member(v, key) == Some(
                Json::Number(Num::Unsigned(n as u64)),
            ));
        }
        assert(holds(v, key, Json::Number(Num::Negative(n))) <==> member(v, key) == Some(
            Json::Number(Num::Negative(n)),
        ));
    }
    if whole_at(v, key) is Some {
        assert(holds_whole(v, key, whole_at(v, key)->0));
    }
}

proof fn lemma_decoder(tc: Json, raw: Json)
    requires
        is_decoder(tc, raw),
    ensures
        tc == crate::config::text_config(raw),
{
    members_are_the_first_pairs(raw, "text_config"@);
}

/// The RoPE base and the rotary part are the numbers that the RoPE parameters hold; where those
/// hold none, the ones that the decoder's configuration holds; the defaults are taken only where
/// neither holds one.
pub proof fn rope_numbers_are_found(c: Config, raw: Json, prep: Json, over: Option<i64>, tc: Json)
    requires
        config_is(c, raw, prep, over),
        is_decoder(tc, raw),
    ensures
        is_rope_number(c.rope.rope_theta, tc, "rope_theta"@, "10000.0"@),
        is_rope_number(c.rope.partial_rotary_factor, tc, "partial_rotary_factor"@, "1.0"@),
{
    lemma_decoder(tc, raw);
    lemma_rope_number(tc, "rope_theta"@);
    lemma_rope_number(tc, "partial_rotary_factor"@);
}

proof fn lemma_rope_number(tc: Json, key: Seq<char>)
    ensures
        forall|p: Json, n: Num| #[trigger] are_rope(p, tc) && #[trigger] holds_number(p, key, n)
            ==> crate::config::rope_num(tc, key) == Some(n),
        forall|n: Num| rope_lacks(tc, key) && #[trigger] holds_number(tc, key, n) ==> crate::config::rope_num(
            tc,
            key,
        ) == Some(n),
        rope_lacks(tc, key) && (forall|n: Num| !#[trigger] holds_number(tc, key, n)) ==> crate::config::rope_num(
            tc,
            key,
        ) is None,
{
    members_are_the_first_pairs(tc, "rope_parameters"@);
    members_are_the_first_pairs(tc, "rope_scaling"@);
    lemma_numbers(tc, key);
    let params = crate::config::rope_params(tc);
    assert forall|p: Json| #[trigger] are_rope(p, tc) <==> params == Some(p) by {}
    assert forall|p: Json, n: Num| #[trigger] are_rope(p, tc) && #[trigger] holds_number(p, key, n) implies
        crate::config::rope_num(tc, key) == Some(n) by {
        lemma_numbers(p, key);
    }
    if let Some(p) = params {
        lemma_numbers(p, key);
        if num_at(p, key) is Some {
            assert(are_rope(p, tc) && holds_number(p, key, num_at(p, key)->0));
        }
    }
    if num_at(tc, key) is Some {
        assert(holds_number(tc, key, num_at(tc, key)->0));
    }
}

/// The sizes of the decoder are the whole numbers that its configuration holds. The number of
/// key heads is that of the query heads where none is given, and the head dimension then their
/// share of the width.
pub proof fn sizes_are_found(c: Config, raw: Json, prep: Json, over: Option<i64>, tc: Json)
    requires
        config_is(c, raw, prep, over),
        is_decoder(tc, raw),
    ensures
        forall|n: i64| #[trigger] holds_whole(tc, "hidden_size"@, n) ==> c.hidden_size == n,
        forall|n: i64| #[trigger] holds_whole(tc, "intermediate_size"@, n) ==> c.intermediate_size == n,
        forall|n: i64| #[trigger] holds_whole(tc, "num_hidden_layers"@, n) ==> c.num_hidden_layers == n,
        forall|n: i64| #[trigger] holds_whole(tc, "num_attention_heads"@, n) ==> c.num_q_heads == n,
        is_whole_or(c.num_kv_heads as int, tc, "num_key_value_heads"@, c.num_q_heads as int),
        forall|n: i64| #[trigger] holds_whole(tc, "head_dim"@, n) ==> c.head_dim == n,
        no_whole(tc, "head_dim"@) && c.hidden_size >= 0 && c.num_q_heads > 0 ==> c.head_dim * c.num_q_heads
            <= c.hidden_size < (c.head_dim + 1) * c.num_q_heads,
        c.rope.head_dim == c.head_dim,
        is_whole(c.rope.rotary_dim, tc, "rotary_dim"@),
        is_whole(c.rope.original_max_position_embeddings, tc, "original_max_position_embeddings"@),
        forall|n: Num| #[trigger] holds_number(tc, "rms_norm_eps"@, n) ==> c.rms_norm_eps == n,
{
    lemma_decoder(tc, raw);
    lemma_numbers(tc, "hidden_size"@);
    lemma_numbers(tc, "intermediate_size"@);
    lemma_numbers(tc, "num_hidden_layers"@);
    lemma_numbers(tc, "num_attention_heads"@);
    lemma_numbers(tc, "num_key_value_heads"@);
    lemma_numbers(tc, "head_dim"@);
    lemma_numbers(tc, "rotary_dim"@);
    lemma_numbers(tc, "original_max_position_embeddings"@);
    lemma_numbers(tc, "rms_norm_eps"@);
    if whole_at(tc, "head_dim"@) is None && c.hidden_size >= 0 && c.num_q_heads > 0 {
        let a = c.hidden_size as int;
        let b = c.num_q_heads as int;
        assert(c.head_dim == a / b);
        vstd::arithmetic::div_mod::lemma_fundamental_div_mod(a, b);
        vstd::arithmetic::div_mod::lemma_mod_bound(a, b);
        assert(b * (a / b) == (a / b) * b) by (nonlinear_arith);
        assert((a / b + 1) * b == (a / b) * b + b) by (nonlinear_arith);
    }
}

/// The context length is the one asked for, where it is positive, and else the checkpoint's.
pub proof fn context_lengths_are_found(c: Config, raw: Json, prep: Json, over: Option<i64>, tc: Json)
    requires
        config_is(c, raw, prep, over),
        is_decoder(tc, raw),
    ensures
        over is Some && over->0 > 0 ==> c.max_position_embeddings == over->0,
        over is None || over->0 <= 0 ==> is_whole_or(
            c.max_position_embeddings as int,
            tc,
            "max_position_embeddings"@,
            8192,
        ),
        c.rope.max_position_embeddings == c.max_position_embeddings,
{
    lemma_decoder(tc, raw);
    lemma_numbers(tc, "max_position_embeddings"@);
}

/// The ids of special tokens and the vocabulary's size stand in the decoder's configuration or
/// at the root; where both hold one, the decoder's counts, and for images the root's.
pub proof fn token_ids_are_found(c: Config, raw: Json, prep: Json, over: Option<i64>, tc: Json)
    requires
        config_is(c, raw, prep, over),
        is_decoder(tc, raw),
    ensures
        is_whole_of(c.bos_token_id, tc, raw, "bos_token_id"@),
        forall|n: i64| #[trigger] holds_whole(tc, "vocab_size"@, n) ==> c.vocab_size == n,
        forall|n: i64| no_whole(tc, "vocab_size"@) && #[trigger] holds_whole(raw, "vocab_size"@, n) ==> c.vocab_size == n,
        forall|n: i64| #[trigger] holds_whole(raw, "image_token_id"@, n) ==> c.image_token_id == n,
        no_whole(raw, "image_token_id"@) ==> is_whole_or(c.image_token_id as int, tc, "image_token_id"@, 151655),
        is_whole_or(c.vision_start_token_id as int, raw, "vision_start_token_id"@, 151652),
        is_whole_or(c.vision_end_token_id as int, raw, "vision_end_token_id"@, 151653),
{
    lemma_decoder(tc, raw);
    lemma_numbers(tc, "bos_token_id"@);
    lemma_numbers(raw, "bos_token_id"@);
    lemma_numbers(tc, "vocab_size"@);
    lemma_numbers(raw, "vocab_size"@);
    lemma_numbers(tc, "image_token_id"@);
    lemma_numbers(raw, "image_token_id"@);
    lemma_numbers(raw, "vision_start_token_id"@);
    lemma_numbers(raw, "vision_end_token_id"@);
}

/// The head is tied to the embeddings as the root says; where it says nothing, as the decoder's
/// configuration says; and else not.
pub proof fn ties_are_found(c: Config, raw: Json, prep: Json, over: Option<i64>, tc: Json)
    requires
        config_is(c, raw, prep, over),
        is_decoder(tc, raw),
    ensures
        forall|b: bool| #[trigger] holds_bool(raw, "tie_word_embeddings"@, b) ==> c.tie_word_embeddings == b,
        (forall|b: bool| !#[trigger] holds_bool(raw, "tie_word_embeddings"@, b)) ==> (c.tie_word_embeddings
            <==> holds_bool(tc, "tie_word_embeddings"@, true)),
{
    lemma_decoder(tc, raw);
    lemma_numbers(raw, "tie_word_embeddings"@);
    lemma_numbers(tc, "tie_word_embeddings"@);
    if bool_at(raw, "tie_word_embeddings"@) is Some {
        assert(holds_bool(raw, "tie_word_embeddings"@, bool_at(raw, "tie_word_embeddings"@)->0));
    }
}

/// The whole numbers of a list are those of its parts in a row; those of one value are that
/// value where it is a whole number, and none where it is not.
pub proof fn wholes_keep_their_order(a: Seq<Json>, b: Seq<Json>, v: Json)
    ensures
        wholes(a + b) == wholes(a) + wholes(b),
        forall|n: u64| v == Json::Number(Num::Unsigned(n)) && n <= i64::MAX ==> wholes(seq![v]) == seq![n as i64],
        forall|n: i64| v == Json::Number(Num::Negative(n)) ==> wholes(seq![v]) == seq![n],
        v is Null || v is Bool || v is Text || v is List || v is Object || (v matches Json::Number(n) && (n is Real || (
        n matches Num::Unsigned(u) && u > i64::MAX))) ==> wholes(seq![v]) == Seq::<i64>::empty(),
    decreases b.len(),
{
    if b.len() == 0 {
        assert(a + b =~= a);
        assert(wholes(a) + wholes(b) =~= wholes(a));
    } else {
        wholes_keep_their_order(a, b.drop_last(), v);
        assert((a + b).drop_last() =~= a + b.drop_last());
        assert((a + b).last() == b.last());
        assert(wholes(a + b) =~= wholes(a) + wholes(b));
    }
    let s = seq![v];
    assert(s.drop_last() =~= Seq::<Json>::empty());
    assert(s.last() == v);
    assert(wholes(s.drop_last()) =~= Seq::<i64>::empty());
    if let Some(n) = whole(v) {
        assert(wholes(s) =~= seq![n]);
    }
}

/// The stop ids are those of the decoder's configuration, whatever the root says; the root's
/// only where the decoder's configuration has nothing under that name. One number is one id; of
/// a list every whole number is one.
pub proof fn stop_ids_are_found(c: Config, raw: Json, prep: Json, over: Option<i64>, tc: Json, from: Json)
    requires
        config_is(c, raw, prep, over),
        is_decoder(tc, raw),
        holds(tc, "eos_token_id"@, from) || (lacks(tc, "eos_token_id"@) && holds(raw, "eos_token_id"@, from)),
    ensures
        forall|n: u64| from == Json::Number(Num::Unsigned(n)) && n <= i64::MAX ==> c.eos_token_ids@ == seq![n as i64],
        forall|n: i64| from == Json::Number(Num::Negative(n)) ==> c.eos_token_ids@ == seq![n],
        from matches Json::List(a) ==> c.eos_token_ids@ == wholes(a@),
        !(from is Number || from is List) ==> c.eos_token_ids@.len() == 0,
{
    lemma_decoder(tc, raw);
    members_are_the_first_pairs(tc, "eos_token_id"@);
    members_are_the_first_pairs(raw, "eos_token_id"@);
}

/// Without stop ids in the configuration there are none.
pub proof fn stop_ids_are_not_made_up(c: Config, raw: Json, prep: Json, over: Option<i64>, tc: Json)
    requires
        config_is(c, raw, prep, over),
        is_decoder(tc, raw),
        lacks(tc, "eos_token_id"@),
        lacks(raw, "eos_token_id"@),
    ensures
        c.eos_token_ids@.len() == 0,
{
    lemma_decoder(tc, raw);
    members_are_the_first_pairs(tc, "eos_token_id"@);
    members_are_the_first_pairs(raw, "eos_token_id"@);
}

/// Whether a layer type names a kind of attention.
pub open spec fn names_layer(v: Json, k: LayerKind) -> bool {
    v matches Json::Text(t) && match k {
        LayerKind::FullAttention => t@ == "full_attention"@,
        LayerKind::LinearAttention => t@ == "linear_attention"@,
    }
}

/// A stack that is no hybrid attends fully in every layer. In a hybrid stack each layer has the
/// attention that the list gives it; without a list, every `interval`-th layer attends fully,
/// the last of each run, and the others linearly.
pub proof fn layers_are_found(c: Config, raw: Json, prep: Json, over: Option<i64>, tc: Json, i: int)
    requires
        config_is(c, raw, prep, over),
        crate::config::refusal(raw) is None,
        crate::config::readable(raw, prep),
        is_decoder(tc, raw),
        0 <= i < c.num_hidden_layers,
    ensures
        c.layer_types@.len() == c.num_hidden_layers,
        c.arch_kind != ArchKind::Qwen35 && c.arch_kind != ArchKind::Qwen4Exp ==> c.layer_types@[i]
            == LayerKind::FullAttention && !c.norm_constant_bias && c.gdn is None,
        c.arch_kind == ArchKind::Qwen35 || c.arch_kind == ArchKind::Qwen4Exp ==> {
            &&& c.norm_constant_bias && c.gdn is Some
            &&& forall|a: Vec<Json>| #[trigger] holds(tc, "layer_types"@, Json::List(a)) ==> a@.len()
                == c.num_hidden_layers && names_layer(a@[i], c.layer_types@[i])
            &&& forall|n: i64|
                (forall|a: Vec<Json>| !#[trigger] holds(tc, "layer_types"@, Json::List(a))) && n > 0
                    && #[trigger] holds_whole(tc, "full_attention_interval"@, n) ==> (c.layer_types@[i]
                    == LayerKind::FullAttention <==> i as int % n as int == n - 1)
            &&& (forall|a: Vec<Json>| !#[trigger] holds(tc, "layer_types"@, Json::List(a))) && no_whole(
                tc,
                "full_attention_interval"@,
            ) ==> (c.layer_types@[i] == LayerKind::FullAttention <==> i % 4 == 3)
        },
{
    lemma_decoder(tc, raw);
    members_are_the_first_pairs(tc, "layer_types"@);
    lemma_numbers(tc, "full_attention_interval"@);
    assert(crate::config::has_decoder(raw, c.arch_kind));
    let listed = list_at(tc, "layer_types"@);
    if c.arch_kind == ArchKind::Qwen35 || c.arch_kind == ArchKind::Qwen4Exp {
        match listed {
            Some(s) => {
                let v = member(tc, "layer_types"@)->0;
                assert(holds(tc, "layer_types"@, v));
                assert(v is List);
                let a = v->List_0;
                assert(holds(tc, "layer_types"@, Json::List(a)));
                assert(crate::config::layers_refusal(tc, c.arch_kind, c.num_hidden_layers) is None);
                assert(a@.len() == c.num_hidden_layers);
                if crate::config::layer_kind(a@[i]) is None {
                    lemma_first_bad(a@, i);
                }
                assert(names_layer(a@[i], c.layer_types@[i]));
            },
            None => {
                assert(forall|a: Vec<Json>| !#[trigger] holds(tc, "layer_types"@, Json::List(a)));
                assert forall|n: i64| n > 0 && #[trigger] holds_whole(tc, "full_attention_interval"@, n) implies (
                c.layer_types@[i] == LayerKind::FullAttention <==> i as int % n as int == n - 1) by {
                    lemma_last_of_run(i, n as int);
                }
            },
        }
    }
}

proof fn lemma_first_bad(a: Seq<Json>, i: int)
    requires
        0 <= i < a.len(),
        crate::config::layer_kind(a[i]) is None,
    ensures
        exists|j: int| crate::config::first_bad(a, j),
    decreases i,
{
    if exists|j: int| 0 <= j < i && crate::config::layer_kind(#[trigger] a[j]) is None {
        let j = choose|j: int| 0 <= j < i && crate::config::layer_kind(#[trigger] a[j]) is None;
        lemma_first_bad(a, j);
    } else {
        assert(crate::config::first_bad(a, i));
    }
}

proof fn lemma_last_of_run(i: int, n: int)
    requires
        0 <= i,
        n > 0,
    ensures
        (i + 1) % n == 0 <==> i % n == n - 1,
{
    vstd::arithmetic::div_mod::lemma_fundamental_div_mod(i, n);
    vstd::arithmetic::div_mod::lemma_mod_bound(i, n);
    let q = i / n;
    let r = i % n;
    if r == n - 1 {
        assert(i + 1 == (q + 1) * n) by (nonlinear_arith)
            requires
                i == n * q + r,
                r == n - 1,
        ;
        vstd::arithmetic::div_mod::lemma_mod_multiples_basic(q + 1, n);
    } else {
        assert(i + 1 == q * n + (r + 1)) by (nonlinear_arith)
            requires
                i == n * q + r,
        ;
        vstd::arithmetic::div_mod::lemma_fundamental_div_mod_converse(i + 1, n, q, r + 1);
    }
}

/// The shape of the gated delta net is what the decoder's configuration holds.
pub proof fn delta_nets_are_found(c: Config, raw: Json, prep: Json, over: Option<i64>, tc: Json)
    requires
        config_is(c, raw, prep, over),
        is_decoder(tc, raw),
        c.gdn is Some,
    ensures
        is_whole_or(c.gdn->0.conv_kernel_size as int, tc, "linear_conv_kernel_dim"@, 4),
        is_whole_or(c.gdn->0.num_k_heads as int, tc, "linear_num_key_heads"@, 16),
        is_whole_or(c.gdn->0.num_v_heads as int, tc, "linear_num_value_heads"@, 32),
        is_whole_or(c.gdn->0.k_head_dim as int, tc, "linear_key_head_dim"@, 128),
        is_whole_or(c.gdn->0.v_head_dim as int, tc, "linear_value_head_dim"@, 128),
{
    lemma_decoder(tc, raw);
    lemma_numbers(tc, "linear_conv_kernel_dim"@);
    lemma_numbers(tc, "linear_num_key_heads"@);
    lemma_numbers(tc, "linear_num_value_heads"@);
    lemma_numbers(tc, "linear_key_head_dim"@);
    lemma_numbers(tc, "linear_value_head_dim"@);
}

/// The output gate of the delta net is a sigmoid exactly where the configuration says so; a
/// gated attention exists in hybrid stacks alone; heads are normalised as the stack asks; and
/// only one stack rotates adjacent pairs.
pub proof fn switches_are_found(c: Config, raw: Json, prep: Json, over: Option<i64>, tc: Json)
    requires
        config_is(c, raw, prep, over),
        is_decoder(tc, raw),
    ensures
        c.gdn_gate_act == GateAct::Sigmoid <==> holds_text(tc, "output_gate_type"@, "sigmoid"@),
        c.attn_output_gate <==> c.gdn is Some && holds_bool(tc, "attn_output_gate"@, true),
        c.arch_kind == ArchKind::Glm4Moe ==> (c.qk_norm <==> holds_bool(tc, "use_qk_norm"@, true)),
        c.arch_kind == ArchKind::Llama || c.arch_kind == ArchKind::Glm4 ==> !c.qk_norm,
        c.arch_kind == ArchKind::Qwen3 || c.arch_kind == ArchKind::Qwen3Moe || c.gdn is Some ==> c.qk_norm,
        c.rope.rope_style == RopeStyle::Gptj <==> c.arch_kind == ArchKind::Glm4,
{
    lemma_decoder(tc, raw);
    lemma_numbers(tc, "attn_output_gate"@);
    lemma_numbers(tc, "use_qk_norm"@);
    members_are_the_first_pairs(tc, "output_gate_type"@);
    if text_at(tc, "output_gate_type"@) == Some("sigmoid"@) {
        let v = member(tc, "output_gate_type"@)->0;
        assert(v is Text);
        assert(holds(tc, "output_gate_type"@, Json::Text(v->Text_0)));
    }
}

/// The experts are what the decoder's configuration holds: their number and width, how many
/// see a token, and what is shared. Only stacks with experts have any.
pub proof fn experts_are_found(c: Config, raw: Json, prep: Json, over: Option<i64>, tc: Json)
    requires
        config_is(c, raw, prep, over),
        is_decoder(tc, raw),
    ensures
        c.moe is Some <==> c.arch_kind == ArchKind::Glm4Moe || c.arch_kind == ArchKind::Qwen3Moe || c.arch_kind
            == ArchKind::Qwen4Exp,
        c.moe matches Some(m) ==> {
            &&& forall|n: i64|
                #[trigger] holds_whole(tc, "moe_intermediate_size"@, n) ==> m.moe_intermediate_size == n
            &&& m.norm_topk_prob
            &&& m.router == RouterKind::Dots <==> c.arch_kind == ArchKind::Glm4Moe
            &&& m.shared_gate <==> c.arch_kind == ArchKind::Qwen4Exp
            &&& c.arch_kind == ArchKind::Glm4Moe ==> {
                &&& is_whole_or(m.num_experts as int, tc, "n_routed_experts"@, 128)
                &&& is_whole_or(m.num_experts_per_tok as int, tc, "num_experts_per_tok"@, 8)
                &&& is_whole_or(m.first_k_dense_replace as int, tc, "first_k_dense_replace"@, 3)
                &&& forall|n: i64|
                    #[trigger] holds_whole(tc, "n_shared_experts"@, n) ==> m.shared_expert_intermediate_size == n
                        * m.moe_intermediate_size
                &&& no_whole(tc, "n_shared_experts"@) ==> m.shared_expert_intermediate_size
                    == m.moe_intermediate_size
                &&& forall|n: Num|
                    #[trigger] holds_number(tc, "routed_scaling_factor"@, n) ==> m.routed_scaling_factor == n
            }
            &&& c.arch_kind != ArchKind::Glm4Moe ==> {
                &&& forall|n: i64| #[trigger] holds_whole(tc, "num_experts"@, n) ==> m.num_experts == n
                &&& forall|n: i64|
                    no_whole(tc, "num_experts"@) && #[trigger] holds_whole(tc, "num_local_experts"@, n)
                        ==> m.num_experts == n
                &&& forall|n: i64|
                    #[trigger] holds_whole(tc, "num_experts_per_tok"@, n) ==> m.num_experts_per_tok == n
                &&& m.first_k_dense_replace == 0
            }
            &&& c.arch_kind == ArchKind::Qwen3Moe ==> {
                &&& is_whole_or(m.decoder_sparse_step as int, tc, "decoder_sparse_step"@, 1)
                &&& forall|a: Vec<Json>|
                    #[trigger] holds(tc, "mlp_only_layers"@, Json::List(a)) ==> m.mlp_only_layers@ == wholes(a@)
                &&& m.shared_expert_intermediate_size == 0
            }
            &&& c.arch_kind == ArchKind::Qwen4Exp ==> is_whole_or(
                m.shared_expert_intermediate_size as int,
                tc,
                "shared_expert_intermediate_size"@,
                m.moe_intermediate_size as int,
            )
        },
{
    lemma_decoder(tc, raw);
    lemma_numbers(tc, "moe_intermediate_size"@);
    lemma_numbers(tc, "n_routed_experts"@);
    lemma_numbers(tc, "num_experts_per_tok"@);
    lemma_numbers(tc, "first_k_dense_replace"@);
    lemma_numbers(tc, "n_shared_experts"@);
    lemma_numbers(tc, "routed_scaling_factor"@);
    lemma_numbers(tc, "num_experts"@);
    lemma_numbers(tc, "num_local_experts"@);
    lemma_numbers(tc, "decoder_sparse_step"@);
    lemma_numbers(tc, "shared_expert_intermediate_size"@);
    members_are_the_first_pairs(tc, "mlp_only_layers"@);
    if let Some(m) = c.moe {
        let w = m.moe_intermediate_size as int;
        assert forall|n: i64| #[trigger] holds_whole(tc, "n_shared_experts"@, n) implies w * n == n * w by {
            vstd::arithmetic::mul::lemma_mul_is_commutative(w, n as int);
        }
        assert(w * 1 == w);
    }
}

/// The sections of a multi-axis RoPE are the three whole numbers that the RoPE parameters list.
pub proof fn rope_sections_are_found(c: Config, raw: Json, prep: Json, over: Option<i64>, tc: Json)
    requires
        config_is(c, raw, prep, over),
        is_decoder(tc, raw),
    ensures
        forall|p: Json, a: Vec<Json>|
            #[trigger] are_rope(p, tc) && #[trigger] holds(p, "mrope_section"@, Json::List(a)) && a@.len() == 3
                && wholes(a@).len() == 3 ==> c.mrope_section == Some((wholes(a@)[0], wholes(a@)[1], wholes(a@)[2])),
        (forall|p: Json, a: Vec<Json>|
            #[trigger] are_rope(p, tc) && #[trigger] holds(p, "mrope_section"@, Json::List(a)) ==> a@.len() != 3)
            ==> c.mrope_section is None,
{
    lemma_decoder(tc, raw);
    members_are_the_first_pairs(tc, "rope_parameters"@);
    members_are_the_first_pairs(tc, "rope_scaling"@);
    let params = crate::config::rope_params(tc);
    assert forall|p: Json| #[trigger] are_rope(p, tc) <==> params == Some(p) by {}
    if let Some(p) = params {
        members_are_the_first_pairs(p, "mrope_section"@);
        if let Some(Json::List(a)) = member(p, "mrope_section"@) {
            assert(are_rope(p, tc) && holds(p, "mrope_section"@, Json::List(a)));
            if a@.len() == 3 && wholes(a@).len() == 3 {
                lemma_three(a@);
            }
        }
    }
}

proof fn lemma_three(a: Seq<Json>)
    requires
        a.len() == 3,
        wholes(a).len() == 3,
    ensures
        forall|i: int| 0 <= i < 3 ==> whole(#[trigger] a[i]) == Some(wholes(a)[i]),
{
    let b = a.drop_last();
    let d = b.drop_last();
    let e = d.drop_last();
    assert(wholes(e) =~= Seq::<i64>::empty());
    assert(wholes(d).len() <= 1);
    assert(wholes(b).len() <= 2);
    assert(a[0] == d.last());
    assert(a[1] == b.last());
    assert(a[2] == a.last());
}

/// The parameters of the stack with hyper-connections are what the decoder's configuration
/// holds; its injection layers are listed from one, and counted here from zero.
pub proof fn hyper_connections_are_found(c: Config, raw: Json, prep: Json, over: Option<i64>, tc: Json)
    requires
        config_is(c, raw, prep, over),
        crate::config::refusal(raw) is None,
        crate::config::readable(raw, prep),
        is_decoder(tc, raw),
    ensures
        c.qwen4 is Some <==> c.arch_kind == ArchKind::Qwen4Exp,
        c.qwen4 matches Some(q) ==> {
            &&& is_whole_or(q.hc_mult as int, tc, "hc_count"@, 4)
            &&& forall|n: i64| #[trigger] holds_whole(tc, "indexer_n_heads"@, n) ==> q.indexer_n_heads == n
            &&& forall|n: i64| #[trigger] holds_whole(tc, "indexer_head_dim"@, n) ==> q.indexer_head_dim == n
            &&& forall|n: i64| #[trigger] holds_whole(tc, "indexer_budget"@, n) ==> q.indexer_budget == n
            &&& is_whole_or(q.indexer_compress_ratio as int, tc, "indexer_compress_ratio"@, 4)
            &&& is_whole_or(q.ple_embed_dim as int, tc, "ple_embed_dim"@, 0)
            &&& is_whole_or(q.ple_conv_kernel_size as int, tc, "ple_conv_kernel_size"@, 4)
            &&& is_whole_or(q.ngram_size as int, tc, "ngram_size"@, 0)
            &&& is_whole_or(q.heads_per_ngram as int, tc, "heads_per_ngram"@, 0)
            &&& forall|n: i64| #[trigger] holds_whole(tc, "eos_token_id"@, n) ==> q.ple_eos_token_id == n
            &&& no_whole(tc, "eos_token_id"@) && c.eos_token_ids@.len() > 0 ==> q.ple_eos_token_id
                == c.eos_token_ids@[0]
            &&& forall|a: Vec<Json>, i: int|
                #[trigger] holds(tc, "ple_layer_ids"@, Json::List(a)) && 0 <= i < wholes(a@).len()
                    ==> q.ple_layer_ids@.len() == wholes(a@).len() && (#[trigger] q.ple_layer_ids@[i]) + 1
                    == wholes(a@)[i]
        },
{
    lemma_decoder(tc, raw);
    lemma_numbers(tc, "hc_count"@);
    lemma_numbers(tc, "indexer_n_heads"@);
    lemma_numbers(tc, "indexer_head_dim"@);
    lemma_numbers(tc, "indexer_budget"@);
    lemma_numbers(tc, "indexer_compress_ratio"@);
    lemma_numbers(tc, "ple_embed_dim"@);
    lemma_numbers(tc, "ple_conv_kernel_size"@);
    lemma_numbers(tc, "ngram_size"@);
    lemma_numbers(tc, "heads_per_ngram"@);
    lemma_numbers(tc, "eos_token_id"@);
    members_are_the_first_pairs(tc, "ple_layer_ids"@);
    assert(crate::config::has_decoder(raw, c.arch_kind));
    if let Some(q) = c.qwen4 {
        assert forall|a: Vec<Json>, i: int|
            #[trigger] holds(tc, "ple_layer_ids"@, Json::List(a)) && 0 <= i < wholes(a@).len() implies
            q.ple_layer_ids@.len() == wholes(a@).len() && (#[trigger] q.ple_layer_ids@[i]) + 1 == wholes(a@)[i] by {
            let ids = crate::config::ple_ids(tc);
            assert(ids == wholes(a@));
            assert(ids[i] > i64::MIN);
            assert(q.ple_layer_ids@[i] == (ids[i] - 1) as i64);
        }
    }
}

/// A checkpoint has a vision tower exactly where its configuration tells how deep it is; its
/// sizes are what stands there, and its pixel limits what stands with the preprocessor.
pub proof fn towers_are_found(c: Config, raw: Json, prep: Json, over: Option<i64>, vc: Json)
    requires
        config_is(c, raw, prep, over),
        holds(raw, "vision_config"@, vc),
    ensures
        c.vision is None <==> no_whole(vc, "depth"@),
        c.vision matches Some(t) ==> {
            &&& forall|n: i64| #[trigger] holds_whole(vc, "depth"@, n) ==> t.depth == n
            &&& forall|n: i64| #[trigger] holds_whole(vc, "hidden_size"@, n) ==> t.hidden_size == n
            &&& forall|n: i64| #[trigger] holds_whole(vc, "intermediate_size"@, n) ==> t.intermediate_size == n
            &&& forall|n: i64| #[trigger] holds_whole(vc, "num_heads"@, n) ==> t.num_heads == n
            &&& is_whole_or(t.out_hidden_size as int, vc, "out_hidden_size"@, c.hidden_size as int)
            &&& is_whole_or(t.patch_size as int, vc, "patch_size"@, 16)
            &&& is_whole_or(t.temporal_patch_size as int, vc, "temporal_patch_size"@, 2)
            &&& is_whole_or(t.spatial_merge_size as int, vc, "spatial_merge_size"@, 2)
            &&& is_whole_or(t.num_position_embeddings as int, vc, "num_position_embeddings"@, 2304)
            &&& forall|a: Vec<Json>|
                #[trigger] holds(vc, "deepstack_visual_indexes"@, Json::List(a)) ==> t.deepstack_visual_indexes@
                    == wholes(a@)
            &&& forall|z: Json| #[trigger] holds(prep, "size"@, z) ==> is_whole_or(
                t.min_pixels as int,
                z,
                "shortest_edge"@,
                3136,
            ) && is_whole_or(t.max_pixels as int, z, "longest_edge"@, 12845056)
            &&& lacks(prep, "size"@) ==> t.min_pixels == 3136 && t.max_pixels == 12845056
        },
{
    members_are_the_first_pairs(raw, "vision_config"@);
    lemma_numbers(vc, "depth"@);
    lemma_numbers(vc, "hidden_size"@);
    lemma_numbers(vc, "intermediate_size"@);
    lemma_numbers(vc, "num_heads"@);
    lemma_numbers(vc, "out_hidden_size"@);
    lemma_numbers(vc, "patch_size"@);
    lemma_numbers(vc, "temporal_patch_size"@);
    lemma_numbers(vc, "spatial_merge_size"@);
    lemma_numbers(vc, "num_position_embeddings"@);
    members_are_the_first_pairs(vc, "deepstack_visual_indexes"@);
    members_are_the_first_pairs(prep, "size"@);
    if let Some(z) = member(prep, "size"@) {
        lemma_numbers(z, "shortest_edge"@);
        lemma_numbers(z, "longest_edge"@);
        assert(holds(prep, "size"@, z));
    }
}

/// The RoPE parameters are taken for a scaling exactly where they name a type of scaling other
/// than the plain ones.
pub proof fn rope_scalings_are_found(tc: Json, p: Json)
    requires
        are_rope(p, tc),
    ensures
        crate::config::rope_scaling_of(tc) is None || crate::config::rope_scaling_of(tc) == Some(p),
        crate::config::rope_scaling_of(tc) is Some <==> exists|t: Seq<char>|
            #[trigger] holds_text(p, "rope_type"@, t) && t != "default"@ && t != "mrope"@,
{
    members_are_the_first_pairs(tc, "rope_parameters"@);
    members_are_the_first_pairs(tc, "rope_scaling"@);
    members_are_the_first_pairs(p, "rope_type"@);
    if let Some(Json::Text(s)) = member(p, "rope_type"@) {
        assert(holds(p, "rope_type"@, Json::Text(s)));
        assert(holds_text(p, "rope_type"@, s@));
    }
}

/// Whether the layers that a hybrid checkpoint lists can be made: one for each layer, of a kind
/// that there is. Without a list there is nothing to refuse.
pub open spec fn lists_its_layers(tc: Json, layers: int) -> bool {
    forall|a: Vec<Json>|
        #[trigger] holds(tc, "layer_types"@, Json::List(a)) ==> a@.len() == layers && forall|i: int|
            0 <= i < a@.len() ==> names_layer(#[trigger] a@[i], LayerKind::FullAttention) || names_layer(
                a@[i],
                LayerKind::LinearAttention,
            )
}

/// A checkpoint whose architecture is known is accepted exactly where it holds what its
/// architecture needs: the width of the experts, how many there are under either name and how
/// many take a token, normalised routing, the indexer's sizes, and layers of known kinds.
pub proof fn checkpoints_are_accepted_with_what_they_need(raw: Json, tc: Json, layers: i64)
    requires
        is_decoder(tc, raw),
        crate::config::arch_refusal(raw) is None,
        holds_whole(tc, "num_hidden_layers"@, layers),
    ensures
        ({
            let kind = crate::config::kind_of(raw);
            let width = !no_whole(tc, "moe_intermediate_size"@);
            let count = !no_whole(tc, "num_experts"@) || !no_whole(tc, "num_local_experts"@);
            let each = !no_whole(tc, "num_experts_per_tok"@);
            let layered = lists_its_layers(tc, layers as int);
            let ok = crate::config::refusal(raw) is None;
            &&& kind == ArchKind::Llama || kind == ArchKind::Glm4 || kind == ArchKind::Qwen3 ==> ok
            &&& kind == ArchKind::Glm4Moe ==> (ok <==> width)
            &&& kind == ArchKind::Qwen3Moe ==> (ok <==> width && count && each && !holds_bool(
                tc,
                "norm_topk_prob"@,
                false,
            ))
            &&& kind == ArchKind::Qwen35 ==> (ok <==> layered)
            &&& kind == ArchKind::Qwen4Exp ==> (ok <==> layered && width && count && each && !no_whole(
                tc,
                "indexer_n_heads"@,
            ) && !no_whole(tc, "indexer_head_dim"@) && !no_whole(tc, "indexer_budget"@))
        }),
{
    lemma_decoder(tc, raw);
    lemma_numbers(tc, "moe_intermediate_size"@);
    lemma_numbers(tc, "num_experts"@);
    lemma_numbers(tc, "num_local_experts"@);
    lemma_numbers(tc, "num_experts_per_tok"@);
    lemma_numbers(tc, "indexer_n_heads"@);
    lemma_numbers(tc, "indexer_head_dim"@);
    lemma_numbers(tc, "indexer_budget"@);
    lemma_numbers(tc, "num_hidden_layers"@);
    lemma_numbers(tc, "norm_topk_prob"@);
    if crate::config::kind_of(raw).hybrid() {
        lemma_layers_listed(tc, crate::config::kind_of(raw), layers);
    }
}

proof fn lemma_layers_listed(tc: Json, kind: ArchKind, layers: i64)
    requires
        kind.hybrid(),
    ensures
        crate::config::layers_refusal(tc, kind, layers) is None <==> lists_its_layers(tc, layers as int),
{
    members_are_the_first_pairs(tc, "layer_types"@);
    match list_at(tc, "layer_types"@) {
        None => {},
        Some(s) => {
            let v = member(tc, "layer_types"@)->0;
            let a = v->List_0;
            assert(holds(tc, "layer_types"@, Json::List(a)));
            if s.len() == layers {
                if forall|i: int| 0 <= i < s.len() ==> crate::config::layer_kind(#[trigger] s[i]) is Some {
                    assert forall|i: int| !crate::config::first_bad(s, i) by {}
                    assert forall|b: Vec<Json>| #[trigger] holds(tc, "layer_types"@, Json::List(b)) implies b@.len() == layers
                        && forall|i: int|
                        0 <= i < b@.len() ==> names_layer(#[trigger] b@[i], LayerKind::FullAttention) || names_layer(
                            b@[i],
                            LayerKind::LinearAttention,
                        ) by {
                        assert(Json::List(b) == v);
                    }
                } else {
                    let i = choose|i: int| 0 <= i < s.len() && crate::config::layer_kind(#[trigger] s[i]) is None;
                    lemma_first_bad(s, i);
                    assert(crate::config::layer_kind(a@[i]) is None);
                }
            }
        },
    }
}

/// The settings of the block drafter are the whole numbers that stand under their keys, and the
/// defaults only where none does.
pub proof fn drafter_settings_are_found(raw: Json, d: Json, p: DFlash2Params)
    requires
        params_are(raw, d, p),
    ensures
        is_whole_or(p.block_size as int, d, "block_size"@, 8),
        is_whole_or(p.conv_kernel_size as int, d, "conv_kernel_size"@, 2),
        is_whole_or(p.conv_group_size as int, d, "conv_group_size"@, 16),
        is_whole_or(p.sliding_window as int, raw, "sliding_window"@, 2048),
        holds_whole(d, "mask_token_id"@, p.mask_token_id),
        holds_whole(d, "selector_rank"@, p.selector_rank),
        holds_whole(d, "selector_top_k"@, p.selector_top_k),
        forall|a: Vec<Json>| #[trigger] holds(d, "target_layer_ids"@, Json::List(a)) ==> p.target_layer_ids@ == wholes(a@),
{
    lemma_numbers(d, "block_size"@);
    lemma_numbers(d, "conv_kernel_size"@);
    lemma_numbers(d, "conv_group_size"@);
    lemma_numbers(raw, "sliding_window"@);
    lemma_numbers(d, "mask_token_id"@);
    lemma_numbers(d, "selector_rank"@);
    lemma_numbers(d, "selector_top_k"@);
    members_are_the_first_pairs(d, "target_layer_ids"@);
}

} // verus!
