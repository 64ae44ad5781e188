//! Loading a model: which parts it has, in which order they are read, and under which keys.
use vstd::prelude::*;
use crate::config::{ArchKind, Config, LayerKind};
use crate::tensors::{find, name_with, present, TensorInfo};
use crate::text::{chars_of, decimal, push_chars, push_decimal, push_text};

verus! {

/// What a part of a model is.
#[derive(Clone, Copy, Debug, PartialEq, Eq, Structural)]
pub enum PartKind {
    Embedding,
    /// A block of a homogeneous stack; its feed-forward part is sparse or dense.
    Block { sparse: bool },
    /// A layer of a hybrid stack, with full or linear attention.
    Hybrid { full: bool },
    /// An injection of n-gram features ahead of a layer.
    Ple,
    /// A layer with hyper-connections, with sparse full or linear attention.
    HyperConnected { full: bool },
    /// The n-gram table.
    NGram,
    /// The mixer that collapses the streams.
    Mixer,
    Norm,
    Head,
}

/// A part of a model.
pub struct Part {
    pub kind: PartKind,
    pub key: String,
    /// The layer it belongs to, or -1.
    pub layer: i64,
}

/// A part of a model, its key as text.
#[verifier::ext_equal]
pub struct PartView {
    pub kind: PartKind,
    pub key: Seq<char>,
    pub layer: int,
}

impl Part {
    /// The part, its key as text.
    pub open spec fn view(&self) -> PartView {
        PartView { kind: self.kind, key: self.key@, layer: self.layer as int }
    }
}

/// The parts, their keys as texts.
pub open spec fn views(v: Seq<Part>) -> Seq<PartView> {
    Seq::new(v.len(), |i: int| v[i].view())
}

/// The key of a layer.
pub open spec fn layer_key(prefix: Seq<char>, i: nat) -> Seq<char> {
    prefix + ".layers."@ + decimal(i)
}

/// Whether an injection stands ahead of a layer.
pub open spec fn injects(c: Config, i: int) -> bool {
    c.qwen4->0.ple_layer_ids@.contains(i as i64)
}

/// The parts of one layer.
pub open spec fn layer_parts(c: Config, i: nat) -> Seq<PartView> {
    let key = layer_key(c.key_prefix@, i);
    match c.arch_kind {
        ArchKind::Qwen35 => seq![
            PartView {
                kind: PartKind::Hybrid { full: c.layer_types@[i as int] == LayerKind::FullAttention },
                key,
                layer: i as int,
            },
        ],
        ArchKind::Qwen4Exp => {
            let layer = PartView {
                kind: PartKind::HyperConnected { full: c.layer_types@[i as int] == LayerKind::FullAttention },
                key,
                layer: i as int,
            };
            if injects(c, i as int) {
                seq![PartView { kind: PartKind::Ple, key: key + ".ple"@, layer: i as int }, layer]
            } else {
                seq![layer]
            }
        },
        _ => seq![
            PartView {
                kind: PartKind::Block {
                    sparse: match c.moe {
                        Some(p) => p.sparse(i as int),
                        None => false,
                    },
                },
                key,
                layer: i as int,
            },
        ],
    }
}

/// The parts of the first `n` layers.
pub open spec fn layers_parts(c: Config, n: nat) -> Seq<PartView>
    decreases n,
{
    if n == 0 {
        seq![]
    } else {
        layers_parts(c, (n - 1) as nat) + layer_parts(c, (n - 1) as nat)
    }
}

/// Whether an injection stands ahead of one of the first `n` layers.
pub open spec fn any_injects(c: Config, n: int) -> bool {
    exists|i: int| 0 <= i < n && #[trigger] injects(c, i)
}

/// The parts behind the layers.
pub open spec fn tail_parts(c: Config) -> Seq<PartView> {
    let prefix = c.key_prefix@;
    let head = PartView { kind: PartKind::Head, key: "lm_head"@, layer: -1 };
    if c.arch_kind == ArchKind::Qwen4Exp {
        let mixer = PartView { kind: PartKind::Mixer, key: prefix + ".hyper_connection_mixer"@, layer: -1 };
        if any_injects(c, c.num_hidden_layers as int) {
            seq![PartView { kind: PartKind::NGram, key: prefix + ".ple_embedding"@, layer: -1 }, mixer, head]
        } else {
            seq![mixer, head]
        }
    } else {
        seq![PartView { kind: PartKind::Norm, key: prefix + ".norm"@, layer: -1 }, head]
    }
}

/// All parts of a model.
pub open spec fn all_parts(c: Config) -> Seq<PartView> {
    seq![PartView { kind: PartKind::Embedding, key: c.key_prefix@ + ".embed_tokens"@, layer: -1 }] + layers_parts(
        c,
        c.num_hidden_layers as nat,
    ) + tail_parts(c)
}

/// Whether a configuration names everything that its layers need.
pub open spec fn complete(c: Config) -> bool {
    &&& 0 <= c.num_hidden_layers < usize::MAX
    &&& c.num_hidden_layers < i64::MAX
    &&& (c.arch_kind == ArchKind::Qwen35 || c.arch_kind == ArchKind::Qwen4Exp) ==> c.num_hidden_layers
        <= c.layer_types@.len()
    &&& c.arch_kind == ArchKind::Qwen4Exp ==> c.qwen4 is Some
}

fn part(kind: PartKind, key: &Vec<char>, more: &str, layer: i64) -> (r: Part)
    ensures
        r.view() == (PartView { kind, key: key@ + more@, layer: layer as int }),
{
    Part { kind, key: name_with(key, more), layer }
}

fn push_part(v: &mut Vec<Part>, p: Part)
    ensures
        views(final(v)@) == views(old(v)@).push(p.view()),
{
    let ghost before = v@;
    v.push(p);
    assert(views(v@) =~= views(before).push(p.view()));
}

fn has_id(ids: &Vec<i64>, x: i64) -> (r: bool)
    ensures
        r == ids@.contains(x),
{
    let mut i: usize = 0;
    while i < ids.len()
        invariant
            i <= ids.len(),
            forall|j: int| 0 <= j < i ==> #[trigger] ids@[j] != x,
        decreases ids.len() - i,
    {
        if ids[i] == x {
            assert(ids@[i as int] == x);
            return true;
        }
        i = i + 1;
    }
    false
}

/// Append the parts of one layer. Returns whether an injection is among them.
fn push_layer(v: &mut Vec<Part>, c: &Config, prefix: &Vec<char>, i: usize) -> (r: bool)
    requires
        complete(*c),
        prefix@ == c.key_prefix@,
        i < c.num_hidden_layers,
    ensures
        views(final(v)@) == views(old(v)@) + layer_parts(*c, i as nat),
        r == (c.arch_kind == ArchKind::Qwen4Exp && injects(*c, i as int)),
{
    let ghost before = views(v@);
    let mut key: Vec<char> = Vec::new();
    push_chars(&mut key, prefix);
    push_text(&mut key, ".layers.");
    push_decimal(&mut key, i);
    assert(key@ =~= layer_key(prefix@, i as nat));
    let at: i64 = i as i64;
    let mut injected: bool = false;
    proof {
        reveal_strlit("");
        assert(key@ + ""@ =~= key@);
    }
    match c.arch_kind {
        ArchKind::Qwen35 => {
            let full = match c.layer_types[i] {
                LayerKind::FullAttention => true,
                LayerKind::LinearAttention => false,
            };
            push_part(v, part(PartKind::Hybrid { full }, &key, "", at));
        },
        ArchKind::Qwen4Exp => {
            match &c.qwen4 {
                Some(q) => {
                    injected = has_id(&q.ple_layer_ids, at);
                },
                None => {},
            }
            if injected {
                push_part(v, part(PartKind::Ple, &key, ".ple", at));
            }
            let full = match c.layer_types[i] {
                LayerKind::FullAttention => true,
                LayerKind::LinearAttention => false,
            };
            push_part(v, part(PartKind::HyperConnected { full }, &key, "", at));
        },
        _ => {
            let sparse = match &c.moe {
                Some(p) => p.is_sparse_layer(at),
                None => false,
            };
            push_part(v, part(PartKind::Block { sparse }, &key, "", at));
        },
    }
    assert(views(v@) =~= before + layer_parts(*c, i as nat));
    injected
}

/// The parts of a model, in the order in which they are read.
pub fn plan_load(c: &Config) -> (r: Vec<Part>)
    requires
        complete(*c),
    ensures
        views(r@) == all_parts(*c),
{
    let prefix = chars_of(c.key_prefix.as_str());
    let mut r: Vec<Part> = Vec::new();
    assert(views(r@) =~= seq![]);
    push_part(&mut r, part(PartKind::Embedding, &prefix, ".embed_tokens", -1));
    let ghost first = views(r@);
    let n: usize = c.num_hidden_layers as usize;
    let mut any: bool = false;
    let mut i: usize = 0;
    assert(first =~= first + layers_parts(*c, 0));
    while i < n
        invariant
            complete(*c),
            prefix@ == c.key_prefix@,
            n == c.num_hidden_layers,
            i <= n,
            views(r@) == first + layers_parts(*c, i as nat),
            any == (c.arch_kind == ArchKind::Qwen4Exp && any_injects(*c, i as int)),
        decreases n - i,
    {
        let injected = push_layer(&mut r, c, &prefix, i);
        if injected {
            any = true;
        }
        i = i + 1;
        proof {
            assert(views(r@) =~= first + layers_parts(*c, i as nat));
            if injected {
                assert(injects(*c, i - 1));
            }
            if any_injects(*c, i as int) {
                let k = choose|k: int| 0 <= k < i && #[trigger] injects(*c, k);
                if k < i - 1 {
                    assert(any_injects(*c, i - 1));
                }
            }
            if any_injects(*c, i - 1) {
                let k = choose|k: int| 0 <= k < i - 1 && #[trigger] injects(*c, k);
                assert(0 <= k < i && injects(*c, k));
            }
        }
    }
    let ghost body = views(r@);
    if c.arch_kind == ArchKind::Qwen4Exp {
        if any {
            push_part(&mut r, part(PartKind::NGram, &prefix, ".ple_embedding", -1));
        }
        push_part(&mut r, part(PartKind::Mixer, &prefix, ".hyper_connection_mixer", -1));
    } else {
        push_part(&mut r, part(PartKind::Norm, &prefix, ".norm", -1));
    }
    let none: Vec<char> = Vec::new();
    assert(none@ + "lm_head"@ =~= "lm_head"@);
    push_part(&mut r, part(PartKind::Head, &none, "lm_head", -1));
    assert(views(r@) =~= body + tail_parts(*c));
    r
}

/// Under which key the output layer is looked for where it has no weights of its own: that of
/// the embedding, if they are tied.
pub fn head_alternative(c: &Config, infos: &Vec<TensorInfo>) -> (r: Option<String>)
    ensures
        match r {
            Some(key) => c.tie_word_embeddings && !present(infos@, "lm_head.trellis"@) && !present(
                infos@,
                "lm_head.weight"@,
            ) && key@ == c.key_prefix@ + ".embed_tokens"@,
            None => !c.tie_word_embeddings || present(infos@, "lm_head.trellis"@) || present(
                infos@,
                "lm_head.weight"@,
            ),
        },
{
    if c.tie_word_embeddings && find(infos, "lm_head.trellis").is_none() && find(infos, "lm_head.weight").is_none() {
        let prefix = chars_of(c.key_prefix.as_str());
        Some(name_with(&prefix, ".embed_tokens"))
    } else {
        None
    }
}

/// Which of the layers' outputs are handed out, in order.
pub fn taps(num_layers: usize, ids: &Vec<i64>) -> (r: Vec<usize>)
    requires
        num_layers <= i64::MAX,
    ensures
        forall|k: int| 0 <= k < r.len() ==> (#[trigger] r@[k]) < num_layers && ids@.contains(r@[k] as i64),
        forall|i: usize| #![trigger r@.contains(i)] i < num_layers && ids@.contains(i as i64) ==> r@.contains(i),
        forall|k: int, l: int| 0 <= k < l < r.len() ==> (#[trigger] r@[k]) < (#[trigger] r@[l]),
{
    let mut r: Vec<usize> = Vec::new();
    let mut i: usize = 0;
    while i < num_layers
        invariant
            num_layers <= i64::MAX,
            i <= num_layers,
            forall|k: int| 0 <= k < r.len() ==> (#[trigger] r@[k]) < i && ids@.contains(r@[k] as i64),
            forall|j: usize| #![trigger r@.contains(j)] j < i && ids@.contains(j as i64) ==> r@.contains(j),
            forall|k: int, l: int| 0 <= k < l < r.len() ==> (#[trigger] r@[k]) < (#[trigger] r@[l]),
        decreases num_layers - i,
    {
        let ghost before = r@;
        if has_id(ids, i as i64) {
            r.push(i);
        }
        i = i + 1;
        proof {
            assert forall|j: usize| #![trigger r@.contains(j)] j < i && ids@.contains(j as i64) implies r@.contains(j) by {
                if j < i - 1 {
                    assert(before.contains(j));
                    let k = choose|k: int| 0 <= k < before.len() && before[k] == j;
                    assert(r@[k] == j);
                } else {
                    assert(r@[r@.len() - 1] == j);
                }
            }
        }
    }
    r
}

proof fn lemma_layer_kept(c: Config, n: nat, i: nat)
    requires
        i < n,
    ensures
        exists|k: int|
            0 <= k < layers_parts(c, n).len() && (#[trigger] layers_parts(c, n)[k]) == layer_parts(c, i).last(),
    decreases n,
{
    let m = (n - 1) as nat;
    let all = layers_parts(c, n);
    let rest = layers_parts(c, m);
    if i == m {
        let at = rest.len() + layer_parts(c, i).len() - 1;
        assert(all[at] == layer_parts(c, i).last());
    } else {
        lemma_layer_kept(c, m, i);
        let k = choose|k: int| 0 <= k < rest.len() && (#[trigger] rest[k]) == layer_parts(c, i).last();
        assert(all[k] == rest[k]);
    }
}

/// Every layer of a model is read.
pub proof fn every_layer_is_read(c: Config, i: nat)
    requires
        complete(c),
        i < c.num_hidden_layers,
    ensures
        exists|k: int|
            0 <= k < all_parts(c).len() && (#[trigger] all_parts(c)[k]).layer == i && all_parts(c)[k].key == layer_key(
                c.key_prefix@,
                i,
            ),
{
    let n = c.num_hidden_layers as nat;
    lemma_layer_kept(c, n, i);
    let body = layers_parts(c, n);
    let k = choose|k: int| 0 <= k < body.len() && (#[trigger] body[k]) == layer_parts(c, i).last();
    assert(all_parts(c)[k + 1] == body[k]);
}

proof fn lemma_layer_at(c: Config, n: nat, i: nat) -> (at: int)
    requires
        i < n,
    ensures
        0 <= at,
        at + layer_parts(c, i).len() <= layers_parts(c, n).len(),
        layers_parts(c, n).subrange(at, at + layer_parts(c, i).len()) == layer_parts(c, i),
    decreases n,
{
    let m = (n - 1) as nat;
    let all = layers_parts(c, n);
    let rest = layers_parts(c, m);
    let one = layer_parts(c, i);
    if i == m {
        assert(all.subrange(rest.len() as int, rest.len() + one.len() as int) =~= one);
        rest.len() as int
    } else {
        let at = lemma_layer_at(c, m, i);
        assert(all.subrange(at, at + one.len()) =~= rest.subrange(at, at + one.len()));
        at
    }
}

/// Whether a part is what a layer of this model is made as: a hybrid layer with the attention that
/// the configuration gives it, one with hyper-connections, or a block, sparse where the
/// configuration puts experts.
pub open spec fn made_as(c: Config, i: int, kind: PartKind) -> bool {
    match kind {
        PartKind::Hybrid { full } => c.arch_kind == ArchKind::Qwen35 && (full <==> c.layer_types@[i]
            == LayerKind::FullAttention),
        PartKind::HyperConnected { full } => c.arch_kind == ArchKind::Qwen4Exp && (full <==> c.layer_types@[i]
            == LayerKind::FullAttention),
        PartKind::Block { sparse } => c.arch_kind != ArchKind::Qwen35 && c.arch_kind != ArchKind::Qwen4Exp && (sparse <==> (
        c.moe matches Some(p) && p.sparse(i))),
        _ => false,
    }
}

/// Every layer of a model is made as its configuration says, and an injection of n-gram features
/// stands right ahead of its layer.
pub proof fn layers_are_made_as_configured(c: Config, i: nat) -> (k: int)
    requires
        complete(c),
        i < c.num_hidden_layers,
    ensures
        0 < k < all_parts(c).len(),
        all_parts(c)[k].layer == i,
        all_parts(c)[k].key == layer_key(c.key_prefix@, i),
        made_as(c, i as int, all_parts(c)[k].kind),
        c.arch_kind == ArchKind::Qwen4Exp && c.qwen4->0.ple_layer_ids@.contains(i as i64) ==> all_parts(c)[k - 1].kind
            == PartKind::Ple && all_parts(c)[k - 1].key == layer_key(c.key_prefix@, i) + ".ple"@,
{
    let n = c.num_hidden_layers as nat;
    let one = layer_parts(c, i);
    let at = lemma_layer_at(c, n, i);
    let body = layers_parts(c, n);
    let k: int = at + one.len();
    assert(body.subrange(at, at + one.len())[one.len() - 1] == body[k - 1]);
    assert(all_parts(c)[k] == body[k - 1]);
    if one.len() == 2 {
        assert(body.subrange(at, at + one.len())[0] == body[at]);
        assert(all_parts(c)[k - 1] == body[at]);
    }
    k
}

proof fn lemma_layers_ascend(c: Config, n: nat, a: int, b: int)
    requires
        0 <= a <= b < layers_parts(c, n).len(),
    ensures
        0 <= layers_parts(c, n)[a].layer <= layers_parts(c, n)[b].layer < n,
    decreases n,
{
    let m = (n - 1) as nat;
    let rest = layers_parts(c, m);
    let one = layer_parts(c, m);
    let all = layers_parts(c, n);
    assert forall|j: int| 0 <= j < one.len() implies (#[trigger] one[j]).layer == m by {}
    if b < rest.len() {
        lemma_layers_ascend(c, m, a, b);
        assert(all[a] == rest[a] && all[b] == rest[b]);
    } else {
        assert(all[b] == one[b - rest.len()]);
        if a < rest.len() {
            lemma_layers_ascend(c, m, a, a);
            assert(all[a] == rest[a]);
        } else {
            assert(all[a] == one[a - rest.len()]);
        }
    }
}

/// A model reads its embedding first, then its layers from the lowest up, and its head last.
pub proof fn parts_come_in_order(c: Config, a: int, b: int)
    requires
        complete(c),
        0 <= a <= b < all_parts(c).len(),
    ensures
        all_parts(c)[0].kind == PartKind::Embedding,
        all_parts(c).last().kind == PartKind::Head,
        all_parts(c)[a].layer >= 0 && all_parts(c)[b].layer >= 0 ==> all_parts(c)[a].layer <= all_parts(c)[b].layer,
{
    let n = c.num_hidden_layers as nat;
    let body = layers_parts(c, n);
    let all = all_parts(c);
    assert(all.last() == tail_parts(c).last());
    assert forall|j: int| 0 <= j < tail_parts(c).len() implies (#[trigger] tail_parts(c)[j]).layer == -1 by {}
    if all[a].layer >= 0 && all[b].layer >= 0 {
        if b >= 1 + body.len() {
            assert(all[b] == tail_parts(c)[b - 1 - body.len()]);
        } else if a >= 1 {
            assert(all[a] == body[a - 1] && all[b] == body[b - 1]);
            lemma_layers_ascend(c, n, a - 1, b - 1);
        }
    }
}

} // verus!
