//! The table of rows: where its parts are in a checkpoint, and how rows are found in it.
use vstd::prelude::*;
use crate::arith::{divide, quotient};
use crate::tensors::{find, info_of, lemma_place, name_with, place, present, TensorInfo};
use crate::text::{chars_of, copy_chars, decimal, push_decimal, push_text, string_of};

verus! {

/// How wide every row is.
pub const ROW_DIM: i64 = 160;

/// The rows of a table, in shards of equal length but for the last. A row is a list of 16-bit
/// words.
pub enum Store {
    /// A word is a value.
    Fp16 { shards: Vec<Vec<Vec<u16>>> },
    /// A row is a scale and a ring of `k` bits for each value.
    Trellis { shards: Vec<Vec<Vec<u16>>>, k: i64 },
}

/// A hashed n-gram embedding.
pub struct NGramEmbedding {
    pub store: Store,
    /// The first row of each head.
    pub head_offsets: Vec<i64>,
    /// The number of rows of each head.
    pub head_vocab_sizes: Vec<i64>,
    /// What the tokens of a window are multiplied with, the last token first.
    pub layer_multipliers: Vec<i64>,
    pub rows_per_shard: i64,
    pub num_rows: i64,
    /// The length of the longest window.
    pub ngram_size: i64,
    /// How many heads hash each length.
    pub heads_per_ngram: i64,
    pub num_heads: i64,
    pub ple_embed_dim: i64,
    pub eos_token_id: i64,
}

/// Why a checkpoint has no usable table.
pub enum NGramError {
    /// The rows would have another width.
    HeadDim { head_dim: i64 },
    /// There are no rows.
    NoTensors,
    /// The shards have different lengths.
    ShardRows,
    Missing { name: String },
    /// The checkpoint has another number of hash heads than is implied.
    HashHeads { found: i64, implied: i64 },
    /// No packed row is so many words wide.
    TrellisRow { words: i64 },
    /// The rows are not of the width they should have.
    TableRow,
}

/// Where the parts of a table are.
pub struct TablePlan {
    /// The tensors that hold the shards, in order.
    pub keys: Vec<String>,
    /// The bits of each value in a packed row.
    pub trellis: Option<i64>,
    pub rows_per_shard: i64,
    pub num_rows: i64,
    pub num_heads: i64,
    pub offsets_key: String,
    pub sizes_key: String,
    pub multipliers_key: String,
    /// The tensor that holds the bias of each head, for packed rows.
    pub bias_key: Option<String>,
}

/// The name of a shard.
pub open spec fn shard_name(key: Seq<char>, n: nat, suffix: Seq<char>) -> Seq<char> {
    key + ".shard_"@ + decimal(n) + "."@ + suffix
}

/// How many shards there are from shard `n` on, plus `n`.
pub open spec fn shards_from(infos: Seq<TensorInfo>, key: Seq<char>, suffix: Seq<char>, n: nat) -> nat
    decreases infos.len() - n,
{
    if n >= infos.len() || !present(infos, shard_name(key, n, suffix)) {
        n
    } else {
        shards_from(infos, key, suffix, n + 1)
    }
}

/// The names of the shards.
pub open spec fn shard_names(infos: Seq<TensorInfo>, key: Seq<char>, suffix: Seq<char>) -> Seq<Seq<char>> {
    Seq::new(shards_from(infos, key, suffix, 0), |i: int| shard_name(key, i as nat, suffix))
}

proof fn lemma_decimal(a: nat, b: nat)
    requires
        decimal(a) == decimal(b),
    ensures
        a == b,
    decreases a,
{
    lemma_decimal_len(a);
    lemma_decimal_len(b);
    let x = decimal(a);
    let y = decimal(b);
    assert(x.last() == y.last());
    if a >= 10 {
        assert(y.drop_last() =~= decimal(b / 10));
        assert(x.drop_last() =~= decimal(a / 10));
        lemma_decimal(a / 10, b / 10);
    }
}

proof fn lemma_decimal_len(n: nat)
    ensures
        decimal(n).len() >= 1,
        n < 10 <==> decimal(n).len() == 1,
    decreases n,
{
    if n >= 10 {
        lemma_decimal_len(n / 10);
    }
}

proof fn lemma_shard_name(key: Seq<char>, a: nat, b: nat, suffix: Seq<char>)
    requires
        shard_name(key, a, suffix) == shard_name(key, b, suffix),
    ensures
        a == b,
{
    let x = shard_name(key, a, suffix);
    let y = shard_name(key, b, suffix);
    let p = key + ".shard_"@;
    let s = "."@ + suffix;
    assert(decimal(a) =~= x.subrange(p.len() as int, x.len() - s.len()));
    assert(decimal(b) =~= y.subrange(p.len() as int, y.len() - s.len()));
    lemma_decimal(a, b);
}

/// There are no more distinct names of tensors than tensors.
proof fn lemma_shards_fit(infos: Seq<TensorInfo>, key: Seq<char>, suffix: Seq<char>, n: nat)
    requires
        forall|i: nat| i < n ==> present(infos, #[trigger] shard_name(key, i, suffix)),
    ensures
        n <= infos.len(),
{
    let at = Seq::new(n, |i: int| place(infos, shard_name(key, i as nat, suffix), 0));
    assert forall|i: int| 0 <= i < n implies 0 <= #[trigger] at[i] < infos.len() && infos[at[i]].name@ == shard_name(
        key,
        i as nat,
        suffix,
    ) by {
        let name = shard_name(key, i as nat, suffix);
        lemma_place(infos, name, 0);
        assert(present(infos, name));
    }
    assert forall|i: int, j: int| 0 <= i < j < n implies at[i] != at[j] by {
        if at[i] == at[j] {
            lemma_shard_name(key, i as nat, j as nat, suffix);
        }
    }
    assert(at.no_duplicates());
    at.unique_seq_to_set();
    let all = vstd::set_lib::set_int_range(0, infos.len() as int);
    vstd::set_lib::lemma_int_range(0, infos.len() as int);
    assert(at.to_set().subset_of(all));
    vstd::set_lib::lemma_len_subset(at.to_set(), all);
}

proof fn lemma_shards_from(infos: Seq<TensorInfo>, key: Seq<char>, suffix: Seq<char>, n: nat)
    requires
        forall|i: nat| i < n ==> present(infos, #[trigger] shard_name(key, i, suffix)),
    ensures
        n <= shards_from(infos, key, suffix, n),
        forall|i: nat| i < shards_from(infos, key, suffix, n) ==> present(infos, #[trigger] shard_name(key, i, suffix)),
        !present(infos, shard_name(key, shards_from(infos, key, suffix, n), suffix)),
    decreases infos.len() - n,
{
    lemma_shards_fit(infos, key, suffix, n);
    if present(infos, shard_name(key, n, suffix)) {
        assert forall|i: nat| i < n + 1 implies present(infos, #[trigger] shard_name(key, i, suffix)) by {}
        lemma_shards_fit(infos, key, suffix, n + 1);
        lemma_shards_from(infos, key, suffix, n + 1);
    }
}

/// The shards of a table are those up to the first number that is missing.
pub proof fn shards_end_at_the_first_gap(infos: Seq<TensorInfo>, key: Seq<char>, suffix: Seq<char>)
    ensures
        forall|i: nat| i < shards_from(infos, key, suffix, 0) ==> present(infos, #[trigger] shard_name(key, i, suffix)),
        !present(infos, shard_name(key, shards_from(infos, key, suffix, 0), suffix)),
        shards_from(infos, key, suffix, 0) <= infos.len(),
{
    lemma_shards_from(infos, key, suffix, 0);
    lemma_shards_fit(infos, key, suffix, shards_from(infos, key, suffix, 0));
}

/// The tensors that hold the rows of a table, and whether the rows are packed.
pub open spec fn table_keys(infos: Seq<TensorInfo>, key: Seq<char>) -> Option<(Seq<Seq<char>>, bool)> {
    let packed = shard_names(infos, key, "trellis"@);
    let plain = shard_names(infos, key, "weight"@);
    if packed.len() > 0 {
        Some((packed, true))
    } else if present(infos, key + ".trellis"@) {
        Some((seq![key + ".trellis"@], true))
    } else if present(infos, key + ".weight"@) {
        Some((seq![key + ".weight"@], false))
    } else if plain.len() > 0 {
        Some((plain, false))
    } else {
        None
    }
}

/// Whether the shards all have as many rows as the first, but for the last, which may have
/// fewer.
pub open spec fn even_shards(infos: Seq<TensorInfo>, keys: Seq<Seq<char>>) -> bool {
    let first = info_of(infos, keys[0]).rows;
    &&& forall|i: int| 0 <= i < keys.len() - 1 ==> info_of(infos, #[trigger] keys[i]).rows == first
    &&& info_of(infos, keys.last()).rows <= first
}

/// How many rows all shards have.
pub open spec fn rows_in(infos: Seq<TensorInfo>, keys: Seq<Seq<char>>) -> int
    decreases keys.len(),
{
    if keys.len() == 0 {
        0
    } else {
        rows_in(infos, keys.drop_last()) + info_of(infos, keys.last()).rows
    }
}

/// Whether all shards are so wide.
pub open spec fn wide(infos: Seq<TensorInfo>, keys: Seq<Seq<char>>, cols: int) -> bool {
    forall|i: int| 0 <= i < keys.len() ==> info_of(infos, #[trigger] keys[i]).cols == cols
}

/// The last dot of a key, or -1.
pub open spec fn last_dot(key: Seq<char>) -> int
    decreases key.len(),
{
    if key.len() == 0 {
        -1
    } else if key.last() == '.' {
        key.len() - 1
    } else {
        last_dot(key.drop_last())
    }
}

/// The part of a key before its last dot, or all of it.
pub open spec fn parent(key: Seq<char>) -> Seq<char> {
    if last_dot(key) >= 0 {
        key.take(last_dot(key))
    } else {
        key
    }
}

/// The names of the tensors that hold the heads' offsets and sizes, and the multipliers.
pub open spec fn aux_names(key: Seq<char>, packed: bool) -> (Seq<char>, Seq<char>, Seq<char>) {
    if packed {
        (key + ".head_offsets"@, key + ".head_vocab_sizes"@, key + ".layer_multipliers"@)
    } else {
        (
            parent(key) + ".ngram_heads_offsets"@,
            parent(key) + ".ngram_heads_vocab_sizes"@,
            parent(key) + ".layer_multipliers"@,
        )
    }
}

/// The first of these names that no tensor has.
pub open spec fn first_missing(infos: Seq<TensorInfo>, names: (Seq<char>, Seq<char>, Seq<char>)) -> Option<Seq<char>> {
    if !present(infos, names.0) {
        Some(names.0)
    } else if !present(infos, names.1) {
        Some(names.1)
    } else if !present(infos, names.2) {
        Some(names.2)
    } else {
        None
    }
}

/// The texts of some strings.
pub open spec fn texts(v: Seq<String>) -> Seq<Seq<char>> {
    Seq::new(v.len(), |i: int| v[i]@)
}

/// How many bits each value has in packed rows of so many words.
pub open spec fn bits_of(words: int) -> int {
    quotient((words - 1) * 16, 160)
}

/// Whether a plan is that of the table called `key`.
pub open spec fn plans(
    infos: Seq<TensorInfo>,
    key: Seq<char>,
    keys: Seq<Seq<char>>,
    packed: bool,
    num_heads: int,
    p: TablePlan,
) -> bool {
    &&& texts(p.keys@) == keys
    &&& p.rows_per_shard == info_of(infos, keys[0]).rows
    &&& p.num_rows == rows_in(infos, keys)
    &&& p.num_heads == num_heads
    &&& p.offsets_key@ == aux_names(key, packed).0
    &&& p.sizes_key@ == aux_names(key, packed).1
    &&& p.multipliers_key@ == aux_names(key, packed).2
    &&& match p.trellis {
        Some(k) => packed && k == bits_of(info_of(infos, keys[0]).cols as int),
        None => !packed,
    }
    &&& match p.bias_key {
        Some(name) => packed && name@ == key + ".head_bias"@,
        None => !packed,
    }
}

/// Whether this is the outcome of looking for the table called `key`.
pub open spec fn planned(
    infos: Seq<TensorInfo>,
    key: Seq<char>,
    num_heads: int,
    ple_embed_dim: int,
    r: Result<TablePlan, NGramError>,
) -> bool {
    if quotient(ple_embed_dim, num_heads) != 160 {
        r matches Err(NGramError::HeadDim { head_dim }) && head_dim == quotient(ple_embed_dim, num_heads)
    } else {
        match table_keys(infos, key) {
            None => r matches Err(NGramError::NoTensors),
            Some((keys, packed)) => {
                let aux = aux_names(key, packed);
                let cols = info_of(infos, keys[0]).cols;
                if !even_shards(infos, keys) {
                    r matches Err(NGramError::ShardRows)
                } else if first_missing(infos, aux) is Some {
                    r matches Err(NGramError::Missing { name }) && Some(name@) == first_missing(infos, aux)
                } else if info_of(infos, aux.0).rows != num_heads {
                    r matches Err(NGramError::HashHeads { found, implied }) && found == info_of(infos, aux.0).rows
                        && implied == num_heads
                } else if packed && (cols != 1 + 10 * bits_of(cols as int) || !wide(infos, keys, cols as int)) {
                    r matches Err(NGramError::TrellisRow { words }) && words == cols
                } else if packed && !present(infos, key + ".head_bias"@) {
                    r matches Err(NGramError::Missing { name }) && name@ == key + ".head_bias"@
                } else if !packed && !wide(infos, keys, 160) {
                    r matches Err(NGramError::TableRow)
                } else {
                    r matches Ok(p) && plans(infos, key, keys, packed, num_heads, p)
                }
            },
        }
    }
}

/// Whether the sizes of all tensors are those of tensors that could be in memory.
pub open spec fn sized(infos: Seq<TensorInfo>) -> bool {
    forall|i: int|
        0 <= i < infos.len() ==> {
            &&& (#[trigger] infos[i]).rows >= 0
            &&& infos[i].rows * (infos.len() + 1) <= i64::MAX
            &&& 0 <= infos[i].cols <= i64::MAX / 16
        }
}

fn shard_keys(infos: &Vec<TensorInfo>, key: &Vec<char>, suffix: &str) -> (r: Vec<String>)
    ensures
        texts(r@) == shard_names(infos@, key@, suffix@),
        r.len() <= infos.len(),
        forall|i: int| 0 <= i < r.len() ==> present(infos@, #[trigger] texts(r@)[i]),
{
    let mut r: Vec<String> = Vec::new();
    let mut n: usize = 0;
    proof {
        shards_end_at_the_first_gap(infos@, key@, suffix@);
    }
    while n < infos.len()
        invariant
            n <= infos.len(),
            r.len() == n,
            forall|i: int| 0 <= i < n ==> (#[trigger] r@[i])@ == shard_name(key@, i as nat, suffix@),
            forall|i: int| 0 <= i < n ==> present(infos@, #[trigger] texts(r@)[i]),
            shards_from(infos@, key@, suffix@, 0) == shards_from(infos@, key@, suffix@, n as nat),
        ensures
            n == shards_from(infos@, key@, suffix@, 0),
        decreases infos.len() - n,
    {
        let mut name = copy_chars(key, 0, key.len());
        assert(name@ =~= key@);
        push_text(&mut name, ".shard_");
        push_decimal(&mut name, n);
        push_text(&mut name, ".");
        push_text(&mut name, suffix);
        let name = string_of(&name);
        match find(infos, name.as_str()) {
            Some(_) => {},
            None => {
                break;
            },
        }
        let ghost before = r@;
        r.push(name);
        n = n + 1;
        assert forall|i: int| 0 <= i < n implies present(infos@, #[trigger] texts(r@)[i]) by {
            if i < n - 1 {
                assert(texts(before)[i] == texts(r@)[i]);
            }
        }
    }
    assert(texts(r@) =~= shard_names(infos@, key@, suffix@));
    r
}

/// The tensors that hold the rows, and whether the rows are packed.
fn find_keys(infos: &Vec<TensorInfo>, key: &Vec<char>) -> (r: Option<(Vec<String>, bool)>)
    ensures
        match r {
            Some((keys, packed)) => {
                &&& table_keys(infos@, key@) == Some((texts(keys@), packed))
                &&& 1 <= keys.len() <= infos.len()
                &&& forall|i: int| 0 <= i < keys.len() ==> present(infos@, #[trigger] texts(keys@)[i])
            },
            None => table_keys(infos@, key@) is None,
        },
{
    let keys = shard_keys(infos, key, "trellis");
    if keys.len() > 0 {
        return Some((keys, true));
    }
    let name = name_with(key, ".trellis");
    match find(infos, name.as_str()) {
        Some(_) => {
            let ghost want = name@;
            let keys: Vec<String> = vec![name];
            assert(texts(keys@) =~= seq![want]);
            return Some((keys, true));
        },
        None => {},
    }
    let name = name_with(key, ".weight");
    match find(infos, name.as_str()) {
        Some(_) => {
            let ghost want = name@;
            let keys: Vec<String> = vec![name];
            assert(texts(keys@) =~= seq![want]);
            return Some((keys, false));
        },
        None => {},
    }
    let keys = shard_keys(infos, key, "weight");
    if keys.len() > 0 {
        return Some((keys, false));
    }
    None
}

proof fn lemma_rows_even(infos: Seq<TensorInfo>, keys: Seq<Seq<char>>, n: int)
    requires
        0 <= n <= keys.len() - 1,
        even_shards(infos, keys),
    ensures
        rows_in(infos, keys.take(n)) == n * info_of(infos, keys[0]).rows,
    decreases n,
{
    if n > 0 {
        lemma_rows_even(infos, keys, n - 1);
        assert(keys.take(n).drop_last() =~= keys.take(n - 1));
        assert(keys.take(n).last() == keys[n - 1]);
        let first = info_of(infos, keys[0]).rows;
        assert((n - 1) * first + first == n * first) by (nonlinear_arith);
    } else {
        assert(keys.take(0) =~= seq![]);
        assert(0 * info_of(infos, keys[0]).rows == 0);
    }
}

/// The rows of the first shard and of all shards, where the shards are even.
fn count_rows(infos: &Vec<TensorInfo>, keys: &Vec<String>) -> (r: Option<(i64, i64)>)
    requires
        sized(infos@),
        1 <= keys.len() <= infos.len(),
        forall|i: int| 0 <= i < keys.len() ==> present(infos@, #[trigger] texts(keys@)[i]),
    ensures
        match r {
            Some((first, all)) => {
                &&& even_shards(infos@, texts(keys@))
                &&& first == info_of(infos@, texts(keys@)[0]).rows
                &&& all == rows_in(infos@, texts(keys@))
            },
            None => !even_shards(infos@, texts(keys@)),
        },
{
    let ghost names = texts(keys@);
    assert(present(infos@, names[0]));
    let first: i64 = rows_of(infos, &keys[0]);
    let last: usize = keys.len() - 1;
    let mut i: usize = 0;
    while i < last
        invariant
            sized(infos@),
            names == texts(keys@),
            last == keys.len() - 1,
            i <= last,
            forall|j: int| 0 <= j < keys.len() ==> present(infos@, #[trigger] names[j]),
            first == info_of(infos@, names[0]).rows,
            forall|j: int| 0 <= j < i ==> info_of(infos@, #[trigger] names[j]).rows == first,
        decreases last - i,
    {
        assert(present(infos@, names[i as int]));
        if rows_of(infos, &keys[i]) != first {
            assert(info_of(infos@, names[i as int]).rows != first);
            return None;
        }
        i = i + 1;
    }
    assert(present(infos@, names[last as int]));
    let tail: i64 = rows_of(infos, &keys[last]);
    if tail > first {
        return None;
    }
    proof {
        lemma_rows_even(infos@, names, last as int);
        assert(names.drop_last() =~= names.take(last as int));
        lemma_place(infos@, names[0], 0);
        let p = place(infos@, names[0], 0);
        assert(infos@[p].rows * (infos@.len() + 1) <= i64::MAX);
        assert(first * (last + 1) <= first * (infos@.len() + 1)) by (nonlinear_arith)
            requires
                first >= 0,
                last + 1 <= infos@.len() + 1,
        ;
        assert(first * last + first == first * (last + 1)) by (nonlinear_arith);
        assert(first * last >= 0) by (nonlinear_arith)
            requires
                first >= 0,
        ;
        assert(first * last == last * first) by (nonlinear_arith);
        if first > 0 {
            assert(last <= first * last) by (nonlinear_arith)
                requires
                    first >= 1,
                    last >= 0,
            ;
        } else {
            assert(last * first == 0) by (nonlinear_arith)
                requires
                    first == 0,
            ;
        }
    }
    if first == 0 {
        return Some((0, 0));
    }
    Some((first, first * last as i64 + tail))
}

fn rows_of(infos: &Vec<TensorInfo>, name: &String) -> (r: i64)
    requires
        sized(infos@),
        present(infos@, name@),
    ensures
        r == info_of(infos@, name@).rows,
        r >= 0,
{
    match find(infos, name.as_str()) {
        Some(i) => infos[i].rows,
        None => 0,
    }
}

fn cols_of(infos: &Vec<TensorInfo>, name: &String) -> (r: i64)
    requires
        sized(infos@),
        present(infos@, name@),
    ensures
        r == info_of(infos@, name@).cols,
        0 <= r <= i64::MAX / 16,
{
    match find(infos, name.as_str()) {
        Some(i) => infos[i].cols,
        None => 0,
    }
}

fn all_wide(infos: &Vec<TensorInfo>, keys: &Vec<String>, cols: i64) -> (r: bool)
    requires
        sized(infos@),
        forall|i: int| 0 <= i < keys.len() ==> present(infos@, #[trigger] texts(keys@)[i]),
    ensures
        r == wide(infos@, texts(keys@), cols as int),
{
    let ghost names = texts(keys@);
    let mut i: usize = 0;
    while i < keys.len()
        invariant
            sized(infos@),
            names == texts(keys@),
            i <= keys.len(),
            forall|j: int| 0 <= j < keys.len() ==> present(infos@, #[trigger] names[j]),
            forall|j: int| 0 <= j < i ==> info_of(infos@, #[trigger] names[j]).cols == cols,
        decreases keys.len() - i,
    {
        assert(present(infos@, names[i as int]));
        if cols_of(infos, &keys[i]) != cols {
            assert(info_of(infos@, names[i as int]).cols != cols);
            return false;
        }
        i = i + 1;
    }
    true
}

fn parent_of(key: &Vec<char>) -> (r: Vec<char>)
    ensures
        r@ == parent(key@),
{
    let mut n: usize = key.len();
    assert(key@.take(n as int) =~= key@);
    while n > 0
        invariant
            n <= key.len(),
            last_dot(key@) == last_dot(key@.take(n as int)),
        decreases n,
    {
        assert(key@.take(n as int).last() == key@[n - 1]);
        if key[n - 1] == '.' {
            let r = copy_chars(key, 0, n - 1);
            assert(r@ =~= key@.take(n - 1));
            return r;
        }
        assert(key@.take(n as int).drop_last() =~= key@.take(n - 1));
        n = n - 1;
    }
    let r = copy_chars(key, 0, key.len());
    assert(r@ =~= key@);
    r
}

impl NGramEmbedding {
    /// Where the parts of the table called `key` are in a checkpoint.
    pub fn plan(
        infos: &Vec<TensorInfo>,
        key: &str,
        ngram_size: i64,
        heads_per_ngram: i64,
        ple_embed_dim: i64,
    ) -> (r: Result<TablePlan, NGramError>)
        requires
            sized(infos@),
            ngram_size > i64::MIN,
            i64::MIN <= (ngram_size - 1) * heads_per_ngram <= i64::MAX,
            (ngram_size - 1) * heads_per_ngram != 0,
            ple_embed_dim != i64::MIN || (ngram_size - 1) * heads_per_ngram != -1,
        ensures
            planned(infos@, key@, (ngram_size - 1) * heads_per_ngram, ple_embed_dim as int, r),
    {
        let num_heads: i64 = (ngram_size - 1) * heads_per_ngram;
        let head_dim: i64 = divide(ple_embed_dim, num_heads);
        if head_dim != ROW_DIM {
            return Err(NGramError::HeadDim { head_dim });
        }
        let key = chars_of(key);
        let (keys, packed) = match find_keys(infos, &key) {
            Some(found) => found,
            None => {
                return Err(NGramError::NoTensors);
            },
        };
        let ghost names = texts(keys@);
        let (rows_per_shard, num_rows) = match count_rows(infos, &keys) {
            Some(counts) => counts,
            None => {
                return Err(NGramError::ShardRows);
            },
        };
        let (offsets_key, sizes_key, multipliers_key) = if packed {
            (
                name_with(&key, ".head_offsets"),
                name_with(&key, ".head_vocab_sizes"),
                name_with(&key, ".layer_multipliers"),
            )
        } else {
            let up = parent_of(&key);
            (
                name_with(&up, ".ngram_heads_offsets"),
                name_with(&up, ".ngram_heads_vocab_sizes"),
                name_with(&up, ".layer_multipliers"),
            )
        };
        let found: i64 = match find(infos, offsets_key.as_str()) {
            Some(i) => infos[i].rows,
            None => {
                return Err(NGramError::Missing { name: offsets_key });
            },
        };
        if find(infos, sizes_key.as_str()).is_none() {
            return Err(NGramError::Missing { name: sizes_key });
        }
        if find(infos, multipliers_key.as_str()).is_none() {
            return Err(NGramError::Missing { name: multipliers_key });
        }
        if found != num_heads {
            return Err(NGramError::HashHeads { found, implied: num_heads });
        }
        assert(present(infos@, names[0]));
        let cols: i64 = cols_of(infos, &keys[0]);
        let mut trellis: Option<i64> = None;
        let mut bias_key: Option<String> = None;
        if packed {
            let k: i64 = divide((cols - 1) * 16, ROW_DIM);
            if cols != 1 + 10 * k || !all_wide(infos, &keys, cols) {
                return Err(NGramError::TrellisRow { words: cols });
            }
            let bias = name_with(&key, ".head_bias");
            if find(infos, bias.as_str()).is_none() {
                return Err(NGramError::Missing { name: bias });
            }
            trellis = Some(k);
            bias_key = Some(bias);
        } else if !all_wide(infos, &keys, ROW_DIM) {
            return Err(NGramError::TableRow);
        }
        Ok(
            TablePlan {
                keys,
                trellis,
                rows_per_shard,
                num_rows,
                num_heads,
                offsets_key,
                sizes_key,
                multipliers_key,
                bias_key,
            },
        )
    }
}

/// A key is its parent, a dot and a name without one; a key without a dot is its own parent.
pub proof fn parents_end_at_the_last_dot(front: Seq<char>, name: Seq<char>)
    requires
        forall|i: int| 0 <= i < name.len() ==> #[trigger] name[i] != '.',
    ensures
        parent(front + seq!['.'] + name) == front,
        parent(name) == name,
{
    let key = front + seq!['.'] + name;
    lemma_last_dot(front, name);
    assert(key.take(front.len() as int) =~= front);
}

proof fn lemma_last_dot(front: Seq<char>, name: Seq<char>)
    requires
        forall|i: int| 0 <= i < name.len() ==> #[trigger] name[i] != '.',
    ensures
        last_dot(front + seq!['.'] + name) == front.len(),
        last_dot(name) == -1,
    decreases name.len(),
{
    let key = front + seq!['.'] + name;
    if name.len() > 0 {
        let less = name.drop_last();
        assert forall|i: int| 0 <= i < less.len() implies #[trigger] less[i] != '.' by {
            assert(less[i] == name[i]);
        }
        lemma_last_dot(front, less);
        assert(key.drop_last() =~= front + seq!['.'] + less);
        assert(key.last() == name.last() && name.last() == name[name.len() - 1]);
    }
}

} // verus!
