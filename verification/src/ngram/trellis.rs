//! Packed rows: a scale and a ring of bits. Each value has a 16-bit state, of which the ring
//! holds the low bits; the others are the low bits of the states before, around the end of the
//! row.
use vstd::prelude::*;
use vstd::arithmetic::div_mod::lemma_fundamental_div_mod_converse;
use crate::ngram::table::ROW_DIM;

verus! {

/// What a state is multiplied with.
pub const MUL1: u64 = 0x83DC_D12D;

/// How many words a packed row has: the scale, and `k` bits for each value.
pub fn words_per_row(k: i64) -> (r: i64)
    requires
        i64::MIN <= ROW_DIM * k <= i64::MAX,
    ensures
        r == 1 + 10 * k,
{
    1 + 10 * k
}

/// Bit `m` of a word.
pub open spec fn bit(w: u16, m: int) -> u16 {
    (w >> m as u16) & 1
}

/// Bit `j` of the ring of a packed row.
pub open spec fn ring_bit(row: Seq<u16>, j: int) -> u16 {
    bit(row[1 + j / 16], j % 16)
}

/// From which value the ring has bit `m` of the state of value `i`.
pub open spec fn source(k: int, i: int, m: int) -> int {
    (i - m / k) % 160
}

/// Whether these are the states that a packed row holds.
pub open spec fn unpacks(row: Seq<u16>, k: int, states: Seq<u16>) -> bool {
    &&& states.len() == 160
    &&& forall|i: int, m: int|
        0 <= i < 160 && 0 <= m < 16 ==> #[trigger] bit(states[i], m) == ring_bit(row, source(k, i, m) * k + m % k)
}

/// Whether the ring of a packed row holds the low bits of these states.
pub open spec fn packs(row: Seq<u16>, k: int, states: Seq<u16>) -> bool {
    &&& states.len() == 160
    &&& forall|i: int, m: int|
        0 <= i < 160 && 0 <= m < k && m < 16 ==> #[trigger] bit(states[i], m) == ring_bit(row, i * k + m)
}

/// Whether the high bits of each state are low bits of the states before it.
pub open spec fn tail_biting(k: int, states: Seq<u16>) -> bool {
    forall|i: int, m: int|
        0 <= i < 160 && 0 <= m < 16 ==> #[trigger] bit(states[i], m) == bit(states[source(k, i, m)], m % k)
}

proof fn lemma_set_bit(s: u16, b: u16, m: u16, j: u16)
    requires
        m < 16,
        j < 16,
        b <= 1,
        s >> m == 0,
    ensures
        ((s | (b << m)) >> j) & 1 == if j == m {
            b
        } else {
            (s >> j) & 1
        },
        m < 15 ==> (s | (b << m)) >> ((m + 1) as u16) == 0,
{
    assert(((s | (b << m)) >> j) & 1 == if j == m {
        b
    } else {
        (s >> j) & 1
    }) by (bit_vector)
        requires
            m < 16,
            j < 16,
            b <= 1,
            s >> m == 0,
    ;
    assert(m < 15 ==> (s | (b << m)) >> ((m + 1) as u16) == 0) by (bit_vector)
        requires
            m < 16,
            b <= 1,
            s >> m == 0,
    ;
}

proof fn lemma_same_bits(a: u16, b: u16)
    requires
        forall|m: int| 0 <= m < 16 ==> #[trigger] bit(a, m) == bit(b, m),
    ensures
        a == b,
{
    assert(bit(a, 0) == bit(b, 0) && bit(a, 1) == bit(b, 1) && bit(a, 2) == bit(b, 2) && bit(a, 3) == bit(b, 3));
    assert(bit(a, 4) == bit(b, 4) && bit(a, 5) == bit(b, 5) && bit(a, 6) == bit(b, 6) && bit(a, 7) == bit(b, 7));
    assert(bit(a, 8) == bit(b, 8) && bit(a, 9) == bit(b, 9) && bit(a, 10) == bit(b, 10) && bit(a, 11) == bit(b, 11));
    assert(bit(a, 12) == bit(b, 12) && bit(a, 13) == bit(b, 13) && bit(a, 14) == bit(b, 14) && bit(a, 15) == bit(b, 15));
    assert(a == b) by (bit_vector)
        requires
            (a >> 0u16) & 1 == (b >> 0u16) & 1,
            (a >> 1u16) & 1 == (b >> 1u16) & 1,
            (a >> 2u16) & 1 == (b >> 2u16) & 1,
            (a >> 3u16) & 1 == (b >> 3u16) & 1,
            (a >> 4u16) & 1 == (b >> 4u16) & 1,
            (a >> 5u16) & 1 == (b >> 5u16) & 1,
            (a >> 6u16) & 1 == (b >> 6u16) & 1,
            (a >> 7u16) & 1 == (b >> 7u16) & 1,
            (a >> 8u16) & 1 == (b >> 8u16) & 1,
            (a >> 9u16) & 1 == (b >> 9u16) & 1,
            (a >> 10u16) & 1 == (b >> 10u16) & 1,
            (a >> 11u16) & 1 == (b >> 11u16) & 1,
            (a >> 12u16) & 1 == (b >> 12u16) & 1,
            (a >> 13u16) & 1 == (b >> 13u16) & 1,
            (a >> 14u16) & 1 == (b >> 14u16) & 1,
            (a >> 15u16) & 1 == (b >> 15u16) & 1,
    ;
}

/// The state of one value.
fn unpack_state(row: &Vec<u16>, k: usize, i: usize) -> (r: u16)
    requires
        k >= 1,
        row.len() == 1 + 10 * k,
        i < 160,
    ensures
        forall|m: int| 0 <= m < 16 ==> #[trigger] bit(r, m) == ring_bit(row@, source(k as int, i as int, m) * k + m % k as int),
{
    let mut s: u16 = 0;
    let mut m: usize = 0;
    assert(0u16 >> 0u16 == 0) by (bit_vector);
    while m < 16
        invariant
            k >= 1,
            row.len() == 1 + 10 * k,
            i < 160,
            m <= 16,
            m < 16 ==> s >> m as u16 == 0,
            forall|j: int|
                0 <= j < m ==> #[trigger] bit(s, j) == ring_bit(row@, source(k as int, i as int, j) * k + j % k as int),
        decreases 16 - m,
    {
        let back: usize = m / k;
        proof {
            assert(0 <= m as int / k as int && m as int / k as int <= m) by (nonlinear_arith)
                requires
                    k >= 1,
                    m >= 0,
            ;
        }
        let from: usize = if i >= back {
            i - back
        } else {
            i + 160 - back
        };
        let ghost at = source(k as int, i as int, m as int) * k + m as int % k as int;
        assert(from == source(k as int, i as int, m as int));
        proof {
            let r = m as int % k as int;
            assert(0 <= from * k && from * k + r < 160 * k) by (nonlinear_arith)
                requires
                    0 <= from < 160,
                    0 <= r < k,
            ;
            assert(from * k <= 159 * usize::MAX) by (nonlinear_arith)
                requires
                    from < 160,
                    k <= usize::MAX,
            ;
        }
        let j: u128 = from as u128 * k as u128 + (m % k) as u128;
        assert(j == at);
        let w: u16 = row[1 + (j / 16) as usize];
        let low: u16 = (j % 16) as u16;
        let b: u16 = (w >> low) & 1;
        assert(b <= 1) by (bit_vector)
            requires
                b == (w >> low) & 1,
        ;
        assert(b == ring_bit(row@, at));
        let ghost old_s = s;
        s = s | (b << m as u16);
        proof {
            assert forall|x: int| 0 <= x < m + 1 implies #[trigger] bit(s, x) == ring_bit(
                row@,
                source(k as int, i as int, x) * k + x % k as int,
            ) by {
                lemma_set_bit(old_s, b, m as u16, x as u16);
                if x < m {
                    assert(bit(old_s, x) == ring_bit(row@, source(k as int, i as int, x) * k + x % k as int));
                }
            }
            lemma_set_bit(old_s, b, m as u16, 0);
        }
        m = m + 1;
    }
    s
}

/// The states of a packed row.
pub fn unpack_row(row: &Vec<u16>, k: i64) -> (r: Vec<u16>)
    requires
        k >= 1,
        row.len() == 1 + 10 * k,
    ensures
        unpacks(row@, k as int, r@),
{
    let n: usize = k as usize;
    let mut r: Vec<u16> = Vec::new();
    let mut i: usize = 0;
    while i < 160
        invariant
            n == k,
            k >= 1,
            row.len() == 1 + 10 * k,
            i <= 160,
            r.len() == i,
            forall|x: int, m: int|
                0 <= x < i && 0 <= m < 16 ==> #[trigger] bit(r@[x], m) == ring_bit(
                    row@,
                    source(k as int, x, m) * k + m % k as int,
                ),
        decreases 160 - i,
    {
        let s = unpack_state(row, n, i);
        r.push(s);
        i = i + 1;
    }
    r
}

/// The states and the scales of packed rows.
pub fn unpack_rows(packed: &Vec<Vec<u16>>, k: i64) -> (r: (Vec<Vec<u16>>, Vec<u16>))
    requires
        k >= 1,
        forall|i: int| 0 <= i < packed.len() ==> (#[trigger] packed[i]).len() == 1 + 10 * k,
    ensures
        r.0.len() == packed.len(),
        forall|i: int| 0 <= i < packed.len() ==> unpacks(packed[i]@, k as int, (#[trigger] r.0@[i])@),
        r.1@ == Seq::new(packed@.len(), |i: int| packed[i]@[0]),
{
    let mut states: Vec<Vec<u16>> = Vec::new();
    let mut scales: Vec<u16> = Vec::new();
    let mut i: usize = 0;
    while i < packed.len()
        invariant
            k >= 1,
            forall|x: int| 0 <= x < packed.len() ==> (#[trigger] packed[x]).len() == 1 + 10 * k,
            i <= packed.len(),
            states.len() == i,
            forall|x: int| 0 <= x < i ==> unpacks(packed[x]@, k as int, (#[trigger] states@[x])@),
            scales@ == Seq::new(i as nat, |x: int| packed[x]@[0]),
        decreases packed.len() - i,
    {
        let s = unpack_row(&packed[i], k);
        states.push(s);
        scales.push(packed[i][0]);
        i = i + 1;
        assert(scales@ =~= Seq::new(i as nat, |x: int| packed[x]@[0]));
    }
    (states, scales)
}

/// The sum of the bytes of a 32-bit product, shifted up.
pub open spec fn byte_sum(state: u16) -> int {
    let p = (state * MUL1) % 0x1_0000_0000;
    p % 256 + p / 256 % 256 + p / 0x1_0000 % 256 + p / 0x100_0000 + 1024
}

/// What a state decodes to, before the affine map to its value.
pub fn mul1_sum(state: u16) -> (r: u32)
    ensures
        r == byte_sum(state),
{
    let p: u64 = state as u64 * MUL1 % 0x1_0000_0000;
    (p % 256 + p / 256 % 256 + p / 0x1_0000 % 256 + p / 0x100_0000 + 1024) as u32
}

/// What all states decode to.
pub fn mul1_codebook() -> (r: Vec<u32>)
    ensures
        r@ == Seq::new(65536, |s: int| byte_sum(s as u16) as u32),
{
    let mut r: Vec<u32> = Vec::new();
    let mut s: u32 = 0;
    while s < 65536
        invariant
            s <= 65536,
            r@ == Seq::new(s as nat, |i: int| byte_sum(i as u16) as u32),
        decreases 65536 - s,
    {
        r.push(mul1_sum(s as u16));
        s = s + 1;
        assert(r@ =~= Seq::new(s as nat, |i: int| byte_sum(i as u16) as u32));
    }
    r
}

/// A row that was packed gives back the low bits of its states.
pub proof fn low_bits_survive(row: Seq<u16>, k: int, states: Seq<u16>, got: Seq<u16>)
    requires
        k >= 1,
        packs(row, k, states),
        unpacks(row, k, got),
    ensures
        forall|i: int, m: int| 0 <= i < 160 && 0 <= m < k && m < 16 ==> #[trigger] bit(got[i], m) == bit(states[i], m),
{
    assert forall|i: int, m: int| 0 <= i < 160 && 0 <= m < k && m < 16 implies #[trigger] bit(got[i], m) == bit(
        states[i],
        m,
    ) by {
        lemma_fundamental_div_mod_converse(m, k, 0, m);
        assert(source(k, i, m) == i);
        assert(bit(states[i], m) == ring_bit(row, i * k + m));
    }
}

/// A row that was packed from states that bite their tail gives back those states.
pub proof fn unpacking_inverts_packing(row: Seq<u16>, k: int, states: Seq<u16>, got: Seq<u16>)
    requires
        k >= 1,
        packs(row, k, states),
        tail_biting(k, states),
        unpacks(row, k, got),
    ensures
        got == states,
{
    assert forall|i: int| 0 <= i < 160 implies got[i] == states[i] by {
        assert forall|m: int| 0 <= m < 16 implies #[trigger] bit(got[i], m) == bit(states[i], m) by {
            let a = source(k, i, m);
            let b = m % k;
            assert(0 <= b < k && b <= m) by (nonlinear_arith)
                requires
                    k >= 1,
                    m >= 0,
                    b == m % k,
            ;
            assert(bit(states[a], b) == ring_bit(row, a * k + b));
            assert(bit(states[i], m) == bit(states[a], b));
        }
        lemma_same_bits(got[i], states[i]);
    }
    assert(got =~= states);
}

} // verus!
