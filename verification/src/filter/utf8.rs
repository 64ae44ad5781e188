//! Reading one codepoint out of a buffer that grows byte by byte.
use vstd::prelude::*;
use vstd::utf8::*;

verus! {

/// What a buffer of bytes holds.
#[derive(Clone, Copy, Debug, PartialEq, Eq, Structural)]
pub enum Utf8Read {
    /// The encoding of exactly this codepoint.
    Code(u32),
    /// A proper part of the encoding of some codepoint, from its start.
    Partial,
    /// Neither.
    Bad,
}

/// Whether `b` is the encoding of the scalar `v`.
pub open spec fn encodes(b: Seq<u8>, v: u32) -> bool {
    is_scalar(v) && b == encode_scalar(v)
}

/// Whether `b` is a proper part of the encoding of the scalar `v`, from its start.
pub open spec fn begins(b: Seq<u8>, v: u32) -> bool {
    &&& is_scalar(v)
    &&& b.len() < encode_scalar(v).len()
    &&& b == encode_scalar(v).take(b.len() as int)
}

/// The scalar that `b` encodes, where it encodes one.
pub open spec fn scalar_of(b: Seq<u8>) -> Option<u32> {
    if exists|v: u32| encodes(b, v) {
        Some(choose|v: u32| encodes(b, v))
    } else {
        None
    }
}

/// Whether `b` is a proper part of some scalar's encoding, from its start.
pub open spec fn partial_scalar(b: Seq<u8>) -> bool {
    exists|v: u32| begins(b, v)
}

/// The bytes of an encoding, as sums.
proof fn lemma_encoding(v: u32)
    requires
        is_scalar(v),
    ensures
        v < 0x80 ==> encode_scalar(v) == seq![v as u8],
        0x80 <= v < 0x800 ==> encode_scalar(v) == seq![
            (0xC0 + v / 64) as u8,
            (0x80 + v % 64) as u8,
        ],
        0x800 <= v < 0x10000 ==> encode_scalar(v) == seq![
            (0xE0 + v / 4096) as u8,
            (0x80 + (v / 64) % 64) as u8,
            (0x80 + v % 64) as u8,
        ],
        0x10000 <= v ==> encode_scalar(v) == seq![
            (0xF0 + v / 262144) as u8,
            (0x80 + (v / 4096) % 64) as u8,
            (0x80 + (v / 64) % 64) as u8,
            (0x80 + v % 64) as u8,
        ],
{
    assert((0x80u8 | (v & 0x3F) as u8) == (0x80 + v % 64) as u8) by (bit_vector);
    if v < 0x80 {
        assert(v < 0x80 ==> (v & 0x7F) as u8 == v as u8) by (bit_vector);
        assert(encode_scalar(v) =~= seq![v as u8]);
    } else if v < 0x800 {
        assert(v < 0x800 ==> (0xC0u8 | ((v >> 6) & 0x1F) as u8) == (0xC0 + v / 64) as u8)
            by (bit_vector);
    } else if v < 0x10000 {
        assert(v < 0x10000 ==> (0xE0u8 | ((v >> 12) & 0x0F) as u8) == (0xE0 + v / 4096) as u8)
            by (bit_vector);
        assert((0x80u8 | ((v >> 6) & 0x3F) as u8) == (0x80 + (v / 64) % 64) as u8)
            by (bit_vector);
    } else {
        assert(v < 0x110000 ==> (0xF0u8 | ((v >> 18) & 0x7) as u8) == (0xF0 + v / 262144) as u8)
            by (bit_vector);
        assert((0x80u8 | ((v >> 12) & 0x3F) as u8) == (0x80 + (v / 4096) % 64) as u8)
            by (bit_vector);
        assert((0x80u8 | ((v >> 6) & 0x3F) as u8) == (0x80 + (v / 64) % 64) as u8)
            by (bit_vector);
    }
}

/// Two scalars with one encoding are one scalar.
pub proof fn lemma_encoding_unique(v: u32, w: u32)
    requires
        is_scalar(v),
        is_scalar(w),
        encode_scalar(v) == encode_scalar(w),
    ensures
        v == w,
{
    lemma_encoding(v);
    lemma_encoding(w);
    let a = encode_scalar(v);
    let b = encode_scalar(w);
    assert(a.len() == b.len());
    assert(a[0] == b[0]);
    if a.len() >= 2 {
        assert(a[1] == b[1]);
    }
    if a.len() >= 3 {
        assert(a[2] == b[2]);
    }
    if a.len() >= 4 {
        assert(a[3] == b[3]);
    }
}

/// A scalar's encoding read back is that scalar, and no part of another encoding.
pub proof fn lemma_scalar_of(v: u32)
    requires
        is_scalar(v),
    ensures
        scalar_of(encode_scalar(v)) == Some(v),
{
    assert(encodes(encode_scalar(v), v));
    let w = choose|w: u32| encodes(encode_scalar(v), w);
    lemma_encoding_unique(v, w);
}

/// A proper part of an encoding encodes nothing itself.
pub proof fn lemma_partial_not_whole(b: Seq<u8>)
    requires
        partial_scalar(b),
        b.len() > 0,
    ensures
        scalar_of(b) is None,
{
    let v = choose|v: u32| begins(b, v);
    lemma_encoding(v);
    if scalar_of(b) is Some {
        let w = choose|w: u32| encodes(b, w);
        lemma_encoding(w);
        assert(b[0] == encode_scalar(v)[0]);
        assert(b[0] == encode_scalar(w)[0]);
        assert(false);
    }
}

/// The least second byte that may follow `b0`.
pub open spec fn least_second(b0: u8) -> u8 {
    if b0 == 0xE0 {
        0xA0
    } else if b0 == 0xF0 {
        0x90
    } else {
        0x80
    }
}

/// The greatest second byte that may follow `b0`.
pub open spec fn greatest_second(b0: u8) -> u8 {
    if b0 == 0xED {
        0x9F
    } else if b0 == 0xF4 {
        0x8F
    } else {
        0xBF
    }
}

/// How many bytes an encoding that begins with `b0` has; 0 where none begins so.
pub open spec fn width_of(b0: u8) -> int {
    if b0 < 0x80 {
        1
    } else if b0 < 0xC2 {
        0
    } else if b0 < 0xE0 {
        2
    } else if b0 < 0xF0 {
        3
    } else if b0 <= 0xF4 {
        4
    } else {
        0
    }
}

/// What every part of an encoding, from its start, obeys.
pub open spec fn plausible(b: Seq<u8>) -> bool {
    &&& 0 < b.len() <= width_of(b[0])
    &&& b.len() >= 2 ==> least_second(b[0]) <= b[1] <= greatest_second(b[0])
    &&& b.len() >= 3 ==> 0x80 <= b[2] <= 0xBF
    &&& b.len() >= 4 ==> 0x80 <= b[3] <= 0xBF
}

proof fn lemma_plausible(b: Seq<u8>, v: u32)
    requires
        is_scalar(v),
        0 < b.len() <= encode_scalar(v).len(),
        b == encode_scalar(v).take(b.len() as int),
    ensures
        plausible(b),
        width_of(b[0]) == encode_scalar(v).len(),
{
    lemma_encoding(v);
    let e = encode_scalar(v);
    assert(b[0] == e[0]);
    if b.len() >= 2 {
        assert(b[1] == e[1]);
    }
    if b.len() >= 3 {
        assert(b[2] == e[2]);
    }
    if b.len() >= 4 {
        assert(b[3] == e[3]);
    }
}

/// The scalar of four bytes (those past the width do not count).
pub open spec fn value_of(b0: u8, b1: u8, b2: u8, b3: u8) -> int {
    if width_of(b0) == 1 {
        b0 as int
    } else if width_of(b0) == 2 {
        (b0 - 0xC0) * 64 + (b1 - 0x80)
    } else if width_of(b0) == 3 {
        (b0 - 0xE0) * 4096 + (b1 - 0x80) * 64 + (b2 - 0x80)
    } else {
        (b0 - 0xF0) * 262144 + (b1 - 0x80) * 4096 + (b2 - 0x80) * 64 + (b3 - 0x80)
    }
}

/// The digits of a number in base 64.
proof fn lemma_digits(x: int, y: int, z: int, w: int)
    requires
        0 <= x,
        0 <= y < 64,
        0 <= z < 64,
        0 <= w < 64,
    ensures
        ({
            let v = x * 262144 + y * 4096 + z * 64 + w;
            &&& v % 64 == w
            &&& v / 64 == x * 4096 + y * 64 + z
            &&& (v / 64) % 64 == z
            &&& v / 4096 == x * 64 + y
            &&& (v / 4096) % 64 == y
            &&& v / 262144 == x
        }),
{
    let v = x * 262144 + y * 4096 + z * 64 + w;
    assert(v == (x * 4096 + y * 64 + z) * 64 + w);
    assert(v / 64 == x * 4096 + y * 64 + z);
    assert(v == (x * 64 + y) * 4096 + (z * 64 + w));
    assert(v / 4096 == x * 64 + y);
    assert(v == x * 262144 + (y * 4096 + z * 64 + w));
}

proof fn lemma_value(b0: u8, b1: u8, b2: u8, b3: u8)
    requires
        width_of(b0) > 0,
        least_second(b0) <= b1 <= greatest_second(b0),
        0x80 <= b2 <= 0xBF,
        0x80 <= b3 <= 0xBF,
    ensures
        0 <= value_of(b0, b1, b2, b3) <= 0x10FFFF,
        is_scalar(value_of(b0, b1, b2, b3) as u32),
        encode_scalar(value_of(b0, b1, b2, b3) as u32) == seq![b0, b1, b2, b3].take(width_of(b0)),
{
    let n = value_of(b0, b1, b2, b3);
    let v = n as u32;
    let w = width_of(b0);
    if w == 1 {
        assert(is_scalar(v));
    } else if w == 2 {
        lemma_digits(0, 0, b0 - 0xC0, b1 - 0x80);
        assert(0x80 <= n < 0x800);
    } else if w == 3 {
        lemma_digits(0, b0 - 0xE0, b1 - 0x80, b2 - 0x80);
        assert(0x800 <= n < 0x10000);
        assert(!(0xD800 <= n <= 0xDFFF));
    } else {
        lemma_digits(b0 - 0xF0, b1 - 0x80, b2 - 0x80, b3 - 0x80);
        assert(0x10000 <= n <= 0x10FFFF);
    }
    assert(v == n);
    lemma_encoding(v);
    let e = encode_scalar(v);
    let t = seq![b0, b1, b2, b3].take(w);
    assert(e.len() == w);
    assert(e[0] == b0);
    if w >= 2 {
        assert(e[1] == b1);
    }
    if w >= 3 {
        assert(e[2] == b2);
    }
    if w >= 4 {
        assert(e[3] == b3);
    }
    assert(e =~= t);
}

/// What the buffer holds.
pub fn read_scalar(buf: &Vec<u8>) -> (r: Utf8Read)
    requires
        0 < buf@.len(),
    ensures
        match r {
            Utf8Read::Code(v) => encodes(buf@, v) && scalar_of(buf@) == Some(v),
            Utf8Read::Partial => partial_scalar(buf@) && scalar_of(buf@) is None,
            Utf8Read::Bad => !partial_scalar(buf@) && scalar_of(buf@) is None,
        },
{
    let len: usize = buf.len();
    let b0: u8 = buf[0];
    let width: usize = if b0 < 0x80 {
        1
    } else if b0 < 0xC2 || b0 > 0xF4 {
        0
    } else if b0 < 0xE0 {
        2
    } else if b0 < 0xF0 {
        3
    } else {
        4
    };
    let mut ok: bool = len <= width;
    let lo: u8 = if b0 == 0xE0 {
        0xA0
    } else if b0 == 0xF0 {
        0x90
    } else {
        0x80
    };
    let hi: u8 = if b0 == 0xED {
        0x9F
    } else if b0 == 0xF4 {
        0x8F
    } else {
        0xBF
    };
    let mut b1: u8 = lo;
    let mut b2: u8 = 0x80;
    let mut b3: u8 = 0x80;
    if ok && len >= 2 {
        b1 = buf[1];
        if b1 < lo || b1 > hi {
            ok = false;
        }
    }
    if ok && len >= 3 {
        b2 = buf[2];
        if b2 < 0x80 || b2 > 0xBF {
            ok = false;
        }
    }
    if ok && len >= 4 {
        b3 = buf[3];
        if b3 < 0x80 || b3 > 0xBF {
            ok = false;
        }
    }
    assert(ok == plausible(buf@));
    if !ok {
        proof {
            if partial_scalar(buf@) {
                let v = choose|v: u32| begins(buf@, v);
                lemma_plausible(buf@, v);
            }
            if scalar_of(buf@) is Some {
                let v = choose|v: u32| encodes(buf@, v);
                assert(encode_scalar(v).take(buf@.len() as int) =~= buf@);
                lemma_plausible(buf@, v);
            }
        }
        return Utf8Read::Bad;
    }
    proof {
        lemma_value(b0, b1, b2, b3);
        assert(buf@ =~= seq![b0, b1, b2, b3].take(width as int).take(len as int));
    }
    if len < width {
        proof {
            assert(begins(buf@, value_of(b0, b1, b2, b3) as u32));
            lemma_partial_not_whole(buf@);
        }
        return Utf8Read::Partial;
    }
    let v: u32 = if width == 1 {
        b0 as u32
    } else if width == 2 {
        (b0 as u32 - 0xC0) * 64 + (b1 as u32 - 0x80)
    } else if width == 3 {
        (b0 as u32 - 0xE0) * 4096 + (b1 as u32 - 0x80) * 64 + (b2 as u32 - 0x80)
    } else {
        (b0 as u32 - 0xF0) * 262144 + (b1 as u32 - 0x80) * 4096 + (b2 as u32 - 0x80) * 64 + (
        b3 as u32 - 0x80)
    };
    proof {
        assert(v == value_of(b0, b1, b2, b3) as u32);
        assert(seq![b0, b1, b2, b3].take(width as int) =~= buf@);
        lemma_scalar_of(v);
    }
    Utf8Read::Code(v)
}

} // verus!
