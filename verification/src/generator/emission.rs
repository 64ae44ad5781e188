//! What of a generated text can be shown.
use vstd::prelude::*;
use vstd::string::StringSliceAdditionalSpecFns;
use vstd::utf8::{
    encode_utf8, encode_utf8_valid_utf8, is_char_boundary,
    is_char_boundary_iff_not_is_continuation_byte, is_char_boundary_start_end_of_seq, valid_utf8,
};

verus! {

/// The largest character boundary of `b` that is not above `max`.
pub open spec fn boundary_below(b: Seq<u8>, max: int) -> int
    decreases max,
{
    if max >= b.len() {
        b.len() as int
    } else if max <= 0 || is_char_boundary(b, max) {
        max
    } else {
        boundary_below(b, max - 1)
    }
}

/// How many leading bytes two texts have in common.
pub open spec fn common_len(a: Seq<u8>, b: Seq<u8>) -> int
    decreases a.len(),
{
    if a.len() == 0 || b.len() == 0 || a[0] != b[0] {
        0
    } else {
        1 + common_len(a.drop_first(), b.drop_first())
    }
}

/// Whether `pat` stands in `text` at place `i`.
pub open spec fn stands_at(text: Seq<u8>, pat: Seq<u8>, i: int) -> bool {
    0 <= i && i + pat.len() <= text.len() && text.subrange(i, i + pat.len()) == pat
}

/// Whether `i` is the first place at which `pat` stands in `text`.
pub open spec fn first_at(text: Seq<u8>, pat: Seq<u8>, i: int) -> bool {
    stands_at(text, pat, i) && forall|j: int| 0 <= j < i ==> !#[trigger] stands_at(text, pat, j)
}

/// Whether `pre` is a prefix of `text`.
pub open spec fn starts_with(text: Seq<u8>, pre: Seq<u8>) -> bool {
    pre.len() <= text.len() && text.take(pre.len() as int) == pre
}

/// `text` without the prefix `pre`, where it has it.
pub open spec fn stripped(text: Seq<u8>, pre: Seq<u8>) -> Option<Seq<u8>> {
    if starts_with(text, pre) {
        Some(text.skip(pre.len() as int))
    } else {
        None
    }
}

pub proof fn lemma_valid(s: Seq<char>)
    ensures
        valid_utf8(encode_utf8(s)),
{
    encode_utf8_valid_utf8(s);
}

proof fn lemma_boundary_below(b: Seq<u8>, max: int)
    requires
        valid_utf8(b),
        max >= 0,
    ensures
        0 <= boundary_below(b, max) <= b.len(),
        max < b.len() ==> boundary_below(b, max) <= max,
        is_char_boundary(b, boundary_below(b, max)),
        forall|i: int| boundary_below(b, max) < i <= max && i <= b.len() ==> !is_char_boundary(b, i),
    decreases max,
{
    is_char_boundary_start_end_of_seq(b);
    if max < b.len() && max > 0 && !is_char_boundary(b, max) {
        lemma_boundary_below(b, max - 1);
    }
}

/// The largest place, not above `max`, that is a character boundary of `s`.
pub fn floor_char_boundary(s: &str, max: usize) -> (r: usize)
    ensures
        r == boundary_below(encode_utf8(s@), max as int),
        r <= encode_utf8(s@).len(),
        max < encode_utf8(s@).len() ==> r <= max,
        is_char_boundary(encode_utf8(s@), r as int),
        forall|i: int|
            r < i <= max && i <= encode_utf8(s@).len() ==> !is_char_boundary(encode_utf8(s@), i),
{
    let b = s.as_bytes();
    proof {
        lemma_valid(s@);
        lemma_boundary_below(b@, max as int);
    }
    let n: usize = b.len();
    if max >= n {
        return n;
    }
    let mut i: usize = max;
    while i > 0 && !s.is_char_boundary(i)
        invariant
            i <= max < b@.len(),
            b@ == encode_utf8(s@),
            b@ == s.spec_bytes(),
            boundary_below(b@, max as int) == boundary_below(b@, i as int),
        decreases i,
    {
        i = i - 1;
    }
    i
}

/// The length of the longest prefix of `s`, in whole characters, with which `already` starts
/// too.
pub fn prefix_len(s: &str, already: &str) -> (r: usize)
    ensures
        r == boundary_below(encode_utf8(s@), common_len(encode_utf8(s@), encode_utf8(already@))),
        r <= encode_utf8(s@).len(),
        is_char_boundary(encode_utf8(s@), r as int),
{
    let a = s.as_bytes();
    let b = already.as_bytes();
    let mut i: usize = 0;
    assert(a@.skip(0) =~= a@);
    assert(b@.skip(0) =~= b@);
    while i < a.len() && i < b.len() && a[i] == b[i]
        invariant
            i <= a@.len(),
            i <= b@.len(),
            common_len(a@, b@) == i + common_len(a@.skip(i as int), b@.skip(i as int)),
        decreases a@.len() - i,
    {
        assert(a@.skip(i as int).drop_first() =~= a@.skip(i + 1));
        assert(b@.skip(i as int).drop_first() =~= b@.skip(i + 1));
        i = i + 1;
    }
    floor_char_boundary(s, i)
}

/// The first place at which `pat` stands in `text`.
pub fn find_text(text: &str, pat: &str) -> (r: Option<usize>)
    ensures
        match r {
            Some(i) => first_at(encode_utf8(text@), encode_utf8(pat@), i as int) && is_char_boundary(
                encode_utf8(text@),
                i as int,
            ),
            None => forall|i: int| !#[trigger] stands_at(encode_utf8(text@), encode_utf8(pat@), i),
        },
{
    let t = text.as_bytes();
    let p = pat.as_bytes();
    proof {
        lemma_valid(text@);
        lemma_valid(pat@);
        is_char_boundary_start_end_of_seq(t@);
        is_char_boundary_start_end_of_seq(p@);
    }
    let n: usize = t.len();
    let m: usize = p.len();
    if m > n {
        return None;
    }
    let mut i: usize = 0;
    while i <= n - m
        invariant
            n == t@.len(),
            m == p@.len(),
            m <= n,
            i <= n - m + 1,
            t@ == encode_utf8(text@),
            p@ == encode_utf8(pat@),
            valid_utf8(t@),
            valid_utf8(p@),
            is_char_boundary(t@, 0),
            is_char_boundary(p@, 0),
            is_char_boundary(t@, n as int),
            forall|j: int| 0 <= j < i ==> !#[trigger] stands_at(t@, p@, j),
        decreases n + 1 - i,
    {
        let mut k: usize = 0;
        while k < m && t[i + k] == p[k]
            invariant
                n == t@.len(),
                m == p@.len(),
                i + m <= n,
                k <= m,
                forall|j: int| 0 <= j < k ==> t@[i + j] == #[trigger] p@[j],
            decreases m - k,
        {
            k = k + 1;
        }
        if k == m {
            proof {
                assert(t@.subrange(i as int, i + m) =~= p@);
                assert(stands_at(t@, p@, i as int));
                if m > 0 {
                    is_char_boundary_iff_not_is_continuation_byte(p@, 0);
                    assert(t@[i as int] == p@[0]);
                    is_char_boundary_iff_not_is_continuation_byte(t@, i as int);
                } else if i > 0 {
                    assert(t@.subrange(0, 0) =~= p@);
                    assert(stands_at(t@, p@, 0));
                }
            }
            return Some(i);
        }
        proof {
            if stands_at(t@, p@, i as int) {
                assert(t@.subrange(i as int, i + m)[k as int] == p@[k as int]);
            }
        }
        i = i + 1;
    }
    proof {
        assert forall|j: int| !#[trigger] stands_at(t@, p@, j) by {}
    }
    None
}

/// The first `at` bytes of a text.
pub fn head(text: &str, at: usize) -> (r: String)
    requires
        is_char_boundary(encode_utf8(text@), at as int),
        at <= encode_utf8(text@).len(),
    ensures
        encode_utf8(r@) == encode_utf8(text@).take(at as int),
{
    let (a, _) = text.split_at(at);
    assert(a.spec_bytes() =~= encode_utf8(text@).take(at as int));
    a.to_owned()
}

/// What of a text follows the first `at` bytes.
pub fn tail(text: &str, at: usize) -> (r: String)
    requires
        is_char_boundary(encode_utf8(text@), at as int),
        at <= encode_utf8(text@).len(),
    ensures
        encode_utf8(r@) == encode_utf8(text@).skip(at as int),
{
    let (_, b) = text.split_at(at);
    assert(b.spec_bytes() =~= encode_utf8(text@).skip(at as int));
    b.to_owned()
}

fn begins(text: &str, pre: &str) -> (r: bool)
    ensures
        r == starts_with(encode_utf8(text@), encode_utf8(pre@)),
        r ==> is_char_boundary(encode_utf8(text@), encode_utf8(pre@).len() as int),
{
    let t = text.as_bytes();
    let p = pre.as_bytes();
    if p.len() > t.len() {
        return false;
    }
    let mut k: usize = 0;
    while k < p.len()
        invariant
            k <= p@.len() <= t@.len(),
            t@ == encode_utf8(text@),
            p@ == encode_utf8(pre@),
            forall|j: int| 0 <= j < k ==> t@[j] == #[trigger] p@[j],
        decreases p@.len() - k,
    {
        if t[k] != p[k] {
            proof {
                if starts_with(t@, p@) {
                    assert(t@.take(p@.len() as int)[k as int] == p@[k as int]);
                }
            }
            return false;
        }
        k = k + 1;
    }
    proof {
        assert(t@.take(p@.len() as int) =~= p@);
        lemma_prefix_boundary(text@, pre@);
    }
    true
}

/// Where a text starts with another, the other's end is a character boundary.
proof fn lemma_prefix_boundary(text: Seq<char>, pre: Seq<char>)
    requires
        starts_with(encode_utf8(text), encode_utf8(pre)),
    ensures
        is_char_boundary(encode_utf8(text), encode_utf8(pre).len() as int),
{
    let t = encode_utf8(text);
    let p = encode_utf8(pre);
    lemma_valid(text);
    lemma_valid(pre);
    lemma_prefix_valid(t, p);
}

proof fn lemma_prefix_valid(t: Seq<u8>, p: Seq<u8>)
    requires
        valid_utf8(t),
        valid_utf8(p),
        starts_with(t, p),
    ensures
        is_char_boundary(t, p.len() as int),
    decreases p.len(),
{
    if p.len() == 0 {
        is_char_boundary_start_end_of_seq(t);
    } else {
        let n = vstd::utf8::length_of_first_scalar(p);
        assert forall|i: int| 0 <= i < p.len() implies #[trigger] t[i] == p[i] by {
            assert(t.take(p.len() as int)[i] == p[i]);
        }
        assert(vstd::utf8::length_of_first_scalar(t) == n);
        let t2 = vstd::utf8::pop_first_scalar(t);
        let p2 = vstd::utf8::pop_first_scalar(p);
        assert(t2.take(p2.len() as int) =~= p2);
        lemma_prefix_valid(t2, p2);
    }
}

/// `text` without the prefix `pre`, where it has it.
pub fn strip(text: &str, pre: &str) -> (r: Option<String>)
    ensures
        match r {
            Some(s) => stripped(encode_utf8(text@), encode_utf8(pre@)) == Some(encode_utf8(s@)),
            None => stripped(encode_utf8(text@), encode_utf8(pre@)) is None,
        },
{
    if begins(text, pre) {
        let n: usize = pre.as_bytes().len();
        Some(tail(text, n))
    } else {
        None
    }
}

/// The first place of `pat` in `text`.
pub open spec fn place(text: Seq<u8>, pat: Seq<u8>) -> Option<int> {
    if exists|i: int| first_at(text, pat, i) {
        Some(choose|i: int| first_at(text, pat, i))
    } else {
        None
    }
}

/// The smaller of two places.
pub open spec fn earlier(a: Option<int>, b: Option<int>) -> Option<int> {
    match (a, b) {
        (Some(x), Some(y)) => if x <= y {
            Some(x)
        } else {
            Some(y)
        },
        (Some(x), None) => Some(x),
        (None, y) => y,
    }
}

/// The first place of any of `stops` in `text`.
pub open spec fn first_stop(text: Seq<u8>, stops: Seq<Seq<u8>>) -> Option<int>
    decreases stops.len(),
{
    if stops.len() == 0 {
        None
    } else {
        earlier(first_stop(text, stops.drop_last()), place(text, stops.last()))
    }
}

/// The length of the longest of `stops`.
pub open spec fn longest(stops: Seq<Seq<u8>>) -> int
    decreases stops.len(),
{
    if stops.len() == 0 {
        0
    } else {
        let n = longest(stops.drop_last());
        if stops.last().len() > n {
            stops.last().len() as int
        } else {
            n
        }
    }
}

/// How much of a text is held back because it might still grow into one of `stops`.
pub open spec fn held_back(stops: Seq<Seq<u8>>) -> int {
    if longest(stops) > 0 {
        longest(stops) - 1
    } else {
        0
    }
}

/// How far a text may be shown when `hold` bytes are held back: up to a character boundary,
/// and at least as far as it was shown already.
pub open spec fn show_to(visible: Seq<u8>, hold: int, emitted: Seq<u8>) -> int {
    let free = if visible.len() > hold {
        visible.len() - hold
    } else {
        0
    };
    let a = boundary_below(visible, free);
    let b = boundary_below(visible, common_len(visible, emitted));
    if a >= b {
        a
    } else {
        b
    }
}

/// What is shown next of a text of which `emitted` was shown.
pub open spec fn shown(visible: Seq<u8>, hold: int, emitted: Seq<u8>) -> Seq<u8> {
    match stripped(visible.take(show_to(visible, hold, emitted)), emitted) {
        Some(x) => x,
        None => seq![],
    }
}

/// The bytes of some texts.
pub open spec fn texts_bytes(v: Seq<String>) -> Seq<Seq<u8>> {
    Seq::new(v.len(), |i: int| encode_utf8(v[i]@))
}

proof fn lemma_first_unique(text: Seq<u8>, pat: Seq<u8>, i: int)
    requires
        first_at(text, pat, i),
    ensures
        place(text, pat) == Some(i),
{
    let j = choose|j: int| first_at(text, pat, j);
    assert(first_at(text, pat, j));
    if j < i {
        assert(!stands_at(text, pat, j));
    }
    if i < j {
        assert(!stands_at(text, pat, i));
    }
}

/// Whether one of `stops` stands in `text` at place `p`, and none of them at an earlier place.
pub open spec fn is_earliest(text: Seq<u8>, stops: Seq<Seq<u8>>, p: int) -> bool {
    &&& exists|k: int|
        0 <= k < stops.len() && 0 <= p && p + (#[trigger] stops[k]).len() <= text.len() && text.subrange(
            p,
            p + stops[k].len(),
        ) == stops[k]
    &&& forall|k: int, q: int|
        0 <= k < stops.len() && 0 <= q < p && q + (#[trigger] stops[k]).len() <= text.len()
            ==> #[trigger] text.subrange(q, q + stops[k].len()) != stops[k]
}

/// Whether none of `stops` stands anywhere in `text`.
pub open spec fn has_none(text: Seq<u8>, stops: Seq<Seq<u8>>) -> bool {
    forall|k: int, q: int|
        0 <= k < stops.len() && 0 <= q && q + (#[trigger] stops[k]).len() <= text.len() ==> #[trigger] text.subrange(
            q,
            q + stops[k].len(),
        ) != stops[k]
}

/// Where a pattern stands at all, it has a first place.
proof fn lemma_first_place(text: Seq<u8>, pat: Seq<u8>, i: int)
    requires
        stands_at(text, pat, i),
    ensures
        exists|j: int| j <= i && #[trigger] first_at(text, pat, j),
    decreases i,
{
    if exists|j: int| 0 <= j < i && #[trigger] stands_at(text, pat, j) {
        let j = choose|j: int| 0 <= j < i && #[trigger] stands_at(text, pat, j);
        lemma_first_place(text, pat, j);
    } else {
        assert(first_at(text, pat, i));
    }
}

/// The place at which a text is cut is the earliest at which any of the listed stop strings
/// stands; there is none only where none of them stands anywhere in the text.
pub proof fn the_earliest_stop_is_found(text: Seq<u8>, stops: Seq<Seq<u8>>)
    ensures
        match first_stop(text, stops) {
            Some(p) => is_earliest(text, stops, p),
            None => has_none(text, stops),
        },
    decreases stops.len(),
{
    if stops.len() > 0 {
        let less = stops.drop_last();
        let pat = stops.last();
        the_earliest_stop_is_found(text, less);
        let found = place(text, pat);
        if found is Some {
            assert(first_at(text, pat, found->0));
        }
        assert forall|q: int|
            0 <= q && q + pat.len() <= text.len() && #[trigger] text.subrange(q, q + pat.len()) == pat implies found
            is Some && found->0 <= q by {
            assert(stands_at(text, pat, q));
            lemma_first_place(text, pat, q);
            if found->0 > q {
                assert(!stands_at(text, pat, q));
            }
        }
        match first_stop(text, stops) {
            Some(p) => {
                if found == Some(p) {
                    assert(stops[stops.len() - 1] == pat);
                } else {
                    let k = choose|k: int|
                        0 <= k < less.len() && 0 <= p && p + (#[trigger] less[k]).len() <= text.len()
                            && text.subrange(p, p + less[k].len()) == less[k];
                    assert(stops[k] == less[k]);
                }
                assert forall|k: int, q: int|
                    0 <= k < stops.len() && 0 <= q < p && q + (#[trigger] stops[k]).len() <= text.len() implies
                    #[trigger] text.subrange(q, q + stops[k].len()) != stops[k] by {
                    if k < less.len() {
                        assert(stops[k] == less[k]);
                    }
                }
            },
            None => {
                assert forall|k: int, q: int|
                    0 <= k < stops.len() && 0 <= q && q + (#[trigger] stops[k]).len() <= text.len() implies
                    #[trigger] text.subrange(q, q + stops[k].len()) != stops[k] by {
                    if k < less.len() {
                        assert(stops[k] == less[k]);
                    }
                }
            },
        }
    }
}

/// The first place of any of `stops` in `text`.
pub fn find_stop(text: &str, stops: &Vec<String>) -> (r: Option<usize>)
    ensures
        match r {
            Some(i) => first_stop(encode_utf8(text@), texts_bytes(stops@)) == Some(i as int) && is_char_boundary(
                encode_utf8(text@),
                i as int,
            ) && i <= encode_utf8(text@).len(),
            None => first_stop(encode_utf8(text@), texts_bytes(stops@)) is None,
        },
        match r {
            Some(i) => is_earliest(encode_utf8(text@), texts_bytes(stops@), i as int),
            None => has_none(encode_utf8(text@), texts_bytes(stops@)),
        },
{
    let ghost t = encode_utf8(text@);
    let ghost ps = texts_bytes(stops@);
    let mut best: Option<usize> = None;
    let mut k: usize = 0;
    assert(ps.take(0) =~= seq![]);
    while k < stops.len()
        invariant
            k <= stops@.len(),
            t == encode_utf8(text@),
            ps == texts_bytes(stops@),
            match best {
                Some(i) => first_stop(t, ps.take(k as int)) == Some(i as int) && is_char_boundary(t, i as int) && i
                    <= t.len(),
                None => first_stop(t, ps.take(k as int)) is None,
            },
        decreases stops@.len() - k,
    {
        assert(ps.take(k + 1).drop_last() =~= ps.take(k as int));
        assert(ps.take(k + 1).last() == encode_utf8(stops@[k as int]@));
        let found = find_text(text, stops[k].as_str());
        proof {
            let p = encode_utf8(stops@[k as int]@);
            match found {
                Some(i) => {
                    lemma_first_unique(t, p, i as int);
                },
                None => {
                    assert forall|i: int| !first_at(t, p, i) by {
                        assert(!stands_at(t, p, i));
                    }
                },
            }
        }
        match found {
            Some(i) => {
                let better = match best {
                    Some(b) => i < b,
                    None => true,
                };
                if better {
                    best = Some(i);
                }
            },
            None => {},
        }
        k = k + 1;
    }
    assert(ps.take(k as int) =~= ps);
    proof {
        the_earliest_stop_is_found(t, ps);
    }
    best
}

/// How much of a text is held back because it might still grow into one of `stops`.
pub fn hold_back(stops: &Vec<String>) -> (r: usize)
    ensures
        r == held_back(texts_bytes(stops@)),
{
    let ghost ps = texts_bytes(stops@);
    let mut n: usize = 0;
    let mut k: usize = 0;
    assert(ps.take(0) =~= seq![]);
    while k < stops.len()
        invariant
            k <= stops@.len(),
            ps == texts_bytes(stops@),
            n == longest(ps.take(k as int)),
        decreases stops@.len() - k,
    {
        assert(ps.take(k + 1).drop_last() =~= ps.take(k as int));
        assert(ps.take(k + 1).last() == encode_utf8(stops@[k as int]@));
        let m: usize = stops[k].as_str().as_bytes().len();
        if m > n {
            n = m;
        }
        k = k + 1;
    }
    assert(ps.take(k as int) =~= ps);
    if n > 0 {
        n - 1
    } else {
        0
    }
}

/// What is shown next of a text of which `emitted` was shown.
pub fn show(visible: &str, hold: usize, emitted: &str) -> (r: String)
    ensures
        encode_utf8(r@) == shown(encode_utf8(visible@), hold as int, encode_utf8(emitted@)),
{
    let n: usize = visible.as_bytes().len();
    let free: usize = if n > hold {
        n - hold
    } else {
        0
    };
    let a = floor_char_boundary(visible, free);
    let b = prefix_len(visible, emitted);
    let to: usize = if a >= b {
        a
    } else {
        b
    };
    let target = head(visible, to);
    match strip(target.as_str(), emitted) {
        Some(s) => s,
        None => {
            proof {
                reveal_strlit("");
            }
            let r = "".to_owned();
            assert(r@ =~= seq![]);
            assert(encode_utf8(r@) =~= seq![]);
            r
        },
    }
}

proof fn lemma_common(a: Seq<u8>, b: Seq<u8>)
    ensures
        0 <= common_len(a, b) <= a.len(),
        common_len(a, b) <= b.len(),
        starts_with(a, b) ==> common_len(a, b) == b.len(),
    decreases a.len(),
{
    if a.len() > 0 && b.len() > 0 && a[0] == b[0] {
        let x = a.drop_first();
        let y = b.drop_first();
        lemma_common(x, y);
        if starts_with(a, b) {
            assert(x.take(y.len() as int) =~= a.take(b.len() as int).drop_first());
            assert(b.drop_first() =~= y);
        }
    } else if starts_with(a, b) && b.len() > 0 {
        assert(a.take(b.len() as int)[0] == b[0]);
    }
}

/// What was shown of a text, with what is shown next, is the text itself, up to where it is
/// held back.
pub proof fn shown_text_is_a_prefix(visible: Seq<char>, hold: int, emitted: Seq<char>)
    requires
        hold >= 0,
        starts_with(encode_utf8(visible), encode_utf8(emitted)),
    ensures
        encode_utf8(emitted) + shown(encode_utf8(visible), hold, encode_utf8(emitted)) == encode_utf8(visible).take(
            show_to(encode_utf8(visible), hold, encode_utf8(emitted)),
        ),
        encode_utf8(emitted).len() <= show_to(encode_utf8(visible), hold, encode_utf8(emitted))
            <= encode_utf8(visible).len(),
{
    let v = encode_utf8(visible);
    let e = encode_utf8(emitted);
    lemma_valid(visible);
    lemma_valid(emitted);
    lemma_common(v, e);
    lemma_prefix_valid(v, e);
    let free = if v.len() > hold {
        v.len() - hold
    } else {
        0
    };
    lemma_boundary_below(v, free);
    lemma_boundary_below(v, e.len() as int);
    assert(boundary_below(v, e.len() as int) == e.len());
    let t = v.take(show_to(v, hold, e));
    assert(t.take(e.len() as int) =~= v.take(e.len() as int));
    assert(e + t.skip(e.len() as int) =~= t);
}

/// When nothing is held back, what was shown with what is shown next is the whole text.
pub proof fn shown_text_ends_complete(visible: Seq<char>, emitted: Seq<char>)
    requires
        starts_with(encode_utf8(visible), encode_utf8(emitted)),
    ensures
        encode_utf8(emitted) + shown(encode_utf8(visible), 0, encode_utf8(emitted)) == encode_utf8(visible),
{
    let v = encode_utf8(visible);
    shown_text_is_a_prefix(visible, 0, emitted);
    assert(boundary_below(v, v.len() as int) == v.len());
    assert(v.take(v.len() as int) =~= v);
}

proof fn lemma_longest(stops: Seq<Seq<u8>>, k: int)
    requires
        0 <= k < stops.len(),
    ensures
        stops[k].len() <= longest(stops),
    decreases stops.len(),
{
    if k < stops.len() - 1 {
        lemma_longest(stops.drop_last(), k);
        assert(stops.drop_last()[k] == stops[k]);
    }
}

/// Nothing is shown that could be part of a stop string: where a longer text holds one that
/// was not in `visible`, it begins where nothing was shown yet, or where more was shown
/// before.
pub proof fn stop_strings_are_held_back(
    visible: Seq<char>,
    later: Seq<u8>,
    stops: Seq<Seq<u8>>,
    k: int,
    at: int,
    emitted: Seq<char>,
)
    requires
        0 <= k < stops.len(),
        starts_with(later, encode_utf8(visible)),
        stands_at(later, stops[k], at),
        !stands_at(encode_utf8(visible), stops[k], at),
        starts_with(encode_utf8(visible), encode_utf8(emitted)),
        encode_utf8(emitted).len() <= at,
    ensures
        show_to(encode_utf8(visible), held_back(stops), encode_utf8(emitted)) <= at,
{
    let v = encode_utf8(visible);
    let e = encode_utf8(emitted);
    let p = stops[k];
    lemma_longest(stops, k);
    if at + p.len() <= v.len() {
        assert(v.subrange(at, at + p.len()) =~= later.subrange(at, at + p.len())) by {
            assert forall|i: int| 0 <= i < v.len() implies #[trigger] v[i] == later[i] by {
                assert(later.take(v.len() as int)[i] == v[i]);
            }
        }
    }
    assert(at + p.len() > v.len());
    lemma_valid(visible);
    lemma_valid(emitted);
    lemma_common(v, e);
    lemma_prefix_valid(v, e);
    let hold = held_back(stops);
    let free = if v.len() > hold {
        v.len() - hold
    } else {
        0
    };
    lemma_boundary_below(v, free);
    lemma_boundary_below(v, e.len() as int);
    if longest(stops) == 0 {
        assert(p.len() == 0);
        assert(at > v.len());
    }
}

/// The bytes of two texts in a row.
pub proof fn lemma_bytes_concat(a: Seq<char>, b: Seq<char>)
    ensures
        encode_utf8(a + b) == encode_utf8(a) + encode_utf8(b),
    decreases a.len(),
{
    if a.len() == 0 {
        assert(a + b =~= b);
        assert(encode_utf8(a) + encode_utf8(b) =~= encode_utf8(b));
    } else {
        assert((a + b)[0] == a[0]);
        assert((a + b).drop_first() =~= a.drop_first() + b);
        lemma_bytes_concat(a.drop_first(), b);
        assert(encode_utf8(a + b) =~= encode_utf8(a) + encode_utf8(b));
    }
}

proof fn lemma_longest_at_most(stops: Seq<Seq<u8>>, n: int)
    requires
        n >= 0,
        forall|k: int| 0 <= k < stops.len() ==> (#[trigger] stops[k]).len() <= n,
    ensures
        0 <= longest(stops) <= n,
    decreases stops.len(),
{
    if stops.len() > 0 {
        let less = stops.drop_last();
        assert forall|k: int| 0 <= k < less.len() implies (#[trigger] less[k]).len() <= n by {
            assert(less[k] == stops[k]);
        }
        lemma_longest_at_most(less, n);
        assert(stops[stops.len() - 1].len() <= n);
    }
}

/// No more is held back than a stop string could need: where all of them are of at most `n` bytes,
/// whatever has `n - 1` bytes or more behind it is shown, and without stop strings everything
/// is.
pub proof fn texts_are_shown_as_soon_as_they_can_be(
    visible: Seq<char>,
    front: Seq<char>,
    stops: Seq<Seq<u8>>,
    n: int,
    emitted: Seq<char>,
)
    requires
        starts_with(encode_utf8(visible), encode_utf8(emitted)),
        starts_with(encode_utf8(visible), encode_utf8(front)),
        n >= 0,
        forall|k: int| 0 <= k < stops.len() ==> (#[trigger] stops[k]).len() <= n,
        stops.len() == 0 || encode_utf8(visible).len() - encode_utf8(front).len() >= n - 1,
    ensures
        starts_with(
            encode_utf8(emitted) + shown(encode_utf8(visible), held_back(stops), encode_utf8(emitted)),
            encode_utf8(front),
        ),
{
    let v = encode_utf8(visible);
    let e = encode_utf8(emitted);
    let f = encode_utf8(front);
    let hold = held_back(stops);
    lemma_longest_at_most(stops, n);
    if stops.len() == 0 {
        assert(hold == 0);
    }
    assert(hold >= 0);
    assert(v.len() - f.len() >= hold);
    shown_text_is_a_prefix(visible, hold, emitted);
    lemma_valid(visible);
    lemma_prefix_boundary(visible, front);
    let free = if v.len() > hold {
        v.len() - hold
    } else {
        0
    };
    lemma_boundary_below(v, free);
    let to = show_to(v, hold, e);
    assert(f.len() <= boundary_below(v, free)) by {
        if boundary_below(v, free) < f.len() {
            assert(f.len() <= free);
            assert(!is_char_boundary(v, f.len() as int));
        }
    }
    assert(v.take(to).take(f.len() as int) =~= v.take(f.len() as int));
}

} // verus!
