//! Block drafting: a small model proposes a block of tokens at once. Its context is what the
//! target computed, kept in a rolling window.
use vstd::prelude::*;
use crate::json::{get_i64, get_list, collect_i64, list_at, member, whole_at, wholes, Json};

verus! {

/// What a configuration says of the drafter.
pub struct DFlash2Params {
    /// How many places a pass drafts, with the one it follows.
    pub block_size: i64,
    pub conv_kernel_size: i64,
    pub conv_group_size: i64,
    /// The token that fills the places to be drafted.
    pub mask_token_id: i64,
    pub selector_rank: i64,
    pub selector_top_k: i64,
    /// The layers of the target whose outputs are the drafter's context.
    pub target_layer_ids: Vec<i64>,
    pub sliding_window: i64,
}

/// Why a configuration is not that of a drafter.
#[derive(Clone, Copy, Debug, PartialEq, Eq, Structural)]
pub enum DFlash2Error {
    NoConfig,
    NoMaskToken,
    NoSelectorRank,
    NoSelectorTopK,
    /// No layer of the target is a context.
    NoTaps,
}

/// A whole number, or another.
pub open spec fn or(x: Option<i64>, other: i64) -> i64 {
    match x {
        Some(v) => v,
        None => other,
    }
}

/// Whether these are the parameters that a configuration gives.
pub open spec fn params_are(raw: Json, d: Json, p: DFlash2Params) -> bool {
    &&& p.block_size == or(whole_at(d, "block_size"@), 8)
    &&& p.conv_kernel_size == or(whole_at(d, "conv_kernel_size"@), 2)
    &&& p.conv_group_size == or(whole_at(d, "conv_group_size"@), 16)
    &&& Some(p.mask_token_id) == whole_at(d, "mask_token_id"@)
    &&& Some(p.selector_rank) == whole_at(d, "selector_rank"@)
    &&& Some(p.selector_top_k) == whole_at(d, "selector_top_k"@)
    &&& p.target_layer_ids@ == match list_at(d, "target_layer_ids"@) {
        Some(l) => wholes(l),
        None => seq![],
    }
    &&& p.sliding_window == or(whole_at(raw, "sliding_window"@), 2048)
}

fn whole_or(v: &Json, key: &str, other: i64) -> (r: i64)
    ensures
        r == or(whole_at(*v, key@), other),
{
    match get_i64(v, key) {
        Some(n) => n,
        None => other,
    }
}

impl DFlash2Params {
    /// The parameters that a configuration gives.
    pub fn from_config(raw: &Json) -> (r: Result<DFlash2Params, DFlash2Error>)
        ensures
            match member(*raw, "dflash_config"@) {
                None => r == Err::<DFlash2Params, DFlash2Error>(DFlash2Error::NoConfig),
                Some(d) => if whole_at(d, "mask_token_id"@) is None {
                    r == Err::<DFlash2Params, DFlash2Error>(DFlash2Error::NoMaskToken)
                } else if whole_at(d, "selector_rank"@) is None {
                    r == Err::<DFlash2Params, DFlash2Error>(DFlash2Error::NoSelectorRank)
                } else if whole_at(d, "selector_top_k"@) is None {
                    r == Err::<DFlash2Params, DFlash2Error>(DFlash2Error::NoSelectorTopK)
                } else {
                    r matches Ok(p) && params_are(*raw, d, p)
                },
            },
    {
        let d = match raw.get("dflash_config") {
            Some(d) => d,
            None => {
                return Err(DFlash2Error::NoConfig);
            },
        };
        let mask_token_id: i64 = match get_i64(d, "mask_token_id") {
            Some(n) => n,
            None => {
                return Err(DFlash2Error::NoMaskToken);
            },
        };
        let selector_rank: i64 = match get_i64(d, "selector_rank") {
            Some(n) => n,
            None => {
                return Err(DFlash2Error::NoSelectorRank);
            },
        };
        let selector_top_k: i64 = match get_i64(d, "selector_top_k") {
            Some(n) => n,
            None => {
                return Err(DFlash2Error::NoSelectorTopK);
            },
        };
        let target_layer_ids: Vec<i64> = match get_list(d, "target_layer_ids") {
            Some(l) => collect_i64(l),
            None => Vec::new(),
        };
        let p = DFlash2Params {
            block_size: whole_or(d, "block_size", 8),
            conv_kernel_size: whole_or(d, "conv_kernel_size", 2),
            conv_group_size: whole_or(d, "conv_group_size", 16),
            mask_token_id,
            selector_rank,
            selector_top_k,
            target_layer_ids,
            sliding_window: whole_or(raw, "sliding_window", 2048),
        };
        assert(list_at(*d, "target_layer_ids"@) is None ==> p.target_layer_ids@ =~= seq![]);
        Ok(p)
    }

    /// Whether the drafter has a context: at least one layer of the target.
    pub fn check_taps(&self) -> (r: Result<(), DFlash2Error>)
        ensures
            r == if self.target_layer_ids@.len() == 0 {
                Err::<(), DFlash2Error>(DFlash2Error::NoTaps)
            } else {
                Ok(())
            },
    {
        if self.target_layer_ids.len() == 0 {
            Err(DFlash2Error::NoTaps)
        } else {
            Ok(())
        }
    }

    /// The tokens of a block: the one it follows, and masks.
    pub fn block_input(&self, anchor: i64) -> (r: Vec<i64>)
        requires
            1 <= self.block_size <= usize::MAX,
        ensures
            r@ == Seq::new(
                self.block_size as nat,
                |i: int|
                    if i == 0 {
                        anchor
                    } else {
                        self.mask_token_id
                    },
            ),
    {
        let n: usize = self.block_size as usize;
        let mut r: Vec<i64> = Vec::new();
        r.push(anchor);
        while r.len() < n
            invariant
                1 <= r.len() <= n,
                n == self.block_size,
                r@ == Seq::new(
                    r@.len(),
                    |i: int|
                        if i == 0 {
                            anchor
                        } else {
                            self.mask_token_id
                        },
                ),
            decreases n - r.len(),
        {
            let ghost before = r@;
            r.push(self.mask_token_id);
            assert(r@ =~= Seq::new(
                r@.len(),
                |i: int|
                    if i == 0 {
                        anchor
                    } else {
                        self.mask_token_id
                    },
            ));
        }
        r
    }

    /// How many bytes the window of one slot takes, with so many heads, values per head and
    /// layers.
    pub fn bytes_per_slot(&self, num_kv_heads: i64, head_dim: i64, num_hidden_layers: i64) -> (r: i64)
        requires
            0 <= self.sliding_window <= i64::MAX / 4 - 512,
            0 <= num_kv_heads,
            0 <= head_dim,
            0 <= num_hidden_layers,
            4 * (self.sliding_window + 512) * num_kv_heads <= i64::MAX,
            4 * (self.sliding_window + 512) * num_kv_heads * head_dim <= i64::MAX,
            4 * (self.sliding_window + 512) * num_kv_heads * head_dim * num_hidden_layers <= i64::MAX,
        ensures
            r == 4 * (self.sliding_window + 512) * num_kv_heads * head_dim * num_hidden_layers,
    {
        let a: i64 = 4 * (self.sliding_window + 512);
        assert(0 <= a * num_kv_heads) by (nonlinear_arith)
            requires
                0 <= a,
                0 <= num_kv_heads,
        ;
        let b: i64 = a * num_kv_heads;
        assert(0 <= b * head_dim) by (nonlinear_arith)
            requires
                0 <= b,
                0 <= head_dim,
        ;
        let c: i64 = b * head_dim;
        assert(0 <= c * num_hidden_layers) by (nonlinear_arith)
            requires
                0 <= c,
                0 <= num_hidden_layers,
        ;
        c * num_hidden_layers
    }
}

/// Which places of the target the window of a slot holds: `len` of them, from `start` on.
pub struct DFlash2Cache {
    len: i64,
    start: i64,
    cap: i64,
}

/// The places that a window holds.
#[verifier::ext_equal]
pub struct Held {
    pub start: int,
    pub len: int,
    pub cap: int,
}

/// Entries that move to the front of a window: `keep` of them, from `drop` on.
#[derive(Clone, Copy, Debug, PartialEq, Eq, Structural)]
pub struct Shift {
    pub drop: i64,
    pub keep: i64,
}

/// What is written to a window.
#[derive(Clone, Copy, Debug, PartialEq, Eq, Structural)]
pub struct Fold {
    /// How many leading places are not written, for want of room.
    pub skip: i64,
    /// How many places are written.
    pub n: i64,
    /// The first place that is written.
    pub base: i64,
    /// Where in the window it is written.
    pub at: i64,
    /// What moves before.
    pub shift: Option<Shift>,
}

/// How many entries are kept to make room for `n` more.
pub open spec fn keeps(h: Held, n: int, window: int) -> int {
    let room = if h.cap - n >= 0 {
        h.cap - n
    } else {
        0
    };
    let most = if window <= h.len {
        window
    } else {
        h.len
    };
    if most <= room {
        most
    } else {
        room
    }
}

/// A window with room for `n` more entries.
pub open spec fn with_room(h: Held, n: int, window: int) -> Held {
    if h.len + n <= h.cap {
        h
    } else {
        let keep = keeps(h, n, window);
        Held { len: keep, start: h.start + (h.len - keep), ..h }
    }
}

/// A window after `n` places from `base` on were folded in.
pub open spec fn folded(h: Held, n: int, base: int, window: int) -> Held {
    if n == 0 {
        h
    } else {
        let m = if n > h.cap {
            h.cap
        } else {
            n
        };
        let b = base + (n - m);
        let r = with_room(h, m, window);
        Held {
            start: if r.len == 0 {
                b
            } else {
                r.start
            },
            len: r.len + m,
            ..r
        }
    }
}

impl DFlash2Cache {
    /// The places held.
    pub closed spec fn held(&self) -> Held {
        Held { start: self.start as int, len: self.len as int, cap: self.cap as int }
    }

    /// What every window keeps.
    pub open spec fn inv(&self) -> bool {
        0 <= self.held().len <= self.held().cap
    }

    /// An empty window for a drafter that looks back this far.
    pub fn new(sliding_window: i64) -> (r: DFlash2Cache)
        requires
            -512 <= sliding_window <= i64::MAX - 512,
        ensures
            r.inv(),
            r.held() == (Held { start: 0, len: 0, cap: sliding_window + 512 }),
    {
        DFlash2Cache { len: 0, start: 0, cap: sliding_window + 512 }
    }

    /// Forget everything.
    pub fn reset(&mut self)
        requires
            old(self).inv(),
        ensures
            final(self).inv(),
            final(self).held() == (Held { start: 0, len: 0, ..old(self).held() }),
    {
        self.len = 0;
        self.start = 0;
    }

    /// How many places are held.
    pub fn len(&self) -> (r: i64)
        ensures
            r == self.held().len,
    {
        self.len
    }

    /// Whether none is.
    pub fn is_empty(&self) -> (r: bool)
        ensures
            r == (self.held().len == 0),
    {
        self.len == 0
    }

    /// How many places can be held.
    pub fn cap(&self) -> (r: i64)
        ensures
            r == self.held().cap,
    {
        self.cap
    }

    /// The first place that is held.
    pub fn start(&self) -> (r: i64)
        ensures
            r == self.held().start,
    {
        self.start
    }

    /// The place behind the last that is held.
    pub fn end_pos(&self) -> (r: i64)
        requires
            i64::MIN <= self.held().start + self.held().len <= i64::MAX,
        ensures
            r == self.held().start + self.held().len,
    {
        self.start + self.len
    }

    /// Make room for `n` more entries: the oldest go, down to those that can still be seen, and
    /// to what leaves room.
    pub fn ensure_room(&mut self, n: i64, window: i64) -> (r: Option<Shift>)
        requires
            old(self).inv(),
            0 <= n,
            0 <= window,
            old(self).held().start + old(self).held().len <= i64::MAX,
        ensures
            final(self).inv(),
            final(self).held() == with_room(old(self).held(), n as int, window as int),
            r == {
                let h = old(self).held();
                let keep = keeps(h, n as int, window as int);
                if h.len + n > h.cap && h.len - keep > 0 {
                    Some(Shift { drop: (h.len - keep) as i64, keep: keep as i64 })
                } else {
                    None
                }
            },
    {
        if n <= self.cap - self.len {
            return None;
        }
        let room: i64 = if n <= self.cap {
            self.cap - n
        } else {
            0
        };
        let most: i64 = if window <= self.len {
            window
        } else {
            self.len
        };
        let keep: i64 = if most <= room {
            most
        } else {
            room
        };
        let drop: i64 = self.len - keep;
        if drop > 0 {
            self.len = keep;
            self.start = self.start + drop;
            Some(Shift { drop, keep })
        } else {
            None
        }
    }

    /// Fold in `n` new places of the target, from `base` on. Of more than fit, the last ones are
    /// kept.
    pub fn fold(&mut self, n: i64, base: i64, window: i64) -> (r: Option<Fold>)
        requires
            old(self).inv(),
            0 <= n,
            0 <= window,
            0 <= base,
            base + n <= i64::MAX,
            old(self).held().start + old(self).held().len <= i64::MAX,
        ensures
            final(self).inv(),
            final(self).held() == folded(old(self).held(), n as int, base as int, window as int),
            match r {
                None => n == 0,
                Some(f) => {
                    let h = old(self).held();
                    let m = if n > h.cap {
                        h.cap
                    } else {
                        n as int
                    };
                    let keep = keeps(h, m, window as int);
                    &&& n > 0
                    &&& f.n == m
                    &&& f.skip == n - m
                    &&& f.base == base + (n - m)
                    &&& f.at == with_room(h, m, window as int).len
                    &&& f.shift == if h.len + m > h.cap && h.len - keep > 0 {
                        Some(Shift { drop: (h.len - keep) as i64, keep: keep as i64 })
                    } else {
                        None
                    }
                },
            },
    {
        if n == 0 {
            return None;
        }
        let m: i64 = if n > self.cap {
            self.cap
        } else {
            n
        };
        let b: i64 = base + (n - m);
        let shift = self.ensure_room(m, window);
        if self.len == 0 {
            self.start = b;
        }
        let at: i64 = self.len;
        self.len = self.len + m;
        Some(Fold { skip: n - m, n: m, base: b, at, shift })
    }
}

/// A window into which the target's places are folded one after another ends where the target
/// does, and holds all that the drafter can see: its sliding window, or everything since it was
/// empty.
pub proof fn windows_are_covered(h: Held, n: int, base: int, window: int)
    requires
        0 <= h.len <= h.cap,
        h.cap >= window,
        0 < n,
        0 <= window,
        h.len == 0 || base == h.start + h.len,
    ensures
        ({
            let f = folded(h, n, base, window);
            &&& f.start + f.len == base + n
            &&& f.len <= f.cap
            &&& f.len >= if window <= h.len + n {
                window
            } else {
                h.len + n
            }
            &&& h.len > 0 ==> f.start >= h.start
        }),
{
}

/// Whether a key at one place can be seen from another: it can, unless it is too old. No limit
/// where the window is not positive.
pub fn sees(query: i64, key: i64, window: i64) -> (r: bool)
    requires
        i64::MIN <= query - key <= i64::MAX,
    ensures
        r == (window <= 0 || query - key < window),
{
    window <= 0 || query - key < window
}

/// The windows of all slots.
pub struct DFlash2Batched {
    window: i64,
    caches: Vec<Option<DFlash2Cache>>,
}

/// The places that a slot's window holds, where the slot has one.
pub open spec fn slot_held(c: Option<DFlash2Cache>) -> Option<Held> {
    match c {
        Some(c) => Some(c.held()),
        None => None,
    }
}

/// The window of a slot that is used: its own, or a new one.
pub open spec fn used(slots: Seq<Option<Held>>, slot: int, window: int) -> Held {
    if slot < slots.len() && slots[slot] is Some {
        slots[slot]->0
    } else {
        Held { start: 0, len: 0, cap: window + 512 }
    }
}

/// The windows after one of them changed.
pub open spec fn with_slot(slots: Seq<Option<Held>>, slot: int, h: Held) -> Seq<Option<Held>> {
    Seq::new(
        if slot < slots.len() {
            slots.len()
        } else {
            (slot + 1) as nat
        },
        |i: int|
            if i == slot {
                Some(h)
            } else if i < slots.len() {
                slots[i]
            } else {
                None
            },
    )
}

impl DFlash2Batched {
    /// The windows.
    pub closed spec fn slots(&self) -> Seq<Option<Held>> {
        Seq::new(self.caches@.len(), |i: int| slot_held(self.caches@[i]))
    }

    /// How far the drafter looks back.
    pub closed spec fn window(&self) -> int {
        self.window as int
    }

    /// What the windows keep.
    pub closed spec fn inv(&self) -> bool {
        &&& 0 <= self.window <= i64::MAX - 512
        &&& forall|i: int| 0 <= i < self.caches@.len() ==> match #[trigger] self.caches@[i] {
            Some(c) => c.inv(),
            None => true,
        }
    }

    /// A window for each of `max_slots` slots, and for one at least.
    pub fn new(sliding_window: i64, max_slots: usize) -> (r: DFlash2Batched)
        requires
            0 <= sliding_window <= i64::MAX - 512,
        ensures
            r.inv(),
            r.window() == sliding_window,
            r.slots() == Seq::new(
                if max_slots >= 1 {
                    max_slots as nat
                } else {
                    1
                },
                |i: int| Some(Held { start: 0, len: 0, cap: sliding_window + 512 }),
            ),
    {
        let n: usize = if max_slots >= 1 {
            max_slots
        } else {
            1
        };
        let mut caches: Vec<Option<DFlash2Cache>> = Vec::new();
        while caches.len() < n
            invariant
                caches.len() <= n,
                0 <= sliding_window <= i64::MAX - 512,
                forall|i: int| 0 <= i < caches@.len() ==> slot_held(#[trigger] caches@[i]) == Some(
                    Held { start: 0, len: 0, cap: sliding_window + 512 },
                ),
            decreases n - caches.len(),
        {
            caches.push(Some(DFlash2Cache::new(sliding_window)));
        }
        let r = DFlash2Batched { window: sliding_window, caches };
        assert forall|i: int| 0 <= i < r.caches@.len() implies match #[trigger] r.caches@[i] {
            Some(c) => c.inv(),
            None => true,
        } by {
            assert(slot_held(r.caches@[i]) is Some);
        }
        assert(r.slots() =~= Seq::new(n as nat, |i: int| Some(Held { start: 0, len: 0, cap: sliding_window + 512 })));
        r
    }

    /// Fold new places of the target into the window of a slot, which gets one where it has
    /// none.
    pub fn ingest(&mut self, slot: usize, n: i64, base: i64) -> (r: Option<Fold>)
        requires
            old(self).inv(),
            slot < usize::MAX,
            0 <= n,
            0 <= base,
            base + n <= i64::MAX,
            used(old(self).slots(), slot as int, old(self).window()).start + used(
                old(self).slots(),
                slot as int,
                old(self).window(),
            ).len <= i64::MAX,
        ensures
            final(self).inv(),
            final(self).window() == old(self).window(),
            ({
                let h = used(old(self).slots(), slot as int, old(self).window());
                &&& final(self).slots() == with_slot(
                    old(self).slots(),
                    slot as int,
                    folded(h, n as int, base as int, old(self).window()),
                )
                &&& match r {
                    None => n == 0,
                    Some(f) => {
                        let m = if n > h.cap {
                            h.cap
                        } else {
                            n as int
                        };
                        &&& n > 0
                        &&& f.n == m
                        &&& f.skip == n - m
                        &&& f.base == base + (n - m)
                        &&& f.at == with_room(h, m, old(self).window()).len
                        &&& f.shift == {
                            let keep = keeps(h, m, old(self).window());
                            if h.len + m > h.cap && h.len - keep > 0 {
                                Some(Shift { drop: (h.len - keep) as i64, keep: keep as i64 })
                            } else {
                                None
                            }
                        }
                    },
                }
            }),
    {
        let ghost first = self.slots();
        while self.caches.len() <= slot
            invariant
                self.inv(),
                slot < usize::MAX,
                self.window == old(self).window,
                first == old(self).slots(),
                first.len() <= self.caches.len(),
                self.caches.len() <= slot + 1 || self.caches.len() == first.len(),
                forall|i: int|
                    0 <= i < self.caches@.len() ==> slot_held(#[trigger] self.caches@[i]) == if i < first.len() {
                        first[i]
                    } else {
                        None
                    },
            decreases slot + 1 - self.caches.len(),
        {
            self.caches.push(None);
        }
        let window: i64 = self.window;
        let mut c = match self.caches[slot].take() {
            Some(c) => c,
            None => DFlash2Cache::new(window),
        };
        let r = c.fold(n, base, window);
        self.caches[slot] = Some(c);
        assert(self.slots() =~= with_slot(
            first,
            slot as int,
            folded(used(first, slot as int, window as int), n as int, base as int, window as int),
        ));
        r
    }

    /// The window of a slot, where it has one.
    pub fn cache(&self, slot: usize) -> (r: Option<&DFlash2Cache>)
        requires
            self.inv(),
        ensures
            match r {
                Some(c) => slot < self.slots().len() && self.slots()[slot as int] == Some(c.held()) && c.inv(),
                None => slot < self.slots().len() ==> self.slots()[slot as int] is None,
            },
    {
        if slot < self.caches.len() {
            match &self.caches[slot] {
                Some(c) => Some(c),
                None => None,
            }
        } else {
            None
        }
    }

    /// Empty the window of a slot whose job is done.
    pub fn release(&mut self, slot: usize)
        requires
            old(self).inv(),
        ensures
            final(self).inv(),
            final(self).window() == old(self).window(),
            final(self).slots() == if slot < old(self).slots().len() && old(self).slots()[slot as int] is Some {
                old(self).slots().update(
                    slot as int,
                    Some(Held { start: 0, len: 0, ..old(self).slots()[slot as int]->0 }),
                )
            } else {
                old(self).slots()
            },
    {
        let ghost first = self.slots();
        if slot < self.caches.len() {
            match self.caches[slot].take() {
                Some(c) => {
                    let mut c = c;
                    c.reset();
                    self.caches[slot] = Some(c);
                    assert(self.slots() =~= first.update(
                        slot as int,
                        Some(Held { start: 0, len: 0, ..first[slot as int]->0 }),
                    ));
                },
                None => {
                    self.caches[slot] = None;
                    assert(self.slots() =~= first);
                },
            }
        }
    }
}

} // verus!
