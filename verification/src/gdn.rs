//! Gated delta-net layers: how a sequence is cut for the chunked form of the recurrence, and
//! which part of a slot's history a rewind restores.
use vstd::prelude::*;

verus! {

/// How many tokens a chunk has.
pub const CHUNK: i64 = 64;

/// From how many tokens on the chunked form is worth it.
pub const MIN_SEQ: i64 = 128;

/// How many chunks a sequence has, and by how many places the last one is filled up.
pub fn chunk_layout(s: i64) -> (r: (i64, i64))
    requires
        0 <= s <= i64::MAX - 63,
    ensures
        r.0 * 64 == s + r.1,
        0 <= r.1 < 64,
{
    let nc: i64 = (s + 63) / CHUNK;
    (nc, nc * CHUNK - s)
}

/// What a rewind does to a slot.
#[derive(Clone, Copy, Debug, PartialEq, Eq, Structural)]
pub struct Rewind {
    /// The recurrent snapshot that becomes the current one, where it is not already.
    pub snapshot: Option<i64>,
    /// Where in the history of the convolution the working window is taken from.
    pub window: i64,
}

/// What brings a slot back to the first `keep` of the `consumed` tokens of a pass that kept its
/// history. The history of the convolution holds `conv_k + max_history` columns, of which the
/// last `conv_k` are those of the last token.
pub fn gdn_rewind(conv_k: i64, max_history: i64, keep: i64, consumed: i64) -> (r: Rewind)
    requires
        conv_k >= 0,
        1 <= keep <= consumed <= max_history,
        conv_k + max_history <= i64::MAX,
    ensures
        r.snapshot == if keep < consumed {
            Some(keep)
        } else {
            None
        },
        r.window == max_history - (consumed - keep),
        0 <= r.window,
        r.window + conv_k <= conv_k + max_history,
{
    Rewind {
        snapshot: if keep < consumed {
            Some(keep)
        } else {
            None
        },
        window: max_history - (consumed - keep),
    }
}

} // verus!
