//! Attention: which kernel a layer runs for its keys and values.
use vstd::prelude::*;
use crate::arith::{divide, quotient};

verus! {

/// Where a layer has its keys and values.
#[derive(Clone, Copy, Debug, PartialEq, Eq, Structural)]
pub enum KvSource {
    /// Nowhere: only those of this pass count.
    NoCache,
    Paged,
    /// Packed in pages, with so many words and groups for each token. `scratch` where the caller
    /// has room to unpack them all.
    PagedQuant { words: i64, groups: i64, scratch: bool },
}

/// What a layer runs.
#[derive(Clone, Copy, Debug, PartialEq, Eq, Structural)]
pub enum AttnPath {
    /// Over this pass alone.
    Single,
    /// Store, then attend over the pages.
    Paged,
    /// Pack and store, unpack everything to the caller's scratch, then attend.
    Scratch,
    /// Attend on the packed pages directly.
    Online,
    /// Pack and store, unpack the pages of the batch to a window, then attend.
    Window,
}

/// Whether a kernel attends on packed pages directly: it is made for these widths, and there is
/// more than one query to share the work for.
pub open spec fn online(force_window: bool, head_dim: int, bits: int, q_len: int) -> bool {
    !force_window && (head_dim == 128 || head_dim == 256) && (bits == 4 || bits == 6 || bits == 8) && q_len > 1
}

/// What a layer runs for `q_len` queries.
pub open spec fn path_of(src: KvSource, force_window: bool, head_dim: int, q_len: int) -> AttnPath {
    match src {
        KvSource::NoCache => AttnPath::Single,
        KvSource::Paged => AttnPath::Paged,
        KvSource::PagedQuant { words, groups, scratch } => if scratch {
            AttnPath::Scratch
        } else if online(force_window, head_dim, quotient(words as int, groups as int), q_len) {
            AttnPath::Online
        } else {
            AttnPath::Window
        },
    }
}

/// What a layer runs for `q_len` queries.
pub fn choose_path(src: KvSource, force_window: bool, head_dim: i64, q_len: i64) -> (r: AttnPath)
    requires
        src matches KvSource::PagedQuant { words, groups, scratch } ==> groups != 0 && (words != i64::MIN || groups
            != -1),
    ensures
        r == path_of(src, force_window, head_dim as int, q_len as int),
{
    match src {
        KvSource::NoCache => AttnPath::Single,
        KvSource::Paged => AttnPath::Paged,
        KvSource::PagedQuant { words, groups, scratch } => {
            if scratch {
                return AttnPath::Scratch;
            }
            let bits: i64 = divide(words, groups);
            if !force_window && (head_dim == 128 || head_dim == 256) && (bits == 4 || bits == 6 || bits == 8)
                && q_len > 1 {
                AttnPath::Online
            } else {
                AttnPath::Window
            }
        },
    }
}

/// How wide the query projection is: with a gate, each head has as much again.
pub fn query_width(num_q_heads: i64, head_dim: i64, gate: bool) -> (r: i64)
    requires
        0 <= num_q_heads,
        0 <= head_dim,
        num_q_heads * head_dim * 2 <= i64::MAX,
    ensures
        r == num_q_heads * head_dim * if gate {
            2int
        } else {
            1int
        },
{
    assert(0 <= num_q_heads * head_dim) by (nonlinear_arith)
        requires
            0 <= num_q_heads,
            0 <= head_dim,
    ;
    if gate {
        num_q_heads * head_dim * 2
    } else {
        num_q_heads * head_dim
    }
}

/// Packed pages of so many bits are attended on directly exactly where a kernel is made for them:
/// heads of 128 or 256 values of four, six or eight bits each, and more than one query; and never
/// where the window is forced or there is room to unpack everything.
pub proof fn packed_pages_are_attended_directly_where_a_kernel_is(
    bits: int,
    groups: i64,
    words: i64,
    scratch: bool,
    force_window: bool,
    head_dim: int,
    q_len: int,
)
    requires
        0 < groups,
        0 <= bits,
        words == bits * groups,
    ensures
        ({
            let r = path_of(KvSource::PagedQuant { words, groups, scratch }, force_window, head_dim, q_len);
            &&& scratch <==> r == AttnPath::Scratch
            &&& r == AttnPath::Online <==> !scratch && !force_window && q_len > 1 && (head_dim == 128 || head_dim == 256) && (
            bits == 4 || bits == 6 || bits == 8)
            &&& r == AttnPath::Scratch || r == AttnPath::Online || r == AttnPath::Window
        }),
{
    vstd::arithmetic::div_mod::lemma_div_multiples_vanish(bits, groups as int);
    assert(groups * bits == words) by (nonlinear_arith)
        requires
            words == bits * groups,
    ;
    assert(0 <= words);
}

} // verus!
