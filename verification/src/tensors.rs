//! The tensors of a checkpoint, by name.
use vstd::prelude::*;
use crate::json::same_text;
use crate::text::{copy_chars, push_text, string_of};

verus! {

/// A tensor of a checkpoint: its name, and how long its first three dimensions are; one where it has
/// fewer.
pub struct TensorInfo {
    pub name: String,
    pub rows: i64,
    pub cols: i64,
    pub depth: i64,
}

/// From which place on the tensor of this name stands first.
pub open spec fn place(infos: Seq<TensorInfo>, name: Seq<char>, i: int) -> int
    decreases infos.len() - i,
{
    if i >= infos.len() || infos[i].name@ == name {
        i
    } else {
        place(infos, name, i + 1)
    }
}

/// Whether there is a tensor of this name.
pub open spec fn present(infos: Seq<TensorInfo>, name: Seq<char>) -> bool {
    exists|i: int| 0 <= i < infos.len() && #[trigger] infos[i].name@ == name
}

/// The tensor of this name.
pub open spec fn info_of(infos: Seq<TensorInfo>, name: Seq<char>) -> TensorInfo {
    infos[place(infos, name, 0)]
}

pub proof fn lemma_place(infos: Seq<TensorInfo>, name: Seq<char>, i: int)
    requires
        0 <= i <= infos.len(),
    ensures
        i <= place(infos, name, i) <= infos.len(),
        place(infos, name, i) < infos.len() ==> infos[place(infos, name, i)].name@ == name,
        forall|j: int| i <= j < place(infos, name, i) ==> #[trigger] infos[j].name@ != name,
    decreases infos.len() - i,
{
    if i < infos.len() && infos[i].name@ != name {
        lemma_place(infos, name, i + 1);
    }
}

/// Where the tensor of this name stands first.
pub fn find(infos: &Vec<TensorInfo>, name: &str) -> (r: Option<usize>)
    ensures
        match r {
            Some(i) => present(infos@, name@) && i < infos.len() && i == place(infos@, name@, 0),
            None => !present(infos@, name@),
        },
{
    proof {
        lemma_place(infos@, name@, 0);
    }
    let mut i: usize = 0;
    while i < infos.len()
        invariant
            i <= infos.len(),
            place(infos@, name@, 0) == place(infos@, name@, i as int),
            forall|j: int| 0 <= j < i ==> #[trigger] infos@[j].name@ != name@,
        decreases infos.len() - i,
    {
        if same_text(infos[i].name.as_str(), name) {
            return Some(i);
        }
        i = i + 1;
    }
    None
}

/// A name: a key, and more.
pub fn name_with(key: &Vec<char>, more: &str) -> (r: String)
    ensures
        r@ == key@ + more@,
{
    let mut out = copy_chars(key, 0, key.len());
    assert(out@ =~= key@);
    push_text(&mut out, more);
    string_of(&out)
}

} // verus!
