use vstd::prelude::*;

verus! {

/// A byte-level acceptor: `step` consumes one byte, `can_end` reports whether the
/// current state is a valid stopping point.
pub trait ByteAcceptor: Clone {
    /// What every state obeys.
    spec fn inv(&self) -> bool;

    /// Whether the bytes of `w` can be consumed one after another.
    spec fn accepts(&self, w: Seq<u8>) -> bool;

    /// Whether the state is a valid stopping point.
    spec fn ends(&self) -> bool;

    /// The state after `byte`, or `None` where it is rejected.
    fn step(&self, byte: u8) -> (r: Option<Self>)
        requires
            self.inv(),
        ensures
            match r {
                Some(n) => {
                    &&& n.inv()
                    &&& self.accepts(seq![byte])
                    &&& forall|w: Seq<u8>| #[trigger] n.accepts(w) == self.accepts(seq![byte] + w)
                },
                None => forall|w: Seq<u8>| !#[trigger] self.accepts(seq![byte] + w),
            },
    ;

    /// Whether the state is a valid stopping point.
    fn can_end(&self) -> (r: bool)
        requires
            self.inv(),
        ensures
            r == self.ends(),
    ;
}

} // verus!
