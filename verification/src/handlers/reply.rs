use vstd::prelude::*;

verus! {

/// An HTTP answer: its status code and its body.
pub struct Reply<T> {
    pub status: u16,
    pub body: T,
}

} // verus!
