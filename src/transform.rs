//! Frame transforms and their composition.

use crate::frame::Frame;
use crate::media::MediaError;
use vstd::prelude::*;

verus! {

/// A stage that takes a frame and gives back a frame of the same shape and
/// timing, or fails.
pub trait Transform: Send {
    /// What this transform, in its present state, makes of `frame`.
    spec fn transformed(&self, frame: Frame) -> Result<Frame, MediaError>;

    fn apply(&mut self, frame: Frame) -> (r: Result<Frame, MediaError>)
        ensures
            r == old(self).transformed(frame),
            r is Ok ==> frame.keeps_shape(&r->Ok_0),
    ;

    fn name(&self) -> &'static str;
}

/// Two transforms run one after the other; chains nest to any length.
pub struct TransformChain<A, B> {
    pub first: A,
    pub second: B,
}

impl<A: Transform, B: Transform> TransformChain<A, B> {
    pub fn new(first: A, second: B) -> (r: Self)
        ensures
            r.first == first,
            r.second == second,
    {
        TransformChain { first, second }
    }
}

/// What running `first` and then `second` makes of `frame`: the first failure
/// is the chain's failure, unchanged.
pub open spec fn chained<A: Transform, B: Transform>(first: A, second: B, frame: Frame) -> Result<
    Frame,
    MediaError,
> {
    match first.transformed(frame) {
        Ok(mid) => second.transformed(mid),
        Err(e) => Err(e),
    }
}

impl<A: Transform, B: Transform> Transform for TransformChain<A, B> {
    open spec fn transformed(&self, frame: Frame) -> Result<Frame, MediaError> {
        chained(self.first, self.second, frame)
    }

    fn apply(&mut self, frame: Frame) -> (r: Result<Frame, MediaError>) {
        let ghost input = frame;
        match self.first.apply(frame) {
            Ok(mid) => {
                let ghost m = mid;
                let r = self.second.apply(mid);
                proof {
                    if r is Ok {
                        assert(input.keeps_shape(&m));
                        assert(m.keeps_shape(&r->Ok_0));
                    }
                }
                r
            },
            Err(e) => Err(e),
        }
    }

    fn name(&self) -> &'static str {
        "chain"
    }
}

/// A chain of two transforms does what the second does to the output of the
/// first, and fails where either fails.
pub proof fn lemma_chain_applies_in_order<A: Transform, B: Transform>(
    chain: TransformChain<A, B>,
    frame: Frame,
)
    ensures
        chain.transformed(frame) == match chain.first.transformed(frame) {
            Ok(mid) => chain.second.transformed(mid),
            Err(e) => Err(e),
        },
{
}

} // verus!
