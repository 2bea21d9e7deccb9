//! Keyframe gate for video sampling: a frame is taken (and becomes the
//! new keyframe) unless it is judged similar to the current keyframe.
//! Similarity (a structural-similarity threshold) is decided by the caller.
use vstd::prelude::*;

verus! {

/// Holds the last taken frame.
pub struct KeyframeGate<T> {
    last: Option<T>,
}

impl<T> KeyframeGate<T> {
    /// The current keyframe, if any.
    pub closed spec fn spec_keyframe(&self) -> Option<T> {
        self.last
    }

    pub fn new() -> (g: Self)
        ensures
            g.spec_keyframe() is None,
    {
        KeyframeGate { last: None }
    }

    /// The current keyframe, if any.
    pub fn keyframe(&self) -> (r: Option<&T>)
        ensures
            r is Some <==> self.spec_keyframe() is Some,
            r is Some ==> *r->0 == self.spec_keyframe()->0,
    {
        self.last.as_ref()
    }

    /// Offers `frame`; `similar` tells whether it matches the current
    /// keyframe. Returns `false` (skip, keyframe unchanged) when there is a
    /// keyframe and the frame is similar to it; otherwise takes the frame,
    /// which becomes the keyframe, and returns `true`.
    pub fn offer(&mut self, frame: T, similar: bool) -> (taken: bool)
        ensures
            taken == !(old(self).spec_keyframe() is Some && similar),
            taken ==> final(self).spec_keyframe() == Some(frame),
            !taken ==> final(self).spec_keyframe() == old(self).spec_keyframe(),
    {
        if self.last.is_some() && similar {
            false
        } else {
            self.last = Some(frame);
            true
        }
    }

    /// Forgets the keyframe, so the next frame is taken.
    pub fn reset(&mut self)
        ensures
            final(self).spec_keyframe() is None,
    {
        self.last = None;
    }
}

} // verus!
