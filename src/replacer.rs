use vstd::prelude::*;
use crate::common::FrameId;

verus! {

/// A policy that tracks the frames that may be evicted and picks one to reclaim.
pub trait Replacer {
    /// The frames currently eligible for eviction.
    spec fn evictable(&self) -> Set<FrameId>;

    /// The policy's internal consistency.
    spec fn inv(&self) -> bool;

    /// Removes and returns a frame chosen by the policy, or `None` when no frame is eligible.
    fn victim(&mut self) -> (r: Option<FrameId>)
        requires
            old(self).inv(),
        ensures
            final(self).inv(),
            r is None <==> old(self).evictable().is_empty(),
            r is None ==> final(self).evictable() == old(self).evictable(),
            r matches Some(f) ==> old(self).evictable().contains(f) && final(self).evictable()
                == old(self).evictable().remove(f),
    ;

    /// Makes a frame ineligible for eviction; nothing happens if it was not tracked.
    fn pin(&mut self, frame_id: FrameId)
        requires
            old(self).inv(),
        ensures
            final(self).inv(),
            final(self).evictable() == old(self).evictable().remove(frame_id),
    ;

    /// Makes a frame eligible for eviction; nothing happens if it already was.
    fn unpin(&mut self, frame_id: FrameId)
        requires
            old(self).inv(),
        ensures
            final(self).inv(),
            final(self).evictable() == old(self).evictable().insert(frame_id),
    ;

    /// The number of frames eligible for eviction.
    fn size(&self) -> (r: usize)
        requires
            self.inv(),
        ensures
            self.evictable().finite(),
            r == self.evictable().len(),
    ;
}

} // verus!
