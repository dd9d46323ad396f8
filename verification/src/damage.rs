//! Damage tracking: the dirty screen regions of a frame, or the whole surface.

use vstd::prelude::*;

verus! {

/// Tracks dirty screen regions across frames. Regions are kept as given, in
/// the order they were added; a full invalidation supersedes them.
pub struct DamageTracker<R> {
    regions: Vec<R>,
    full_invalidation: bool,
}

impl<R> DamageTracker<R> {
    /// The recorded regions.
    pub closed spec fn recorded(&self) -> Seq<R> {
        self.regions@
    }

    /// Whether the whole surface is invalidated.
    pub closed spec fn full(&self) -> bool {
        self.full_invalidation
    }

    /// A tracker with no damage.
    pub fn new() -> (t: Self)
        ensures
            t.recorded().len() == 0,
            !t.full(),
    {
        DamageTracker { regions: Vec::new(), full_invalidation: false }
    }

    /// Mark the entire surface as needing redraw.
    pub fn invalidate_all(&mut self)
        ensures
            final(self).full(),
            final(self).recorded().len() == 0,
    {
        self.full_invalidation = true;
        self.regions.clear();
    }

    /// Add a damaged region; ignored once the whole surface is invalidated.
    pub fn add(&mut self, rect: R)
        ensures
            final(self).full() == old(self).full(),
            old(self).full() ==> final(self).recorded() == old(self).recorded(),
            !old(self).full() ==> final(self).recorded() == old(self).recorded().push(rect),
    {
        if !self.full_invalidation {
            self.regions.push(rect);
        }
    }

    /// The current damage regions, or `None` if the full surface is invalidated.
    pub fn regions(&self) -> (r: Option<&[R]>)
        ensures
            match r {
                Some(s) => !self.full() && s@ == self.recorded(),
                None => self.full(),
            },
    {
        if self.full_invalidation {
            None
        } else {
            Some(self.regions.as_slice())
        }
    }

    /// Whether the full surface needs redraw.
    pub fn is_full_invalidation(&self) -> (r: bool)
        ensures
            r == self.full(),
    {
        self.full_invalidation
    }

    /// Reset damage state for the next frame.
    pub fn reset(&mut self)
        ensures
            !final(self).full(),
            final(self).recorded().len() == 0,
    {
        self.regions.clear();
        self.full_invalidation = false;
    }
}

impl<R> Default for DamageTracker<R> {
    fn default() -> (t: Self)
        ensures
            t.recorded().len() == 0,
            !t.full(),
    {
        DamageTracker::new()
    }
}

} // verus!
