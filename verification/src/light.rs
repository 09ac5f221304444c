//! When the lit preview has to be shaded again.

use vstd::prelude::*;

verus! {

/// What the lit preview last saw.
pub struct Freshness {
    /// Bumped by the app whenever the maps behind the preview change.
    pub seen_revision: u64,
    /// Was the normal map generated with a flipped green channel?
    pub flip_y: bool,
    pub dirty: bool,
}

impl Default for Freshness {
    fn default() -> (f: Freshness)
        ensures
            f == (Freshness { seen_revision: u64::MAX, flip_y: false, dirty: true }),
    {
        Freshness { seen_revision: u64::MAX, flip_y: false, dirty: true }
    }
}

impl Freshness {
    /// Look at what is to be lit: anything that moved makes the preview stale.
    pub fn look(&mut self, revision: u64, flip_y: bool)
        ensures
            *final(self) == (Freshness {
                seen_revision: revision,
                flip_y,
                dirty: old(self).dirty || old(self).seen_revision != revision || old(self).flip_y
                    != flip_y,
            }),
    {
        if self.seen_revision != revision {
            self.seen_revision = revision;
            self.dirty = true;
        }
        if self.flip_y != flip_y {
            self.flip_y = flip_y;
            self.dirty = true;
        }
    }

    /// A knob of the light itself has moved.
    pub fn touch(&mut self)
        ensures
            *final(self) == (Freshness { dirty: true, ..*old(self) }),
    {
        self.dirty = true;
    }

    /// Does the preview have to be shaded now? `shaded` says that there is a
    /// picture to show at all.
    pub fn take(&mut self, shaded: bool) -> (stale: bool)
        ensures
            stale == (old(self).dirty || !shaded),
            *final(self) == (Freshness { dirty: false, ..*old(self) }),
    {
        let stale: bool = self.dirty || !shaded;
        self.dirty = false;
        stale
    }
}

} // verus!
