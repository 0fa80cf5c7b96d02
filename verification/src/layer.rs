//! Per-layer window bookkeeping: the cascade placement of new windows and
//! the minimized windows with the positions they are restored to.
//!
//! A layer is an infinite 2D plane whose windows are stacked labwc-style.
//! The compositor keeps the stacking itself; this type decides where a new
//! window goes and remembers minimized windows (by id) and where they were.

use std::collections::HashMap;

use vstd::prelude::*;

use crate::geometry::Point;

verus! {

broadcast use vstd::std_specs::hash::group_hash_axioms;

/// The minimized windows of a layer and their saved positions.
pub struct Layer {
    minimized: HashMap<u64, Point>,
}

/// The cascade offset of the `n`-th window: 24 pixels per window,
/// restarting every 10 windows.
pub open spec fn cascade_offset(mapped: int) -> int {
    24 * (mapped % 10)
}

impl Layer {
    /// The minimized windows and where each one was when minimized.
    pub closed spec fn minimized(&self) -> Map<u64, Point> {
        self.minimized@
    }

    /// A layer with no minimized window.
    pub fn new() -> (l: Layer)
        ensures
            l.minimized() == Map::<u64, Point>::empty(),
    {
        Layer { minimized: HashMap::new() }
    }

    /// Where a new window goes, labwc-style: cascaded from the top-left
    /// corner, 24px per window already mapped, restarting every 10 windows.
    /// The compositor maps it there, activated.
    pub fn add_window(&self, mapped: usize) -> (loc: Point)
        requires
            mapped <= i32::MAX,
        ensures
            loc.x == cascade_offset(mapped as int),
            loc.y == cascade_offset(mapped as int),
    {
        let offset = 24 * (mapped as i32 % 10);
        Point { x: offset, y: offset }
    }

    /// Forget the windows that are gone (`dead`).
    pub fn cleanup(&mut self, dead: &Vec<u64>)
        ensures
            final(self).minimized() == old(self).minimized().remove_keys(dead@.to_set()),
    {
        let mut i: usize = 0;
        while i < dead.len()
            invariant
                i <= dead@.len(),
                self.minimized@ == old(self).minimized@.remove_keys(dead@.take(i as int).to_set()),
            decreases dead@.len() - i,
        {
            assert(vstd::std_specs::hash::obeys_key_model::<u64>());
            let w = dead[i];
            self.minimized.remove(&w);
            i = i + 1;
            assert(dead@.take(i as int).to_set() =~= dead@.take(i as int - 1).to_set().insert(w)) by {
                assert(dead@.take(i as int) =~= dead@.take(i as int - 1).push(w));
                dead@.take(i as int - 1).lemma_push_to_set_commute(w);
            }
            assert(self.minimized@ =~= old(self).minimized@.remove_keys(dead@.take(i as int).to_set()));
        }
        assert(dead@.take(i as int) =~= dead@);
    }

    /// Minimize a window mapped at `location` (`None` when it is not
    /// mapped): remember where it was and answer `true`, upon which the
    /// compositor unmaps it. A window already minimized, or not mapped, is
    /// left alone and the answer is `false`.
    pub fn minimize(&mut self, window: u64, location: Option<Point>) -> (unmap: bool)
        ensures
            unmap == (!old(self).minimized().contains_key(window) && location is Some),
            final(self).minimized() == (if unmap {
                old(self).minimized().insert(window, location->0)
            } else {
                old(self).minimized()
            }),
    {
        assert(vstd::std_specs::hash::obeys_key_model::<u64>());
        if self.minimized.contains_key(&window) {
            return false;
        }
        match location {
            Some(loc) => {
                self.minimized.insert(window, loc);
                true
            },
            None => false,
        }
    }

    /// Restore a minimized window: forget it and answer where it was, upon
    /// which the compositor maps it there (not activated). `None` when the
    /// window is not minimized.
    pub fn unminimize(&mut self, window: u64) -> (restore: Option<Point>)
        ensures
            restore == (if old(self).minimized().contains_key(window) {
                Some(old(self).minimized()[window])
            } else {
                None::<Point>
            }),
            final(self).minimized() == old(self).minimized().remove(window),
    {
        assert(vstd::std_specs::hash::obeys_key_model::<u64>());
        self.minimized.remove(&window)
    }

    /// Whether a window is minimized.
    pub fn is_minimized(&self, window: u64) -> (r: bool)
        ensures
            r == self.minimized().contains_key(window),
    {
        assert(vstd::std_specs::hash::obeys_key_model::<u64>());
        self.minimized.contains_key(&window)
    }
}

impl Default for Layer {
    /// A layer with no minimized window.
    fn default() -> (l: Layer)
        ensures
            l.minimized() == Map::<u64, Point>::empty(),
    {
        Layer::new()
    }
}

/// Minimizing a window that was not minimized and then restoring it gives
/// back the position it was minimized at and leaves the minimized set as
/// it was before.
pub proof fn lemma_minimize_then_unminimize(m: Map<u64, Point>, window: u64, loc: Point)
    requires
        !m.contains_key(window),
    ensures
        m.insert(window, loc).contains_key(window),
        m.insert(window, loc)[window] == loc,
        m.insert(window, loc).remove(window) == m,
{
    assert(m.insert(window, loc).remove(window) =~= m);
}

/// The cascade stays within the first 10 steps: offsets run from 0 to 216
/// pixels and repeat every 10 windows.
pub proof fn lemma_cascade_bounded(mapped: int)
    requires
        mapped >= 0,
    ensures
        0 <= cascade_offset(mapped) <= 216,
        cascade_offset(mapped + 10) == cascade_offset(mapped),
{
    assert((mapped + 10) % 10 == mapped % 10);
}

/// Each new window of a cascade lands 24 pixels right of and below the
/// previous one, and every tenth window starts over at the corner.
pub proof fn lemma_cascade_steps(mapped: int)
    requires
        mapped >= 0,
    ensures
        cascade_offset(0) == 0,
        mapped % 10 != 9 ==> cascade_offset(mapped + 1) == cascade_offset(mapped) + 24,
        mapped % 10 == 9 ==> cascade_offset(mapped + 1) == 0,
{
    assert((mapped + 1) % 10 == (if mapped % 10 == 9 { 0 } else { mapped % 10 + 1 }));
}

} // verus!
