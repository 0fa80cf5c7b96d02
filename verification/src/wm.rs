//! The window-manager state that does not depend on the display server:
//! the stack of layers, the active one, and the viewport position.
//!
//! `layer_stack[0]` is the bottom layer, the last element the top layer;
//! the compositor renders the stack bottom-up and searches it top-down.

use vstd::prelude::*;

use crate::geometry::Point;
use crate::layer::Layer;

verus! {

/// The stack of layers and the viewport into them.
pub struct TerraWm {
    /// Layers in render order: index 0 is the bottom layer, the last
    /// element the top layer. New windows join the active layer.
    pub layer_stack: Vec<Layer>,
    pub active_layer: usize,
    /// The layer-coordinate position the monitor viewport is looking at.
    /// Windows live at fixed layer coordinates; translating the viewport
    /// moves the view, not the windows.
    pub view_offset: Point,
}

/// The index of the first layer whose windows include `window`.
pub open spec fn first_layer_with(members: Seq<Seq<u64>>, window: u64) -> Option<int>
    decreases members.len(),
{
    if members.len() == 0 {
        None
    } else {
        match first_layer_with(members.drop_last(), window) {
            Some(i) => Some(i),
            None => if members.last().contains(window) {
                Some(members.len() - 1)
            } else {
                None
            },
        }
    }
}

/// The hit of the topmost layer that has one.
pub open spec fn topmost<T>(hits: Seq<Option<T>>) -> Option<T>
    decreases hits.len(),
{
    if hits.len() == 0 {
        None
    } else if hits.last() is Some {
        hits.last()
    } else {
        topmost(hits.drop_last())
    }
}

impl TerraWm {
    /// The active layer index points into the stack.
    pub open spec fn wf(&self) -> bool {
        self.active_layer < self.layer_stack@.len()
    }

    /// One empty layer, active, with the viewport at the origin.
    pub fn new() -> (wm: TerraWm)
        ensures
            wm.wf(),
            wm.layer_stack@.len() == 1,
            wm.layer_stack@[0].minimized() == Map::<u64, Point>::empty(),
            wm.active_layer == 0,
            wm.view_offset == (Point { x: 0, y: 0 }),
    {
        let mut layer_stack: Vec<Layer> = Vec::new();
        layer_stack.push(Layer::new());
        TerraWm { layer_stack, active_layer: 0, view_offset: Point { x: 0, y: 0 } }
    }

    /// The layer that new windows join.
    pub fn active_layer_mut(&mut self) -> (layer: &mut Layer)
        requires
            old(self).wf(),
        ensures
            *layer == old(self).layer_stack@[old(self).active_layer as int],
            final(self).layer_stack@ == old(self).layer_stack@.update(
                old(self).active_layer as int,
                *final(layer),
            ),
            final(self).active_layer == old(self).active_layer,
            final(self).view_offset == old(self).view_offset,
    {
        &mut self.layer_stack[self.active_layer]
    }

    /// Index of the first layer holding the given window; `members` lists,
    /// for each layer bottom-up, the windows mapped on it.
    pub fn layer_of_surface(&self, members: &Vec<Vec<u64>>, window: u64) -> (layer: Option<usize>)
        ensures
            layer == (match first_layer_with(members@.map_values(|v: Vec<u64>| v@), window) {
                Some(i) => Some(i as usize),
                None => None::<usize>,
            }),
    {
        let ghost all = members@.map_values(|v: Vec<u64>| v@);
        let mut i: usize = 0;
        assert(all.take(0) =~= Seq::<Seq<u64>>::empty());
        while i < members.len()
            invariant
                i <= members@.len(),
                all == members@.map_values(|v: Vec<u64>| v@),
                first_layer_with(all.take(i as int), window) == None::<int>,
            decreases members@.len() - i,
        {
            assert(all.take(i as int + 1).drop_last() =~= all.take(i as int));
            let found = contains_id(&members[i], window);
            if found {
                assert(first_layer_with(all.take(i as int + 1), window) == Some(i as int));
                proof {
                    lemma_first_layer_extend(all, window, i as int + 1, i as int);
                }
                return Some(i);
            }
            i = i + 1;
        }
        assert(all.take(i as int) =~= all);
        None
    }

    /// The topmost hit when searching the layers top-down; `hits` holds,
    /// for each layer bottom-up, what lies under the point on that layer.
    pub fn surface_under<T>(&self, hits: Vec<Option<T>>) -> (hit: Option<T>)
        ensures
            hit == topmost(hits@),
    {
        let ghost all = hits@;
        let mut rest = hits;
        while rest.len() > 0
            invariant
                all == hits@,
                topmost(rest@) == topmost(all),
            decreases rest@.len(),
        {
            let ghost before = rest@;
            let last = rest.pop();
            assert(rest@ =~= before.drop_last());
            match last {
                Some(Some(h)) => {
                    assert(before.last() == Some(h));
                    assert(topmost(before) == Some(h));
                    return Some(h);
                },
                _ => {
                    assert(topmost(before) == topmost(before.drop_last()));
                },
            }
        }
        None
    }
}

/// Whether the ids include `window`.
fn contains_id(ids: &Vec<u64>, window: u64) -> (r: bool)
    ensures
        r == ids@.contains(window),
{
    let mut i: usize = 0;
    while i < ids.len()
        invariant
            i <= ids@.len(),
            forall|j: int| 0 <= j < i ==> ids@[j] != window,
        decreases ids@.len() - i,
    {
        if ids[i] == window {
            return true;
        }
        i = i + 1;
    }
    false
}

/// The first layer found in a prefix of the stack is the first one in the
/// whole stack.
proof fn lemma_first_layer_extend(members: Seq<Seq<u64>>, window: u64, k: int, i: int)
    requires
        0 <= k <= members.len(),
        first_layer_with(members.take(k), window) == Some(i),
    ensures
        first_layer_with(members, window) == Some(i),
    decreases members.len() - k,
{
    if k == members.len() {
        assert(members.take(k) =~= members);
    } else {
        assert(members.take(k + 1).drop_last() =~= members.take(k));
        lemma_first_layer_extend(members, window, k + 1, i);
    }
}

/// The top-down search answers the hit of the highest layer that has one:
/// every layer above it has none, a hit on the top layer always wins, and
/// there is no answer exactly when no layer has a hit.
pub proof fn lemma_topmost_is_highest_hit<T>(hits: Seq<Option<T>>)
    ensures
        topmost(hits) matches Some(h) ==> exists|i: int|
            0 <= i < hits.len() && hits[i] == Some(h) && forall|j: int| i < j < hits.len() ==> #[trigger] hits[j] is None,
        topmost(hits) is None <==> forall|j: int| 0 <= j < hits.len() ==> #[trigger] hits[j] is None,
        hits.len() > 0 && hits.last() is Some ==> topmost(hits) == hits.last(),
    decreases hits.len(),
{
    if hits.len() > 0 {
        let prefix = hits.drop_last();
        lemma_topmost_is_highest_hit(prefix);
        let last = hits.len() - 1;
        assert forall|j: int| 0 <= j < last implies prefix[j] == hits[j] by {}
        if hits.last() is Some {
            let h = hits.last()->0;
            assert(hits[last] == Some(h));
            assert(forall|j: int| last < j < hits.len() ==> #[trigger] hits[j] is None);
        } else {
            if let Some(h) = topmost(prefix) {
                let i = choose|i: int|
                    0 <= i < prefix.len() && prefix[i] == Some(h) && forall|j: int| i < j < prefix.len() ==> #[trigger] prefix[j] is None;
                assert(hits[i] == Some(h));
                assert forall|j: int| i < j < hits.len() implies #[trigger] hits[j] is None by {
                    if j < last {
                        assert(prefix[j] is None);
                    }
                }
            }
        }
        if topmost(hits) is None {
            assert forall|j: int| 0 <= j < hits.len() implies #[trigger] hits[j] is None by {
                if j < last {
                    assert(prefix[j] is None);
                }
            }
        } else if forall|j: int| 0 <= j < hits.len() ==> #[trigger] hits[j] is None {
            assert(hits[last] is None);
            assert forall|j: int| 0 <= j < prefix.len() implies #[trigger] prefix[j] is None by {
                assert(hits[j] is None);
            }
        }
    }
}

/// The layer found for a window is the lowest one holding it: it holds
/// the window and no layer below it does; no layer is found exactly when
/// none holds it.
pub proof fn lemma_first_layer_is_lowest(members: Seq<Seq<u64>>, window: u64)
    ensures
        first_layer_with(members, window) matches Some(i) ==> {
            &&& 0 <= i < members.len()
            &&& members[i].contains(window)
            &&& forall|j: int| 0 <= j < i ==> !(#[trigger] members[j]).contains(window)
        },
        first_layer_with(members, window) is None <==> forall|j: int|
            0 <= j < members.len() ==> !(#[trigger] members[j]).contains(window),
    decreases members.len(),
{
    if members.len() > 0 {
        let prefix = members.drop_last();
        lemma_first_layer_is_lowest(prefix, window);
        let last = members.len() - 1;
        assert forall|j: int| 0 <= j < last implies prefix[j] == members[j] by {}
        if first_layer_with(members, window) is None {
            assert forall|j: int| 0 <= j < members.len() implies !(#[trigger] members[j]).contains(window) by {
                if j < last {
                    assert(!prefix[j].contains(window));
                }
            }
        } else if forall|j: int| 0 <= j < members.len() ==> !(#[trigger] members[j]).contains(window) {
            assert(!members[last].contains(window));
            assert forall|j: int| 0 <= j < prefix.len() implies !(#[trigger] prefix[j]).contains(window) by {
                assert(!members[j].contains(window));
            }
        }
        if let Some(i) = first_layer_with(members, window) {
            if i < last {
                assert forall|j: int| 0 <= j < i implies !(#[trigger] members[j]).contains(window) by {
                    assert(!prefix[j].contains(window));
                }
            } else {
                assert forall|j: int| 0 <= j < i implies !(#[trigger] members[j]).contains(window) by {
                    assert(!prefix[j].contains(window));
                }
            }
        }
    }
}

} // verus!
