//! Tiling layout engine: a horizontal row of windows in layer coordinates.
//!
//! Width policy: each piece is
//! `clamp(viewport_width / count, client_min, smallest_monitor_width)`: a
//! tile never outgrows the smallest monitor, so it fits on any of them as
//! the layer is shown on all monitors. When many
//! windows hit their minimum width the row grows past the viewport; the
//! extra is revealed by translating the viewport, never by moving windows.

use vstd::prelude::*;

use crate::geometry::{Point, Rectangle, Size};

verus! {

/// `v` clamped into `[lo, hi]`.
pub open spec fn clamp_spec(v: int, lo: int, hi: int) -> int {
    if v < lo {
        lo
    } else if v > hi {
        hi
    } else {
        v
    }
}

/// The width of one piece: the equal share, at least the client's minimum
/// and at most the cap (the smallest monitor width).
pub fn equal_share(share: i32, min_w: i32, cap_w: i32) -> (w: i32)
    requires
        min_w <= cap_w,
    ensures
        w == clamp_spec(share as int, min_w as int, cap_w as int),
{
    if share < min_w {
        min_w
    } else if share > cap_w {
        cap_w
    } else {
        share
    }
}

/// The sum of the first `k` widths.
pub open spec fn prefix_sum(s: Seq<i32>, k: int) -> int
    decreases k,
{
    if k <= 0 {
        0
    } else {
        prefix_sum(s, k - 1) + s[k - 1]
    }
}

/// Every running total of the row fits in an `i32`.
pub open spec fn row_fits(s: Seq<i32>) -> bool {
    forall|k: int| 0 <= k <= s.len() ==> i32::MIN <= #[trigger] prefix_sum(s, k) <= i32::MAX
}

/// The rectangle of the `i`-th piece of a row: it starts where the pieces
/// before it end, at the top of the layer, and spans the viewport height.
pub open spec fn row_rect(s: Seq<i32>, i: int, h: i32) -> Rectangle {
    Rectangle { loc: Point { x: prefix_sum(s, i) as i32, y: 0 }, size: Size { w: s[i], h } }
}

/// Lay the widths out left to right from `x = 0`; each rectangle has the
/// viewport height.
pub fn row_positions(widths: &[i32], viewport_h: i32) -> (rects: Vec<Rectangle>)
    requires
        row_fits(widths@),
    ensures
        rects@.len() == widths@.len(),
        forall|i: int| 0 <= i < widths@.len() ==> rects@[i] == row_rect(widths@, i, viewport_h),
{
    let mut x: i32 = 0;
    let mut rects: Vec<Rectangle> = Vec::new();
    let mut i: usize = 0;
    while i < widths.len()
        invariant
            i <= widths@.len(),
            x == prefix_sum(widths@, i as int),
            rects@.len() == i,
            row_fits(widths@),
            forall|j: int| 0 <= j < i ==> rects@[j] == row_rect(widths@, j, viewport_h),
        decreases widths@.len() - i,
    {
        let w = widths[i];
        rects.push(Rectangle::new(Point::new(x, 0), Size::new(w, viewport_h)));
        assert(i32::MIN <= prefix_sum(widths@, i as int + 1) <= i32::MAX);
        x = x + w;
        i = i + 1;
    }
    rects
}

} // verus!

verus! {

/// The direction in which the row of tiles grows. Only `Horizontal` is laid
/// out; the others are reserved for vertical and grid layouts.
#[derive(Clone, Copy, Debug, PartialEq, Eq, Structural)]
pub enum Direction {
    Horizontal,
    Vertical,
    Grid,
}

/// What the compositor does with one window after a relayout: map it at
/// the rectangle's corner (raised and activated when `activate` holds, which
/// is the case for the focused window only), and configure it to the
/// rectangle's size in the activated state.
#[derive(Clone, Copy, Debug, PartialEq, Eq, Structural)]
pub struct Placement {
    pub window: u64,
    pub rect: Rectangle,
    pub activate: bool,
}

/// One tile: a window (by its id) and the width it is given.
#[derive(Clone, Copy)]
struct Slot {
    window: u64,
    width: i32,
}

/// The tiled windows of a layer, left to right, with the focused one.
pub struct TilingLayout {
    windows: Vec<Slot>,
    focused: Option<usize>,
    direction: Direction,
}

/// `max(viewport_w / count, 1)`: the equal share of the viewport width.
pub open spec fn share_of(count: int, viewport_w: int) -> int {
    if viewport_w / count < 1 {
        1
    } else {
        viewport_w / count
    }
}

/// The widths that a rebalance gives to windows with the given minimum
/// widths: each is the equal share of the viewport width clamped into
/// `[min, cap_w]`, where the cap is the smallest monitor width.
pub open spec fn rebalanced(mins: Seq<i32>, viewport_w: i32, cap_w: i32) -> Seq<i32> {
    Seq::new(
        mins.len(),
        |i: int| clamp_spec(share_of(mins.len() as int, viewport_w as int), mins[i] as int, cap_w as int) as i32,
    )
}

/// Client minimum widths that a rebalance can honour: each at least one
/// and at most the cap (the smallest monitor width).
pub open spec fn mins_ok(mins: Seq<i32>, cap_w: i32) -> bool {
    forall|i: int| 0 <= i < mins.len() ==> 1 <= #[trigger] mins[i] <= cap_w
}

/// Client minimum widths as the compositor reads them: at least one.
pub open spec fn mins_positive(mins: Seq<i32>) -> bool {
    forall|i: int| 0 <= i < mins.len() ==> 1 <= #[trigger] mins[i]
}

/// The index of the first occurrence of `w` in `s`.
pub open spec fn first_index(s: Seq<u64>, w: u64) -> Option<int>
    decreases s.len(),
{
    if s.len() == 0 {
        None
    } else {
        match first_index(s.drop_last(), w) {
            Some(i) => Some(i),
            None => if s.last() == w {
                Some(s.len() - 1)
            } else {
                None
            },
        }
    }
}

/// Where `add` inserts a new window: right after the focused one, or at
/// the end when nothing is focused.
pub open spec fn insert_index(focused: Option<int>, len: int) -> int {
    match focused {
        Some(f) => f + 1,
        None => len,
    }
}

/// The window that compensates a resize: the left neighbour when the left
/// edge is dragged, the right neighbour otherwise.
pub open spec fn neighbor_of(i: int, len: int, left_edge: bool) -> Option<int> {
    if left_edge {
        if i >= 1 {
            Some(i - 1)
        } else {
            None
        }
    } else {
        if i + 1 < len {
            Some(i + 1)
        } else {
            None
        }
    }
}

/// The resized window and its compensating neighbour, when both exist.
pub open spec fn resize_target(ids: Seq<u64>, window: u64, left_edge: bool) -> Option<(int, int)> {
    match first_index(ids, window) {
        Some(i) => match neighbor_of(i, ids.len() as int, left_edge) {
            Some(n) => Some((i, n)),
            None => None,
        },
        None => None,
    }
}

/// `max(a, b)`.
pub open spec fn max_spec(a: int, b: int) -> int {
    if a < b {
        b
    } else {
        a
    }
}

/// The neighbour's width after a resize, before its own minimum applies:
/// it gives up exactly what the resized window gained.
pub open spec fn compensated(widths: Seq<i32>, i: int, n: int, new_width: i32, min_i: i32) -> int {
    widths[n] - (max_spec(new_width as int, min_i as int) - widths[i])
}

/// The widths after resizing tile `i` to `new_width` (at least its minimum)
/// with tile `n` compensating (down to its minimum).
pub open spec fn resized_widths(
    widths: Seq<i32>,
    i: int,
    n: int,
    new_width: i32,
    min_i: i32,
    min_n: i32,
) -> Seq<i32> {
    widths.update(i, max_spec(new_width as int, min_i as int) as i32).update(
        n,
        max_spec(compensated(widths, i, n, new_width, min_i), min_n as int) as i32,
    )
}

/// The items of `s` whose flag in `alive` is set, in order.
pub open spec fn kept<T>(s: Seq<T>, alive: Seq<bool>) -> Seq<T>
    decreases s.len(),
{
    if s.len() == 0 || alive.len() == 0 {
        Seq::empty()
    } else {
        let prev = kept(s.drop_last(), alive.drop_last());
        if alive.last() {
            prev.push(s.last())
        } else {
            prev
        }
    }
}

/// The focus after windows were removed: kept when still in range, else
/// moved to the last window, or cleared when none is left.
pub open spec fn refocused(focused: Option<int>, len: int) -> Option<int> {
    match focused {
        Some(f) => if f >= len {
            if len == 0 {
                None
            } else {
                Some(len - 1)
            }
        } else {
            Some(f)
        },
        None => None,
    }
}

impl TilingLayout {
    /// The window ids, left to right.
    pub closed spec fn ids(&self) -> Seq<u64> {
        self.windows@.map_values(|s: Slot| s.window)
    }

    /// The tile widths, left to right.
    pub closed spec fn widths(&self) -> Seq<i32> {
        self.windows@.map_values(|s: Slot| s.width)
    }

    /// The index of the focused window.
    pub closed spec fn focused(&self) -> Option<int> {
        match self.focused {
            Some(f) => Some(f as int),
            None => None,
        }
    }

    pub closed spec fn direction(&self) -> Direction {
        self.direction
    }

    /// The layout's invariant: one width per window, each at least one,
    /// a row whose running totals fit in `i32`, and a focus in range.
    pub open spec fn wf(&self) -> bool {
        &&& self.widths().len() == self.ids().len()
        &&& self.ids().len() <= i32::MAX
        &&& forall|i: int| 0 <= i < self.widths().len() ==> 1 <= #[trigger] self.widths()[i]
        &&& row_fits(self.widths())
        &&& match self.focused() {
            Some(f) => 0 <= f < self.ids().len(),
            None => true,
        }
    }

    /// Where a relayout puts each window: the row of tiles, left to right,
    /// with only the focused window activated.
    pub open spec fn layout(&self, viewport_h: i32) -> Seq<Placement> {
        Seq::new(
            self.ids().len(),
            |i: int|
                Placement {
                    window: self.ids()[i],
                    rect: row_rect(self.widths(), i, viewport_h),
                    activate: self.focused() == Some(i),
                },
        )
    }

    proof fn lemma_views(&self)
        ensures
            self.ids().len() == self.windows@.len(),
            self.widths().len() == self.windows@.len(),
            forall|i: int|
                0 <= i < self.windows@.len() ==> #[trigger] self.ids()[i] == self.windows@[i].window
                    && self.widths()[i] == self.windows@[i].width,
    {
    }

    /// An empty horizontal layout with nothing focused.
    pub fn new() -> (t: TilingLayout)
        ensures
            t.wf(),
            t.ids() == Seq::<u64>::empty(),
            t.focused() == None::<int>,
            t.direction() == Direction::Horizontal,
    {
        let t = TilingLayout { windows: Vec::new(), focused: None, direction: Direction::Horizontal };
        assert(t.widths() =~= Seq::<i32>::empty());
        assert(row_fits(t.widths())) by {
            assert forall|k: int| 0 <= k <= t.widths().len() implies i32::MIN <= #[trigger] prefix_sum(
                t.widths(),
                k,
            ) <= i32::MAX by {
                assert(k == 0);
            }
        }
        assert(t.ids() =~= Seq::<u64>::empty());
        t
    }

    /// The window ids, left to right.
    pub fn windows(&self) -> (ids: Vec<u64>)
        ensures
            ids@ == self.ids(),
    {
        let mut ids: Vec<u64> = Vec::new();
        let mut i: usize = 0;
        while i < self.windows.len()
            invariant
                i <= self.windows@.len(),
                ids@ =~= self.ids().take(i as int),
            decreases self.windows@.len() - i,
        {
            proof {
                self.lemma_views();
            }
            ids.push(self.windows[i].window);
            i = i + 1;
            assert(ids@ =~= self.ids().take(i as int));
        }
        proof {
            self.lemma_views();
        }
        assert(self.ids().take(i as int) =~= self.ids());
        ids
    }

    /// Give every tile the equal share of the viewport width, clamped into
    /// `[client minimum, cap]`, the cap being the smallest monitor width.
    /// Nothing changes on an empty row.
    fn rebalance(&mut self, mins: &Vec<i32>, viewport_w: i32, cap_w: i32)
        requires
            mins@.len() == old(self).windows@.len(),
            old(self).windows@.len() <= i32::MAX,
            mins_ok(mins@, cap_w),
        ensures
            final(self).ids() == old(self).ids(),
            final(self).focused == old(self).focused,
            final(self).direction == old(self).direction,
            final(self).widths() == rebalanced(mins@, viewport_w, cap_w),
    {
        let widths = rebalanced_widths(mins, viewport_w, cap_w);
        let ghost old_ids = self.ids();
        let mut i: usize = 0;
        while i < self.windows.len()
            invariant
                i <= self.windows@.len(),
                self.windows@.len() == mins@.len(),
                widths@ == rebalanced(mins@, viewport_w, cap_w),
                self.ids() == old_ids,
                self.focused == old(self).focused,
                self.direction == old(self).direction,
                forall|j: int|
                    0 <= j < i ==> (#[trigger] self.windows@[j]).width == rebalanced(mins@, viewport_w, cap_w)[j],
            decreases self.windows@.len() - i,
        {
            let id = self.windows[i].window;
            self.windows[i] = Slot { window: id, width: widths[i] };
            i = i + 1;
            proof {
                assert(self.ids() =~= old_ids);
            }
        }
        assert(self.widths() =~= rebalanced(mins@, viewport_w, cap_w));
    }

    /// The placements of the current row (horizontal direction only; the
    /// other directions are not laid out).
    fn relayout(&self, viewport_h: i32) -> (placements: Vec<Placement>)
        requires
            self.wf(),
            self.direction() == Direction::Horizontal,
        ensures
            placements@ == self.layout(viewport_h),
    {
        proof {
            self.lemma_views();
        }
        let widths = self.width_list();
        let rects = row_positions(widths.as_slice(), viewport_h);
        let mut placements: Vec<Placement> = Vec::new();
        let mut i: usize = 0;
        while i < self.windows.len()
            invariant
                i <= self.windows@.len(),
                self.wf(),
                rects@.len() == self.windows@.len(),
                forall|j: int| 0 <= j < self.windows@.len() ==> rects@[j] == row_rect(self.widths(), j, viewport_h),
                self.ids().len() == self.windows@.len(),
                forall|j: int| 0 <= j < self.windows@.len() ==> #[trigger] self.ids()[j] == self.windows@[j].window,
                placements@ =~= self.layout(viewport_h).take(i as int),
            decreases self.windows@.len() - i,
        {
            let activate = match self.focused {
                Some(f) => f == i,
                None => false,
            };
            placements.push(Placement { window: self.windows[i].window, rect: rects[i], activate });
            i = i + 1;
            assert(placements@ =~= self.layout(viewport_h).take(i as int));
        }
        assert(placements@ =~= self.layout(viewport_h));
        placements
    }

    /// The focused window, if any.
    pub open spec fn focused_id(&self) -> Option<u64> {
        match self.focused() {
            Some(i) => Some(self.ids()[i]),
            None => None,
        }
    }

    /// Where `add` puts a new window.
    pub open spec fn add_index(&self) -> int {
        insert_index(self.focused(), self.ids().len() as int)
    }

    /// Insert a window right after the focused one (at the end when nothing
    /// is focused), focus it, rebalance all widths and lay the row out.
    /// `window_min` is the new window's minimum width, `mins` those of the
    /// windows already tiled, left to right; `cap_w` is the smallest monitor
    /// width, which no tile outgrows.
    pub fn add(&mut self, window: u64, window_min: i32, mins: &Vec<i32>, viewport: Size, cap_w: i32) -> (placements:
        Vec<Placement>)
        requires
            old(self).wf(),
            old(self).direction() == Direction::Horizontal,
            mins@.len() == old(self).ids().len(),
            old(self).ids().len() < i32::MAX,
            mins_ok(mins@.insert(old(self).add_index(), window_min), cap_w),
            row_fits(rebalanced(mins@.insert(old(self).add_index(), window_min), viewport.w, cap_w)),
        ensures
            final(self).wf(),
            final(self).direction() == old(self).direction(),
            final(self).ids() == old(self).ids().insert(old(self).add_index(), window),
            final(self).focused() == Some(old(self).add_index()),
            final(self).widths() == rebalanced(mins@.insert(old(self).add_index(), window_min), viewport.w, cap_w),
            placements@ == final(self).layout(viewport.h),
    {
        proof {
            self.lemma_views();
        }
        let ghost old_ids = self.ids();
        let idx = match self.focused {
            Some(f) => f + 1,
            None => self.windows.len(),
        };
        self.windows.insert(idx, Slot { window, width: 0 });
        assert(self.ids() =~= old_ids.insert(idx as int, window));
        let all_mins = with_inserted(mins, idx, window_min);
        self.focused = Some(idx);
        self.rebalance(&all_mins, viewport.w, cap_w);
        proof {
            lemma_rebalanced_bounds(all_mins@, viewport.w, cap_w);
        }
        self.relayout(viewport.h)
    }

    /// Focus the first tile holding `window` and lay the row out; nothing
    /// happens (and `None` is returned) when the window is not tiled.
    pub fn set_focus(&mut self, window: u64, viewport_h: i32) -> (placements: Option<Vec<Placement>>)
        requires
            old(self).wf(),
            old(self).direction() == Direction::Horizontal,
        ensures
            final(self).wf(),
            final(self).ids() == old(self).ids(),
            final(self).widths() == old(self).widths(),
            final(self).direction() == old(self).direction(),
            match first_index(old(self).ids(), window) {
                Some(i) => {
                    &&& final(self).focused() == Some(i)
                    &&& placements matches Some(p) && p@ == final(self).layout(viewport_h)
                },
                None => {
                    &&& final(self).focused() == old(self).focused()
                    &&& placements is None
                },
            },
    {
        match self.position(window) {
            Some(idx) => {
                proof {
                    lemma_first_index_bounds(self.ids(), window);
                }
                self.focused = Some(idx);
                Some(self.relayout(viewport_h))
            },
            None => None,
        }
    }

    /// Unfocus and lay the row out; nothing happens (and `None` is
    /// returned) when nothing was focused.
    pub fn clear_focus(&mut self, viewport_h: i32) -> (placements: Option<Vec<Placement>>)
        requires
            old(self).wf(),
            old(self).direction() == Direction::Horizontal,
        ensures
            final(self).wf(),
            final(self).ids() == old(self).ids(),
            final(self).widths() == old(self).widths(),
            final(self).direction() == old(self).direction(),
            final(self).focused() == None::<int>,
            match old(self).focused() {
                Some(_) => placements matches Some(p) && p@ == final(self).layout(viewport_h),
                None => placements is None,
            },
    {
        if self.focused.is_some() {
            self.focused = None;
            Some(self.relayout(viewport_h))
        } else {
            None
        }
    }

    /// The currently focused window, if any.
    pub fn focused_window(&self) -> (w: Option<u64>)
        requires
            self.wf(),
        ensures
            w == self.focused_id(),
    {
        proof {
            self.lemma_views();
        }
        match self.focused {
            Some(idx) => Some(self.windows[idx].window),
            None => None,
        }
    }

    /// The width of the first tile holding `window`.
    pub fn width_of(&self, window: u64) -> (w: Option<i32>)
        ensures
            w == (match first_index(self.ids(), window) {
                Some(i) => Some(self.widths()[i]),
                None => None,
            }),
    {
        proof {
            self.lemma_views();
        }
        match self.position(window) {
            Some(idx) => {
                proof {
                    lemma_first_index_bounds(self.ids(), window);
                }
                Some(self.windows[idx].width)
            },
            None => None,
        }
    }

    /// Resize the first tile holding `window` to `new_width` (at least its
    /// client minimum); its neighbour on the dragged edge (left when
    /// `left_edge`, right otherwise) gives up the difference, down to its own
    /// minimum. Nothing happens (and `None` is returned) when the window is
    /// not tiled or has no neighbour on that side. `mins` holds the client
    /// minimum widths, left to right.
    pub fn resize_window(
        &mut self,
        window: u64,
        new_width: i32,
        left_edge: bool,
        mins: &Vec<i32>,
        viewport_h: i32,
    ) -> (placements: Option<Vec<Placement>>)
        requires
            old(self).wf(),
            old(self).direction() == Direction::Horizontal,
            mins@.len() == old(self).ids().len(),
            mins_positive(mins@),
            match resize_target(old(self).ids(), window, left_edge) {
                Some((i, n)) => {
                    &&& i32::MIN <= compensated(old(self).widths(), i, n, new_width, mins@[i]) <= i32::MAX
                    &&& row_fits(resized_widths(old(self).widths(), i, n, new_width, mins@[i], mins@[n]))
                },
                None => true,
            },
        ensures
            final(self).wf(),
            final(self).ids() == old(self).ids(),
            final(self).focused() == old(self).focused(),
            final(self).direction() == old(self).direction(),
            match resize_target(old(self).ids(), window, left_edge) {
                Some((i, n)) => {
                    &&& final(self).widths() == resized_widths(
                        old(self).widths(),
                        i,
                        n,
                        new_width,
                        mins@[i],
                        mins@[n],
                    )
                    &&& placements matches Some(p) && p@ == final(self).layout(viewport_h)
                },
                None => {
                    &&& final(self).widths() == old(self).widths()
                    &&& placements is None
                },
            },
    {
        proof {
            self.lemma_views();
        }
        let ghost old_ids = self.ids();
        let ghost old_widths = self.widths();
        let idx = match self.position(window) {
            Some(i) => i,
            None => {
                return None;
            },
        };
        proof {
            lemma_first_index_bounds(self.ids(), window);
        }
        let n = self.windows.len();
        let neighbor = if left_edge {
            if idx >= 1 {
                idx - 1
            } else {
                return None;
            }
        } else {
            if idx + 1 < n {
                idx + 1
            } else {
                return None;
            }
        };
        let min_i = mins[idx];
        let min_n = mins[neighbor];
        let grown = if new_width < min_i {
            min_i
        } else {
            new_width
        };
        let adjusted = grown - self.windows[idx].width;
        let id_i = self.windows[idx].window;
        self.windows[idx] = Slot { window: id_i, width: grown };
        let shrunk = self.windows[neighbor].width - adjusted;
        let width_n = if shrunk < min_n {
            min_n
        } else {
            shrunk
        };
        let id_n = self.windows[neighbor].window;
        self.windows[neighbor] = Slot { window: id_n, width: width_n };
        assert(self.ids() =~= old_ids);
        assert(self.widths() =~= resized_widths(
            old_widths,
            idx as int,
            neighbor as int,
            new_width,
            min_i,
            min_n,
        ));
        Some(self.relayout(viewport_h))
    }

    /// Drop the tiles whose window is no longer alive (`alive` holds one
    /// flag per tile, left to right). When any was dropped, a focus past the
    /// end moves to the last tile (or is cleared), the widths are rebalanced
    /// with the minimum widths in `mins` of the remaining windows and the cap
    /// `cap_w` (the smallest monitor width), and the row is laid out;
    /// otherwise nothing happens and `None` is returned.
    pub fn cleanup(&mut self, alive: &Vec<bool>, mins: &Vec<i32>, viewport: Size, cap_w: i32) -> (placements: Option<
        Vec<Placement>,
    >)
        requires
            old(self).wf(),
            old(self).direction() == Direction::Horizontal,
            alive@.len() == old(self).ids().len(),
            mins@.len() == old(self).ids().len(),
            alive@.contains(false) ==> {
                &&& mins_ok(kept(mins@, alive@), cap_w)
                &&& row_fits(rebalanced(kept(mins@, alive@), viewport.w, cap_w))
            },
        ensures
            final(self).wf(),
            final(self).direction() == old(self).direction(),
            if alive@.contains(false) {
                &&& final(self).ids() == kept(old(self).ids(), alive@)
                &&& final(self).focused() == refocused(old(self).focused(), final(self).ids().len() as int)
                &&& final(self).widths() == rebalanced(kept(mins@, alive@), viewport.w, cap_w)
                &&& placements matches Some(p) && p@ == final(self).layout(viewport.h)
            } else {
                &&& final(self).ids() == old(self).ids()
                &&& final(self).focused() == old(self).focused()
                &&& final(self).widths() == old(self).widths()
                &&& placements is None
            },
    {
        proof {
            self.lemma_views();
        }
        let mut remaining: Vec<Slot> = Vec::new();
        let mut changed = false;
        let mut i: usize = 0;
        while i < self.windows.len()
            invariant
                i <= self.windows@.len(),
                alive@.len() == self.windows@.len(),
                remaining@ == kept(self.windows@.take(i as int), alive@.take(i as int)),
                changed == (exists|j: int| 0 <= j < i && !#[trigger] alive@[j]),
            decreases self.windows@.len() - i,
        {
            assert(self.windows@.take(i as int + 1).drop_last() =~= self.windows@.take(i as int));
            assert(alive@.take(i as int + 1).drop_last() =~= alive@.take(i as int));
            if alive[i] {
                remaining.push(self.windows[i]);
            } else {
                changed = true;
            }
            i = i + 1;
        }
        assert(self.windows@.take(i as int) =~= self.windows@);
        assert(alive@.take(i as int) =~= alive@);
        assert(changed == alive@.contains(false)) by {
            if changed {
                let j = choose|j: int| 0 <= j < i && !#[trigger] alive@[j];
                assert(alive@[j] == false);
            }
        }
        if !changed {
            return None;
        }
        let ghost old_windows = self.windows@;
        let ghost old_focused = self.focused();
        self.windows = remaining;
        proof {
            lemma_kept_map(old_windows, alive@, |s: Slot| s.window);
            lemma_kept_map(old_windows, alive@, |s: Slot| s.width);
            lemma_kept_len(old_windows, mins@, alive@);
            assert(old_windows.map_values(|s: Slot| s.window) == old(self).ids());
        }
        let len = self.windows.len();
        match self.focused {
            Some(f) => {
                if f >= len {
                    self.focused = if len == 0 {
                        None
                    } else {
                        Some(len - 1)
                    };
                }
            },
            None => {},
        }
        let kept_mins = keep_marked(mins, alive);
        self.rebalance(&kept_mins, viewport.w, cap_w);
        proof {
            lemma_rebalanced_bounds(kept_mins@, viewport.w, cap_w);
        }
        Some(self.relayout(viewport.h))
    }

    /// The tile widths, left to right.
    fn width_list(&self) -> (widths: Vec<i32>)
        ensures
            widths@ == self.widths(),
    {
        proof {
            self.lemma_views();
        }
        let mut widths: Vec<i32> = Vec::new();
        let mut i: usize = 0;
        while i < self.windows.len()
            invariant
                i <= self.windows@.len(),
                self.widths().len() == self.windows@.len(),
                forall|j: int| 0 <= j < self.windows@.len() ==> #[trigger] self.widths()[j] == self.windows@[j].width,
                widths@ =~= self.widths().take(i as int),
            decreases self.windows@.len() - i,
        {
            widths.push(self.windows[i].width);
            i = i + 1;
            assert(widths@ =~= self.widths().take(i as int));
        }
        assert(widths@ =~= self.widths());
        widths
    }

    /// Whether `add` accepts these inputs: every minimum width lies within
    /// the cap and the rebalanced row fits in `i32`.
    pub fn add_fits(&self, window_min: i32, mins: &Vec<i32>, viewport_w: i32, cap_w: i32) -> (r: bool)
        requires
            self.wf(),
            mins@.len() == self.ids().len(),
            self.ids().len() < i32::MAX,
        ensures
            r == (mins_ok(mins@.insert(self.add_index(), window_min), cap_w) && row_fits(
                rebalanced(mins@.insert(self.add_index(), window_min), viewport_w, cap_w),
            )),
    {
        proof {
            self.lemma_views();
        }
        let idx = match self.focused {
            Some(f) => f + 1,
            None => self.windows.len(),
        };
        let all_mins = with_inserted(mins, idx, window_min);
        if !mins_fit(&all_mins, cap_w) {
            return false;
        }
        let widths = rebalanced_widths(&all_mins, viewport_w, cap_w);
        fits_row(widths.as_slice())
    }

    /// Whether `resize_window` accepts these inputs: the neighbour's
    /// compensated width and the resized row fit in `i32`.
    pub fn resize_fits(&self, window: u64, new_width: i32, left_edge: bool, mins: &Vec<i32>) -> (r: bool)
        requires
            self.wf(),
            mins@.len() == self.ids().len(),
            mins_positive(mins@),
        ensures
            r == (match resize_target(self.ids(), window, left_edge) {
                Some((i, n)) => {
                    &&& i32::MIN <= compensated(self.widths(), i, n, new_width, mins@[i]) <= i32::MAX
                    &&& row_fits(resized_widths(self.widths(), i, n, new_width, mins@[i], mins@[n]))
                },
                None => true,
            }),
    {
        proof {
            self.lemma_views();
        }
        let idx = match self.position(window) {
            Some(i) => i,
            None => {
                return true;
            },
        };
        proof {
            lemma_first_index_bounds(self.ids(), window);
        }
        let n = self.windows.len();
        let neighbor = if left_edge {
            if idx >= 1 {
                idx - 1
            } else {
                return true;
            }
        } else {
            if idx + 1 < n {
                idx + 1
            } else {
                return true;
            }
        };
        let grown = if new_width < mins[idx] {
            mins[idx]
        } else {
            new_width
        };
        let shrunk = self.windows[neighbor].width as i64 - (grown as i64 - self.windows[idx].width as i64);
        if shrunk < i32::MIN as i64 || shrunk > i32::MAX as i64 {
            return false;
        }
        let shrunk = shrunk as i32;
        let width_n = if shrunk < mins[neighbor] {
            mins[neighbor]
        } else {
            shrunk
        };
        let mut widths = self.width_list();
        widths[idx] = grown;
        widths[neighbor] = width_n;
        assert(widths@ =~= resized_widths(
            self.widths(),
            idx as int,
            neighbor as int,
            new_width,
            mins@[idx as int],
            mins@[neighbor as int],
        ));
        fits_row(widths.as_slice())
    }

    /// Whether `cleanup` accepts these inputs: the minimum widths of the
    /// windows still alive lie within the cap and their rebalanced row fits
    /// in `i32`.
    pub fn cleanup_fits(&self, alive: &Vec<bool>, mins: &Vec<i32>, viewport_w: i32, cap_w: i32) -> (r: bool)
        requires
            self.wf(),
            alive@.len() == self.ids().len(),
            mins@.len() == self.ids().len(),
        ensures
            r == (mins_ok(kept(mins@, alive@), cap_w) && row_fits(
                rebalanced(kept(mins@, alive@), viewport_w, cap_w),
            )),
    {
        proof {
            lemma_kept_len(mins@, alive@, alive@);
        }
        let kept_mins = keep_marked(mins, alive);
        if !mins_fit(&kept_mins, cap_w) {
            return false;
        }
        let widths = rebalanced_widths(&kept_mins, viewport_w, cap_w);
        fits_row(widths.as_slice())
    }

    /// The index of the first tile holding `window`.
    fn position(&self, window: u64) -> (r: Option<usize>)
        ensures
            match r {
                Some(i) => first_index(self.ids(), window) == Some(i as int),
                None => first_index(self.ids(), window) == None::<int>,
            },
    {
        let mut i: usize = 0;
        proof {
            self.lemma_views();
            assert(self.ids().take(0).len() == 0);
        }
        while i < self.windows.len()
            invariant
                i <= self.windows@.len(),
                self.ids().len() == self.windows@.len(),
                forall|j: int| 0 <= j < self.windows@.len() ==> #[trigger] self.ids()[j] == self.windows@[j].window,
                first_index(self.ids().take(i as int), window) == None::<int>,
            decreases self.windows@.len() - i,
        {
            assert(self.ids().take(i as int + 1).drop_last() =~= self.ids().take(i as int));
            if self.windows[i].window == window {
                proof {
                    lemma_first_index_prefix(self.ids(), window, i as int);
                }
                return Some(i);
            }
            i = i + 1;
        }
        assert(self.ids().take(i as int) =~= self.ids());
        None
    }
}

impl Default for TilingLayout {
    /// An empty horizontal layout with nothing focused.
    fn default() -> (t: TilingLayout)
        ensures
            t.wf(),
            t.ids() == Seq::<u64>::empty(),
            t.focused() == None::<int>,
            t.direction() == Direction::Horizontal,
    {
        TilingLayout::new()
    }
}

/// Once the first occurrence lies inside a prefix, it is the first
/// occurrence in the whole sequence.
proof fn lemma_first_index_prefix(s: Seq<u64>, w: u64, i: int)
    requires
        0 <= i < s.len(),
        s[i] == w,
        first_index(s.take(i), w) == None::<int>,
    ensures
        first_index(s, w) == Some(i),
    decreases s.len() - i,
{
    assert(s.take(i + 1).drop_last() =~= s.take(i));
    assert(first_index(s.take(i + 1), w) == Some(i));
    lemma_first_index_extend(s, w, i + 1, i);
}

/// The first occurrence in a prefix stays the first occurrence in every
/// longer prefix.
proof fn lemma_first_index_extend(s: Seq<u64>, w: u64, k: int, i: int)
    requires
        0 <= k <= s.len(),
        first_index(s.take(k), w) == Some(i),
    ensures
        first_index(s, w) == Some(i),
    decreases s.len() - k,
{
    if k == s.len() {
        assert(s.take(k) =~= s);
    } else {
        assert(s.take(k + 1).drop_last() =~= s.take(k));
        lemma_first_index_extend(s, w, k + 1, i);
    }
}

/// The first occurrence lies inside the sequence and holds the value; when
/// there is none, the value does not occur. So after `set_focus(w)` on a
/// tiled window, `focused_window()` answers `w`.
pub proof fn lemma_first_index_bounds(s: Seq<u64>, w: u64)
    ensures
        first_index(s, w) matches Some(i) ==> 0 <= i < s.len() && s[i] == w,
        first_index(s, w) matches Some(i) ==> forall|j: int| 0 <= j < i ==> s[j] != w,
        first_index(s, w) is None ==> !s.contains(w),
    decreases s.len(),
{
    if s.len() > 0 {
        lemma_first_index_bounds(s.drop_last(), w);
        if let Some(i) = first_index(s.drop_last(), w) {
            assert forall|j: int| 0 <= j < i implies s[j] != w by {
                assert(s.drop_last()[j] == s[j]);
            }
        }
        if first_index(s.drop_last(), w) is None {
            assert forall|j: int| 0 <= j < s.len() implies s[j] != w || j == s.len() - 1 by {
                if j < s.len() - 1 {
                    assert(s.drop_last()[j] == s[j]);
                }
            }
        }
    }
}

/// Width policy: every rebalanced width lies between the client minimum
/// and the cap, the smallest monitor width.
pub proof fn lemma_rebalanced_bounds(mins: Seq<i32>, viewport_w: i32, cap_w: i32)
    requires
        mins_ok(mins, cap_w),
    ensures
        rebalanced(mins, viewport_w, cap_w).len() == mins.len(),
        forall|i: int|
            0 <= i < mins.len() ==> mins[i] <= #[trigger] rebalanced(mins, viewport_w, cap_w)[i] <= cap_w,
{
    assert forall|i: int| 0 <= i < mins.len() implies mins[i] <= #[trigger] rebalanced(
        mins,
        viewport_w,
        cap_w,
    )[i] <= cap_w by {
        assert(1 <= mins[i] <= cap_w);
    }
}

/// A copy of `v` with `x` inserted at `idx`.
fn with_inserted(v: &Vec<i32>, idx: usize, x: i32) -> (r: Vec<i32>)
    requires
        idx <= v@.len(),
    ensures
        r@ == v@.insert(idx as int, x),
{
    let mut r: Vec<i32> = Vec::new();
    let mut i: usize = 0;
    while i < v.len()
        invariant
            i <= v@.len(),
            idx <= v@.len(),
            r@ == (if i <= idx { v@.take(i as int) } else { v@.insert(idx as int, x).take(i as int + 1) }),
        decreases v@.len() - i,
    {
        if i == idx {
            r.push(x);
        }
        r.push(v[i]);
        i = i + 1;
        assert(r@ =~= (if i <= idx { v@.take(i as int) } else { v@.insert(idx as int, x).take(i as int + 1) }));
    }
    if idx == v.len() {
        r.push(x);
    }
    assert(r@ =~= v@.insert(idx as int, x));
    r
}

/// Keeping the flagged items commutes with mapping them.
proof fn lemma_kept_map<A, B>(s: Seq<A>, alive: Seq<bool>, f: spec_fn(A) -> B)
    ensures
        kept(s.map_values(f), alive) == kept(s, alive).map_values(f),
    decreases s.len(),
{
    if s.len() == 0 || alive.len() == 0 {
        assert(kept(s, alive).map_values(f) =~= Seq::<B>::empty());
    } else {
        assert(s.map_values(f).drop_last() =~= s.drop_last().map_values(f));
        lemma_kept_map(s.drop_last(), alive.drop_last(), f);
        assert(kept(s.map_values(f), alive) =~= kept(s, alive).map_values(f));
    }
}

/// Two sequences of the same length keep the same number of items, and
/// never more than they had.
proof fn lemma_kept_len<A, B>(s: Seq<A>, t: Seq<B>, alive: Seq<bool>)
    requires
        s.len() == alive.len(),
        t.len() == alive.len(),
    ensures
        kept(s, alive).len() == kept(t, alive).len(),
        kept(s, alive).len() <= s.len(),
    decreases s.len(),
{
    if s.len() > 0 {
        lemma_kept_len(s.drop_last(), t.drop_last(), alive.drop_last());
    }
}

/// The items of `v` whose flag in `alive` is set, in order.
fn keep_marked<T: Copy>(v: &Vec<T>, alive: &Vec<bool>) -> (r: Vec<T>)
    requires
        v@.len() == alive@.len(),
    ensures
        r@ == kept(v@, alive@),
{
    let mut r: Vec<T> = Vec::new();
    let mut i: usize = 0;
    while i < v.len()
        invariant
            i <= v@.len(),
            v@.len() == alive@.len(),
            r@ == kept(v@.take(i as int), alive@.take(i as int)),
        decreases v@.len() - i,
    {
        assert(v@.take(i as int + 1).drop_last() =~= v@.take(i as int));
        assert(alive@.take(i as int + 1).drop_last() =~= alive@.take(i as int));
        if alive[i] {
            r.push(v[i]);
        }
        i = i + 1;
    }
    assert(v@.take(i as int) =~= v@);
    assert(alive@.take(i as int) =~= alive@);
    r
}

/// A client's minimum width as the layout uses it: the minimum width the
/// client declared, but at least one; one for a window that is not an
/// xdg toplevel (`None`).
pub fn client_min_width(declared: Option<i32>) -> (w: i32)
    ensures
        w == (match declared {
            Some(m) => if m < 1 {
                1
            } else {
                m
            },
            None => 1,
        }),
        w >= 1,
{
    match declared {
        Some(m) => if m < 1 {
            1
        } else {
            m
        },
        None => 1,
    }
}

/// Whether every client minimum width lies in `[1, cap_w]`.
pub fn mins_fit(mins: &Vec<i32>, cap_w: i32) -> (r: bool)
    ensures
        r == mins_ok(mins@, cap_w),
{
    let mut i: usize = 0;
    while i < mins.len()
        invariant
            i <= mins@.len(),
            forall|j: int| 0 <= j < i ==> 1 <= #[trigger] mins@[j] <= cap_w,
        decreases mins@.len() - i,
    {
        if mins[i] < 1 || mins[i] > cap_w {
            return false;
        }
        i = i + 1;
    }
    true
}

/// Whether every running total of the row fits in an `i32`.
pub fn fits_row(widths: &[i32]) -> (r: bool)
    ensures
        r == row_fits(widths@),
{
    let mut total: i64 = 0;
    let mut i: usize = 0;
    while i < widths.len()
        invariant
            i <= widths@.len(),
            total == prefix_sum(widths@, i as int),
            forall|k: int| 0 <= k <= i ==> i32::MIN <= #[trigger] prefix_sum(widths@, k) <= i32::MAX,
        decreases widths@.len() - i,
    {
        total = total + widths[i] as i64;
        i = i + 1;
        if total < i32::MIN as i64 || total > i32::MAX as i64 {
            assert(!(i32::MIN <= prefix_sum(widths@, i as int) <= i32::MAX));
            return false;
        }
    }
    true
}

/// The widths a rebalance gives to windows with the given client minimum
/// widths: each is `clamp(max(viewport_w / count, 1), min, cap_w)`, the
/// cap being the smallest monitor width.
pub fn rebalanced_widths(mins: &Vec<i32>, viewport_w: i32, cap_w: i32) -> (widths: Vec<i32>)
    requires
        mins@.len() <= i32::MAX,
        mins_ok(mins@, cap_w),
    ensures
        widths@ == rebalanced(mins@, viewport_w, cap_w),
{
    let mut widths: Vec<i32> = Vec::new();
    let count = mins.len() as i32;
    if count == 0 {
        assert(widths@ =~= rebalanced(mins@, viewport_w, cap_w));
        return widths;
    }
    let q = if viewport_w < 1 {
        assert(viewport_w as int / count as int <= 0) by (nonlinear_arith)
            requires
                viewport_w < 1,
                count >= 1,
        ;
        0
    } else {
        viewport_w / count
    };
    let share = if q < 1 {
        1
    } else {
        q
    };
    assert(share == share_of(mins@.len() as int, viewport_w as int));
    let mut i: usize = 0;
    while i < mins.len()
        invariant
            i <= mins@.len(),
            share == share_of(mins@.len() as int, viewport_w as int),
            mins_ok(mins@, cap_w),
            widths@ =~= rebalanced(mins@, viewport_w, cap_w).take(i as int),
        decreases mins@.len() - i,
    {
        widths.push(equal_share(share, mins[i], cap_w));
        i = i + 1;
        assert(widths@ =~= rebalanced(mins@, viewport_w, cap_w).take(i as int));
    }
    assert(widths@ =~= rebalanced(mins@, viewport_w, cap_w));
    widths
}

/// Row layout: each tile starts exactly where the previous one ends, so
/// with positive widths the tiles are disjoint and their positions strictly
/// increase, growing past any viewport when the widths add up to more.
pub proof fn lemma_row_adjacent(widths: Seq<i32>, h: i32)
    requires
        row_fits(widths),
        forall|i: int| 0 <= i < widths.len() ==> 1 <= #[trigger] widths[i],
    ensures
        forall|i: int|
            0 <= i < widths.len() - 1 ==> #[trigger] row_rect(widths, i + 1, h).loc.x == row_rect(
                widths,
                i,
                h,
            ).loc.x + widths[i],
        forall|i: int, j: int|
            0 <= i < j < widths.len() ==> #[trigger] row_rect(widths, i, h).loc.x < #[trigger] row_rect(
                widths,
                j,
                h,
            ).loc.x,
{
    assert forall|i: int| 0 <= i < widths.len() - 1 implies #[trigger] row_rect(widths, i + 1, h).loc.x
        == row_rect(widths, i, h).loc.x + widths[i] by {
        assert(i32::MIN <= prefix_sum(widths, i) <= i32::MAX);
        assert(i32::MIN <= prefix_sum(widths, i + 1) <= i32::MAX);
    }
    assert forall|i: int, j: int| 0 <= i < j < widths.len() implies #[trigger] row_rect(widths, i, h).loc.x
        < #[trigger] row_rect(widths, j, h).loc.x by {
        lemma_prefix_increasing(widths, i, j);
        assert(i32::MIN <= prefix_sum(widths, i) <= i32::MAX);
        assert(i32::MIN <= prefix_sum(widths, j) <= i32::MAX);
    }
}

proof fn lemma_prefix_increasing(widths: Seq<i32>, i: int, j: int)
    requires
        0 <= i < j <= widths.len(),
        forall|k: int| 0 <= k < widths.len() ==> 1 <= #[trigger] widths[k],
    ensures
        prefix_sum(widths, i) < prefix_sum(widths, j),
    decreases j - i,
{
    assert(1 <= widths[j - 1]);
    if j - 1 > i {
        lemma_prefix_increasing(widths, i, j - 1);
    }
}

/// Replacing one width changes the running totals from that tile on by
/// the difference.
proof fn lemma_prefix_update(widths: Seq<i32>, i: int, v: i32, k: int)
    requires
        0 <= i < widths.len(),
        0 <= k <= widths.len(),
    ensures
        prefix_sum(widths.update(i, v), k) == prefix_sum(widths, k) + (if i < k {
            v - widths[i]
        } else {
            0
        }),
    decreases k,
{
    if k > 0 {
        lemma_prefix_update(widths, i, v, k - 1);
    }
}

/// Resizing conserves the row: when neither minimum width intervenes, the
/// neighbour gives up exactly what the resized tile gains, so the total
/// width of the row is unchanged.
pub proof fn lemma_resize_keeps_total(
    widths: Seq<i32>,
    i: int,
    n: int,
    new_width: i32,
    min_i: i32,
    min_n: i32,
)
    requires
        0 <= i < widths.len(),
        0 <= n < widths.len(),
        i != n,
        min_i <= new_width,
        min_n <= compensated(widths, i, n, new_width, min_i) <= i32::MAX,
    ensures
        prefix_sum(resized_widths(widths, i, n, new_width, min_i, min_n), widths.len() as int)
            == prefix_sum(widths, widths.len() as int),
{
    let len = widths.len() as int;
    let first = widths.update(i, new_width);
    lemma_prefix_update(widths, i, new_width, len);
    lemma_prefix_update(first, n, compensated(widths, i, n, new_width, min_i) as i32, len);
}

/// The relayout activates at most one window: the focused one.
pub proof fn lemma_layout_activates_focused(t: TilingLayout, h: i32)
    requires
        t.wf(),
    ensures
        forall|i: int| 0 <= i < t.ids().len() ==> ((#[trigger] t.layout(h)[i]).activate <==> t.focused() == Some(i)),
        forall|i: int, j: int|
            0 <= i < j < t.ids().len() ==> !((#[trigger] t.layout(h)[i]).activate && (#[trigger] t.layout(h)[j]).activate),
{
}

/// A new window is focused and sits right after the window that was
/// focused (which keeps its place), or at the end of the row.
pub proof fn lemma_add_focuses_new_window(ids: Seq<u64>, focused: Option<int>, window: u64)
    requires
        focused matches Some(f) ==> 0 <= f < ids.len(),
    ensures
        ids.insert(insert_index(focused, ids.len() as int), window)[insert_index(focused, ids.len() as int)]
            == window,
        focused matches Some(f) ==> ids.insert(insert_index(focused, ids.len() as int), window)[f] == ids[f],
        ids.insert(insert_index(focused, ids.len() as int), window).len() == ids.len() + 1,
{
}

/// Cleanup keeps exactly the windows that are alive, each once per tile.
pub proof fn lemma_kept_members<T>(s: Seq<T>, alive: Seq<bool>, x: T)
    requires
        s.len() == alive.len(),
    ensures
        kept(s, alive).contains(x) <==> exists|i: int| 0 <= i < s.len() && alive[i] && #[trigger] s[i] == x,
    decreases s.len(),
{
    if s.len() > 0 {
        let ps = s.drop_last();
        let pa = alive.drop_last();
        lemma_kept_members(ps, pa, x);
        let last = s.len() - 1;
        if kept(s, alive).contains(x) {
            let k = choose|k: int| 0 <= k < kept(s, alive).len() && kept(s, alive)[k] == x;
            if k < kept(ps, pa).len() {
                assert(kept(ps, pa)[k] == x);
                let i = choose|i: int| 0 <= i < ps.len() && pa[i] && #[trigger] ps[i] == x;
                assert(alive[i] && s[i] == x);
            } else {
                assert(alive[last] && s[last] == x);
            }
        }
        if exists|i: int| 0 <= i < s.len() && alive[i] && #[trigger] s[i] == x {
            let i = choose|i: int| 0 <= i < s.len() && alive[i] && #[trigger] s[i] == x;
            if i < last {
                assert(pa[i] && ps[i] == x);
                let k = choose|k: int| 0 <= k < kept(ps, pa).len() && kept(ps, pa)[k] == x;
                if alive.last() {
                    assert(kept(s, alive)[k] == x);
                } else {
                    assert(kept(s, alive)[k] == x);
                }
            } else {
                assert(kept(s, alive)[kept(s, alive).len() - 1] == x);
            }
        }
    }
}

/// The focus follows the operations: after `add(w)`, or after
/// `set_focus(w)` on a tiled window, the focused window is `w`; after
/// `clear_focus` there is none.
pub proof fn lemma_focus_follows(before: TilingLayout, after: TilingLayout, window: u64)
    requires
        before.wf(),
    ensures
        after.ids() == before.ids().insert(before.add_index(), window) && after.focused() == Some(
            before.add_index(),
        ) ==> after.focused_id() == Some(window),
        first_index(before.ids(), window) is Some && after.ids() == before.ids() && after.focused()
            == first_index(before.ids(), window) ==> after.focused_id() == Some(window),
        after.focused() == None::<int> ==> after.focused_id() == None::<u64>,
{
    lemma_first_index_bounds(before.ids(), window);
}

/// Resizing never takes a tile below its client minimum: when every width
/// is at least its minimum before, so it is after, whatever width was
/// asked for.
pub proof fn lemma_resize_keeps_minimums(
    widths: Seq<i32>,
    mins: Seq<i32>,
    i: int,
    n: int,
    new_width: i32,
)
    requires
        widths.len() == mins.len(),
        0 <= i < widths.len(),
        0 <= n < widths.len(),
        i != n,
        forall|k: int| 0 <= k < widths.len() ==> mins[k] <= #[trigger] widths[k],
        i32::MIN <= compensated(widths, i, n, new_width, mins[i]) <= i32::MAX,
    ensures
        forall|k: int|
            0 <= k < widths.len() ==> mins[k] <= #[trigger] resized_widths(
                widths,
                i,
                n,
                new_width,
                mins[i],
                mins[n],
            )[k],
{
}

/// A tile's running total is not changed by tiles appended after it.
proof fn lemma_prefix_append(widths: Seq<i32>, w: i32, k: int)
    requires
        0 <= k <= widths.len(),
    ensures
        prefix_sum(widths.push(w), k) == prefix_sum(widths, k),
    decreases k,
{
    if k > 0 {
        lemma_prefix_append(widths, w, k - 1);
    }
}

/// Appending a tile to the row moves none of the tiles before it.
pub proof fn lemma_row_append_stable(widths: Seq<i32>, w: i32, h: i32)
    ensures
        forall|i: int| 0 <= i < widths.len() ==> #[trigger] row_rect(widths.push(w), i, h) == row_rect(widths, i, h),
{
    assert forall|i: int| 0 <= i < widths.len() implies #[trigger] row_rect(widths.push(w), i, h) == row_rect(
        widths,
        i,
        h,
    ) by {
        lemma_prefix_append(widths, w, i);
    }
}

/// Resizing drags the border between two adjacent tiles: the tile being
/// resized is the first one holding the window, the compensating tile is
/// the one right next to it on the dragged edge (left neighbour for the
/// left edge, right neighbour for the right edge), and there is nothing to
/// do exactly when the window is not tiled or has no tile on that side.
/// Only those two tiles change width: the resized one becomes
/// `max(new_width, its minimum)`, the neighbour gives up exactly that
/// difference, but not below its own minimum.
pub proof fn lemma_resize_moves_adjacent_border(
    ids: Seq<u64>,
    widths: Seq<i32>,
    window: u64,
    left_edge: bool,
    new_width: i32,
    min_i: i32,
    min_n: i32,
)
    requires
        widths.len() == ids.len(),
    ensures
        resize_target(ids, window, left_edge) matches Some((i, n)) ==> {
            &&& first_index(ids, window) == Some(i)
            &&& 0 <= i < ids.len()
            &&& ids[i] == window
            &&& (left_edge ==> n == i - 1)
            &&& (!left_edge ==> n == i + 1)
            &&& 0 <= n < ids.len()
        },
        resize_target(ids, window, left_edge) is None <==> ({
            ||| !ids.contains(window)
            ||| (left_edge && first_index(ids, window) == Some(0int))
            ||| (!left_edge && first_index(ids, window) == Some(ids.len() - 1))
        }),
        resize_target(ids, window, left_edge) matches Some((i, n)) ==> {
            let r = resized_widths(widths, i, n, new_width, min_i, min_n);
            &&& r.len() == widths.len()
            &&& forall|k: int| 0 <= k < widths.len() && k != i && k != n ==> r[k] == widths[k]
            &&& r[i] == (if new_width < min_i { min_i } else { new_width })
            &&& (i32::MIN <= widths[n] - (r[i] - widths[i]) <= i32::MAX ==> r[n] == (if widths[n] - (r[i]
                - widths[i]) < min_n {
                min_n as int
            } else {
                widths[n] - (r[i] - widths[i])
            }))
        },
{
    lemma_first_index_bounds(ids, window);
    if first_index(ids, window) is None {
        assert(!ids.contains(window));
    } else if ids.contains(window) {
        let i = first_index(ids, window)->0;
        assert(ids[i] == window);
    }
    if !ids.contains(window) {
        if let Some(i) = first_index(ids, window) {
            assert(ids.contains(window)) by {
                assert(ids[i] == window);
            }
        }
    }
}

/// Cleanup moves the focus only when it fell past the end of the row: a
/// focus still in range keeps its index, a focus past the end goes to the
/// last tile, or away when no tile is left, and no focus stays none.
pub proof fn lemma_refocus_only_past_end(f: int, len: int)
    requires
        len >= 0,
    ensures
        f < len ==> refocused(Some(f), len) == Some(f),
        f >= len && len > 0 ==> refocused(Some(f), len) == Some(len - 1),
        f >= len && len == 0 ==> refocused(Some(f), len) == None::<int>,
        refocused(None, len) == None::<int>,
{
}

/// `add` puts the new window immediately after the focused tile (at the
/// end when nothing is focused): the tiles up to the focused one keep
/// their places, the new window follows, and the rest shift right by one.
pub proof fn lemma_add_inserts_after_focus(ids: Seq<u64>, focused: Option<int>, window: u64)
    requires
        focused matches Some(f) ==> 0 <= f < ids.len(),
    ensures
        ({
            let r = ids.insert(insert_index(focused, ids.len() as int), window);
            &&& r.len() == ids.len() + 1
            &&& focused matches Some(f) ==> {
                &&& insert_index(focused, ids.len() as int) == f + 1
                &&& r[f + 1] == window
                &&& forall|k: int| 0 <= k <= f ==> r[k] == ids[k]
                &&& forall|k: int| f < k < ids.len() ==> r[k + 1] == ids[k]
            }
            &&& focused is None ==> r == ids.push(window)
        }),
{
    let r = ids.insert(insert_index(focused, ids.len() as int), window);
    if focused is None {
        assert(r =~= ids.push(window));
    }
}

/// An equal split: when every client minimum is at most the viewport's
/// equal share `viewport_w / n` (of `n >= 1` tiles, with
/// `viewport_w >= n`) and the cap is at least that share, every tile gets
/// exactly the share, the tiles together take at most the viewport width,
/// and less than one pixel per tile is left over.
pub proof fn lemma_equal_split_fills_viewport(mins: Seq<i32>, viewport_w: i32, cap_w: i32)
    requires
        mins.len() >= 1,
        viewport_w >= mins.len(),
        (viewport_w as int / mins.len() as int) <= cap_w,
        forall|i: int| 0 <= i < mins.len() ==> #[trigger] mins[i] <= (viewport_w as int / mins.len() as int),
    ensures
        forall|i: int|
            0 <= i < mins.len() ==> #[trigger] rebalanced(mins, viewport_w, cap_w)[i] == (viewport_w as int / mins.len() as int),
        prefix_sum(rebalanced(mins, viewport_w, cap_w), mins.len() as int) == mins.len() * ((viewport_w as int / mins.len() as int)),
        prefix_sum(rebalanced(mins, viewport_w, cap_w), mins.len() as int) <= viewport_w,
        viewport_w < prefix_sum(rebalanced(mins, viewport_w, cap_w), mins.len() as int) + mins.len(),
{
    let n = mins.len() as int;
    let q = viewport_w as int / n;
    vstd::arithmetic::div_mod::lemma_fundamental_div_mod(viewport_w as int, n);
    vstd::arithmetic::div_mod::lemma_mod_bound(viewport_w as int, n);
    assert(q >= 1) by (nonlinear_arith)
        requires
            viewport_w as int == n * q + viewport_w as int % n,
            viewport_w as int % n < n,
            viewport_w >= n,
            n >= 1,
    ;
    assert(q <= viewport_w) by (nonlinear_arith)
        requires
            viewport_w as int == n * q + viewport_w as int % n,
            viewport_w as int % n >= 0,
            q >= 1,
            n >= 1,
    ;
    let r = rebalanced(mins, viewport_w, cap_w);
    assert forall|i: int| 0 <= i < n implies #[trigger] r[i] == q by {}
    lemma_prefix_constant(r, q, n);
}

/// The running total of `k` tiles that all have width `q` is `k * q`.
proof fn lemma_prefix_constant(s: Seq<i32>, q: int, k: int)
    requires
        0 <= k <= s.len(),
        forall|i: int| 0 <= i < s.len() ==> s[i] == q,
    ensures
        prefix_sum(s, k) == k * q,
    decreases k,
{
    if k > 0 {
        lemma_prefix_constant(s, q, k - 1);
        assert(s[k - 1] == q);
        assert(k * q == (k - 1) * q + q) by (nonlinear_arith);
    } else {
        assert(k * q == 0) by (nonlinear_arith)
            requires
                k == 0,
        ;
    }
}

/// Clamping into `[lo, hi]` (with `lo <= hi`) lands in the interval,
/// keeps a value already inside it, and moves a value outside it to the
/// nearer end.
pub proof fn lemma_clamp_into_range(v: int, lo: int, hi: int)
    requires
        lo <= hi,
    ensures
        lo <= clamp_spec(v, lo, hi) <= hi,
        lo <= v <= hi ==> clamp_spec(v, lo, hi) == v,
        v < lo ==> clamp_spec(v, lo, hi) == lo,
        v > hi ==> clamp_spec(v, lo, hi) == hi,
{
}

/// Cleanup keeps the surviving tiles in their order: scanning the row
/// left to right, each tile that is alive is appended after the ones kept
/// before it, and a dead one adds nothing.
pub proof fn lemma_kept_in_order<T>(s: Seq<T>, alive: Seq<bool>, i: int)
    requires
        s.len() == alive.len(),
        0 <= i < s.len(),
    ensures
        kept(s.take(0), alive.take(0)).len() == 0,
        alive[i] ==> kept(s.take(i + 1), alive.take(i + 1)) == kept(s.take(i), alive.take(i)).push(s[i]),
        !alive[i] ==> kept(s.take(i + 1), alive.take(i + 1)) == kept(s.take(i), alive.take(i)),
        kept(s.take(s.len() as int), alive.take(s.len() as int)) == kept(s, alive),
{
    assert(s.take(i + 1).drop_last() =~= s.take(i));
    assert(alive.take(i + 1).drop_last() =~= alive.take(i));
    assert(s.take(s.len() as int) =~= s);
    assert(alive.take(s.len() as int) =~= alive);
}

/// The row starts at the layer origin: the first tile's corner is
/// `(0, 0)`, every tile sits at the top of the layer, and each spans the
/// viewport height with its own width.
pub proof fn lemma_row_starts_at_origin(widths: Seq<i32>, h: i32)
    requires
        row_fits(widths),
    ensures
        widths.len() > 0 ==> row_rect(widths, 0, h).loc == (Point { x: 0, y: 0 }),
        forall|i: int|
            0 <= i < widths.len() ==> (#[trigger] row_rect(widths, i, h)).loc.y == 0 && row_rect(
                widths,
                i,
                h,
            ).size == (Size { w: widths[i], h }),
{
}

} // verus!
