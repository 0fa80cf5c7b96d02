//! vscreens: every layer is divided into rectangles the size of the
//! smallest physical monitor. A window belongs to the vscreen of its center
//! point; a point on a border belongs to the right-top vscreen.

use vstd::prelude::*;
use vstd::arithmetic::div_mod::{lemma_fundamental_div_mod, lemma_fundamental_div_mod_converse, lemma_mod_bound};
use vstd::arithmetic::mul::lemma_mul_is_commutative;

use crate::geometry::{Point, Rectangle, Size};

verus! {

/// The grid row of a coordinate before the border tie-break: the floor of
/// its quotient by the cell length.
pub open spec fn cell_of(v: int, len: int) -> int {
    v / len
}

/// The grid index of the vscreen holding a point. Columns are the floor of
/// `x / w`, which already puts a point on a vertical border in the right
/// column; a point on a horizontal border (`y` a multiple of `h`) goes to
/// the row above it, the top one.
pub open spec fn vscreen_index(p: Point, cell: Size) -> (int, int) {
    let row = cell_of(p.y as int, cell.h as int);
    (
        cell_of(p.x as int, cell.w as int),
        if (p.y as int) % (cell.h as int) == 0 {
            row - 1
        } else {
            row
        },
    )
}

proof fn lemma_quotient_bounds(v: int, len: int)
    requires
        len > 0,
        i32::MIN <= v <= i32::MAX,
    ensures
        len * (v / len) <= v < len * (v / len) + len,
        i32::MIN <= v / len <= i32::MAX,
        v > 0 ==> v / len >= 0,
        v > 0 && v % len == 0 ==> v / len >= 1,
        v % len == v - len * (v / len),
{
    lemma_fundamental_div_mod(v, len);
    lemma_mod_bound(v, len);
    let q = v / len;
    let r = v % len;
    assert(0 <= r < len);
    if v >= 0 {
        assert(q >= 0) by (nonlinear_arith)
            requires
                v == len * q + r,
                r < len,
                v >= 0,
                len > 0,
        ;
        assert(q <= v) by (nonlinear_arith)
            requires
                v == len * q + r,
                r >= 0,
                len > 0,
                q >= 0,
        ;
    } else {
        assert(q < 0) by (nonlinear_arith)
            requires
                v == len * q + r,
                r >= 0,
                v < 0,
                len > 0,
        ;
        assert(q >= v) by (nonlinear_arith)
            requires
                v == len * q + r,
                r < len,
                len > 0,
                q < 0,
        ;
    }
    if v > 0 && r == 0 {
        assert(q >= 1) by (nonlinear_arith)
            requires
                v == len * q,
                v > 0,
                len > 0,
        ;
    }
}

/// Grid index of the vscreen containing a point (layer coordinates).
///
/// Border tie-break: a point exactly on a vscreen border belongs to the
/// right-top vscreen. For a vertical border the floor division already
/// lands on the right vscreen; for a horizontal border the top vscreen is
/// one row above.
pub fn vscreen_of(point: Point, cell: Size) -> (index: Point)
    requires
        cell.w > 0,
        cell.h > 0,
        vscreen_index(point, cell).1 >= i32::MIN,
    ensures
        index.x == vscreen_index(point, cell).0,
        index.y == vscreen_index(point, cell).1,
{
    proof {
        lemma_quotient_bounds(point.x as int, cell.w as int);
        lemma_quotient_bounds(point.y as int, cell.h as int);
    }
    let x = match point.x.checked_div_euclid(cell.w) {
        Some(q) => q,
        None => 0,
    };
    let mut y = match point.y.checked_div_euclid(cell.h) {
        Some(q) => q,
        None => 0,
    };
    let rem = match point.y.checked_rem_euclid(cell.h) {
        Some(r) => r,
        None => 0,
    };
    if rem == 0 {
        y = y - 1;
    }
    Point { x, y }
}

/// The rectangle of the vscreen at a grid index, in integers.
pub open spec fn vscreen_area(index: Point, cell: Size) -> (int, int) {
    (index.x * cell.w, index.y * cell.h)
}

/// The rectangle of the vscreen at a grid index (layer coordinates): its
/// corner is the index scaled by the cell size, its size the cell's.
pub fn vscreen_rect(index: Point, cell: Size) -> (rect: Rectangle)
    requires
        i32::MIN <= index.x * cell.w <= i32::MAX,
        i32::MIN <= index.y * cell.h <= i32::MAX,
    ensures
        rect.loc.x == index.x * cell.w,
        rect.loc.y == index.y * cell.h,
        rect.size == cell,
{
    Rectangle { loc: Point { x: index.x * cell.w, y: index.y * cell.h }, size: cell }
}

/// A point lies in the rectangle of its vscreen, with the right-top
/// tie-break: in the column `[x0, x0 + w)`, so a point on a vertical border
/// belongs to the vscreen on its right, and in the row `(y0, y0 + h]`, so a
/// point on a horizontal border belongs to the vscreen above it.
pub proof fn lemma_point_in_its_vscreen(p: Point, cell: Size)
    requires
        cell.w > 0,
        cell.h > 0,
    ensures
        ({
            let (cx, cy) = vscreen_index(p, cell);
            &&& cx * cell.w <= p.x < cx * cell.w + cell.w
            &&& cy * cell.h < p.y <= cy * cell.h + cell.h
            &&& (p.y == cy * cell.h + cell.h <==> (p.y as int) % (cell.h as int) == 0)
        }),
{
    let w = cell.w as int;
    let h = cell.h as int;
    lemma_quotient_bounds(p.x as int, w);
    lemma_quotient_bounds(p.y as int, h);
    let (cx, cy) = vscreen_index(p, cell);
    lemma_mul_is_commutative(cx, w);
    lemma_mul_is_commutative(p.y as int / h, h);
    lemma_mul_is_commutative(cy, h);
    if (p.y as int) % h == 0 {
        assert(cy * h == (p.y as int / h) * h - h) by (nonlinear_arith)
            requires
                cy == p.y as int / h - 1,
        ;
    }
}

/// Every point of a vscreen's rectangle under the right-top tie-break
/// (its left edge and its bottom edge included, its right edge and its top
/// edge excluded) maps back to that vscreen's index.
pub proof fn lemma_vscreen_of_interior(index: Point, cell: Size, p: Point)
    requires
        cell.w > 0,
        cell.h > 0,
        index.x * cell.w <= p.x < index.x * cell.w + cell.w,
        index.y * cell.h < p.y <= index.y * cell.h + cell.h,
    ensures
        vscreen_index(p, cell) == (index.x as int, index.y as int),
{
    let w = cell.w as int;
    let h = cell.h as int;
    lemma_mul_is_commutative(index.x as int, w);
    lemma_mul_is_commutative(index.y as int, h);
    lemma_fundamental_div_mod_converse(p.x as int, w, index.x as int, p.x - index.x * w);
    if p.y == index.y * h + h {
        assert((index.y as int + 1) * h == index.y * h + h) by (nonlinear_arith);
        lemma_fundamental_div_mod_converse(p.y as int, h, index.y as int + 1, 0);
    } else {
        lemma_fundamental_div_mod_converse(p.y as int, h, index.y as int, p.y - index.y * h);
    }
}

/// The element-wise minimum of the sizes that are present, folded left to
/// right; `None` when none is present.
pub open spec fn smallest_size(sizes: Seq<Option<Size>>) -> Option<Size>
    decreases sizes.len(),
{
    if sizes.len() == 0 {
        None
    } else {
        let prev = smallest_size(sizes.drop_last());
        match sizes.last() {
            None => prev,
            Some(b) => match prev {
                None => Some(b),
                Some(a) => Some(
                    Size {
                        w: if b.w < a.w {
                            b.w
                        } else {
                            a.w
                        },
                        h: if b.h < a.h {
                            b.h
                        } else {
                            a.h
                        },
                    },
                ),
            },
        }
    }
}

/// The size of the smallest physical monitor: the element-wise minimum of
/// the logical sizes of the outputs that have a mode (`None` marks an
/// output without one), or `None` when no output has a mode.
pub fn smallest_monitor_size(sizes: &Vec<Option<Size>>) -> (r: Option<Size>)
    ensures
        r == smallest_size(sizes@),
{
    let mut acc: Option<Size> = None;
    let mut i: usize = 0;
    while i < sizes.len()
        invariant
            i <= sizes@.len(),
            acc == smallest_size(sizes@.take(i as int)),
        decreases sizes@.len() - i,
    {
        assert(sizes@.take(i as int + 1).drop_last() =~= sizes@.take(i as int));
        match sizes[i] {
            None => {},
            Some(b) => {
                acc = match acc {
                    None => Some(b),
                    Some(a) => Some(
                        Size {
                            w: if b.w < a.w {
                                b.w
                            } else {
                                a.w
                            },
                            h: if b.h < a.h {
                                b.h
                            } else {
                                a.h
                            },
                        },
                    ),
                };
            },
        }
        i = i + 1;
    }
    assert(sizes@.take(i as int) =~= sizes@);
    acc
}

/// The smallest monitor size is present exactly when some output has a
/// mode; it is no wider and no taller than any of them, and its width and
/// its height are each those of some output.
pub proof fn lemma_smallest_is_lower_bound(sizes: Seq<Option<Size>>)
    ensures
        smallest_size(sizes) is Some <==> exists|i: int| 0 <= i < sizes.len() && #[trigger] sizes[i] is Some,
        smallest_size(sizes) matches Some(r) ==> {
            &&& forall|i: int|
                0 <= i < sizes.len() && #[trigger] sizes[i] is Some ==> r.w <= sizes[i]->0.w && r.h
                    <= sizes[i]->0.h
            &&& exists|i: int| 0 <= i < sizes.len() && #[trigger] sizes[i] is Some && sizes[i]->0.w == r.w
            &&& exists|i: int| 0 <= i < sizes.len() && #[trigger] sizes[i] is Some && sizes[i]->0.h == r.h
        },
    decreases sizes.len(),
{
    if sizes.len() > 0 {
        let prefix = sizes.drop_last();
        lemma_smallest_is_lower_bound(prefix);
        let last = sizes.len() - 1;
        assert forall|i: int| 0 <= i < last implies #[trigger] prefix[i] == sizes[i] by {}
        if exists|i: int| 0 <= i < sizes.len() && #[trigger] sizes[i] is Some {
            let i = choose|i: int| 0 <= i < sizes.len() && #[trigger] sizes[i] is Some;
            if i < last {
                assert(prefix[i] is Some);
            }
            assert(smallest_size(sizes) is Some);
        }
        if smallest_size(prefix) is Some {
            let i = choose|i: int| 0 <= i < prefix.len() && #[trigger] prefix[i] is Some;
            assert(sizes[i] is Some);
        }
        if let Some(r) = smallest_size(sizes) {
            assert forall|i: int| 0 <= i < sizes.len() && #[trigger] sizes[i] is Some implies r.w
                <= sizes[i]->0.w && r.h <= sizes[i]->0.h by {
                if i < last {
                    assert(prefix[i] is Some);
                }
            }
            match sizes[last] {
                Some(b) => {
                    match smallest_size(prefix) {
                        Some(a) => {
                            let iw = choose|i: int|
                                0 <= i < prefix.len() && #[trigger] prefix[i] is Some && prefix[i]->0.w == a.w;
                            let ih = choose|i: int|
                                0 <= i < prefix.len() && #[trigger] prefix[i] is Some && prefix[i]->0.h == a.h;
                            assert(sizes[iw] is Some && sizes[ih] is Some);
                            if b.w < a.w {
                                assert(sizes[last] is Some && sizes[last]->0.w == r.w);
                            } else {
                                assert(sizes[iw] is Some && sizes[iw]->0.w == r.w);
                            }
                            if b.h < a.h {
                                assert(sizes[last] is Some && sizes[last]->0.h == r.h);
                            } else {
                                assert(sizes[ih] is Some && sizes[ih]->0.h == r.h);
                            }
                        },
                        None => {
                            assert(sizes[last] is Some && sizes[last]->0.w == r.w);
                            assert(sizes[last] is Some && sizes[last]->0.h == r.h);
                        },
                    }
                },
                None => {
                    let iw = choose|i: int|
                        0 <= i < prefix.len() && #[trigger] prefix[i] is Some && prefix[i]->0.w == r.w;
                    let ih = choose|i: int|
                        0 <= i < prefix.len() && #[trigger] prefix[i] is Some && prefix[i]->0.h == r.h;
                    assert(sizes[iw] is Some && sizes[ih] is Some);
                },
            }
        }
    }
}

/// The smallest monitor size depends only on which sizes are present, not
/// on the order of the outputs (nor on repeats).
pub proof fn lemma_smallest_order_independent(s: Seq<Option<Size>>, t: Seq<Option<Size>>)
    requires
        forall|x: Option<Size>| s.contains(x) <==> t.contains(x),
    ensures
        smallest_size(s) == smallest_size(t),
{
    lemma_smallest_is_lower_bound(s);
    lemma_smallest_is_lower_bound(t);
    lemma_present_shared(s, t);
    lemma_present_shared(t, s);
    if let (Some(rs), Some(rt)) = (smallest_size(s), smallest_size(t)) {
        let iw = choose|i: int| 0 <= i < t.len() && #[trigger] t[i] is Some && t[i]->0.w == rt.w;
        let ih = choose|i: int| 0 <= i < t.len() && #[trigger] t[i] is Some && t[i]->0.h == rt.h;
        let jw = choose|i: int| 0 <= i < s.len() && #[trigger] s[i] is Some && s[i]->0.w == rs.w;
        let jh = choose|i: int| 0 <= i < s.len() && #[trigger] s[i] is Some && s[i]->0.h == rs.h;
        assert(t.contains(t[iw]) && t.contains(t[ih]) && s.contains(s[jw]) && s.contains(s[jh]));
        let kw = choose|k: int| 0 <= k < s.len() && s[k] == t[iw];
        let kh = choose|k: int| 0 <= k < s.len() && s[k] == t[ih];
        let lw = choose|k: int| 0 <= k < t.len() && t[k] == s[jw];
        let lh = choose|k: int| 0 <= k < t.len() && t[k] == s[jh];
        assert(s[kw] is Some && s[kh] is Some && t[lw] is Some && t[lh] is Some);
    }
}

/// One sequence has a present size exactly when the other has one, when
/// they hold the same values.
proof fn lemma_present_shared(s: Seq<Option<Size>>, t: Seq<Option<Size>>)
    requires
        forall|x: Option<Size>| s.contains(x) <==> t.contains(x),
    ensures
        (exists|i: int| 0 <= i < s.len() && #[trigger] s[i] is Some) ==> (exists|i: int|
            0 <= i < t.len() && #[trigger] t[i] is Some),
{
    if exists|i: int| 0 <= i < s.len() && #[trigger] s[i] is Some {
        let i = choose|i: int| 0 <= i < s.len() && #[trigger] s[i] is Some;
        assert(s.contains(s[i]));
        let k = choose|k: int| 0 <= k < t.len() && t[k] == s[i];
        assert(t[k] is Some);
    }
}

} // verus!
