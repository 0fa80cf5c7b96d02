//! Plain integer geometry in logical layer coordinates.

use vstd::prelude::*;

verus! {

/// A point in logical coordinates.
#[derive(Clone, Copy, Debug, PartialEq, Eq, Structural)]
pub struct Point {
    pub x: i32,
    pub y: i32,
}

/// A size in logical coordinates.
#[derive(Clone, Copy, Debug, PartialEq, Eq, Structural)]
pub struct Size {
    pub w: i32,
    pub h: i32,
}

/// A rectangle: its top-left corner and its size.
#[derive(Clone, Copy, Debug, PartialEq, Eq, Structural)]
pub struct Rectangle {
    pub loc: Point,
    pub size: Size,
}

impl Point {
    pub fn new(x: i32, y: i32) -> (p: Point)
        ensures
            p.x == x,
            p.y == y,
    {
        Point { x, y }
    }
}

impl Size {
    pub fn new(w: i32, h: i32) -> (s: Size)
        ensures
            s.w == w,
            s.h == h,
    {
        Size { w, h }
    }
}

impl Rectangle {
    pub fn new(loc: Point, size: Size) -> (r: Rectangle)
        ensures
            r.loc == loc,
            r.size == size,
    {
        Rectangle { loc, size }
    }
}

/// The orientation of an output: a rotation by a multiple of a quarter
/// turn, optionally preceded by a flip.
#[derive(Clone, Copy, Debug, PartialEq, Eq, Structural)]
pub enum Transform {
    Normal,
    Rotate90,
    Rotate180,
    Rotate270,
    Flipped,
    Flipped90,
    Flipped180,
    Flipped270,
}

/// Whether the transform turns the output by a quarter turn, so that its
/// width and height trade places.
pub open spec fn is_quarter_turn(t: Transform) -> bool {
    t == Transform::Rotate90 || t == Transform::Rotate270 || t == Transform::Flipped90
        || t == Transform::Flipped270
}

/// The size of an area after the transform is applied to it.
pub open spec fn transformed_size(t: Transform, size: Size) -> Size {
    if is_quarter_turn(t) {
        Size { w: size.h, h: size.w }
    } else {
        size
    }
}

/// The size of an area after the transform: width and height are swapped
/// for the quarter turns and kept otherwise.
pub fn transform_size(t: Transform, size: Size) -> (r: Size)
    ensures
        r == transformed_size(t, size),
{
    match t {
        Transform::Rotate90 | Transform::Rotate270 | Transform::Flipped90 | Transform::Flipped270 => {
            Size { w: size.h, h: size.w }
        },
        _ => size,
    }
}

/// The size of the area an output shows: the logical size of its current
/// mode after its transform, or an empty size when it has no mode.
pub fn viewport_size(mode_size: Option<Size>, t: Transform) -> (r: Size)
    ensures
        r == (match mode_size {
            Some(s) => transformed_size(t, s),
            None => Size { w: 0, h: 0 },
        }),
{
    match mode_size {
        Some(s) => transform_size(t, s),
        None => Size { w: 0, h: 0 },
    }
}

} // verus!
