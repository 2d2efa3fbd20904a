//! The shapes and the colour palette that the shape games draw from. A
//! colour is an index into a palette of ten; the renderer owns the actual
//! colours.

use vstd::prelude::*;

verus! {

#[derive(Clone, Copy, Debug, PartialEq, Eq, Structural)]
pub enum Shape {
    Circle,
    Square,
    Triangle,
    Hexagon,
    Pentagon,
    Octagon,
    Quad,
}

/// Number of shapes.
pub const SHAPE_COUNT: usize = 7;

/// Number of colours in the palette; a colour is an index below it.
pub const COLOR_COUNT: u8 = 10;

/// The shapes in their fixed order.
pub open spec fn shape_order() -> Seq<Shape> {
    seq![
        Shape::Circle,
        Shape::Square,
        Shape::Triangle,
        Shape::Hexagon,
        Shape::Pentagon,
        Shape::Octagon,
        Shape::Quad,
    ]
}

/// The palette indices in order: `0, 1, ..., 9`.
pub open spec fn color_order() -> Seq<u8> {
    Seq::new(COLOR_COUNT as nat, |i: int| i as u8)
}

/// All shapes, in their fixed order.
pub fn all_shapes() -> (r: Vec<Shape>)
    ensures
        r@ == shape_order(),
{
    let r = vec![
        Shape::Circle,
        Shape::Square,
        Shape::Triangle,
        Shape::Hexagon,
        Shape::Pentagon,
        Shape::Octagon,
        Shape::Quad,
    ];
    assert(r@ =~= shape_order());
    r
}

/// All palette indices, in order.
pub fn all_colors() -> (r: Vec<u8>)
    ensures
        r@ == color_order(),
{
    let mut r: Vec<u8> = Vec::new();
    let mut c: u8 = 0;
    while c < COLOR_COUNT
        invariant
            c <= COLOR_COUNT,
            r@.len() == c,
            forall|i: int| 0 <= i < c ==> r@[i] == i,
        decreases COLOR_COUNT - c,
    {
        r.push(c);
        c = c + 1;
    }
    assert(r@ =~= color_order());
    r
}

} // verus!
