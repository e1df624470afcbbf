//! The pixel surface that the primitives draw onto.
//!
//! A surface is anything that accepts "set pixel (x, y) to color c" requests;
//! out-of-range coordinates are the surface's own concern, not the
//! rasterizer's. [`Canvas`] is the concrete surface of this crate: it records
//! the writes it receives, in order, so that contracts can speak of exactly
//! which pixels a draw call produced.

use vstd::prelude::*;

verus! {

/// An RGBA color with four 8-bit channels.
#[derive(Clone, Copy, PartialEq, Eq, Structural, Debug)]
pub struct Color {
    pub r: u8,
    pub g: u8,
    pub b: u8,
    pub a: u8,
}

/// One recorded pixel write: a position and the color put there.
#[derive(Clone, Copy, PartialEq, Eq, Structural, Debug)]
pub struct PixelWrite {
    pub x: i32,
    pub y: i32,
    pub color: Color,
}

/// A pixel-settable surface.
///
/// `writes` is the surface's history: every write it has accepted, oldest
/// first. `display` appends one write to that history.
pub trait Displayable {
    /// The pixel writes this surface has received so far, in order.
    spec fn writes(&self) -> Seq<PixelWrite>;

    /// Accept the pixel write `(x, y, color)`.
    fn display(&mut self, x: i32, y: i32, color: Color)
        ensures
            final(self).writes() == old(self).writes().push(PixelWrite { x, y, color }),
    ;
}

/// The set of positions a sequence of pixel writes touches, colors and
/// multiplicities disregarded.
pub open spec fn positions_of(s: Seq<PixelWrite>) -> Set<(int, int)> {
    Set::new(
        |q: (int, int)|
            exists|i: int|
                0 <= i < s.len() && (#[trigger] s[i]).x == q.0 && s[i].y == q.1,
    )
}

/// A position is touched by a concatenation of writes exactly when one of
/// the two parts touches it.
pub proof fn lemma_positions_concat(s1: Seq<PixelWrite>, s2: Seq<PixelWrite>, q: (int, int))
    ensures
        positions_of(s1 + s2).contains(q) <==> (positions_of(s1).contains(q) || positions_of(
            s2,
        ).contains(q)),
{
    let s = s1 + s2;
    if positions_of(s).contains(q) {
        let i = choose|i: int| 0 <= i < s.len() && (#[trigger] s[i]).x == q.0 && s[i].y == q.1;
        if i < s1.len() {
            assert(s1[i] == s[i]);
        } else {
            assert(s2[i - s1.len()] == s[i]);
        }
    }
    if positions_of(s1).contains(q) {
        let i = choose|i: int| 0 <= i < s1.len() && (#[trigger] s1[i]).x == q.0 && s1[i].y == q.1;
        assert(s[i] == s1[i]);
    }
    if positions_of(s2).contains(q) {
        let i = choose|i: int| 0 <= i < s2.len() && (#[trigger] s2[i]).x == q.0 && s2[i].y == q.1;
        assert(s[s1.len() + i] == s2[i]);
    }
}

/// A surface that simply records the writes made to it.
///
/// The recorded writes can later be replayed onto a real image buffer;
/// replaying is the caller's business and happens outside this crate.
pub struct Canvas {
    pub pixels: Vec<PixelWrite>,
}

impl Canvas {
    /// A canvas with no writes yet.
    pub fn new() -> (c: Canvas)
        ensures
            c.writes() == Seq::<PixelWrite>::empty(),
    {
        Canvas { pixels: Vec::new() }
    }
}

impl Displayable for Canvas {
    open spec fn writes(&self) -> Seq<PixelWrite> {
        self.pixels@
    }

    fn display(&mut self, x: i32, y: i32, color: Color) {
        self.pixels.push(PixelWrite { x, y, color });
    }
}

} // verus!
