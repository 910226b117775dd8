//! Points and affine transforms in page coordinates.
//!
//! Coordinates and transform coefficients are whole numbers of the layout's
//! smallest unit, so that composing transforms is exact. The mathematical
//! model works over unbounded integers; the executable operations answer
//! `None` as soon as a result leaves the machine range.

use vstd::prelude::*;

verus! {

/// A point of the plane, over unbounded integers.
pub struct Vector {
    pub x: int,
    pub y: int,
}

/// An affine map of the plane, over unbounded integers.
///
/// It sends `(x, y)` to `(sx * x + kx * y + tx, ky * x + sy * y + ty)`.
pub struct Affine {
    pub sx: int,
    pub ky: int,
    pub kx: int,
    pub sy: int,
    pub tx: int,
    pub ty: int,
}

/// Where an element lands: its page, counted from one, and the point in page
/// coordinates.
pub struct Place {
    pub page: int,
    pub point: Vector,
}

/// Whether an integer can be held in a coordinate.
pub open spec fn fits(v: int) -> bool {
    i64::MIN <= v <= i64::MAX
}

impl Vector {
    pub open spec fn origin() -> Vector {
        Vector { x: 0, y: 0 }
    }

    pub open spec fn plus(self, other: Vector) -> Vector {
        Vector { x: self.x + other.x, y: self.y + other.y }
    }

    pub open spec fn fits(self) -> bool {
        fits(self.x) && fits(self.y)
    }
}

impl Affine {
    pub open spec fn identity() -> Affine {
        Affine { sx: 1, ky: 0, kx: 0, sy: 1, tx: 0, ty: 0 }
    }

    /// The map that moves every point by `(tx, ty)`.
    pub open spec fn translate(tx: int, ty: int) -> Affine {
        Affine { sx: 1, ky: 0, kx: 0, sy: 1, tx, ty }
    }

    /// The image of `p` under this map.
    pub open spec fn apply(self, p: Vector) -> Vector {
        Vector {
            x: self.sx * p.x + self.kx * p.y + self.tx,
            y: self.ky * p.x + self.sy * p.y + self.ty,
        }
    }

    /// The map that applies `prev` first and this map afterwards.
    pub open spec fn pre_concat(self, prev: Affine) -> Affine {
        Affine {
            sx: self.sx * prev.sx + self.kx * prev.ky,
            ky: self.ky * prev.sx + self.sy * prev.ky,
            kx: self.sx * prev.kx + self.kx * prev.sy,
            sy: self.ky * prev.kx + self.sy * prev.sy,
            tx: self.sx * prev.tx + self.kx * prev.ty + self.tx,
            ty: self.ky * prev.tx + self.sy * prev.ty + self.ty,
        }
    }

    pub open spec fn fits(self) -> bool {
        &&& fits(self.sx)
        &&& fits(self.ky)
        &&& fits(self.kx)
        &&& fits(self.sy)
        &&& fits(self.tx)
        &&& fits(self.ty)
    }

    /// The map under which the items of a group are seen from the page, when
    /// the group stands at `offset` and carries `local`, and its parent is
    /// seen under this map.
    pub open spec fn descend(self, offset: Vector, local: Affine) -> Affine {
        self.pre_concat(Affine::translate(offset.x, offset.y)).pre_concat(local)
    }
}

/// A point in page coordinates.
#[derive(Clone, Copy, Debug, PartialEq, Eq, Structural)]
pub struct Point {
    pub x: i64,
    pub y: i64,
}

/// An affine transform with whole coefficients.
#[derive(Clone, Copy, Debug, PartialEq, Eq, Structural)]
pub struct Transform {
    pub sx: i64,
    pub ky: i64,
    pub kx: i64,
    pub sy: i64,
    pub tx: i64,
    pub ty: i64,
}

/// The place of an element: its page, counted from one, and a point on it.
#[derive(Clone, Copy, Debug, PartialEq, Eq, Structural)]
pub struct Position {
    pub page: usize,
    pub point: Point,
}

impl View for Point {
    type V = Vector;

    open spec fn view(&self) -> Vector {
        Vector { x: self.x as int, y: self.y as int }
    }
}

impl View for Position {
    type V = Place;

    open spec fn view(&self) -> Place {
        Place { page: self.page as int, point: self.point@ }
    }
}

impl View for Transform {
    type V = Affine;

    open spec fn view(&self) -> Affine {
        Affine {
            sx: self.sx as int,
            ky: self.ky as int,
            kx: self.kx as int,
            sy: self.sy as int,
            tx: self.tx as int,
            ty: self.ty as int,
        }
    }
}

proof fn product_bound(a: i64, b: i64)
    ensures
        -0x4000_0000_0000_0000_0000_0000_0000_0000 <= (a as int) * (b as int)
            <= 0x4000_0000_0000_0000_0000_0000_0000_0000,
{
    assert(-0x4000_0000_0000_0000_0000_0000_0000_0000 <= (a as int) * (b as int)
        <= 0x4000_0000_0000_0000_0000_0000_0000_0000) by (nonlinear_arith)
        requires
            -0x8000_0000_0000_0000 <= (a as int) <= 0x8000_0000_0000_0000,
            -0x8000_0000_0000_0000 <= (b as int) <= 0x8000_0000_0000_0000,
    ;
}

/// Computes `a * b + c * d + e`, or `None` where that leaves the machine range.
fn affine_term(a: i64, b: i64, c: i64, d: i64, e: i64) -> (r: Option<i64>)
    ensures
        match r {
            Some(v) => v as int == a * b + c * d + e,
            None => !fits(a * b + c * d + e),
        },
{
    proof {
        product_bound(a, b);
        product_bound(c, d);
    }
    let first: i128 = (a as i128) * (b as i128);
    let second: i128 = (c as i128) * (d as i128);
    let shifted: i128 = first + (e as i128);
    match shifted.checked_add(second) {
        Some(total) => {
            if total < (i64::MIN as i128) || total > (i64::MAX as i128) {
                None
            } else {
                Some(total as i64)
            }
        },
        None => None,
    }
}

impl Point {
    /// The origin of a page.
    pub fn zero() -> (r: Point)
        ensures
            r@ == Vector::origin(),
    {
        Point { x: 0, y: 0 }
    }

    /// The image of this point under `ts`, or `None` exactly where a
    /// coordinate of the image leaves the machine range.
    pub fn transform(self, ts: Transform) -> (r: Option<Point>)
        ensures
            r.is_some() <==> ts@.apply(self@).fits(),
            r.is_some() ==> r.unwrap()@ == ts@.apply(self@),
    {
        let x: i64 = match affine_term(ts.sx, self.x, ts.kx, self.y, ts.tx) {
            Some(v) => v,
            None => {
                return None;
            },
        };
        let y: i64 = match affine_term(ts.ky, self.x, ts.sy, self.y, ts.ty) {
            Some(v) => v,
            None => {
                return None;
            },
        };
        Some(Point { x, y })
    }
}

impl Transform {
    /// The transform that leaves every point where it is.
    pub fn identity() -> (r: Transform)
        ensures
            r@ == Affine::identity(),
    {
        Transform { sx: 1, ky: 0, kx: 0, sy: 1, tx: 0, ty: 0 }
    }

    /// The transform that moves every point by `(tx, ty)`.
    pub fn translate(tx: i64, ty: i64) -> (r: Transform)
        ensures
            r@ == Affine::translate(tx as int, ty as int),
    {
        Transform { sx: 1, ky: 0, kx: 0, sy: 1, tx, ty }
    }

    /// The transform that applies `prev` first and this one afterwards, or
    /// `None` exactly where one of its coefficients leaves the machine range.
    pub fn pre_concat(self, prev: Transform) -> (r: Option<Transform>)
        ensures
            r.is_some() <==> self@.pre_concat(prev@).fits(),
            r.is_some() ==> r.unwrap()@ == self@.pre_concat(prev@),
    {
        let sx: i64 = match affine_term(self.sx, prev.sx, self.kx, prev.ky, 0) {
            Some(v) => v,
            None => {
                return None;
            },
        };
        let ky: i64 = match affine_term(self.ky, prev.sx, self.sy, prev.ky, 0) {
            Some(v) => v,
            None => {
                return None;
            },
        };
        let kx: i64 = match affine_term(self.sx, prev.kx, self.kx, prev.sy, 0) {
            Some(v) => v,
            None => {
                return None;
            },
        };
        let sy: i64 = match affine_term(self.ky, prev.kx, self.sy, prev.sy, 0) {
            Some(v) => v,
            None => {
                return None;
            },
        };
        let tx: i64 = match affine_term(self.sx, prev.tx, self.kx, prev.ty, self.tx) {
            Some(v) => v,
            None => {
                return None;
            },
        };
        let ty: i64 = match affine_term(self.ky, prev.tx, self.sy, prev.ty, self.ty) {
            Some(v) => v,
            None => {
                return None;
            },
        };
        Some(Transform { sx, ky, kx, sy, tx, ty })
    }
}

/// Applying a composed map is applying its parts in turn: first `prev`, then
/// `next`.
pub proof fn lemma_pre_concat_applies_in_turn(next: Affine, prev: Affine, p: Vector)
    ensures
        next.pre_concat(prev).apply(p) == next.apply(prev.apply(p)),
{
    let q = prev.apply(p);
    assert(next.sx * q.x == next.sx * (prev.sx * p.x) + next.sx * (prev.kx * p.y) + next.sx
        * prev.tx) by (nonlinear_arith)
        requires
            q.x == prev.sx * p.x + prev.kx * p.y + prev.tx,
    ;
    assert(next.kx * q.y == next.kx * (prev.ky * p.x) + next.kx * (prev.sy * p.y) + next.kx
        * prev.ty) by (nonlinear_arith)
        requires
            q.y == prev.ky * p.x + prev.sy * p.y + prev.ty,
    ;
    assert(next.ky * q.x == next.ky * (prev.sx * p.x) + next.ky * (prev.kx * p.y) + next.ky
        * prev.tx) by (nonlinear_arith)
        requires
            q.x == prev.sx * p.x + prev.kx * p.y + prev.tx,
    ;
    assert(next.sy * q.y == next.sy * (prev.ky * p.x) + next.sy * (prev.sy * p.y) + next.sy
        * prev.ty) by (nonlinear_arith)
        requires
            q.y == prev.ky * p.x + prev.sy * p.y + prev.ty,
    ;
    assert((next.sx * prev.sx + next.kx * prev.ky) * p.x == next.sx * (prev.sx * p.x) + next.kx
        * (prev.ky * p.x)) by (nonlinear_arith);
    assert((next.sx * prev.kx + next.kx * prev.sy) * p.y == next.sx * (prev.kx * p.y) + next.kx
        * (prev.sy * p.y)) by (nonlinear_arith);
    assert((next.ky * prev.sx + next.sy * prev.ky) * p.x == next.ky * (prev.sx * p.x) + next.sy
        * (prev.ky * p.x)) by (nonlinear_arith);
    assert((next.ky * prev.kx + next.sy * prev.sy) * p.y == next.ky * (prev.kx * p.y) + next.sy
        * (prev.sy * p.y)) by (nonlinear_arith);
}

} // verus!
