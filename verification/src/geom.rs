//! Integer geometry primitives.
//!
//! All coordinates are fixed-point integers. Rectangle centers and extents
//! are kept in *doubled* coordinates so that the center of a pixel-aligned
//! box is exact. Angles are kept in microradians, normalized to a canonical
//! half-open half turn.

use vstd::prelude::*;

verus! {

/// Largest magnitude allowed for a single (non-doubled) coordinate. Keeping
/// coordinates in this range makes every sum and difference the crate forms
/// fit comfortably in `i64`.
pub const COORD_LIMIT: i64 = 0x4000_0000;

/// Half a turn (pi radians) in microradians.
pub const HALF_TURN_URAD: i64 = 3_141_593;

/// A point with integer coordinates.
#[derive(Clone, Copy, Debug, PartialEq, Eq, Structural)]
pub struct Point {
    pub x: i64,
    pub y: i64,
}

impl Point {
    /// Whether both coordinates are within the range the crate works in.
    pub open spec fn wf(self) -> bool {
        -COORD_LIMIT <= self.x <= COORD_LIMIT && -COORD_LIMIT <= self.y <= COORD_LIMIT
    }

    pub fn new(x: i64, y: i64) -> (p: Point)
        requires
            -COORD_LIMIT <= x <= COORD_LIMIT,
            -COORD_LIMIT <= y <= COORD_LIMIT,
        ensures
            p == (Point { x, y }),
            p.wf(),
    {
        Point { x, y }
    }
}

/// An axis-aligned rectangle, as the closed region
/// `[left, right] x [top, bottom]`.
#[derive(Clone, Copy, Debug, PartialEq, Eq, Structural)]
pub struct Rect {
    pub left: i64,
    pub top: i64,
    pub right: i64,
    pub bottom: i64,
}

impl Rect {
    /// Edges are ordered and within the coordinate range.
    pub open spec fn wf(self) -> bool {
        &&& -COORD_LIMIT <= self.left <= self.right <= COORD_LIMIT
        &&& -COORD_LIMIT <= self.top <= self.bottom <= COORD_LIMIT
    }

    /// Whether `p` lies in the closed region covered by `self`.
    pub open spec fn spec_contains_point(self, p: Point) -> bool {
        self.left <= p.x <= self.right && self.top <= p.y <= self.bottom
    }

    pub fn new(left: i64, top: i64, right: i64, bottom: i64) -> (r: Rect)
        requires
            -COORD_LIMIT <= left <= right <= COORD_LIMIT,
            -COORD_LIMIT <= top <= bottom <= COORD_LIMIT,
        ensures
            r == (Rect { left, top, right, bottom }),
            r.wf(),
    {
        Rect { left, top, right, bottom }
    }

    pub fn width(&self) -> (w: i64)
        requires
            self.wf(),
        ensures
            w == self.right - self.left,
    {
        self.right - self.left
    }

    pub fn height(&self) -> (h: i64)
        requires
            self.wf(),
        ensures
            h == self.bottom - self.top,
    {
        self.bottom - self.top
    }

    pub fn contains_point(&self, p: Point) -> (b: bool)
        ensures
            b == self.spec_contains_point(p),
    {
        self.left <= p.x && p.x <= self.right && self.top <= p.y && p.y <= self.bottom
    }

    /// Whether the closed regions of `self` and `other` share a point.
    pub fn intersects(&self, other: &Rect) -> (b: bool)
        requires
            self.wf(),
            other.wf(),
        ensures
            b == (exists|p: Point| self.spec_contains_point(p)
                && other.spec_contains_point(p)),
    {
        let overlapping = self.left <= other.right && other.left <= self.right
            && self.top <= other.bottom && other.top <= self.bottom;
        proof {
            if overlapping {
                let px: i64 = if self.left >= other.left { self.left } else { other.left };
                let py: i64 = if self.top >= other.top { self.top } else { other.top };
                let w = Point { x: px, y: py };
                assert(self.spec_contains_point(w) && other.spec_contains_point(w));
            }
        }
        overlapping
    }

    /// The smallest rectangle containing both `self` and `other`.
    pub fn union(&self, other: &Rect) -> (r: Rect)
        requires
            self.wf(),
            other.wf(),
        ensures
            r.wf(),
            r.left == if self.left <= other.left { self.left } else { other.left },
            r.top == if self.top <= other.top { self.top } else { other.top },
            r.right == if self.right >= other.right { self.right } else { other.right },
            r.bottom == if self.bottom >= other.bottom { self.bottom } else { other.bottom },
    {
        Rect {
            left: if self.left <= other.left { self.left } else { other.left },
            top: if self.top <= other.top { self.top } else { other.top },
            right: if self.right >= other.right { self.right } else { other.right },
            bottom: if self.bottom >= other.bottom { self.bottom } else { other.bottom },
        }
    }
}

/// The smallest axis-aligned rectangle enclosing every point of `points`,
/// or `None` when `points` is empty.
///
/// This is the minimum-area enclosing rectangle over the point set among
/// axis-aligned candidates; the crate fits all its boxes axis-aligned, since
/// a rotated minimum-area fit needs trigonometry on reals.
pub fn bounding_rect_of_points(points: &Vec<Point>) -> (r: Option<Rect>)
    requires
        forall|i: int| 0 <= i < points@.len() ==> (#[trigger] points@[i]).wf(),
    ensures
        r is None <==> points@.len() == 0,
        r is Some ==> {
            let rect = r->Some_0;
            &&& rect.wf()
            &&& forall|i: int| 0 <= i < points@.len()
                ==> rect.spec_contains_point(#[trigger] points@[i])
            &&& forall|q: Rect|
                (forall|i: int| 0 <= i < points@.len()
                    ==> q.spec_contains_point(#[trigger] points@[i]))
                ==> q.left <= rect.left && q.top <= rect.top
                    && rect.right <= q.right && rect.bottom <= q.bottom
        },
{
    if points.len() == 0 {
        return None;
    }
    let first = points[0];
    let mut left: i64 = first.x;
    let mut right: i64 = first.x;
    let mut top: i64 = first.y;
    let mut bottom: i64 = first.y;
    let mut i: usize = 1;
    while i < points.len()
        invariant
            1 <= i <= points@.len(),
            forall|j: int| 0 <= j < points@.len() ==> (#[trigger] points@[j]).wf(),
            -COORD_LIMIT <= left <= right <= COORD_LIMIT,
            -COORD_LIMIT <= top <= bottom <= COORD_LIMIT,
            forall|j: int| 0 <= j < i
                ==> left <= (#[trigger] points@[j]).x <= right
                    && top <= points@[j].y <= bottom,
            exists|j: int| 0 <= j < i && (#[trigger] points@[j]).x == left,
            exists|j: int| 0 <= j < i && (#[trigger] points@[j]).x == right,
            exists|j: int| 0 <= j < i && (#[trigger] points@[j]).y == top,
            exists|j: int| 0 <= j < i && (#[trigger] points@[j]).y == bottom,
        decreases points@.len() - i,
    {
        let p = points[i];
        if p.x < left {
            left = p.x;
        }
        if p.x > right {
            right = p.x;
        }
        if p.y < top {
            top = p.y;
        }
        if p.y > bottom {
            bottom = p.y;
        }
        i += 1;
    }
    let rect = Rect { left, top, right, bottom };
    proof {
        assert forall|q: Rect|
            (forall|k: int| 0 <= k < points@.len()
                ==> q.spec_contains_point(#[trigger] points@[k]))
            implies q.left <= rect.left && q.top <= rect.top
                && rect.right <= q.right && rect.bottom <= q.bottom by {
            let jl = choose|j: int| 0 <= j < points@.len() && (#[trigger] points@[j]).x == left;
            let jr = choose|j: int| 0 <= j < points@.len() && (#[trigger] points@[j]).x == right;
            let jt = choose|j: int| 0 <= j < points@.len() && (#[trigger] points@[j]).y == top;
            let jb = choose|j: int| 0 <= j < points@.len() && (#[trigger] points@[j]).y == bottom;
            assert(q.spec_contains_point(points@[jl]));
            assert(q.spec_contains_point(points@[jr]));
            assert(q.spec_contains_point(points@[jt]));
            assert(q.spec_contains_point(points@[jb]));
        }
    }
    Some(rect)
}

/// Floor division of `a` by two. The spec-level `/` on `int` is Euclidean,
/// so the contract is simply `a / 2` over `int`.
pub fn half_floor(a: i64) -> (r: i64)
    requires
        -8 * COORD_LIMIT <= a <= 8 * COORD_LIMIT,
    ensures
        r == a as int / 2,
{
    if a >= 0 {
        a / 2
    } else {
        (a - 1) / 2
    }
}

/// Ceiling division of `a` by two.
pub fn half_ceil(a: i64) -> (r: i64)
    requires
        -4 * COORD_LIMIT <= a <= 4 * COORD_LIMIT,
    ensures
        r == (a + 1) as int / 2,
{
    half_floor(a + 1)
}

/// A rectangle described by its center, extents and a rotation angle.
///
/// `cx2` and `cy2` are the center in doubled coordinates, `width` and
/// `height` the (non-doubled) extents, so the axis-aligned footprint spans
/// `[cx2 - width, cx2 + width]` in doubled coordinates. The angle is in
/// microradians, normalized to the canonical half turn
/// `(-HALF_TURN_URAD, HALF_TURN_URAD]`.
#[derive(Clone, Copy, Debug, PartialEq, Eq, Structural)]
pub struct RotatedRect {
    pub cx2: i64,
    pub cy2: i64,
    pub width: i64,
    pub height: i64,
    pub angle_urad: i64,
}

/// Whether `a` is in the canonical angle range.
pub open spec fn angle_canonical(a: i64) -> bool {
    -HALF_TURN_URAD < a <= HALF_TURN_URAD
}

/// Whether `a` and `b` denote the same rotation, that is, differ by a whole
/// number of turns.
pub open spec fn same_angle(a: int, b: int) -> bool {
    exists|k: int| b == a + #[trigger] (k * (2 * HALF_TURN_URAD))
}

impl RotatedRect {
    /// Extents are non-negative, the footprint is in range and the angle is
    /// canonical.
    pub open spec fn wf(self) -> bool {
        &&& 0 <= self.width
        &&& 0 <= self.height
        &&& -2 * COORD_LIMIT <= self.left2() && self.right2() <= 2 * COORD_LIMIT
        &&& -2 * COORD_LIMIT <= self.top2() && self.bottom2() <= 2 * COORD_LIMIT
        &&& angle_canonical(self.angle_urad)
    }

    /// Left edge of the axis-aligned footprint, in doubled coordinates.
    pub open spec fn left2(self) -> int {
        self.cx2 - self.width
    }

    /// Right edge of the axis-aligned footprint, in doubled coordinates.
    pub open spec fn right2(self) -> int {
        self.cx2 + self.width
    }

    /// Top edge of the axis-aligned footprint, in doubled coordinates.
    pub open spec fn top2(self) -> int {
        self.cy2 - self.height
    }

    /// Bottom edge of the axis-aligned footprint, in doubled coordinates.
    pub open spec fn bottom2(self) -> int {
        self.cy2 + self.height
    }

    pub fn new(cx2: i64, cy2: i64, width: i64, height: i64, angle_urad: i64) -> (r: RotatedRect)
        requires
            0 <= width,
            0 <= height,
            -2 * COORD_LIMIT <= cx2 - width && cx2 + width <= 2 * COORD_LIMIT,
            -2 * COORD_LIMIT <= cy2 - height && cy2 + height <= 2 * COORD_LIMIT,
            angle_urad > i64::MIN,
        ensures
            r.wf(),
            r.cx2 == cx2,
            r.cy2 == cy2,
            r.width == width,
            r.height == height,
            same_angle(angle_urad as int, r.angle_urad as int),
    {
        RotatedRect { cx2, cy2, width, height, angle_urad: normalize_angle(angle_urad) }
    }

    /// The rotated rectangle covering exactly the axis-aligned `rect`.
    pub fn from_rect(rect: Rect) -> (r: RotatedRect)
        requires
            rect.wf(),
        ensures
            r.wf(),
            r.cx2 == rect.left + rect.right,
            r.cy2 == rect.top + rect.bottom,
            r.width == rect.right - rect.left,
            r.height == rect.bottom - rect.top,
            r.angle_urad == 0,
            r.left2() == 2 * rect.left,
            r.right2() == 2 * rect.right,
            r.top2() == 2 * rect.top,
            r.bottom2() == 2 * rect.bottom,
    {
        RotatedRect {
            cx2: rect.left + rect.right,
            cy2: rect.top + rect.bottom,
            width: rect.right - rect.left,
            height: rect.bottom - rect.top,
            angle_urad: 0,
        }
    }

    /// The axis-aligned rectangle covering the axis-aligned footprint, in
    /// non-doubled coordinates: edges are halved, rounding outward.
    ///
    /// The footprint ignores the angle: for a rotated rectangle this is
    /// the box of its unrotated extent, not of its rotated corners, whose
    /// exact positions need trigonometry on reals. Every rectangle this
    /// pipeline fits is axis-aligned.
    pub fn bounding_rect(&self) -> (r: Rect)
        requires
            self.wf(),
        ensures
            r.wf(),
            r.left == self.left2() / 2,
            r.top == self.top2() / 2,
            r.right == (self.right2() + 1) / 2,
            r.bottom == (self.bottom2() + 1) / 2,
    {
        let left = half_floor(self.cx2 - self.width);
        let top = half_floor(self.cy2 - self.height);
        let right = half_ceil(self.cx2 + self.width);
        let bottom = half_ceil(self.cy2 + self.height);
        Rect { left, top, right, bottom }
    }

    /// Check well-formedness: extents non-negative, footprint in range,
    /// angle canonical. Lets a caller validate a rectangle it did not
    /// construct through this crate before handing it to functions that
    /// require well-formedness.
    pub fn is_wf(&self) -> (r: bool)
        ensures
            r == self.wf(),
    {
        let cx2w = self.cx2 as i128;
        let cy2w = self.cy2 as i128;
        let ww = self.width as i128;
        let hw = self.height as i128;
        let limit2: i128 = 2 * COORD_LIMIT as i128;
        self.width >= 0 && self.height >= 0 && -limit2 <= cx2w - ww && cx2w + ww <= limit2
            && -limit2 <= cy2w - hw && cy2w + hw <= limit2 && -HALF_TURN_URAD < self.angle_urad
            && self.angle_urad <= HALF_TURN_URAD
    }

    /// The four corners of the axis-aligned footprint, in doubled
    /// coordinates, in the order top-left, top-right, bottom-right,
    /// bottom-left.
    ///
    /// Returns `None` for a rotated rectangle: exact corner coordinates of a
    /// rotated box need trigonometry on reals, and every rectangle this
    /// pipeline fits is axis-aligned.
    pub fn corners(&self) -> (r: Option<Vec<Point>>)
        requires
            self.wf(),
        ensures
            (r is None) <==> self.angle_urad != 0,
            r is Some ==> {
                let cs = r->Some_0;
                &&& cs@.len() == 4
                &&& cs@[0] == (Point { x: self.left2() as i64, y: self.top2() as i64 })
                &&& cs@[1] == (Point { x: self.right2() as i64, y: self.top2() as i64 })
                &&& cs@[2] == (Point { x: self.right2() as i64, y: self.bottom2() as i64 })
                &&& cs@[3] == (Point { x: self.left2() as i64, y: self.bottom2() as i64 })
            },
    {
        if self.angle_urad != 0 {
            return None;
        }
        let l: i64 = self.cx2 - self.width;
        let r: i64 = self.cx2 + self.width;
        let t: i64 = self.cy2 - self.height;
        let b: i64 = self.cy2 + self.height;
        let mut cs: Vec<Point> = Vec::new();
        cs.push(Point { x: l, y: t });
        cs.push(Point { x: r, y: t });
        cs.push(Point { x: r, y: b });
        cs.push(Point { x: l, y: b });
        Some(cs)
    }
}

/// Bring an angle in microradians into the canonical half-open half turn
/// `(-HALF_TURN_URAD, HALF_TURN_URAD]` by adding a whole number of turns.
pub fn normalize_angle(angle_urad: i64) -> (r: i64)
    requires
        angle_urad > i64::MIN,
    ensures
        angle_canonical(r),
        same_angle(angle_urad as int, r as int),
{
    let turn: i64 = 2 * HALF_TURN_URAD;
    let rem: i64 = if angle_urad >= 0 {
        ((angle_urad as u64) % (turn as u64)) as i64
    } else {
        -((((-angle_urad) as u64) % (turn as u64)) as i64)
    };
    let ghost a: int = angle_urad as int;
    let ghost t: int = 2 * HALF_TURN_URAD;
    let ghost k0: int = if a >= 0 { -(a / t) } else { (-a) / t };
    proof {
        assert(-t < rem < t);
        assert(rem == a + k0 * t);
    }
    if rem > HALF_TURN_URAD {
        proof {
            assert((rem - turn) as int == a + (k0 - 1) * t) by {
                assert((k0 - 1) * t == k0 * t - t) by (nonlinear_arith);
            }
            assert(same_angle(a, (rem - turn) as int));
        }
        rem - turn
    } else if rem <= -HALF_TURN_URAD {
        proof {
            assert((rem + turn) as int == a + (k0 + 1) * t) by {
                assert((k0 + 1) * t == k0 * t + t) by (nonlinear_arith);
            }
            assert(same_angle(a, (rem + turn) as int));
        }
        rem + turn
    } else {
        proof {
            assert(same_angle(a, rem as int));
        }
        rem
    }
}

} // verus!
