//! The rectangular domain with wrap-around edges, and the re-centering of a
//! point onto the copy of it that lies nearest a chosen center.
use crate::fixed::{abs, within, Vec2, COORD_LIMIT};
use vstd::prelude::*;

verus! {

/// Largest magnitude of a coordinate that `bound_to` accepts for the point
/// and the center.
pub const WRAP_LIMIT: i64 = 0x1000_0000_0000;

/// The domain: a rectangle given by its lower and upper corners.
#[derive(Clone, Copy, Debug, PartialEq, Eq, Structural)]
pub struct Bounds {
    pub lower: Vec2,
    pub upper: Vec2,
}

impl Bounds {
    /// Corners within the coordinate limit, lower strictly below upper, and
    /// the rectangle centered on the origin: each upper corner coordinate is
    /// minus the lower one, or one unit more when the extent is odd.
    pub open spec fn wf(&self) -> bool {
        &&& within(self.lower@, COORD_LIMIT as int)
        &&& within(self.upper@, COORD_LIMIT as int)
        &&& self.lower.x < self.upper.x
        &&& self.lower.y < self.upper.y
        &&& 0 <= self.lower.x + self.upper.x <= 1
        &&& 0 <= self.lower.y + self.upper.y <= 1
    }

    pub open spec fn width(&self) -> int {
        self.upper.x - self.lower.x
    }

    pub open spec fn height(&self) -> int {
        self.upper.y - self.lower.y
    }

    /// The domain of a viewport of the given size, centered on the origin:
    /// the lower corner is minus half the size, and the upper corner is the
    /// lower one plus the full size.
    pub fn from_viewport(width: i64, height: i64) -> (b: Bounds)
        requires
            0 < width <= COORD_LIMIT,
            0 < height <= COORD_LIMIT,
        ensures
            b.wf(),
            b.lower@ == (-(width / 2), -(height / 2)),
            b.width() == width,
            b.height() == height,
    {
        let hw = width / 2;
        let hh = height / 2;
        Bounds { lower: Vec2 { x: -hw, y: -hh }, upper: Vec2 { x: width - hw, y: height - hh } }
    }
}

/// One coordinate of `wrapped`: `p` moved by the domain's extent `w` when
/// it lies more than half the extent below or above `c`.
pub open spec fn wrap_axis(p: int, c: int, w: int) -> int {
    if 2 * (p - c) < -w {
        p + w
    } else if 2 * (p - c) > w {
        p - w
    } else {
        p
    }
}

/// The copy of `p`, shifted by at most one domain extent on each axis, that
/// lies within half an extent of `c` when `p` is no more than one and a half
/// extents away.
pub open spec fn wrapped(p: (int, int), c: (int, int), b: Bounds) -> (int, int) {
    (wrap_axis(p.0, c.0, b.width()), wrap_axis(p.1, c.1, b.height()))
}

/// `p` lies within one and a half domain extents of `c` on each axis, that
/// is at most one extent outside the window of half an extent around `c`.
pub open spec fn near_window(p: (int, int), c: (int, int), b: Bounds) -> bool {
    &&& abs(p.0 - c.0) <= 3 * b.width() / 2
    &&& abs(p.1 - c.1) <= 3 * b.height() / 2
}

/// Re-centering toward the origin keeps a point within the coordinate limit.
pub proof fn lemma_wrap_to_origin_within(p: (int, int), b: Bounds)
    requires
        b.wf(),
        within(p, COORD_LIMIT as int),
    ensures
        within(wrapped(p, (0, 0), b), COORD_LIMIT as int),
{
}

/// Re-centering moves each coordinate by at most one domain extent, so a
/// point within `lim` stays within `lim` plus twice the coordinate limit.
pub proof fn lemma_wrap_within(p: (int, int), c: (int, int), b: Bounds, lim: int)
    requires
        b.wf(),
        within(p, lim),
    ensures
        within(wrapped(p, c, b), lim + 2 * COORD_LIMIT),
{
}

/// Re-centering a point that lies at most one domain extent outside the
/// window around `c` puts it within half an extent of `c`, and doing it
/// again with the same center changes nothing.
pub proof fn lemma_wrap_idempotent(p: (int, int), c: (int, int), b: Bounds)
    requires
        b.wf(),
        near_window(p, c, b),
    ensures
        -b.width() <= 2 * (wrapped(p, c, b).0 - c.0) <= b.width(),
        -b.height() <= 2 * (wrapped(p, c, b).1 - c.1) <= b.height(),
        wrapped(wrapped(p, c, b), c, b) == wrapped(p, c, b),
{
}

proof fn lemma_wrap_axis_nearest(p: int, c: int, w: int, k: int)
    requires
        w > 0,
        abs(p - c) <= 3 * w / 2,
    ensures
        abs(wrap_axis(p, c, w) - c) <= abs(p + k * w - c),
{
    let r = wrap_axis(p, c, w);
    let e = if 2 * (p - c) < -w {
        1int
    } else if 2 * (p - c) > w {
        -1int
    } else {
        0int
    };
    assert(r == p + e * w) by (nonlinear_arith)
        requires
            e == 1 ==> r == p + w,
            e == -1 ==> r == p - w,
            e == 0 ==> r == p,
            e == 1 || e == -1 || e == 0,
    ;
    assert(-w <= 2 * (r - c) <= w);
    let j = k - e;
    assert(p + k * w - c == (r - c) + j * w) by (nonlinear_arith)
        requires
            r == p + e * w,
            j == k - e,
    ;
    assert(abs(r - c) <= abs((r - c) + j * w)) by (nonlinear_arith)
        requires
            w > 0,
            -w <= 2 * (r - c) <= w,
    ;
}

/// The re-centered point is the copy of `p`, among all its shifts by whole
/// domain extents, that lies nearest `c` on each axis.
pub proof fn lemma_wrap_nearest(p: (int, int), c: (int, int), b: Bounds, kx: int, ky: int)
    requires
        b.wf(),
        near_window(p, c, b),
    ensures
        abs(wrapped(p, c, b).0 - c.0) <= abs(p.0 + kx * b.width() - c.0),
        abs(wrapped(p, c, b).1 - c.1) <= abs(p.1 + ky * b.height() - c.1),
{
    lemma_wrap_axis_nearest(p.0, c.0, b.width(), kx);
    lemma_wrap_axis_nearest(p.1, c.1, b.height(), ky);
}

impl Vec2 {
    /// The copy of this point that lies nearest `center` on the wrapped
    /// domain (see `wrapped`).
    pub fn bound_to(self, center: Vec2, bounds: Bounds) -> (r: Vec2)
        requires
            bounds.wf(),
            within(self@, WRAP_LIMIT as int),
            within(center@, WRAP_LIMIT as int),
        ensures
            r@ == wrapped(self@, center@, bounds),
    {
        let mut r = self;
        let w = bounds.upper.x - bounds.lower.x;
        let h = bounds.upper.y - bounds.lower.y;
        let dx = 2 * (self.x as i128 - center.x as i128);
        let dy = 2 * (self.y as i128 - center.y as i128);
        if dx < -(w as i128) {
            r.x = self.x + w;
        } else if dx > w as i128 {
            r.x = self.x - w;
        }
        if dy < -(h as i128) {
            r.y = self.y + h;
        } else if dy > h as i128 {
            r.y = self.y - h;
        }
        r
    }
}

} // verus!
