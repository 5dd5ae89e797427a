//! The three steering rules: alignment, cohesion and separation. Each gives
//! a fixed-point vector of length at most one.
use crate::fixed::{
    abs, div_toward_zero, len_sq, len_sq_exec, lemma_length, lemma_normalized, lemma_scale_bound,
    lemma_tdiv_bound, lemma_unit_within, minus, normalize, normalized, plus, scale,
    within, Vec2, COORD_LIMIT, ONE,
};
use crate::fixed::{
    ceil_sqrt_u128, distance, div_away_from_zero, lemma_adiv, lemma_floor_sqrt_below, scale_away,
    tdiv, NORMALIZE_LIMIT,
};
use crate::torus::WRAP_LIMIT;
use vstd::prelude::*;

verus! {

/// Largest number of agents in one flock.
pub const MAX_FLOCK: usize = 0x100_0000;

/// What separation needs to know of another member of the flock.
#[derive(Clone, Copy, Debug, PartialEq, Eq, Structural)]
pub struct Neighbor {
    pub id: u32,
    pub position: Vec2,
    pub safe_radius: i64,
}

impl Neighbor {
    pub open spec fn wf(&self) -> bool {
        &&& within(self.position@, WRAP_LIMIT as int)
        &&& 0 <= self.safe_radius <= COORD_LIMIT
    }
}

/// `v` unchanged when its length is at most one, else its direction.
pub open spec fn clamp_unit(v: (int, int)) -> (int, int) {
    if len_sq(v) > ONE * ONE {
        normalized(v)
    } else {
        v
    }
}

/// The flock's average velocity in units of the agent's top speed, cut
/// back to length one.
pub open spec fn alignment_of(max_speed: int, average_forward: (int, int)) -> (int, int) {
    clamp_unit(scale(average_forward, ONE as int, max_speed))
}

/// The offset to the flock's average position: as a fraction of the flock
/// radius inside it, as a direction outside it.
pub open spec fn cohesion_of(position: (int, int), average_position: (int, int), flock_radius: int) -> (
    int,
    int,
) {
    let d = minus(average_position, position);
    if len_sq(d) < flock_radius * flock_radius {
        scale(d, ONE as int, flock_radius)
    } else {
        normalized(d)
    }
}

/// The push away from one neighbor: zero unless the two safety circles
/// overlap; otherwise the direction away from it, scaled by how deep the
/// overlap is relative to the sum of the two radii. The distance is rounded
/// down and the push rounded away from zero, so that any overlap at a
/// non-zero offset gives a non-zero push.
pub open spec fn push_from(position: (int, int), safe_radius: int, n: Neighbor) -> (int, int) {
    let d = minus(position, n.position@);
    let m = safe_radius + n.safe_radius;
    if len_sq(d) < m * m {
        scale_away(normalized(d), m - distance(d), m)
    } else {
        (0, 0)
    }
}

/// The push from an overlapping neighbor is no longer than one, each of its
/// coordinates has the sign of the offset from the neighbor, and it is
/// non-zero when the offset is.
pub proof fn lemma_push(position: (int, int), safe_radius: int, n: Neighbor)
    requires
        0 <= safe_radius,
        0 <= n.safe_radius,
    ensures
        ({
            let p = push_from(position, safe_radius, n);
            let d = minus(position, n.position@);
            &&& len_sq(p) <= ONE * ONE
            &&& p.0 * d.0 >= 0
            &&& p.1 * d.1 >= 0
            &&& len_sq(d) < (safe_radius + n.safe_radius) * (safe_radius + n.safe_radius) && d != (
            0int, 0int) ==> p != (0int, 0int)
        }),
{
    let d = minus(position, n.position@);
    let m = safe_radius + n.safe_radius;
    if len_sq(d) < m * m {
        lemma_length(d);
        lemma_floor_sqrt_below(len_sq(d), m);
        let k = m - distance(d);
        let u = normalized(d);
        lemma_normalized(d);
        assert(1 <= k <= m);
        let ux = abs(u.0);
        let uy = abs(u.1);
        assert(abs(u.0 * k) <= m * ux && abs(u.1 * k) <= m * uy) by (nonlinear_arith)
            requires
                1 <= k <= m,
                ux == abs(u.0),
                uy == abs(u.1),
        ;
        lemma_adiv(u.0 * k, m, ux);
        lemma_adiv(u.1 * k, m, uy);
        let p = scale_away(u, k, m);
        assert(u.0 >= 0 ==> u.0 * k >= 0) by (nonlinear_arith)
            requires
                k >= 1,
        ;
        assert(u.0 <= 0 ==> u.0 * k <= 0) by (nonlinear_arith)
            requires
                k >= 1,
        ;
        assert(u.1 >= 0 ==> u.1 * k >= 0) by (nonlinear_arith)
            requires
                k >= 1,
        ;
        assert(u.1 <= 0 ==> u.1 * k <= 0) by (nonlinear_arith)
            requires
                k >= 1,
        ;
        assert(u.0 != 0 ==> u.0 * k != 0) by (nonlinear_arith)
            requires
                k >= 1,
        ;
        assert(u.1 != 0 ==> u.1 * k != 0) by (nonlinear_arith)
            requires
                k >= 1,
        ;
        assert(len_sq(p) <= len_sq(u)) by (nonlinear_arith)
            requires
                abs(p.0) <= abs(u.0),
                abs(p.1) <= abs(u.1),
        ;
        assert(p.0 * d.0 >= 0 && p.1 * d.1 >= 0) by (nonlinear_arith)
            requires
                d.0 >= 0 ==> p.0 >= 0,
                d.0 <= 0 ==> p.0 <= 0,
                d.1 >= 0 ==> p.1 >= 0,
                d.1 <= 0 ==> p.1 <= 0,
        ;
        if d != (0int, 0int) {
            assert(u != (0int, 0int)) by (nonlinear_arith)
                requires
                    len_sq(u) >= 65534 * 65534,
                    len_sq(u) == u.0 * u.0 + u.1 * u.1,
            ;
        }
    }
}

/// The sum of the pushes from every neighbor whose id differs from `id`.
pub open spec fn pushes_sum(id: u32, position: (int, int), safe_radius: int, ns: Seq<Neighbor>) -> (
    int,
    int,
)
    decreases ns.len(),
{
    if ns.len() == 0 {
        (0, 0)
    } else {
        let rest = pushes_sum(id, position, safe_radius, ns.drop_last());
        if ns.last().id == id {
            rest
        } else {
            plus(rest, push_from(position, safe_radius, ns.last()))
        }
    }
}

pub open spec fn separation_of(id: u32, position: (int, int), safe_radius: int, ns: Seq<Neighbor>) -> (
    int,
    int,
) {
    clamp_unit(pushes_sum(id, position, safe_radius, ns))
}

proof fn lemma_tdiv_shrinks(a: int, b: int)
    requires
        b > 0,
    ensures
        abs(tdiv(a, b)) <= abs(a),
{
    lemma_tdiv_bound(a, b);
    assert(abs(tdiv(a, b)) <= abs(a)) by (nonlinear_arith)
        requires
            abs(tdiv(a, b)) * b <= abs(a),
            abs(tdiv(a, b)) >= 0,
            b > 0,
    ;
}

/// Cuts `(x, y)` back to length one when it is longer.
fn clamp_unit_exec(x: i128, y: i128) -> (r: Vec2)
    requires
        -NORMALIZE_LIMIT <= x <= NORMALIZE_LIMIT,
        -NORMALIZE_LIMIT <= y <= NORMALIZE_LIMIT,
    ensures
        r@ == clamp_unit((x as int, y as int)),
        len_sq(r@) <= ONE * ONE,
        len_sq((x as int, y as int)) > ONE * ONE ==> (ONE - 2) * (ONE - 2) <= len_sq(r@),
{
    let n = len_sq_exec(x, y);
    if n > 0x1_0000_0000u128 {
        normalize(x, y)
    } else {
        proof {
            lemma_unit_within((x as int, y as int));
        }
        Vec2 { x: x as i64, y: y as i64 }
    }
}

/// Alignment: the flock's average velocity divided by the agent's top
/// speed, normalized when that is longer than one.
pub fn alignment(max_speed: i64, average_forward: Vec2) -> (r: Vec2)
    requires
        max_speed > 0,
        within(average_forward@, COORD_LIMIT as int),
    ensures
        r@ == alignment_of(max_speed as int, average_forward@),
        len_sq(r@) <= ONE * ONE,
        len_sq(scale(average_forward@, ONE as int, max_speed as int)) > ONE * ONE ==> (ONE - 2) * (
        ONE - 2) <= len_sq(r@),
{
    let ax = div_toward_zero(average_forward.x as i128 * 65536, max_speed as i128);
    let ay = div_toward_zero(average_forward.y as i128 * 65536, max_speed as i128);
    proof {
        lemma_tdiv_shrinks(average_forward.x * 65536, max_speed as int);
        lemma_tdiv_shrinks(average_forward.y * 65536, max_speed as int);
    }
    clamp_unit_exec(ax, ay)
}

/// Cohesion: the pull toward the flock's average position, linear inside
/// the flock radius and of length one outside it.
pub fn cohesion(position: Vec2, average_position: Vec2, flock_radius: i64) -> (r: Vec2)
    requires
        flock_radius > 0,
        within(position@, WRAP_LIMIT as int),
        within(average_position@, WRAP_LIMIT as int),
    ensures
        r@ == cohesion_of(position@, average_position@, flock_radius as int),
        len_sq(r@) <= ONE * ONE,
        len_sq(minus(average_position@, position@)) < flock_radius * flock_radius ==> r@ == scale(
            minus(average_position@, position@),
            ONE as int,
            flock_radius as int,
        ),
        len_sq(minus(average_position@, position@)) >= flock_radius * flock_radius ==> (ONE - 2) * (
        ONE - 2) <= len_sq(r@),
{
    let dx = average_position.x as i128 - position.x as i128;
    let dy = average_position.y as i128 - position.y as i128;
    let n = len_sq_exec(dx, dy);
    let fr = flock_radius as u128;
    assert(fr * fr < 0x4000_0000_0000_0000_0000_0000_0000_0000u128) by (nonlinear_arith)
        requires
            0 < fr < 0x8000_0000_0000_0000u128,
    ;
    let r2 = fr * fr;
    if n < r2 {
        let qx = div_toward_zero(dx * 65536, flock_radius as i128);
        let qy = div_toward_zero(dy * 65536, flock_radius as i128);
        proof {
            let d = (dx as int, dy as int);
            lemma_scale_bound(d, ONE as int, flock_radius as int, flock_radius as int, ONE as int);
            lemma_unit_within(scale(d, ONE as int, flock_radius as int));
        }
        Vec2 { x: qx as i64, y: qy as i64 }
    } else {
        assert(fr * fr > 0) by (nonlinear_arith)
            requires
                fr > 0,
        ;
        if dx == 0 && dy == 0 {
            assert(dx * dx + dy * dy == 0) by (nonlinear_arith)
                requires
                    dx == 0,
                    dy == 0,
            ;
        }
        normalize(dx, dy)
    }
}

/// The push away from one neighbor (see `push_from`).
fn push(position: Vec2, safe_radius: i64, n: &Neighbor) -> (r: Vec2)
    requires
        within(position@, WRAP_LIMIT as int),
        0 <= safe_radius <= COORD_LIMIT,
        n.wf(),
    ensures
        r@ == push_from(position@, safe_radius as int, *n),
        len_sq(r@) <= ONE * ONE,
{
    proof {
        lemma_push(position@, safe_radius as int, *n);
    }
    let dx = position.x as i128 - n.position.x as i128;
    let dy = position.y as i128 - n.position.y as i128;
    let d2 = len_sq_exec(dx, dy);
    let m = safe_radius + n.safe_radius;
    let mu = m as u128;
    assert(mu * mu <= 0x10_0000_0000_0000_0000_0000u128) by (nonlinear_arith)
        requires
            mu <= 0x200_0000_0000u128,
    ;
    if d2 < mu * mu {
        let c = ceil_sqrt_u128(d2);
        proof {
            crate::fixed::lemma_ceil_sqrt_is(d2 as int);
        }
        assert(c * c <= 0x400_0000_0000_0000_0000_0000_0000_0000u128) by (nonlinear_arith)
            requires
                c <= 0x2000_0000_0000_0000u128,
        ;
        assert(c > 0 || c * c == d2) by (nonlinear_arith)
            requires
                d2 <= c * c,
                d2 >= 0,
                c >= 0,
        ;
        let dist = if c * c == d2 {
            c
        } else {
            c - 1
        };
        let u = normalize(dx, dy);
        let d = Ghost((dx as int, dy as int));
        proof {
            crate::fixed::lemma_ceil_sqrt_is(d2 as int);
            lemma_floor_sqrt_below(d2 as int, m as int);
            lemma_normalized(d@);
            lemma_push(position@, safe_radius as int, *n);
            lemma_unit_within(push_from(position@, safe_radius as int, *n));
        }
        let k = (m as i128) - (dist as i128);
        assert(abs(u.x * k) <= 0x200_0000_0000_0000 && abs(u.y * k) <= 0x200_0000_0000_0000)
            by (nonlinear_arith)
            requires
                abs(u.x as int) <= 65536,
                abs(u.y as int) <= 65536,
                0 <= k <= 0x200_0000_0000,
        ;
        let px = div_away_from_zero(u.x as i128 * k, m as i128);
        let py = div_away_from_zero(u.y as i128 * k, m as i128);
        Vec2 { x: px as i64, y: py as i64 }
    } else {
        Vec2 { x: 0, y: 0 }
    }
}

/// Separation: the sum of the pushes away from every other member whose
/// safety circle overlaps this agent's, normalized when longer than one.
/// Entries of `neighbors` with the agent's own id are skipped.
pub fn separation(id: u32, safe_radius: i64, position: Vec2, neighbors: &[Neighbor]) -> (r: Vec2)
    requires
        within(position@, WRAP_LIMIT as int),
        0 <= safe_radius <= COORD_LIMIT,
        neighbors@.len() <= MAX_FLOCK,
        forall|j: int| 0 <= j < neighbors@.len() ==> (#[trigger] neighbors@[j]).wf(),
    ensures
        r@ == separation_of(id, position@, safe_radius as int, neighbors@),
        len_sq(r@) <= ONE * ONE,
        len_sq(pushes_sum(id, position@, safe_radius as int, neighbors@)) > ONE * ONE ==> (ONE - 2)
            * (ONE - 2) <= len_sq(r@),
{
    let mut sx: i128 = 0;
    let mut sy: i128 = 0;
    let mut i: usize = 0;
    while i < neighbors.len()
        invariant
            i <= neighbors@.len() <= MAX_FLOCK,
            within(position@, WRAP_LIMIT as int),
            0 <= safe_radius <= COORD_LIMIT,
            forall|j: int| 0 <= j < neighbors@.len() ==> (#[trigger] neighbors@[j]).wf(),
            (sx as int, sy as int) == pushes_sum(id, position@, safe_radius as int, neighbors@.take(i as int)),
            abs(sx as int) <= i * ONE,
            abs(sy as int) <= i * ONE,
        decreases neighbors@.len() - i,
    {
        let n = &neighbors[i];
        proof {
            assert(neighbors@.take(i + 1).drop_last() =~= neighbors@.take(i as int));
            assert(neighbors@.take(i + 1).last() == neighbors@[i as int]);
        }
        if n.id != id {
            let p = push(position, safe_radius, n);
            proof {
                lemma_unit_within(p@);
            }
            sx = sx + p.x as i128;
            sy = sy + p.y as i128;
        }
        i = i + 1;
    }
    proof {
        assert(neighbors@.take(i as int) =~= neighbors@);
    }
    clamp_unit_exec(sx, sy)
}

/// `n` does not push: it is the agent itself or its safety circle does not
/// overlap the agent's.
pub open spec fn no_push(id: u32, position: (int, int), safe_radius: int, n: Neighbor) -> bool {
    n.id == id || len_sq(minus(position, n.position@)) >= (safe_radius + n.safe_radius) * (
    safe_radius + n.safe_radius)
}

proof fn lemma_pushes_sum_zero(id: u32, position: (int, int), safe_radius: int, ns: Seq<Neighbor>)
    requires
        forall|k: int| 0 <= k < ns.len() ==> no_push(id, position, safe_radius, #[trigger] ns[k]),
    ensures
        pushes_sum(id, position, safe_radius, ns) == (0int, 0int),
    decreases ns.len(),
{
    if ns.len() > 0 {
        let rest = ns.drop_last();
        assert forall|k: int| 0 <= k < rest.len() implies no_push(
            id,
            position,
            safe_radius,
            #[trigger] rest[k],
        ) by {
            assert(rest[k] == ns[k]);
        }
        lemma_pushes_sum_zero(id, position, safe_radius, rest);
        assert(no_push(id, position, safe_radius, ns[ns.len() - 1]));
    }
}

/// Separation is zero when no other member's safety circle overlaps the
/// agent's.
pub proof fn lemma_separation_zero_without_overlap(
    id: u32,
    position: (int, int),
    safe_radius: int,
    ns: Seq<Neighbor>,
)
    requires
        forall|k: int| 0 <= k < ns.len() ==> no_push(id, position, safe_radius, #[trigger] ns[k]),
    ensures
        separation_of(id, position, safe_radius, ns) == (0int, 0int),
{
    lemma_pushes_sum_zero(id, position, safe_radius, ns);
}

proof fn lemma_pushes_sum_single(
    id: u32,
    position: (int, int),
    safe_radius: int,
    ns: Seq<Neighbor>,
    j: int,
)
    requires
        0 <= j < ns.len(),
        ns[j].id != id,
        forall|k: int|
            0 <= k < ns.len() && k != j ==> no_push(id, position, safe_radius, #[trigger] ns[k]),
    ensures
        pushes_sum(id, position, safe_radius, ns) == push_from(position, safe_radius, ns[j]),
    decreases ns.len(),
{
    let rest = ns.drop_last();
    let last = ns.len() - 1;
    if j == last {
        assert forall|k: int| 0 <= k < rest.len() implies no_push(
            id,
            position,
            safe_radius,
            #[trigger] rest[k],
        ) by {
            assert(rest[k] == ns[k]);
        }
        lemma_pushes_sum_zero(id, position, safe_radius, rest);
    } else {
        assert forall|k: int| 0 <= k < rest.len() && k != j implies no_push(
            id,
            position,
            safe_radius,
            #[trigger] rest[k],
        ) by {
            assert(rest[k] == ns[k]);
        }
        assert(rest[j] == ns[j]);
        lemma_pushes_sum_single(id, position, safe_radius, rest, j);
        assert(no_push(id, position, safe_radius, ns[last]));
    }
}

/// When exactly one other member's safety circle overlaps the agent's, and
/// the two are not at the same point, separation is the push from that
/// member alone. It points away from that member: each coordinate has the
/// sign of the offset from it, or is zero. It is never zero, however shallow
/// the overlap.
pub proof fn lemma_separation_single_overlap(
    id: u32,
    position: (int, int),
    safe_radius: int,
    ns: Seq<Neighbor>,
    j: int,
)
    requires
        0 <= j < ns.len(),
        0 <= safe_radius,
        0 <= ns[j].safe_radius,
        ns[j].id != id,
        !no_push(id, position, safe_radius, ns[j]),
        minus(position, ns[j].position@) != (0int, 0int),
        forall|k: int|
            0 <= k < ns.len() && k != j ==> no_push(id, position, safe_radius, #[trigger] ns[k]),
    ensures
        ({
            let s = separation_of(id, position, safe_radius, ns);
            let d = minus(position, ns[j].position@);
            let m = safe_radius + ns[j].safe_radius;
            &&& s == push_from(position, safe_radius, ns[j])
            &&& s.0 * d.0 >= 0
            &&& s.1 * d.1 >= 0
            &&& s != (0int, 0int)
        }),
{
    lemma_pushes_sum_single(id, position, safe_radius, ns, j);
    lemma_push(position, safe_radius, ns[j]);
}

} // verus!
