//! Turning the steering rules into a new velocity, and advancing a position
//! by a velocity over a time step.
use crate::fixed::{
    abs, clamp_length, clamp_length_exec, div_toward_zero, len_sq, lemma_clamp_length_bounded, plus,
    scale, tdiv, within, Vec2, COORD_LIMIT, ONE,
};
use crate::flock::{Flock, FlockMemberParams, VelocityPolicy, STRENGTH_LIMIT};
use crate::torus::{lemma_wrap_to_origin_within, wrapped, Bounds};
use vstd::prelude::*;

verus! {

/// Largest time step, in fixed-point seconds.
pub const DT_LIMIT: i64 = 0x100_0000;

/// The three rules weighted by the flock's strengths and summed.
pub open spec fn weighted_steering(
    flock: Flock,
    alignment: (int, int),
    cohesion: (int, int),
    separation: (int, int),
) -> (int, int) {
    let wa = flock.alignment_strength as int;
    let wc = flock.cohesion_strength as int;
    let ws = flock.separation_strength as int;
    (
        tdiv(wa * alignment.0 + wc * cohesion.0 + ws * separation.0, ONE as int),
        tdiv(wa * alignment.1 + wc * cohesion.1 + ws * separation.1, ONE as int),
    )
}

/// The velocity after one time step `dt` under the flock's policy, from the
/// velocity `v` and the weighted steering `steer`.
pub open spec fn velocity_after(
    policy: VelocityPolicy,
    v: (int, int),
    params: FlockMemberParams,
    steer: (int, int),
    dt: int,
) -> (int, int) {
    let ms = params.max_speed as int;
    match policy {
        VelocityPolicy::Direct => clamp_length(plus(v, scale(steer, ms * dt, ONE * ONE)), ms),
        VelocityPolicy::AccelerationLimited => {
            let accel = clamp_length(scale(steer, ms, ONE as int), params.max_accel as int);
            clamp_length(plus(v, scale(accel, dt, ONE as int)), ms)
        },
    }
}

/// One coordinate advanced by `v * dt`; when the result leaves the
/// coordinate range the old coordinate is kept.
pub open spec fn advance_axis(p: int, v: int, dt: int) -> int {
    let n = p + tdiv(v * dt, ONE as int);
    if abs(n) <= COORD_LIMIT {
        n
    } else {
        p
    }
}

/// The position after one time step, re-centered toward the origin when the
/// domain wraps.
pub open spec fn integrated(p: (int, int), v: (int, int), dt: int, wrap: Option<Bounds>) -> (int, int) {
    let n = (advance_axis(p.0, v.0, dt), advance_axis(p.1, v.1, dt));
    match wrap {
        Some(b) => wrapped(n, (0, 0), b),
        None => n,
    }
}

/// Whatever the policy, the steering and the time step, the velocity after
/// a step is no longer than the agent's top speed.
pub proof fn lemma_speed_clamped(
    policy: VelocityPolicy,
    v: (int, int),
    params: FlockMemberParams,
    steer: (int, int),
    dt: int,
)
    requires
        params.wf(),
    ensures
        len_sq(velocity_after(policy, v, params, steer, dt)) <= params.max_speed
            * params.max_speed,
{
    let ms = params.max_speed as int;
    match policy {
        VelocityPolicy::Direct => {
            lemma_clamp_length_bounded(plus(v, scale(steer, ms * dt, ONE * ONE)), ms);
        },
        VelocityPolicy::AccelerationLimited => {
            let accel = clamp_length(scale(steer, ms, ONE as int), params.max_accel as int);
            lemma_clamp_length_bounded(plus(v, scale(accel, dt, ONE as int)), ms);
        },
    }
}

/// Under the acceleration-limited policy, the change added to the velocity
/// before it is cut back to the top speed is at most the top acceleration
/// times the time step.
pub proof fn lemma_acceleration_limited(
    v: (int, int),
    params: FlockMemberParams,
    steer: (int, int),
    dt: int,
)
    requires
        params.wf(),
        dt >= 0,
    ensures
        ({
            let ms = params.max_speed as int;
            let ma = params.max_accel as int;
            let delta = scale(clamp_length(scale(steer, ms, ONE as int), ma), dt, ONE as int);
            &&& velocity_after(VelocityPolicy::AccelerationLimited, v, params, steer, dt)
                == clamp_length(plus(v, delta), ms)
            &&& len_sq(delta) * (ONE * ONE) <= (ma * dt) * (ma * dt)
        }),
{
    let ms = params.max_speed as int;
    let ma = params.max_accel as int;
    let a = clamp_length(scale(steer, ms, ONE as int), ma);
    lemma_clamp_length_bounded(scale(steer, ms, ONE as int), ma);
    let q = scale(a, dt, ONE as int);
    crate::fixed::lemma_tdiv_bound(a.0 * dt, ONE as int);
    crate::fixed::lemma_tdiv_bound(a.1 * dt, ONE as int);
    let qx = abs(q.0);
    let qy = abs(q.1);
    let ax = abs(a.0);
    let ay = abs(a.1);
    assert(abs(a.0 * dt) == ax * dt && abs(a.1 * dt) == ay * dt) by (nonlinear_arith)
        requires
            dt >= 0,
            ax == abs(a.0),
            ay == abs(a.1),
    ;
    assert(q.0 * q.0 == qx * qx && q.1 * q.1 == qy * qy && a.0 * a.0 == ax * ax && a.1 * a.1 == ay
        * ay) by (nonlinear_arith)
        requires
            qx == abs(q.0),
            qy == abs(q.1),
            ax == abs(a.0),
            ay == abs(a.1),
    ;
    assert((qx * qx + qy * qy) * (65536 * 65536) <= (ma * dt) * (ma * dt)) by (nonlinear_arith)
        requires
            qx >= 0,
            qy >= 0,
            ax >= 0,
            ay >= 0,
            dt >= 0,
            qx * 65536 <= ax * dt,
            qy * 65536 <= ay * dt,
            ax * ax + ay * ay <= ma * ma,
    ;
}

proof fn lemma_weighted_bound(w: int, a: int)
    requires
        abs(w) <= STRENGTH_LIMIT,
        abs(a) <= ONE,
    ensures
        abs(w * a) <= STRENGTH_LIMIT * ONE,
{
    assert(abs(w * a) <= STRENGTH_LIMIT * ONE) by (nonlinear_arith)
        requires
            abs(w) <= 0x400_0000,
            abs(a) <= 65536,
    ;
}

/// The weighted steering (see `weighted_steering`).
fn weigh(flock: &Flock, alignment: Vec2, cohesion: Vec2, separation: Vec2) -> (r: (i128, i128))
    requires
        flock.wf(),
        within(alignment@, ONE as int),
        within(cohesion@, ONE as int),
        within(separation@, ONE as int),
    ensures
        (r.0 as int, r.1 as int) == weighted_steering(*flock, alignment@, cohesion@, separation@),
        abs(r.0 as int) <= 3 * STRENGTH_LIMIT,
        abs(r.1 as int) <= 3 * STRENGTH_LIMIT,
{
    let wa = flock.alignment_strength as i128;
    let wc = flock.cohesion_strength as i128;
    let ws = flock.separation_strength as i128;
    proof {
        lemma_weighted_bound(wa as int, alignment.x as int);
        lemma_weighted_bound(wa as int, alignment.y as int);
        lemma_weighted_bound(wc as int, cohesion.x as int);
        lemma_weighted_bound(wc as int, cohesion.y as int);
        lemma_weighted_bound(ws as int, separation.x as int);
        lemma_weighted_bound(ws as int, separation.y as int);
    }
    let sx = wa * alignment.x as i128 + wc * cohesion.x as i128 + ws * separation.x as i128;
    let sy = wa * alignment.y as i128 + wc * cohesion.y as i128 + ws * separation.y as i128;
    let qx = div_toward_zero(sx, 65536);
    let qy = div_toward_zero(sy, 65536);
    proof {
        crate::fixed::lemma_tdiv_bound(sx as int, 65536);
        crate::fixed::lemma_tdiv_bound(sy as int, 65536);
    }
    (qx, qy)
}

/// The new velocity of an agent from its velocity and the three rules'
/// outputs, under the flock's weights and policy. Its length never exceeds
/// the agent's top speed.
pub fn update_velocity(
    flock: &Flock,
    params: &FlockMemberParams,
    velocity: Vec2,
    alignment: Vec2,
    cohesion: Vec2,
    separation: Vec2,
    dt: i64,
) -> (r: Vec2)
    requires
        flock.wf(),
        params.wf(),
        within(velocity@, COORD_LIMIT as int),
        within(alignment@, ONE as int),
        within(cohesion@, ONE as int),
        within(separation@, ONE as int),
        0 <= dt <= DT_LIMIT,
    ensures
        r@ == velocity_after(
            flock.policy,
            velocity@,
            *params,
            weighted_steering(*flock, alignment@, cohesion@, separation@),
            dt as int,
        ),
        len_sq(r@) <= params.max_speed * params.max_speed,
        within(r@, params.max_speed as int),
{
    let (sx, sy) = weigh(flock, alignment, cohesion, separation);
    let ms = params.max_speed as i128;
    match flock.policy {
        VelocityPolicy::Direct => {
            assert(0 <= ms * dt <= 0x1_0000_0000_0000_0000) by (nonlinear_arith)
                requires
                    0 < ms <= 0x100_0000_0000,
                    0 <= dt <= 0x100_0000,
            ;
            let k = ms * dt as i128;
            assert(abs(sx * k) <= 0xC00_0000_0000_0000_0000_0000 && abs(sy * k) <= 0xC00_0000_0000_0000_0000_0000)
                by (nonlinear_arith)
                requires
                    abs(sx as int) <= 0xC00_0000,
                    abs(sy as int) <= 0xC00_0000,
                    0 <= k <= 0x1_0000_0000_0000_0000,
            ;
            let dx = div_toward_zero(sx * k, 0x1_0000_0000);
            let dy = div_toward_zero(sy * k, 0x1_0000_0000);
            proof {
                crate::fixed::lemma_tdiv_bound(sx * k, 0x1_0000_0000);
                crate::fixed::lemma_tdiv_bound(sy * k, 0x1_0000_0000);
            }
            clamp_length_exec(velocity.x as i128 + dx, velocity.y as i128 + dy, params.max_speed)
        },
        VelocityPolicy::AccelerationLimited => {
            assert(abs(sx * ms) <= 0x10_0000_0000_0000_0000 && abs(sy * ms) <= 0x10_0000_0000_0000_0000)
                by (nonlinear_arith)
                requires
                    abs(sx as int) <= 0xC00_0000,
                    abs(sy as int) <= 0xC00_0000,
                    0 < ms <= 0x100_0000_0000,
            ;
            let ax = div_toward_zero(sx * ms, 65536);
            let ay = div_toward_zero(sy * ms, 65536);
            proof {
                crate::fixed::lemma_tdiv_bound(sx * ms, 65536);
                crate::fixed::lemma_tdiv_bound(sy * ms, 65536);
            }
            let accel = clamp_length_exec(ax, ay, params.max_accel);
            let d = dt as i128;
            assert(abs(accel.x * d) <= 0x1_0000_0000_0000_0000 && abs(accel.y * d) <= 0x1_0000_0000_0000_0000)
                by (nonlinear_arith)
                requires
                    abs(accel.x as int) <= 0x100_0000_0000,
                    abs(accel.y as int) <= 0x100_0000_0000,
                    0 <= d <= 0x100_0000,
            ;
            let dx = div_toward_zero(accel.x as i128 * d, 65536);
            let dy = div_toward_zero(accel.y as i128 * d, 65536);
            proof {
                crate::fixed::lemma_tdiv_bound(accel.x * d, 65536);
                crate::fixed::lemma_tdiv_bound(accel.y * d, 65536);
            }
            clamp_length_exec(velocity.x as i128 + dx, velocity.y as i128 + dy, params.max_speed)
        },
    }
}

/// One coordinate advanced by `v * dt` (see `advance_axis`).
fn advance(p: i64, v: i64, dt: i64) -> (r: i64)
    requires
        abs(p as int) <= COORD_LIMIT,
        abs(v as int) <= COORD_LIMIT,
        0 <= dt <= DT_LIMIT,
    ensures
        r == advance_axis(p as int, v as int, dt as int),
        abs(r as int) <= COORD_LIMIT,
{
    assert(abs(v * dt) <= 0x1_0000_0000_0000_0000) by (nonlinear_arith)
        requires
            abs(v as int) <= 0x100_0000_0000,
            0 <= dt <= 0x100_0000,
    ;
    let step = div_toward_zero(v as i128 * dt as i128, 65536);
    proof {
        crate::fixed::lemma_tdiv_bound(v * dt, 65536);
    }
    let n = p as i128 + step;
    if -(COORD_LIMIT as i128) <= n && n <= COORD_LIMIT as i128 {
        n as i64
    } else {
        p
    }
}

/// Advances a position by a velocity over the time step `dt`, then, when
/// `wrap` gives the domain, re-centers it toward the origin. A coordinate
/// that would leave the coordinate range keeps its old value, so the result
/// always stays within range.
pub fn integrate(position: Vec2, velocity: Vec2, dt: i64, wrap: Option<Bounds>) -> (r: Vec2)
    requires
        within(position@, COORD_LIMIT as int),
        within(velocity@, COORD_LIMIT as int),
        0 <= dt <= DT_LIMIT,
        wrap matches Some(b) ==> b.wf(),
    ensures
        r@ == integrated(position@, velocity@, dt as int, wrap),
        within(r@, COORD_LIMIT as int),
{
    let n = Vec2 {
        x: advance(position.x, velocity.x, dt),
        y: advance(position.y, velocity.y, dt),
    };
    match wrap {
        Some(b) => {
            proof {
                lemma_wrap_to_origin_within(n@, b);
            }
            n.bound_to(Vec2 { x: 0, y: 0 }, b)
        },
        None => n,
    }
}

} // verus!
