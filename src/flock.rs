//! Flock members, flocks, and the per-flock aggregation pass that yields the
//! wrap-aware average position, the average velocity and the neighbor list.
use crate::fixed::{abs, div_toward_zero, plus, tdiv, within, Vec2, COORD_LIMIT, ONE};
use crate::steering::{Neighbor, MAX_FLOCK};
use crate::torus::{lemma_wrap_within, wrapped, Bounds};
use vstd::prelude::*;

verus! {

/// Largest magnitude of a steering weight, 1024.0 (`ONE` stands for 1.0).
/// It is the bound under which the weighted steering times top speed and
/// time step still fits the 128-bit intermediates of the velocity update.
pub const STRENGTH_LIMIT: i64 = 0x400_0000;

/// Per-agent tunables, in fixed point.
#[derive(Clone, Copy, Debug, PartialEq, Eq, Structural)]
pub struct FlockMemberParams {
    pub max_speed: i64,
    pub max_accel: i64,
    pub safe_radius: i64,
}

impl FlockMemberParams {
    pub open spec fn wf(&self) -> bool {
        &&& 0 < self.max_speed <= COORD_LIMIT
        &&& 0 < self.max_accel <= COORD_LIMIT
        &&& 0 <= self.safe_radius <= COORD_LIMIT
    }
}

/// One agent: its id, the index of the flock that owns it, where it is,
/// how it moves and its tunables.
#[derive(Clone, Copy, Debug, PartialEq, Eq, Structural)]
pub struct FlockMember {
    pub id: u32,
    pub flock: usize,
    pub position: Vec2,
    pub velocity: Vec2,
    pub params: FlockMemberParams,
}

impl FlockMember {
    pub open spec fn wf(&self) -> bool {
        &&& within(self.position@, COORD_LIMIT as int)
        &&& within(self.velocity@, COORD_LIMIT as int)
        &&& self.params.wf()
    }
}

impl Default for FlockMember {
    /// An agent at rest at the origin, with top speed 200, top acceleration
    /// 30 and safe radius 50.
    fn default() -> (r: FlockMember)
        ensures
            r.id == 0,
            r.flock == 0,
            r.position@ == (0int, 0int),
            r.velocity@ == (0int, 0int),
            r.params.max_speed == 200 * ONE,
            r.params.max_accel == 30 * ONE,
            r.params.safe_radius == 50 * ONE,
            r.wf(),
    {
        FlockMember {
            id: 0,
            flock: 0,
            position: Vec2 { x: 0, y: 0 },
            velocity: Vec2 { x: 0, y: 0 },
            params: FlockMemberParams { max_speed: 200 * ONE, max_accel: 30 * ONE, safe_radius: 50 * ONE },
        }
    }
}

/// How a flock turns the steering rules into a new velocity.
#[derive(Clone, Copy, Debug, PartialEq, Eq, Structural)]
pub enum VelocityPolicy {
    /// The weighted steering, times top speed and time step, is added to the
    /// velocity, which is then cut back to the top speed.
    Direct,
    /// The weighted steering times top speed is an acceleration, cut back to
    /// the top acceleration, applied over the time step; the velocity is then
    /// cut back to the top speed.
    AccelerationLimited,
}

/// A flock: the indices of its members in the agent list, its radius, the
/// weights of the three rules and its velocity policy.
#[derive(Clone, Debug)]
pub struct Flock {
    pub members: Vec<usize>,
    pub flock_radius: i64,
    pub alignment_strength: i64,
    pub cohesion_strength: i64,
    pub separation_strength: i64,
    pub policy: VelocityPolicy,
}

impl Flock {
    pub open spec fn wf(&self) -> bool {
        &&& self.members@.len() <= MAX_FLOCK
        &&& 0 < self.flock_radius <= COORD_LIMIT
        &&& abs(self.alignment_strength as int) <= STRENGTH_LIMIT
        &&& abs(self.cohesion_strength as int) <= STRENGTH_LIMIT
        &&& abs(self.separation_strength as int) <= STRENGTH_LIMIT
    }
}

impl FlockMemberParams {
    /// Whether the tunables are in range (see `wf`).
    pub fn is_well_formed(&self) -> (r: bool)
        ensures
            r == self.wf(),
    {
        0 < self.max_speed && self.max_speed <= COORD_LIMIT && 0 < self.max_accel && self.max_accel
            <= COORD_LIMIT && 0 <= self.safe_radius && self.safe_radius <= COORD_LIMIT
    }
}

fn coord_in_range(a: i64) -> (r: bool)
    ensures
        r == (abs(a as int) <= COORD_LIMIT),
{
    -COORD_LIMIT <= a && a <= COORD_LIMIT
}

fn strength_in_range(a: i64) -> (r: bool)
    ensures
        r == (abs(a as int) <= STRENGTH_LIMIT),
{
    -STRENGTH_LIMIT <= a && a <= STRENGTH_LIMIT
}

impl FlockMember {
    /// Whether position, velocity and tunables are in range (see `wf`).
    pub fn is_well_formed(&self) -> (r: bool)
        ensures
            r == self.wf(),
    {
        coord_in_range(self.position.x) && coord_in_range(self.position.y) && coord_in_range(
            self.velocity.x,
        ) && coord_in_range(self.velocity.y) && self.params.is_well_formed()
    }
}

impl Flock {
    /// Whether size, radius and weights are in range and no member is listed
    /// twice.
    pub fn is_well_formed(&self) -> (r: bool)
        ensures
            r == (self.wf() && forall|k1: int, k2: int|
                0 <= k1 < self.members@.len() && 0 <= k2 < self.members@.len() && k1 != k2
                    ==> #[trigger] self.members@[k1] != #[trigger] self.members@[k2]),
    {
        if !(self.members.len() <= MAX_FLOCK && 0 < self.flock_radius && self.flock_radius
            <= COORD_LIMIT && strength_in_range(self.alignment_strength) && strength_in_range(
            self.cohesion_strength,
        ) && strength_in_range(self.separation_strength)) {
            return false;
        }
        let n = self.members.len();
        let mut k1: usize = 0;
        while k1 < n
            invariant
                n == self.members@.len(),
                k1 <= n,
                forall|a: int, b: int|
                    0 <= a < k1 && 0 <= b < k1 && a != b ==> #[trigger] self.members@[a]
                        != #[trigger] self.members@[b],
            decreases n - k1,
        {
            let mut k2: usize = 0;
            while k2 < k1
                invariant
                    n == self.members@.len(),
                    k2 <= k1 < n,
                    forall|a: int, b: int|
                        0 <= a < k1 && 0 <= b < k1 && a != b ==> #[trigger] self.members@[a]
                            != #[trigger] self.members@[b],
                    forall|b: int| 0 <= b < k2 ==> self.members@[k1 as int] != #[trigger] self.members@[b],
                decreases k1 - k2,
            {
                if self.members[k1] == self.members[k2] {
                    return false;
                }
                k2 = k2 + 1;
            }
            k1 = k1 + 1;
        }
        true
    }
}

/// What one aggregation pass yields for a non-empty flock.
#[derive(Clone, Debug)]
pub struct FlockAverages {
    pub average_position: Vec2,
    pub average_forward: Vec2,
    pub neighbors: Vec<Neighbor>,
}

/// Each coordinate divided by `k`, rounded toward zero.
pub open spec fn divided(v: (int, int), k: int) -> (int, int) {
    (tdiv(v.0, k), tdiv(v.1, k))
}

/// The reference toward which the member after the first `k` ones is
/// folded: the origin for the first member, else the average so far
/// re-centered toward the origin.
pub open spec fn running_center(sum: (int, int), k: int, b: Bounds) -> (int, int) {
    if k == 0 {
        (0, 0)
    } else {
        wrapped(divided(sum, k), (0, 0), b)
    }
}

/// The sum of the members' positions, each folded toward the running
/// average of those before it.
pub open spec fn position_sum(ms: Seq<FlockMember>, b: Bounds) -> (int, int)
    decreases ms.len(),
{
    if ms.len() == 0 {
        (0, 0)
    } else {
        let prev = position_sum(ms.drop_last(), b);
        let center = running_center(prev, ms.len() - 1, b);
        plus(prev, wrapped(ms.last().position@, center, b))
    }
}

pub open spec fn velocity_sum(ms: Seq<FlockMember>) -> (int, int)
    decreases ms.len(),
{
    if ms.len() == 0 {
        (0, 0)
    } else {
        plus(velocity_sum(ms.drop_last()), ms.last().velocity@)
    }
}

pub open spec fn average_position_of(ms: Seq<FlockMember>, b: Bounds) -> (int, int) {
    divided(position_sum(ms, b), ms.len() as int)
}

pub open spec fn average_forward_of(ms: Seq<FlockMember>) -> (int, int) {
    divided(velocity_sum(ms), ms.len() as int)
}

/// A member as separation sees it: its position re-centered toward `center`.
pub open spec fn neighbor_of(m: FlockMember, center: (int, int), b: Bounds) -> Neighbor {
    let p = wrapped(m.position@, center, b);
    Neighbor {
        id: m.id,
        position: Vec2 { x: p.0 as i64, y: p.1 as i64 },
        safe_radius: m.params.safe_radius,
    }
}

pub open spec fn neighbors_of(ms: Seq<FlockMember>, center: (int, int), b: Bounds) -> Seq<Neighbor> {
    Seq::new(ms.len(), |j: int| neighbor_of(ms[j], center, b))
}

/// `r` is what the aggregation pass yields for the non-empty `ms`.
pub open spec fn averages_of(ms: Seq<FlockMember>, b: Bounds, r: FlockAverages) -> bool {
    &&& r.average_position@ == average_position_of(ms, b)
    &&& r.average_forward@ == average_forward_of(ms)
    &&& r.neighbors@ == neighbors_of(ms, r.average_position@, b)
}

/// Bound on a coordinate of a folded position and of the average position.
pub open spec fn folded_limit() -> int {
    3 * COORD_LIMIT
}

proof fn lemma_divided_within(v: (int, int), k: int, lim: int)
    requires
        k > 0,
        lim >= 0,
        within(v, k * lim),
    ensures
        within(divided(v, k), lim),
{
    crate::fixed::lemma_tdiv_bound(v.0, k);
    crate::fixed::lemma_tdiv_bound(v.1, k);
    assert(abs(tdiv(v.0, k)) <= lim && abs(tdiv(v.1, k)) <= lim) by (nonlinear_arith)
        requires
            k > 0,
            abs(tdiv(v.0, k)) * k <= abs(v.0),
            abs(tdiv(v.1, k)) * k <= abs(v.1),
            abs(v.0) <= k * lim,
            abs(v.1) <= k * lim,
            abs(tdiv(v.0, k)) >= 0,
            abs(tdiv(v.1, k)) >= 0,
    ;
}

/// The plain sum of the members' positions.
pub open spec fn plain_position_sum(ms: Seq<FlockMember>) -> (int, int)
    decreases ms.len(),
{
    if ms.len() == 0 {
        (0, 0)
    } else {
        plus(plain_position_sum(ms.drop_last()), ms.last().position@)
    }
}

/// The range `[lo, hi]` lies within half the domain's extent `w` of the
/// origin and spans no more than half of `w`.
pub open spec fn compact_range(lo: int, hi: int, w: int) -> bool {
    -w <= 2 * lo && lo <= hi && 2 * hi <= w && 2 * (hi - lo) <= w
}

proof fn lemma_tdiv_in_range(s: int, k: int, lo: int, hi: int)
    requires
        k > 0,
        lo <= hi,
        k * lo <= s <= k * hi,
    ensures
        lo <= tdiv(s, k) <= hi,
{
    crate::fixed::lemma_tdiv_bound(s, k);
    crate::fixed::lemma_tdiv_abs(s, k);
    let t = tdiv(s, k);
    let u = abs(s) / k;
    if s >= 0 {
        assert(t == u);
        assert(lo <= t <= hi) by (nonlinear_arith)
            requires
                k > 0,
                s >= 0,
                k * lo <= s <= k * hi,
                t * k <= s,
                s < (t + 1) * k,
                t >= 0,
        ;
    } else {
        assert(t == -u);
        assert(lo <= t <= hi) by (nonlinear_arith)
            requires
                k > 0,
                s < 0,
                k * lo <= s <= k * hi,
                u * k <= -s,
                -s < (u + 1) * k,
                t == -u,
        ;
    }
}

/// When every member lies in a box within half an extent of the origin that
/// spans on each axis no more than half the domain's extent, no member is
/// folded: the wrap-aware sum of positions is the plain
/// sum, so the average position is the plain average.
pub proof fn lemma_compact_flock_plain_average(
    ms: Seq<FlockMember>,
    b: Bounds,
    lo: (int, int),
    hi: (int, int),
)
    requires
        b.wf(),
        compact_range(lo.0, hi.0, b.width()),
        compact_range(lo.1, hi.1, b.height()),
        forall|k: int|
            0 <= k < ms.len() ==> lo.0 <= (#[trigger] ms[k]).position.x <= hi.0 && lo.1
                <= ms[k].position.y <= hi.1,
    ensures
        position_sum(ms, b) == plain_position_sum(ms),
        average_position_of(ms, b) == divided(plain_position_sum(ms), ms.len() as int),
        ms.len() * lo.0 <= plain_position_sum(ms).0 <= ms.len() * hi.0,
        ms.len() * lo.1 <= plain_position_sum(ms).1 <= ms.len() * hi.1,
    decreases ms.len(),
{
    if ms.len() > 0 {
        let rest = ms.drop_last();
        let k = rest.len() as int;
        assert forall|j: int| 0 <= j < rest.len() implies lo.0 <= (#[trigger] rest[j]).position.x
            <= hi.0 && lo.1 <= rest[j].position.y <= hi.1 by {
            assert(rest[j] == ms[j]);
        }
        lemma_compact_flock_plain_average(rest, b, lo, hi);
        let prev = plain_position_sum(rest);
        let last = ms[ms.len() - 1];
        if k > 0 {
            lemma_tdiv_in_range(prev.0, k, lo.0, hi.0);
            lemma_tdiv_in_range(prev.1, k, lo.1, hi.1);
        }
        let c = running_center(prev, k, b);
        if k > 0 {
            assert(lo.0 <= c.0 <= hi.0 && lo.1 <= c.1 <= hi.1);
        }
        assert(wrapped(last.position@, c, b) == last.position@);
        assert((k + 1) * lo.0 == k * lo.0 + lo.0 && (k + 1) * hi.0 == k * hi.0 + hi.0) by (nonlinear_arith);
        assert((k + 1) * lo.1 == k * lo.1 + lo.1 && (k + 1) * hi.1 == k * hi.1 + hi.1) by (nonlinear_arith);
    }
}

/// The aggregation pass over the members of one flock, in order. An empty
/// flock has no averages.
pub fn aggregate(members: &[FlockMember], bounds: Bounds) -> (r: Option<FlockAverages>)
    requires
        bounds.wf(),
        members@.len() <= MAX_FLOCK,
        forall|j: int| 0 <= j < members@.len() ==> (#[trigger] members@[j]).wf(),
    ensures
        r is None <==> members@.len() == 0,
        r matches Some(a) ==> averages_of(members@, bounds, a),
        r matches Some(a) ==> within(a.average_position@, folded_limit()),
        r matches Some(a) ==> within(a.average_forward@, COORD_LIMIT as int),
{
    let n = members.len();
    if n == 0 {
        return None;
    }
    let mut px: i128 = 0;
    let mut py: i128 = 0;
    let mut vx: i128 = 0;
    let mut vy: i128 = 0;
    let mut i: usize = 0;
    while i < n
        invariant
            n == members@.len(),
            i <= n <= MAX_FLOCK,
            bounds.wf(),
            forall|j: int| 0 <= j < members@.len() ==> (#[trigger] members@[j]).wf(),
            (px as int, py as int) == position_sum(members@.take(i as int), bounds),
            (vx as int, vy as int) == velocity_sum(members@.take(i as int)),
            within((px as int, py as int), i * folded_limit()),
            within((vx as int, vy as int), i * COORD_LIMIT),
            i * folded_limit() <= 0x400_0000_0000_0000_0000,
            i * COORD_LIMIT <= 0x400_0000_0000_0000_0000,
        decreases n - i,
    {
        let m = members[i];
        let ghost prefix = members@.take(i as int);
        proof {
            assert((i + 1) * folded_limit() <= 0x400_0000_0000_0000_0000) by (nonlinear_arith)
                requires
                    i < 0x100_0000,
                    folded_limit() == 3 * 0x100_0000_0000,
            ;
            assert((i + 1) * COORD_LIMIT <= 0x400_0000_0000_0000_0000) by (nonlinear_arith)
                requires
                    i < 0x100_0000,
            ;
            assert(members@.take(i + 1).drop_last() =~= prefix);
            assert(members@.take(i + 1).last() == m);
        }
        let center = if i == 0 {
            Vec2 { x: 0, y: 0 }
        } else {
            proof {
                lemma_divided_within((px as int, py as int), i as int, folded_limit());
            }
            let partial = Vec2 {
                x: div_toward_zero(px, i as i128) as i64,
                y: div_toward_zero(py, i as i128) as i64,
            };
            partial.bound_to(Vec2 { x: 0, y: 0 }, bounds)
        };
        proof {
            if i > 0 {
                lemma_divided_within((px as int, py as int), i as int, folded_limit());
                lemma_wrap_within(
                    divided((px as int, py as int), i as int),
                    (0, 0),
                    bounds,
                    folded_limit(),
                );
            }
        }
        let folded = m.position.bound_to(center, bounds);
        proof {
            lemma_wrap_within(m.position@, center@, bounds, COORD_LIMIT as int);
            assert((i + 1) * folded_limit() == i * folded_limit() + folded_limit()) by (nonlinear_arith);
            assert((i + 1) * COORD_LIMIT == i * COORD_LIMIT + COORD_LIMIT) by (nonlinear_arith);
        }
        px = px + folded.x as i128;
        py = py + folded.y as i128;
        vx = vx + m.velocity.x as i128;
        vy = vy + m.velocity.y as i128;
        i = i + 1;
    }
    proof {
        assert(members@.take(n as int) =~= members@);
        lemma_divided_within((px as int, py as int), n as int, folded_limit());
        lemma_divided_within((vx as int, vy as int), n as int, COORD_LIMIT as int);
    }
    let average_position = Vec2 {
        x: div_toward_zero(px, n as i128) as i64,
        y: div_toward_zero(py, n as i128) as i64,
    };
    let average_forward = Vec2 {
        x: div_toward_zero(vx, n as i128) as i64,
        y: div_toward_zero(vy, n as i128) as i64,
    };
    let mut neighbors: Vec<Neighbor> = Vec::new();
    let mut j: usize = 0;
    while j < n
        invariant
            n == members@.len(),
            j <= n,
            bounds.wf(),
            forall|k: int| 0 <= k < members@.len() ==> (#[trigger] members@[k]).wf(),
            within(average_position@, folded_limit()),
            neighbors@ =~= neighbors_of(members@, average_position@, bounds).take(j as int),
        decreases n - j,
    {
        let m = members[j];
        proof {
            lemma_wrap_within(m.position@, average_position@, bounds, COORD_LIMIT as int);
        }
        let p = m.position.bound_to(average_position, bounds);
        neighbors.push(Neighbor { id: m.id, position: p, safe_radius: m.params.safe_radius });
        j = j + 1;
    }
    proof {
        assert(neighbors_of(members@, average_position@, bounds).take(n as int) =~= neighbors_of(
            members@,
            average_position@,
            bounds,
        ));
    }
    Some(FlockAverages { average_position, average_forward, neighbors })
}

} // verus!
