//! One simulation tick over all flocks: aggregation, steering and velocity
//! update for every member (reading only the state from before the tick),
//! then motion integration for every agent.
use crate::fixed::{len_sq, lemma_unit_within, within, Vec2, COORD_LIMIT};
use crate::flock::{
    aggregate, average_forward_of, average_position_of, averages_of, folded_limit, neighbors_of,
    Flock, FlockAverages, FlockMember,
};
use crate::motion::{
    integrate, integrated, lemma_speed_clamped, update_velocity, velocity_after, weighted_steering,
    DT_LIMIT,
};
use crate::steering::{
    alignment, alignment_of, cohesion, cohesion_of, separation, separation_of, Neighbor, MAX_FLOCK,
};
use crate::torus::{lemma_wrap_within, wrapped, Bounds};
use vstd::prelude::*;

verus! {

/// The agents, and the flocks that group them by index.
#[derive(Clone, Debug)]
pub struct World {
    pub agents: Vec<FlockMember>,
    pub flocks: Vec<Flock>,
}

impl World {
    /// Every agent and flock is well formed; every member index names an
    /// agent that records that flock as its owner; no flock lists an agent
    /// twice.
    pub open spec fn wf(&self) -> bool {
        &&& forall|i: int| 0 <= i < self.agents@.len() ==> (#[trigger] self.agents@[i]).wf()
        &&& forall|f: int| 0 <= f < self.flocks@.len() ==> (#[trigger] self.flocks@[f]).wf()
        &&& forall|f: int, k: int|
            0 <= f < self.flocks@.len() && 0 <= k < self.flocks@[f].members@.len() ==> {
                let i = #[trigger] self.flocks@[f].members@[k];
                &&& i < self.agents@.len()
                &&& self.agents@[i as int].flock == f
            }
        &&& forall|f: int, k1: int, k2: int|
            0 <= f < self.flocks@.len() && 0 <= k1 < self.flocks@[f].members@.len() && 0 <= k2
                < self.flocks@[f].members@.len() && k1 != k2 ==> #[trigger] self.flocks@[f].members@[k1]
                != #[trigger] self.flocks@[f].members@[k2]
    }
}

impl World {
    /// Whether the world is well formed (see `wf`), so that it can be
    /// ticked.
    pub fn is_well_formed(&self) -> (r: bool)
        ensures
            r == self.wf(),
    {
        let na = self.agents.len();
        let mut i: usize = 0;
        while i < na
            invariant
                na == self.agents@.len(),
                i <= na,
                forall|j: int| 0 <= j < i ==> (#[trigger] self.agents@[j]).wf(),
            decreases na - i,
        {
            if !self.agents[i].is_well_formed() {
                return false;
            }
            i = i + 1;
        }
        let nf = self.flocks.len();
        let mut f: usize = 0;
        while f < nf
            invariant
                na == self.agents@.len(),
                nf == self.flocks@.len(),
                f <= nf,
                forall|j: int| 0 <= j < na ==> (#[trigger] self.agents@[j]).wf(),
                forall|g: int| 0 <= g < f ==> (#[trigger] self.flocks@[g]).wf(),
                forall|g: int, k: int|
                    0 <= g < f && 0 <= k < self.flocks@[g].members@.len() ==> {
                        let i = #[trigger] self.flocks@[g].members@[k];
                        &&& i < na
                        &&& self.agents@[i as int].flock == g
                    },
                forall|g: int, k1: int, k2: int|
                    0 <= g < f && 0 <= k1 < self.flocks@[g].members@.len() && 0 <= k2
                        < self.flocks@[g].members@.len() && k1 != k2
                        ==> #[trigger] self.flocks@[g].members@[k1]
                        != #[trigger] self.flocks@[g].members@[k2],
            decreases nf - f,
        {
            let flock = &self.flocks[f];
            if !flock.is_well_formed() {
                return false;
            }
            let n = flock.members.len();
            let mut k: usize = 0;
            while k < n
                invariant
                    na == self.agents@.len(),
                    n == flock.members@.len(),
                    f < nf == self.flocks@.len(),
                    *flock == self.flocks@[f as int],
                    k <= n,
                    forall|j: int|
                        0 <= j < k ==> {
                            let i = #[trigger] flock.members@[j];
                            &&& i < na
                            &&& self.agents@[i as int].flock == f
                        },
                decreases n - k,
            {
                let idx = flock.members[k];
                if idx >= na || self.agents[idx].flock != f {
                    assert(self.flocks@[f as int].members@[k as int] == idx);
                    return false;
                }
                k = k + 1;
            }
            f = f + 1;
        }
        true
    }
}

/// The members of a flock, in the flock's order.
pub open spec fn gathered(agents: Seq<FlockMember>, members: Seq<usize>) -> Seq<FlockMember> {
    Seq::new(members.len(), |k: int| agents[members[k] as int])
}

/// The new velocity of member `m` from its flock's averages.
pub open spec fn steered_with(
    flock: Flock,
    average_position: (int, int),
    average_forward: (int, int),
    neighbors: Seq<Neighbor>,
    m: FlockMember,
    b: Bounds,
    dt: int,
) -> (int, int) {
    let pos = wrapped(m.position@, average_position, b);
    let a = alignment_of(m.params.max_speed as int, average_forward);
    let c = cohesion_of(pos, average_position, flock.flock_radius as int);
    let s = separation_of(m.id, pos, m.params.safe_radius as int, neighbors);
    velocity_after(flock.policy, m.velocity@, m.params, weighted_steering(flock, a, c, s), dt)
}

proof fn lemma_steered_speed(
    flock: Flock,
    average_position: (int, int),
    average_forward: (int, int),
    neighbors: Seq<Neighbor>,
    m: FlockMember,
    b: Bounds,
    dt: int,
)
    requires
        m.params.wf(),
    ensures
        len_sq(steered_with(flock, average_position, average_forward, neighbors, m, b, dt))
            <= m.params.max_speed * m.params.max_speed,
{
    let pos = wrapped(m.position@, average_position, b);
    let a = alignment_of(m.params.max_speed as int, average_forward);
    let c = cohesion_of(pos, average_position, flock.flock_radius as int);
    let s = separation_of(m.id, pos, m.params.safe_radius as int, neighbors);
    lemma_speed_clamped(flock.policy, m.velocity@, m.params, weighted_steering(flock, a, c, s), dt);
}

/// The new velocity of member `m` of the flock whose members are `ms`.
pub open spec fn steered_velocity(
    flock: Flock,
    ms: Seq<FlockMember>,
    m: FlockMember,
    b: Bounds,
    dt: int,
) -> (int, int) {
    let avg = average_position_of(ms, b);
    steered_with(flock, avg, average_forward_of(ms), neighbors_of(ms, avg, b), m, b, dt)
}

/// Agent `i` is listed by the flock that it records as its owner.
pub open spec fn is_member(agents: Seq<FlockMember>, flocks: Seq<Flock>, i: int) -> bool {
    let f = agents[i].flock as int;
    f < flocks.len() && listed_before(flocks[f].members@, flocks[f].members@.len() as int, i)
}

/// The velocity of agent `i` after the steering phase of a tick: steered
/// when it belongs to a flock, else unchanged.
pub open spec fn flocked_velocity(
    agents: Seq<FlockMember>,
    flocks: Seq<Flock>,
    b: Bounds,
    dt: int,
    i: int,
) -> (int, int) {
    let m = agents[i];
    if is_member(agents, flocks, i) {
        let flock = flocks[m.flock as int];
        steered_velocity(flock, gathered(agents, flock.members@), m, b, dt)
    } else {
        m.velocity@
    }
}

/// `after` is `before` with only its velocity changed, to `v`.
pub open spec fn same_but_velocity(before: FlockMember, after: FlockMember, v: (int, int)) -> bool {
    &&& after.id == before.id
    &&& after.flock == before.flock
    &&& after.position == before.position
    &&& after.params == before.params
    &&& after.velocity@ == v
}

/// Agent `i` is among the first `k` entries of `members`.
pub open spec fn listed_before(members: Seq<usize>, k: int, i: int) -> bool {
    exists|k2: int| 0 <= k2 < k && #[trigger] members[k2] as int == i
}

/// Simulation settings: whether the domain wraps around at its edges.
#[derive(Clone, Copy, Debug, PartialEq, Eq, Structural)]
pub struct FlockingPlugin {
    pub include_wrapping: bool,
}

/// The new velocity of one member from its flock's averages.
fn steer_member(flock: &Flock, averages: &FlockAverages, m: &FlockMember, bounds: Bounds, dt: i64) -> (r:
    Vec2)
    requires
        flock.wf(),
        m.wf(),
        bounds.wf(),
        0 <= dt <= DT_LIMIT,
        within(averages.average_position@, folded_limit()),
        within(averages.average_forward@, COORD_LIMIT as int),
        averages.neighbors@.len() <= MAX_FLOCK,
        forall|j: int|
            0 <= j < averages.neighbors@.len() ==> (#[trigger] averages.neighbors@[j]).wf(),
    ensures
        r@ == steered_with(
            *flock,
            averages.average_position@,
            averages.average_forward@,
            averages.neighbors@,
            *m,
            bounds,
            dt as int,
        ),
        within(r@, COORD_LIMIT as int),
{
    proof {
        lemma_wrap_within(m.position@, averages.average_position@, bounds, COORD_LIMIT as int);
    }
    let pos = m.position.bound_to(averages.average_position, bounds);
    let a = alignment(m.params.max_speed, averages.average_forward);
    let c = cohesion(pos, averages.average_position, flock.flock_radius);
    let s = separation(m.id, m.params.safe_radius, pos, averages.neighbors.as_slice());
    proof {
        lemma_unit_within(a@);
        lemma_unit_within(c@);
        lemma_unit_within(s@);
    }
    update_velocity(flock, &m.params, m.velocity, a, c, s, dt)
}

/// Steers every member of flock `f` from the state before the call.
fn steer_flock(agents: &mut Vec<FlockMember>, flock: &Flock, f: usize, bounds: Bounds, dt: i64)
    requires
        flock.wf(),
        bounds.wf(),
        0 <= dt <= DT_LIMIT,
        forall|i: int| 0 <= i < old(agents)@.len() ==> (#[trigger] old(agents)@[i]).wf(),
        forall|k: int|
            0 <= k < flock.members@.len() ==> {
                let i = #[trigger] flock.members@[k];
                &&& i < old(agents)@.len()
                &&& old(agents)@[i as int].flock == f
            },
        forall|k1: int, k2: int|
            0 <= k1 < flock.members@.len() && 0 <= k2 < flock.members@.len() && k1 != k2
                ==> #[trigger] flock.members@[k1] != #[trigger] flock.members@[k2],
    ensures
        final(agents)@.len() == old(agents)@.len(),
        forall|i: int| 0 <= i < final(agents)@.len() ==> (#[trigger] final(agents)@[i]).wf(),
        forall|i: int|
            0 <= i < old(agents)@.len() ==> if listed_before(
                flock.members@,
                flock.members@.len() as int,
                i,
            ) {
                same_but_velocity(
                    old(agents)@[i],
                    #[trigger] final(agents)@[i],
                    steered_velocity(
                        *flock,
                        gathered(old(agents)@, flock.members@),
                        old(agents)@[i],
                        bounds,
                        dt as int,
                    ),
                )
            } else {
                final(agents)@[i] == old(agents)@[i]
            },
{
    let ghost before = agents@;
    let n = flock.members.len();
    let mut ms: Vec<FlockMember> = Vec::new();
    let mut k: usize = 0;
    while k < n
        invariant
            n == flock.members@.len(),
            k <= n,
            agents@ == before,
            forall|k: int|
                0 <= k < flock.members@.len() ==> (#[trigger] flock.members@[k]) < before.len(),
            ms@ =~= gathered(before, flock.members@).take(k as int),
        decreases n - k,
    {
        let idx = flock.members[k];
        ms.push(agents[idx]);
        k = k + 1;
    }
    proof {
        assert(ms@ =~= gathered(before, flock.members@));
        assert forall|j: int| 0 <= j < ms@.len() implies (#[trigger] ms@[j]).wf() by {
            assert(flock.members@[j] < before.len());
        }
    }
    let averages = aggregate(ms.as_slice(), bounds);
    match averages {
        None => {
            proof {
                assert(flock.members@.len() == 0);
            }
        },
        Some(avg) => {
            proof {
                assert forall|j: int| 0 <= j < avg.neighbors@.len() implies (
                #[trigger] avg.neighbors@[j]).wf() by {
                    lemma_wrap_within(ms@[j].position@, avg.average_position@, bounds, COORD_LIMIT as int);
                }
            }
            let mut k: usize = 0;
            while k < n
                invariant
                    n == flock.members@.len(),
                    k <= n,
                    flock.wf(),
                    bounds.wf(),
                    0 <= dt <= DT_LIMIT,
                    agents@.len() == before.len(),
                    ms@ == gathered(before, flock.members@),
                    averages_of(ms@, bounds, avg),
                    within(avg.average_position@, folded_limit()),
                    within(avg.average_forward@, COORD_LIMIT as int),
                    avg.neighbors@.len() <= MAX_FLOCK,
                    forall|j: int| 0 <= j < avg.neighbors@.len() ==> (#[trigger] avg.neighbors@[j]).wf(),
                    forall|i: int| 0 <= i < before.len() ==> (#[trigger] before[i]).wf(),
                    forall|i: int| 0 <= i < agents@.len() ==> (#[trigger] agents@[i]).wf(),
                    forall|k: int|
                        0 <= k < flock.members@.len() ==> (#[trigger] flock.members@[k]) < before.len(),
                    forall|k1: int, k2: int|
                        0 <= k1 < flock.members@.len() && 0 <= k2 < flock.members@.len() && k1 != k2
                            ==> #[trigger] flock.members@[k1] != #[trigger] flock.members@[k2],
                    forall|i: int|
                        0 <= i < before.len() ==> if listed_before(flock.members@, k as int, i) {
                            same_but_velocity(
                                before[i],
                                #[trigger] agents@[i],
                                steered_velocity(*flock, ms@, before[i], bounds, dt as int),
                            )
                        } else {
                            agents@[i] == before[i]
                        },
                decreases n - k,
            {
                let idx = flock.members[k];
                let m = agents[idx];
                let v = steer_member(flock, &avg, &m, bounds, dt);
                let updated = FlockMember {
                    id: m.id,
                    flock: m.flock,
                    position: m.position,
                    velocity: v,
                    params: m.params,
                };
                agents.set(idx, updated);
                proof {
                    assert forall|i: int| 0 <= i < before.len() implies if listed_before(
                        flock.members@,
                        k + 1,
                        i,
                    ) {
                        same_but_velocity(
                            before[i],
                            #[trigger] agents@[i],
                            steered_velocity(*flock, ms@, before[i], bounds, dt as int),
                        )
                    } else {
                        agents@[i] == before[i]
                    } by {
                        if i == idx as int {
                            assert(flock.members@[k as int] == idx);
                            if listed_before(flock.members@, k as int, i) {
                                let k2 = choose|k2: int|
                                    0 <= k2 < k && #[trigger] flock.members@[k2] as int == i;
                                assert(flock.members@[k2] != flock.members@[k as int]);
                            }
                        } else {
                            if listed_before(flock.members@, k + 1, i) {
                                let k2 = choose|k2: int|
                                    0 <= k2 < k + 1 && #[trigger] flock.members@[k2] as int == i;
                                assert(k2 != k);
                            }
                        }
                    }
                }
                k = k + 1;
            }
        },
    }
}

impl FlockingPlugin {
    pub fn new(include_wrapping: bool) -> (r: FlockingPlugin)
        ensures
            r.include_wrapping == include_wrapping,
    {
        FlockingPlugin { include_wrapping }
    }

    /// Settings under which the domain wraps around.
    pub fn with_wrapping() -> (r: FlockingPlugin)
        ensures
            r.include_wrapping,
    {
        Self::new(true)
    }

    /// The domain passed to the integrator: the bounds when wrapping is on.
    pub open spec fn wrap_of(&self, bounds: Bounds) -> Option<Bounds> {
        if self.include_wrapping {
            Some(bounds)
        } else {
            None
        }
    }

    /// One simulation tick of length `dt`. Every agent that its flock lists
    /// gets the velocity that the steering rules give from the state before
    /// the tick; every agent then moves by its velocity (see `integrated`).
    pub fn tick(&self, world: &mut World, dt: i64, bounds: Bounds)
        requires
            old(world).wf(),
            bounds.wf(),
            0 <= dt <= DT_LIMIT,
        ensures
            final(world).wf(),
            final(world).flocks@ == old(world).flocks@,
            final(world).agents@.len() == old(world).agents@.len(),
            forall|i: int|
                0 <= i < old(world).agents@.len() ==> {
                    let before = old(world).agents@[i];
                    let after = #[trigger] final(world).agents@[i];
                    let v = flocked_velocity(
                        old(world).agents@,
                        old(world).flocks@,
                        bounds,
                        dt as int,
                        i,
                    );
                    &&& after.id == before.id
                    &&& after.flock == before.flock
                    &&& after.params == before.params
                    &&& after.velocity@ == v
                    &&& is_member(old(world).agents@, old(world).flocks@, i) ==> len_sq(v)
                        <= before.params.max_speed * before.params.max_speed
                    &&& after.position@ == integrated(
                        before.position@,
                        v,
                        dt as int,
                        self.wrap_of(bounds),
                    )
                },
    {
        let ghost start = world.agents@;
        let ghost flocks = world.flocks@;
        let nf = world.flocks.len();
        let mut f: usize = 0;
        while f < nf
            invariant
                nf == flocks.len(),
                f <= nf,
                bounds.wf(),
                0 <= dt <= DT_LIMIT,
                world.flocks@ == flocks,
                world.agents@.len() == start.len(),
                world.wf(),
                forall|i: int| 0 <= i < start.len() ==> (#[trigger] start[i]).wf(),
                forall|ff: int, k: int|
                    0 <= ff < flocks.len() && 0 <= k < flocks[ff].members@.len() ==> {
                        let i = #[trigger] flocks[ff].members@[k];
                        &&& i < start.len()
                        &&& start[i as int].flock == ff
                    },
                forall|i: int|
                    0 <= i < start.len() ==> if start[i].flock < f && is_member(start, flocks, i) {
                        same_but_velocity(
                            start[i],
                            #[trigger] world.agents@[i],
                            flocked_velocity(start, flocks, bounds, dt as int, i),
                        )
                    } else {
                        world.agents@[i] == start[i]
                    },
            decreases nf - f,
        {
            let ghost current = world.agents@;
            proof {
                assert(gathered(current, flocks[f as int].members@) =~= gathered(
                    start,
                    flocks[f as int].members@,
                )) by {
                    assert forall|k: int| 0 <= k < flocks[f as int].members@.len() implies current[(
                    #[trigger] flocks[f as int].members@[k]) as int] == start[flocks[f as int].members@[k] as int] by {
                        let i = flocks[f as int].members@[k] as int;
                        assert(start[i].flock == f);
                    }
                }
            }
            steer_flock(&mut world.agents, &world.flocks[f], f, bounds, dt);
            proof {
                assert forall|i: int| 0 <= i < start.len() implies if start[i].flock < f + 1
                    && is_member(start, flocks, i) {
                    same_but_velocity(
                        start[i],
                        #[trigger] world.agents@[i],
                        flocked_velocity(start, flocks, bounds, dt as int, i),
                    )
                } else {
                    world.agents@[i] == start[i]
                } by {
                    if listed_before(flocks[f as int].members@, flocks[f as int].members@.len() as int, i) {
                        let k = choose|k: int|
                            0 <= k < flocks[f as int].members@.len() && #[trigger] flocks[f as int].members@[k]
                                as int == i;
                        assert(start[flocks[f as int].members@[k] as int].flock == f);
                    }
                }
            }
            f = f + 1;
        }
        let ghost steered = world.agents@;
        let wrap = if self.include_wrapping {
            Some(bounds)
        } else {
            None
        };
        let na = world.agents.len();
        let mut i: usize = 0;
        while i < na
            invariant
                na == start.len(),
                i <= na,
                bounds.wf(),
                0 <= dt <= DT_LIMIT,
                wrap == self.wrap_of(bounds),
                world.flocks@ == flocks,
                world.agents@.len() == na,
                steered.len() == na,
                forall|j: int| 0 <= j < na ==> (#[trigger] steered[j]).wf(),
                forall|j: int| 0 <= j < na ==> (#[trigger] world.agents@[j]).wf(),
                forall|j: int|
                    0 <= j < na ==> {
                        let s = steered[j];
                        let a = #[trigger] world.agents@[j];
                        &&& a.id == s.id
                        &&& a.flock == s.flock
                        &&& a.params == s.params
                        &&& a.velocity == s.velocity
                        &&& if j < i {
                            a.position@ == integrated(s.position@, s.velocity@, dt as int, wrap)
                        } else {
                            a.position == s.position
                        }
                    },
            decreases na - i,
        {
            let m = world.agents[i];
            let p = integrate(m.position, m.velocity, dt, wrap);
            world.agents.set(
                i,
                FlockMember {
                    id: m.id,
                    flock: m.flock,
                    position: p,
                    velocity: m.velocity,
                    params: m.params,
                },
            );
            i = i + 1;
        }
        proof {
            assert forall|i: int| 0 <= i < start.len() && is_member(start, flocks, i) implies len_sq(
                #[trigger] flocked_velocity(start, flocks, bounds, dt as int, i),
            ) <= start[i].params.max_speed * start[i].params.max_speed by {
                let m = start[i];
                let flock = flocks[m.flock as int];
                let ms = gathered(start, flock.members@);
                let avg = average_position_of(ms, bounds);
                assert(m.wf());
                lemma_steered_speed(
                    flock,
                    avg,
                    average_forward_of(ms),
                    neighbors_of(ms, avg, bounds),
                    m,
                    bounds,
                    dt as int,
                );
            }
        }
    }
}

} // verus!
