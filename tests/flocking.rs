use flocking::fixed::{ceil_sqrt_u128, normalize, Vec2, COORD_LIMIT, ONE};
use flocking::flock::{aggregate, Flock, FlockMember, FlockMemberParams, VelocityPolicy};
use flocking::motion::{integrate, update_velocity};
use flocking::simulation::{FlockingPlugin, World};
use flocking::steering::{alignment, cohesion, separation, Neighbor};
use flocking::torus::Bounds;

fn v(x: i64, y: i64) -> Vec2 {
    Vec2 { x, y }
}

fn len_sq(a: Vec2) -> i128 {
    a.x as i128 * a.x as i128 + a.y as i128 * a.y as i128
}

fn viewport() -> Bounds {
    Bounds::from_viewport(1024 * ONE, 800 * ONE)
}

fn params(max_speed: i64, max_accel: i64, safe_radius: i64) -> FlockMemberParams {
    FlockMemberParams { max_speed, max_accel, safe_radius }
}

fn member(id: u32, flock: usize, position: Vec2, velocity: Vec2, p: FlockMemberParams) -> FlockMember {
    FlockMember { id, flock, position, velocity, params: p }
}

fn flock_of(members: Vec<usize>, policy: VelocityPolicy) -> Flock {
    Flock {
        members,
        flock_radius: 50 * ONE,
        alignment_strength: ONE,
        cohesion_strength: ONE,
        separation_strength: ONE,
        policy,
    }
}

fn neighbor(id: u32, position: Vec2, safe_radius: i64) -> Neighbor {
    Neighbor { id, position, safe_radius }
}

#[test]
fn viewport_bounds_are_centered() {
    let b = viewport();
    assert_eq!(b.lower, v(-512 * ONE, -400 * ONE));
    assert_eq!(b.upper, v(512 * ONE, 400 * ONE));
}

#[test]
fn odd_viewport_keeps_full_width() {
    let b = Bounds::from_viewport(5, 7);
    assert_eq!(b.lower, v(-2, -3));
    assert_eq!(b.upper, v(3, 4));
}

#[test]
fn wrap_past_upper_edge_moves_back_one_width() {
    let b = viewport();
    let p = v(513 * ONE, 0);
    assert_eq!(p.bound_to(v(0, 0), b), v(513 * ONE - 1024 * ONE, 0));
}

#[test]
fn wrap_below_lower_edge_and_on_y() {
    let b = viewport();
    assert_eq!(v(-600 * ONE, 401 * ONE).bound_to(v(0, 0), b), v(424 * ONE, -399 * ONE));
}

#[test]
fn wrap_inside_window_is_unchanged() {
    let b = viewport();
    assert_eq!(v(512 * ONE, -400 * ONE).bound_to(v(0, 0), b), v(512 * ONE, -400 * ONE));
    assert_eq!(v(100 * ONE, 7).bound_to(v(0, 0), b), v(100 * ONE, 7));
}

#[test]
fn wrap_toward_other_center() {
    let b = viewport();
    // the window around x = 500 spans [-12, 1012]
    assert_eq!(v(-500 * ONE, 0).bound_to(v(500 * ONE, 0), b), v(524 * ONE, 0));
}

#[test]
fn wrap_twice_equals_once() {
    let b = viewport();
    let c = v(100 * ONE, -50 * ONE);
    for p in [v(1600 * ONE, 0), v(-1400 * ONE, 900 * ONE), v(0, 0), v(700 * ONE, -1000 * ONE)] {
        let once = p.bound_to(c, b);
        assert_eq!(once.bound_to(c, b), once);
    }
}

#[test]
fn ceil_sqrt_values() {
    assert_eq!(ceil_sqrt_u128(0), 0);
    assert_eq!(ceil_sqrt_u128(1), 1);
    assert_eq!(ceil_sqrt_u128(2), 2);
    assert_eq!(ceil_sqrt_u128(4), 2);
    assert_eq!(ceil_sqrt_u128(5), 3);
    assert_eq!(ceil_sqrt_u128(1_000_000_000_000_000_000_000_000_000_000), 1_000_000_000_000_000);
}

#[test]
fn normalize_values() {
    assert_eq!(normalize(0, 0), v(0, 0));
    assert_eq!(normalize(3, 4), v(39321, 52428));
    assert_eq!(normalize(1, 1), v(46340, 46340));
    assert_eq!(normalize(-7 * ONE as i128, 0), v(-ONE, 0));
}

#[test]
fn alignment_is_clamped_to_unit() {
    assert_eq!(alignment(2 * ONE, v(10 * ONE, 0)), v(ONE, 0));
    assert_eq!(alignment(ONE, v(3 * ONE, 4 * ONE)), v(39321, 52428));
    let a = alignment(ONE, v(COORD_LIMIT, -COORD_LIMIT));
    assert!(len_sq(a) <= (ONE as i128) * (ONE as i128));
}

#[test]
fn alignment_below_top_speed_is_scaled() {
    assert_eq!(alignment(4 * ONE, v(ONE, ONE)), v(ONE / 4, ONE / 4));
    assert_eq!(alignment(200 * ONE, v(0, 0)), v(0, 0));
}

#[test]
fn cohesion_is_linear_inside_radius() {
    assert_eq!(cohesion(v(0, 0), v(10 * ONE, 0), 50 * ONE), v(13107, 0));
    assert_eq!(cohesion(v(5 * ONE, 5 * ONE), v(5 * ONE, -20 * ONE), 50 * ONE), v(0, -ONE / 2));
}

#[test]
fn cohesion_is_unit_outside_radius() {
    assert_eq!(cohesion(v(0, 0), v(100 * ONE, 0), 50 * ONE), v(ONE, 0));
    assert_eq!(cohesion(v(0, 0), v(300 * ONE, 400 * ONE), 50 * ONE), v(39321, 52428));
    // exactly on the radius counts as outside
    assert_eq!(cohesion(v(0, 0), v(0, 50 * ONE), 50 * ONE), v(0, ONE));
}

#[test]
fn cohesion_at_average_is_zero() {
    assert_eq!(cohesion(v(7 * ONE, 3), v(7 * ONE, 3), 50 * ONE), v(0, 0));
}

#[test]
fn separation_two_agents_at_distance_ten() {
    let ns = [neighbor(1, v(0, 0), 8 * ONE), neighbor(2, v(10 * ONE, 0), 8 * ONE)];
    // (16 - 10) / 16 = 0.375 of ONE, away from the other agent
    assert_eq!(separation(1, 8 * ONE, v(0, 0), &ns), v(-24576, 0));
}

#[test]
fn separation_diagonal_overlap() {
    let ns = [neighbor(2, v(6 * ONE, 8 * ONE), 8 * ONE)];
    assert_eq!(separation(1, 8 * ONE, v(0, 0), &ns), v(-14746, -19661));
}

#[test]
fn separation_without_overlap_is_zero() {
    let ns = [neighbor(2, v(20 * ONE, 0), 8 * ONE), neighbor(3, v(0, -16 * ONE), 8 * ONE)];
    assert_eq!(separation(1, 8 * ONE, v(0, 0), &ns), v(0, 0));
    let empty: [Neighbor; 0] = [];
    assert_eq!(separation(1, 8 * ONE, v(0, 0), &empty), v(0, 0));
}

#[test]
fn separation_skips_own_id_and_coincident_points() {
    let ns = [neighbor(1, v(ONE, 0), 8 * ONE), neighbor(2, v(0, 0), 8 * ONE)];
    assert_eq!(separation(1, 8 * ONE, v(0, 0), &ns), v(0, 0));
}

#[test]
fn separation_sum_is_clamped() {
    let ns = [
        neighbor(2, v(ONE, 0), 100 * ONE),
        neighbor(3, v(ONE, ONE / 2), 100 * ONE),
        neighbor(4, v(ONE, -ONE / 2), 100 * ONE),
    ];
    let s = separation(1, 100 * ONE, v(0, 0), &ns);
    assert!(len_sq(s) <= (ONE as i128) * (ONE as i128));
    assert!(s.x < -ONE / 2);
}

#[test]
fn integrate_unit_velocity_one_second() {
    assert_eq!(integrate(v(0, 0), v(ONE, 0), ONE, None), v(ONE, 0));
}

#[test]
fn integrate_zero_velocity_keeps_position() {
    assert_eq!(integrate(v(3 * ONE, -ONE), v(0, 0), ONE, None), v(3 * ONE, -ONE));
}

#[test]
fn integrate_fraction_of_second() {
    // 60 px/s for 1/60 s, the step rounded toward zero
    assert_eq!(integrate(v(0, 0), v(60 * ONE, -60 * ONE), ONE / 60, None), v(65520, -65520));
}

#[test]
fn integrate_wraps_when_asked() {
    let b = viewport();
    assert_eq!(integrate(v(511 * ONE, 0), v(2 * ONE, 0), ONE, Some(b)), v(-511 * ONE, 0));
    assert_eq!(integrate(v(511 * ONE, 0), v(2 * ONE, 0), ONE, None), v(513 * ONE, 0));
}

#[test]
fn integrate_keeps_old_coordinate_out_of_range() {
    let p = integrate(v(COORD_LIMIT - 1, 5), v(COORD_LIMIT, ONE), ONE, None);
    assert_eq!(p, v(COORD_LIMIT - 1, 5 + ONE));
}

#[test]
fn direct_update_is_clamped_to_top_speed() {
    let f = flock_of(vec![], VelocityPolicy::Direct);
    let p = params(200 * ONE, 30 * ONE, 0);
    let r = update_velocity(&f, &p, v(200 * ONE, 0), v(ONE, 0), v(0, 0), v(0, 0), ONE);
    assert_eq!(r, v(200 * ONE, 0));
}

#[test]
fn direct_update_below_top_speed() {
    let mut f = flock_of(vec![], VelocityPolicy::Direct);
    f.alignment_strength = ONE / 2;
    f.separation_strength = 0;
    let p = params(10 * ONE, 30 * ONE, 0);
    let r = update_velocity(&f, &p, v(3 * ONE, 4 * ONE), v(ONE, 0), v(0, ONE), v(ONE, 0), ONE / 4);
    assert_eq!(r, v(278528, 425984));
}

#[test]
fn acceleration_update_is_clamped_to_top_acceleration() {
    let f = flock_of(vec![], VelocityPolicy::AccelerationLimited);
    let p = params(200 * ONE, 30 * ONE, 0);
    assert_eq!(update_velocity(&f, &p, v(0, 0), v(ONE, 0), v(0, 0), v(0, 0), ONE), v(30 * ONE, 0));
    let mut g = flock_of(vec![], VelocityPolicy::AccelerationLimited);
    g.cohesion_strength = 2 * ONE;
    let r = update_velocity(&g, &p, v(0, 0), v(0, ONE), v(0, 0), v(ONE, 0), ONE);
    assert_eq!(r, v(1390200, 1390200));
    assert!(len_sq(r) <= (30 * ONE as i128) * (30 * ONE as i128));
}

#[test]
fn aggregate_empty_flock_has_no_averages() {
    assert!(aggregate(&[], viewport()).is_none());
}

#[test]
fn aggregate_folds_members_across_the_seam() {
    let p = params(200 * ONE, 30 * ONE, 0);
    let ms = [
        member(1, 0, v(500 * ONE, 0), v(ONE, 0), p),
        member(2, 0, v(-500 * ONE, 0), v(3 * ONE, 2 * ONE), p),
    ];
    let a = aggregate(&ms, viewport()).unwrap();
    assert_eq!(a.average_position, v(512 * ONE, 0));
    assert_eq!(a.average_forward, v(2 * ONE, ONE));
    assert_eq!(a.neighbors.len(), 2);
    assert_eq!(a.neighbors[0], neighbor(1, v(500 * ONE, 0), 0));
    assert_eq!(a.neighbors[1], neighbor(2, v(524 * ONE, 0), 0));
}

#[test]
fn tick_single_agent_at_rest_keeps_velocity() {
    let p = params(200 * ONE, 30 * ONE, 50 * ONE);
    for policy in [VelocityPolicy::Direct, VelocityPolicy::AccelerationLimited] {
        let mut w = World {
            agents: vec![member(1, 0, v(10 * ONE, -20 * ONE), v(0, 0), p)],
            flocks: vec![flock_of(vec![0], policy)],
        };
        FlockingPlugin::with_wrapping().tick(&mut w, ONE / 60, viewport());
        assert_eq!(w.agents[0].velocity, v(0, 0));
        assert_eq!(w.agents[0].position, v(10 * ONE, -20 * ONE));
    }
}

#[test]
fn tick_single_agent_without_alignment_keeps_velocity() {
    let p = params(200 * ONE, 30 * ONE, 50 * ONE);
    let mut f = flock_of(vec![0], VelocityPolicy::Direct);
    f.alignment_strength = 0;
    let mut w = World { agents: vec![member(1, 0, v(0, 0), v(6 * ONE, 0), p)], flocks: vec![f] };
    FlockingPlugin::new(false).tick(&mut w, ONE, viewport());
    assert_eq!(w.agents[0].velocity, v(6 * ONE, 0));
    assert_eq!(w.agents[0].position, v(6 * ONE, 0));
}

#[test]
fn tick_two_members_and_a_loner() {
    let p = params(200 * ONE, 30 * ONE, 50 * ONE);
    let mut w = World {
        agents: vec![
            member(1, 0, v(0, 0), v(0, 0), p),
            member(2, 0, v(30 * ONE, 40 * ONE), v(10 * ONE, 0), p),
            member(3, 7, v(100 * ONE, 100 * ONE), v(5 * ONE, 5 * ONE), params(100 * ONE, 30 * ONE, 10 * ONE)),
        ],
        flocks: vec![flock_of(vec![0, 1], VelocityPolicy::Direct)],
    };
    FlockingPlugin::with_wrapping().tick(&mut w, ONE / 60, viewport());
    assert_eq!(w.agents[0].velocity, v(5455, 0));
    assert_eq!(w.agents[0].position, v(90, 0));
    assert_eq!(w.agents[1].velocity, v(660821, 0));
    assert_eq!(w.agents[1].position, v(1977090, 2621440));
    assert_eq!(w.agents[2].velocity, v(5 * ONE, 5 * ONE));
    assert_eq!(w.agents[2].position, v(6559060, 6559060));
}

#[test]
fn tick_acceleration_limited_flock() {
    let p = params(200 * ONE, ONE / 2, 50 * ONE);
    let mut w = World {
        agents: vec![member(1, 0, v(0, 0), v(0, 0), p), member(2, 0, v(30 * ONE, 40 * ONE), v(10 * ONE, 0), p)],
        flocks: vec![flock_of(vec![0, 1], VelocityPolicy::AccelerationLimited)],
    };
    FlockingPlugin::with_wrapping().tick(&mut w, ONE / 60, viewport());
    assert_eq!(w.agents[0].velocity, v(546, 0));
    assert_eq!(w.agents[0].position, v(9, 0));
    assert_eq!(w.agents[1].velocity, v(655906, 0));
    assert_eq!(w.agents[1].position, v(1977009, 2621440));
}

#[test]
fn tick_empty_flock_only_moves_agents() {
    let p = params(200 * ONE, 30 * ONE, 50 * ONE);
    let mut w = World {
        agents: vec![member(1, 1, v(0, 0), v(ONE, 2 * ONE), p)],
        flocks: vec![flock_of(vec![], VelocityPolicy::Direct), flock_of(vec![], VelocityPolicy::Direct)],
    };
    FlockingPlugin::new(true).tick(&mut w, ONE, viewport());
    assert_eq!(w.agents[0].velocity, v(ONE, 2 * ONE));
    assert_eq!(w.agents[0].position, v(ONE, 2 * ONE));
}

#[test]
fn tick_speed_never_exceeds_top_speed() {
    let p = params(20 * ONE, 400 * ONE, 50 * ONE);
    let mut w = World {
        agents: vec![
            member(1, 0, v(0, 0), v(20 * ONE, 0), p),
            member(2, 0, v(ONE, 0), v(0, 20 * ONE), p),
            member(3, 0, v(-500 * ONE, 390 * ONE), v(-14 * ONE, -14 * ONE), p),
        ],
        flocks: vec![flock_of(vec![0, 1, 2], VelocityPolicy::Direct)],
    };
    let b = viewport();
    for _ in 0..200 {
        FlockingPlugin::with_wrapping().tick(&mut w, ONE / 10, b);
        for a in &w.agents {
            assert!(len_sq(a.velocity) <= (20 * ONE as i128) * (20 * ONE as i128));
            assert!(a.position.x >= b.lower.x && a.position.x <= b.upper.x);
            assert!(a.position.y >= b.lower.y && a.position.y <= b.upper.y);
        }
    }
}

#[test]
fn plugin_settings() {
    assert!(FlockingPlugin::with_wrapping().include_wrapping);
    assert!(!FlockingPlugin::new(false).include_wrapping);
}

#[test]
fn default_member_is_at_rest_with_standard_tunables() {
    let m = FlockMember::default();
    assert_eq!(m.position, v(0, 0));
    assert_eq!(m.velocity, v(0, 0));
    assert_eq!(m.params, params(200 * ONE, 30 * ONE, 50 * ONE));
}

#[test]
fn world_well_formedness() {
    let p = params(200 * ONE, 30 * ONE, 50 * ONE);
    let good = World {
        agents: vec![member(1, 0, v(0, 0), v(0, 0), p), member(2, 0, v(ONE, 0), v(0, 0), p)],
        flocks: vec![flock_of(vec![0, 1], VelocityPolicy::Direct)],
    };
    assert!(good.is_well_formed());
    let twice = World { agents: good.agents.clone(), flocks: vec![flock_of(vec![0, 1, 0], VelocityPolicy::Direct)] };
    assert!(!twice.is_well_formed());
    let wrong_owner = World { agents: vec![member(1, 3, v(0, 0), v(0, 0), p)], flocks: vec![flock_of(vec![0], VelocityPolicy::Direct)] };
    assert!(!wrong_owner.is_well_formed());
    let missing = World { agents: vec![], flocks: vec![flock_of(vec![0], VelocityPolicy::Direct)] };
    assert!(!missing.is_well_formed());
    let slow = World { agents: vec![member(1, 0, v(0, 0), v(0, 0), params(0, ONE, 0))], flocks: vec![] };
    assert!(!slow.is_well_formed());
}

#[test]
fn aggregate_of_a_tight_cluster_is_the_plain_average() {
    let p = params(200 * ONE, 30 * ONE, 0);
    let ms = [
        member(1, 0, v(10 * ONE, 20 * ONE), v(ONE, 0), p),
        member(2, 0, v(-30 * ONE, 40 * ONE), v(0, ONE), p),
        member(3, 0, v(50 * ONE, -30 * ONE), v(2 * ONE, 2 * ONE), p),
    ];
    let a = aggregate(&ms, viewport()).unwrap();
    assert_eq!(a.average_position, v(10 * ONE, 10 * ONE));
    assert_eq!(a.average_forward, v(ONE, ONE));
    for (n, m) in a.neighbors.iter().zip(ms.iter()) {
        assert_eq!(n.position, m.position);
    }
}

#[test]
fn short_vectors_normalize_to_unit_length() {
    let one_sq = (ONE as i128) * (ONE as i128);
    let low = ((ONE - 2) as i128) * ((ONE - 2) as i128);
    for (x, y) in [(1i128, 0i128), (0, -1), (1, 1), (-3, 7), (5 * ONE as i128, -1)] {
        let r = normalize(x, y);
        assert!(len_sq(r) <= one_sq && len_sq(r) >= low);
    }
}

#[test]
fn cohesion_outside_a_tiny_radius_is_unit() {
    assert_eq!(cohesion(v(0, 0), v(1, 1), 1), v(46340, 46340));
}

#[test]
fn separation_from_a_very_close_neighbor_is_nearly_unit() {
    let ns = [neighbor(2, v(1, 1), 8 * ONE)];
    assert_eq!(separation(1, 8 * ONE, v(0, 0), &ns), v(-46340, -46340));
}

#[test]
fn large_weights_are_accepted() {
    let mut f = flock_of(vec![], VelocityPolicy::Direct);
    f.alignment_strength = 1000 * ONE;
    let p = params(200 * ONE, 30 * ONE, 0);
    let r = update_velocity(&f, &p, v(0, 0), v(ONE, 0), v(0, 0), v(0, 0), ONE);
    assert_eq!(r, v(200 * ONE, 0));
}

#[test]
fn separation_from_a_barely_overlapping_neighbor_is_not_zero() {
    let ns = [neighbor(2, v(16 * ONE - 1, 0), 8 * ONE)];
    assert_eq!(separation(1, 8 * ONE, v(0, 0), &ns), v(-1, 0));
}

#[test]
fn wrap_on_odd_width_moves_points_past_half_the_extent() {
    let b = Bounds::from_viewport(1024 * ONE + 1, 800 * ONE);
    assert_eq!(v(512 * ONE + 1, 0).bound_to(v(0, 0), b), v(-512 * ONE, 0));
    assert_eq!(v(-512 * ONE - 1, 0).bound_to(v(0, 0), b), v(512 * ONE, 0));
    assert_eq!(v(512 * ONE, 0).bound_to(v(0, 0), b), v(512 * ONE, 0));
}
