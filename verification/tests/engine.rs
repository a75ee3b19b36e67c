use nphysics::body_damping::BodyDamping;
use nphysics::fx::{div_trunc, fx_mul, isqrt, SCALE};
use nphysics::geom::{ball_ball_contact, ball_plane_contact, Geom};
use nphysics::joint::{Anchor, BallInSocketJoint, JointManager};
use nphysics::object::{Body, Mobility, RigidBody};
use nphysics::pairwise::Dispatcher;
use nphysics::signal::{Event, SignalEmitter};
use nphysics::vect::Vect;
use nphysics::world::World;

fn ball(radius: i64, mobility: Mobility) -> RigidBody {
    RigidBody::new(Geom::new_ball(radius), mobility, SCALE, SCALE, 300, 600)
}

fn plane(normal: Vect) -> RigidBody {
    RigidBody::new(Geom::new_plane(normal), Mobility::Static, 0, 0, 300, 600)
}

#[test]
fn fixed_point_basics() {
    assert_eq!(isqrt(10), 3);
    assert_eq!(isqrt(1048576), 1024);
    assert_eq!(div_trunc(-7, 2), -3);
    assert_eq!(fx_mul(2048, 512), 1024);
    assert_eq!(fx_mul(-2048, 512), -1024);
}

#[test]
fn ball_plane_contact_exact() {
    let c = Vect::new(0, 0, 0);
    let p = Vect::new(0, 0, 0);
    let n = Vect::new(0, 16, 0);
    let contact = ball_plane_contact(c, 1024, p, n).expect("penetrating");
    assert_eq!(contact.depth, 1024);
    assert_eq!(contact.normal, Vect::new(0, -16, 0));
    // Center one radius above the plane: exactly resting, no penetration.
    let c2 = Vect::new(0, 1024, 0);
    assert!(ball_plane_contact(c2, 1024, p, n).is_none());
}

#[test]
fn ball_ball_contact_exact() {
    let c1 = Vect::new(0, 0, 0);
    let c2 = Vect::new(1024, 0, 0);
    let contact = ball_ball_contact(c1, 1024, c2, 1024).expect("penetrating");
    assert_eq!(contact.depth, 1024);
    assert_eq!(contact.normal, Vect::new(1024, 0, 0));
    assert_eq!(contact.world1, Vect::new(1024, 0, 0));
    assert_eq!(contact.world2, Vect::new(0, 0, 0));
    // Separated by more than the radii: nothing.
    let far = Vect::new(4096, 0, 0);
    assert!(ball_ball_contact(c1, 1024, far, 1024).is_none());
}

#[test]
fn dispatcher_rejects_static_pairs() {
    let disp = Dispatcher::new();
    let a = Body::RB(plane(Vect::new(0, 16, 0)));
    let b = Body::RB(plane(Vect::new(0, -16, 0)));
    let c = Body::RB(ball(512, Mobility::Dynamic));
    assert!(!disp.is_valid(0, 1, &a, &b));
    assert!(disp.is_valid(0, 2, &a, &c));
    assert!(!disp.is_valid(2, 2, &c, &c));
}

#[test]
fn falling_ball_gains_contact_and_statics_stay() {
    // Gravity pulls the ball down onto a static plane through the origin.
    let mut w = World::new(Vect::new(0, -2048, 0), SCALE, SCALE);
    let p = w.add_body(Body::RB(plane(Vect::new(0, 16, 0))));
    let mut b = ball(512, Mobility::Dynamic);
    b.translate(Vect::new(0, 2048, 0));
    let bid = w.add_body(Body::RB(b));
    let plane_before = w.bodies[p];
    let mut contact_seen = false;
    for _ in 0..220 {
        w.step(SCALE / 64);
        if !w.constraints.is_empty() {
            contact_seen = true;
            break;
        }
    }
    assert!(contact_seen, "the falling ball must reach the plane");
    assert_eq!(w.bodies[p], plane_before, "static bodies never move");
    assert!(w
        .signals
        .log
        .iter()
        .any(|e| matches!(e, Event::CollisionStarted { .. })));
    // The ball moved down.
    match &w.bodies[bid] {
        Some(Body::RB(rb)) => assert!(rb.position.y < 2048),
        _ => panic!("ball missing"),
    }
}

#[test]
fn quiescent_body_falls_asleep() {
    let mut w = World::new(Vect::new(0, 0, 0), SCALE, SCALE);
    let mut b = ball(512, Mobility::Dynamic);
    b.set_deactivation_threshold(1 << 40);
    b.set_can_deactivate(true);
    let id = w.add_body(Body::RB(b));
    for _ in 0..80 {
        w.step(SCALE / 64);
    }
    match &w.bodies[id] {
        Some(Body::RB(rb)) => assert!(!rb.activation.active, "a still body must sleep"),
        _ => panic!("body missing"),
    }
    assert!(w
        .signals
        .log
        .iter()
        .any(|e| matches!(e, Event::BodyDeactivated { id: i } if *i == id)));
    // Sleep consistency: the integrators forgot the sleeper.
    assert!(!w.damping.objects.ids.contains(&id));
    assert!(!w.integrator.objects.ids.contains(&id));
}

#[test]
fn removal_requests_waking_sleeping_neighbors() {
    let mut w = World::new(Vect::new(0, 0, 0), SCALE, SCALE);
    let mut lower = ball(1024, Mobility::Dynamic);
    lower.set_deactivation_threshold(1 << 40);
    lower.set_can_deactivate(true);
    let low = w.add_body(Body::RB(lower));
    let mut upper = ball(1024, Mobility::Dynamic);
    upper.translate(Vect::new(0, 1536, 0));
    upper.set_deactivation_threshold(1 << 40);
    upper.set_can_deactivate(true);
    let up = w.add_body(Body::RB(upper));
    for _ in 0..80 {
        w.step(SCALE / 64);
    }
    match (&w.bodies[low], &w.bodies[up]) {
        (Some(Body::RB(a)), Some(Body::RB(b))) => {
            assert!(!a.activation.active && !b.activation.active);
        }
        _ => panic!("bodies missing"),
    }
    // Pulling the lower sleeper out wakes its sleeping neighbor within the
    // same call: the hole is left in the arena, and body_activated fires.
    w.remove_body(low);
    assert!(w.bodies[low].is_none());
    assert!(w
        .signals
        .log
        .iter()
        .any(|e| matches!(e, Event::BodyActivated { id } if *id == up)));
    match &w.bodies[up] {
        Some(Body::RB(rb)) => assert!(rb.activation.active, "the neighbor must wake"),
        _ => panic!("neighbor missing"),
    }
    assert!(w.damping.objects.ids.contains(&up));
    assert!(w.signals.pending_activations.is_empty());
}

#[test]
fn identical_worlds_step_identically() {
    let build = || {
        let mut w = World::new(Vect::new(0, -2048, 0), SCALE - 1, SCALE);
        w.add_body(Body::RB(plane(Vect::new(0, 16, 0))));
        let mut b = ball(512, Mobility::Dynamic);
        b.translate(Vect::new(0, 1024, 0));
        w.add_body(Body::RB(b));
        w
    };
    let mut w1 = build();
    let mut w2 = build();
    for _ in 0..32 {
        w1.step(SCALE / 64);
        w2.step(SCALE / 64);
        assert_eq!(w1.bodies, w2.bodies);
        assert_eq!(w1.signals.log, w2.signals.log);
        assert_eq!(w1.constraints, w2.constraints);
    }
}

#[test]
fn ccd_stops_fast_ball_at_plane() {
    let margin = 512;
    let mut w = World::new(Vect::new(0, 0, 0), SCALE, SCALE);
    let mut wall = plane(Vect::new(0, 0, -16));
    wall.translate(Vect::new(0, 0, 5120));
    w.add_body(Body::RB(wall));
    let mut bullet = ball(512, Mobility::Dynamic);
    bullet.set_lin_vel(Vect::new(0, 0, 16384));
    bullet.enable_ccd(margin);
    let fast = w.add_body(Body::RB(bullet));
    w.step(SCALE);
    match &w.bodies[fast] {
        Some(Body::RB(rb)) => {
            assert_eq!(rb.position.z, 4608, "clamped to the time of impact");
        }
        _ => panic!("bullet missing"),
    }

    // Without the clamp the same ball tunnels straight through.
    let mut w2 = World::new(Vect::new(0, 0, 0), SCALE, SCALE);
    let mut wall2 = plane(Vect::new(0, 0, -16));
    wall2.translate(Vect::new(0, 0, 5120));
    w2.add_body(Body::RB(wall2));
    let mut bullet2 = ball(512, Mobility::Dynamic);
    bullet2.set_lin_vel(Vect::new(0, 0, 16384));
    let fast2 = w2.add_body(Body::RB(bullet2));
    w2.step(SCALE);
    match &w2.bodies[fast2] {
        Some(Body::RB(rb)) => {
            assert_eq!(rb.position.z, 16384, "no clamp, straight through");
        }
        _ => panic!("bullet missing"),
    }
}

#[test]
fn ray_cast_reports_exact_times_of_impact() {
    let mut w = World::new(Vect::new(0, 0, 0), SCALE, SCALE);
    let mut b = ball(1024, Mobility::Dynamic);
    b.translate(Vect::new(0, 0, 2048));
    let ball_id = w.add_body(Body::RB(b));
    let mut wall = plane(Vect::new(0, 0, -16));
    wall.translate(Vect::new(0, 0, 5120));
    let wall_id = w.add_body(Body::RB(wall));
    let mut out: Vec<(usize, i64)> = Vec::new();
    w.narrow
        .interferences_with_ray(Vect::new(0, 0, 0), Vect::new(0, 0, 1024), &w.bodies, &mut out);
    // The ball's surface is one unit along the ray; the plane five units.
    assert_eq!(out, vec![(ball_id, 1024), (wall_id, 5120)]);
    // A ray pointing away hits nothing.
    let mut none: Vec<(usize, i64)> = Vec::new();
    w.narrow
        .interferences_with_ray(Vect::new(0, 0, 0), Vect::new(0, 0, -1024), &w.bodies, &mut none);
    assert!(none.is_empty());
}

#[test]
fn joints_emit_and_purge() {
    let mut jm = JointManager::new();
    let joint = BallInSocketJoint {
        anchor1: Anchor { body: Some(0), position: Vect::new(0, 0, 0) },
        anchor2: Anchor { body: None, position: Vect::new(1024, 0, 0) },
    };
    let mut out = Vec::new();
    jm.interferences(&mut out);
    assert!(out.is_empty());
    jm.add_ball_in_socket(joint);
    let mut out2 = Vec::new();
    jm.interferences(&mut out2);
    assert_eq!(out2.len(), 1);
    jm.handle_body_removed(0);
    let mut out3 = Vec::new();
    jm.interferences(&mut out3);
    assert!(out3.is_empty());
}

#[test]
fn duplicate_handler_registration_is_idempotent() {
    let mut em = SignalEmitter::new();
    em.add_body_activation_handler(7);
    em.add_body_activation_handler(7);
    assert_eq!(em.handlers.len(), 1);
    em.remove_body_activation_handler(7);
    assert!(em.handlers.is_empty());
    em.remove_body_activation_handler(7);
    assert!(em.handlers.is_empty());
}

#[test]
fn damping_scales_velocities() {
    let mut em = SignalEmitter::new();
    let mut damping = BodyDamping::new(&mut em, 9, SCALE / 2, SCALE / 2);
    let mut b = ball(512, Mobility::Dynamic);
    b.set_lin_vel(Vect::new(1024, 0, 0));
    b.set_ang_vel(Vect::new(0, 2048, 0));
    let mut bodies: Vec<Option<Body>> = vec![Some(Body::RB(b))];
    damping.add(0);
    damping.update(SCALE / 64, &mut bodies);
    match &bodies[0] {
        Some(Body::RB(rb)) => {
            assert_eq!(rb.lin_vel, Vect::new(512, 0, 0));
            assert_eq!(rb.ang_vel, Vect::new(0, 1024, 0));
        }
        _ => panic!("body missing"),
    }
}
