use orbit_sim::Universe;

/// A body on a line: the position, the displacement accumulated so far, and a
/// mass that pulls the others toward it.
#[derive(Clone, Debug, PartialEq)]
struct Dot {
    pos: i64,
    force: i64,
    mass: i64,
}

fn dot(pos: i64, mass: i64) -> Dot {
    Dot { pos, force: 0, mass }
}

/// Pull of `b` on `a`: `b`'s mass, toward `b`.
fn pull(a: &Dot, b: &Dot) -> Dot {
    let mut r = a.clone();
    r.force += (b.pos - a.pos).signum() * b.mass;
    r
}

fn step(a: &Dot) -> Dot {
    let mut r = a.clone();
    r.pos += r.force;
    r
}

/// A body that records, in order, which partners it met and how many
/// partners each of them had met by then.
#[derive(Clone, Debug, PartialEq)]
struct Tracer {
    id: usize,
    met: Vec<(usize, usize)>,
    moved: bool,
}

fn tracer(id: usize) -> Tracer {
    Tracer { id, met: Vec::new(), moved: false }
}

fn meet(a: &Tracer, b: &Tracer) -> Tracer {
    let mut r = a.clone();
    r.met.push((b.id, b.met.len()));
    r
}

fn mark(a: &Tracer) -> Tracer {
    let mut r = a.clone();
    r.moved = true;
    r
}

#[test]
fn new_universe_is_empty_at_tick_zero() {
    let u: Universe<Dot> = Universe::new();
    assert!(u.bodies.is_empty());
    assert_eq!(u.ticks(), 0);
}

#[test]
fn add_body_appends_in_order() {
    let mut u = Universe::new();
    u.add_body(dot(1, 2));
    u.add_body(dot(3, 4));
    assert_eq!(u.bodies, vec![dot(1, 2), dot(3, 4)]);
    assert_eq!(u.ticks(), 0);
}

#[test]
fn tick_on_empty_universe_only_counts() {
    let mut u: Universe<Dot> = Universe::new();
    u.tick(pull, step);
    assert_eq!(u.ticks(), 1);
    assert!(u.bodies.is_empty());
}

#[test]
fn lone_body_without_seed_stays() {
    let mut u = Universe::new();
    u.add_body(dot(7, 100));
    u.tick(pull, step);
    assert_eq!(u.bodies, vec![dot(7, 100)]);
    assert_eq!(u.ticks(), 1);
}

#[test]
fn lone_body_moves_by_its_seed() {
    let mut u = Universe::new();
    let mut d = dot(7, 100);
    d.force = -3;
    u.add_body(d);
    u.tick(pull, step);
    assert_eq!(u.bodies, vec![Dot { pos: 4, force: -3, mass: 100 }]);
    u.tick(pull, step);
    assert_eq!(u.bodies, vec![Dot { pos: 1, force: -3, mass: 100 }]);
    assert_eq!(u.ticks(), 2);
}

#[test]
fn pairs_are_visited_row_by_row_and_then_every_body_moves() {
    let mut u = Universe::new();
    for id in 0..3 {
        u.add_body(tracer(id));
    }
    u.tick(meet, mark);
    // Body 0 meets 1 and 2 untouched; body 1 meets 0 after its row, 2 untouched;
    // body 2 meets 0 and 1 after theirs.
    assert_eq!(u.bodies[0].met, vec![(1, 0), (2, 0)]);
    assert_eq!(u.bodies[1].met, vec![(0, 2), (2, 0)]);
    assert_eq!(u.bodies[2].met, vec![(0, 2), (1, 2)]);
    assert!(u.bodies.iter().all(|t| t.moved));
}

#[test]
fn force_accumulates_across_ticks() {
    let mut u = Universe::new();
    u.add_body(dot(0, 5));
    u.add_body(dot(100, 2));
    u.tick(pull, step);
    assert_eq!(u.bodies, vec![Dot { pos: 2, force: 2, mass: 5 }, Dot { pos: 95, force: -5, mass: 2 }]);
    u.tick(pull, step);
    assert_eq!(u.bodies, vec![Dot { pos: 6, force: 4, mass: 5 }, Dot { pos: 85, force: -10, mass: 2 }]);
    assert_eq!(u.ticks(), 2);
}

#[test]
fn middle_body_feels_both_sides() {
    // A heavy body between two lighter ones is drawn toward each of them.
    let mut u = Universe::new();
    u.add_body(dot(500, 20));
    u.add_body(dot(540, 8));
    u.add_body(dot(460, 8));
    u.tick(pull, step);
    assert_eq!(u.bodies[0], Dot { pos: 500, force: 0, mass: 20 });
    assert_eq!(u.bodies[1], Dot { pos: 512, force: -28, mass: 8 });
    assert_eq!(u.bodies[2], Dot { pos: 488, force: 28, mass: 8 });
}

#[test]
fn partners_are_read_as_before_the_tick() {
    // Pulls only change the force, so reordering the bodies gives each the
    // same result.
    let mut u = Universe::new();
    u.add_body(dot(0, 3));
    u.add_body(dot(10, 4));
    u.add_body(dot(-10, 5));
    u.tick(pull, step);
    let mut v = Universe::new();
    v.add_body(dot(-10, 5));
    v.add_body(dot(10, 4));
    v.add_body(dot(0, 3));
    v.tick(pull, step);
    assert_eq!(u.bodies[0], v.bodies[2]);
    assert_eq!(u.bodies[1], v.bodies[1]);
    assert_eq!(u.bodies[2], v.bodies[0]);
}

#[test]
fn many_ticks_in_a_row() {
    let mut u = Universe::new();
    u.add_body(dot(0, 1));
    u.add_body(dot(1000, 1));
    for _ in 0..10 {
        u.tick(pull, step);
    }
    assert_eq!(u.ticks(), 10);
    // Each tick adds one to each force, so after k ticks the positions moved by 1 + 2 + ... + k.
    assert_eq!(u.bodies[0], Dot { pos: 55, force: 10, mass: 1 });
    assert_eq!(u.bodies[1], Dot { pos: 945, force: -10, mass: 1 });
}
