use ant_sim::ant::{Ant, Decision, Pheromones, Then, ANT_RADIUS};
use ant_sim::geometry::{distance, isqrt, manhattan_dist, square_dist, Point};
use ant_sim::shape::{basic_forms_overlap, disc_collides, disc_contains, BasicShape, Shape, ShapeType};

fn idle_rules() -> [Decision; 4] {
    [
        Decision::IfHaveFood(Then::SetDest),
        Decision::IfHaveFood(Then::SetDest),
        Decision::IfHaveFood(Then::SetDest),
        Decision::IfHaveFood(Then::SetDest),
    ]
}

#[test]
fn square_dist_and_distance() {
    let a = Point::new(0, 0);
    let b = Point::new(3000, 4000);
    assert_eq!(square_dist(a, b), 25_000_000);
    assert_eq!(distance(a, b), 5000);
    assert_eq!(manhattan_dist(a, b), 7000);
    assert_eq!(isqrt(24), 4);
    assert_eq!(isqrt(25), 5);
    assert_eq!(isqrt(0), 0);
    let far = Point::new(i32::MIN, i32::MIN);
    let other = Point::new(i32::MAX, i32::MAX);
    assert_eq!(square_dist(far, other), 2 * (u32::MAX as u128) * (u32::MAX as u128));
}

#[test]
fn discs_overlap_inside_the_band_and_not_beyond() {
    let ant = Ant::new(Point::new(0, 0), idle_rules());
    // radii 2 and 3 units: touching at 5 units
    let touching = Pheromones::new(Point::new(5000, 0), 3000);
    assert!(ant.collides(&touching.into_basic_shape()));
    assert!(touching.collides(&ant.into_basic_shape()));
    let near = Pheromones::new(Point::new(4000, 0), 3000);
    assert!(ant.collides(&near.into_basic_shape()));
    let beyond = Pheromones::new(Point::new(5100, 0), 3000);
    assert!(!ant.collides(&beyond.into_basic_shape()));
    assert!(!beyond.collides(&ant.into_basic_shape()));
}

#[test]
fn disc_contains_point_within_tolerance() {
    let m = Pheromones::new(Point::new(0, 0), 1000);
    assert!(m.contains_point(Point::new(0, 0)));
    assert!(m.contains_point(Point::new(1000, 0)));
    assert!(m.contains_point(Point::new(600, 800)));
    // 1000.5 steps away: 1000 * 1000 + 1000 is the edge of the tolerance
    assert!(!m.contains_point(Point::new(1001, 0)));
    assert!(disc_contains(Point::new(10, 10), 0, Point::new(10, 10)));
    assert!(!disc_contains(Point::new(10, 10), 0, Point::new(10, 50)));
}

#[test]
fn shape_accessors() {
    let ant = Ant::new(Point::new(7, -3), idle_rules());
    assert_eq!(ant.get_center(), Point::new(7, -3));
    assert_eq!(ant.get_shape_type(), ShapeType::Circle);
    match ant.into_basic_shape() {
        BasicShape::Circle(c, r) => {
            assert_eq!(c, Point::new(7, -3));
            assert_eq!(r, ANT_RADIUS);
        }
        _ => panic!("an ant is a disc"),
    }
    let m = Pheromones::new(Point::new(1, 2), 1500);
    assert_eq!(m.get_center(), Point::new(1, 2));
    assert_eq!(m.get_shape_type(), ShapeType::Circle);
    match m.into_basic_shape() {
        BasicShape::Circle(c, r) => {
            assert_eq!(c, Point::new(1, 2));
            assert_eq!(r, 1500);
        }
        _ => panic!("a marker is a disc"),
    }
}

#[test]
fn disc_against_box_samples_its_outline() {
    // box from (-1000, 1000) one unit wide and two units tall
    let boxed = BasicShape::Rect(Point::new(-1000, 1000), 1000, 2000);
    assert!(disc_collides(Point::new(0, 0), 500, &boxed));
    // the center of the box is not a sampled point
    assert!(!disc_collides(Point::new(-500, 0), 100, &boxed));
    assert!(!disc_collides(Point::new(5000, 5000), 2000, &boxed));
    let ant = Ant::new(Point::new(-1000, -3000), idle_rules());
    assert!(ant.collides(&boxed));
}

#[test]
fn disc_against_sampled_outline() {
    let outline = BasicShape::Other(vec![Point::new(10000, 0), Point::new(0, 10000)]);
    assert!(disc_collides(Point::new(9000, 0), 1000, &outline));
    assert!(!disc_collides(Point::new(5000, 5000), 1000, &outline));
    assert!(!disc_collides(Point::new(0, 0), 1000, &BasicShape::Other(Vec::new())));
}

#[test]
fn forms_without_a_disc_never_overlap() {
    let a = BasicShape::Rect(Point::new(0, 0), 10, 10);
    let b = BasicShape::Rect(Point::new(0, 0), 10, 10);
    assert!(!basic_forms_overlap(&a, &b));
    let c = BasicShape::Circle(Point::new(0, 0), 100);
    assert!(basic_forms_overlap(&a, &c));
    assert!(basic_forms_overlap(&c, &a));
}
