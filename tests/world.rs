use ant_sim::ant::{Ant, Condition, Decision, DecisionError, Effect, Location, Memory, Pheromones, Source, Then};
use ant_sim::chart::{ring_count, ring_size};
use ant_sim::geometry::Point;
use ant_sim::world::{Environment, Object, AGENT, COLLIDABLE, RENDERABLE};

fn idle_rules() -> [Decision; 4] {
    [
        Decision::IfHaveFood(Then::SetDest),
        Decision::IfHaveFood(Then::SetDest),
        Decision::IfHaveFood(Then::SetDest),
        Decision::IfHaveFood(Then::SetDest),
    ]
}

fn marker(x: i32, y: i32, strength: u32) -> Object {
    Object::Marker(Pheromones::new(Point::new(x, y), strength))
}

/// Points on the rings around `src`, ring `r` holding `ring_size(r)` points
/// at even angular steps.
fn rings(src: Point, dest: Point) -> Vec<Point> {
    let mut out = Vec::new();
    for r in 1..=ring_count(src, dest) {
        let n = ring_size(r);
        for j in 0..n {
            let angle = (360.0 / n as f64 * j as f64).to_radians();
            let x = (r as f64) * 1000.0 * angle.sin() + src.x as f64;
            let y = (r as f64) * 1000.0 * angle.cos() + src.y as f64;
            out.push(Point::new(x.round() as i32, y.round() as i32));
        }
    }
    out
}

#[test]
fn add_assigns_roles_from_flags() {
    let mut env = Environment::new();
    let a = env.add(Object::Ant(Ant::new(Point::new(0, 0), idle_rules())), COLLIDABLE | RENDERABLE | AGENT);
    let m = env.add(marker(5, 5, 100), RENDERABLE | AGENT);
    assert_eq!(a, 0);
    assert_eq!(m, 1);
    assert_eq!(env.len(), 2);
    assert!(env.contains(a) && env.is_collider(a) && env.is_renderer(a) && env.is_agent(a));
    assert!(env.contains(m) && !env.is_collider(m) && env.is_renderer(m));
    // the flags alone decide the roles
    assert!(env.is_agent(m));
    assert!(!env.contains(7));
    // a marker in the agent role has no rules to run
    assert!(env.step().is_empty());
    assert!(env.is_agent(m));
}

#[test]
fn insert_then_remove_clears_every_role() {
    let mut env = Environment::new();
    let keep = env.add(marker(0, 0, 100), COLLIDABLE);
    let h = env.add(Object::Ant(Ant::new(Point::new(1, 1), idle_rules())), COLLIDABLE | RENDERABLE | AGENT);
    assert!(env.rm(h));
    assert!(!env.contains(h));
    assert!(!env.is_collider(h));
    assert!(!env.is_renderer(h));
    assert!(!env.is_agent(h));
    assert!(env.get(h).is_none());
    assert!(env.contains(keep) && env.is_collider(keep));
    // removing again reports that nothing was there
    assert!(!env.rm(h));
    assert!(!env.rm(99));
}

#[test]
fn field_is_zero_without_a_containing_marker() {
    let mut env = Environment::new();
    assert_eq!(env.pheromone_strength_at_pos(Point::new(0, 0)), 0);
    env.add(marker(0, 0, 1000), 0);
    assert_eq!(env.pheromone_strength_at_pos(Point::new(2000, 0)), 0);
}

#[test]
fn field_is_strength_over_distance() {
    let mut env = Environment::new();
    env.add(marker(0, 0, 1000), 0);
    // 1 unit of strength at half a unit: 2.0
    assert_eq!(env.pheromone_strength_at_pos(Point::new(500, 0)), 2000);
    // at the center the distance counts as one step
    assert_eq!(env.pheromone_strength_at_pos(Point::new(0, 0)), 1_000_000);
    env.add(marker(1000, 0, 1000), 0);
    assert_eq!(env.pheromone_strength_at_pos(Point::new(500, 0)), 4000);
}

#[test]
fn field_never_rises_over_ticks() {
    let mut env = Environment::new();
    env.add(marker(0, 0, 1000), COLLIDABLE);
    let p = Point::new(500, 0);
    let mut last = env.pheromone_strength_at_pos(p);
    assert!(last > 0);
    env.step();
    assert_eq!(env.pheromone_strength_at_pos(p), 1800);
    for _ in 0..12 {
        env.step();
        let now = env.pheromone_strength_at_pos(p);
        assert!(now <= last);
        last = now;
    }
    assert_eq!(last, 0);
    match env.get(0) {
        Some(e) => match &e.obj {
            Object::Marker(m) => assert_eq!(m.strength, 0),
            _ => panic!("slot 0 holds the marker"),
        },
        None => panic!("an exhausted marker stays"),
    }
}

#[test]
fn chart_path_reaches_a_clear_destination() {
    let env = Environment::new();
    let ant = Ant::new(Point::new(0, 0), idle_rules());
    let dest = Point::new(10000, 0);
    let cands = rings(ant.pos, dest);
    assert_eq!(cands.len(), 6);
    let path = env.chart_path(&ant, dest, &cands).expect("a clear destination is reached");
    assert!(!path.is_empty());
    assert_eq!(path[0], Point::new(0, 0));
    assert_eq!(*path.last().unwrap(), dest);
}

#[test]
fn chart_path_walks_around_the_grid() {
    let mut env = Environment::new();
    env.add(marker(3000, 3000, 500), 0);
    let ant = Ant::new(Point::new(0, 0), idle_rules());
    let dest = Point::new(14000, 0);
    let cands = rings(ant.pos, dest);
    let path = env.chart_path(&ant, dest, &cands).expect("the rings lead there");
    assert_eq!(path[0], ant.pos);
    assert_eq!(*path.last().unwrap(), dest);
    assert!(path.len() >= 3);
    for (i, p) in path.iter().enumerate() {
        if i > 0 && i + 1 < path.len() {
            assert!(cands.contains(p));
        }
        for q in &path[i + 1..] {
            assert_ne!(p, q);
        }
    }
}

#[test]
fn chart_path_fails_when_the_destination_is_enclosed() {
    let mut env = Environment::new();
    let dest = Point::new(30000, 0);
    for k in 0..16 {
        let angle = (22.5 * k as f64).to_radians();
        let x = 30000.0 + 8000.0 * angle.cos();
        let y = 8000.0 * angle.sin();
        env.add(marker(x.round() as i32, y.round() as i32, 4000), COLLIDABLE);
    }
    let ant = Ant::new(Point::new(0, 0), idle_rules());
    let cands = rings(ant.pos, dest);
    assert_eq!(ring_count(ant.pos, dest), 20);
    assert!(env.chart_path(&ant, dest, &cands).is_none());
}

#[test]
fn chart_path_fails_without_candidates_far_away() {
    let env = Environment::new();
    let ant = Ant::new(Point::new(0, 0), idle_rules());
    assert!(env.chart_path(&ant, Point::new(50000, 0), &Vec::new()).is_none());
}

#[test]
fn ring_sizes_and_counts() {
    assert_eq!(ring_size(1), 6);
    assert_eq!(ring_size(3), 18);
    assert_eq!(ring_count(Point::new(0, 0), Point::new(0, 0)), 1);
    assert_eq!(ring_count(Point::new(0, 0), Point::new(10000, 0)), 1);
    assert_eq!(ring_count(Point::new(0, 0), Point::new(12500, 0)), 3);
    assert_eq!(ring_count(Point::new(0, 0), Point::new(30000, 0)), 20);
}

#[test]
fn remember_then_forget_keeps_length() {
    let mut ant = Ant::new(Point::new(4, 5), idle_rules());
    ant.memory.push(Memory::Number(9));
    let before = ant.memory.len();
    ant.remember();
    assert_eq!(ant.recall(0), Ok(Memory::Position(Point::new(4, 5))));
    assert_eq!(ant.recall(1), Ok(Memory::Number(9)));
    ant.forget();
    assert_eq!(ant.memory.len(), before);
    assert_eq!(ant.recall(0), Ok(Memory::Position(Point::new(4, 5))));
    assert_eq!(ant.recall(1), Err(DecisionError::MemoryOutOfRange));
    assert_eq!(ant.recall(-1), Err(DecisionError::MemoryOutOfRange));
    ant.forget();
    ant.forget();
    assert!(ant.memory.is_empty());
}

#[test]
fn nested_actions_run_outside_in() {
    let mut ant = Ant::new(Point::new(1, 2), idle_rules());
    let t = Then::Remember(Box::new(Then::Remember(Box::new(Then::Forget(Box::new(Then::SetDest))))));
    assert_eq!(ant.perform(&t), Effect::SetDest(Point::new(1, 2)));
    assert_eq!(ant.memory.len(), 1);
    assert_eq!(ant.dest, Some(Point::new(1, 2)));
    let e = ant.perform(&Then::Forget(Box::new(Then::EmitPheromone)));
    assert_eq!(e, Effect::EmitPheromone(Point::new(1, 2)));
    assert!(ant.memory.is_empty());
}

#[test]
fn sources_evaluate_or_report_errors() {
    let mut env = Environment::new();
    let ant = Ant::new(Point::new(0, 0), idle_rules());
    assert_eq!(env.evaluate_src(&ant, Source::Number(-4)), Ok(Memory::Number(-4)));
    assert_eq!(env.evaluate_src(&ant, Source::Dist(Location::Pos(Point::new(3000, 4000)))), Ok(Memory::Number(5000)));
    assert_eq!(env.evaluate_src(&ant, Source::Dist(Location::Here)), Ok(Memory::Number(0)));
    assert_eq!(env.evaluate_src(&ant, Source::Loc(Location::Here)), Ok(Memory::Position(Point::new(0, 0))));
    assert_eq!(env.evaluate_src(&ant, Source::Food), Err(DecisionError::Unsupported));
    assert_eq!(env.evaluate_src(&ant, Source::Loc(Location::Home)), Err(DecisionError::Unsupported));
    assert_eq!(env.evaluate_src(&ant, Source::Dist(Location::Dest)), Err(DecisionError::Unsupported));
    assert_eq!(env.evaluate_src(&ant, Source::Memory(0)), Err(DecisionError::MemoryOutOfRange));
    assert_eq!(env.evaluate_src(&ant, Source::Loc(Location::PheromoneSrc)), Err(DecisionError::NoMarker));
    assert_eq!(env.evaluate_src(&ant, Source::PheromoneStrength), Ok(Memory::Number(0)));
    env.add(marker(9000, 0, 100), 0);
    env.add(marker(-2000, 0, 100), 0);
    env.add(marker(0, 2000, 100), 0);
    assert_eq!(env.evaluate_src(&ant, Source::Loc(Location::PheromoneSrc)), Ok(Memory::Position(Point::new(-2000, 0))));
    assert_eq!(env.evaluate_src(&ant, Source::Dist(Location::PheromoneSrc)), Ok(Memory::Number(2000)));
}

#[test]
fn conditions_compare_like_kinds_only() {
    let env = Environment::new();
    let ant = Ant::new(Point::new(0, 0), idle_rules());
    let n = |v: i64| Source::Number(v);
    let at = |x: i32, y: i32| Source::Loc(Location::Pos(Point::new(x, y)));
    assert_eq!(env.evaluate_cond(&ant, &Condition::LessThan(n(1), n(2))), Ok(true));
    assert_eq!(env.evaluate_cond(&ant, &Condition::GreaterThan(n(1), n(2))), Ok(false));
    assert_eq!(env.evaluate_cond(&ant, &Condition::Equal(n(3), n(3))), Ok(true));
    assert_eq!(env.evaluate_cond(&ant, &Condition::Not(Box::new(Condition::Equal(n(3), n(3))))), Ok(false));
    assert_eq!(env.evaluate_cond(&ant, &Condition::LessThan(at(0, 0), at(1, 1))), Ok(true));
    assert_eq!(env.evaluate_cond(&ant, &Condition::LessThan(at(0, 0), at(1, 0))), Ok(false));
    assert_eq!(env.evaluate_cond(&ant, &Condition::GreaterThan(at(2, 2), at(1, 1))), Ok(true));
    assert_eq!(env.evaluate_cond(&ant, &Condition::LessThan(n(0), at(1, 1))), Ok(false));
    assert_eq!(env.evaluate_cond(&ant, &Condition::GreaterThan(at(1, 1), n(0))), Ok(false));
    assert_eq!(env.evaluate_cond(&ant, &Condition::Equal(n(0), at(0, 0))), Ok(false));
    assert_eq!(env.evaluate_cond(&ant, &Condition::Equal(Source::Food, Source::Memory(3))), Err(DecisionError::Unsupported));
    assert_eq!(env.evaluate_cond(&ant, &Condition::Equal(n(1), Source::Memory(3))), Err(DecisionError::MemoryOutOfRange));
    assert_eq!(env.make_decision(&ant, &Decision::Always(Then::SetDest)), Ok(true));
    assert_eq!(env.make_decision(&ant, &Decision::IfHaveFood(Then::SetDest)), Ok(false));
    assert_eq!(env.make_decision(&ant, &Decision::If(Condition::LessThan(n(1), n(2)), Then::SetDest)), Ok(true));
}

#[test]
fn step_runs_each_agents_rules_in_order() {
    let mut env = Environment::new();
    let rules = [
        Decision::Always(Then::Remember(Box::new(Then::EmitPheromone))),
        Decision::If(
            Condition::Equal(Source::Memory(0), Source::Loc(Location::Here)),
            Then::Remember(Box::new(Then::SetDest)),
        ),
        Decision::IfHaveFood(Then::EmitPheromone),
        Decision::If(Condition::LessThan(Source::Memory(5), Source::Number(0)), Then::SetDest),
    ];
    let h = env.add(Object::Ant(Ant::new(Point::new(2000, 3000), rules)), AGENT);
    let passive = env.add(Object::Ant(Ant::new(Point::new(0, 0), idle_rules())), COLLIDABLE);
    let m = env.add(marker(0, 0, 150), 0);
    let events = env.step();
    let here = Point::new(2000, 3000);
    assert_eq!(
        events,
        vec![
            (h, Ok(Effect::EmitPheromone(here))),
            (h, Ok(Effect::SetDest(here))),
            (h, Err(DecisionError::MemoryOutOfRange)),
        ]
    );
    match &env.get(h).unwrap().obj {
        Object::Ant(a) => {
            assert_eq!(a.memory.len(), 2);
            assert_eq!(a.dest, Some(here));
            assert_eq!(a.pos, here);
        }
        _ => panic!("slot holds the ant"),
    }
    assert!(env.is_agent(h));
    assert!(!env.is_agent(passive));
    match &env.get(m).unwrap().obj {
        Object::Marker(p) => assert_eq!(p.strength, 50),
        _ => panic!("slot holds the marker"),
    }
}
