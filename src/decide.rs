//! The rule engine: sources, conditions and rules are evaluated against the
//! world, and a tick decays the markers and then runs every agent's rules.
use vstd::prelude::*;
use crate::geometry::{dist, dist2, distance, square_dist, Point};
use crate::ant::{apply_action, effect_of, innermost, memory_after, recalled, Ant, Condition, Decision,
    DecisionError, Effect, Location, Memory, Source, Then};
use crate::world::{decay_entry, decayed, field, field_upto, marker_in, Entry, Environment, Object};

verus! {

/// The nearest marker to `pos` among the first `n` slots; the earliest one
/// wins a tie.
pub open spec fn nearest_upto(s: Seq<Option<Entry>>, pos: Point, n: int) -> Option<Point>
    decreases n,
{
    if n <= 0 {
        None
    } else {
        let best = nearest_upto(s, pos, n - 1);
        match marker_in(s[n - 1]) {
            Some(m) => match best {
                Some(b) => if dist2(m.pos, pos) < dist2(b, pos) { Some(m.pos) } else { best },
                None => Some(m.pos),
            },
            None => best,
        }
    }
}

/// Where a location is for an ant at `pos`.
pub open spec fn location_of(s: Seq<Option<Entry>>, pos: Point, loc: Location) -> Result<Point, DecisionError> {
    match loc {
        Location::Here => Ok(pos),
        Location::Pos(p) => Ok(p),
        Location::PheromoneSrc => match nearest_upto(s, pos, s.len() as int) {
            Some(p) => Ok(p),
            None => Err(DecisionError::NoMarker),
        },
        _ => Err(DecisionError::Unsupported),
    }
}

/// The field as a number, capped at the largest `i64`.
pub open spec fn capped(v: int) -> i64 {
    if v > i64::MAX { i64::MAX } else { v as i64 }
}

/// The value of a source for an ant at `pos` with memory `mem`.
pub open spec fn source_value(s: Seq<Option<Entry>>, pos: Point, mem: Seq<Memory>, src: Source) -> Result<Memory, DecisionError> {
    match src {
        Source::Number(n) => Ok(Memory::Number(n)),
        Source::Dist(Location::Here) => Ok(Memory::Number(0)),
        Source::Dist(l) => match location_of(s, pos, l) {
            Ok(p) => Ok(Memory::Number(dist(p, pos) as i64)),
            Err(e) => Err(e),
        },
        Source::Loc(l) => match location_of(s, pos, l) {
            Ok(p) => Ok(Memory::Position(p)),
            Err(e) => Err(e),
        },
        Source::Memory(i) => recalled(mem, i as int),
        Source::PheromoneStrength => Ok(Memory::Number(capped(field(s, pos)))),
        Source::Food => Err(DecisionError::Unsupported),
    }
}

/// `a < b`: numbers by value, positions on both axes; a number and a
/// position are never ordered.
pub open spec fn less(a: Memory, b: Memory) -> bool {
    match (a, b) {
        (Memory::Number(x), Memory::Number(y)) => x < y,
        (Memory::Position(p), Memory::Position(q)) => p.x < q.x && p.y < q.y,
        _ => false,
    }
}

/// Whether a condition holds for an ant at `pos` with memory `mem`. Both
/// sides are evaluated, the left one first; the first error is returned.
pub open spec fn condition_holds(s: Seq<Option<Entry>>, pos: Point, mem: Seq<Memory>, c: Condition) -> Result<bool, DecisionError>
    decreases c,
{
    match c {
        Condition::Not(inner) => match condition_holds(s, pos, mem, *inner) {
            Ok(v) => Ok(!v),
            Err(e) => Err(e),
        },
        Condition::Equal(a, b) | Condition::LessThan(a, b) | Condition::GreaterThan(a, b) => {
            match source_value(s, pos, mem, a) {
                Err(e) => Err(e),
                Ok(x) => match source_value(s, pos, mem, b) {
                    Err(e) => Err(e),
                    Ok(y) => Ok(match c {
                        Condition::Equal(_, _) => x == y,
                        Condition::LessThan(_, _) => less(x, y),
                        _ => less(y, x),
                    }),
                },
            }
        },
    }
}

/// The action of a rule.
pub open spec fn action_of(d: Decision) -> Then {
    match d {
        Decision::If(_, t) => t,
        Decision::IfHaveFood(t) => t,
        Decision::Always(t) => t,
    }
}

/// Whether a rule fires.
pub open spec fn fires(s: Seq<Option<Entry>>, pos: Point, mem: Seq<Memory>, has_food: bool, d: Decision) -> Result<bool, DecisionError> {
    match d {
        Decision::If(c, _) => condition_holds(s, pos, mem, c),
        Decision::IfHaveFood(_) => Ok(has_food),
        Decision::Always(_) => Ok(true),
    }
}

/// An ant's memory and destination after its first `n` rules.
pub open spec fn rules_state(s: Seq<Option<Entry>>, a: Ant, n: int) -> (Seq<Memory>, Option<Point>)
    decreases n,
{
    if n <= 0 {
        (a.memory@, a.dest)
    } else {
        let (mem, dest) = rules_state(s, a, n - 1);
        let d = a.decisions@[n - 1];
        match fires(s, a.pos, mem, a.has_food, d) {
            Ok(true) => (
                memory_after(mem, a.pos, action_of(d)),
                if innermost(action_of(d)) == Then::SetDest { Some(a.pos) } else { dest },
            ),
            _ => (mem, dest),
        }
    }
}

/// What an ant's first `n` rules report: the effect of each rule that
/// fires, and the error of each rule that cannot be evaluated.
pub open spec fn rules_events(s: Seq<Option<Entry>>, a: Ant, n: int) -> Seq<Result<Effect, DecisionError>>
    decreases n,
{
    if n <= 0 {
        Seq::empty()
    } else {
        let before = rules_events(s, a, n - 1);
        let mem = rules_state(s, a, n - 1).0;
        let d = a.decisions@[n - 1];
        match fires(s, a.pos, mem, a.has_food, d) {
            Ok(true) => before.push(Ok(effect_of(action_of(d), a.pos))),
            Ok(false) => before,
            Err(e) => before.push(Err(e)),
        }
    }
}

/// The agent in a slot, if the slot holds one.
pub open spec fn agent_in(e: Option<Entry>) -> Option<Ant> {
    match e {
        Some(en) => if en.agent {
            match en.obj {
                Object::Ant(a) => Some(a),
                _ => None,
            }
        } else {
            None
        },
        None => None,
    }
}

/// What a tick reports for the agents among the first `n` slots of `old`,
/// each event tagged with its agent's handle.
pub open spec fn tick_events(s: Seq<Option<Entry>>, old: Seq<Option<Entry>>, n: int) -> Seq<(usize, Result<Effect, DecisionError>)>
    decreases n,
{
    if n <= 0 {
        Seq::empty()
    } else {
        tick_events(s, old, n - 1) + match agent_in(old[n - 1]) {
            Some(a) => rules_events(s, a, 4).map_values(|e: Result<Effect, DecisionError>| ((n - 1) as usize, e)),
            None => Seq::empty(),
        }
    }
}

/// Two stores hold the same markers in the same slots.
pub open spec fn same_markers(s: Seq<Option<Entry>>, t: Seq<Option<Entry>>) -> bool {
    s.len() == t.len() && forall|i: int| 0 <= i < s.len() ==> #[trigger] marker_in(s[i]) == marker_in(t[i])
}

proof fn lemma_same_markers_upto(s: Seq<Option<Entry>>, t: Seq<Option<Entry>>, p: Point, n: int)
    requires
        same_markers(s, t),
        0 <= n <= s.len(),
    ensures
        field_upto(s, p, n) == field_upto(t, p, n),
        nearest_upto(s, p, n) == nearest_upto(t, p, n),
    decreases n,
{
    if n > 0 {
        lemma_same_markers_upto(s, t, p, n - 1);
        assert(marker_in(s[n - 1]) == marker_in(t[n - 1]));
    }
}

proof fn lemma_same_markers_condition(s: Seq<Option<Entry>>, t: Seq<Option<Entry>>, pos: Point, mem: Seq<Memory>, c: Condition)
    requires
        same_markers(s, t),
    ensures
        condition_holds(s, pos, mem, c) == condition_holds(t, pos, mem, c),
    decreases c,
{
    lemma_same_markers_upto(s, t, pos, s.len() as int);
    match c {
        Condition::Not(inner) => {
            lemma_same_markers_condition(s, t, pos, mem, *inner);
        },
        _ => {},
    }
}

impl Environment {
    /// The nearest marker to `pos`, if any.
    fn nearest_marker(&self, pos: Point) -> (r: Option<Point>)
        ensures
            r == nearest_upto(self@, pos, self@.len() as int),
    {
        let n = self.len();
        let mut best: Option<Point> = None;
        let mut i: usize = 0;
        while i < n
            invariant
                0 <= i <= n,
                n == self@.len(),
                best == nearest_upto(self@, pos, i as int),
            decreases n - i,
        {
            match self.get(i) {
                Some(e) => match &e.obj {
                    Object::Marker(m) => {
                        match best {
                            Some(b) => {
                                if square_dist(m.pos, pos) < square_dist(b, pos) {
                                    best = Some(m.pos);
                                }
                            },
                            None => {
                                best = Some(m.pos);
                            },
                        }
                    },
                    Object::Ant(_) => {},
                },
                None => {},
            }
            i = i + 1;
        }
        best
    }

    /// Where a location is for `src`.
    fn get_location(&self, src: &Ant, loc: Location) -> (r: Result<Point, DecisionError>)
        ensures
            r == location_of(self@, src.pos, loc),
    {
        match loc {
            Location::Here => Ok(src.pos),
            Location::Pos(p) => Ok(p),
            Location::PheromoneSrc => match self.nearest_marker(src.pos) {
                Some(p) => Ok(p),
                None => Err(DecisionError::NoMarker),
            },
            Location::Home | Location::Dest => Err(DecisionError::Unsupported),
        }
    }

    /// The value of a source for `src`.
    pub fn evaluate_src(&self, src: &Ant, source: Source) -> (r: Result<Memory, DecisionError>)
        ensures
            r == source_value(self@, src.pos, src.memory@, source),
    {
        match source {
            Source::Number(n) => Ok(Memory::Number(n)),
            Source::Dist(a) => {
                let target = match a {
                    Location::Here => {
                        return Ok(Memory::Number(0));
                    },
                    _ => self.get_location(src, a),
                };
                match target {
                    Ok(p) => Ok(Memory::Number(distance(p, src.pos) as i64)),
                    Err(e) => Err(e),
                }
            },
            Source::Memory(i) => src.recall(i),
            Source::PheromoneStrength => {
                let v = self.pheromone_strength_at_pos(src.pos);
                if v > i64::MAX as u128 {
                    Ok(Memory::Number(i64::MAX))
                } else {
                    Ok(Memory::Number(v as i64))
                }
            },
            Source::Food => Err(DecisionError::Unsupported),
            Source::Loc(l) => match self.get_location(src, l) {
                Ok(p) => Ok(Memory::Position(p)),
                Err(e) => Err(e),
            },
        }
    }

    /// Whether a condition holds for `src`.
    pub fn evaluate_cond(&self, src: &Ant, cond: &Condition) -> (r: Result<bool, DecisionError>)
        ensures
            r == condition_holds(self@, src.pos, src.memory@, *cond),
        decreases cond,
    {
        match cond {
            Condition::Not(inner) => match self.evaluate_cond(src, inner) {
                Ok(v) => Ok(!v),
                Err(e) => Err(e),
            },
            Condition::Equal(a, b) | Condition::LessThan(a, b) | Condition::GreaterThan(a, b) => {
                let x = match self.evaluate_src(src, *a) {
                    Ok(x) => x,
                    Err(e) => {
                        return Err(e);
                    },
                };
                let y = match self.evaluate_src(src, *b) {
                    Ok(y) => y,
                    Err(e) => {
                        return Err(e);
                    },
                };
                match cond {
                    Condition::Equal(_, _) => Ok(x == y),
                    Condition::LessThan(_, _) => Ok(is_less(x, y)),
                    _ => Ok(is_less(y, x)),
                }
            },
        }
    }

    /// Whether a rule fires for `src`.
    pub fn make_decision(&self, src: &Ant, d: &Decision) -> (r: Result<bool, DecisionError>)
        ensures
            r == fires(self@, src.pos, src.memory@, src.has_food, *d),
    {
        match d {
            Decision::Always(_) => Ok(true),
            Decision::If(c, _) => self.evaluate_cond(src, c),
            Decision::IfHaveFood(_) => Ok(src.has_food),
        }
    }
}

/// `a < b` as `less` orders memory values.
fn is_less(a: Memory, b: Memory) -> (r: bool)
    ensures
        r == less(a, b),
{
    match (a, b) {
        (Memory::Number(x), Memory::Number(y)) => x < y,
        (Memory::Position(p), Memory::Position(q)) => p.x < q.x && p.y < q.y,
        _ => false,
    }
}

/// The action of a rule.
fn rule_action(d: &Decision) -> (t: &Then)
    ensures
        *t == action_of(*d),
{
    match d {
        Decision::If(_, t) => t,
        Decision::IfHaveFood(t) => t,
        Decision::Always(t) => t,
    }
}

impl Environment {
    /// Run the four rules of `ant` in order, each against the memory that
    /// the earlier ones left, and report each rule that fires or fails.
    fn run_rules(&self, ant: &mut Ant, h: usize, events: &mut Vec<(usize, Result<Effect, DecisionError>)>, Ghost(s): Ghost<Seq<Option<Entry>>>)
        requires
            same_markers(self@, s),
        ensures
            (final(ant).memory@, final(ant).dest) == rules_state(s, *old(ant), 4),
            final(ant).pos == old(ant).pos,
            final(ant).decisions == old(ant).decisions,
            final(ant).has_food == old(ant).has_food,
            final(events)@ == old(events)@ + rules_events(s, *old(ant), 4).map_values(
                |e: Result<Effect, DecisionError>| (h, e)),
    {
        let ghost a0 = *ant;
        let ghost ev0 = events@;
        proof {
            lemma_same_markers_upto(self@, s, a0.pos, s.len() as int);
        }
        let mut i: usize = 0;
        while i < 4
            invariant
                0 <= i <= 4,
                same_markers(self@, s),
                field(self@, a0.pos) == field(s, a0.pos),
                nearest_upto(self@, a0.pos, self@.len() as int) == nearest_upto(s, a0.pos, s.len() as int),
                (ant.memory@, ant.dest) == rules_state(s, a0, i as int),
                ant.pos == a0.pos,
                ant.decisions == a0.decisions,
                ant.has_food == a0.has_food,
                events@ == ev0 + rules_events(s, a0, i as int).map_values(
                    |e: Result<Effect, DecisionError>| (h, e)),
            decreases 4 - i,
        {
            proof {
                match a0.decisions@[i as int] {
                    Decision::If(c, _) => {
                        lemma_same_markers_condition(self@, s, a0.pos, ant.memory@, c);
                    },
                    _ => {},
                }
            }
            let ghost before = rules_events(s, a0, i as int).map_values(
                |e: Result<Effect, DecisionError>| (h, e));
            let fired = self.make_decision(ant, &ant.decisions[i]);
            match fired {
                Ok(true) => {
                    let e = apply_action(&mut ant.memory, &mut ant.dest, ant.pos, rule_action(&ant.decisions[i]));
                    events.push((h, Ok(e)));
                },
                Ok(false) => {},
                Err(e) => {
                    events.push((h, Err(e)));
                },
            }
            proof {
                let after = rules_events(s, a0, i + 1).map_values(
                    |e: Result<Effect, DecisionError>| (h, e));
                assert(ev0 + after =~= events@);
            }
            i = i + 1;
        }
    }

    /// Advance the world by one tick: every marker decays, then every agent
    /// runs its rules in handle order. Returns, in that order, the effect
    /// of each rule that fired and the error of each rule that could not be
    /// evaluated, with the agent's handle.
    pub fn step(&mut self) -> (events: Vec<(usize, Result<Effect, DecisionError>)>)
        ensures
            final(self)@.len() == old(self)@.len(),
            forall|h: int| 0 <= h < old(self)@.len() && agent_in(old(self)@[h]) is None
                ==> #[trigger] final(self)@[h] == decay_entry(old(self)@[h]),
            forall|h: int| 0 <= h < old(self)@.len() && (#[trigger] agent_in(old(self)@[h])) is Some ==> {
                let a = agent_in(old(self)@[h])->Some_0;
                let e = old(self)@[h]->Some_0;
                let e2 = final(self)@[h]->Some_0;
                &&& final(self)@[h] is Some
                &&& e2.collidable == e.collidable
                &&& e2.renderable == e.renderable
                &&& e2.agent
                &&& e2.obj is Ant
                &&& e2.obj->Ant_0.pos == a.pos
                &&& e2.obj->Ant_0.decisions == a.decisions
                &&& e2.obj->Ant_0.has_food == a.has_food
                &&& (e2.obj->Ant_0.memory@, e2.obj->Ant_0.dest) == rules_state(decayed(old(self)@), a, 4)
            },
            events@ == tick_events(decayed(old(self)@), old(self)@, old(self)@.len() as int),
    {
        let ghost s0 = self@;
        self.decay_pheromones();
        let ghost s = self@;
        let mut events: Vec<(usize, Result<Effect, DecisionError>)> = Vec::new();
        let n = self.len();
        let mut h: usize = 0;
        while h < n
            invariant
                0 <= h <= n,
                n == s0.len(),
                s == decayed(s0),
                self@.len() == n,
                same_markers(self@, s),
                forall|j: int| h <= j < n ==> #[trigger] self@[j] == s[j],
                forall|j: int| 0 <= j < h && agent_in(s0[j]) is None ==> #[trigger] self@[j] == decay_entry(s0[j]),
                forall|j: int| 0 <= j < h && (#[trigger] agent_in(s0[j])) is Some ==> {
                    let a = agent_in(s0[j])->Some_0;
                    let e = s0[j]->Some_0;
                    let e2 = self@[j]->Some_0;
                    &&& self@[j] is Some
                    &&& e2.collidable == e.collidable
                    &&& e2.renderable == e.renderable
                    &&& e2.agent
                    &&& e2.obj is Ant
                    &&& e2.obj->Ant_0.pos == a.pos
                    &&& e2.obj->Ant_0.decisions == a.decisions
                    &&& e2.obj->Ant_0.has_food == a.has_food
                    &&& (e2.obj->Ant_0.memory@, e2.obj->Ant_0.dest) == rules_state(s, a, 4)
                },
                events@ == tick_events(s, s0, h as int),
            decreases n - h,
        {
            assert(s[h as int] == decay_entry(s0[h as int]));
            let mut slot: Option<Entry> = None;
            self.swap_slot(h, &mut slot);
            let ghost mid = self@;
            let back = match slot {
                Some(en) => {
                    if en.agent {
                        match en.obj {
                            Object::Ant(mut ant) => {
                                proof {
                                    assert forall|i: int| 0 <= i < mid.len() implies #[trigger] marker_in(mid[i]) == marker_in(s[i]) by {
                                        if i == h as int {
                                            assert(marker_in(s[i]) is None);
                                        }
                                    }
                                }
                                self.run_rules(&mut ant, h, &mut events, Ghost(s));
                                Some(Entry { obj: Object::Ant(ant), collidable: en.collidable, renderable: en.renderable, agent: true })
                            },
                            other => Some(Entry { obj: other, collidable: en.collidable, renderable: en.renderable, agent: en.agent }),
                        }
                    } else {
                        Some(en)
                    }
                },
                None => None,
            };
            let mut back = back;
            self.swap_slot(h, &mut back);
            proof {
                assert(self@ =~= mid.update(h as int, self@[h as int]));
                assert forall|i: int| 0 <= i < self@.len() implies #[trigger] marker_in(self@[i]) == marker_in(s[i]) by {
                    if i != h as int {
                        assert(self@[i] == mid[i]);
                    }
                }
                assert(tick_events(s, s0, h + 1) == tick_events(s, s0, h as int) + match agent_in(s0[h as int]) {
                    Some(a) => rules_events(s, a, 4).map_values(|e: Result<Effect, DecisionError>| (h, e)),
                    None => Seq::empty(),
                });
            }
            h = h + 1;
        }
        events
    }
}

} // verus!
