//! Ants, pheromone markers and the rule language that drives an ant.
use vstd::prelude::*;
use crate::geometry::Point;
use crate::shape::{disc_collides, disc_contains, BasicShape, Shape, ShapeType};

verus! {

/// Radius of an ant's body, in steps (two world units).
pub const ANT_RADIUS: u32 = 2000;

/// A place that a rule can name.
#[derive(Clone, Copy, Debug, PartialEq, Eq, Structural)]
pub enum Location {
    Home,
    Dest,
    Here,
    /// The nearest pheromone marker.
    PheromoneSrc,
    Pos(Point),
}

/// A value that a condition reads.
#[derive(Clone, Copy, Debug, PartialEq, Eq, Structural)]
pub enum Source {
    /// Distance from the ant to a location, in steps.
    Dist(Location),
    /// A location, as a position.
    Loc(Location),
    Food,
    /// A fixed-point number (`SCALE` steps per unit).
    Number(i64),
    /// The memory entry this many places back from the newest one.
    Memory(i32),
    /// The pheromone field at the ant's position.
    PheromoneStrength,
}

/// A test over two sources.
#[derive(Debug)]
pub enum Condition {
    GreaterThan(Source, Source),
    LessThan(Source, Source),
    Equal(Source, Source),
    Not(Box<Condition>),
}

/// What an ant does when a rule fires. `Remember` and `Forget` change the
/// memory, then perform the action they wrap.
#[derive(Debug)]
pub enum Then {
    SetDest,
    EmitPheromone,
    Remember(Box<Then>),
    Forget(Box<Then>),
}

/// One rule of an ant.
#[derive(Debug)]
pub enum Decision {
    If(Condition, Then),
    IfHaveFood(Then),
    Always(Then),
}

/// A value held in memory, or produced by a source.
#[derive(Clone, Copy, Debug, PartialEq, Eq, Structural)]
pub enum Memory {
    Number(i64),
    Position(Point),
}

/// Why a source or a condition could not be evaluated.
#[derive(Clone, Copy, Debug, PartialEq, Eq, Structural)]
pub enum DecisionError {
    /// The source or the location has no meaning in this simulation.
    Unsupported,
    /// A memory read reaches past the entries held.
    MemoryOutOfRange,
    /// The nearest marker was asked for, and there is none.
    NoMarker,
}

/// What performing an action asks of the world.
#[derive(Clone, Copy, Debug, PartialEq, Eq, Structural)]
pub enum Effect {
    /// The ant marked this point as its destination.
    SetDest(Point),
    /// The ant emits a pheromone marker at this point.
    EmitPheromone(Point),
}

/// An ant: a disc of radius `ANT_RADIUS` at `pos`, four rules, a memory
/// whose newest entry is last, whether it carries food, and the destination
/// it last marked.
#[derive(Debug)]
pub struct Ant {
    pub pos: Point,
    pub decisions: [Decision; 4],
    pub memory: Vec<Memory>,
    pub has_food: bool,
    pub dest: Option<Point>,
}

/// A pheromone marker: a disc at `pos` whose radius is its strength.
#[derive(Clone, Copy, Debug, PartialEq, Eq, Structural)]
pub struct Pheromones {
    pub pos: Point,
    pub strength: u32,
}

/// The memory entry `i` places back from the newest one.
pub open spec fn recalled(mem: Seq<Memory>, i: int) -> Result<Memory, DecisionError> {
    if 0 <= i < mem.len() {
        Ok(mem[mem.len() - 1 - i])
    } else {
        Err(DecisionError::MemoryOutOfRange)
    }
}

/// The memory after remembering the ant's position.
pub open spec fn remembered(a: Ant) -> Seq<Memory> {
    a.memory@.push(Memory::Position(a.pos))
}

/// The memory after forgetting the oldest entry, if any.
pub open spec fn forgotten(mem: Seq<Memory>) -> Seq<Memory> {
    if mem.len() == 0 { mem } else { mem.remove(0) }
}

/// How many `Remember` and `Forget` wrap the innermost action.
pub open spec fn depth(t: Then) -> nat
    decreases t,
{
    match t {
        Then::Remember(b) => 1 + depth(*b),
        Then::Forget(b) => 1 + depth(*b),
        _ => 0,
    }
}

/// The memory after performing an action from memory `mem` at `pos`.
pub open spec fn memory_after(mem: Seq<Memory>, pos: Point, t: Then) -> Seq<Memory>
    decreases t,
{
    match t {
        Then::Remember(b) => memory_after(mem.push(Memory::Position(pos)), pos, *b),
        Then::Forget(b) => memory_after(forgotten(mem), pos, *b),
        _ => mem,
    }
}

/// The innermost action of a nested one.
pub open spec fn innermost(t: Then) -> Then
    decreases t,
{
    match t {
        Then::Remember(b) => innermost(*b),
        Then::Forget(b) => innermost(*b),
        _ => t,
    }
}

/// The effect of an action performed at `pos`.
pub open spec fn effect_of(t: Then, pos: Point) -> Effect {
    match innermost(t) {
        Then::SetDest => Effect::SetDest(pos),
        _ => Effect::EmitPheromone(pos),
    }
}

impl Ant {
    /// A new ant at `pos` with the given rules, an empty memory, no food and
    /// no destination.
    pub fn new(pos: Point, decisions: [Decision; 4]) -> (r: Ant)
        ensures
            r.pos == pos,
            r.decisions == decisions,
            r.memory@.len() == 0,
            !r.has_food,
            r.dest.is_none(),
    {
        Ant { pos, decisions, memory: Vec::new(), has_food: false, dest: None }
    }

    /// Push the ant's position onto its memory.
    pub fn remember(&mut self)
        ensures
            final(self).memory@ == remembered(*old(self)),
            final(self).pos == old(self).pos,
            final(self).decisions == old(self).decisions,
            final(self).has_food == old(self).has_food,
            final(self).dest == old(self).dest,
    {
        let p = self.pos;
        self.memory.push(Memory::Position(p));
    }

    /// Drop the oldest memory entry; an empty memory stays empty.
    pub fn forget(&mut self)
        ensures
            final(self).memory@ == forgotten(old(self).memory@),
            final(self).pos == old(self).pos,
            final(self).decisions == old(self).decisions,
            final(self).has_food == old(self).has_food,
            final(self).dest == old(self).dest,
    {
        if self.memory.len() > 0 {
            self.memory.remove(0);
        }
    }

    /// The memory entry `i` places back from the newest one (0 is the newest).
    pub fn recall(&self, i: i32) -> (r: Result<Memory, DecisionError>)
        ensures
            r == recalled(self.memory@, i as int),
    {
        if i < 0 || i as usize >= self.memory.len() {
            Err(DecisionError::MemoryOutOfRange)
        } else {
            Ok(self.memory[self.memory.len() - 1 - i as usize])
        }
    }

    /// Perform an action: apply its memory changes from the outside in, then
    /// the innermost action, and report what the innermost one asks of the
    /// world. Marking a destination records the ant's position as it.
    pub fn perform(&mut self, t: &Then) -> (e: Effect)
        ensures
            final(self).memory@ == memory_after(old(self).memory@, old(self).pos, *t),
            e == effect_of(*t, old(self).pos),
            final(self).dest == (if innermost(*t) == Then::SetDest {
                Some(old(self).pos)
            } else {
                old(self).dest
            }),
            final(self).pos == old(self).pos,
            final(self).decisions == old(self).decisions,
            final(self).has_food == old(self).has_food,
    {
        apply_action(&mut self.memory, &mut self.dest, self.pos, t)
    }
}

/// Perform an action for an ant at `pos` with memory `memory` and
/// destination `dest`: apply the memory changes from the outside in, then
/// the innermost action, and return what it asks of the world.
pub fn apply_action(memory: &mut Vec<Memory>, dest: &mut Option<Point>, pos: Point, t: &Then) -> (e: Effect)
    ensures
        final(memory)@ == memory_after(old(memory)@, pos, *t),
        e == effect_of(*t, pos),
        *final(dest) == (if innermost(*t) == Then::SetDest { Some(pos) } else { *old(dest) }),
{
    let mut cur: &Then = t;
    loop
        invariant
            memory_after(old(memory)@, pos, *t) == memory_after(memory@, pos, *cur),
            innermost(*t) == innermost(*cur),
            *dest == *old(dest),
        decreases depth(*cur),
    {
        match cur {
            Then::Remember(b) => {
                memory.push(Memory::Position(pos));
                cur = b;
            },
            Then::Forget(b) => {
                if memory.len() > 0 {
                    memory.remove(0);
                }
                cur = b;
            },
            Then::SetDest => {
                *dest = Some(pos);
                return Effect::SetDest(pos);
            },
            Then::EmitPheromone => {
                return Effect::EmitPheromone(pos);
            },
        }
    }
}

impl Shape for Ant {
    open spec fn form(&self) -> BasicShape {
        BasicShape::Circle(self.pos, ANT_RADIUS)
    }

    open spec fn center(&self) -> Point {
        self.pos
    }

    fn collides(&self, other: &BasicShape) -> (r: bool) {
        disc_collides(self.pos, ANT_RADIUS, other)
    }

    fn contains_point(&self, p: Point) -> (r: bool) {
        disc_contains(self.pos, ANT_RADIUS, p)
    }

    fn get_center(&self) -> (r: Point) {
        self.pos
    }

    fn get_shape_type(&self) -> ShapeType {
        ShapeType::Circle
    }

    fn into_basic_shape(&self) -> (r: BasicShape) {
        BasicShape::Circle(self.pos, ANT_RADIUS)
    }
}

impl Pheromones {
    /// A marker at `pos` with the given strength.
    pub fn new(pos: Point, strength: u32) -> (r: Pheromones)
        ensures
            r.pos == pos,
            r.strength == strength,
    {
        Pheromones { pos, strength }
    }
}

impl Shape for Pheromones {
    open spec fn form(&self) -> BasicShape {
        BasicShape::Circle(self.pos, self.strength)
    }

    open spec fn center(&self) -> Point {
        self.pos
    }

    fn collides(&self, other: &BasicShape) -> (r: bool) {
        disc_collides(self.pos, self.strength, other)
    }

    fn contains_point(&self, p: Point) -> (r: bool) {
        disc_contains(self.pos, self.strength, p)
    }

    fn get_center(&self) -> (r: Point) {
        self.pos
    }

    fn get_shape_type(&self) -> ShapeType {
        ShapeType::Circle
    }

    fn into_basic_shape(&self) -> (r: BasicShape) {
        BasicShape::Circle(self.pos, self.strength)
    }
}

/// Remembering and then forgetting leaves the memory as long as it was, and
/// right after remembering, the newest entry is the remembered position.
pub proof fn lemma_remember_forget(a: Ant)
    ensures
        forgotten(remembered(a)).len() == a.memory@.len(),
        recalled(remembered(a), 0) == Ok::<Memory, DecisionError>(Memory::Position(a.pos)),
{
}

} // verus!
