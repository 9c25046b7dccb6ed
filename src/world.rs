//! The environment: one store of objects addressed by stable handles, with
//! role flags, the pheromone field over it, path charting and the tick.
use vstd::prelude::*;
use vstd::arithmetic::div_mod::{lemma_div_is_ordered, lemma_div_is_ordered_by_denominator};
use vstd::pervasive::VecAdditionalExecFns;
use crate::geometry::{dist, dist2, distance, lemma_floor_sqrt_exists, Point, SCALE, TOLERANCE};
use crate::shape::{form_contains, BasicShape, Shape};
use crate::ant::{Ant, Pheromones};

verus! {

/// Flag: the object blocks movement and charting.
pub const COLLIDABLE: i32 = 1;

/// Flag: the object is drawn.
pub const RENDERABLE: i32 = 2;

/// Flag: the object is an ant driven by its rules.
pub const AGENT: i32 = 4;

/// Strength a marker loses on each tick, in steps.
pub const DECAY: u32 = 100;

/// Largest value one marker adds to the field: its strength times `SCALE`.
pub const MAX_CONTRIBUTION: u128 = 0x400_0000_0000;

/// An object of the world.
#[derive(Debug)]
pub enum Object {
    Ant(Ant),
    Marker(Pheromones),
}

/// A stored object with its roles.
#[derive(Debug)]
pub struct Entry {
    pub obj: Object,
    pub collidable: bool,
    pub renderable: bool,
    pub agent: bool,
}

/// The world store. A handle is the index of a slot; slots are never
/// reused, and removing an object empties its slot, which takes it out of
/// every role at once.
#[derive(Debug)]
pub struct Environment {
    slots: Vec<Option<Entry>>,
}

impl View for Environment {
    type V = Seq<Option<Entry>>;

    closed spec fn view(&self) -> Seq<Option<Entry>> {
        self.slots@
    }
}

/// The entry that `add` stores for an object and its flags.
pub open spec fn entry_of(obj: Object, flags: i32) -> Entry {
    Entry {
        obj,
        collidable: flags & COLLIDABLE != 0,
        renderable: flags & RENDERABLE != 0,
        agent: flags & AGENT != 0,
    }
}

/// The store after `add`.
pub open spec fn added(s: Seq<Option<Entry>>, obj: Object, flags: i32) -> Seq<Option<Entry>> {
    s.push(Some(entry_of(obj, flags)))
}

/// `h` is the handle of a stored object.
pub open spec fn live(s: Seq<Option<Entry>>, h: int) -> bool {
    0 <= h < s.len() && s[h] is Some
}

/// The store after `rm`.
pub open spec fn removed(s: Seq<Option<Entry>>, h: int) -> Seq<Option<Entry>> {
    if live(s, h) { s.update(h, None) } else { s }
}

/// Handles of every stored object.
pub open spec fn things(s: Seq<Option<Entry>>) -> Set<int> {
    Set::new(|h: int| live(s, h))
}

/// Handles of the collidable objects.
pub open spec fn colliders(s: Seq<Option<Entry>>) -> Set<int> {
    Set::new(|h: int| live(s, h) && s[h]->Some_0.collidable)
}

/// Handles of the renderable objects.
pub open spec fn renderers(s: Seq<Option<Entry>>) -> Set<int> {
    Set::new(|h: int| live(s, h) && s[h]->Some_0.renderable)
}

/// Handles of the agents. A tick runs the rules of those that are ants.
pub open spec fn agents(s: Seq<Option<Entry>>) -> Set<int> {
    Set::new(|h: int| live(s, h) && s[h]->Some_0.agent)
}

/// The basic form of an object.
pub open spec fn object_form(o: Object) -> BasicShape {
    match o {
        Object::Ant(a) => a.form(),
        Object::Marker(m) => m.form(),
    }
}

/// The marker in a slot, if the slot holds one.
pub open spec fn marker_in(e: Option<Entry>) -> Option<Pheromones> {
    match e {
        Some(en) => match en.obj {
            Object::Marker(m) => Some(m),
            _ => None,
        },
        None => None,
    }
}

/// What one slot adds to the field at `p`: a marker that contains `p`
/// adds its strength divided by its distance to `p` (at least one step),
/// in units of `1 / SCALE`; anything else adds nothing.
pub open spec fn contribution(e: Option<Entry>, p: Point) -> int {
    match marker_in(e) {
        Some(m) => if form_contains(m.form(), p) {
            (m.strength * SCALE) / (if dist(m.pos, p) < 1 { 1 } else { dist(m.pos, p) })
        } else {
            0
        },
        None => 0,
    }
}

/// The field at `p` from the first `n` slots.
pub open spec fn field_upto(s: Seq<Option<Entry>>, p: Point, n: int) -> int
    decreases n,
{
    if n <= 0 { 0 } else { field_upto(s, p, n - 1) + contribution(s[n - 1], p) }
}

/// The pheromone field at `p`.
pub open spec fn field(s: Seq<Option<Entry>>, p: Point) -> int {
    field_upto(s, p, s.len() as int)
}

/// A slot after one tick of decay: a marker loses `DECAY` of strength, down
/// to zero at most.
pub open spec fn decay_entry(e: Option<Entry>) -> Option<Entry> {
    match e {
        Some(en) => match en.obj {
            Object::Marker(m) => Some(Entry {
                obj: Object::Marker(Pheromones {
                    pos: m.pos,
                    strength: if m.strength >= DECAY { (m.strength - DECAY) as u32 } else { 0 },
                }),
                ..en
            }),
            _ => Some(en),
        },
        None => None,
    }
}

/// The store after one tick of decay.
pub open spec fn decayed(s: Seq<Option<Entry>>) -> Seq<Option<Entry>> {
    s.map_values(|e: Option<Entry>| decay_entry(e))
}

/// The store after `n` ticks of decay.
pub open spec fn decayed_times(s: Seq<Option<Entry>>, n: nat) -> Seq<Option<Entry>>
    decreases n,
{
    if n == 0 { s } else { decayed(decayed_times(s, (n - 1) as nat)) }
}

proof fn lemma_contribution_bounds(e: Option<Entry>, p: Point)
    ensures
        0 <= contribution(e, p) <= MAX_CONTRIBUTION,
{
    if let Some(m) = marker_in(e) {
        if form_contains(m.form(), p) {
            let x = m.strength * SCALE;
            let d = if dist(m.pos, p) < 1 { 1 } else { dist(m.pos, p) };
            lemma_div_is_ordered_by_denominator(x, 1, d);
            lemma_div_is_ordered(0, x, d);
        }
    }
}

/// The field from the first `n` slots is at least zero and at most one
/// largest contribution per slot.
pub proof fn lemma_field_upto_bounds(s: Seq<Option<Entry>>, p: Point, n: int)
    requires
        0 <= n,
    ensures
        0 <= field_upto(s, p, n) <= n * MAX_CONTRIBUTION,
    decreases n,
{
    if n > 0 {
        lemma_field_upto_bounds(s, p, n - 1);
        lemma_contribution_bounds(s[n - 1], p);
    }
}

impl Environment {
    /// An empty world.
    pub fn new() -> (r: Environment)
        ensures
            r@ == Seq::<Option<Entry>>::empty(),
    {
        Environment { slots: Vec::new() }
    }

    /// Store an object with the roles that `flags` names (`COLLIDABLE`,
    /// `RENDERABLE`, `AGENT`) and return its handle.
    pub fn add(&mut self, obj: Object, flags: i32) -> (h: usize)
        ensures
            h == old(self)@.len(),
            final(self)@ == added(old(self)@, obj, flags),
    {
        let entry = Entry {
            obj,
            collidable: flags & COLLIDABLE != 0,
            renderable: flags & RENDERABLE != 0,
            agent: flags & AGENT != 0,
        };
        let h = self.slots.len();
        self.slots.push(Some(entry));
        h
    }

    /// Remove the object with handle `h` from the store and every role.
    /// Returns whether there was one; removing again changes nothing.
    pub fn rm(&mut self, h: usize) -> (r: bool)
        ensures
            r == live(old(self)@, h as int),
            final(self)@ == removed(old(self)@, h as int),
    {
        if h < self.slots.len() && self.slots[h].is_some() {
            self.slots.set(h, None);
            true
        } else {
            false
        }
    }

    /// Exchange the slot of handle `h` with `e`.
    pub(crate) fn swap_slot(&mut self, h: usize, e: &mut Option<Entry>)
        requires
            h < old(self)@.len(),
        ensures
            final(self)@ == old(self)@.update(h as int, *old(e)),
            *final(e) == old(self)@[h as int],
    {
        self.slots.set_and_swap(h, e);
    }

    /// Number of slots ever handed out.
    pub fn len(&self) -> (r: usize)
        ensures
            r == self@.len(),
    {
        self.slots.len()
    }

    /// The entry with handle `h`, if it is stored.
    pub fn get(&self, h: usize) -> (r: Option<&Entry>)
        ensures
            live(self@, h as int) ==> r == Some(&self@[h as int]->Some_0),
            !live(self@, h as int) ==> r is None,
    {
        if h < self.slots.len() {
            match &self.slots[h] {
                Some(e) => Some(e),
                None => None,
            }
        } else {
            None
        }
    }

    /// Whether `h` is a stored object.
    pub fn contains(&self, h: usize) -> (r: bool)
        ensures
            r == things(self@).contains(h as int),
    {
        h < self.slots.len() && self.slots[h].is_some()
    }

    /// Whether `h` is a collidable object.
    pub fn is_collider(&self, h: usize) -> (r: bool)
        ensures
            r == colliders(self@).contains(h as int),
    {
        match self.get(h) {
            Some(e) => e.collidable,
            None => false,
        }
    }

    /// Whether `h` is a renderable object.
    pub fn is_renderer(&self, h: usize) -> (r: bool)
        ensures
            r == renderers(self@).contains(h as int),
    {
        match self.get(h) {
            Some(e) => e.renderable,
            None => false,
        }
    }

    /// Whether `h` is an agent.
    pub fn is_agent(&self, h: usize) -> (r: bool)
        ensures
            r == agents(self@).contains(h as int),
    {
        match self.get(h) {
            Some(e) => e.agent,
            None => false,
        }
    }

    /// The pheromone field at `pos`, in units of `1 / SCALE`.
    pub fn pheromone_strength_at_pos(&self, pos: Point) -> (r: u128)
        ensures
            r == field(self@, pos),
    {
        let mut acc: u128 = 0;
        let mut i: usize = 0;
        while i < self.slots.len()
            invariant
                0 <= i <= self.slots@.len(),
                acc == field_upto(self.slots@, pos, i as int),
                acc <= i * MAX_CONTRIBUTION,
            decreases self.slots@.len() - i,
        {
            proof {
                lemma_contribution_bounds(self.slots@[i as int], pos);
            }
            let c = marker_contribution(&self.slots[i], pos);
            acc = acc + c;
            i = i + 1;
        }
        acc
    }

    /// One tick of decay: every marker loses `DECAY` of strength, down to
    /// zero at most. Exhausted markers stay in the store.
    pub fn decay_pheromones(&mut self)
        ensures
            final(self)@ == decayed(old(self)@),
    {
        let mut i: usize = 0;
        while i < self.slots.len()
            invariant
                0 <= i <= self.slots@.len(),
                self.slots@.len() == old(self)@.len(),
                forall|j: int| 0 <= j < i ==> self.slots@[j] == decay_entry(old(self)@[j]),
                forall|j: int| i <= j < self.slots@.len() ==> self.slots@[j] == old(self)@[j],
            decreases self.slots@.len() - i,
        {
            let mut e: Option<Entry> = None;
            self.slots.set_and_swap(i, &mut e);
            let d = match e {
                Some(en) => match en.obj {
                    Object::Marker(m) => Some(Entry {
                        obj: Object::Marker(Pheromones {
                            pos: m.pos,
                            strength: m.strength.saturating_sub(DECAY),
                        }),
                        collidable: en.collidable,
                        renderable: en.renderable,
                        agent: en.agent,
                    }),
                    other => Some(Entry {
                        obj: other,
                        collidable: en.collidable,
                        renderable: en.renderable,
                        agent: en.agent,
                    }),
                },
                None => None,
            };
            self.slots.set(i, d);
            i = i + 1;
        }
        assert(self.slots@ =~= decayed(old(self)@));
    }
}

/// What one slot adds to the field at `pos`.
fn marker_contribution(e: &Option<Entry>, pos: Point) -> (r: u128)
    ensures
        r == contribution(*e, pos),
{
    match e {
        Some(en) => match &en.obj {
            Object::Marker(m) => {
                if m.contains_point(pos) {
                    let d = distance(m.pos, pos);
                    let d = if d < 1 { 1 } else { d };
                    (m.strength as u128 * SCALE as u128) / d as u128
                } else {
                    0
                }
            },
            Object::Ant(_) => 0,
        },
        None => 0,
    }
}

/// Inserting an object and then removing it by its handle leaves no role
/// holding that handle, and every role as it was before.
pub proof fn lemma_insert_remove(s: Seq<Option<Entry>>, obj: Object, flags: i32)
    ensures
        ({
            let h = s.len() as int;
            let t = removed(added(s, obj, flags), h);
            &&& !things(t).contains(h)
            &&& !colliders(t).contains(h)
            &&& !renderers(t).contains(h)
            &&& !agents(t).contains(h)
            &&& things(t) == things(s)
            &&& colliders(t) == colliders(s)
            &&& renderers(t) == renderers(s)
            &&& agents(t) == agents(s)
        }),
{
    let h = s.len() as int;
    let t = removed(added(s, obj, flags), h);
    assert(live(added(s, obj, flags), h));
    assert(t =~= s.push(None));
    assert(things(t) =~= things(s));
    assert(colliders(t) =~= colliders(s));
    assert(renderers(t) =~= renderers(s));
    assert(agents(t) =~= agents(s));
}

/// Where no marker contains `p`, the field at `p` is zero.
pub proof fn lemma_field_zero(s: Seq<Option<Entry>>, p: Point)
    requires
        forall|h: int| 0 <= h < s.len() && (#[trigger] marker_in(s[h])) is Some
            ==> !form_contains(marker_in(s[h])->Some_0.form(), p),
    ensures
        field(s, p) == 0,
{
    lemma_field_zero_upto(s, p, s.len() as int);
}

proof fn lemma_field_zero_upto(s: Seq<Option<Entry>>, p: Point, n: int)
    requires
        0 <= n <= s.len(),
        forall|h: int| 0 <= h < s.len() && (#[trigger] marker_in(s[h])) is Some
            ==> !form_contains(marker_in(s[h])->Some_0.form(), p),
    ensures
        field_upto(s, p, n) == 0,
    decreases n,
{
    if n > 0 {
        lemma_field_zero_upto(s, p, n - 1);
    }
}

/// Placing a marker of positive strength that contains `p` makes the field
/// at `p` strictly positive.
pub proof fn lemma_field_positive_after_placing(s: Seq<Option<Entry>>, m: Pheromones, flags: i32, p: Point)
    requires
        m.strength > 0,
        form_contains(m.form(), p),
    ensures
        field(added(s, Object::Marker(m), flags), p) > 0,
{
    let t = added(s, Object::Marker(m), flags);
    let n = s.len() as int;
    assert(field_upto(t, p, n) == field_upto(s, p, n)) by {
        lemma_field_upto_prefix(s, t, p, n);
    }
    lemma_field_upto_bounds(s, p, n);
    let d2 = dist2(m.pos, p);
    let dx = m.pos.x - p.x;
    let dy = m.pos.y - p.y;
    assert(0 <= dx * dx && 0 <= dy * dy) by (nonlinear_arith);
    lemma_floor_sqrt_exists(d2);
    let r = dist(m.pos, p);
    let st = m.strength as int;
    assert(dist2(m.pos, p) <= st * st + TOLERANCE);
    assert(r < st + 32) by (nonlinear_arith)
        requires r * r <= d2, d2 <= st * st + 1000, r >= 0, st >= 1;
    let d = if r < 1 { 1 } else { r };
    assert(d <= st * SCALE);
    assert((st * SCALE) / d >= 1) by {
        lemma_div_is_ordered(d, st * SCALE, d);
    }
    assert(marker_in(t[n]) == Some(m));
}

proof fn lemma_field_upto_prefix(s: Seq<Option<Entry>>, t: Seq<Option<Entry>>, p: Point, n: int)
    requires
        0 <= n <= s.len(),
        n <= t.len(),
        forall|i: int| 0 <= i < n ==> s[i] == t[i],
    ensures
        field_upto(s, p, n) == field_upto(t, p, n),
    decreases n,
{
    if n > 0 {
        lemma_field_upto_prefix(s, t, p, n - 1);
    }
}

proof fn lemma_contribution_decays(e: Option<Entry>, p: Point)
    ensures
        contribution(decay_entry(e), p) <= contribution(e, p),
{
    lemma_contribution_bounds(e, p);
    lemma_contribution_bounds(decay_entry(e), p);
    if let Some(m) = marker_in(e) {
        let m2 = marker_in(decay_entry(e))->Some_0;
        assert(m2.pos == m.pos && m2.strength <= m.strength);
        if form_contains(m2.form(), p) {
            assert((m2.strength as int) * (m2.strength as int) <= (m.strength as int) * (m.strength as int))
                by (nonlinear_arith)
                requires m2.strength <= m.strength, 0 <= m2.strength;
            let d = if dist(m.pos, p) < 1 { 1 } else { dist(m.pos, p) };
            lemma_div_is_ordered(m2.strength * SCALE, m.strength * SCALE, d);
        }
    }
}

proof fn lemma_field_upto_decays(s: Seq<Option<Entry>>, p: Point, n: int)
    requires
        0 <= n <= s.len(),
    ensures
        field_upto(decayed(s), p, n) <= field_upto(s, p, n),
    decreases n,
{
    if n > 0 {
        lemma_field_upto_decays(s, p, n - 1);
        lemma_contribution_decays(s[n - 1], p);
    }
}

/// A tick of decay never raises the field at any point, so over any number
/// of ticks without new markers the field at a point never rises.
pub proof fn lemma_field_non_increasing(s: Seq<Option<Entry>>, p: Point, n: nat)
    ensures
        field(decayed(s), p) <= field(s, p),
        field(decayed_times(s, n + 1), p) <= field(decayed_times(s, n), p),
{
    lemma_field_upto_decays(s, p, s.len() as int);
    let t = decayed_times(s, n);
    lemma_field_upto_decays(t, p, t.len() as int);
}


/// The field at a point is at least zero and at most one largest
/// contribution per slot.
pub proof fn lemma_field_bounds(s: Seq<Option<Entry>>, p: Point)
    ensures
        0 <= field(s, p) <= s.len() * MAX_CONTRIBUTION,
{
    lemma_field_upto_bounds(s, p, s.len() as int);
}


impl Object {
    /// The basic form of the object.
    pub fn basic_shape(&self) -> (r: BasicShape)
        ensures
            r == object_form(*self),
    {
        match self {
            Object::Ant(a) => a.into_basic_shape(),
            Object::Marker(m) => m.into_basic_shape(),
        }
    }

    /// Whether the object contains `p`.
    pub fn contains_point(&self, p: Point) -> (r: bool)
        ensures
            r == form_contains(object_form(*self), p),
    {
        match self {
            Object::Ant(a) => a.contains_point(p),
            Object::Marker(m) => m.contains_point(p),
        }
    }
}

} // verus!
