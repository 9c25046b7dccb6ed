//! Path charting: candidate points are filtered through the colliders,
//! scored by the pheromone field, linked into a proximity graph and
//! searched best-first from the ant to its destination.
use vstd::prelude::*;
use vstd::pervasive::VecAdditionalExecFns;
use crate::geometry::{distance, manhattan, manhattan_dist, square_dist, dist, dist2, Point, SCALE};
use crate::shape::{disc_collides, forms_overlap, form_contains, BasicShape};
use crate::ant::{Ant, ANT_RADIUS};
use crate::world::{Entry, Environment, Object, field, lemma_field_bounds, marker_in, object_form, MAX_CONTRIBUTION};

verus! {

/// Two grid points closer than this (1.5 units), squared, are linked.
pub const LINK_RADIUS2: u128 = 2_250_000;

/// A grid point this close (10 units), squared, to the destination is
/// linked to it directly.
pub const REACH_RADIUS2: u128 = 100_000_000;

/// Score of a point when markers exist: the field there plus this (2.0).
pub const SCENT_BONUS: u128 = 2000;

/// Score of every point when no marker exists (1.0).
pub const PLAIN_SCORE: u128 = 1000;

/// Score of the destination: large enough that its heuristic is zero.
pub const DEST_SCORE: u128 = 0x10_0000_0000_0000_0000_0000_0000;

/// The rings of candidates stop once the next radius comes within this
/// distance (10 units) of the destination.
pub const RING_REACH: u64 = 10_000;

/// An object in this slot keeps an ant's body at `p` out: it is
/// collidable, and it overlaps the body or contains `p`.
pub open spec fn entry_blocks(e: Option<Entry>, p: Point) -> bool {
    match e {
        Some(en) => en.collidable && (forms_overlap(BasicShape::Circle(p, ANT_RADIUS), object_form(en.obj))
            || form_contains(object_form(en.obj), p)),
        None => false,
    }
}

/// Some object among the first `n` slots keeps an ant's body at `p` out.
pub open spec fn blocked_upto(s: Seq<Option<Entry>>, p: Point, n: int) -> bool
    decreases n,
{
    if n <= 0 { false } else { blocked_upto(s, p, n - 1) || entry_blocks(s[n - 1], p) }
}

/// Some collidable object keeps an ant's body at `p` out.
pub open spec fn blocked(s: Seq<Option<Entry>>, p: Point) -> bool {
    blocked_upto(s, p, s.len() as int)
}

/// Some slot among the first `n` holds a marker.
pub open spec fn has_marker_upto(s: Seq<Option<Entry>>, n: int) -> bool
    decreases n,
{
    if n <= 0 { false } else { has_marker_upto(s, n - 1) || marker_in(s[n - 1]) is Some }
}

/// The store holds at least one marker.
pub open spec fn has_marker(s: Seq<Option<Entry>>) -> bool {
    has_marker_upto(s, s.len() as int)
}

/// How desirable a point is, in units of `1 / SCALE`.
pub open spec fn score_at(s: Seq<Option<Entry>>, p: Point) -> int {
    if has_marker(s) { field(s, p) + SCENT_BONUS } else { PLAIN_SCORE as int }
}

/// The candidates that no collidable object keeps out, in order.
pub open spec fn admitted_points(s: Seq<Option<Entry>>, cands: Seq<Point>) -> Seq<Point>
    decreases cands.len(),
{
    if cands.len() == 0 {
        Seq::empty()
    } else {
        let rest = admitted_points(s, cands.drop_last());
        if blocked(s, cands.last()) { rest } else { rest.push(cands.last()) }
    }
}

/// The nodes of the charting graph: the start, the admitted candidates,
/// and the destination last.
pub open spec fn chart_nodes(s: Seq<Option<Entry>>, start: Point, dest: Point, cands: Seq<Point>) -> Seq<Point> {
    seq![start] + admitted_points(s, cands) + seq![dest]
}

/// The graph links `a` to `b`: they are within 1.5 units, or `b` is the
/// destination and within 10 units of `a`.
pub open spec fn linked(a: Point, b: Point, dest: Point) -> bool {
    dist2(a, b) <= LINK_RADIUS2 || (b == dest && dist2(a, b) <= REACH_RADIUS2)
}

/// `path` walks the graph on `nodes` from `start` to `dest`.
pub open spec fn is_route(nodes: Seq<Point>, path: Seq<Point>, start: Point, dest: Point) -> bool {
    &&& path.len() >= 1
    &&& path[0] == start
    &&& path.last() == dest
    &&& forall|i: int| 0 <= i < path.len() - 1 ==> #[trigger] linked(path[i], path[i + 1], dest)
    &&& forall|i: int| 0 <= i < path.len() ==> nodes.contains(#[trigger] path[i])
}

/// `reach` holds the first node, no node at the destination, and every
/// node linked from one of its nodes: no walk leads from the first node to
/// the destination.
pub open spec fn separates(nodes: Seq<Point>, dest: Point, reach: Set<int>) -> bool {
    &&& reach.contains(0)
    &&& forall|i: int| #[trigger] reach.contains(i) ==> 0 <= i < nodes.len() && nodes[i] != dest
    &&& forall|i: int, j: int|
        reach.contains(i) && 0 <= j < nodes.len() && #[trigger] linked(nodes[i], nodes[j], dest)
            ==> reach.contains(j)
}

/// How many nodes the search has not closed yet.
pub open spec fn count_unclosed(s: Seq<bool>) -> nat
    decreases s.len(),
{
    if s.len() == 0 { 0 } else { count_unclosed(s.drop_last()) + if s.last() { 0nat } else { 1nat } }
}

proof fn lemma_close_one(s: Seq<bool>, k: int)
    requires
        0 <= k < s.len(),
        !s[k],
    ensures
        count_unclosed(s.update(k, true)) < count_unclosed(s),
    decreases s.len(),
{
    let t = s.update(k, true);
    if k == s.len() - 1 {
        assert(t.drop_last() =~= s.drop_last());
    } else {
        assert(t.drop_last() =~= s.drop_last().update(k, true));
        lemma_close_one(s.drop_last(), k);
    }
}

/// The number of rings of candidates for a walk from `from` to `to`: the
/// first radius (in whole units, from one) that comes within `RING_REACH`
/// of the distance between them.
pub fn ring_count(from: Point, to: Point) -> (r: u64)
    ensures
        r >= 1,
        dist(from, to) - r * SCALE <= RING_REACH,
        r == 1 || dist(from, to) - (r - 1) * SCALE > RING_REACH,
{
    let d = distance(from, to);
    if d <= RING_REACH + 1000 {
        1
    } else {
        let over: u64 = d - RING_REACH;
        (over + 999) / 1000
    }
}

/// Number of candidates on ring `r`: `360 * r / 60`.
pub fn ring_size(r: u64) -> (n: u64)
    requires
        r <= 0xffff_ffff,
    ensures
        n == 360 * r / 60,
{
    360 * r / 60
}

/// Whether the graph links `a` to `b`.
fn links(a: Point, b: Point, dest: Point) -> (r: bool)
    ensures
        r == linked(a, b, dest),
{
    let d = square_dist(a, b);
    d <= LINK_RADIUS2 || (b == dest && d <= REACH_RADIUS2)
}

fn filled_u128(n: usize, v: u128) -> (r: Vec<u128>)
    ensures
        r@ == Seq::new(n as nat, |i: int| v),
{
    let mut r: Vec<u128> = Vec::new();
    while r.len() < n
        invariant
            r@.len() <= n,
            forall|i: int| 0 <= i < r@.len() ==> r@[i] == v,
        decreases n - r@.len(),
    {
        r.push(v);
    }
    assert(r@ =~= Seq::new(n as nat, |i: int| v));
    r
}

fn filled_usize(n: usize, v: usize) -> (r: Vec<usize>)
    ensures
        r@ == Seq::new(n as nat, |i: int| v),
{
    let mut r: Vec<usize> = Vec::new();
    while r.len() < n
        invariant
            r@.len() <= n,
            forall|i: int| 0 <= i < r@.len() ==> r@[i] == v,
        decreases n - r@.len(),
    {
        r.push(v);
    }
    assert(r@ =~= Seq::new(n as nat, |i: int| v));
    r
}

fn filled_bool(n: usize, v: bool) -> (r: Vec<bool>)
    ensures
        r@ == Seq::new(n as nat, |i: int| v),
{
    let mut r: Vec<bool> = Vec::new();
    while r.len() < n
        invariant
            r@.len() <= n,
            forall|i: int| 0 <= i < r@.len() ==> r@[i] == v,
        decreases n - r@.len(),
    {
        r.push(v);
    }
    assert(r@ =~= Seq::new(n as nat, |i: int| v));
    r
}

/// The heuristic of a node at `p` with score `score`: its Manhattan
/// distance to `dest` divided by its score, in steps.
pub open spec fn heuristic(p: Point, dest: Point, score: int) -> int {
    manhattan(p, dest) * SCALE / (if score == 0 { 1 } else { score })
}

/// `a + b`, capped at the largest `u128`.
pub open spec fn capped_sum(a: int, b: int) -> int {
    if a + b > u128::MAX { u128::MAX as int } else { a + b }
}

/// Node `r` is open, and no open node has a lower priority in `f`, nor an
/// equal one and a lower index.
pub open spec fn least_open(open: Seq<bool>, f: Seq<u128>, r: int) -> bool {
    &&& 0 <= r < open.len()
    &&& open[r]
    &&& forall|j: int| 0 <= j < open.len() && #[trigger] open[j] ==> f[r] < f[j] || (f[r] == f[j] && r <= j)
}

/// The open node to close next: the one of least priority, ties going to
/// the lowest index; `open.len()` when no node is open.
fn pick_open(open: &Vec<bool>, f: &Vec<u128>) -> (r: usize)
    requires
        f@.len() == open@.len(),
    ensures
        r == open@.len() ==> forall|j: int| 0 <= j < open@.len() ==> !#[trigger] open@[j],
        r != open@.len() ==> least_open(open@, f@, r as int),
{
    let n = open.len();
    let mut best: usize = n;
    let mut i: usize = 0;
    while i < n
        invariant
            0 <= i <= n,
            n == open@.len() && f@.len() == n,
            best == n || (best < i && open@[best as int]),
            best == n ==> forall|j: int| 0 <= j < i ==> !#[trigger] open@[j],
            best != n ==> forall|j: int| 0 <= j < i && #[trigger] open@[j]
                ==> f@[best as int] < f@[j] || (f@[best as int] == f@[j] && best <= j),
        decreases n - i,
    {
        if open[i] && (best == n || f[i] < f[best]) {
            best = i;
        }
        i = i + 1;
    }
    best
}

/// Best-first search over the graph on `nodes` (the start first, the
/// destination last). The priority of an open node is its cost so far plus
/// its `heuristic`; `pick_open` closes the open node of least priority, ties
/// going to the lowest index, and each node is closed once. A neighbour's
/// cost is updated only when the new one is strictly lower. The search ends
/// when it picks a node at `dest`, or when no node is open.
fn search(nodes: &Vec<Point>, scores: &Vec<u128>, dest: Point) -> (r: Option<Vec<Point>>)
    requires
        nodes@.len() >= 2,
        nodes@.last() == dest,
        scores@.len() == nodes@.len(),
    ensures
        r is Some ==> is_route(nodes@, r->Some_0@, nodes@[0], dest),
        r is Some ==> forall|m: int| 0 < m < r->Some_0@.len() - 1
            ==> nodes@.subrange(1, nodes@.len() - 1).contains(#[trigger] r->Some_0@[m]),
        r is Some && nodes@.no_duplicates() ==> r->Some_0@.no_duplicates(),
        r is None ==> exists|reach: Set<int>| #[trigger] separates(nodes@, dest, reach),
{
    let n = nodes.len();
    let mut h: Vec<u128> = Vec::new();
    while h.len() < n
        invariant
            h@.len() <= n,
            n == nodes@.len(),
            scores@.len() == n,
            forall|i: int| 0 <= i < h@.len() ==> #[trigger] h@[i] == heuristic(nodes@[i], dest, scores@[i] as int),
        decreases n - h@.len(),
    {
        let i = h.len();
        let sc = if scores[i] == 0 { 1 } else { scores[i] };
        let m = manhattan_dist(nodes[i], dest) as u128;
        let hi = m * SCALE as u128 / sc;
        assert(hi == heuristic(nodes@[i as int], dest, scores@[i as int] as int));
        h.push(hi);
    }
    let mut g = filled_u128(n, 0);
    let mut f = filled_u128(n, 0);
    let mut prev = filled_usize(n, 0);
    let mut open = filled_bool(n, false);
    let mut closed = filled_bool(n, false);
    open.set(0, true);
    f.set(0, h[0]);
    let ghost mut time: Seq<int> = Seq::new(n as nat, |i: int| 0);
    let ghost mut k: int = 0;
    loop
        invariant
            n == nodes@.len(),
            h@.len() == n && g@.len() == n && f@.len() == n,
            prev@.len() == n && open@.len() == n && closed@.len() == n,
            time.len() == n,
            k >= 0,
            n >= 2,
            nodes@.last() == dest,
            scores@.len() == n,
            forall|i: int| 0 <= i < n ==> #[trigger] h@[i] == heuristic(nodes@[i], dest, scores@[i] as int),
            forall|i: int| 0 <= i < n && #[trigger] open@[i] ==> f@[i] == capped_sum(g@[i] as int, h@[i] as int),
            forall|i: int| 0 <= i < n ==> !(#[trigger] open@[i] && closed@[i]),
            k == 0 ==> forall|i: int| 0 <= i < n ==> !#[trigger] closed@[i] && open@[i] == (i == 0),
            k > 0 ==> closed@[0],
            forall|i: int| #![trigger open@[i]] #![trigger closed@[i]] 0 < i < n && (open@[i] || closed@[i]) ==> prev@[i] < n
                && closed@[prev@[i] as int] && linked(nodes@[prev@[i] as int], nodes@[i], dest),
            forall|i: int| 0 < i < n && #[trigger] closed@[i] ==> time[prev@[i] as int] < time[i],
            forall|i: int| 0 <= i < n && #[trigger] closed@[i] ==> 0 <= time[i] < k,
            forall|i: int, j: int| 0 <= i < n && closed@[i] && 0 <= j < n
                && #[trigger] linked(nodes@[i], nodes@[j], dest) ==> open@[j] || closed@[j],
            forall|i: int| 0 <= i < n && #[trigger] closed@[i] ==> nodes@[i] != dest,
        decreases count_unclosed(closed@),
    {
        let best = pick_open(&open, &f);
        if best == n {
            proof {
                let reach = Set::new(|i: int| 0 <= i < n && closed@[i]);
                if k == 0 {
                    assert(!closed@[0]);
                    assert(open@[0]);
                    assert(false);
                }
                assert(reach.contains(0));
                assert forall|a: int, b: int|
                    reach.contains(a) && 0 <= b < nodes@.len() && #[trigger] linked(nodes@[a], nodes@[b], dest)
                    implies reach.contains(b) by {
                    assert(open@[b] || closed@[b]);
                    assert(!open@[b]);
                }
                assert(separates(nodes@, dest, reach));
            }
            return None;
        }
        let cur = best;
        if nodes[cur] == dest {
            return Some(route_to(nodes, &prev, &open, &closed, cur, dest, Ghost(time), Ghost(k)));
        }
        proof {
            lemma_close_one(closed@, cur as int);
        }
        let ghost closed0 = closed@;
        let ghost open0 = open@;
        let ghost time0 = time;
        open.set(cur, false);
        closed.set(cur, true);
        proof {
            time = time.update(cur as int, k);
            k = k + 1;
            assert forall|i: int| 0 < i < n && #[trigger] closed@[i] implies time[prev@[i] as int] < time[i] by {
                if i == cur as int {
                    assert(open0[i]);
                    assert(closed0[prev@[i] as int]);
                } else {
                    assert(closed0[i]);
                    assert(closed0[prev@[i] as int]);
                }
            }
            assert forall|i: int| #![trigger open@[i]] #![trigger closed@[i]] 0 < i < n && (open@[i] || closed@[i]) implies prev@[i] < n
                && closed@[prev@[i] as int] && linked(nodes@[prev@[i] as int], nodes@[i], dest) by {
                assert(open0[i] || closed0[i]);
            }
            if k == 1 {
                assert(!closed0[0]);
                assert(open0[0]);
            }
        }
        let mut j: usize = 0;
        while j < n
            invariant
                0 <= j <= n,
                0 <= cur < n,
                n == nodes@.len(),
                h@.len() == n && g@.len() == n && f@.len() == n,
                prev@.len() == n && open@.len() == n && closed@.len() == n,
                time.len() == n,
                k >= 1,
                scores@.len() == n,
                forall|i: int| 0 <= i < n ==> #[trigger] h@[i] == heuristic(nodes@[i], dest, scores@[i] as int),
                forall|i: int| 0 <= i < n && #[trigger] open@[i] ==> f@[i] == capped_sum(g@[i] as int, h@[i] as int),
                closed@[cur as int],
                nodes@[cur as int] != dest,
                forall|i: int| 0 <= i < n ==> !(#[trigger] open@[i] && closed@[i]),
                closed@[0],
                forall|i: int| #![trigger open@[i]] #![trigger closed@[i]] 0 < i < n && (open@[i] || closed@[i]) ==> prev@[i] < n
                    && closed@[prev@[i] as int] && linked(nodes@[prev@[i] as int], nodes@[i], dest),
                forall|i: int| 0 < i < n && #[trigger] closed@[i] ==> time[prev@[i] as int] < time[i],
                forall|i: int| 0 <= i < n && #[trigger] closed@[i] ==> 0 <= time[i] < k,
                forall|i: int, jj: int| 0 <= i < n && i != cur && closed@[i] && 0 <= jj < n
                    && #[trigger] linked(nodes@[i], nodes@[jj], dest) ==> open@[jj] || closed@[jj],
                forall|jj: int| 0 <= jj < j && #[trigger] linked(nodes@[cur as int], nodes@[jj], dest)
                    ==> open@[jj] || closed@[jj],
                forall|i: int| 0 <= i < n && #[trigger] closed@[i] ==> nodes@[i] != dest,
            decreases n - j,
        {
            if !closed[j] && links(nodes[cur], nodes[j], dest) {
                let step = distance(nodes[cur], nodes[j]) as u128;
                let cost = g[cur].saturating_add(step);
                if !open[j] || cost < g[j] {
                    let ghost open1 = open@;
                    let ghost prev1 = prev@;
                    g.set(j, cost);
                    f.set(j, cost.saturating_add(h[j]));
                    prev.set(j, cur);
                    open.set(j, true);
                    proof {
                        assert forall|i: int| #![trigger open@[i]] #![trigger closed@[i]] 0 < i < n && (open@[i] || closed@[i]) implies prev@[i] < n
                            && closed@[prev@[i] as int] && linked(nodes@[prev@[i] as int], nodes@[i], dest) by {
                            if i != j as int {
                                assert(open1[i] || closed@[i]);
                                assert(prev@[i] == prev1[i]);
                            }
                        }
                    }
                }
            }
            j = j + 1;
        }
    }
}

/// The walk that the predecessor links give from the first node to `last`.
fn route_to(
    nodes: &Vec<Point>,
    prev: &Vec<usize>,
    open: &Vec<bool>,
    closed: &Vec<bool>,
    last: usize,
    dest: Point,
    time: Ghost<Seq<int>>,
    k: Ghost<int>,
) -> (path: Vec<Point>)
    requires
        nodes@.len() >= 2,
        nodes@.last() == dest,
        prev@.len() == nodes@.len() && open@.len() == nodes@.len() && closed@.len() == nodes@.len(),
        forall|i: int| 0 <= i < nodes@.len() ==> !(#[trigger] open@[i] && closed@[i]),
        forall|i: int| 0 <= i < nodes@.len() && #[trigger] closed@[i] ==> nodes@[i] != dest,
        time@.len() == nodes@.len(),
        last < nodes@.len(),
        open@[last as int],
        nodes@[last as int] == dest,
        forall|i: int| #![trigger open@[i]] #![trigger closed@[i]] 0 < i < nodes@.len() && (open@[i] || closed@[i]) ==> prev@[i] < nodes@.len()
            && closed@[prev@[i] as int] && linked(nodes@[prev@[i] as int], nodes@[i], dest),
        forall|i: int| 0 < i < nodes@.len() && #[trigger] closed@[i] ==> time@[prev@[i] as int] < time@[i],
        forall|i: int| 0 <= i < nodes@.len() && #[trigger] closed@[i] ==> 0 <= time@[i] < k@,
    ensures
        is_route(nodes@, path@, nodes@[0], dest),
        forall|m: int| 0 < m < path@.len() - 1 ==> nodes@.subrange(1, nodes@.len() - 1).contains(#[trigger] path@[m]),
        nodes@.no_duplicates() ==> path@.no_duplicates(),
{
    let n = nodes.len();
    let mut rev: Vec<usize> = Vec::new();
    rev.push(last);
    let mut x: usize = last;
    while x != 0
        invariant
            n == nodes@.len(),
            prev@.len() == n && open@.len() == n && closed@.len() == n,
            time@.len() == n,
            x < n,
            open@[x as int] || closed@[x as int],
            rev@.len() >= 1,
            rev@[0] == last,
            rev@.last() == x,
            forall|t: int| 0 <= t < rev@.len() ==> #[trigger] rev@[t] < n,
            forall|t: int| 0 <= t < rev@.len() - 1
                ==> #[trigger] linked(nodes@[rev@[t + 1] as int], nodes@[rev@[t] as int], dest),
            !closed@[last as int],
            forall|t: int| 1 <= t < rev@.len() ==> closed@[#[trigger] rev@[t] as int],
            forall|t: int| 0 <= t < rev@.len() - 1 ==> #[trigger] rev@[t] != 0,
            forall|t1: int, t2: int| 1 <= t1 < t2 < rev@.len()
                ==> time@[#[trigger] rev@[t2] as int] < time@[#[trigger] rev@[t1] as int],
            forall|i: int| #![trigger open@[i]] #![trigger closed@[i]] 0 < i < n && (open@[i] || closed@[i]) ==> prev@[i] < n
                && closed@[prev@[i] as int] && linked(nodes@[prev@[i] as int], nodes@[i], dest),
            forall|i: int| 0 < i < n && #[trigger] closed@[i] ==> time@[prev@[i] as int] < time@[i],
            forall|i: int| 0 <= i < n && #[trigger] closed@[i] ==> 0 <= time@[i] < k@,
        decreases (if closed@[x as int] { time@[x as int] } else { k@ }),
    {
        let y = prev[x];
        assert(linked(nodes@[y as int], nodes@[x as int], dest));
        let ghost rev0 = rev@;
        rev.push(y);
        proof {
            assert(rev@.len() >= 2 ==> closed@[rev@[rev@.len() - 1] as int]);
            assert forall|t1: int, t2: int| 1 <= t1 < t2 < rev@.len()
                implies time@[#[trigger] rev@[t2] as int] < time@[#[trigger] rev@[t1] as int] by {
                if t2 == rev@.len() - 1 {
                    assert(closed@[x as int]);
                    if t1 < rev0.len() - 1 {
                        assert(time@[rev0[rev0.len() - 1] as int] < time@[rev0[t1] as int]);
                    }
                } else {
                    assert(rev@[t1] == rev0[t1] && rev@[t2] == rev0[t2]);
                }
            }
        }
        x = y;
    }
    proof {
        assert forall|u1: int, u2: int| 0 <= u1 < u2 < rev@.len() implies #[trigger] rev@[u1] != #[trigger] rev@[u2] by {
            assert(closed@[rev@[u2] as int]);
            if u1 > 0 {
                assert(time@[rev@[u2] as int] < time@[rev@[u1] as int]);
            }
        }
        assert forall|u: int| 1 <= u < rev@.len() implies nodes@[#[trigger] rev@[u] as int] != dest by {
            assert(closed@[rev@[u] as int]);
        }
    }
    let len = rev.len();
    let mut path: Vec<Point> = Vec::new();
    let mut t: usize = len;
    while t > 0
        invariant
            0 <= t <= len,
            len == rev@.len(),
            len >= 1,
            n == nodes@.len(),
            rev@[0] == last,
            rev@.last() == 0,
            forall|u: int| 0 <= u < rev@.len() ==> #[trigger] rev@[u] < n,
            forall|u: int| 0 <= u < rev@.len() - 1 ==> #[trigger] rev@[u] != 0,
            forall|u: int| 1 <= u < rev@.len() ==> nodes@[#[trigger] rev@[u] as int] != dest,
            forall|u1: int, u2: int| 0 <= u1 < u2 < rev@.len() ==> #[trigger] rev@[u1] != #[trigger] rev@[u2],
            path@.len() == len - t,
            forall|m: int| 0 <= m < path@.len() ==> #[trigger] path@[m] == nodes@[rev@[len - 1 - m] as int],
        decreases t,
    {
        t = t - 1;
        path.push(nodes[rev[t]]);
    }
    proof {
        assert(path@[0] == nodes@[0]);
        assert forall|m: int| 0 <= m < path@.len() - 1 implies #[trigger] linked(path@[m], path@[m + 1], dest) by {
            let u = len - 2 - m;
            assert(linked(nodes@[rev@[u + 1] as int], nodes@[rev@[u] as int], dest));
        }
        assert forall|m: int| 0 <= m < path@.len() implies nodes@.contains(#[trigger] path@[m]) by {
            assert(nodes@[rev@[len - 1 - m] as int] == path@[m]);
        }
        let inner = nodes@.subrange(1, nodes@.len() - 1);
        assert forall|m: int| 0 < m < path@.len() - 1 implies inner.contains(#[trigger] path@[m]) by {
            let v = rev@[len - 1 - m] as int;
            assert(v != 0);
            assert(nodes@[v] != dest);
            assert(v != nodes@.len() - 1);
            assert(inner[v - 1] == path@[m]);
        }
        if nodes@.no_duplicates() {
            assert forall|m1: int, m2: int| 0 <= m1 < path@.len() && 0 <= m2 < path@.len() && m1 != m2
                implies path@[m1] != path@[m2] by {
                let a = len - 1 - m1;
                let b = len - 1 - m2;
                if a < b {
                    assert(rev@[a] != rev@[b]);
                } else {
                    assert(rev@[b] != rev@[a]);
                }
            }
        }
    }
    path
}

impl Environment {
    /// Whether some collidable object keeps an ant's body at `p` out.
    fn is_blocked(&self, p: Point) -> (r: bool)
        ensures
            r == blocked(self@, p),
    {
        let n = self.len();
        let mut i: usize = 0;
        while i < n
            invariant
                0 <= i <= n,
                n == self@.len(),
                !blocked_upto(self@, p, i as int),
            decreases n - i,
        {
            match self.get(i) {
                Some(e) => {
                    if e.collidable && (disc_collides(p, ANT_RADIUS, &e.obj.basic_shape())
                        || e.obj.contains_point(p)) {
                        assert(blocked_upto(self@, p, i + 1));
                        proof {
                            lemma_blocked_prefix(self@, p, i + 1);
                        }
                        return true;
                    }
                },
                None => {},
            }
            i = i + 1;
        }
        false
    }

    /// Whether the store holds a marker.
    fn has_markers(&self) -> (r: bool)
        ensures
            r == has_marker(self@),
    {
        let n = self.len();
        let mut i: usize = 0;
        while i < n
            invariant
                0 <= i <= n,
                n == self@.len(),
                !has_marker_upto(self@, i as int),
            decreases n - i,
        {
            match self.get(i) {
                Some(e) => {
                    if let Object::Marker(_) = &e.obj {
                        proof {
                            lemma_has_marker_prefix(self@, i + 1);
                        }
                        return true;
                    }
                },
                None => {},
            }
            i = i + 1;
        }
        false
    }

    /// The score of a point.
    fn score(&self, p: Point) -> (r: u128)
        ensures
            r == score_at(self@, p),
    {
        if self.has_markers() {
            let n = self.len();
            proof {
                lemma_field_bounds(self@, p);
                assert(n * MAX_CONTRIBUTION <= 0x1_0000_0000_0000_0000 * 0x400_0000_0000) by (nonlinear_arith)
                    requires n <= 0xffff_ffff_ffff_ffff;
            }
            self.pheromone_strength_at_pos(p) + SCENT_BONUS
        } else {
            PLAIN_SCORE
        }
    }

    /// A candidate point with its score, or `None` where a collidable
    /// object keeps an ant's body there out.
    fn process_point(&self, point: Point) -> (r: Option<u128>)
        ensures
            r == (if blocked(self@, point) { None } else { Some(score_at(self@, point) as u128) }),
    {
        if self.is_blocked(point) {
            None
        } else {
            Some(self.score(point))
        }
    }

    /// Chart a walk for `src` to `dest` through `candidates`, the points
    /// sampled on the rings around the ant (`ring_count` rings, ring `r`
    /// holding `ring_size(r)` points). Candidates that a collidable object
    /// keeps out are dropped; the rest, after the ant's position and before
    /// `dest`, are the nodes of the graph that `linked` gives. The walk found
    /// starts at the ant, ends at `dest` and steps along links between
    /// nodes; every point between its ends is an admitted candidate, and
    /// where the nodes are distinct points, no point appears twice. `None`
    /// means that no walk leads there.
    pub fn chart_path(&self, src: &Ant, dest: Point, candidates: &Vec<Point>) -> (r: Option<Vec<Point>>)
        ensures
            r is Some ==> is_route(chart_nodes(self@, src.pos, dest, candidates@), r->Some_0@, src.pos, dest),
            r is Some ==> forall|i: int| 0 < i < r->Some_0@.len() - 1
                ==> admitted_points(self@, candidates@).contains(#[trigger] r->Some_0@[i]),
            r is Some && chart_nodes(self@, src.pos, dest, candidates@).no_duplicates()
                ==> r->Some_0@.no_duplicates(),
            r is None ==> exists|reach: Set<int>|
                #[trigger] separates(chart_nodes(self@, src.pos, dest, candidates@), dest, reach),
    {
        let mut nodes: Vec<Point> = Vec::new();
        let mut scores: Vec<u128> = Vec::new();
        nodes.push(src.pos);
        scores.push(self.score(src.pos));
        let mut i: usize = 0;
        while i < candidates.len()
            invariant
                0 <= i <= candidates@.len(),
                nodes@ == seq![src.pos] + admitted_points(self@, candidates@.take(i as int)),
                scores@.len() == nodes@.len(),
            decreases candidates@.len() - i,
        {
            let c = candidates[i];
            assert(candidates@.take(i + 1).drop_last() == candidates@.take(i as int));
            match self.process_point(c) {
                Some(sc) => {
                    nodes.push(c);
                    scores.push(sc);
                },
                None => {},
            }
            i = i + 1;
        }
        assert(candidates@.take(candidates@.len() as int) == candidates@);
        nodes.push(dest);
        scores.push(DEST_SCORE);
        assert(nodes@ == chart_nodes(self@, src.pos, dest, candidates@));
        assert(nodes@.subrange(1, nodes@.len() - 1) =~= admitted_points(self@, candidates@));
        search(&nodes, &scores, dest)
    }
}

proof fn lemma_blocked_prefix(s: Seq<Option<Entry>>, p: Point, n: int)
    requires
        0 <= n <= s.len(),
        blocked_upto(s, p, n),
    ensures
        blocked(s, p),
    decreases s.len() - n,
{
    if n < s.len() {
        lemma_blocked_prefix(s, p, n + 1);
    }
}

proof fn lemma_has_marker_prefix(s: Seq<Option<Entry>>, n: int)
    requires
        0 <= n <= s.len(),
        has_marker_upto(s, n),
    ensures
        has_marker(s),
    decreases s.len() - n,
{
    if n < s.len() {
        lemma_has_marker_prefix(s, n + 1);
    }
}

/// An admitted candidate is a candidate that nothing keeps out.
proof fn lemma_admitted(s: Seq<Option<Entry>>, cands: Seq<Point>, p: Point)
    requires
        admitted_points(s, cands).contains(p),
    ensures
        cands.contains(p),
        !blocked(s, p),
    decreases cands.len(),
{
    if cands.len() > 0 {
        let rest = admitted_points(s, cands.drop_last());
        if rest.contains(p) {
            lemma_admitted(s, cands.drop_last(), p);
            let k = choose|k: int| 0 <= k < cands.drop_last().len() && cands.drop_last()[k] == p;
            assert(cands[k] == p);
        } else {
            assert(p == cands.last());
        }
    }
}

/// A destination more than 10 units from the start, where every candidate
/// within 10 units of it is kept out, has no route through the admitted
/// candidates: `chart_path` then returns `None`.
pub proof fn lemma_enclosed_destination(s: Seq<Option<Entry>>, start: Point, dest: Point, cands: Seq<Point>, path: Seq<Point>)
    requires
        dist2(start, dest) > REACH_RADIUS2,
        forall|c: int| 0 <= c < cands.len() && dist2(#[trigger] cands[c], dest) <= REACH_RADIUS2
            ==> blocked(s, cands[c]),
    ensures
        !(is_route(chart_nodes(s, start, dest, cands), path, start, dest)
            && forall|i: int| 0 < i < path.len() - 1 ==> admitted_points(s, cands).contains(#[trigger] path[i])),
{
    if is_route(chart_nodes(s, start, dest, cands), path, start, dest)
        && forall|i: int| 0 < i < path.len() - 1 ==> admitted_points(s, cands).contains(#[trigger] path[i]) {
        if start == dest {
            let dx = start.x - dest.x;
            let dy = start.y - dest.y;
            assert(dx == 0 && dy == 0);
            assert(dx * dx + dy * dy == 0);
        }
        assert(path.len() >= 2);
        let m = path.len() - 2;
        assert(linked(path[m], path[m + 1], dest));
        assert(dist2(path[m], dest) <= REACH_RADIUS2);
        if m > 0 {
            lemma_admitted(s, cands, path[m]);
            let c = choose|c: int| 0 <= c < cands.len() && cands[c] == path[m];
            assert(blocked(s, cands[c]));
        }
    }
}

} // verus!
