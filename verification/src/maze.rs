//! Randomized depth-first maze carving.
//!
//! The carver walks a rectangle in steps of two, so that corridor cells and
//! the walls between them alternate. It owns no storage: every cell it
//! carves is handed to a [`Register`], and the only state it keeps is the
//! set of cells carved so far.
use crate::carving::{
    growing, lattice_count, lemma_carving_size, carving, covers, edge_at, edge_from, extends, grown, logged, midway, node_at, sealed,
};
use crate::coord::{Coord, Direction, RectRange};
use std::collections::HashSet;
use vstd::prelude::*;
use vstd::set_lib::{lemma_int_range, lemma_len_subset, set_int_range};

verus! {

broadcast use vstd::std_specs::hash::group_hash_axioms;

/// The source of the carver's random decisions.
pub trait RandomSource {
    /// Whether an event of probability `1 / n` happens.
    fn does_happen(&mut self, n: u32) -> bool
        requires
            n >= 1,
    ;
}

/// Where carved cells go.
pub trait Register {
    type Error;

    /// Takes one newly carved coordinate, and may refuse it.
    fn register(&mut self, cd: Coord) -> Result<(), Self::Error>;
}

/// A list of coordinates takes every cell and never fails.
impl Register for Vec<Coord> {
    type Error = ();

    fn register(&mut self, cd: Coord) -> (r: Result<(), ()>)
        ensures
            r.is_ok(),
            final(self)@ == old(self)@.push(cd),
    {
        self.push(cd);
        Ok(())
    }
}

/// A sink together with its history: every coordinate that was handed to
/// it through this value, in order, each with the answer the sink gave and
/// with the sink as that call left it.
pub struct Trace<F: Register> {
    sink: F,
    log: Ghost<Seq<(Coord, Result<(), F::Error>, F)>>,
}

/// `i` is a place of the history at or after `base`.
pub open spec fn placed<E>(calls: Seq<(Coord, Result<(), E>)>, base: int, i: int) -> bool {
    base <= i < calls.len()
}

/// The sink as the call at place `i` found it: as the call before left
/// it, or `first` for the call at `base`.
pub open spec fn before<F>(first: F, states: Seq<F>, base: int, i: int) -> F {
    if i == base {
        first
    } else {
        states[i - 1]
    }
}

impl<F: Register> Trace<F> {
    /// The history of the sink.
    pub closed spec fn calls(&self) -> Seq<(Coord, Result<(), F::Error>)> {
        self.log@.map_values(|e: (Coord, Result<(), F::Error>, F)| (e.0, e.1))
    }

    /// The sink as each call of the history left it.
    pub closed spec fn states(&self) -> Seq<F> {
        self.log@.map_values(|e: (Coord, Result<(), F::Error>, F)| e.2)
    }

    /// The history has one state for each call.
    pub proof fn lemma_one_state_each(&self)
        ensures
            self.states().len() == self.calls().len(),
    {
    }

    /// The sink itself.
    pub closed spec fn sink_spec(&self) -> F {
        self.sink
    }

    /// Wraps a sink, with an empty history.
    pub fn new(sink: F) -> (t: Trace<F>)
        ensures
            t.calls().len() == 0,
            t.states().len() == 0,
            t.sink_spec() == sink,
    {
        Trace { sink, log: Ghost(Seq::empty()) }
    }

    /// Hands one coordinate to the sink and notes its answer and what the
    /// sink has become.
    pub fn register(&mut self, cd: Coord) -> (r: Result<(), F::Error>)
        ensures
            final(self).calls() == old(self).calls().push((cd, r)),
            final(self).states() == old(self).states().push(final(self).sink_spec()),
            exists|m: &mut F|
                *m == old(self).sink_spec() && *final(m) == final(self).sink_spec()
                    && #[trigger] call_ensures(F::register, (m, cd), r),
    {
        let r = self.sink.register(cd);
        proof {
            self.log@ = self.log@.push((cd, r, self.sink));
            assert(self.calls() =~= old(self).calls().push((cd, r)));
            assert(self.states() =~= old(self).states().push(self.sink));
        }
        r
    }

    pub fn sink(&self) -> (s: &F)
        ensures
            *s == self.sink_spec(),
    {
        &self.sink
    }

    /// Gives the sink back.
    pub fn into_inner(self) -> (s: F)
        ensures
            s == self.sink_spec(),
    {
        self.sink
    }
}

/// The function that saw a registration fail, or passed the failure on.
#[derive(Clone, Copy, Debug, PartialEq, Eq, Structural)]
pub enum DigSite {
    DigMaze,
    DigImpl,
}

impl DigSite {
    pub open spec fn label_spec(self) -> Seq<char> {
        match self {
            DigSite::DigMaze => "[maze::dig_maze]"@,
            DigSite::DigImpl => "[maze::dig_impl]"@,
        }
    }

    /// The name under which the site appears in a message.
    pub fn label(&self) -> (s: &'static str)
        ensures
            s@ == self.label_spec(),
    {
        match self {
            DigSite::DigMaze => "[maze::dig_maze]",
            DigSite::DigImpl => "[maze::dig_impl]",
        }
    }
}

/// A failed registration: the sink's own error, and the sites it passed
/// through on its way to the caller, innermost first.
#[derive(Debug)]
pub struct DigError<E> {
    pub cause: E,
    pub trail: Vec<DigSite>,
}

/// One decision of the direction pick: the `index`-th eligible candidate
/// (counted from 1) replaces the choice made so far where its draw
/// succeeded, and the first candidate always stands.
pub open spec fn replaced<T>(choice: Option<T>, index: int, candidate: T, hit: bool) -> Option<T> {
    if hit || index == 1 {
        Some(candidate)
    } else {
        choice
    }
}

/// The pick among `candidates` after the first `n` of them were
/// scanned, `hits[k]` being the outcome of the draw made for the
/// candidate at place `k`: the last candidate whose draw succeeded, and the
/// first one where none did.
pub open spec fn picked<T>(candidates: Seq<T>, hits: Seq<bool>, n: nat) -> Option<T>
    decreases n,
{
    if n == 0 {
        None
    } else {
        replaced(
            picked(candidates, hits, (n - 1) as nat),
            n as int,
            candidates[n - 1],
            hits[n - 1],
        )
    }
}

/// The pick looks at the first `n` candidates and outcomes only.
pub proof fn lemma_picked_prefix<T>(
    candidates: Seq<T>,
    hits: Seq<bool>,
    longer: Seq<T>,
    more_hits: Seq<bool>,
    n: nat,
)
    requires
        n <= candidates.len() <= longer.len(),
        n <= hits.len() <= more_hits.len(),
        forall|k: int|
            #![trigger candidates[k]]
            #![trigger hits[k]]
            0 <= k < n ==> candidates[k] == longer[k] && hits[k] == more_hits[k],
    ensures
        picked(candidates, hits, n) == picked(longer, more_hits, n),
    decreases n,
{
    if n > 0 {
        lemma_picked_prefix(candidates, hits, longer, more_hits, (n - 1) as nat);
    }
}

/// `n` is the number of one of the `len` draws of a round.
pub open spec fn drawn(len: int, n: u32) -> bool {
    1 <= n <= len
}

/// One decision of the direction pick, made on the outcome `hit` of the
/// draw with probability `1 / index`.
pub fn keep_or_replace<T>(choice: Option<T>, index: u32, candidate: T, hit: bool) -> (r: Option<T>)
    ensures
        r == replaced(choice, index as int, candidate, hit),
{
    if hit || index == 1 {
        Some(candidate)
    } else {
        choice
    }
}

/// The key under which a coordinate is kept in the set of carved cells.
spec fn key_of(c: Coord) -> u64 {
    ((c.x + 0x8000_0000) * 0x1_0000_0000 + (c.y + 0x8000_0000)) as u64
}

/// The coordinate is in the set of carved cells.
spec fn seen(used: Set<u64>, c: Coord) -> bool {
    used.contains(key_of(c))
}

proof fn lemma_key_injective(a: Coord, b: Coord)
    requires
        key_of(a) == key_of(b),
    ensures
        a == b,
{
}

fn key(c: Coord) -> (k: u64)
    ensures
        k == key_of(c),
{
    let x: u64 = (c.x as i64 + 0x8000_0000) as u64;
    let y: u64 = (c.y as i64 + 0x8000_0000) as u64;
    x * 0x1_0000_0000 + y
}

/// The keys that are in no carved cell's place yet: what is left to carve.
spec fn unseen(used: Set<u64>) -> Set<int> {
    Set::new(|i: int| 0 <= i < 0x1_0000_0000_0000_0000 && !used.contains(i as u64))
}

proof fn lemma_unseen_shrinks(before: Set<u64>, after: Set<u64>)
    requires
        before.subset_of(after),
    ensures
        unseen(before).finite(),
        unseen(after).finite(),
        unseen(after).len() <= unseen(before).len(),
        forall|k: u64|
            after.contains(k) && !before.contains(k) ==> unseen(after).len() < unseen(before).len(),
{
    let full = set_int_range(0, 0x1_0000_0000_0000_0000);
    lemma_int_range(0, 0x1_0000_0000_0000_0000);
    lemma_len_subset(unseen(before), full);
    lemma_len_subset(unseen(after), unseen(before));
    assert forall|k: u64| after.contains(k) && !before.contains(k) implies unseen(after).len()
        < unseen(before).len() by {
        let smaller = unseen(before).remove(k as int);
        assert(unseen(before).contains(k as int));
        assert(unseen(after).subset_of(smaller));
        lemma_len_subset(unseen(after), smaller);
    }
}

/// The point two steps from `c` in direction `d`.
spec fn target(c: Coord, d: Direction) -> Coord {
    Coord { x: c.shifted(d, 2).0 as i32, y: c.shifted(d, 2).1 as i32 }
}

/// Direction `d` is eligible at `c`: the point two steps away lies inside
/// the range and has not been carved.
spec fn open_way(range: RectRange, used: Set<u64>, c: Coord, d: Direction) -> bool {
    &&& range.x_start() <= c.shifted(d, 2).0 < range.x_end()
    &&& range.y_start() <= c.shifted(d, 2).1 < range.y_end()
    &&& !seen(used, target(c, d))
}

/// No direction is eligible at `c`.
spec fn closed(range: RectRange, used: Set<u64>, c: Coord) -> bool {
    &&& !open_way(range, used, c, Direction::Up)
    &&& !open_way(range, used, c, Direction::Right)
    &&& !open_way(range, used, c, Direction::Left)
    &&& !open_way(range, used, c, Direction::Down)
}

/// The lattice point in column `x` of row `y` has been carved.
spec fn node(range: RectRange, used: Set<u64>, x: int, y: int) -> bool {
    &&& range.x_start() <= x < range.x_end()
    &&& range.y_start() <= y < range.y_end()
    &&& (x - range.x_start()) % 2 == 0
    &&& (y - range.y_start()) % 2 == 0
    &&& seen(used, Coord { x: x as i32, y: y as i32 })
}

/// The cell lies between two carved lattice points.
spec fn bridges(range: RectRange, used: Set<u64>, m: Coord) -> bool {
    ||| (node(range, used, m.x - 1, m.y as int) && node(range, used, m.x + 1, m.y as int))
    ||| (node(range, used, m.x as int, m.y - 1) && node(range, used, m.x as int, m.y + 1))
}

/// The set of carved cells and the history of the sink tell one story.
#[verifier::opaque]
spec fn linked<E>(
    range: RectRange,
    used: Set<u64>,
    calls: Seq<(Coord, Result<(), E>)>,
    base: int,
) -> bool {
    &&& growing(range, calls, base)
    &&& calls.last().1.is_ok()
    &&& (calls.len() - base) % 2 == 1
    &&& forall|i: int| base <= i < calls.len() ==> seen(used, (#[trigger] calls[i]).0)
    &&& forall|c: Coord| #[trigger] seen(used, c) ==> logged(calls, base, calls.len() as int, c)
    &&& forall|c: Coord|
        seen(used, c) && !range.on_lattice(c) ==> #[trigger] bridges(range, used, c)
}

/// The set of carved cells holds the coordinates of the history from
/// `base` on, and no others.
spec fn mirrors<E>(used: Set<u64>, calls: Seq<(Coord, Result<(), E>)>, base: int) -> bool {
    &&& forall|i: int| base <= i < calls.len() ==> seen(used, (#[trigger] calls[i]).0)
    &&& forall|c: Coord| #[trigger] seen(used, c) ==> logged(calls, base, calls.len() as int, c)
}

/// A cell that is marked and then handed over keeps set and history alike.
proof fn lemma_mirror_push<E>(
    used: Set<u64>,
    calls: Seq<(Coord, Result<(), E>)>,
    base: int,
    entry: (Coord, Result<(), E>),
)
    requires
        0 <= base <= calls.len(),
        mirrors(used, calls, base),
    ensures
        mirrors(used.insert(key_of(entry.0)), calls.push(entry), base),
{
    let after = calls.push(entry);
    let more = used.insert(key_of(entry.0));
    let n = calls.len() as int;
    assert forall|i: int| base <= i < after.len() implies seen(more, (#[trigger] after[i]).0) by {
        if i < n {
            assert(seen(used, calls[i].0));
        }
    }
    assert forall|c: Coord| #[trigger] seen(more, c) implies logged(
        after,
        base,
        after.len() as int,
        c,
    ) by {
        if key_of(c) == key_of(entry.0) {
            lemma_key_injective(c, entry.0);
            assert(after[n].0 == c);
        } else {
            assert(seen(used, c));
            let q = choose|q: int| base <= q < n && (#[trigger] calls[q]).0 == c;
            assert(after[q].0 == c);
        }
    }
}

/// An edge stays what it was when the history goes on.
proof fn lemma_edge_kept<E>(
    range: RectRange,
    calls: Seq<(Coord, Result<(), E>)>,
    entry: (Coord, Result<(), E>),
    base: int,
    p: int,
    j: int,
)
    requires
        0 <= base,
        j < calls.len(),
        edge_from(range, calls, base, p, j),
    ensures
        edge_from(range, calls.push(entry), base, p, j),
{
    let after = calls.push(entry);
    assert(after[p] == calls[p]);
    assert(after[j] == calls[j]);
    assert forall|q: int| p < q < j && (q - base) % 2 == 0 implies #[trigger] sealed(
        range,
        after,
        base,
        j,
        q,
    ) by {
        assert(sealed(range, calls, base, j, q));
        assert(after[q] == calls[q]);
        assert forall|n: Coord| range.holds(n) && #[trigger] after[q].0.apart(n, 2) implies logged(
            after,
            base,
            j,
            n,
        ) by {
            assert(calls[q].0.apart(n, 2));
            let i = choose|i: int| base <= i < j && i < calls.len() && (#[trigger] calls[i]).0 == n;
            assert(after[i].0 == n);
        }
    }
}

/// What one more entry does to a carving.
proof fn lemma_push<E>(
    range: RectRange,
    calls: Seq<(Coord, Result<(), E>)>,
    base: int,
    entry: (Coord, Result<(), E>),
)
    requires
        growing(range, calls, base),
        calls.last().1.is_ok(),
        range.holds(entry.0),
        !logged(calls, base, calls.len() as int, entry.0),
        grown(range, calls.push(entry), base, calls.len() as int),
    ensures
        growing(range, calls.push(entry), base),
{
    let after = calls.push(entry);
    let n = calls.len() as int;
    assert forall|j: int| base < j < after.len() implies #[trigger] grown(
        range,
        after,
        base,
        j,
    ) by {
        if j < n {
            assert(grown(range, calls, base, j));
            if (j - base) % 2 == 1 {
                let p = choose|p: int| #[trigger] edge_from(range, calls, base, p, j);
                lemma_edge_kept(range, calls, entry, base, p, j);
            } else {
                let p = choose|p: int|
                    base <= p < j - 1 && (p - base) % 2 == 0 && midway(
                        (#[trigger] calls[p]).0,
                        calls[j - 1].0,
                        calls[j].0,
                    );
                assert(midway(after[p].0, after[j - 1].0, after[j].0));
            }
        }
    }
    assert forall|i: int, j: int| base <= i < j < after.len() implies (#[trigger] after[i]).0 != (
    #[trigger] after[j]).0 by {
        if j < n {
            assert(calls[i].0 != calls[j].0);
        } else {
            assert(calls[i].0 != entry.0);
        }
    }
    assert forall|i: int| base <= i < after.len() implies range.holds((#[trigger] after[i]).0) by {
        if i < n {
            assert(range.holds(calls[i].0));
        }
    }
    assert forall|i: int| base <= i < after.len() - 1 && i < after.len() implies (
    #[trigger] after[i]).1.is_ok() by {
        if i < n - 1 {
            assert(calls[i].1.is_ok());
        }
    }
}

/// Every node carved after the one at `place` has no eligible direction.
spec fn all_closed_after<E>(
    range: RectRange,
    used: Set<u64>,
    calls: Seq<(Coord, Result<(), E>)>,
    base: int,
    place: int,
) -> bool {
    forall|q: int|
        place < q < calls.len() && (q - base) % 2 == 0 ==> closed(range, used, (#[trigger] calls[q]).0)
}

/// A carved lattice point stands an even number of places after `base`.
proof fn lemma_node_place<E>(
    range: RectRange,
    used: Set<u64>,
    calls: Seq<(Coord, Result<(), E>)>,
    base: int,
    c: Coord,
) -> (p: int)
    requires
        linked(range, used, calls, base),
        range.on_lattice(c),
        seen(used, c),
    ensures
        base <= p < calls.len(),
        (p - base) % 2 == 0,
        calls[p].0 == c,
{
    reveal(linked);
    assert(logged(calls, base, calls.len() as int, c));
    let p = choose|p: int| base <= p < calls.len() && (#[trigger] calls[p]).0 == c;
    if p > base {
        assert(grown(range, calls, base, p));
    }
    p
}

/// The cell between a carved lattice point and one not yet carved has not
/// been carved either.
proof fn lemma_edge_is_new<E>(
    range: RectRange,
    used: Set<u64>,
    calls: Seq<(Coord, Result<(), E>)>,
    base: int,
    current: Coord,
    middle: Coord,
    next: Coord,
)
    requires
        linked(range, used, calls, base),
        range.on_lattice(current),
        range.holds(next),
        midway(current, middle, next),
        !seen(used, next),
    ensures
        !seen(used, middle),
        !range.on_lattice(middle),
        range.on_lattice(next),
        range.holds(middle),
        current.apart(middle, 1),
        !logged(calls, base, calls.len() as int, middle),
        !logged(calls, base, calls.len() as int, next),
{
    reveal(linked);
    if seen(used, middle) {
        assert(bridges(range, used, middle));
    }
    if logged(calls, base, calls.len() as int, middle) {
        let i = choose|i: int| base <= i < calls.len() && (#[trigger] calls[i]).0 == middle;
        assert(seen(used, calls[i].0));
    }
    if logged(calls, base, calls.len() as int, next) {
        let i = choose|i: int| base <= i < calls.len() && (#[trigger] calls[i]).0 == next;
        assert(seen(used, calls[i].0));
    }
}

/// The carving after the edge to a new node was registered.
proof fn lemma_edge_carved<E>(
    range: RectRange,
    used: Set<u64>,
    calls: Seq<(Coord, Result<(), E>)>,
    base: int,
    current: Coord,
    middle: Coord,
    next: Coord,
    answer: Result<(), E>,
    place: int,
)
    requires
        range.wf(),
        linked(range, used, calls, base),
        range.on_lattice(current),
        seen(used, current),
        range.holds(next),
        midway(current, middle, next),
        !seen(used, next),
        0 <= base <= place < calls.len(),
        calls[place].0 == current,
        all_closed_after(range, used, calls, base, place),
    ensures
        growing(range, calls.push((middle, answer)), base),
{
    lemma_edge_is_new(range, used, calls, base, current, middle, next);
    let p = lemma_node_place(range, used, calls, base, current);
    reveal(linked);
    assert(p == place) by {
        if p < place {
            assert(calls[p].0 != calls[place].0);
        } else if place < p {
            assert(calls[place].0 != calls[p].0);
        }
    }
    let after = calls.push((middle, answer));
    let n = calls.len() as int;
    assert(after[p].0.apart(after[n].0, 1));
    assert forall|q: int| p < q < n && (q - base) % 2 == 0 implies #[trigger] sealed(
        range,
        after,
        base,
        n,
        q,
    ) by {
        let c = calls[q].0;
        assert(after[q] == calls[q]);
        assert(closed(range, used, c));
        assert forall|m: Coord| range.holds(m) && #[trigger] after[q].0.apart(m, 2) implies logged(
            after,
            base,
            n,
            m,
        ) by {
            assert(m == target(c, Direction::Up) || m == target(c, Direction::Right) || m
                == target(c, Direction::Left) || m == target(c, Direction::Down));
            assert(seen(used, m));
            let i = choose|i: int| base <= i < n && (#[trigger] calls[i]).0 == m;
            assert(after[i].0 == m);
        }
    }
    assert(edge_from(range, after, base, p, n));
    assert(edge_at(range, after, base, n));
    lemma_push(range, calls, base, (middle, answer));
}

/// The carving after an edge and its new node were registered.
proof fn lemma_node_carved<E>(
    range: RectRange,
    used: Set<u64>,
    calls: Seq<(Coord, Result<(), E>)>,
    base: int,
    current: Coord,
    middle: Coord,
    next: Coord,
    first: Result<(), E>,
    answer: Result<(), E>,
    place: int,
)
    requires
        range.wf(),
        linked(range, used, calls, base),
        range.on_lattice(current),
        seen(used, current),
        range.holds(next),
        midway(current, middle, next),
        !seen(used, next),
        first.is_ok(),
        0 <= base <= place < calls.len(),
        calls[place].0 == current,
        all_closed_after(range, used, calls, base, place),
    ensures
        growing(range, calls.push((middle, first)).push((next, answer)), base),
        answer.is_ok() ==> linked(
            range,
            used.insert(key_of(middle)).insert(key_of(next)),
            calls.push((middle, first)).push((next, answer)),
            base,
        ),
{
    lemma_edge_is_new(range, used, calls, base, current, middle, next);
    lemma_edge_carved(range, used, calls, base, current, middle, next, first, place);
    let p = lemma_node_place(range, used, calls, base, current);
    reveal(linked);
    let half = calls.push((middle, first));
    let after = half.push((next, answer));
    let used2 = used.insert(key_of(middle)).insert(key_of(next));
    let n = calls.len() as int;
    assert(midway(after[p].0, after[n].0, after[n + 1].0));
    assert(node_at(range, after, base, n + 1));
    assert(!logged(half, base, half.len() as int, next)) by {
        if logged(half, base, half.len() as int, next) {
            let i = choose|i: int| base <= i < half.len() && (#[trigger] half[i]).0 == next;
            if i < n {
                assert(calls[i].0 == next);
            }
        }
    }
    lemma_push(range, half, base, (next, answer));
    if answer.is_ok() {
        assert forall|i: int| base <= i < after.len() implies seen(
            used2,
            (#[trigger] after[i]).0,
        ) by {
            if i < n {
                assert(seen(used, calls[i].0));
            }
        }
        assert forall|c: Coord| #[trigger] seen(used2, c) implies logged(
            after,
            base,
            after.len() as int,
            c,
        ) by {
            if key_of(c) == key_of(next) {
                lemma_key_injective(c, next);
                assert(after[n + 1].0 == c);
            } else if key_of(c) == key_of(middle) {
                lemma_key_injective(c, middle);
                assert(after[n].0 == c);
            } else {
                assert(seen(used, c));
                let q = choose|q: int| base <= q < n && (#[trigger] calls[q]).0 == c;
                assert(after[q].0 == c);
            }
        }
        assert forall|c: Coord| seen(used2, c) && !range.on_lattice(c) implies #[trigger] bridges(
            range,
            used2,
            c,
        ) by {
            if key_of(c) == key_of(next) {
                lemma_key_injective(c, next);
            } else if key_of(c) == key_of(middle) {
                lemma_key_injective(c, middle);
                assert(seen(used2, current));
                assert(seen(used2, next));
            } else {
                assert(seen(used, c));
                assert(bridges(range, used, c));
            }
        }
    }
}

/// Hands one carved coordinate to the sink. The history stays what the
/// sink went through, call by call, from `base` on.
fn hand_over<F: Register>(
    register: &mut Trace<F>,
    cd: Coord,
    Ghost(first): Ghost<F>,
    Ghost(base): Ghost<int>,
) -> (r: Result<(), F::Error>)
    requires
        0 <= base <= old(register).calls().len(),
        old(register).states().len() == old(register).calls().len(),
        old(register).sink_spec() == before(first, old(register).states(), base, old(register).calls().len() as int),
        forall|i: int|
            #[trigger] placed(old(register).calls(), base, i) ==> ({
                let c = old(register).calls()[i];
                let found = before(first, old(register).states(), base, i);
                let left = old(register).states()[i];
                exists|m: &mut F|
                    #![trigger call_ensures(F::register, (m, c.0), c.1)]
                    *m == found && *final(m) == left && call_ensures(F::register, (m, c.0), c.1)
            }),
    ensures
        final(register).calls() == old(register).calls().push((cd, r)),
        final(register).states().len() == final(register).calls().len(),
        final(register).sink_spec() == before(first, final(register).states(), base, final(register).calls().len() as int),
        forall|i: int|
            #[trigger] placed(final(register).calls(), base, i) ==> ({
                let c = final(register).calls()[i];
                let found = before(first, final(register).states(), base, i);
                let left = final(register).states()[i];
                exists|m: &mut F|
                    #![trigger call_ensures(F::register, (m, c.0), c.1)]
                    *m == found && *final(m) == left && call_ensures(F::register, (m, c.0), c.1)
            }),
{
    let ghost calls0 = register.calls();
    let ghost states0 = register.states();
    let ghost sink0 = register.sink_spec();
    let r = register.register(cd);
    proof {
        let calls1 = register.calls();
        let states1 = register.states();
        let n = calls0.len() as int;
        assert forall|i: int|
            #[trigger] placed(calls1, base, i) implies ({
                let c = calls1[i];
                let found = before(first, states1, base, i);
                let left = states1[i];
                exists|m: &mut F|
                    #![trigger call_ensures(F::register, (m, c.0), c.1)]
                    *m == found && *final(m) == left && call_ensures(F::register, (m, c.0), c.1)
            }) by {
            if i < n {
                assert(placed(calls0, base, i));
                assert(calls1[i] == calls0[i]);
                assert(states1[i] == states0[i]);
                assert(before(first, states1, base, i) == before(first, states0, base, i));
                let c = calls0[i];
                let m = choose|m: &mut F|
                    #![trigger call_ensures(F::register, (m, c.0), c.1)]
                    *m == before(first, states0, base, i) && *final(m) == states0[i]
                        && call_ensures(F::register, (m, c.0), c.1);
                assert(call_ensures(F::register, (m, calls1[i].0), calls1[i].1));
            } else {
                assert(i == n);
                assert(calls1[n] == (cd, r));
                assert(states1[n] == register.sink_spec());
                assert(before(first, states1, base, n) == sink0);
                let m = choose|m: &mut F|
                    #![trigger call_ensures(F::register, (m, cd), r)]
                    *m == sink0 && *final(m) == register.sink_spec() && call_ensures(
                        F::register,
                        (m, cd),
                        r,
                    );
                assert(call_ensures(F::register, (m, calls1[n].0), calls1[n].1));
            }
        }
    }
    r
}

/// The eligible directions at `c` among the first `n` of the scanning
/// order, in that order.
spec fn eligible(range: RectRange, used: Set<u64>, c: Coord, n: nat) -> Seq<Direction>
    decreases n,
{
    if n == 0 {
        Seq::empty()
    } else {
        let rest = eligible(range, used, c, (n - 1) as nat);
        if open_way(range, used, c, Direction::nth(n - 1)) {
            rest.push(Direction::nth(n - 1))
        } else {
            rest
        }
    }
}

/// A picked direction together with the point two steps away in it.
spec fn with_target(pick: Option<Direction>, c: Coord) -> Option<(Direction, Coord)> {
    match pick {
        Some(d) => Some((d, target(c, d))),
        None => None,
    }
}

/// Scans the four directions in their fixed order and picks one of the
/// eligible ones: the source is asked once for each eligible direction,
/// with 1 for the first, 2 for the second and so on, and the i-th eligible
/// direction replaces the choice made so far where the draw with
/// probability `1 / i` succeeds. Returns the direction together with the
/// point two steps away, or `None` where no direction is eligible; beside
/// it the outcomes of the draws and the source before and after each.
fn pick_direction<R: RandomSource>(
    range: &RectRange,
    rng: &mut R,
    used: &HashSet<u64>,
    current: Coord,
) -> (r: (Option<(Direction, Coord)>, Ghost<Seq<bool>>, Ghost<Seq<R>>))
    requires
        range.wf(),
    ensures
        match r.0 {
            Some((d, next)) => open_way(*range, used@, current, d) && next == target(current, d),
            None => closed(*range, used@, current) && *final(rng) == *old(rng),
        },
        r.1@.len() == eligible(*range, used@, current, 4).len(),
        r.2@.len() == r.1@.len() + 1,
        r.2@[0] == *old(rng),
        r.2@.last() == *final(rng),
        forall|n: u32|
            #[trigger] drawn(r.1@.len() as int, n) ==> ({
                let found = r.2@[n - 1];
                let left = r.2@[n as int];
                let hit = r.1@[n - 1];
                exists|m: &mut R|
                    #![trigger call_ensures(R::does_happen, (m, n), hit)]
                    *m == found && *final(m) == left && call_ensures(R::does_happen, (m, n), hit)
            }),
        r.0 == with_target(
            picked(eligible(*range, used@, current, 4), r.1@, r.1@.len()),
            current,
        ),
{
    let mut choice: Option<(Direction, Coord)> = None;
    let mut count: u32 = 0;
    let mut i: usize = 0;
    let ghost mut hits: Seq<bool> = Seq::empty();
    let ghost mut states: Seq<R> = seq![*rng];
    while i < 4
        invariant
            i <= 4,
            count <= i,
            range.wf(),
            (count == 0) == choice.is_none(),
            choice matches Some((d, next)) ==> open_way(*range, used@, current, d) && next
                == target(current, d),
            choice.is_none() ==> forall|j: int|
                0 <= j < i ==> !open_way(*range, used@, current, #[trigger] Direction::nth(j)),
            hits.len() == count,
            states.len() == count + 1,
            eligible(*range, used@, current, i as nat).len() == count,
            states[0] == *old(rng),
            states.last() == *rng,
            forall|n: u32|
                #[trigger] drawn(count as int, n) ==> ({
                    let found = states[n - 1];
                    let left = states[n as int];
                    let hit = hits[n - 1];
                    exists|m: &mut R|
                        #![trigger call_ensures(R::does_happen, (m, n), hit)]
                        *m == found && *final(m) == left && call_ensures(
                            R::does_happen,
                            (m, n),
                            hit,
                        )
                }),
            choice == with_target(
                picked(eligible(*range, used@, current, i as nat), hits, count as nat),
                current,
            ),
        decreases 4 - i,
    {
        let dir = Direction::from_index(i);
        let mut eligible = false;
        let mut next = current;
        match current.step(dir, 2) {
            Some(cd) => {
                if range.contains(cd) {
                    let k = key(cd);
                    if !used.contains(&k) {
                        eligible = true;
                        next = cd;
                    }
                }
            },
            None => {},
        }
        assert(eligible == open_way(*range, used@, current, dir));
        let ghost scanned = self::eligible(*range, used@, current, i as nat);
        if eligible {
            let ghost found = *rng;
            let ghost hits0 = hits;
            let ghost states0 = states;
            count += 1;
            let hit = rng.does_happen(count);
            choice = keep_or_replace(choice, count, (dir, next), hit);
            proof {
                hits = hits0.push(hit);
                states = states0.push(*rng);
                let longer = scanned.push(dir);
                lemma_picked_prefix(scanned, hits0, longer, hits, (count - 1) as nat);
                assert forall|n: u32| #[trigger] drawn(count as int, n) implies ({
                    let found = states[n - 1];
                    let left = states[n as int];
                    let hit = hits[n - 1];
                    exists|m: &mut R|
                        #![trigger call_ensures(R::does_happen, (m, n), hit)]
                        *m == found && *final(m) == left && call_ensures(
                            R::does_happen,
                            (m, n),
                            hit,
                        )
                }) by {
                    if n < count {
                        assert(drawn(count - 1, n));
                        let h = hits0[n - 1];
                        let m = choose|m: &mut R|
                            #![trigger call_ensures(R::does_happen, (m, n), h)]
                            *m == states0[n - 1] && *final(m) == states0[n as int] && call_ensures(
                                R::does_happen,
                                (m, n),
                                h,
                            );
                        assert(call_ensures(R::does_happen, (m, n), hits[n - 1]));
                    } else {
                        let m = choose|m: &mut R|
                            #![trigger call_ensures(R::does_happen, (m, count), hit)]
                            *m == found && *final(m) == *rng && call_ensures(
                                R::does_happen,
                                (m, count),
                                hit,
                            );
                        assert(call_ensures(R::does_happen, (m, n), hits[n - 1]));
                    }
                }
            }
        }
        i += 1;
    }
    proof {
        if choice.is_none() {
            assert(Direction::nth(0) == Direction::Up);
            assert(Direction::nth(1) == Direction::Right);
            assert(Direction::nth(2) == Direction::Left);
            assert(Direction::nth(3) == Direction::Down);
        }
    }
    (choice, Ghost(hits), Ghost(states))
}

/// Carves the way from `current` to `next`, two steps away: the cell
/// between them and then `next` itself, each handed to the sink where it
/// is new to the set of carved cells.
fn carve_pair<F: Register>(
    range: RectRange,
    register: &mut Trace<F>,
    used: &mut HashSet<u64>,
    middle: Coord,
    next: Coord,
    Ghost(base): Ghost<int>,
    Ghost(current): Ghost<Coord>,
    Ghost(place): Ghost<int>,
    Ghost(first): Ghost<F>,
) -> (r: Result<(), DigError<F::Error>>)
    requires
        old(register).states().len() == old(register).calls().len(),
        old(register).sink_spec() == before(first, old(register).states(), base, old(register).calls().len() as int),
        forall|i: int|
            #[trigger] placed(old(register).calls(), base, i) ==> ({
                let c = old(register).calls()[i];
                let found = before(first, old(register).states(), base, i);
                let left = old(register).states()[i];
                exists|m: &mut F|
                    #![trigger call_ensures(F::register, (m, c.0), c.1)]
                    *m == found && *final(m) == left && call_ensures(F::register, (m, c.0), c.1)
            }),
        range.wf(),
        linked(range, old(used)@, old(register).calls(), base),
        range.on_lattice(current),
        seen(old(used)@, current),
        range.holds(next),
        midway(current, middle, next),
        !seen(old(used)@, next),
        0 <= base <= place < old(register).calls().len(),
        old(register).calls()[place].0 == current,
        all_closed_after(range, old(used)@, old(register).calls(), base, place),
    ensures
        final(register).states().len() == final(register).calls().len(),
        final(register).sink_spec() == before(first, final(register).states(), base, final(register).calls().len() as int),
        forall|i: int|
            #[trigger] placed(final(register).calls(), base, i) ==> ({
                let c = final(register).calls()[i];
                let found = before(first, final(register).states(), base, i);
                let left = final(register).states()[i];
                exists|m: &mut F|
                    #![trigger call_ensures(F::register, (m, c.0), c.1)]
                    *m == found && *final(m) == left && call_ensures(F::register, (m, c.0), c.1)
            }),
        mirrors(final(used)@, final(register).calls(), base),
        r.is_ok() ==> final(register).calls().len() == old(register).calls().len() + 2,
        r.is_ok() ==> final(register).calls().last().0 == next,
        old(used)@.subset_of(final(used)@),
        extends(final(register).calls(), old(register).calls()),
        range.on_lattice(next),
        r.is_ok() ==> final(used)@ == old(used)@.insert(key_of(middle)).insert(key_of(next)),
        r.is_ok() ==> linked(range, final(used)@, final(register).calls(), base),
        r matches Err(e) ==> {
            &&& growing(range, final(register).calls(), base)
            &&& final(register).calls().len() > base + 1
            &&& final(register).calls().last().1 == Err::<(), F::Error>(e.cause)
            &&& e.trail@ == seq![DigSite::DigImpl]
        },
{
    let ghost calls0 = register.calls();
    let ghost used0 = used@;
    proof {
        lemma_edge_is_new(range, used0, calls0, base, current, middle, next);
        if key_of(middle) == key_of(next) {
            lemma_key_injective(middle, next);
        }
        assert(mirrors(used0, calls0, base)) by {
            reveal(linked);
        }
    }
    if used.insert(key(middle)) {
        let answer = hand_over(register, middle, Ghost(first), Ghost(base));
        proof {
            lemma_edge_carved(range, used0, calls0, base, current, middle, next, answer, place);
            lemma_mirror_push(used0, calls0, base, (middle, answer));
        }
        match answer {
            Ok(()) => {},
            Err(e) => {
                let mut trail: Vec<DigSite> = Vec::new();
                trail.push(DigSite::DigImpl);
                return Err(DigError { cause: e, trail });
            },
        }
    }
    let ghost calls1 = register.calls();
    if used.insert(key(next)) {
        let answer = hand_over(register, next, Ghost(first), Ghost(base));
        proof {
            lemma_node_carved(
                range,
                used0,
                calls0,
                base,
                current,
                middle,
                next,
                calls1.last().1,
                answer,
                place,
            );
            assert(used@ =~= used0.insert(key_of(middle)).insert(key_of(next)));
            lemma_mirror_push(used0.insert(key_of(middle)), calls1, base, (next, answer));
        }
        match answer {
            Ok(()) => {},
            Err(e) => {
                let mut trail: Vec<DigSite> = Vec::new();
                trail.push(DigSite::DigImpl);
                return Err(DigError { cause: e, trail });
            },
        }
    }
    Ok(())
}

/// Carves from `current` until no direction is eligible there: picks a
/// direction, carves the two cells that lead to the point two steps away,
/// carves on from that point, and then looks for another way from
/// `current`.
fn dig_impl<R: RandomSource, F: Register>(
    range: RectRange,
    rng: &mut R,
    register: &mut Trace<F>,
    used: &mut HashSet<u64>,
    current: Coord,
    Ghost(base): Ghost<int>,
    Ghost(place): Ghost<int>,
    Ghost(first): Ghost<F>,
) -> (r: Result<(), DigError<F::Error>>)
    requires
        old(register).states().len() == old(register).calls().len(),
        old(register).sink_spec() == before(first, old(register).states(), base, old(register).calls().len() as int),
        forall|i: int|
            #[trigger] placed(old(register).calls(), base, i) ==> ({
                let c = old(register).calls()[i];
                let found = before(first, old(register).states(), base, i);
                let left = old(register).states()[i];
                exists|m: &mut F|
                    #![trigger call_ensures(F::register, (m, c.0), c.1)]
                    *m == found && *final(m) == left && call_ensures(F::register, (m, c.0), c.1)
            }),
        range.wf(),
        linked(range, old(used)@, old(register).calls(), base),
        range.on_lattice(current),
        seen(old(used)@, current),
        0 <= base <= place < old(register).calls().len(),
        old(register).calls()[place].0 == current,
        all_closed_after(range, old(used)@, old(register).calls(), base, place),
    ensures
        final(register).states().len() == final(register).calls().len(),
        final(register).sink_spec() == before(first, final(register).states(), base, final(register).calls().len() as int),
        forall|i: int|
            #[trigger] placed(final(register).calls(), base, i) ==> ({
                let c = final(register).calls()[i];
                let found = before(first, final(register).states(), base, i);
                let left = final(register).states()[i];
                exists|m: &mut F|
                    #![trigger call_ensures(F::register, (m, c.0), c.1)]
                    *m == found && *final(m) == left && call_ensures(F::register, (m, c.0), c.1)
            }),
        extends(final(register).calls(), old(register).calls()),
        old(used)@.subset_of(final(used)@),
        mirrors(final(used)@, final(register).calls(), base),
        closed(range, old(used)@, current) ==> {
            &&& r.is_ok()
            &&& *final(rng) == *old(rng)
            &&& final(used)@ == old(used)@
            &&& final(register).calls() == old(register).calls()
        },
        r.is_ok() ==> {
            &&& linked(range, final(used)@, final(register).calls(), base)
            &&& closed(range, final(used)@, current)
            &&& all_closed_after(range, final(used)@, final(register).calls(), base, place)
        },
        r matches Err(e) ==> {
            &&& growing(range, final(register).calls(), base)
            &&& final(register).calls().len() > base + 1
            &&& final(register).calls().last().1 == Err::<(), F::Error>(e.cause)
            &&& e.trail@ == seq![DigSite::DigImpl]
        },
    decreases unseen(old(used)@).len(),
{
    let ghost used0 = used@;
    let ghost calls0 = register.calls();
    let ghost rng0 = *rng;
    loop
        invariant
            rng0 == *old(rng),
            !closed(range, used0, current) || (*rng == rng0 && used@ == used0 && register.calls()
                == calls0),
            register.states().len() == register.calls().len(),
            register.sink_spec() == before(first, register.states(), base, register.calls().len() as int),
            forall|i: int|
            #[trigger] placed(register.calls(), base, i) ==> ({
                let c = register.calls()[i];
                let found = before(first, register.states(), base, i);
                let left = register.states()[i];
                exists|m: &mut F|
                    #![trigger call_ensures(F::register, (m, c.0), c.1)]
                    *m == found && *final(m) == left && call_ensures(F::register, (m, c.0), c.1)
            }),
            range.wf(),
            range.on_lattice(current),
            seen(used@, current),
            linked(range, used@, register.calls(), base),
            extends(register.calls(), calls0),
            used0.subset_of(used@),
            calls0 == old(register).calls(),
            used0 == old(used)@,
            0 <= base <= place < calls0.len(),
            calls0[place].0 == current,
            all_closed_after(range, used@, register.calls(), base, place),
        ensures
            closed(range, used@, current),
        decreases unseen(used@).len(),
    {
        let (picked, _, _) = pick_direction(&range, rng, used, current);
        let (dir, next) = match picked {
            Some(p) => p,
            None => {
                break ;
            },
        };
        let middle = current.moved(dir, 1);
        let ghost used1 = used@;
        let ghost calls1 = register.calls();
        match carve_pair(
            range,
            register,
            used,
            middle,
            next,
            Ghost(base),
            Ghost(current),
            Ghost(place),
            Ghost(first),
        ) {
            Ok(()) => {},
            Err(e) => {
                return Err(e);
            },
        }
        let ghost used2 = used@;
        let ghost calls2 = register.calls();
        proof {
            lemma_unseen_shrinks(used0, used1);
            lemma_unseen_shrinks(used1, used2);
            assert(used2.contains(key_of(next)) && !used1.contains(key_of(next)));
            assert(all_closed_after(range, used2, calls2, base, calls2.len() - 1));
        }
        match dig_impl(
            range,
            rng,
            register,
            used,
            next,
            Ghost(base),
            Ghost(calls2.len() - 1),
            Ghost(first),
        ) {
            Ok(()) => {},
            Err(e) => {
                return Err(e);
            },
        }
        proof {
            lemma_unseen_shrinks(used2, used@);
            let calls3 = register.calls();
            assert forall|q: int|
                place < q < calls3.len() && (q - base) % 2 == 0 implies closed(
                range,
                used@,
                (#[trigger] calls3[q]).0,
            ) by {
                if q < calls1.len() {
                    assert(calls3[q] == calls2[q]);
                    assert(calls2[q] == calls1[q]);
                    assert(closed(range, used1, calls1[q].0));
                } else if q == calls1.len() {
                    assert(linked(range, used1, calls1, base));
                    reveal(linked);
                } else if q == calls1.len() + 1 {
                    assert(calls3[q] == calls2[q]);
                }
            }
        }
    }
    proof {
        assert(mirrors(used@, register.calls(), base)) by {
            reveal(linked);
        }
    }
    Ok(())
}

/// Where every carved lattice point has no eligible direction left, the
/// carving has reached the lattice point `i` double steps right of the
/// corner and `j` double steps below it.
proof fn lemma_all_reached(range: RectRange, used: Set<u64>, i: nat, j: nat)
    requires
        range.wf(),
        seen(used, range.corner()),
        forall|c: Coord| range.on_lattice(c) && seen(used, c) ==> #[trigger] closed(range, used, c),
        range.x_start() + 2 * i < range.x_end(),
        range.y_start() + 2 * j < range.y_end(),
    ensures
        seen(
            used,
            Coord { x: (range.x_start() + 2 * i) as i32, y: (range.y_start() + 2 * j) as i32 },
        ),
    decreases i + j,
{
    if i > 0 {
        lemma_all_reached(range, used, (i - 1) as nat, j);
        let p = Coord {
            x: (range.x_start() + 2 * (i - 1)) as i32,
            y: (range.y_start() + 2 * j) as i32,
        };
        assert(range.on_lattice(p));
        assert(closed(range, used, p));
        assert(!open_way(range, used, p, Direction::Right));
    } else if j > 0 {
        lemma_all_reached(range, used, i, (j - 1) as nat);
        let p = Coord {
            x: (range.x_start() + 2 * i) as i32,
            y: (range.y_start() + 2 * (j - 1)) as i32,
        };
        assert(range.on_lattice(p));
        assert(closed(range, used, p));
        assert(!open_way(range, used, p, Direction::Down));
    }
}

/// Digs a maze into `range`, starting at its upper left corner.
///
/// Every carved cell is handed to `register` once, the corner first. The
/// cells two steps apart are the corridor's nodes, the cells between them
/// its edges; a node is entered once, so the corridors form a tree that
/// reaches every lattice point of the range. The carving goes on from the
/// newest node that has an eligible direction left, and `rng` decides
/// which of the eligible directions it takes; where the range has no
/// second lattice point, `rng` is not asked. Each registration is one call
/// of the sink's `register`, made on the sink as the call before left it. The first registration that
/// fails ends the carving, and its error comes back with the sites it
/// passed through; what was registered before stays registered.
pub fn dig_maze<R: RandomSource, F: Register>(
    range: RectRange,
    rng: &mut R,
    register: &mut Trace<F>,
) -> (r: Result<(), DigError<F::Error>>)
    requires
        range.wf(),
    ensures
        final(register).states().len() == final(register).calls().len(),
        final(register).sink_spec() == final(register).states().last(),
        forall|i: int|
            #[trigger] placed(final(register).calls(), old(register).calls().len() as int, i) ==> ({
                let c = final(register).calls()[i];
                let found = before(old(register).sink_spec(), final(register).states(), old(register).calls().len() as int, i);
                let left = final(register).states()[i];
                exists|m: &mut F|
                    #![trigger call_ensures(F::register, (m, c.0), c.1)]
                    *m == found && *final(m) == left && call_ensures(F::register, (m, c.0), c.1)
            }),
        range.x_end() - range.x_start() <= 2 && range.y_end() - range.y_start() <= 2 ==> {
            &&& *final(rng) == *old(rng)
            &&& final(register).calls().len() == old(register).calls().len() + 1
        },
        extends(final(register).calls(), old(register).calls()),
        carving(range, final(register).calls(), old(register).calls().len() as int),
        r.is_ok() <==> final(register).calls().last().1.is_ok(),
        r.is_ok() ==> covers(range, final(register).calls(), old(register).calls().len() as int),
        r.is_ok() ==> final(register).calls().len() - old(register).calls().len() == 2
            * lattice_count(range) - 1,
        r matches Err(e) ==> {
            &&& final(register).calls().last().1 == Err::<(), F::Error>(e.cause)
            &&& e.trail@ == if final(register).calls().len() == old(register).calls().len() + 1 {
                seq![DigSite::DigMaze]
            } else {
                seq![DigSite::DigImpl, DigSite::DigMaze]
            }
        },
{
    let ghost calls0 = register.calls();
    let ghost base = calls0.len() as int;
    let mut used: HashSet<u64> = HashSet::new();
    let start = range.upper_left();
    let ghost sink0 = register.sink_spec();
    proof {
        register.lemma_one_state_each();
    }
    let first = hand_over(register, start, Ghost(sink0), Ghost(base));
    proof {
        let calls1 = register.calls();
        assert(calls1[base] == (start, first));
        assert(carving(range, calls1, base));
    }
    match first {
        Ok(()) => {},
        Err(e) => {
            let mut trail: Vec<DigSite> = Vec::new();
            trail.push(DigSite::DigMaze);
            return Err(DigError { cause: e, trail });
        },
    }
    used.insert(key(start));
    let ghost used1 = used@;
    proof {
        reveal(linked);
        let calls1 = register.calls();
        assert forall|c: Coord| #[trigger] seen(used1, c) implies logged(
            calls1,
            base,
            calls1.len() as int,
            c,
        ) by {
            lemma_key_injective(c, start);
            assert(calls1[base].0 == c);
        }
        assert(linked(range, used1, calls1, base));
    }
    match dig_impl(
        range,
        rng,
        register,
        &mut used,
        start,
        Ghost(base),
        Ghost(base),
        Ghost(sink0),
    ) {
        Ok(()) => {
            proof {
                reveal(linked);
                let calls = register.calls();
                assert forall|c: Coord| range.on_lattice(c) && seen(used@, c) implies #[trigger] closed(
                    range,
                    used@,
                    c,
                ) by {
                    let q = lemma_node_place(range, used@, calls, base, c);
                    assert(closed(range, used@, calls[q].0));
                }
                assert forall|c: Coord| #[trigger] range.on_lattice(c) implies logged(
                    calls,
                    base,
                    calls.len() as int,
                    c,
                ) by {
                    let i = (c.x - range.x_start()) / 2;
                    let j = (c.y - range.y_start()) / 2;
                    lemma_all_reached(range, used@, i as nat, j as nat);
                    assert(seen(used@, c));
                }
                lemma_carving_size(range, calls, base);
            }
            Ok(())
        },
        Err(e) => {
            let DigError { cause, trail } = e;
            let mut trail = trail;
            trail.push(DigSite::DigMaze);
            Err(DigError { cause, trail })
        },
    }
}

/// The coordinates of the history from `base` up to `upto`, in order.
pub open spec fn coords<E>(calls: Seq<(Coord, Result<(), E>)>, base: int, upto: int) -> Seq<Coord> {
    Seq::new((upto - base) as nat, |k: int| calls[base + k].0)
}

/// A list of coordinates that went through a history as its sink holds
/// what it held before, and after that the coordinates of the history in
/// their order; and it refused none of them.
pub proof fn lemma_list_holds_history(
    first: Vec<Coord>,
    calls: Seq<(Coord, Result<(), ()>)>,
    states: Seq<Vec<Coord>>,
    base: int,
    upto: int,
)
    requires
        0 <= base < upto <= calls.len(),
        states.len() == calls.len(),
        forall|i: int|
            #[trigger] placed(calls, base, i) ==> ({
                let c = calls[i];
                let found = before(first, states, base, i);
                let left = states[i];
                exists|m: &mut Vec<Coord>|
                    #![trigger call_ensures(<Vec<Coord> as Register>::register, (m, c.0), c.1)]
                    *m == found && *final(m) == left && call_ensures(
                        <Vec<Coord> as Register>::register,
                        (m, c.0),
                        c.1,
                    )
            }),
    ensures
        states[upto - 1]@ == first@ + coords(calls, base, upto),
        forall|i: int| base <= i < upto ==> (#[trigger] calls[i]).1.is_ok(),
    decreases upto - base,
{
    assert(placed(calls, base, upto - 1));
    if upto - 1 > base {
        lemma_list_holds_history(first, calls, states, base, upto - 1);
        assert(states[upto - 1]@ == states[upto - 2]@.push(calls[upto - 1].0));
        assert(states[upto - 1]@ =~= first@ + coords(calls, base, upto));
    } else {
        assert(states[base]@ == first@.push(calls[base].0));
        assert(states[base]@ =~= first@ + coords(calls, base, upto));
    }
}

} // verus!
