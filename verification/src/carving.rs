//! What a carving is: the properties of the history of registrations that
//! a maze carver leaves behind, and what follows from them.
//!
//! A history is a sequence of coordinates, each with the answer of the sink
//! it was handed to. The carving is the part of it from a position `base`
//! on: the node at `base`, and after it edges and nodes in turn.
use crate::coord::{Coord, RectRange};
use vstd::arithmetic::div_mod::{lemma_fundamental_div_mod, lemma_fundamental_div_mod_converse};
use vstd::prelude::*;
use vstd::relations::injective_on;
use vstd::set_lib::{lemma_int_range, lemma_map_size, set_int_range};

verus! {

/// The entries of `calls` from `base` on all lie inside `range`.
pub open spec fn in_bounds<E>(
    range: RectRange,
    calls: Seq<(Coord, Result<(), E>)>,
    base: int,
) -> bool {
    forall|i: int| base <= i < calls.len() ==> range.holds((#[trigger] calls[i]).0)
}

/// No coordinate occurs twice in `calls` from `base` on.
pub open spec fn distinct<E>(calls: Seq<(Coord, Result<(), E>)>, base: int) -> bool {
    forall|i: int, j: int|
        base <= i < j < calls.len() ==> (#[trigger] calls[i]).0 != (#[trigger] calls[j]).0
}

/// `c` was handed over at or after position `base`, and before `upto`.
pub open spec fn logged<E>(
    calls: Seq<(Coord, Result<(), E>)>,
    base: int,
    upto: int,
    c: Coord,
) -> bool {
    exists|i: int| base <= i < upto && i < calls.len() && (#[trigger] calls[i]).0 == c
}

/// `m` is the cell between `a` and `b`, which lie two steps apart.
pub open spec fn midway(a: Coord, m: Coord, b: Coord) -> bool {
    a.apart(b, 2) && a.x + b.x == 2 * m.x && a.y + b.y == 2 * m.y
}

/// The node at `q` has no way left before `upto`: every point of the range
/// two steps from it was handed over by then.
pub open spec fn sealed<E>(
    range: RectRange,
    calls: Seq<(Coord, Result<(), E>)>,
    base: int,
    upto: int,
    q: int,
) -> bool {
    forall|n: Coord|
        range.holds(n) && #[trigger] calls[q].0.apart(n, 2) ==> logged(calls, base, upto, n)
}

/// The edge at `j` starts at the node at `p`, and every node carved between
/// the two had no way left when the edge was carved: the carving went as
/// deep as it could before it came back to `p`.
pub open spec fn edge_from<E>(
    range: RectRange,
    calls: Seq<(Coord, Result<(), E>)>,
    base: int,
    p: int,
    j: int,
) -> bool {
    &&& base <= p < j
    &&& (p - base) % 2 == 0
    &&& calls[p].0.apart(calls[j].0, 1)
    &&& forall|q: int|
        p < q < j && (q - base) % 2 == 0 ==> #[trigger] sealed(range, calls, base, j, q)
}

/// The entry at `j` is an edge of the corridor: a cell off the lattice,
/// one step from a node carved before it.
pub open spec fn edge_at<E>(
    range: RectRange,
    calls: Seq<(Coord, Result<(), E>)>,
    base: int,
    j: int,
) -> bool {
    &&& !range.on_lattice(calls[j].0)
    &&& exists|p: int| #[trigger] edge_from(range, calls, base, p, j)
}

/// The entry at `j` is a node of the corridor: a lattice point, joined by
/// the edge carved just before it to a node carved earlier.
pub open spec fn node_at<E>(
    range: RectRange,
    calls: Seq<(Coord, Result<(), E>)>,
    base: int,
    j: int,
) -> bool {
    &&& range.on_lattice(calls[j].0)
    &&& exists|p: int|
        base <= p < j - 1 && (p - base) % 2 == 0 && midway(
            (#[trigger] calls[p]).0,
            calls[j - 1].0,
            calls[j].0,
        )
}

/// The entry at `j` is an edge where it stands an odd number of places
/// after `base`, a node where the number is even.
pub open spec fn grown<E>(
    range: RectRange,
    calls: Seq<(Coord, Result<(), E>)>,
    base: int,
    j: int,
) -> bool {
    if (j - base) % 2 == 1 {
        edge_at(range, calls, base, j)
    } else {
        node_at(range, calls, base, j)
    }
}

/// After the node at `base`, edges and nodes alternate, and each pair of
/// them joins one new node to an earlier one: the corridors form a tree.
pub open spec fn tree_shaped<E>(
    range: RectRange,
    calls: Seq<(Coord, Result<(), E>)>,
    base: int,
) -> bool {
    forall|j: int| base < j < calls.len() ==> #[trigger] grown(range, calls, base, j)
}

/// The entries from `base` up to `upto` were all accepted.
pub open spec fn all_accepted<E>(calls: Seq<(Coord, Result<(), E>)>, base: int, upto: int) -> bool {
    forall|i: int| base <= i < upto && i < calls.len() ==> (#[trigger] calls[i]).1.is_ok()
}

/// `later` continues the history `earlier`.
pub open spec fn extends<E>(
    later: Seq<(Coord, Result<(), E>)>,
    earlier: Seq<(Coord, Result<(), E>)>,
) -> bool {
    &&& earlier.len() <= later.len()
    &&& forall|i: int| 0 <= i < earlier.len() ==> #[trigger] later[i] == earlier[i]
}

/// What holds of a carving from any lattice point at every moment: it
/// starts at a node, stays inside the range, hands no coordinate over
/// twice, grows as a tree, and no registration before the last has failed.
pub open spec fn growing<E>(
    range: RectRange,
    calls: Seq<(Coord, Result<(), E>)>,
    base: int,
) -> bool {
    &&& 0 <= base < calls.len()
    &&& range.on_lattice(calls[base].0)
    &&& in_bounds(range, calls, base)
    &&& distinct(calls, base)
    &&& tree_shaped(range, calls, base)
    &&& all_accepted(calls, base, calls.len() - 1)
}

/// What holds of a carving at every moment, finished or not: it starts at
/// the corner, stays inside the range, hands no coordinate over twice,
/// grows as a tree, and no registration before the last has failed.
pub open spec fn carving<E>(
    range: RectRange,
    calls: Seq<(Coord, Result<(), E>)>,
    base: int,
) -> bool {
    &&& growing(range, calls, base)
    &&& calls[base].0 == range.corner()
}

/// Every lattice point of `range` was handed over at or after `base`.
pub open spec fn covers<E>(
    range: RectRange,
    calls: Seq<(Coord, Result<(), E>)>,
    base: int,
) -> bool {
    forall|c: Coord| #[trigger] range.on_lattice(c) ==> logged(calls, base, calls.len() as int, c)
}

/// The coordinates handed over at or after `base` and before `upto`.
pub open spec fn carved_set<E>(calls: Seq<(Coord, Result<(), E>)>, base: int, upto: int) -> Set<
    Coord,
> {
    Set::new(|c: Coord| logged(calls, base, upto, c))
}

/// Where no coordinate was handed over twice, there are as many carved
/// coordinates as there were registrations.
pub proof fn lemma_carved_count<E>(calls: Seq<(Coord, Result<(), E>)>, base: int, upto: int)
    requires
        distinct(calls, base),
        0 <= base <= upto <= calls.len(),
    ensures
        carved_set(calls, base, upto).finite(),
        carved_set(calls, base, upto).len() == upto - base,
    decreases upto - base,
{
    if upto == base {
        assert(carved_set(calls, base, upto) =~= Set::empty());
    } else {
        lemma_carved_count(calls, base, upto - 1);
        let before = carved_set(calls, base, upto - 1);
        let last = calls[upto - 1].0;
        assert(!before.contains(last)) by {
            if before.contains(last) {
                let i = choose|i: int|
                    base <= i < upto - 1 && i < calls.len() && (#[trigger] calls[i]).0 == last;
                assert(calls[i].0 != calls[upto - 1].0);
            }
        }
        assert forall|c: Coord| carved_set(calls, base, upto).contains(c) implies before.insert(
            last,
        ).contains(c) by {
            let i = choose|i: int|
                base <= i < upto && i < calls.len() && (#[trigger] calls[i]).0 == c;
            if i < upto - 1 {
                assert(logged(calls, base, upto - 1, c));
            }
        }
        assert forall|c: Coord| before.insert(last).contains(c) implies carved_set(
            calls,
            base,
            upto,
        ).contains(c) by {
            if c == last {
                assert(calls[upto - 1].0 == c);
            } else {
                let i = choose|i: int|
                    base <= i < upto - 1 && i < calls.len() && (#[trigger] calls[i]).0 == c;
                assert(calls[i].0 == c);
            }
        }
        assert(carved_set(calls, base, upto) =~= before.insert(last));
    }
}

/// In a finished carving every lattice point of the range was handed over
/// at exactly one place.
pub proof fn lemma_carved_exactly_once<E>(
    range: RectRange,
    calls: Seq<(Coord, Result<(), E>)>,
    base: int,
    c: Coord,
) -> (i: int)
    requires
        carving(range, calls, base),
        covers(range, calls, base),
        range.on_lattice(c),
    ensures
        base <= i < calls.len(),
        calls[i].0 == c,
        forall|j: int| base <= j < calls.len() && (#[trigger] calls[j]).0 == c ==> j == i,
{
    assert(logged(calls, base, calls.len() as int, c));
    let i = choose|i: int| base <= i < calls.len() && (#[trigger] calls[i]).0 == c;
    assert forall|j: int| base <= j < calls.len() && (#[trigger] calls[j]).0 == c implies j
        == i by {
        if j < i {
            assert(calls[j].0 != calls[i].0);
        } else if i < j {
            assert(calls[i].0 != calls[j].0);
        }
    }
    i
}

/// In a carving the nodes stand at the even places after `base` and the
/// edges at the odd ones: a carving of `n` nodes has `n - 1` edges.
pub proof fn lemma_nodes_and_edges<E>(
    range: RectRange,
    calls: Seq<(Coord, Result<(), E>)>,
    base: int,
    j: int,
)
    requires
        range.wf(),
        carving(range, calls, base),
        base <= j < calls.len(),
    ensures
        (j - base) % 2 == 0 <==> range.on_lattice(calls[j].0),
{
    if j > base {
        assert(grown(range, calls, base, j));
    }
}

/// Every carved cell but the first lies one step from a cell carved
/// before it: the corridor is connected.
pub proof fn lemma_hangs_together<E>(
    range: RectRange,
    calls: Seq<(Coord, Result<(), E>)>,
    base: int,
    j: int,
) -> (p: int)
    requires
        carving(range, calls, base),
        base < j < calls.len(),
    ensures
        base <= p < j,
        calls[p].0.apart(calls[j].0, 1),
{
    assert(grown(range, calls, base, j));
    if (j - base) % 2 == 1 {
        choose|p: int| #[trigger] edge_from(range, calls, base, p, j)
    } else {
        j - 1
    }
}

/// A cell an odd number of steps from the corner on both axes is never
/// carved: it stays a wall.
pub proof fn lemma_walls_stay<E>(
    range: RectRange,
    calls: Seq<(Coord, Result<(), E>)>,
    base: int,
    j: int,
)
    requires
        range.wf(),
        carving(range, calls, base),
        base <= j < calls.len(),
    ensures
        (calls[j].0.x - range.x_start()) % 2 == 0 || (calls[j].0.y - range.y_start()) % 2 == 0,
{
    if j > base {
        assert(grown(range, calls, base, j));
        if (j - base) % 2 == 1 {
            let p = choose|p: int| #[trigger] edge_from(range, calls, base, p, j);
            lemma_nodes_and_edges(range, calls, base, p);
        }
    }
}

/// The number of lattice points of a range: every second column of every
/// second row, the corner's among them.
pub open spec fn lattice_count(range: RectRange) -> int {
    ((range.x_end() - range.x_start() + 1) / 2) * ((range.y_end() - range.y_start() + 1) / 2)
}

/// The lattice points of a range.
pub open spec fn lattice_set(range: RectRange) -> Set<Coord> {
    Set::new(|c: Coord| range.on_lattice(c))
}

/// The lattice point number `k`, counted row by row in rows of `a` points.
pub open spec fn lattice_point(range: RectRange, a: int, k: int) -> Coord {
    Coord { x: (range.x_start() + 2 * (k % a)) as i32, y: (range.y_start() + 2 * (k / a)) as i32 }
}

/// A range has `lattice_count` lattice points.
pub proof fn lemma_lattice_count(range: RectRange)
    requires
        range.wf(),
    ensures
        lattice_set(range).finite(),
        lattice_set(range).len() == lattice_count(range),
{
    let a = (range.x_end() - range.x_start() + 1) / 2;
    let b = (range.y_end() - range.y_start() + 1) / 2;
    let n = a * b;
    assert(n >= 0) by (nonlinear_arith)
        requires
            a >= 1,
            b >= 1,
            n == a * b,
    ;
    let numbers = set_int_range(0, n);
    lemma_int_range(0, n);
    let f = |k: int| lattice_point(range, a, k);
    assert forall|k: int| 0 <= k < n implies 0 <= k % a < a && 0 <= #[trigger] (k / a) < b && k
        == a * (k / a) + k % a by {
        lemma_fundamental_div_mod(k, a);
        assert(0 <= k / a < b) by (nonlinear_arith)
            requires
                0 <= k < a * b,
                a >= 1,
                k == a * (k / a) + k % a,
                0 <= k % a < a,
        ;
    }
    assert forall|k1: int, k2: int|
        numbers.contains(k1) && numbers.contains(k2) && f(k1) == f(k2) implies k1 == k2 by {
        assert(0 <= k1 / a < b);
        assert(0 <= k2 / a < b);
        lemma_fundamental_div_mod(k1, a);
        lemma_fundamental_div_mod(k2, a);
    }
    assert(injective_on(f, numbers));
    assert forall|c: Coord| lattice_set(range).contains(c) implies numbers.map(f).contains(c) by {
        let i = (c.x - range.x_start()) / 2;
        let j = (c.y - range.y_start()) / 2;
        let k = j * a + i;
        lemma_fundamental_div_mod_converse(k, a, j, i);
        assert(0 <= k < n) by (nonlinear_arith)
            requires
                0 <= i < a,
                0 <= j < b,
                k == j * a + i,
                n == a * b,
        ;
        assert(numbers.contains(k));
        assert(f(k) == c);
    }
    assert forall|c: Coord| numbers.map(f).contains(c) implies lattice_set(range).contains(c) by {
        let k = choose|k: int| numbers.contains(k) && f(k) == c;
        assert(0 <= k / a < b);
        assert(range.on_lattice(c));
    }
    assert(numbers.map(f) =~= lattice_set(range));
    lemma_map_size(numbers, lattice_set(range), f);
}

/// The nodes of a carving, in the order in which they were carved.
pub open spec fn nodes<E>(calls: Seq<(Coord, Result<(), E>)>, base: int) -> Seq<Coord> {
    Seq::new(((calls.len() - base + 1) / 2) as nat, |k: int| calls[base + 2 * k].0)
}

/// A finished carving of a range with `n` lattice points has `n` nodes and
/// `n - 1` edges: it hands over `2 * n - 1` coordinates.
pub proof fn lemma_carving_size<E>(
    range: RectRange,
    calls: Seq<(Coord, Result<(), E>)>,
    base: int,
)
    requires
        range.wf(),
        carving(range, calls, base),
        covers(range, calls, base),
        (calls.len() - base) % 2 == 1,
    ensures
        nodes(calls, base).len() == lattice_count(range),
        calls.len() - base == 2 * lattice_count(range) - 1,
{
    let seq = nodes(calls, base);
    assert forall|k1: int, k2: int| 0 <= k1 < seq.len() && 0 <= k2 < seq.len() && k1 != k2 implies seq[k1]
        != seq[k2] by {
        if k1 < k2 {
            assert(calls[base + 2 * k1].0 != calls[base + 2 * k2].0);
        } else {
            assert(calls[base + 2 * k2].0 != calls[base + 2 * k1].0);
        }
    }
    assert(seq.no_duplicates());
    assert forall|c: Coord| seq.to_set().contains(c) implies lattice_set(range).contains(c) by {
        let k = choose|k: int| 0 <= k < seq.len() && seq[k] == c;
        lemma_nodes_and_edges(range, calls, base, base + 2 * k);
    }
    assert forall|c: Coord| lattice_set(range).contains(c) implies seq.to_set().contains(c) by {
        let i = lemma_carved_exactly_once(range, calls, base, c);
        lemma_nodes_and_edges(range, calls, base, i);
        let k = (i - base) / 2;
        assert(seq[k] == c);
    }
    assert(seq.to_set() =~= lattice_set(range));
    seq.unique_seq_to_set();
    lemma_lattice_count(range);
}

} // verus!
