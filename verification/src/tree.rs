//! The movements of a trace as the edges of a tree: every cell entered can
//! be come to from the first cell, and no cell is entered twice.

use vstd::prelude::*;
use crate::count::{event_entered, lemma_events_entered};
use crate::engine::lemma_start_reached;
use crate::geometry::{Container, Direction, Path, moved};
use crate::walk::{grows_tree, lemma_recorded_events, perfect, reached, recorded};

verus! {

/// Whether the event `e` is a movement between the cells `a` and `b`, in
/// either direction.
pub open spec fn joins(e: Path, a: (int, int), b: (int, int)) -> bool {
    &&& e.direction != Direction::NONE
    &&& (e.coordinate@ == a && moved(e.coordinate@, e.direction) == b) || (e.coordinate@ == b
        && moved(e.coordinate@, e.direction) == a)
}

/// Whether some movement of the trace joins the cells `a` and `b`.
pub open spec fn joined(t: Seq<Path>, a: (int, int), b: (int, int)) -> bool {
    exists|k: int| 0 <= k < t.len() && joins(#[trigger] t[k], a, b)
}

/// Whether `route` is a way through the maze: a cell, or cells of which
/// each is joined to the next by a movement of the trace.
pub open spec fn is_route(t: Seq<Path>, route: Seq<(int, int)>) -> bool {
    &&& route.len() > 0
    &&& forall|i: int| 0 <= i < route.len() - 1 ==> joined(t, #[trigger] route[i], route[i + 1])
}

/// Whether a way through the maze leads from `a` to `b`.
pub open spec fn linked(t: Seq<Path>, a: (int, int), b: (int, int)) -> bool {
    exists|route: Seq<(int, int)>| #[trigger]
        is_route(t, route) && route[0] == a && route.last() == b
}

/// A way through the maze stays one when the trace goes on.
pub proof fn lemma_route_stays(t: Seq<Path>, e: Path, route: Seq<(int, int)>)
    requires
        is_route(t, route),
    ensures
        is_route(t.push(e), route),
{
    let more = t.push(e);
    assert forall|i: int| 0 <= i < route.len() - 1 implies joined(
        more,
        #[trigger] route[i],
        route[i + 1],
    ) by {
        let k = choose|k: int| 0 <= k < t.len() && joins(#[trigger] t[k], route[i], route[i + 1]);
        assert(more[k] == t[k]);
    }
}

/// The tree is connected: a way through the maze leads from the first cell
/// to every cell that the trace has entered.
pub proof fn lemma_tree_connected(g: Container, start: (int, int), t: Seq<Path>, p: (int, int))
    requires
        grows_tree(g, start, t),
        reached(start, t).contains(p),
    ensures
        linked(t, start, p),
    decreases t.len(),
{
    if t.len() == 0 {
        let route = seq![start];
        assert(is_route(t, route) && route[0] == start && route.last() == p);
    } else {
        let before = t.drop_last();
        let e = t.last();
        assert(before.push(e) =~= t);
        let to = if reached(start, before).contains(p) {
            p
        } else {
            e.coordinate@
        };
        lemma_tree_connected(g, start, before, to);
        let route = choose|route: Seq<(int, int)>| #[trigger]
            is_route(before, route) && route[0] == start && route.last() == to;
        lemma_route_stays(before, e, route);
        if to == p {
            assert(is_route(t, route) && route[0] == start && route.last() == p);
        } else {
            let longer = route.push(p);
            assert forall|i: int| 0 <= i < longer.len() - 1 implies joined(
                t,
                #[trigger] longer[i],
                longer[i + 1],
            ) by {
                if i < route.len() - 1 {
                    assert(joined(t, route[i], route[i + 1]));
                } else {
                    assert(joins(t[t.len() - 1], route[i], p));
                }
            }
            assert(is_route(t, longer) && longer[0] == start && longer.last() == p);
        }
    }
}

/// Every cell is entered once: no movement enters the first cell, and no
/// two movements enter the same cell.
pub proof fn lemma_entered_once(g: Container, start: (int, int), t: Seq<Path>, j: int, k: int)
    requires
        grows_tree(g, start, t),
        0 <= j <= k < t.len(),
        t[j].direction != Direction::NONE,
        t[k].direction != Direction::NONE,
    ensures
        moved(t[k].coordinate@, t[k].direction) != start,
        moved(t[j].coordinate@, t[j].direction) == moved(t[k].coordinate@, t[k].direction) ==> j
            == k,
    decreases t.len(),
{
    let before = t.drop_last();
    if k < t.len() - 1 {
        lemma_entered_once(g, start, before, j, k);
    } else {
        lemma_start_reached(start, before);
        if j < k {
            lemma_events_entered(g, start, before);
            assert(event_entered(g, start, before, j));
        }
    }
}

/// The movements of a finished walk are a spanning tree of the grid: from
/// the first cell a way leads to every cell.
pub proof fn lemma_maze_connected(g: Container, t: Seq<Path>, p: (int, int))
    requires
        perfect(g, t),
        g.holds(p),
    ensures
        linked(t, t[0].coordinate@, p),
{
    lemma_tree_connected(g, t[0].coordinate@, t, p);
}

/// Whether the movements with the indices `ks`, each taken once, lead
/// along the cells `vs` back to the cell they leave from.
pub open spec fn is_cycle(t: Seq<Path>, ks: Seq<int>, vs: Seq<(int, int)>) -> bool {
    &&& ks.len() >= 1
    &&& vs.len() == ks.len() + 1
    &&& vs[0] == vs.last()
    &&& forall|i: int|
        0 <= i < ks.len() ==> 0 <= #[trigger] ks[i] < t.len() && joins(t[ks[i]], vs[i], vs[i + 1])
    &&& forall|i: int, j: int| 0 <= i < j < ks.len() ==> #[trigger] ks[i] != #[trigger] ks[j]
}

/// The tree has no cycle: no movements, each taken once, lead back to the
/// cell they leave from.
pub proof fn lemma_tree_acyclic(
    g: Container,
    start: (int, int),
    t: Seq<Path>,
    ks: Seq<int>,
    vs: Seq<(int, int)>,
)
    requires
        grows_tree(g, start, t),
    ensures
        !is_cycle(t, ks, vs),
    decreases t.len(),
{
    if is_cycle(t, ks, vs) {
        assert(0 <= ks[0] < t.len());
        let before = t.drop_last();
        let last = t.len() - 1;
        let e = t.last();
        let n = ks.len() as int;
        lemma_events_entered(g, start, before);
        if exists|i: int| 0 <= i < n && #[trigger] ks[i] == last {
            let i = choose|i: int| 0 <= i < n && #[trigger] ks[i] == last;
            let q = moved(e.coordinate@, e.direction);
            assert(joins(t[ks[i]], vs[i], vs[i + 1]));
            assert(!reached(start, before).contains(q));
            assert(reached(start, before).contains(e.coordinate@));
            if n > 1 {
                let m = if vs[i + 1] == q {
                    if i + 1 < n {
                        i + 1
                    } else {
                        0
                    }
                } else {
                    if i > 0 {
                        i - 1
                    } else {
                        n - 1
                    }
                };
                if m < i {
                    assert(ks[m] != ks[i]);
                } else {
                    assert(ks[i] != ks[m]);
                }
                assert(joins(t[ks[m]], vs[m], vs[m + 1]));
                assert(vs[m] == q || vs[m + 1] == q);
                assert(before[ks[m]] == t[ks[m]]);
                assert(event_entered(g, start, before, ks[m]));
                assert(false);
            }
            assert(false);
        } else {
            assert forall|i: int| 0 <= i < n implies 0 <= #[trigger] ks[i] < before.len() && joins(
                before[ks[i]],
                vs[i],
                vs[i + 1],
            ) by {
                assert(joins(t[ks[i]], vs[i], vs[i + 1]));
                assert(ks[i] != last);
                assert(before[ks[i]] == t[ks[i]]);
            }
            assert(is_cycle(before, ks, vs));
            lemma_tree_acyclic(g, start, before, ks, vs);
        }
    }
}

/// The movements of a finished walk hold no cycle.
pub proof fn lemma_maze_acyclic(g: Container, t: Seq<Path>, ks: Seq<int>, vs: Seq<(int, int)>)
    requires
        perfect(g, t),
    ensures
        !is_cycle(t, ks, vs),
{
    lemma_tree_acyclic(g, t[0].coordinate@, t, ks, vs);
}

/// Whether the trace ends a branch at the cell `p`.
pub open spec fn ends_at(t: Seq<Path>, p: (int, int)) -> bool {
    exists|k: int|
        0 <= k < t.len() && (#[trigger] t[k]).coordinate@ == p && t[k].direction == Direction::NONE
}

/// Whether the trace holds a movement from the cell `p`.
pub open spec fn goes_on_from(t: Seq<Path>, p: (int, int)) -> bool {
    exists|k: int|
        0 <= k < t.len() && (#[trigger] t[k]).coordinate@ == p && t[k].direction != Direction::NONE
}

/// A finished walk has ended a branch at exactly the leaves: at every cell
/// of the grid from which it did not go on, and at no other.
pub proof fn lemma_ends_at_leaves(g: Container, t: Seq<Path>, p: (int, int))
    requires
        perfect(g, t),
        g.holds(p),
    ensures
        ends_at(t, p) != goes_on_from(t, p),
{
    lemma_recorded_events(t);
    assert(g.cells().contains(p));
    assert(recorded(t).contains(p));
    let k = choose|k: int| 0 <= k < t.len() && #[trigger] t[k].coordinate@ == p;
    if t[k].direction == Direction::NONE {
        assert(ends_at(t, p));
        if goes_on_from(t, p) {
            let j = choose|j: int|
                0 <= j < t.len() && (#[trigger] t[j]).coordinate@ == p && t[j].direction
                    != Direction::NONE;
            assert(t[j].coordinate@ != t[k].coordinate@);
        }
    } else {
        assert(goes_on_from(t, p));
        if ends_at(t, p) {
            let j = choose|j: int|
                0 <= j < t.len() && (#[trigger] t[j]).coordinate@ == p && t[j].direction
                    == Direction::NONE;
            assert(t[k].coordinate@ != t[j].coordinate@);
        }
    }
}

} // verus!
