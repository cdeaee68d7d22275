use vstd::prelude::*;

use crate::flow_field::{
    in_domain, is_hop_distance, is_route, lemma_goal_hop, lemma_hop_unique, open_tile, reachable,
    route_to, FlowField,
};
use crate::geometry::{
    adjacent, lemma_adjacent_cases, neighbor, neighbor_spec, origin_of, Position, TileCoord,
    UNITS_PER_TILE,
};

verus! {

/// Above every label a field can hold.
pub open spec fn label_ceiling() -> int {
    i32::MAX as int + 1
}

/// Keeps `best` unless `cand` is a neighbour with a positive label strictly below it.
pub open spec fn lower_of(f: FlowField, best: Option<TileCoord>, cand: Option<TileCoord>) -> Option<
    TileCoord,
> {
    match cand {
        Some(v) => if f.label(v) > 0 && (best is None || f.label(v) < f.label(best->0)) {
            Some(v)
        } else {
            best
        },
        None => best,
    }
}

/// The neighbour with the smallest positive label, the first in scan order (up, right, down,
/// left) among equals; `None` where no neighbour has a positive label.
pub open spec fn descent_step(f: FlowField, c: TileCoord) -> Option<TileCoord> {
    lower_of(
        f,
        lower_of(
            f,
            lower_of(f, lower_of(f, None, neighbor_spec(c, 0)), neighbor_spec(c, 1)),
            neighbor_spec(c, 2),
        ),
        neighbor_spec(c, 3),
    )
}

/// The cells visited by greedy descent from `c` until `goal`, each strictly below the one
/// before (the first below `bound`); `None` where the descent stalls first.
pub open spec fn descent(f: FlowField, c: TileCoord, goal: TileCoord, bound: int) -> Option<
    Seq<TileCoord>,
>
    decreases bound,
{
    if c == goal {
        Some(Seq::empty())
    } else {
        match descent_step(f, c) {
            Some(n) => if 0 < f.label(n) < bound {
                match descent(f, n, goal, f.label(n)) {
                    Some(rest) => Some(seq![n] + rest),
                    None => None,
                }
            } else {
                None
            },
            None => None,
        }
    }
}

/// The waypoints of a descent: each cell's origin, then the goal's exact position.
pub open spec fn waypoints_of(tiles: Seq<TileCoord>, goal_pos: Position) -> Seq<Position> {
    tiles.map_values(|c: TileCoord| origin_of(c)).push(goal_pos)
}

/// The neighbour with the smallest positive label, first in scan order among equals.
pub fn lowest_neighbor(f: &FlowField, c: TileCoord) -> (r: Option<TileCoord>)
    ensures
        r == descent_step(*f, c),
{
    let mut best: Option<TileCoord> = None;
    let mut best_label: i32 = 0;
    let mut dir: u8 = 0;
    while dir < 4
        invariant
            dir <= 4,
            best == descent_prefix(*f, c, dir as int),
            best is Some ==> best_label == f.label(best->0),
        decreases 4 - dir,
    {
        let cand = neighbor(c, dir);
        if let Some(v) = cand {
            let l = f.get(v);
            if l > 0 && (best.is_none() || l < best_label) {
                best = Some(v);
                best_label = l;
            }
        }
        dir = dir + 1;
    }
    proof {
        reveal_with_fuel(descent_prefix, 5);
    }
    best
}

/// `descent_step` over the first `k` scan directions only.
pub open spec fn descent_prefix(f: FlowField, c: TileCoord, k: int) -> Option<TileCoord>
    decreases k,
{
    if k <= 0 {
        None
    } else {
        lower_of(f, descent_prefix(f, c, k - 1), neighbor_spec(c, k - 1))
    }
}

/// Walks the field downhill from `start` to `goal_tile`: one waypoint at the origin of each
/// cell passed, then `goal_pos` itself. `None` where no descending chain reaches the goal.
pub fn build_path(f: &FlowField, start: TileCoord, goal_tile: TileCoord, goal_pos: Position) -> (r:
    Option<Vec<Position>>)
    ensures
        match descent(*f, start, goal_tile, label_ceiling()) {
            Some(tiles) => r is Some && r->0@ == waypoints_of(tiles, goal_pos),
            None => r is None,
        },
{
    let mut cur = start;
    let mut bound: i64 = i32::MAX as i64 + 1;
    let mut ways: Vec<Position> = Vec::new();
    let ghost mut passed: Seq<TileCoord> = Seq::empty();
    while cur != goal_tile
        invariant
            1 <= bound <= label_ceiling(),
            descent(*f, start, goal_tile, label_ceiling()) == prepend(
                passed,
                descent(*f, cur, goal_tile, bound as int),
            ),
            ways@ == passed.map_values(|c: TileCoord| origin_of(c)),
        decreases bound,
    {
        let step = lowest_neighbor(f, cur);
        match step {
            None => {
                return None;
            },
            Some(n) => {
                let l = f.get(n);
                if 0 < l && (l as i64) < bound {
                    proof {
                        let rest = descent(*f, n, goal_tile, l as int);
                        assert(descent(*f, cur, goal_tile, bound as int) == prepend(seq![n], rest));
                        lemma_prepend_twice(passed, seq![n], rest);
                        assert(passed + seq![n] == passed.push(n));
                        passed = passed.push(n);
                    }
                    ways.push(Position { x: n.x as i64 * UNITS_PER_TILE, y: n.y as i64 * UNITS_PER_TILE });
                    proof {
                        assert(ways@ =~= passed.map_values(|c: TileCoord| origin_of(c)));
                    }
                    cur = n;
                    bound = l as i64;
                } else {
                    return None;
                }
            },
        }
    }
    proof {
        assert(passed + Seq::<TileCoord>::empty() == passed);
    }
    ways.push(goal_pos);
    Some(ways)
}

/// `p` followed by the cells of `o`, if any.
pub open spec fn prepend(p: Seq<TileCoord>, o: Option<Seq<TileCoord>>) -> Option<Seq<TileCoord>> {
    match o {
        Some(r) => Some(p + r),
        None => None,
    }
}

proof fn lemma_prepend_twice(p: Seq<TileCoord>, q: Seq<TileCoord>, o: Option<Seq<TileCoord>>)
    ensures
        prepend(p, prepend(q, o)) == prepend(p + q, o),
{
    if let Some(r) = o {
        assert(p + (q + r) =~= (p + q) + r);
    }
}

proof fn lemma_step_facts(f: FlowField, c: TileCoord)
    ensures
        descent_step(f, c) is Some ==> {
            let q = descent_step(f, c)->0;
            &&& f.label(q) > 0
            &&& adjacent(c, q)
            &&& forall|k: int|
                0 <= k < 4 && #[trigger] neighbor_spec(c, k) is Some && f.label(neighbor_spec(c, k)->0) > 0
                    ==> f.label(q) <= f.label(neighbor_spec(c, k)->0)
        },
        descent_step(f, c) is None ==> forall|k: int|
            0 <= k < 4 && #[trigger] neighbor_spec(c, k) is Some ==> f.label(neighbor_spec(c, k)->0) <= 0,
{
    if descent_step(f, c) is Some {
        let q = descent_step(f, c)->0;
        lemma_adjacent_cases(c, q);
    }
}

proof fn lemma_route_prefix(
    walk: Set<TileCoord>,
    blocked: Set<TileCoord>,
    goal: TileCoord,
    s: Seq<TileCoord>,
    k: int,
)
    requires
        is_route(walk, blocked, goal, s),
        1 <= k <= s.len(),
    ensures
        route_to(walk, blocked, goal, s[k - 1], s.subrange(0, k)),
{
    let t = s.subrange(0, k);
    assert forall|i: int| 1 <= i < t.len() implies open_tile(walk, blocked, #[trigger] t[i])
        && adjacent(t[i - 1], t[i]) by {
        assert(t[i] == s[i] && t[i - 1] == s[i - 1]);
    }
}

/// On a complete field, an open cell or the goal with positive label has that label minus one
/// as its hop distance.
proof fn lemma_label_is_hop(
    f: FlowField,
    walk: Set<TileCoord>,
    blocked: Set<TileCoord>,
    goal: TileCoord,
    c: TileCoord,
)
    requires
        f.is_flow_field(walk, blocked, goal),
        c == goal || open_tile(walk, blocked, c),
        f.label(c) > 0,
    ensures
        is_hop_distance(walk, blocked, goal, c, (f.label(c) - 1) as nat),
{
    assert(f@.contains_key(c));
    if c == goal {
        lemma_goal_hop(walk, blocked, goal);
    } else {
        if !reachable(walk, blocked, goal, c) {
            assert(f@[c] == 0);
        }
    }
}

proof fn lemma_descent_length(
    f: FlowField,
    walk: Set<TileCoord>,
    blocked: Set<TileCoord>,
    goal: TileCoord,
    c: TileCoord,
    n: nat,
    bound: int,
)
    requires
        f.is_flow_field(walk, blocked, goal),
        c == goal || open_tile(walk, blocked, c),
        is_hop_distance(walk, blocked, goal, c, n),
        n < bound,
    ensures
        descent(f, c, goal, bound) is Some,
        descent(f, c, goal, bound)->0.len() == n,
    decreases n,
{
    if c == goal {
        lemma_goal_hop(walk, blocked, goal);
        lemma_hop_unique(walk, blocked, goal, c, n, 0);
    } else {
        let s = choose|s: Seq<TileCoord>| #[trigger] route_to(walk, blocked, goal, c, s) && s.len() == n + 1;
        assert(n >= 1);
        assert(reachable(walk, blocked, goal, c));
        assert(f@.contains_key(c));
        lemma_label_is_hop(f, walk, blocked, goal, c);
        lemma_hop_unique(walk, blocked, goal, c, n, (f.label(c) - 1) as nat);
        let p = s[n - 1];
        lemma_route_prefix(walk, blocked, goal, s, n as int);
        assert(adjacent(p, c));
        assert(p == goal || open_tile(walk, blocked, p)) by {
            if n - 1 >= 1 {
                assert(open_tile(walk, blocked, s[n - 1]));
            }
        }
        assert(reachable(walk, blocked, goal, p));
        assert(f@.contains_key(p));
        assert(f.label(p) > 0) by {
            if p != goal {
                assert(f@[p] >= 1);
            }
        }
        lemma_label_is_hop(f, walk, blocked, goal, p);
        assert(f.label(p) <= n);
        lemma_adjacent_cases(c, p);
        lemma_step_facts(f, c);
        assert(descent_step(f, c) is Some);
        let q = descent_step(f, c)->0;
        assert(f.label(q) <= f.label(p));
        assert(f@.contains_key(q));
        assert(q == goal || open_tile(walk, blocked, q)) by {
            if q != goal && blocked.contains(q) {
                assert(f@[q] == -1);
            }
        }
        lemma_label_is_hop(f, walk, blocked, goal, q);
        let hq = (f.label(q) - 1) as nat;
        let r = choose|r: Seq<TileCoord>| #[trigger] route_to(walk, blocked, goal, q, r) && r.len() == hq + 1;
        lemma_adjacent_cases(q, c);
        crate::flow_field::lemma_route_extend(walk, blocked, goal, r, c);
        assert(f.label(q) == n);
        lemma_descent_length(f, walk, blocked, goal, q, hq, f.label(q));
    }
}

/// A path built over a complete field, from the goal or from an open cell at hop distance `n`
/// from it, holds exactly `n + 1` waypoints: one per step, then the goal's exact position.
pub proof fn lemma_path_length(
    f: FlowField,
    walk: Set<TileCoord>,
    blocked: Set<TileCoord>,
    goal: TileCoord,
    start: TileCoord,
    goal_pos: Position,
    n: nat,
)
    requires
        f.is_flow_field(walk, blocked, goal),
        start == goal || open_tile(walk, blocked, start),
        is_hop_distance(walk, blocked, goal, start, n),
    ensures
        descent(f, start, goal, label_ceiling()) is Some,
        waypoints_of(descent(f, start, goal, label_ceiling())->0, goal_pos).len() == n + 1,
{
    if start != goal {
        let s = choose|s: Seq<TileCoord>| #[trigger] route_to(walk, blocked, goal, start, s) && s.len() == n + 1;
        assert(reachable(walk, blocked, goal, start));
        assert(f@.contains_key(start));
        lemma_hop_unique(walk, blocked, goal, start, n, (f@[start] - 1) as nat);
    } else {
        lemma_goal_hop(walk, blocked, goal);
        lemma_hop_unique(walk, blocked, goal, start, n, 0);
    }
    lemma_descent_length(f, walk, blocked, goal, start, n, label_ceiling());
}

/// Every cell a descent passes carries a positive label.
proof fn lemma_descent_positive(f: FlowField, c: TileCoord, goal: TileCoord, bound: int)
    requires
        descent(f, c, goal, bound) is Some,
    ensures
        forall|i: int| 0 <= i < descent(f, c, goal, bound)->0.len() ==> f.label(
            #[trigger] descent(f, c, goal, bound)->0[i],
        ) > 0,
    decreases bound,
{
    if c != goal {
        let n = descent_step(f, c)->0;
        lemma_descent_positive(f, n, goal, f.label(n));
        let rest = descent(f, n, goal, f.label(n))->0;
        assert forall|i: int| 0 <= i < (seq![n] + rest).len() implies f.label(#[trigger] (seq![n] + rest)[i]) > 0 by {
            if i > 0 {
                assert((seq![n] + rest)[i] == rest[i - 1]);
            }
        }
    }
}

/// On a complete field whose goal is not blocked, every blocked tile is labelled `-1` and no
/// path passes through one.
pub proof fn lemma_path_avoids_collision(
    f: FlowField,
    walk: Set<TileCoord>,
    blocked: Set<TileCoord>,
    goal: TileCoord,
    start: TileCoord,
)
    requires
        f.is_flow_field(walk, blocked, goal),
        !blocked.contains(goal),
    ensures
        forall|c: TileCoord| #[trigger] blocked.contains(c) ==> f.label(c) == -1,
        descent(f, start, goal, label_ceiling()) is Some ==> forall|i: int|
            0 <= i < descent(f, start, goal, label_ceiling())->0.len() ==> !blocked.contains(
                #[trigger] descent(f, start, goal, label_ceiling())->0[i],
            ),
{
    assert forall|c: TileCoord| #[trigger] blocked.contains(c) implies f.label(c) == -1 by {
        assert(in_domain(walk, blocked, goal, c));
    }
    if descent(f, start, goal, label_ceiling()) is Some {
        lemma_descent_positive(f, start, goal, label_ceiling());
    }
}

} // verus!
