use vstd::prelude::*;
use std::collections::HashMap;

use crate::collision::CollisionSet;
use crate::geometry::{adjacent, key_of, lemma_adjacent_cases, lemma_key_of_injective, neighbor, neighbor_spec, tile_key, TileCoord};

verus! {

broadcast use vstd::std_specs::hash::group_hash_axioms;

/// Upper bound on walkable plus blocked tiles, so that every distance label fits.
pub const MAX_FIELD_TILES: usize = 0x7fff_0000;

/// A tile that may be walked on: walkable and not blocked.
pub open spec fn open_tile(walk: Set<TileCoord>, blocked: Set<TileCoord>, c: TileCoord) -> bool {
    walk.contains(c) && !blocked.contains(c)
}

/// A walk over the grid that starts at the goal and steps between adjacent cells, every cell
/// after the goal being open.
pub open spec fn is_route(
    walk: Set<TileCoord>,
    blocked: Set<TileCoord>,
    goal: TileCoord,
    s: Seq<TileCoord>,
) -> bool {
    &&& s.len() >= 1
    &&& s[0] == goal
    &&& forall|i: int|
        1 <= i < s.len() ==> open_tile(walk, blocked, #[trigger] s[i]) && adjacent(s[i - 1], s[i])
}

/// A route from the goal that ends at `c`.
pub open spec fn route_to(
    walk: Set<TileCoord>,
    blocked: Set<TileCoord>,
    goal: TileCoord,
    c: TileCoord,
    s: Seq<TileCoord>,
) -> bool {
    is_route(walk, blocked, goal, s) && s.last() == c
}

pub open spec fn reachable(
    walk: Set<TileCoord>,
    blocked: Set<TileCoord>,
    goal: TileCoord,
    c: TileCoord,
) -> bool {
    exists|s: Seq<TileCoord>| #[trigger] route_to(walk, blocked, goal, c, s)
}

/// `n` is the least number of 4-connected steps from the goal to `c`.
pub open spec fn is_hop_distance(
    walk: Set<TileCoord>,
    blocked: Set<TileCoord>,
    goal: TileCoord,
    c: TileCoord,
    n: nat,
) -> bool {
    &&& exists|s: Seq<TileCoord>| #[trigger] route_to(walk, blocked, goal, c, s) && s.len() == n + 1
    &&& forall|s: Seq<TileCoord>| #[trigger] route_to(walk, blocked, goal, c, s) ==> s.len() >= n + 1
}

pub open spec fn in_domain(
    walk: Set<TileCoord>,
    blocked: Set<TileCoord>,
    goal: TileCoord,
    c: TileCoord,
) -> bool {
    walk.contains(c) || blocked.contains(c) || c == goal
}

/// Labels keyed by cell: every positive label is one more than the length of some route.
spec fn witnessed(
    m: Map<u64, i32>,
    walk: Set<TileCoord>,
    blocked: Set<TileCoord>,
    goal: TileCoord,
) -> bool {
    forall|c: TileCoord|
        #![trigger m[key_of(c)]]
        m.contains_key(key_of(c)) && m[key_of(c)] > 0 ==> exists|s: Seq<TileCoord>|
            #[trigger] route_to(walk, blocked, goal, c, s) && s.len() == m[key_of(c)]
}

/// Every open neighbour of a cell labelled below `bound` carries a label at most one higher.
spec fn closed_below(
    m: Map<u64, i32>,
    walk: Set<TileCoord>,
    blocked: Set<TileCoord>,
    bound: int,
) -> bool {
    forall|c: TileCoord, v: TileCoord|
        #![trigger m[key_of(c)], m[key_of(v)]]
        m.contains_key(key_of(c)) && 0 < m[key_of(c)] < bound && adjacent(c, v) && open_tile(
            walk,
            blocked,
            v,
        ) ==> m.contains_key(key_of(v)) && 0 < m[key_of(v)] <= m[key_of(c)] + 1
}


/// Cells of `dom` that carry a positive label.
spec fn labelled(m: Map<u64, i32>, dom: Set<TileCoord>) -> Set<TileCoord> {
    dom.filter(|c: TileCoord| m.contains_key(key_of(c)) && m[key_of(c)] > 0)
}

spec fn domain_is(
    m: Map<u64, i32>,
    walk: Set<TileCoord>,
    blocked: Set<TileCoord>,
    goal: TileCoord,
) -> bool {
    forall|c: TileCoord| #[trigger]
        m.contains_key(key_of(c)) <==> in_domain(walk, blocked, goal, c)
}

/// Labels of the goal and of blocked cells are fixed; open cells are unvisited or positive.
spec fn fixed_labels(
    m: Map<u64, i32>,
    walk: Set<TileCoord>,
    blocked: Set<TileCoord>,
    goal: TileCoord,
    top: int,
) -> bool {
    &&& m[key_of(goal)] == 1
    &&& forall|c: TileCoord|
        #![trigger m[key_of(c)]]
        c != goal && blocked.contains(c) ==> m[key_of(c)] == -1
    &&& forall|c: TileCoord|
        #![trigger m[key_of(c)]]
        c != goal && open_tile(walk, blocked, c) ==> 0 <= m[key_of(c)] <= top
}

/// The state at the start of a ring: every cell labelled `d` is in the frontier.
spec fn ring_start(
    m: Map<u64, i32>,
    walk: Set<TileCoord>,
    blocked: Set<TileCoord>,
    goal: TileCoord,
    dom: Set<TileCoord>,
    d: int,
    frontier: Seq<TileCoord>,
) -> bool {
    &&& domain_is(m, walk, blocked, goal)
    &&& fixed_labels(m, walk, blocked, goal, d)
    &&& witnessed(m, walk, blocked, goal)
    &&& closed_below(m, walk, blocked, d)
    &&& forall|j: int|
        0 <= j < frontier.len() ==> in_domain(walk, blocked, goal, #[trigger] frontier[j])
            && m[key_of(frontier[j])] == d
    &&& forall|c: TileCoord|
        #![trigger m[key_of(c)]]
        in_domain(walk, blocked, goal, c) && m[key_of(c)] == d ==> frontier.contains(c)
    &&& 1 <= d <= labelled(m, dom).len()
}

/// Part way through a ring: only unvisited cells changed, each to `d + 1`, and `next` lists
/// exactly those.
spec fn ring_progress(
    m0: Map<u64, i32>,
    m: Map<u64, i32>,
    walk: Set<TileCoord>,
    blocked: Set<TileCoord>,
    goal: TileCoord,
    dom: Set<TileCoord>,
    d: int,
    next: Seq<TileCoord>,
) -> bool {
    &&& domain_is(m, walk, blocked, goal)
    &&& forall|c: TileCoord|
        #![trigger m[key_of(c)]]
        in_domain(walk, blocked, goal, c) ==> (m0[key_of(c)] != 0 ==> m[key_of(c)] == m0[key_of(
            c,
        )]) && (m0[key_of(c)] == 0 ==> m[key_of(c)] == 0 || m[key_of(c)] == d + 1)
    &&& witnessed(m, walk, blocked, goal)
    &&& forall|j: int|
        0 <= j < next.len() ==> in_domain(walk, blocked, goal, #[trigger] next[j])
            && m0[key_of(next[j])] == 0 && m[key_of(next[j])] == d + 1
    &&& forall|c: TileCoord|
        #![trigger m[key_of(c)]]
        in_domain(walk, blocked, goal, c) && m0[key_of(c)] == 0 && m[key_of(c)] == d + 1
            ==> next.contains(c)
    &&& labelled(m, dom).len() == labelled(m0, dom).len() + next.len()
    &&& labelled(m, dom).finite()
}

/// The open neighbour `o`, if any, carries a label in `1 ..= d + 1`.
spec fn neighbor_done(
    m: Map<u64, i32>,
    walk: Set<TileCoord>,
    blocked: Set<TileCoord>,
    o: Option<TileCoord>,
    d: int,
) -> bool {
    match o {
        Some(v) => open_tile(walk, blocked, v) ==> m.contains_key(key_of(v)) && 0 < m[key_of(v)]
            <= d + 1,
        None => true,
    }
}

/// Every open neighbour of the first `i` frontier cells carries a label in `1 ..= d + 1`.
spec fn frontier_done(
    m: Map<u64, i32>,
    walk: Set<TileCoord>,
    blocked: Set<TileCoord>,
    frontier: Seq<TileCoord>,
    i: int,
    d: int,
) -> bool {
    forall|j: int, v: TileCoord|
        #![trigger adjacent(frontier[j], v)]
        0 <= j < i && adjacent(frontier[j], v) && open_tile(walk, blocked, v) ==> m.contains_key(
            key_of(v),
        ) && 0 < m[key_of(v)] <= d + 1
}

/// Breadth-first distance labels over a tile grid, seeded at a goal cell.
pub struct FlowField {
    labels: HashMap<u64, i32>,
}

impl View for FlowField {
    type V = Map<TileCoord, i32>;

    closed spec fn view(&self) -> Map<TileCoord, i32> {
        Map::new(|c: TileCoord| self.labels@.contains_key(key_of(c)), |c: TileCoord| self.labels@[key_of(c)])
    }
}

impl FlowField {
    /// The label of a cell, `0` outside the field's domain.
    pub open spec fn label(&self, c: TileCoord) -> int {
        if self@.contains_key(c) {
            self@[c] as int
        } else {
            0
        }
    }

    /// Freshly reset: `0` on every walkable tile, `-1` on every blocked one, nothing else.
    pub open spec fn is_reset(&self, walk: Set<TileCoord>, blocked: Set<TileCoord>) -> bool {
        &&& forall|c: TileCoord| #[trigger]
            self@.contains_key(c) <==> (walk.contains(c) || blocked.contains(c))
        &&& forall|c: TileCoord| #[trigger] blocked.contains(c) ==> self@[c] == -1
        &&& forall|c: TileCoord| #[trigger] open_tile(walk, blocked, c) ==> self@[c] == 0
    }

    /// The complete breadth-first labelling for `goal`: the goal holds `1`, each other blocked
    /// tile `-1`, each open tile its hop distance from the goal plus one, or `0` where no route
    /// reaches it.
    pub open spec fn is_flow_field(
        &self,
        walk: Set<TileCoord>,
        blocked: Set<TileCoord>,
        goal: TileCoord,
    ) -> bool {
        &&& forall|c: TileCoord| #[trigger]
            self@.contains_key(c) <==> in_domain(walk, blocked, goal, c)
        &&& self@[goal] == 1
        &&& forall|c: TileCoord| c != goal && #[trigger] blocked.contains(c) ==> self@[c] == -1
        &&& forall|c: TileCoord|
            c != goal && #[trigger] open_tile(walk, blocked, c) ==> if reachable(
                walk,
                blocked,
                goal,
                c,
            ) {
                self@[c] >= 1 && is_hop_distance(walk, blocked, goal, c, (self@[c] - 1) as nat)
            } else {
                self@[c] == 0
            }
    }

    /// An empty field.
    pub fn new() -> (f: FlowField)
        ensures
            f@ == Map::<TileCoord, i32>::empty(),
    {
        let f = FlowField { labels: HashMap::new() };
        assert(f@ =~= Map::<TileCoord, i32>::empty());
        f
    }

    /// The label of a cell; `0` (unvisited) outside the field's domain.
    pub fn get(&self, c: TileCoord) -> (r: i32)
        ensures
            r == self.label(c),
    {
        match self.labels.get(&tile_key(c)) {
            Some(l) => *l,
            None => 0,
        }
    }

    /// Discards all labels and starts over: `0` on every walkable tile, `-1` on every
    /// collision tile.
    pub fn reset_flow_field(&mut self, walkable: &Vec<TileCoord>, collision: &CollisionSet)
        requires
            collision.wf(),
        ensures
            final(self).is_reset(walkable@.to_set(), collision@),
    {
        let ghost walk = walkable@.to_set();
        let ghost blocked = collision@;
        let mut labels: HashMap<u64, i32> = HashMap::new();
        let mut i: usize = 0;
        while i < walkable.len()
            invariant
                i <= walkable.len(),
                forall|c: TileCoord| #[trigger]
                    labels@.contains_key(key_of(c)) <==> walkable@.subrange(0, i as int).contains(c),
                forall|c: TileCoord| #[trigger]
                    labels@.contains_key(key_of(c)) ==> labels@[key_of(c)] == 0,
            decreases walkable.len() - i,
        {
            let c = walkable[i];
            labels.insert(tile_key(c), 0);
            proof {
                lemma_prefix_step(walkable@, i as int);
                assert forall|t: TileCoord| #[trigger]
                    labels@.contains_key(key_of(t)) <==> walkable@.subrange(0, i + 1).contains(t) by {
                    lemma_key_of_injective(t, c);
                }
                assert forall|t: TileCoord| #[trigger]
                    labels@.contains_key(key_of(t)) implies labels@[key_of(t)] == 0 by {
                    lemma_key_of_injective(t, c);
                }
            }
            i = i + 1;
        }
        assert(walkable@.subrange(0, walkable@.len() as int) == walkable@);
        assert forall|c: TileCoord| walk.contains(c) implies #[trigger] labels@[key_of(c)] == 0 by {
            assert(labels@.contains_key(key_of(c)));
        }
        let tiles = collision.tiles();
        let mut j: usize = 0;
        while j < tiles.len()
            invariant
                j <= tiles.len(),
                tiles@.to_set() == blocked,
                walk == walkable@.to_set(),
                forall|c: TileCoord| #[trigger]
                    labels@.contains_key(key_of(c)) <==> (walk.contains(c) || tiles@.subrange(
                        0,
                        j as int,
                    ).contains(c)),
                forall|c: TileCoord| #[trigger]
                    tiles@.subrange(0, j as int).contains(c) ==> labels@[key_of(c)] == -1,
                forall|c: TileCoord|
                    walk.contains(c) && !tiles@.subrange(0, j as int).contains(c) ==> #[trigger] labels@[key_of(c)] == 0,
            decreases tiles.len() - j,
        {
            let c = tiles[j];
            labels.insert(tile_key(c), -1);
            proof {
                lemma_prefix_step(tiles@, j as int);
                assert forall|t: TileCoord| #[trigger]
                    labels@.contains_key(key_of(t)) <==> (walk.contains(t) || tiles@.subrange(
                        0,
                        j + 1,
                    ).contains(t)) by {
                    lemma_key_of_injective(t, c);
                }
                assert forall|t: TileCoord| #[trigger]
                    tiles@.subrange(0, j + 1).contains(t) implies labels@[key_of(t)] == -1 by {
                    lemma_key_of_injective(t, c);
                }
                assert forall|t: TileCoord|
                    walk.contains(t) && !tiles@.subrange(0, j + 1).contains(t) implies #[trigger] labels@[key_of(t)] == 0 by {
                    lemma_key_of_injective(t, c);
                }
            }
            j = j + 1;
        }
        assert(tiles@.subrange(0, tiles@.len() as int) == tiles@);
        self.labels = labels;
        assert forall|c: TileCoord| #[trigger] blocked.contains(c) implies self@[c] == -1 by {
            assert(tiles@.to_set().contains(c));
        }
        assert forall|c: TileCoord| #[trigger] open_tile(walk, blocked, c) implies self@[c] == 0 by {
            assert(!tiles@.to_set().contains(c));
        }
        assert forall|c: TileCoord| #[trigger]
            self@.contains_key(c) <==> (walk.contains(c) || blocked.contains(c)) by {
            assert(tiles@.to_set().contains(c) == tiles@.contains(c));
        }
    }

    /// Rebuilds the field for `goal`: resets it, seeds the goal with `1`, then labels every
    /// cell reachable from the goal ring by ring, each one more than the ring before.
    pub fn propagate_pathfinding_wave(
        &mut self,
        walkable: &Vec<TileCoord>,
        collision: &CollisionSet,
        goal: TileCoord,
    )
        requires
            collision.wf(),
            walkable@.len() + collision.tile_count() <= MAX_FIELD_TILES,
        ensures
            final(self).is_flow_field(walkable@.to_set(), collision@, goal),
    {
        self.reset_flow_field(walkable, collision);
        let ghost walk = walkable@.to_set();
        let ghost blocked = collision@;
        let ghost dom = walk.union(blocked).insert(goal);
        proof {
            walkable@.lemma_cardinality_of_set();
            collision.lemma_view_finite();
            vstd::seq_lib::seq_to_set_is_finite(walkable@);
            vstd::set_lib::lemma_len_union(walk, blocked);
            assert(dom.finite());
            assert(dom.len() <= MAX_FIELD_TILES + 1);
        }
        let ghost reset_view = self@;
        let ghost reset_map = self.labels@;
        self.labels.insert(tile_key(goal), 1);
        let mut frontier: Vec<TileCoord> = Vec::new();
        frontier.push(goal);
        let mut d: i32 = 1;
        proof {
            let m = self.labels@;
            assert forall|c: TileCoord| #[trigger]
                m.contains_key(key_of(c)) <==> in_domain(walk, blocked, goal, c) by {
                lemma_key_of_injective(c, goal);
                assert(reset_view.contains_key(c) == reset_map.contains_key(key_of(c)));
            }
            assert forall|c: TileCoord| c != goal && blocked.contains(c) implies #[trigger] m[key_of(c)] == -1 by {
                lemma_key_of_injective(c, goal);
                assert(reset_view.contains_key(c));
                assert(reset_view[c] == reset_map[key_of(c)]);
            }
            assert forall|c: TileCoord| c != goal && open_tile(walk, blocked, c) implies 0 <= #[trigger] m[key_of(c)] <= 1 by {
                lemma_key_of_injective(c, goal);
                assert(reset_view.contains_key(c));
                assert(reset_view[c] == reset_map[key_of(c)]);
            }
            assert forall|c: TileCoord| #![trigger m[key_of(c)]] m.contains_key(key_of(c)) && m[key_of(c)] > 0 implies exists|s: Seq<TileCoord>|
                #[trigger] route_to(walk, blocked, goal, c, s) && s.len() == m[key_of(c)] by {
                lemma_key_of_injective(c, goal);
                if c != goal {
                    assert(reset_map.contains_key(key_of(c)));
                    assert(reset_view.contains_key(c));
                    assert(reset_view[c] == reset_map[key_of(c)]);
                    if blocked.contains(c) {
                        assert(reset_view[c] == -1);
                    } else {
                        assert(open_tile(walk, blocked, c));
                        assert(reset_view[c] == 0);
                    }
                }
                let s = seq![goal];
                assert(s[0] == goal && s.last() == goal && s.len() == 1);
                assert(route_to(walk, blocked, goal, c, s));
            }
            assert(labelled(m, dom) =~= set![goal]) by {
                assert forall|c: TileCoord| labelled(m, dom).contains(c) <==> c == goal by {
                    lemma_key_of_injective(c, goal);
                }
            }
            assert(frontier@[0] == goal);
            assert forall|c: TileCoord| #![trigger m[key_of(c)]]
                in_domain(walk, blocked, goal, c) && m[key_of(c)] == 1 implies frontier@.contains(c) by {
                lemma_key_of_injective(c, goal);
            }
        }
        loop
            invariant_except_break
                ring_start(self.labels@, walk, blocked, goal, dom, d as int, frontier@),
            invariant
                dom == walk.union(blocked).insert(goal),
                dom.finite(),
                dom.len() <= MAX_FIELD_TILES + 1,
                walk == walkable@.to_set(),
                blocked == collision@,
            ensures
                domain_is(self.labels@, walk, blocked, goal),
                fixed_labels(self.labels@, walk, blocked, goal, i32::MAX as int),
                witnessed(self.labels@, walk, blocked, goal),
                closed_below(self.labels@, walk, blocked, i32::MAX as int + 1),
            decreases dom.len() - labelled(self.labels@, dom).len(),
        {
            let ghost m0 = self.labels@;
            proof {
                lemma_labelled_bound(m0, dom);
            }
            let mut next: Vec<TileCoord> = Vec::new();
            let mut i: usize = 0;
            while i < frontier.len()
                invariant
                    0 <= i <= frontier.len(),
                    ring_start(m0, walk, blocked, goal, dom, d as int, frontier@),
                    ring_progress(m0, self.labels@, walk, blocked, goal, dom, d as int, next@),
                    frontier_done(self.labels@, walk, blocked, frontier@, i as int, d as int),
                    dom.finite(),
                    labelled(m0, dom).len() <= dom.len() <= MAX_FIELD_TILES + 1,
                    dom == walk.union(blocked).insert(goal),
                decreases frontier.len() - i,
            {
                let u = frontier[i];
                let mut dir: u8 = 0;
                while dir < 4
                    invariant
                        0 <= dir <= 4,
                        i < frontier.len(),
                        u == frontier@[i as int],
                        ring_start(m0, walk, blocked, goal, dom, d as int, frontier@),
                        ring_progress(m0, self.labels@, walk, blocked, goal, dom, d as int, next@),
                        frontier_done(self.labels@, walk, blocked, frontier@, i as int, d as int),
                        dom.finite(),
                        labelled(m0, dom).len() <= dom.len() <= MAX_FIELD_TILES + 1,
                        dom == walk.union(blocked).insert(goal),
                        forall|k: int| 0 <= k < dir ==> #[trigger] neighbor_done(self.labels@, walk, blocked, neighbor_spec(u, k), d as int),
                    decreases 4 - dir,
                {
                    if let Some(v) = neighbor(u, dir) {
                        let key = tile_key(v);
                        let fresh = match self.labels.get(&key) {
                            Some(l) => *l == 0,
                            None => false,
                        };
                        if fresh {
                            let ghost m1 = self.labels@;
                            proof {
                                lemma_visit(m0, m1, walk, blocked, goal, dom, d as int, next@, u, v);
                            }
                            self.labels.insert(key, d + 1);
                            next.push(v);
                            proof {
                                let m2 = self.labels@;
                                assert forall|k: int| 0 <= k < dir + 1 implies #[trigger] neighbor_done(m2, walk, blocked, neighbor_spec(u, k), d as int) by {
                                    assert(neighbor_done(m1, walk, blocked, neighbor_spec(u, k), d as int) || k == dir);
                                    if let Some(w) = neighbor_spec(u, k) {
                                        lemma_key_of_injective(w, v);
                                    }
                                }
                                assert forall|j: int, w: TileCoord| #![trigger adjacent(frontier@[j], w)]
                                    0 <= j < i && adjacent(frontier@[j], w) && open_tile(walk, blocked, w) implies m2.contains_key(key_of(w)) && 0 < m2[key_of(w)] <= d + 1 by {
                                    lemma_key_of_injective(w, v);
                                }
                            }
                        } else {
                            proof {
                                let m1 = self.labels@;
                                if open_tile(walk, blocked, v) {
                                    assert(in_domain(walk, blocked, goal, v));
                                    assert(m1.contains_key(key_of(v)));
                                    assert(m1[key_of(v)] != 0);
                                    assert(v != goal ==> m0[key_of(v)] >= 0);
                                }
                            }
                        }
                    }
                    dir = dir + 1;
                }
                proof {
                    let m = self.labels@;
                    assert forall|j: int, w: TileCoord| #![trigger adjacent(frontier@[j], w)]
                        0 <= j < i + 1 && adjacent(frontier@[j], w) && open_tile(walk, blocked, w) implies m.contains_key(key_of(w)) && 0 < m[key_of(w)] <= d + 1 by {
                        if j == i {
                            lemma_adjacent_cases(u, w);
                            assert(neighbor_done(m, walk, blocked, neighbor_spec(u, 0), d as int));
                            assert(neighbor_done(m, walk, blocked, neighbor_spec(u, 1), d as int));
                            assert(neighbor_done(m, walk, blocked, neighbor_spec(u, 2), d as int));
                            assert(neighbor_done(m, walk, blocked, neighbor_spec(u, 3), d as int));
                        }
                    }
                }
                i = i + 1;
            }
            proof {
                lemma_ring_end(m0, self.labels@, walk, blocked, goal, dom, d as int, frontier@, next@);
            }
            if next.len() == 0 {
                break;
            }
            frontier = next;
            d = d + 1;
        }
        proof {
            lemma_complete(self, walk, blocked, goal);
        }
    }

}


pub proof fn lemma_hop_unique(
    walk: Set<TileCoord>,
    blocked: Set<TileCoord>,
    goal: TileCoord,
    c: TileCoord,
    a: nat,
    b: nat,
)
    requires
        is_hop_distance(walk, blocked, goal, c, a),
        is_hop_distance(walk, blocked, goal, c, b),
    ensures
        a == b,
{
    let s = choose|s: Seq<TileCoord>| #[trigger] route_to(walk, blocked, goal, c, s) && s.len() == a + 1;
    let t = choose|t: Seq<TileCoord>| #[trigger] route_to(walk, blocked, goal, c, t) && t.len() == b + 1;
}

pub proof fn lemma_goal_hop(walk: Set<TileCoord>, blocked: Set<TileCoord>, goal: TileCoord)
    ensures
        is_hop_distance(walk, blocked, goal, goal, 0),
{
    let s = seq![goal];
    assert(route_to(walk, blocked, goal, goal, s));
}


/// On a complete field, an open tile at hop distance `n` from the goal is labelled `n + 1`.
pub proof fn lemma_reachable_label(
    f: FlowField,
    walk: Set<TileCoord>,
    blocked: Set<TileCoord>,
    goal: TileCoord,
    c: TileCoord,
    n: nat,
)
    requires
        f.is_flow_field(walk, blocked, goal),
        open_tile(walk, blocked, c),
        is_hop_distance(walk, blocked, goal, c, n),
    ensures
        f.label(c) == n + 1,
        f.label(c) > 0,
{
    assert(f@.contains_key(c));
    if c == goal {
        lemma_goal_hop(walk, blocked, goal);
        lemma_hop_unique(walk, blocked, goal, c, n, 0);
    } else {
        let s = choose|s: Seq<TileCoord>| #[trigger] route_to(walk, blocked, goal, c, s) && s.len() == n + 1;
        assert(reachable(walk, blocked, goal, c));
        lemma_hop_unique(walk, blocked, goal, c, n, (f@[c] - 1) as nat);
    }
}

/// On a complete field, a walkable tile that no route from the goal reaches stays `0`.
pub proof fn lemma_unreachable_label(
    f: FlowField,
    walk: Set<TileCoord>,
    blocked: Set<TileCoord>,
    goal: TileCoord,
    c: TileCoord,
)
    requires
        f.is_flow_field(walk, blocked, goal),
        open_tile(walk, blocked, c),
        !reachable(walk, blocked, goal, c),
    ensures
        f.label(c) == 0,
{
    assert(f@.contains_key(c));
    if c == goal {
        assert(route_to(walk, blocked, goal, goal, seq![goal]));
    }
}

/// Two complete fields for the same tiles and goal hold identical labels, so rebuilding for an
/// unchanged goal cell changes nothing.
pub proof fn lemma_rebuild_idempotent(
    f1: FlowField,
    f2: FlowField,
    walk: Set<TileCoord>,
    blocked: Set<TileCoord>,
    goal: TileCoord,
)
    requires
        f1.is_flow_field(walk, blocked, goal),
        f2.is_flow_field(walk, blocked, goal),
    ensures
        f1@ == f2@,
{
    assert forall|c: TileCoord| #[trigger] f1@.contains_key(c) implies f1@[c] == f2@[c] by {
        assert(f2@.contains_key(c));
        if c != goal && !blocked.contains(c) {
            assert(open_tile(walk, blocked, c));
            if reachable(walk, blocked, goal, c) {
                lemma_hop_unique(walk, blocked, goal, c, (f1@[c] - 1) as nat, (f2@[c] - 1) as nat);
            }
        }
    }
    assert(f1@ =~= f2@);
}

pub proof fn lemma_route_extend(
    walk: Set<TileCoord>,
    blocked: Set<TileCoord>,
    goal: TileCoord,
    s: Seq<TileCoord>,
    v: TileCoord,
)
    requires
        is_route(walk, blocked, goal, s),
        adjacent(s.last(), v),
        open_tile(walk, blocked, v),
    ensures
        route_to(walk, blocked, goal, v, s.push(v)),
        s.push(v).len() == s.len() + 1,
{
    let t = s.push(v);
    assert forall|i: int| 1 <= i < t.len() implies open_tile(walk, blocked, #[trigger] t[i])
        && adjacent(t[i - 1], t[i]) by {
        if i < s.len() {
            assert(t[i] == s[i] && t[i - 1] == s[i - 1]);
        }
    }
}

/// Along any route, labels closed under steps stay positive and grow by at most one per step.
proof fn lemma_route_bound(
    m: Map<u64, i32>,
    walk: Set<TileCoord>,
    blocked: Set<TileCoord>,
    goal: TileCoord,
    s: Seq<TileCoord>,
)
    requires
        forall|c: TileCoord| #[trigger]
            m.contains_key(key_of(c)) <==> in_domain(walk, blocked, goal, c),
        m[key_of(goal)] == 1,
        closed_below(m, walk, blocked, i32::MAX as int + 1),
        is_route(walk, blocked, goal, s),
    ensures
        m.contains_key(key_of(s.last())),
        0 < m[key_of(s.last())] <= s.len(),
    decreases s.len(),
{
    if s.len() > 1 {
        let p = s.drop_last();
        assert(is_route(walk, blocked, goal, p)) by {
            assert forall|i: int| 1 <= i < p.len() implies open_tile(walk, blocked, #[trigger] p[i])
                && adjacent(p[i - 1], p[i]) by {
                assert(p[i] == s[i] && p[i - 1] == s[i - 1]);
            }
        }
        lemma_route_bound(m, walk, blocked, goal, p);
        let i = s.len() - 1;
        assert(open_tile(walk, blocked, s[i]) && adjacent(s[i - 1], s[i]));
        assert(p.last() == s[i - 1]);
        assert(m[key_of(p.last())] < i32::MAX as int + 1);
    }
}

proof fn lemma_labelled_bound(m: Map<u64, i32>, dom: Set<TileCoord>)
    requires
        dom.finite(),
    ensures
        labelled(m, dom).finite(),
        labelled(m, dom).len() <= dom.len(),
{
    dom.lemma_len_filter(|c: TileCoord| m.contains_key(key_of(c)) && m[key_of(c)] > 0);
}

/// Labelling one unvisited neighbour `v` of a frontier cell `u` with `d + 1` keeps the ring's
/// progress.
proof fn lemma_visit(
    m0: Map<u64, i32>,
    m1: Map<u64, i32>,
    walk: Set<TileCoord>,
    blocked: Set<TileCoord>,
    goal: TileCoord,
    dom: Set<TileCoord>,
    d: int,
    next: Seq<TileCoord>,
    u: TileCoord,
    v: TileCoord,
)
    requires
        domain_is(m0, walk, blocked, goal),
        fixed_labels(m0, walk, blocked, goal, d),
        ring_progress(m0, m1, walk, blocked, goal, dom, d, next),
        in_domain(walk, blocked, goal, u),
        m0[key_of(u)] == d,
        1 <= d,
        adjacent(u, v),
        m1.contains_key(key_of(v)),
        m1[key_of(v)] == 0,
        d + 1 < i32::MAX,
        dom == walk.union(blocked).insert(goal),
        dom.finite(),
    ensures
        ring_progress(
            m0,
            m1.insert(key_of(v), (d + 1) as i32),
            walk,
            blocked,
            goal,
            dom,
            d,
            next.push(v),
        ),
        open_tile(walk, blocked, v),
{
    let m2 = m1.insert(key_of(v), (d + 1) as i32);
    let n2 = next.push(v);
    assert(in_domain(walk, blocked, goal, v));
    assert(m0[key_of(v)] == 0);
    assert(v != goal);
    assert(open_tile(walk, blocked, v));
    assert(m1[key_of(u)] == d);
    assert forall|c: TileCoord| #[trigger] m2.contains_key(key_of(c)) <==> in_domain(walk, blocked, goal, c) by {
        lemma_key_of_injective(c, v);
    }
    assert forall|c: TileCoord| #![trigger m2[key_of(c)]]
        in_domain(walk, blocked, goal, c) implies (m0[key_of(c)] != 0 ==> m2[key_of(c)] == m0[key_of(c)]) && (m0[key_of(c)] == 0 ==> m2[key_of(c)] == 0 || m2[key_of(c)] == d + 1) by {
        lemma_key_of_injective(c, v);
        assert(m1[key_of(c)] == m1[key_of(c)]);
    }
    assert forall|c: TileCoord| #![trigger m2[key_of(c)]]
        m2.contains_key(key_of(c)) && m2[key_of(c)] > 0 implies exists|s: Seq<TileCoord>|
            #[trigger] route_to(walk, blocked, goal, c, s) && s.len() == m2[key_of(c)] by {
        lemma_key_of_injective(c, v);
        if c == v {
            assert(m1.contains_key(key_of(u)) && m1[key_of(u)] > 0);
            let s = choose|s: Seq<TileCoord>| #[trigger] route_to(walk, blocked, goal, u, s) && s.len() == m1[key_of(u)];
            lemma_route_extend(walk, blocked, goal, s, v);
        } else {
            assert(m1[key_of(c)] == m2[key_of(c)]);
        }
    }
    assert forall|j: int| 0 <= j < n2.len() implies in_domain(walk, blocked, goal, #[trigger] n2[j])
        && m0[key_of(n2[j])] == 0 && m2[key_of(n2[j])] == d + 1 by {
        if j < next.len() {
            assert(n2[j] == next[j]);
            lemma_key_of_injective(next[j], v);
        }
    }
    assert forall|c: TileCoord| #![trigger m2[key_of(c)]]
        in_domain(walk, blocked, goal, c) && m0[key_of(c)] == 0 && m2[key_of(c)] == d + 1
            implies n2.contains(c) by {
        lemma_key_of_injective(c, v);
        if c == v {
            assert(n2[next.len() as int] == v);
        } else {
            assert(m1[key_of(c)] == d + 1);
            assert(next.contains(c));
            let j = choose|j: int| 0 <= j < next.len() && next[j] == c;
            assert(n2[j] == c);
        }
    }
    assert(labelled(m2, dom) =~= labelled(m1, dom).insert(v)) by {
        assert forall|c: TileCoord| labelled(m2, dom).contains(c) <==> labelled(m1, dom).insert(v).contains(c) by {
            lemma_key_of_injective(c, v);
        }
    }
    assert(!labelled(m1, dom).contains(v));
}

/// Closing a ring: either nothing new was labelled and the labelling is complete, or the
/// newly labelled cells form the next ring.
proof fn lemma_ring_end(
    m0: Map<u64, i32>,
    m: Map<u64, i32>,
    walk: Set<TileCoord>,
    blocked: Set<TileCoord>,
    goal: TileCoord,
    dom: Set<TileCoord>,
    d: int,
    frontier: Seq<TileCoord>,
    next: Seq<TileCoord>,
)
    requires
        ring_start(m0, walk, blocked, goal, dom, d, frontier),
        ring_progress(m0, m, walk, blocked, goal, dom, d, next),
        frontier_done(m, walk, blocked, frontier, frontier.len() as int, d),
        dom == walk.union(blocked).insert(goal),
        dom.finite(),
        dom.len() <= MAX_FIELD_TILES + 1,
    ensures
        next.len() == 0 ==> {
            &&& domain_is(m, walk, blocked, goal)
            &&& fixed_labels(m, walk, blocked, goal, i32::MAX as int)
            &&& witnessed(m, walk, blocked, goal)
            &&& closed_below(m, walk, blocked, i32::MAX as int + 1)
        },
        labelled(m, dom).len() <= dom.len(),
        next.len() > 0 ==> {
            &&& ring_start(m, walk, blocked, goal, dom, d + 1, next)
            &&& d + 1 < i32::MAX
            &&& labelled(m, dom).len() > labelled(m0, dom).len()
        },
{
    lemma_labelled_bound(m, dom);
    assert(m[key_of(goal)] == 1) by {
        assert(in_domain(walk, blocked, goal, goal));
    }
    assert forall|c: TileCoord| #![trigger m[key_of(c)]]
        c != goal && blocked.contains(c) implies m[key_of(c)] == -1 by {
        assert(m0[key_of(c)] == -1);
    }
    assert forall|c: TileCoord| #![trigger m[key_of(c)]]
        c != goal && open_tile(walk, blocked, c) implies 0 <= m[key_of(c)] <= d + 1 by {
        assert(0 <= m0[key_of(c)] <= d);
    }
    assert forall|c: TileCoord, v: TileCoord| #![trigger m[key_of(c)], m[key_of(v)]]
        m.contains_key(key_of(c)) && 0 < m[key_of(c)] < d + 1 && adjacent(c, v) && open_tile(walk, blocked, v)
        implies m.contains_key(key_of(v)) && 0 < m[key_of(v)] <= m[key_of(c)] + 1 by {
        assert(in_domain(walk, blocked, goal, c));
        assert(m0[key_of(c)] == m[key_of(c)]);
        assert(in_domain(walk, blocked, goal, v));
        if m0[key_of(c)] < d {
            assert(0 < m0[key_of(v)] <= m0[key_of(c)] + 1);
        } else {
            assert(frontier.contains(c));
            let j = choose|j: int| 0 <= j < frontier.len() && frontier[j] == c;
            assert(adjacent(frontier[j], v));
        }
    }
    if next.len() == 0 {
        assert forall|c: TileCoord| #![trigger m[key_of(c)]]
            m.contains_key(key_of(c)) implies m[key_of(c)] <= d by {
            assert(in_domain(walk, blocked, goal, c));
            if m0[key_of(c)] == 0 && m[key_of(c)] == d + 1 {
                assert(next.contains(c));
            }
        }
    } else {
        assert forall|c: TileCoord| #![trigger m[key_of(c)]]
            in_domain(walk, blocked, goal, c) && m[key_of(c)] == d + 1 implies next.contains(c) by {
            if m0[key_of(c)] != 0 {
                assert(m0[key_of(c)] <= d);
            }
        }
    }
}

/// A labelling closed under steps, with witnessed labels, is the breadth-first labelling.
proof fn lemma_complete(f: &FlowField, walk: Set<TileCoord>, blocked: Set<TileCoord>, goal: TileCoord)
    requires
        domain_is(f.labels@, walk, blocked, goal),
        fixed_labels(f.labels@, walk, blocked, goal, i32::MAX as int),
        witnessed(f.labels@, walk, blocked, goal),
        closed_below(f.labels@, walk, blocked, i32::MAX as int + 1),
    ensures
        f.is_flow_field(walk, blocked, goal),
{
    let m = f.labels@;
    assert forall|c: TileCoord| #[trigger] f@.contains_key(c) <==> in_domain(walk, blocked, goal, c) by {
        assert(f@.contains_key(c) == m.contains_key(key_of(c)));
    }
    assert(f@[goal] == 1) by {
        assert(m.contains_key(key_of(goal)));
    }
    assert forall|c: TileCoord| c != goal && #[trigger] blocked.contains(c) implies f@[c] == -1 by {
        assert(m.contains_key(key_of(c)));
        assert(m[key_of(c)] == -1);
    }
    assert forall|c: TileCoord| c != goal && #[trigger] open_tile(walk, blocked, c) implies if reachable(walk, blocked, goal, c) {
        f@[c] >= 1 && is_hop_distance(walk, blocked, goal, c, (f@[c] - 1) as nat)
    } else {
        f@[c] == 0
    } by {
        assert(m.contains_key(key_of(c)));
        assert(f@[c] == m[key_of(c)]);
        assert(0 <= m[key_of(c)]);
        if reachable(walk, blocked, goal, c) {
            let s = choose|s: Seq<TileCoord>| #[trigger] route_to(walk, blocked, goal, c, s);
            lemma_route_bound(m, walk, blocked, goal, s);
            assert(m[key_of(c)] > 0);
            assert forall|t: Seq<TileCoord>| #[trigger] route_to(walk, blocked, goal, c, t) implies t.len() >= m[key_of(c)] by {
                lemma_route_bound(m, walk, blocked, goal, t);
            }
        } else {
            if m[key_of(c)] > 0 {
                let s = choose|s: Seq<TileCoord>| #[trigger] route_to(walk, blocked, goal, c, s) && s.len() == m[key_of(c)];
                assert(route_to(walk, blocked, goal, c, s));
            }
        }
    }
}

proof fn lemma_prefix_step(s: Seq<TileCoord>, i: int)
    requires
        0 <= i < s.len(),
    ensures
        forall|t: TileCoord| #[trigger]
            s.subrange(0, i + 1).contains(t) <==> (s.subrange(0, i).contains(t) || t == s[i]),
{
    let a = s.subrange(0, i);
    let b = s.subrange(0, i + 1);
    assert forall|t: TileCoord| #[trigger] b.contains(t) <==> (a.contains(t) || t == s[i]) by {
        if a.contains(t) {
            let j = choose|j: int| 0 <= j < a.len() && a[j] == t;
            assert(b[j] == t);
        }
        if b.contains(t) && t != s[i] {
            let j = choose|j: int| 0 <= j < b.len() && b[j] == t;
            assert(a[j] == t);
        }
        assert(b[i] == s[i]);
    }
}

} // verus!
