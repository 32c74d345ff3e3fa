//! Breadth-first path finding over the tile grid.
use vstd::prelude::*;
use vstd::set_lib::{lemma_int_range, lemma_len_subset, set_int_range};

use crate::map::GameMap;

verus! {

/// Two cells one step apart horizontally or vertically.
pub open spec fn adjacent(a: (i32, i32), b: (i32, i32)) -> bool {
    ||| a.0 == b.0 && (a.1 - b.1 == 1 || b.1 - a.1 == 1)
    ||| a.1 == b.1 && (a.0 - b.0 == 1 || b.0 - a.0 == 1)
}

/// The order in which the search looks at the neighbours of `a`:
/// right, left, up, down.
pub open spec fn step_rank(a: (i32, i32), b: (i32, i32)) -> int {
    if b.0 == a.0 + 1 {
        0
    } else if b.0 == a.0 - 1 {
        1
    } else if b.1 == a.1 + 1 {
        2
    } else {
        3
    }
}

/// The search order rank of each step of the walk `p`.
pub open spec fn ranks(p: Seq<(i32, i32)>) -> Seq<int> {
    if p.len() == 0 {
        Seq::empty()
    } else {
        Seq::new((p.len() - 1) as nat, |i: int| step_rank(p[i], p[i + 1]))
    }
}

/// `a` comes strictly before `b` (of the same length) in lexicographic order.
pub open spec fn lex_lt(a: Seq<int>, b: Seq<int>) -> bool
    decreases a.len(),
{
    if a.len() == 0 {
        false
    } else {
        lex_lt(a.drop_last(), b.drop_last()) || (a.drop_last() == b.drop_last() && a.last()
            < b.last())
    }
}

/// `a` equals `b` or comes before it in lexicographic order.
pub open spec fn lex_le(a: Seq<int>, b: Seq<int>) -> bool {
    a == b || lex_lt(a, b)
}

proof fn lemma_lex_push(a: Seq<int>, b: Seq<int>, x: int, y: int)
    requires
        a.len() == b.len(),
    ensures
        lex_lt(a.push(x), b.push(y)) == (lex_lt(a, b) || (a == b && x < y)),
        lex_le(a, b) && x <= y ==> lex_le(a.push(x), b.push(y)),
{
    assert(a.push(x).drop_last() =~= a);
    assert(b.push(y).drop_last() =~= b);
}

proof fn lemma_lex_trans(a: Seq<int>, b: Seq<int>, c: Seq<int>)
    requires
        a.len() == b.len(),
        b.len() == c.len(),
    ensures
        lex_lt(a, b) && lex_lt(b, c) ==> lex_lt(a, c),
        lex_le(a, b) && lex_le(b, c) ==> lex_le(a, c),
        lex_lt(a, b) && lex_le(b, c) ==> lex_lt(a, c),
        lex_le(a, b) && lex_lt(b, c) ==> lex_lt(a, c),
    decreases a.len(),
{
    if a.len() > 0 {
        lemma_lex_trans(a.drop_last(), b.drop_last(), c.drop_last());
    }
}

proof fn lemma_ranks_len(s: Seq<(i32, i32)>)
    requires
        s.len() >= 1,
    ensures
        ranks(s).len() == s.len() - 1,
{
}

proof fn lemma_ranks_push(s: Seq<(i32, i32)>, x: (i32, i32))
    requires
        s.len() >= 1,
    ensures
        ranks(s.push(x)) == ranks(s).push(step_rank(s.last(), x)),
        ranks(s).len() == s.len() - 1,
{
    assert(ranks(s.push(x)) =~= ranks(s).push(step_rank(s.last(), x)));
}

impl GameMap {
    pub open spec fn cell_in(&self, c: (i32, i32)) -> bool {
        self.spec_in_bounds(c.0 as int, c.1 as int)
    }

    pub open spec fn cell_idx(&self, c: (i32, i32)) -> int {
        self.spec_idx(c.0 as int, c.1 as int)
    }

    /// A cell a walker may enter: on the map, and either not solid or one of the goals.
    pub open spec fn passable(&self, goals: Seq<(i32, i32)>, c: (i32, i32)) -> bool {
        self.cell_in(c) && (!self.tile(c.0 as int, c.1 as int).solid || goals.contains(c))
    }

    /// `p` starts at `start` and each later cell is a passable neighbour of the one before.
    pub open spec fn is_walk(&self, goals: Seq<(i32, i32)>, start: (i32, i32), p: Seq<(i32, i32)>) -> bool {
        &&& p.len() >= 1
        &&& p[0] == start
        &&& forall|i: int|
            #![trigger p[i]]
            1 <= i < p.len() ==> self.passable(goals, p[i]) && adjacent(p[i - 1], p[i])
    }

    /// A walk from `start` that ends on one of the goals.
    pub open spec fn walk_to_goal(
        &self,
        goals: Seq<(i32, i32)>,
        start: (i32, i32),
        p: Seq<(i32, i32)>,
    ) -> bool {
        self.is_walk(goals, start, p) && goals.contains(p.last())
    }

    /// Facts of the search state that the optimality argument needs: `q` holds the
    /// discovered cells, `dist` their distances in queue order, and the first
    /// `expanded` cells of `q` are no goals and have all their passable neighbours
    /// discovered at distance at most one more.
    pub open spec fn search_facts(
        &self,
        goals: Seq<(i32, i32)>,
        start: (i32, i32),
        q: Seq<(i32, i32)>,
        dist: Map<(i32, i32), nat>,
        expanded: int,
    ) -> bool {
        &&& 0 <= expanded <= q.len()
        &&& dist.dom().contains(start)
        &&& dist[start] == 0
        &&& forall|j: int| #![trigger q[j]] 0 <= j < q.len() ==> dist.dom().contains(q[j])
        &&& forall|c: (i32, i32)|
            #![trigger dist.dom().contains(c)]
            dist.dom().contains(c) ==> exists|j: int| #![trigger q[j]] 0 <= j < q.len() && q[j] == c
        &&& forall|j1: int, j2: int|
            #![trigger q[j1], q[j2]]
            0 <= j1 <= j2 < q.len() ==> dist[q[j1]] <= dist[q[j2]]
        &&& forall|j: int|
            #![trigger q[j]]
            0 <= j < expanded ==> !goals.contains(q[j])
        &&& forall|j: int, v: (i32, i32)|
            #![trigger adjacent(q[j], v)]
            0 <= j < expanded && adjacent(q[j], v) && self.passable(goals, v) ==> dist.dom().contains(v)
                && dist[v] <= dist[q[j]] + 1
    }

    /// `c` was discovered from a passable neighbour `p` one step closer to the start.
    pub open spec fn parent_ok(
        &self,
        goals: Seq<(i32, i32)>,
        dist: Map<(i32, i32), nat>,
        came: Seq<Option<Option<(i32, i32)>>>,
        c: (i32, i32),
    ) -> bool {
        match came[self.cell_idx(c)] {
            Some(Some(p)) => {
                &&& dist.dom().contains(p)
                &&& adjacent(p, c)
                &&& dist[c] == dist[p] + 1
                &&& self.passable(goals, c)
            },
            _ => false,
        }
    }

    /// `c` hangs in the search tree below its discovery parent `p`, and `p` is
    /// one of the first `e` cells of the queue, or else `cur` seen in a
    /// direction before `d`.
    pub open spec fn tree_link(
        &self,
        came: Seq<Option<Option<(i32, i32)>>>,
        q: Seq<(i32, i32)>,
        tree: Map<(i32, i32), Seq<(i32, i32)>>,
        c: (i32, i32),
        e: int,
        cur: (i32, i32),
        d: int,
    ) -> bool {
        match came[self.cell_idx(c)] {
            Some(Some(p)) => {
                &&& tree[c] == tree[p].push(c)
                &&& (exists|j: int| #![trigger q[j]] 0 <= j < e && q[j] == p) || (p == cur
                    && step_rank(cur, c) < d)
            },
            _ => false,
        }
    }

    /// The search tree: `tree[c]` is the walk from the start to `c` along
    /// discovery links, and cells of one distance stand in the queue in the
    /// lexicographic order of the step ranks of their tree walks.
    pub open spec fn tree_ok(
        &self,
        goals: Seq<(i32, i32)>,
        start: (i32, i32),
        came: Seq<Option<Option<(i32, i32)>>>,
        q: Seq<(i32, i32)>,
        dist: Map<(i32, i32), nat>,
        tree: Map<(i32, i32), Seq<(i32, i32)>>,
        e: int,
        cur: (i32, i32),
        d: int,
    ) -> bool {
        &&& tree[start] == seq![start]
        &&& forall|c: (i32, i32)|
            #![trigger dist.dom().contains(c)]
            dist.dom().contains(c) ==> {
                &&& tree.dom().contains(c)
                &&& tree[c].len() == dist[c] + 1
                &&& tree[c].last() == c
                &&& self.is_walk(goals, start, tree[c])
                &&& c != start ==> self.tree_link(came, q, tree, c, e, cur, d)
            }
        &&& forall|j1: int, j2: int|
            #![trigger q[j1], q[j2]]
            0 <= j1 < j2 < q.len() && dist[q[j1]] == dist[q[j2]] ==> lex_lt(
                ranks(tree[q[j1]]),
                ranks(tree[q[j2]]),
            )
    }

    /// Reached from the expanded cell `q[j]`, a cell one step farther has a tree
    /// walk no later in order than the walk through `q[j]`.
    pub open spec fn near_ok(
        &self,
        goals: Seq<(i32, i32)>,
        q: Seq<(i32, i32)>,
        dist: Map<(i32, i32), nat>,
        tree: Map<(i32, i32), Seq<(i32, i32)>>,
        e: int,
    ) -> bool {
        forall|j: int, v: (i32, i32)|
            #![trigger adjacent(q[j], v)]
            0 <= j < e && adjacent(q[j], v) && self.passable(goals, v) && dist.dom().contains(v)
                && dist[v] == dist[q[j]] + 1 ==> lex_le(ranks(tree[v]), ranks(tree[q[j]].push(v)))
    }

    /// `near_ok` for the cell `cur` being expanded, over the directions before `d`.
    pub open spec fn near_cur(
        &self,
        goals: Seq<(i32, i32)>,
        dist: Map<(i32, i32), nat>,
        tree: Map<(i32, i32), Seq<(i32, i32)>>,
        cur: (i32, i32),
        d: int,
    ) -> bool {
        forall|v: (i32, i32)|
            #![trigger adjacent(cur, v)]
            adjacent(cur, v) && step_rank(cur, v) < d && self.passable(goals, v)
                && dist.dom().contains(v) && dist[v] == dist[cur] + 1 ==> lex_le(
                ranks(tree[v]),
                ranks(tree[cur].push(v)),
            )
    }

    /// Bookkeeping of the search: the goal table, the discovery table `came`
    /// (indexed by tile), the queue, and the ghost distance map and set of
    /// discovered tile indices agree with one another.
    pub open spec fn frontier_ok(
        &self,
        goals: Seq<(i32, i32)>,
        start: (i32, i32),
        is_goal: Seq<bool>,
        came: Seq<Option<Option<(i32, i32)>>>,
        q: Seq<(i32, i32)>,
        dist: Map<(i32, i32), nat>,
        seen: Set<int>,
        n: int,
    ) -> bool {
        &&& self.wf()
        &&& n == self.tiles@.len()
        &&& is_goal.len() == n
        &&& came.len() == n
        &&& forall|c: (i32, i32)|
            #![trigger self.cell_idx(c)]
            self.cell_in(c) ==> (is_goal[self.cell_idx(c)] <==> goals.contains(c))
        &&& self.cell_in(start)
        &&& forall|j: int| #![trigger q[j]] 0 <= j < q.len() ==> self.cell_in(q[j])
        &&& forall|c: (i32, i32)|
            #![trigger dist.dom().contains(c)]
            dist.dom().contains(c) ==> self.cell_in(c)
        &&& forall|c: (i32, i32)|
            #![trigger came[self.cell_idx(c)]]
            self.cell_in(c) ==> (came[self.cell_idx(c)] is Some <==> dist.dom().contains(c))
        &&& came[self.cell_idx(start)] == Some(None::<(i32, i32)>)
        &&& forall|c: (i32, i32)|
            #![trigger dist.dom().contains(c)]
            dist.dom().contains(c) && c != start ==> self.parent_ok(goals, dist, came, c)
        &&& seen.finite()
        &&& seen.len() == q.len()
        &&& forall|i: int| #![trigger seen.contains(i)] seen.contains(i) ==> 0 <= i < n
        &&& forall|i: int| 0 <= i < n ==> (#[trigger] came[i] is Some <==> seen.contains(i))
    }

    /// At the start of expanding `cur`, no cell hangs below it yet.
    proof fn lemma_route_open(
        &self,
        goals: Seq<(i32, i32)>,
        start: (i32, i32),
        came: Seq<Option<Option<(i32, i32)>>>,
        q: Seq<(i32, i32)>,
        dist: Map<(i32, i32), nat>,
        tree: Map<(i32, i32), Seq<(i32, i32)>>,
        cur_pos: int,
        cur: (i32, i32),
    )
        requires
            self.tree_ok(goals, start, came, q, dist, tree, cur_pos, start, 0),
        ensures
            self.tree_ok(goals, start, came, q, dist, tree, cur_pos, cur, 0),
            self.near_cur(goals, dist, tree, cur, 0),
    {
        assert forall|c: (i32, i32)| #![trigger dist.dom().contains(c)] dist.dom().contains(c) && c
            != start implies self.tree_link(came, q, tree, c, cur_pos, cur, 0) by {
            assert(self.tree_link(came, q, tree, c, cur_pos, start, 0));
        }
    }

    /// With all four directions of `cur` done, `cur` counts among the expanded cells.
    proof fn lemma_route_close(
        &self,
        goals: Seq<(i32, i32)>,
        start: (i32, i32),
        came: Seq<Option<Option<(i32, i32)>>>,
        q: Seq<(i32, i32)>,
        dist: Map<(i32, i32), nat>,
        tree: Map<(i32, i32), Seq<(i32, i32)>>,
        cur_pos: int,
        cur: (i32, i32),
    )
        requires
            self.tree_ok(goals, start, came, q, dist, tree, cur_pos, cur, 4),
            self.near_cur(goals, dist, tree, cur, 4),
            self.near_ok(goals, q, dist, tree, cur_pos),
            0 <= cur_pos < q.len(),
            q[cur_pos] == cur,
        ensures
            self.tree_ok(goals, start, came, q, dist, tree, cur_pos + 1, start, 0),
            self.near_ok(goals, q, dist, tree, cur_pos + 1),
    {
        assert forall|c: (i32, i32)| #![trigger dist.dom().contains(c)] dist.dom().contains(c) && c
            != start implies self.tree_link(came, q, tree, c, cur_pos + 1, start, 0) by {
            assert(self.tree_link(came, q, tree, c, cur_pos, cur, 4));
            let p = came[self.cell_idx(c)]->Some_0->Some_0;
            if p == cur {
                assert(q[cur_pos] == p);
            } else {
                let j = choose|j: int| #![trigger q[j]] 0 <= j < cur_pos && q[j] == p;
                assert(q[j] == p);
            }
        }
        assert forall|j: int, w: (i32, i32)| #![trigger adjacent(q[j], w)]
            0 <= j < cur_pos + 1 && adjacent(q[j], w) && self.passable(goals, w) && dist.dom().contains(w)
                && dist[w] == dist[q[j]] + 1 implies lex_le(ranks(tree[w]), ranks(tree[q[j]].push(w))) by {
            if j == cur_pos {
                assert(step_rank(cur, w) < 4);
            }
        }
    }

    /// Passing over the neighbour `v` of `cur` in direction `d` (it is blocked or
    /// already discovered) keeps the tree facts, now up to direction `d + 1`.
    proof fn lemma_route_keep(
        &self,
        goals: Seq<(i32, i32)>,
        start: (i32, i32),
        came: Seq<Option<Option<(i32, i32)>>>,
        q: Seq<(i32, i32)>,
        dist: Map<(i32, i32), nat>,
        tree: Map<(i32, i32), Seq<(i32, i32)>>,
        cur_pos: int,
        cur: (i32, i32),
        d: int,
        v: (i32, i32),
    )
        requires
            self.tree_ok(goals, start, came, q, dist, tree, cur_pos, cur, d),
            self.near_cur(goals, dist, tree, cur, d),
            forall|c: (i32, i32)|
                #![trigger dist.dom().contains(c)]
                dist.dom().contains(c) && c != start ==> self.parent_ok(goals, dist, came, c),
            dist.dom().contains(start),
            dist[start] == 0,
            0 <= cur_pos < q.len(),
            q[cur_pos] == cur,
            dist.dom().contains(cur),
            adjacent(cur, v),
            step_rank(cur, v) == d,
            !self.passable(goals, v) || dist.dom().contains(v),
        ensures
            self.tree_ok(goals, start, came, q, dist, tree, cur_pos, cur, d + 1),
            self.near_cur(goals, dist, tree, cur, d + 1),
    {
        assert forall|c: (i32, i32)| #![trigger dist.dom().contains(c)] dist.dom().contains(c) && c
            != start implies self.tree_link(came, q, tree, c, cur_pos, cur, d + 1) by {
            assert(self.tree_link(came, q, tree, c, cur_pos, cur, d));
        }
        assert forall|w: (i32, i32)| #![trigger adjacent(cur, w)]
            adjacent(cur, w) && step_rank(cur, w) < d + 1 && self.passable(goals, w)
                && dist.dom().contains(w) && dist[w] == dist[cur] + 1 implies lex_le(
            ranks(tree[w]),
            ranks(tree[cur].push(w)),
        ) by {
            if step_rank(cur, w) == d {
                assert(w == v);
                assert(w != start);
                assert(self.tree_link(came, q, tree, w, cur_pos, cur, d));
                assert(self.parent_ok(goals, dist, came, w));
                let p = came[self.cell_idx(w)]->Some_0->Some_0;
                let j = choose|j: int| #![trigger q[j]] 0 <= j < cur_pos && q[j] == p;
                assert(dist.dom().contains(p));
                assert(lex_lt(ranks(tree[q[j]]), ranks(tree[q[cur_pos]])));
                lemma_ranks_push(tree[p], w);
                lemma_ranks_push(tree[cur], w);
                lemma_lex_push(ranks(tree[p]), ranks(tree[cur]), step_rank(p, w), step_rank(cur, w));
            }
        }
    }

    /// Discovering the neighbour `v` of `cur` in direction `d` hangs it below
    /// `cur` in the search tree and keeps the tree facts.
    proof fn lemma_route_discover(
        &self,
        goals: Seq<(i32, i32)>,
        start: (i32, i32),
        is_goal: Seq<bool>,
        cur: (i32, i32),
        cur_pos: int,
        d: int,
        v: (i32, i32),
        came0: Seq<Option<Option<(i32, i32)>>>,
        came1: Seq<Option<Option<(i32, i32)>>>,
        q0: Seq<(i32, i32)>,
        q1: Seq<(i32, i32)>,
        dist0: Map<(i32, i32), nat>,
        dist1: Map<(i32, i32), nat>,
        tree0: Map<(i32, i32), Seq<(i32, i32)>>,
        tree1: Map<(i32, i32), Seq<(i32, i32)>>,
        seen0: Set<int>,
        n: int,
    )
        requires
            self.frontier_ok(goals, start, is_goal, came0, q0, dist0, seen0, n),
            self.search_facts(goals, start, q0, dist0, cur_pos),
            self.tree_ok(goals, start, came0, q0, dist0, tree0, cur_pos, cur, d),
            self.near_cur(goals, dist0, tree0, cur, d),
            self.near_ok(goals, q0, dist0, tree0, cur_pos),
            0 <= cur_pos < q0.len(),
            q0[cur_pos] == cur,
            adjacent(cur, v),
            step_rank(cur, v) == d,
            self.passable(goals, v),
            !dist0.dom().contains(v),
            came1 == came0.update(self.cell_idx(v), Some(Some(cur))),
            q1 == q0.push(v),
            dist1 == dist0.insert(v, (dist0[cur] + 1) as nat),
            tree1 == tree0.insert(v, tree0[cur].push(v)),
        ensures
            self.tree_ok(goals, start, came1, q1, dist1, tree1, cur_pos, cur, d + 1),
            self.near_cur(goals, dist1, tree1, cur, d + 1),
            self.near_ok(goals, q1, dist1, tree1, cur_pos),
    {
        self.lemma_cell(v.0 as int, v.1 as int);
        assert(dist0.dom().contains(cur));
        assert(v != start && v != cur);
        assert(tree1[start] == tree0[start]);
        assert(tree1[cur] == tree0[cur]);
        // The tree walk to `v`.
        assert(self.is_walk(goals, start, tree1[v])) by {
            let t = tree0[cur];
            assert(self.is_walk(goals, start, t));
            assert forall|i: int| #![trigger tree1[v][i]] 1 <= i < tree1[v].len() implies self.passable(
                goals,
                tree1[v][i],
            ) && adjacent(tree1[v][i - 1], tree1[v][i]) by {
                if i < t.len() {
                    assert(tree1[v][i] == t[i]);
                    assert(tree1[v][i - 1] == t[i - 1]);
                }
            }
        }
        assert forall|c: (i32, i32)| #![trigger dist1.dom().contains(c)] dist1.dom().contains(c) implies {
            &&& tree1.dom().contains(c)
            &&& tree1[c].len() == dist1[c] + 1
            &&& tree1[c].last() == c
            &&& self.is_walk(goals, start, tree1[c])
            &&& c != start ==> self.tree_link(came1, q1, tree1, c, cur_pos, cur, d + 1)
        } by {
            if c == v {
                assert(came1[self.cell_idx(v)] == Some(Some(cur)));
            } else {
                assert(dist0.dom().contains(c));
                self.lemma_cell(c.0 as int, c.1 as int);
                self.lemma_cells_distinct(c.0 as int, c.1 as int, v.0 as int, v.1 as int);
                assert(came1[self.cell_idx(c)] == came0[self.cell_idx(c)]);
                if c != start {
                    assert(self.tree_link(came0, q0, tree0, c, cur_pos, cur, d));
                    assert(self.parent_ok(goals, dist0, came0, c));
                    let p = came0[self.cell_idx(c)]->Some_0->Some_0;
                    assert(dist0.dom().contains(p));
                    assert(tree1[p] == tree0[p]);
                    if exists|j: int| #![trigger q0[j]] 0 <= j < cur_pos && q0[j] == p {
                        let j = choose|j: int| #![trigger q0[j]] 0 <= j < cur_pos && q0[j] == p;
                        assert(q1[j] == p);
                    }
                }
            }
        }
        assert forall|j1: int, j2: int| #![trigger q1[j1], q1[j2]]
            0 <= j1 < j2 < q1.len() && dist1[q1[j1]] == dist1[q1[j2]] implies lex_lt(
            ranks(tree1[q1[j1]]),
            ranks(tree1[q1[j2]]),
        ) by {
            let c = q1[j1];
            assert(c == q0[j1]);
            assert(dist0.dom().contains(c));
            assert(c != v);
            if j2 < q0.len() {
                assert(q1[j2] == q0[j2]);
                assert(dist0.dom().contains(q0[j2]));
                assert(q0[j2] != v);
            } else {
                assert(q1[j2] == v);
                assert(c != start);
                assert(self.tree_link(came0, q0, tree0, c, cur_pos, cur, d));
                assert(self.parent_ok(goals, dist0, came0, c));
                let p = came0[self.cell_idx(c)]->Some_0->Some_0;
                assert(dist0.dom().contains(p));
                assert(dist0[p] == dist0[cur]);
                lemma_ranks_push(tree0[p], c);
                lemma_ranks_push(tree0[cur], v);
                if exists|j: int| #![trigger q0[j]] 0 <= j < cur_pos && q0[j] == p {
                    let j = choose|j: int| #![trigger q0[j]] 0 <= j < cur_pos && q0[j] == p;
                    assert(lex_lt(ranks(tree0[q0[j]]), ranks(tree0[q0[cur_pos]])));
                    lemma_lex_push(ranks(tree0[p]), ranks(tree0[cur]), step_rank(p, c), step_rank(cur, v));
                } else {
                    assert(p == cur);
                    lemma_lex_push(ranks(tree0[p]), ranks(tree0[cur]), step_rank(p, c), step_rank(cur, v));
                }
            }
        }
        assert forall|j: int, w: (i32, i32)| #![trigger adjacent(q1[j], w)]
            0 <= j < cur_pos && adjacent(q1[j], w) && self.passable(goals, w) && dist1.dom().contains(w)
                && dist1[w] == dist1[q1[j]] + 1 implies lex_le(ranks(tree1[w]), ranks(tree1[q1[j]].push(w))) by {
            assert(q1[j] == q0[j]);
            assert(adjacent(q0[j], w));
            assert(dist0.dom().contains(q0[j]));
            assert(q0[j] != v);
            assert(w != v);
        }
        assert forall|w: (i32, i32)| #![trigger adjacent(cur, w)]
            adjacent(cur, w) && step_rank(cur, w) < d + 1 && self.passable(goals, w)
                && dist1.dom().contains(w) && dist1[w] == dist1[cur] + 1 implies lex_le(
            ranks(tree1[w]),
            ranks(tree1[cur].push(w)),
        ) by {
            if w != v {
                assert(step_rank(cur, w) != d);
            }
        }
    }

    /// Discovering the passable, undiscovered neighbour `v` of the cell being
    /// expanded keeps the bookkeeping consistent.
    proof fn lemma_discover(
        &self,
        goals: Seq<(i32, i32)>,
        start: (i32, i32),
        is_goal: Seq<bool>,
        cur: (i32, i32),
        cur_pos: int,
        v: (i32, i32),
        came0: Seq<Option<Option<(i32, i32)>>>,
        came1: Seq<Option<Option<(i32, i32)>>>,
        q0: Seq<(i32, i32)>,
        q1: Seq<(i32, i32)>,
        dist0: Map<(i32, i32), nat>,
        dist1: Map<(i32, i32), nat>,
        seen0: Set<int>,
        seen1: Set<int>,
        n: int,
    )
        requires
            self.frontier_ok(goals, start, is_goal, came0, q0, dist0, seen0, n),
            self.search_facts(goals, start, q0, dist0, cur_pos),
            0 <= cur_pos < q0.len(),
            q0[cur_pos] == cur,
            forall|j: int| #![trigger q0[j]] 0 <= j < q0.len() ==> dist0[q0[j]] <= dist0[cur] + 1,
            adjacent(cur, v),
            self.passable(goals, v),
            came0[self.cell_idx(v)] is None,
            came1 == came0.update(self.cell_idx(v), Some(Some(cur))),
            q1 == q0.push(v),
            dist1 == dist0.insert(v, (dist0[cur] + 1) as nat),
            seen1 == seen0.insert(self.cell_idx(v)),
        ensures
            self.frontier_ok(goals, start, is_goal, came1, q1, dist1, seen1, n),
            self.search_facts(goals, start, q1, dist1, cur_pos),
            forall|j: int| #![trigger q1[j]] 0 <= j < q1.len() ==> dist1[q1[j]] <= dist1[cur] + 1,
            dist1[cur] == dist0[cur],
            forall|c: (i32, i32)|
                #![trigger dist0.dom().contains(c)]
                dist0.dom().contains(c) ==> dist1.dom().contains(c) && dist1[c] == dist0[c],
    {
        let vi = self.cell_idx(v);
        self.lemma_cell(v.0 as int, v.1 as int);
        assert(!dist0.dom().contains(v));
        assert(!seen0.contains(vi));
        assert(v != start);
        assert(dist0.dom().contains(cur));
        // Other cells keep their discovery entries.
        assert forall|c: (i32, i32)| self.cell_in(c) && c != v implies #[trigger] came1[self.cell_idx(c)]
            == came0[self.cell_idx(c)] by {
            self.lemma_cell(c.0 as int, c.1 as int);
            self.lemma_cells_distinct(c.0 as int, c.1 as int, v.0 as int, v.1 as int);
        }
        assert forall|c: (i32, i32)| #![trigger came1[self.cell_idx(c)]] self.cell_in(c) implies (
        came1[self.cell_idx(c)] is Some <==> dist1.dom().contains(c)) by {
            if c != v {
                assert(came1[self.cell_idx(c)] == came0[self.cell_idx(c)]);
            }
        }
        assert(came1[self.cell_idx(start)] == Some(None::<(i32, i32)>)) by {
            assert(came1[self.cell_idx(start)] == came0[self.cell_idx(start)]);
        }
        assert forall|c: (i32, i32)| #![trigger dist1.dom().contains(c)] dist1.dom().contains(c) && c
            != start implies self.parent_ok(goals, dist1, came1, c) by {
            if c != v {
                assert(came1[self.cell_idx(c)] == came0[self.cell_idx(c)]);
                assert(self.parent_ok(goals, dist0, came0, c));
                let p = came0[self.cell_idx(c)]->Some_0->Some_0;
                assert(dist0.dom().contains(p));
            }
        }
        assert forall|i: int| 0 <= i < n implies (#[trigger] came1[i] is Some <==> seen1.contains(i)) by {
            if i != vi {
                assert(came1[i] == came0[i]);
            }
        }
        assert forall|c: (i32, i32)| #![trigger dist1.dom().contains(c)] dist1.dom().contains(c)
            implies exists|j: int| #![trigger q1[j]] 0 <= j < q1.len() && q1[j] == c by {
            if c == v {
                assert(q1[q0.len() as int] == c);
            } else {
                let j = choose|j: int| #![trigger q0[j]] 0 <= j < q0.len() && q0[j] == c;
                assert(q1[j] == c);
            }
        }
        assert forall|j1: int, j2: int| #![trigger q1[j1], q1[j2]] 0 <= j1 <= j2 < q1.len() implies dist1[q1[j1]]
            <= dist1[q1[j2]] by {
            if j2 == q0.len() {
                assert(q1[j1] == q0[j1] || j1 == j2);
                if j1 < j2 {
                    assert(dist0[q0[j1]] <= dist0[cur] + 1);
                    assert(dist0.dom().contains(q0[j1]));
                    assert(q0[j1] != v);
                }
            } else {
                assert(q1[j1] == q0[j1]);
                assert(q1[j2] == q0[j2]);
                assert(dist0.dom().contains(q0[j1]));
                assert(dist0.dom().contains(q0[j2]));
                assert(q0[j1] != v && q0[j2] != v);
            }
        }
        assert forall|j: int, w: (i32, i32)| #![trigger adjacent(q1[j], w)]
            0 <= j < cur_pos && adjacent(q1[j], w) && self.passable(goals, w) implies dist1.dom().contains(w)
                && dist1[w] <= dist1[q1[j]] + 1 by {
            assert(q1[j] == q0[j]);
            assert(adjacent(q0[j], w));
            assert(dist0.dom().contains(q0[j]));
            assert(q0[j] != v);
        }
        assert forall|j: int| #![trigger q1[j]] 0 <= j < q1.len() implies dist1.dom().contains(q1[j])
            && self.cell_in(q1[j]) && dist1[q1[j]] <= dist1[cur] + 1 by {
            if j < q0.len() {
                assert(q1[j] == q0[j]);
                assert(dist0.dom().contains(q0[j]));
                assert(q0[j] != v);
            }
        }
        assert forall|j: int| #![trigger q1[j]] 0 <= j < cur_pos implies !goals.contains(q1[j]) by {
            assert(q1[j] == q0[j]);
        }
        assert forall|i: int| #![trigger seen1.contains(i)] seen1.contains(i) implies 0 <= i < n by {}
    }

    /// Breadth-first search from `(sx, sy)` to the nearest of `goals`, moving in
    /// four directions. Solid tiles block, except that goal tiles may always be
    /// entered, so a solid multi-tile target can be reached. The path starts at
    /// `(sx, sy)` and ends on a goal; there is none when the start is off the map
    /// or no goal can be reached.
    pub fn find_path(&self, sx: i32, sy: i32, goals: &[(i32, i32)]) -> (r: Option<Vec<(i32, i32)>>)
        requires
            self.wf(),
        ensures
            r is Some <==> (self.spec_in_bounds(sx as int, sy as int) && exists|p: Seq<(i32, i32)>|
                self.walk_to_goal(goals@, (sx, sy), p)),
            r matches Some(path) ==> {
                &&& self.walk_to_goal(goals@, (sx, sy), path@)
                &&& forall|p: Seq<(i32, i32)>|
                    self.walk_to_goal(goals@, (sx, sy), p) ==> path@.len() <= p.len()
                &&& forall|p: Seq<(i32, i32)>|
                    self.walk_to_goal(goals@, (sx, sy), p) && p.len() == path@.len() ==> lex_le(
                        ranks(path@),
                        ranks(p),
                    )
            },
    {
        if goals.len() == 0 {
            return None;
        }
        if !self.in_bounds(sx, sy) {
            return None;
        }
        let n = self.tiles.len();

        // Which cells are goals, by tile index; and which cells have been reached, from where.
        let mut is_goal: Vec<bool> = Vec::new();
        let mut came: Vec<Option<Option<(i32, i32)>>> = Vec::new();
        let mut i: usize = 0;
        while i < n
            invariant
                i <= n,
                is_goal@.len() == i,
                came@.len() == i,
                forall|k: int| 0 <= k < i ==> !is_goal@[k],
                forall|k: int| 0 <= k < i ==> came@[k] is None,
            decreases n - i,
        {
            is_goal.push(false);
            came.push(None);
            i = i + 1;
        }
        proof {
            assert forall|c: (i32, i32)| #![trigger self.cell_idx(c)] self.cell_in(c) implies !is_goal@[self.cell_idx(c)] by {
                self.lemma_cell(c.0 as int, c.1 as int);
            }
        }
        let mut k: usize = 0;
        while k < goals.len()
            invariant
                self.wf(),
                n == self.tiles@.len(),
                is_goal@.len() == n,
                came@.len() == n,
                forall|i: int| 0 <= i < n ==> came@[i] is None,
                k <= goals@.len(),
                forall|c: (i32, i32)|
                    #![trigger self.cell_idx(c)]
                    self.cell_in(c) ==> (is_goal@[self.cell_idx(c)] <==> exists|j: int|
                        0 <= j < k && goals@[j] == c),
            decreases goals.len() - k,
        {
            let g = goals[k];
            let ghost before = is_goal@;
            if let Some(gi) = self.idx(g.0, g.1) {
                is_goal.set(gi, true);
            }
            proof {
                assert forall|c: (i32, i32)| #![trigger self.cell_idx(c)] self.cell_in(c) implies (
                is_goal@[self.cell_idx(c)] <==> exists|j: int| 0 <= j < k + 1 && goals@[j] == c) by {
                    self.lemma_cell(c.0 as int, c.1 as int);
                    if c != g {
                        if self.cell_in(g) {
                            self.lemma_cells_distinct(c.0 as int, c.1 as int, g.0 as int, g.1 as int);
                        }
                        assert(is_goal@[self.cell_idx(c)] == before[self.cell_idx(c)]);
                        if exists|j: int| 0 <= j < k + 1 && goals@[j] == c {
                            let j = choose|j: int| 0 <= j < k + 1 && goals@[j] == c;
                            assert(j < k);
                        }
                    } else {
                        assert(goals@[k as int] == c);
                    }
                }
            }
            k = k + 1;
        }
        proof {
            assert forall|c: (i32, i32)| #![trigger self.cell_idx(c)] self.cell_in(c) implies (
            is_goal@[self.cell_idx(c)] <==> goals@.contains(c)) by {
                if goals@.contains(c) {
                    let j = choose|j: int| 0 <= j < goals@.len() && goals@[j] == c;
                    assert(0 <= j < k && goals@[j] == c);
                }
            }
        }

        let start = (sx, sy);
        let si = self.idx(sx, sy).unwrap();
        came.set(si, Some(None));
        let mut q: Vec<(i32, i32)> = Vec::new();
        q.push(start);
        let mut qi: usize = 0;
        let ghost mut dist: Map<(i32, i32), nat> = map![start => 0nat];
        let ghost mut seen: Set<int> = set![si as int];
        let ghost mut tree: Map<(i32, i32), Seq<(i32, i32)>> = map![start => seq![start]];
        proof {
            assert(self.cell_idx(start) == si);
            assert forall|c: (i32, i32)| #![trigger came@[self.cell_idx(c)]] self.cell_in(c) implies (
            came@[self.cell_idx(c)] is Some <==> dist.dom().contains(c)) by {
                self.lemma_cell(c.0 as int, c.1 as int);
                if c != start {
                    self.lemma_cells_distinct(c.0 as int, c.1 as int, sx as int, sy as int);
                }
            }
            assert forall|c: (i32, i32)| #![trigger dist.dom().contains(c)] dist.dom().contains(c)
                implies exists|j: int| #![trigger q@[j]] 0 <= j < q@.len() && q@[j] == c by {
                assert(q@[0] == c);
            }
            assert(seen.len() == 1);
            assert forall|i: int| 0 <= i < n implies (#[trigger] came@[i] is Some <==> seen.contains(i)) by {}
        }
        while qi < q.len()
            invariant
                self.frontier_ok(goals@, start, is_goal@, came@, q@, dist, seen, n as int),
                self.search_facts(goals@, start, q@, dist, qi as int),
                self.tree_ok(goals@, start, came@, q@, dist, tree, qi as int, start, 0),
                self.near_ok(goals@, q@, dist, tree, qi as int),
                start == (sx, sy),
                qi < q@.len() ==> forall|j: int|
                    #![trigger q@[j]]
                    0 <= j < q@.len() ==> dist[q@[j]] <= dist[q@[qi as int]] + 1,
            decreases 2 * n - q@.len() - qi,
        {
            proof {
                lemma_int_range(0, n as int);
                assert(seen.subset_of(set_int_range(0, n as int)));
                lemma_len_subset(seen, set_int_range(0, n as int));
            }
            let cur = q[qi];
            let ghost cur_pos = qi as int;
            qi = qi + 1;
            let ci = self.idx(cur.0, cur.1).unwrap();
            proof {
                assert(self.cell_in(q@[cur_pos]));
                assert(self.cell_idx(cur) == ci);
            }
            if is_goal[ci] {
                proof {
                    assert(goals@.contains(cur));
                }
                let path = self.trace_back(goals, &came, cur, Ghost(start), Ghost(is_goal@), Ghost(q@),
                    Ghost(dist), Ghost(seen), Ghost(cur_pos), Ghost(tree));
                proof {
                    assert(self.walk_to_goal(goals@, (sx, sy), path@));
                    assert(dist.dom().contains(q@[cur_pos]));
                    assert forall|p: Seq<(i32, i32)>| self.walk_to_goal(goals@, (sx, sy), p) && p.len()
                        == path@.len() implies lex_le(ranks(path@), ranks(p)) by {
                        self.lemma_route_least(goals@, start, came@, q@, dist, tree, cur_pos, p);
                    }
                }
                return Some(path);
            }
            let dist_seen = self.expand(goals, &is_goal, &mut came, &mut q, cur, Ghost(start),
                Ghost(cur_pos), Ghost(dist), Ghost(seen), Ghost(tree));
            proof {
                dist = dist_seen@.0;
                seen = dist_seen@.1;
                tree = dist_seen@.2;
                if qi < q@.len() {
                    assert(dist[q@[cur_pos]] <= dist[q@[qi as int]]);
                }
                lemma_int_range(0, n as int);
                assert(seen.subset_of(set_int_range(0, n as int)));
                lemma_len_subset(seen, set_int_range(0, n as int));
            }
        }
        proof {
            assert forall|p: Seq<(i32, i32)>| !self.walk_to_goal(goals@, start, p) by {
                self.lemma_exhausted_no_walk(goals@, start, q@, dist, p);
            }
        }
        None
    }

    /// Looks at the four neighbours of `cur` (the cell at queue position
    /// `cur_pos`) in the order right, left, up, down, and discovers each one that
    /// is on the map, not yet discovered, and passable. Returns the updated
    /// distance map and set of discovered tile indices.
    fn expand(
        &self,
        goals: &[(i32, i32)],
        is_goal: &Vec<bool>,
        came: &mut Vec<Option<Option<(i32, i32)>>>,
        q: &mut Vec<(i32, i32)>,
        cur: (i32, i32),
        Ghost(start): Ghost<(i32, i32)>,
        Ghost(cur_pos): Ghost<int>,
        Ghost(dist0): Ghost<Map<(i32, i32), nat>>,
        Ghost(seen0): Ghost<Set<int>>,
        Ghost(tree0): Ghost<Map<(i32, i32), Seq<(i32, i32)>>>,
    ) -> (r: Ghost<(Map<(i32, i32), nat>, Set<int>, Map<(i32, i32), Seq<(i32, i32)>>)>)
        requires
            self.frontier_ok(goals@, start, is_goal@, old(came)@, old(q)@, dist0, seen0, self.tiles@.len() as int),
            self.search_facts(goals@, start, old(q)@, dist0, cur_pos),
            self.tree_ok(goals@, start, old(came)@, old(q)@, dist0, tree0, cur_pos, start, 0),
            self.near_ok(goals@, old(q)@, dist0, tree0, cur_pos),
            self.cell_in(cur),
            0 <= cur_pos < old(q)@.len(),
            old(q)@[cur_pos] == cur,
            !goals@.contains(cur),
            forall|j: int|
                #![trigger old(q)@[j]]
                0 <= j < old(q)@.len() ==> dist0[old(q)@[j]] <= dist0[cur] + 1,
        ensures
            self.frontier_ok(goals@, start, is_goal@, final(came)@, final(q)@, r@.0, r@.1, self.tiles@.len() as int),
            self.search_facts(goals@, start, final(q)@, r@.0, cur_pos + 1),
            self.tree_ok(goals@, start, final(came)@, final(q)@, r@.0, r@.2, cur_pos + 1, start, 0),
            self.near_ok(goals@, final(q)@, r@.0, r@.2, cur_pos + 1),
            final(q)@.len() >= old(q)@.len(),
            final(q)@[cur_pos] == cur,
            forall|j: int|
                #![trigger final(q)@[j]]
                0 <= j < final(q)@.len() ==> r@.0[final(q)@[j]] <= r@.0[cur] + 1,
    {
        let n = self.tiles.len();
        let ghost mut dist = dist0;
        let ghost mut seen = seen0;
        let ghost mut tree = tree0;
        proof {
            self.lemma_route_open(goals@, start, came@, q@, dist, tree, cur_pos, cur);
        }
        let dirs: [(i32, i32); 4] = [(1, 0), (-1, 0), (0, 1), (0, -1)];
        let ghost q_start = q@;
        let mut d: usize = 0;
        while d < 4
            invariant
                self.frontier_ok(goals@, start, is_goal@, came@, q@, dist, seen, n as int),
                self.search_facts(goals@, start, q@, dist, cur_pos),
                self.tree_ok(goals@, start, came@, q@, dist, tree, cur_pos, cur, d as int),
                self.near_cur(goals@, dist, tree, cur, d as int),
                self.near_ok(goals@, q@, dist, tree, cur_pos),
                dirs@ == seq![(1i32, 0i32), (-1i32, 0i32), (0i32, 1i32), (0i32, -1i32)],
                self.cell_in(cur),
                0 <= cur_pos < q@.len(),
                q@.len() >= q_start.len(),
                q@[cur_pos] == cur,
                !goals@.contains(cur),
                d <= 4,
                forall|j: int|
                    #![trigger q@[j]]
                    0 <= j < q@.len() ==> dist[q@[j]] <= dist[cur] + 1,
                forall|v: (i32, i32)|
                    #![trigger adjacent(cur, v)]
                    adjacent(cur, v) && step_rank(cur, v) < d && self.passable(goals@, v)
                        ==> dist.dom().contains(v) && dist[v] <= dist[cur] + 1,
            decreases 4 - d,
        {
            let (dx, dy) = dirs[d];
            let nx = cur.0 + dx;
            let ny = cur.1 + dy;
            let v = (nx, ny);
            proof {
                assert(adjacent(cur, v) && step_rank(cur, v) == d);
            }
            let ghost dist_before = dist;
            let ghost mut discovered = false;
            if let Some(vi) = self.idx(nx, ny) {
                if came[vi].is_none() {
                    let blocked = self.tiles[vi].solid && !is_goal[vi];
                    if !blocked {
                        let ghost came0 = came@;
                        let ghost q0 = q@;
                        let ghost dist1 = dist;
                        let ghost seen1 = seen;
                        let ghost tree1 = tree;
                        proof {
                            assert(self.cell_idx(v) == vi);
                            assert(self.passable(goals@, v));
                        }
                        came.set(vi, Some(Some(cur)));
                        q.push(v);
                        proof {
                            dist = dist1.insert(v, (dist1[cur] + 1) as nat);
                            seen = seen1.insert(vi as int);
                            self.lemma_discover(goals@, start, is_goal@, cur, cur_pos, v, came0, came@,
                                q0, q@, dist1, dist, seen1, seen, n as int);
                            tree = tree1.insert(v, tree1[cur].push(v));
                            self.lemma_route_discover(goals@, start, is_goal@, cur, cur_pos, d as int, v,
                                came0, came@, q0, q@, dist1, dist, tree1, tree, seen1, n as int);
                            discovered = true;
                        }
                    }
                }
            }
            proof {
                if !discovered {
                    if self.passable(goals@, v) {
                        self.lemma_cell(v.0 as int, v.1 as int);
                        assert(came@[self.cell_idx(v)] is Some);
                    }
                    self.lemma_route_keep(goals@, start, came@, q@, dist, tree, cur_pos, cur, d as int, v);
                }
                assert forall|w: (i32, i32)| #![trigger adjacent(cur, w)]
                    adjacent(cur, w) && step_rank(cur, w) < d + 1 && self.passable(goals@, w)
                    implies dist.dom().contains(w) && dist[w] <= dist[cur] + 1 by {
                    if step_rank(cur, w) == d {
                        assert(w == v);
                        if dist_before.dom().contains(w) {
                            let j = choose|j: int| #![trigger q@[j]] 0 <= j < q@.len() && q@[j] == w;
                        } else {
                            assert(came@[self.cell_idx(w)] is Some);
                        }
                    } else {
                        assert(dist_before.dom().contains(w));
                    }
                }
            }
            d = d + 1;
        }
        proof {
            assert forall|j: int, w: (i32, i32)| #![trigger adjacent(q@[j], w)]
                0 <= j < cur_pos + 1 && adjacent(q@[j], w) && self.passable(goals@, w)
                implies dist.dom().contains(w) && dist[w] <= dist[q@[j]] + 1 by {
                if j == cur_pos {
                    assert(step_rank(cur, w) < 4);
                }
            }
            self.lemma_route_close(goals@, start, came@, q@, dist, tree, cur_pos, cur);
        }
        Ghost((dist, seen, tree))
    }

    /// Follows the discovery links back from the dequeued goal `cur` to the start
    /// and returns the path in walking order.
    fn trace_back(
        &self,
        goals: &[(i32, i32)],
        came: &Vec<Option<Option<(i32, i32)>>>,
        cur: (i32, i32),
        Ghost(start): Ghost<(i32, i32)>,
        Ghost(is_goal): Ghost<Seq<bool>>,
        Ghost(q): Ghost<Seq<(i32, i32)>>,
        Ghost(dist): Ghost<Map<(i32, i32), nat>>,
        Ghost(seen): Ghost<Set<int>>,
        Ghost(cur_pos): Ghost<int>,
        Ghost(tree): Ghost<Map<(i32, i32), Seq<(i32, i32)>>>,
    ) -> (path: Vec<(i32, i32)>)
        requires
            self.frontier_ok(goals@, start, is_goal, came@, q, dist, seen, self.tiles@.len() as int),
            self.search_facts(goals@, start, q, dist, cur_pos),
            self.tree_ok(goals@, start, came@, q, dist, tree, cur_pos, start, 0),
            0 <= cur_pos < q.len(),
            q[cur_pos] == cur,
            goals@.contains(cur),
        ensures
            self.walk_to_goal(goals@, start, path@),
            forall|p: Seq<(i32, i32)>| self.walk_to_goal(goals@, start, p) ==> path@.len() <= p.len(),
            path@ == tree[cur],
    {
        let n = self.tiles.len();
        let mut path: Vec<(i32, i32)> = Vec::new();
        path.push(cur);
        let mut c = cur;
        proof {
            assert(dist.dom().contains(q[cur_pos]));
        }
        loop
            invariant
                self.frontier_ok(goals@, start, is_goal, came@, q, dist, seen, n as int),
                dist.dom().contains(c),
                dist.dom().contains(cur),
                dist[start] == 0,
                path@.len() >= 1,
                path@[0] == cur,
                path@.last() == c,
                dist[cur] == dist[c] + path@.len() - 1,
                self.tree_ok(goals@, start, came@, q, dist, tree, cur_pos, start, 0),
                tree[c].len() + path@.len() == tree[cur].len() + 1,
                tree[c] == tree[cur].subrange(0, tree[c].len() as int),
                forall|k: int|
                    #![trigger path@[k]]
                    0 <= k < path@.len() ==> path@[k] == tree[cur][tree[cur].len() - 1 - k],
                forall|k: int|
                    #![trigger path@[k]]
                    0 <= k < path@.len() - 1 ==> adjacent(path@[k + 1], path@[k]) && self.passable(
                        goals@,
                        path@[k],
                    ),
            ensures
                c == start,
                path@.len() >= 1,
                path@[0] == cur,
                path@.last() == c,
                dist[cur] + 1 == path@.len(),
                path@.len() == tree[cur].len(),
                forall|k: int|
                    #![trigger path@[k]]
                    0 <= k < path@.len() ==> path@[k] == tree[cur][tree[cur].len() - 1 - k],
                forall|k: int|
                    #![trigger path@[k]]
                    0 <= k < path@.len() - 1 ==> adjacent(path@[k + 1], path@[k]) && self.passable(
                        goals@,
                        path@[k],
                    ),
            decreases dist[c],
        {
            let ci = self.idx(c.0, c.1).unwrap();
            proof {
                assert(self.cell_in(c));
                assert(self.cell_idx(c) == ci);
                assert(came@[self.cell_idx(c)] is Some);
            }
            match came[ci] {
                Some(Some(prev)) => {
                    proof {
                        if c == start {
                            assert(came@[self.cell_idx(start)] == Some(None::<(i32, i32)>));
                        }
                        assert(self.parent_ok(goals@, dist, came@, c));
                        assert(self.tree_link(came@, q, tree, c, cur_pos, start, 0));
                        assert(dist.dom().contains(prev));
                        assert(tree[prev] =~= tree[c].drop_last());
                        assert(tree[prev].last() == prev);
                        assert(tree[cur][tree[c].len() - 2] == tree[c][tree[c].len() - 2]);
                    }
                    path.push(prev);
                    c = prev;
                    proof {
                        assert(tree[c] =~= tree[cur].subrange(0, tree[c].len() as int));
                    }
                },
                _ => {
                    proof {
                        if c != start {
                            assert(self.parent_ok(goals@, dist, came@, c));
                        }
                    }
                    break ;
                },
            }
        }
        let mut res: Vec<(i32, i32)> = Vec::new();
        let mut k: usize = path.len();
        while k > 0
            invariant
                k <= path@.len(),
                res@.len() == path@.len() - k,
                forall|m: int| 0 <= m < res@.len() ==> res@[m] == path@[path@.len() - 1 - m],
            decreases k,
        {
            k = k - 1;
            res.push(path[k]);
        }
        proof {
            let len = path@.len() as int;
            assert(res@[0] == start);
            assert forall|i: int| #![trigger res@[i]] 1 <= i < res@.len() implies self.passable(
                goals@,
                res@[i],
            ) && adjacent(res@[i - 1], res@[i]) by {
                assert(res@[i] == path@[len - 1 - i]);
                assert(res@[i - 1] == path@[(len - 1 - i) + 1]);
            }
            assert(res@.last() == cur);
            assert(res@ =~= tree[cur]) by {
                assert forall|m: int| 0 <= m < res@.len() implies res@[m] == tree[cur][m] by {
                    assert(res@[m] == path@[len - 1 - m]);
                }
            }
            assert forall|p: Seq<(i32, i32)>| self.walk_to_goal(goals@, start, p) implies res@.len()
                <= p.len() by {
                self.lemma_dequeued_goal_is_nearest(goals@, start, q, dist, cur_pos, p);
            }
        }
        res
    }

    /// While the cell at queue position `qi` (distance `dist[q[qi]]`) is being
    /// dequeued, every walk cell up to that distance is discovered no farther than
    /// its position on the walk.
    proof fn lemma_walk_prefix_discovered(
        &self,
        goals: Seq<(i32, i32)>,
        start: (i32, i32),
        q: Seq<(i32, i32)>,
        dist: Map<(i32, i32), nat>,
        qi: int,
        p: Seq<(i32, i32)>,
        i: int,
    )
        requires
            self.search_facts(goals, start, q, dist, qi),
            qi < q.len(),
            self.is_walk(goals, start, p),
            0 <= i < p.len(),
            i <= dist[q[qi]],
        ensures
            dist.dom().contains(p[i]),
            dist[p[i]] <= i,
        decreases i,
    {
        if i > 0 {
            self.lemma_walk_prefix_discovered(goals, start, q, dist, qi, p, i - 1);
            let c = p[i - 1];
            assert(dist.dom().contains(c));
            let j = choose|j: int| #![trigger q[j]] 0 <= j < q.len() && q[j] == c;
            if j >= qi {
                assert(dist[q[qi]] <= dist[q[j]]);
            }
            assert(j < qi);
            assert(self.passable(goals, p[i]) && adjacent(p[i - 1], p[i]));
            assert(adjacent(q[j], p[i]));
        }
    }

    /// When every discovered cell has been expanded, every cell of every walk is discovered.
    proof fn lemma_walk_all_discovered(
        &self,
        goals: Seq<(i32, i32)>,
        start: (i32, i32),
        q: Seq<(i32, i32)>,
        dist: Map<(i32, i32), nat>,
        p: Seq<(i32, i32)>,
        i: int,
    )
        requires
            self.search_facts(goals, start, q, dist, q.len() as int),
            self.is_walk(goals, start, p),
            0 <= i < p.len(),
        ensures
            dist.dom().contains(p[i]),
        decreases i,
    {
        if i > 0 {
            self.lemma_walk_all_discovered(goals, start, q, dist, p, i - 1);
            let c = p[i - 1];
            let j = choose|j: int| #![trigger q[j]] 0 <= j < q.len() && q[j] == c;
            assert(self.passable(goals, p[i]) && adjacent(p[i - 1], p[i]));
            assert(adjacent(q[j], p[i]));
        }
    }

    /// A goal dequeued at distance `d` is as close as any goal can be reached.
    proof fn lemma_dequeued_goal_is_nearest(
        &self,
        goals: Seq<(i32, i32)>,
        start: (i32, i32),
        q: Seq<(i32, i32)>,
        dist: Map<(i32, i32), nat>,
        qi: int,
        p: Seq<(i32, i32)>,
    )
        requires
            self.search_facts(goals, start, q, dist, qi),
            qi < q.len(),
            self.walk_to_goal(goals, start, p),
        ensures
            p.len() >= dist[q[qi]] + 1,
    {
        if p.len() < dist[q[qi]] + 1 {
            let i = p.len() - 1;
            self.lemma_walk_prefix_discovered(goals, start, q, dist, qi, p, i);
            let c = p[i];
            let j = choose|j: int| #![trigger q[j]] 0 <= j < q.len() && q[j] == c;
            if j >= qi {
                assert(dist[q[qi]] <= dist[q[j]]);
            }
            assert(!goals.contains(q[j]));
        }
    }

    /// A walk from the start to `t.last()` followed by the rest of `w` after
    /// position `i`, where `w[i] == t.last()`, is a walk.
    proof fn lemma_walk_join(
        &self,
        goals: Seq<(i32, i32)>,
        start: (i32, i32),
        t: Seq<(i32, i32)>,
        w: Seq<(i32, i32)>,
        i: int,
    )
        requires
            self.is_walk(goals, start, t),
            self.is_walk(goals, start, w),
            0 <= i < w.len(),
            t.last() == w[i],
        ensures
            self.is_walk(goals, start, t + w.subrange(i + 1, w.len() as int)),
            (t + w.subrange(i + 1, w.len() as int)).last() == w.last(),
            (t + w.subrange(i + 1, w.len() as int)).len() == t.len() + w.len() - i - 1,
    {
        let j = t + w.subrange(i + 1, w.len() as int);
        assert forall|k: int| #![trigger j[k]] 1 <= k < j.len() implies self.passable(goals, j[k])
            && adjacent(j[k - 1], j[k]) by {
            if k < t.len() {
                assert(j[k] == t[k] && j[k - 1] == t[k - 1]);
            } else {
                let m = k - t.len() + i + 1;
                assert(j[k] == w[m]);
                assert(w[m - 1] == j[k - 1]);
            }
        }
    }

    /// Along a shortest walk to a goal, each cell lies at its own position's
    /// distance, and its tree walk is no later in order than the walk's prefix.
    proof fn lemma_route_prefix(
        &self,
        goals: Seq<(i32, i32)>,
        start: (i32, i32),
        came: Seq<Option<Option<(i32, i32)>>>,
        q: Seq<(i32, i32)>,
        dist: Map<(i32, i32), nat>,
        tree: Map<(i32, i32), Seq<(i32, i32)>>,
        qi: int,
        w: Seq<(i32, i32)>,
        i: int,
    )
        requires
            self.search_facts(goals, start, q, dist, qi),
            self.tree_ok(goals, start, came, q, dist, tree, qi, start, 0),
            self.near_ok(goals, q, dist, tree, qi),
            0 <= qi < q.len(),
            self.walk_to_goal(goals, start, w),
            w.len() == dist[q[qi]] + 1,
            0 <= i < w.len(),
        ensures
            dist.dom().contains(w[i]),
            dist[w[i]] == i,
            lex_le(ranks(tree[w[i]]), ranks(w.subrange(0, i + 1))),
        decreases i,
    {
        if i == 0 {
            assert(w.subrange(0, 1) =~= seq![start]);
        } else {
            self.lemma_route_prefix(goals, start, came, q, dist, tree, qi, w, i - 1);
            let u = w[i - 1];
            let v = w[i];
            let ju = choose|j: int| #![trigger q[j]] 0 <= j < q.len() && q[j] == u;
            if ju >= qi {
                assert(dist[q[qi]] <= dist[q[ju]]);
            }
            assert(self.passable(goals, v) && adjacent(w[i - 1], w[i]));
            assert(adjacent(q[ju], v));
            assert(dist.dom().contains(v));
            if dist[v] < i {
                let t = tree[v];
                self.lemma_walk_join(goals, start, t, w, i);
                self.lemma_dequeued_goal_is_nearest(
                    goals,
                    start,
                    q,
                    dist,
                    qi,
                    t + w.subrange(i + 1, w.len() as int),
                );
            }
            assert(dist[v] == i);
            assert(v != start);
            assert(dist.dom().contains(u));
            lemma_ranks_push(tree[u], v);
            assert(w.subrange(0, i + 1) =~= w.subrange(0, i).push(w[i]));
            lemma_ranks_push(w.subrange(0, i), w[i]);
            let r = step_rank(u, v);
            lemma_lex_push(ranks(tree[u]), ranks(w.subrange(0, i)), r, r);
            lemma_lex_trans(ranks(tree[v]), ranks(tree[u].push(v)), ranks(w.subrange(0, i + 1)));
        }
    }

    /// The tree walk to the dequeued goal is, among all shortest walks to a goal,
    /// the one whose step ranks come first in lexicographic order.
    proof fn lemma_route_least(
        &self,
        goals: Seq<(i32, i32)>,
        start: (i32, i32),
        came: Seq<Option<Option<(i32, i32)>>>,
        q: Seq<(i32, i32)>,
        dist: Map<(i32, i32), nat>,
        tree: Map<(i32, i32), Seq<(i32, i32)>>,
        qi: int,
        w: Seq<(i32, i32)>,
    )
        requires
            self.search_facts(goals, start, q, dist, qi),
            self.tree_ok(goals, start, came, q, dist, tree, qi, start, 0),
            self.near_ok(goals, q, dist, tree, qi),
            0 <= qi < q.len(),
            goals.contains(q[qi]),
            self.walk_to_goal(goals, start, w),
            w.len() == dist[q[qi]] + 1,
        ensures
            lex_le(ranks(tree[q[qi]]), ranks(w)),
    {
        let last = w.len() - 1;
        self.lemma_route_prefix(goals, start, came, q, dist, tree, qi, w, last);
        assert(w.subrange(0, last + 1) =~= w);
        let g = w[last];
        let j = choose|j: int| #![trigger q[j]] 0 <= j < q.len() && q[j] == g;
        assert(j >= qi);
        if j > qi {
            assert(dist.dom().contains(q[qi]));
            assert(lex_lt(ranks(tree[q[qi]]), ranks(tree[q[j]])));
            lemma_ranks_len(tree[q[qi]]);
            lemma_ranks_len(tree[g]);
            lemma_ranks_len(w);
            lemma_lex_trans(ranks(tree[q[qi]]), ranks(tree[g]), ranks(w));
        }
    }

    /// With the queue exhausted, no goal is reachable.
    proof fn lemma_exhausted_no_walk(
        &self,
        goals: Seq<(i32, i32)>,
        start: (i32, i32),
        q: Seq<(i32, i32)>,
        dist: Map<(i32, i32), nat>,
        p: Seq<(i32, i32)>,
    )
        requires
            self.search_facts(goals, start, q, dist, q.len() as int),
        ensures
            !self.walk_to_goal(goals, start, p),
    {
        if self.walk_to_goal(goals, start, p) {
            let i = p.len() - 1;
            self.lemma_walk_all_discovered(goals, start, q, dist, p, i);
            let c = p[i];
            let j = choose|j: int| #![trigger q[j]] 0 <= j < q.len() && q[j] == c;
            assert(!goals.contains(q[j]));
        }
    }
}

} // verus!
