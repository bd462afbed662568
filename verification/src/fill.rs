use crate::grid::Maze;
use crate::layout::Layout;
use crate::tile::Tile;
use vstd::prelude::*;
use vstd::set_lib::*;

verus! {

/// What one table entry counts for in the measure of the work that is left:
/// a known distance counts as itself, an unknown one as `unknown`.
spec fn cost(v: Option<u32>, unknown: nat) -> nat {
    match v {
        Some(d) => d as nat,
        None => unknown,
    }
}

/// The sum of the costs of all entries.
spec fn total_cost(vals: Seq<Option<u32>>, unknown: nat) -> nat
    decreases vals.len(),
{
    if vals.len() == 0 {
        0
    } else {
        total_cost(vals.drop_last(), unknown) + cost(vals.last(), unknown)
    }
}

/// Changing one entry changes the sum by the difference of the two costs.
proof fn lemma_total_cost_update(vals: Seq<Option<u32>>, unknown: nat, i: int, v: Option<u32>)
    requires
        0 <= i < vals.len(),
    ensures
        total_cost(vals.update(i, v), unknown) + cost(vals[i], unknown) == total_cost(
            vals,
            unknown,
        ) + cost(v, unknown),
    decreases vals.len(),
{
    if i == vals.len() - 1 {
        assert(vals.update(i, v).drop_last() =~= vals.drop_last());
    } else {
        lemma_total_cost_update(vals.drop_last(), unknown, i, v);
        assert(vals.update(i, v).drop_last() =~= vals.drop_last().update(i, v));
    }
}

/// Distinct cells of a grid are no more than the grid has.
proof fn lemma_distinct_cells(p: Seq<int>, count: int)
    requires
        p.no_duplicates(),
        0 <= count,
        forall|k: int| 0 <= k < p.len() ==> 0 <= #[trigger] p[k] < count,
    ensures
        p.len() <= count,
{
    let s = p.to_set();
    let r = set_int_range(0, count);
    lemma_int_range(0, count);
    assert forall|x: int| s.contains(x) implies r.contains(x) by {
        let k = choose|k: int| 0 <= k < p.len() && p[k] == x;
        assert(0 <= p[k] < count);
    }
    lemma_len_subset(s, r);
    p.unique_seq_to_set();
}

/// What is on a stack, and is not its top, stays on it when the top leaves.
proof fn lemma_drop_last_contains(stack: Seq<usize>, i: usize)
    requires
        stack.len() > 0,
        stack.contains(i),
        stack.last() != i,
    ensures
        stack.drop_last().contains(i),
{
    let s = choose|s: int| 0 <= s < stack.len() && stack[s] == i;
    assert(stack.drop_last()[s] == i);
}

impl Layout {
    /// Along `p`, the cell at position `k` has a known distance of at most `k`.
    spec fn on_track(self, vals: Seq<Option<u32>>, p: Seq<int>) -> bool {
        forall|k: int|
            0 <= k < p.len() ==> 0 <= #[trigger] p[k] < vals.len() && vals[p[k]] is Some
                && vals[p[k]]->0 <= k
    }

    /// A known distance of the cell `i` is the length of the walk `paths[i]`,
    /// which visits no cell twice.
    spec fn witnessed(
        self,
        vals: Seq<Option<u32>>,
        paths: Seq<Seq<int>>,
        i: int,
    ) -> bool {
        vals[i] is Some ==> {
            &&& self.is_walk_to(paths[i], i, vals[i]->0 as nat)
            &&& paths[i].no_duplicates()
            &&& self.on_track(vals, paths[i])
        }
    }

    /// The path tile next to `i` in direction `dir`, if there is one, has a
    /// distance of at most one more than `i`.
    spec fn settled_toward(self, vals: Seq<Option<u32>>, i: int, dir: int) -> bool {
        match self.neighbor(i, dir) {
            Some(n) => self.tiles[n] == Tile::Path ==> vals[n] is Some && vals[n]->0 <= vals[i]->0
                + 1,
            None => true,
        }
    }

    /// Direction `dir` of the cell `i` is settled, or still to be looked at:
    /// the cell `from` is worked on, and its directions from `done` on are open.
    spec fn due(self, vals: Seq<Option<u32>>, i: int, dir: int, from: int, done: int) -> bool {
        (i == from && dir >= done) || self.settled_toward(vals, i, dir)
    }

    /// A cell with a known distance waits on the stack, or each of its four
    /// directions is settled or still to be looked at.
    spec fn closed(
        self,
        vals: Seq<Option<u32>>,
        stack: Seq<usize>,
        i: int,
        from: int,
        done: int,
    ) -> bool {
        vals[i] is Some ==> stack.contains(i as usize) || {
            &&& self.due(vals, i, 0, from, done)
            &&& self.due(vals, i, 1, from, done)
            &&& self.due(vals, i, 2, from, done)
            &&& self.due(vals, i, 3, from, done)
        }
    }

    /// What holds of the table, the stack and the walks that stand for the
    /// known distances, while the cell `from` is worked on.
    spec fn fill_inv(
        self,
        vals: Seq<Option<u32>>,
        stack: Seq<usize>,
        paths: Seq<Seq<int>>,
        from: int,
        done: int,
    ) -> bool {
        &&& vals.len() == self.tiles.len()
        &&& paths.len() == self.tiles.len()
        &&& self.tiles.len() <= u32::MAX
        &&& vals[self.goal] == Some(0u32)
        &&& forall|s: int|
            0 <= s < stack.len() ==> self.in_grid(#[trigger] stack[s] as int)
                && vals[stack[s] as int] is Some
        &&& forall|i: int| self.in_grid(i) ==> #[trigger] self.witnessed(vals, paths, i)
        &&& forall|i: int| self.in_grid(i) ==> #[trigger] self.closed(vals, stack, i, from, done)
    }

    /// A known distance is less than the number of cells.
    proof fn lemma_known_is_small(
        self,
        vals: Seq<Option<u32>>,
        paths: Seq<Seq<int>>,
        i: int,
    )
        requires
            self.in_grid(i),
            vals.len() == self.tiles.len(),
            self.witnessed(vals, paths, i),
            vals[i] is Some,
        ensures
            vals[i]->0 + 1 <= self.tiles.len(),
    {
        lemma_distinct_cells(paths[i], self.tiles.len() as int);
    }

    /// Taking the top off the stack opens that cell in all four directions.
    proof fn lemma_pop(self, vals: Seq<Option<u32>>, stack: Seq<usize>, paths: Seq<Seq<int>>)
        requires
            self.fill_inv(vals, stack, paths, 0, 4),
            stack.len() > 0,
        ensures
            self.fill_inv(vals, stack.drop_last(), paths, stack.last() as int, 0),
    {
        let rest = stack.drop_last();
        let from = stack.last() as int;
        assert(self.in_grid(stack[stack.len() - 1] as int));
        assert forall|s: int| 0 <= s < rest.len() implies self.in_grid(#[trigger] rest[s] as int)
            && vals[rest[s] as int] is Some by {
            assert(rest[s] == stack[s]);
        }
        assert forall|i: int| self.in_grid(i) implies #[trigger] self.closed(
            vals,
            rest,
            i,
            from,
            0,
        ) by {
            assert(self.closed(vals, stack, i, 0, 4));
            if vals[i] is Some && stack.contains(i as usize) && i != from {
                lemma_drop_last_contains(stack, i as usize);
            }
        }
    }

    /// A direction that is settled as it stands needs no work.
    proof fn lemma_skip(
        self,
        vals: Seq<Option<u32>>,
        stack: Seq<usize>,
        paths: Seq<Seq<int>>,
        from: int,
        dir: int,
    )
        requires
            self.fill_inv(vals, stack, paths, from, dir),
            self.settled_toward(vals, from, dir),
        ensures
            self.fill_inv(vals, stack, paths, from, dir + 1),
    {
        assert forall|i: int| self.in_grid(i) implies #[trigger] self.closed(
            vals,
            stack,
            i,
            from,
            dir + 1,
        ) by {
            assert(self.closed(vals, stack, i, from, dir));
        }
    }

    /// After the fourth direction the cell is settled like the others.
    proof fn lemma_done(
        self,
        vals: Seq<Option<u32>>,
        stack: Seq<usize>,
        paths: Seq<Seq<int>>,
        from: int,
    )
        requires
            self.fill_inv(vals, stack, paths, from, 4),
        ensures
            self.fill_inv(vals, stack, paths, 0, 4),
    {
        assert forall|i: int| self.in_grid(i) implies #[trigger] self.closed(
            vals,
            stack,
            i,
            0,
            4,
        ) by {
            assert(self.closed(vals, stack, i, from, 4));
        }
    }

    /// Lowering the distance of the path tile `n` next to `from`, and putting
    /// `n` on the stack, keeps what holds of the table.
    proof fn lemma_relax(
        self,
        vals: Seq<Option<u32>>,
        stack: Seq<usize>,
        paths: Seq<Seq<int>>,
        from: int,
        dir: int,
        n: int,
    )
        requires
            self.wf(),
            self.fill_inv(vals, stack, paths, from, dir),
            0 <= dir < 4,
            self.in_grid(from),
            vals[from] is Some,
            self.neighbor(from, dir) == Some(n),
            self.tiles[n] == Tile::Path,
            vals[n] is None || vals[n]->0 > vals[from]->0 + 1,
        ensures
            vals[from]->0 + 1 < self.tiles.len(),
            self.fill_inv(
                vals.update(n, Some((vals[from]->0 + 1) as u32)),
                stack.push(n as usize),
                paths.update(n, paths[from].push(n)),
                from,
                dir + 1,
            ),
    {
        let d = vals[from]->0;
        let p = paths[from];
        let q = p.push(n);
        self.lemma_neighbor(from, dir);
        assert(self.witnessed(vals, paths, from));
        assert(self.is_hop(from, n));
        self.lemma_walk_push(p, from, d as nat, n);
        assert(q.no_duplicates()) by {
            assert forall|a: int, b: int|
                0 <= a < q.len() && 0 <= b < q.len() && a != b implies q[a] != q[b] by {
                if a < p.len() && b < p.len() {
                    assert(p[a] != p[b]);
                } else if a < p.len() {
                    assert(vals[p[a]] is Some && vals[p[a]]->0 <= a);
                } else {
                    assert(vals[p[b]] is Some && vals[p[b]]->0 <= b);
                }
            }
        }
        assert forall|k: int| 0 <= k < q.len() implies 0 <= #[trigger] q[k] < self.tiles.len() by {
            if k < p.len() {
                assert(0 <= p[k] < vals.len());
            }
        }
        lemma_distinct_cells(q, self.tiles.len() as int);
        let hops = (d + 1) as u32;
        let vals2 = vals.update(n, Some(hops));
        let stack2 = stack.push(n as usize);
        let paths2 = paths.update(n, q);
        assert(n != self.goal);
        assert(stack2[stack.len() as int] == n as usize);
        assert forall|s: int| 0 <= s < stack2.len() implies self.in_grid(
            #[trigger] stack2[s] as int,
        ) && vals2[stack2[s] as int] is Some by {
            if s < stack.len() {
                assert(stack2[s] == stack[s]);
            }
        }
        assert forall|i: int| self.in_grid(i) implies #[trigger] self.witnessed(
            vals2,
            paths2,
            i,
        ) by {
            if vals2[i] is Some {
                if i == n {
                    assert forall|k: int| 0 <= k < q.len() implies 0 <= #[trigger] q[k]
                        < vals2.len() && vals2[q[k]] is Some && vals2[q[k]]->0 <= k by {
                        if k < p.len() {
                            assert(vals[p[k]] is Some && vals[p[k]]->0 <= k);
                            assert(q[k] == p[k]);
                        }
                    }
                } else {
                    assert(self.witnessed(vals, paths, i));
                    let r = paths[i];
                    assert forall|k: int| 0 <= k < r.len() implies 0 <= #[trigger] r[k]
                        < vals2.len() && vals2[r[k]] is Some && vals2[r[k]]->0 <= k by {
                        assert(vals[r[k]] is Some && vals[r[k]]->0 <= k);
                    }
                }
            }
        }
        assert forall|i: int| self.in_grid(i) implies #[trigger] self.closed(
            vals2,
            stack2,
            i,
            from,
            dir + 1,
        ) by {
            assert(self.closed(vals, stack, i, from, dir));
            if vals2[i] is Some {
                if i == n {
                    assert(stack2.contains(n as usize));
                } else if stack.contains(i as usize) {
                    let s = choose|s: int| 0 <= s < stack.len() && stack[s] == i as usize;
                    assert(stack2[s] == i as usize);
                } else {
                    self.lemma_neighbor(i, 0);
                    self.lemma_neighbor(i, 1);
                    self.lemma_neighbor(i, 2);
                    self.lemma_neighbor(i, 3);
                    assert(self.due(vals2, i, 0, from, dir + 1));
                    assert(self.due(vals2, i, 1, from, dir + 1));
                    assert(self.due(vals2, i, 2, from, dir + 1));
                    assert(self.due(vals2, i, 3, from, dir + 1));
                }
            }
        }
    }

    /// Once the stack is empty, the `k`-th cell of any walk from the goal has
    /// a distance of at most `k`.
    proof fn lemma_walk_bound(
        self,
        vals: Seq<Option<u32>>,
        paths: Seq<Seq<int>>,
        q: Seq<int>,
        k: int,
    )
        requires
            self.wf(),
            self.fill_inv(vals, Seq::<usize>::empty(), paths, 0, 4),
            self.is_walk(q),
            0 <= k < q.len(),
        ensures
            self.in_grid(q[k]),
            vals[q[k]] is Some,
            vals[q[k]]->0 <= k,
        decreases k,
    {
        if k > 0 {
            self.lemma_walk_bound(vals, paths, q, k - 1);
            let a = q[k - 1];
            assert(self.is_hop(a, q[k]));
            assert(self.closed(vals, Seq::<usize>::empty(), a, 0, 4));
            assert(!Seq::<usize>::empty().contains(a as usize));
        }
    }

    /// Once the stack is empty, the table holds the least number of hops of
    /// every cell that a walk arrives at, and nothing for the others.
    proof fn lemma_fixpoint(self, vals: Seq<Option<u32>>, paths: Seq<Seq<int>>)
        requires
            self.wf(),
            self.fill_inv(vals, Seq::<usize>::empty(), paths, 0, 4),
        ensures
            self.is_distance_table(vals),
    {
        reveal(Layout::is_distance_table);
        assert forall|i: int| self.in_grid(i) implies self.is_distance(i, #[trigger] vals[i]) by {
            assert(self.witnessed(vals, paths, i));
            assert forall|e: nat| #[trigger] self.reaches(i, e) implies vals[i] is Some
                && vals[i]->0 <= e by {
                let q = choose|q: Seq<int>| #[trigger] self.is_walk_to(q, i, e);
                self.lemma_walk_bound(vals, paths, q, e as int);
            }
            if vals[i] is Some {
                assert(self.is_walk_to(paths[i], i, vals[i]->0 as nat));
            }
        }
    }
}

/// A distance table of `count` entries, none of them known.
fn blank_table(count: usize) -> (table: Vec<Option<u32>>)
    ensures
        table@.len() == count,
        forall|i: int| 0 <= i < count ==> table@[i] is None,
{
    let mut table: Vec<Option<u32>> = Vec::new();
    let mut i: usize = 0;
    while i < count
        invariant
            i <= count,
            table@.len() == i,
            forall|j: int| 0 <= j < i ==> table@[j] is None,
        decreases count - i,
    {
        table.push(None);
        i += 1;
    }
    table
}

impl Maze {
    /// Fills the distance table: every cell gets the least number of hops in
    /// which it is reached from the goal over path tiles, and no entry where
    /// no such walk arrives. The goal counts as reached in no hops, whatever
    /// its tile.
    pub fn flood_fill(&mut self)
        requires
            old(self).has_grid(),
            old(self).goal_position < old(self).tiles@.len(),
            old(self).tiles@.len() <= u32::MAX,
        ensures
            final(self).layout() == old(self).layout(),
            final(self).start_position == old(self).start_position,
            final(self).distances@.len() == old(self).tiles@.len(),
            final(self).layout().is_distance_table(final(self).distances@),
            final(self).distances@[old(self).goal_position as int] == Some(0u32),
    {
        let ghost lay = self.layout();
        let count = self.tiles.len();
        let goal = self.goal_position;
        let mut stack: Vec<usize> = vec![goal];
        self.distances = blank_table(count);
        self.distances.set(goal, Some(0));
        let ghost mut paths: Seq<Seq<int>> = Seq::new(count as nat, |i: int| seq![goal as int]);
        proof {
            let vals = self.distances@;
            assert forall|i: int| lay.in_grid(i) implies #[trigger] lay.witnessed(
                vals,
                paths,
                i,
            ) by {
                if vals[i] is Some {
                    assert(i == goal);
                    assert(paths[i] =~= seq![goal as int]);
                }
            }
            assert(stack@[0] == goal);
            assert forall|i: int| lay.in_grid(i) implies #[trigger] lay.closed(
                vals,
                stack@,
                i,
                0,
                4,
            ) by {
                if vals[i] is Some {
                    assert(stack@.contains(i as usize));
                }
            }
        }
        while stack.len() > 0
            invariant
                self.layout() == lay,
                self.start_position == old(self).start_position,
                lay.wf(),
                self.has_grid(),
                count == lay.tiles.len(),
                count <= u32::MAX,
                lay.fill_inv(self.distances@, stack@, paths, 0, 4),
            decreases total_cost(self.distances@, count as nat), stack@.len(),
        {
            let ghost cost0 = total_cost(self.distances@, count as nat);
            let ghost len0 = stack@.len();
            proof {
                lay.lemma_pop(self.distances@, stack@, paths);
            }
            let index = stack.pop().unwrap();
            let value = self.distances[index].unwrap();
            let neighbors = self.get_neighbors(index);
            proof {
                lay.lemma_known_is_small(self.distances@, paths, index as int);
            }
            let mut dir: usize = 0;
            while dir < 4
                invariant
                    dir <= 4,
                    self.layout() == lay,
                    self.start_position == old(self).start_position,
                    lay.wf(),
                    self.has_grid(),
                    count == lay.tiles.len(),
                    count <= u32::MAX,
                    lay.in_grid(index as int),
                    self.distances@[index as int] == Some(value),
                    value + 1 <= count,
                    forall|d: int|
                        0 <= d < 4 ==> #[trigger] neighbors@[d] == lay.neighbor_tile(
                            index as int,
                            d,
                        ),
                    lay.fill_inv(self.distances@, stack@, paths, index as int, dir as int),
                    total_cost(self.distances@, count as nat) < cost0 || (total_cost(
                        self.distances@,
                        count as nat,
                    ) == cost0 && stack@.len() == len0 - 1),
                decreases 4 - dir,
            {
                let ghost vals = self.distances@;
                let ghost mut improved = false;
                let next = neighbors[dir];
                assert(next == neighbors@[dir as int]);
                if let Some(tile) = next {
                    if tile == Tile::Path {
                        let n = self.neighbor_index(index, dir);
                        let lower = match self.distances[n] {
                            None => true,
                            Some(v) => v > value + 1,
                        };
                        if lower {
                            proof {
                                let from = index as int;
                                let hops = Some((value + 1) as u32);
                                lay.lemma_relax(vals, stack@, paths, from, dir as int, n as int);
                                lemma_total_cost_update(vals, count as nat, n as int, hops);
                                paths = paths.update(n as int, paths[from].push(n as int));
                                improved = true;
                            }
                            self.distances.set(n, Some(value + 1));
                            stack.push(n);
                        }
                    }
                }
                proof {
                    if !improved {
                        lay.lemma_skip(vals, stack@, paths, index as int, dir as int);
                    }
                }
                dir += 1;
            }
            proof {
                lay.lemma_done(self.distances@, stack@, paths, index as int);
            }
        }
        proof {
            assert(stack@ =~= Seq::<usize>::empty());
            lay.lemma_fixpoint(self.distances@, paths);
        }
    }
}

} // verus!
