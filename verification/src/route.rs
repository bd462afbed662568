use crate::grid::Maze;
use crate::layout::Layout;
use crate::tile::Tile;
use vstd::prelude::*;

verus! {

impl Layout {
    /// Direction `dir` leads from the cell `i` onto a path tile whose distance
    /// is one less than that of `i`.
    pub open spec fn leads_down(self, table: Seq<Option<u32>>, i: int, dir: int) -> bool {
        match self.neighbor(i, dir) {
            Some(n) => self.tiles[n] == Tile::Path && table[i] is Some && table[n] is Some
                && table[n]->0 + 1 == table[i]->0,
            None => false,
        }
    }

    /// The first direction below `limit` that leads down from `i`, in the
    /// order north, south, west, east.
    pub open spec fn first_down(self, table: Seq<Option<u32>>, i: int, limit: int) -> Option<int> {
        if limit > 0 && self.leads_down(table, i, 0) {
            Some(0)
        } else if limit > 1 && self.leads_down(table, i, 1) {
            Some(1)
        } else if limit > 2 && self.leads_down(table, i, 2) {
            Some(2)
        } else if limit > 3 && self.leads_down(table, i, 3) {
            Some(3)
        } else {
            None
        }
    }

    /// The cell that a route goes to from `i`: the neighbour in the first
    /// direction that leads down, and `i` itself where none does.
    pub open spec fn downhill(self, table: Seq<Option<u32>>, i: int) -> int {
        match self.first_down(table, i, 4) {
            Some(dir) => self.neighbor(i, dir)->0,
            None => i,
        }
    }

    /// Along `route` each cell is the downhill cell of the one before, a path
    /// tile next to it, and one hop closer to the goal.
    #[verifier::opaque]
    pub open spec fn descends(self, table: Seq<Option<u32>>, route: Seq<usize>) -> bool {
        &&& forall|k: int|
            0 <= k < route.len() ==> self.in_grid(#[trigger] route[k] as int)
                && table[route[k] as int] == Some((table[route[0] as int]->0 - k) as u32)
        &&& forall|k: int|
            0 < k < route.len() ==> #[trigger] route[k] == self.downhill(table, route[k - 1] as int)
                && self.adjacent(route[k - 1] as int, route[k] as int)
                && self.tiles[route[k] as int] == Tile::Path
    }

    /// `route` descends from `start` to the goal.
    pub open spec fn is_descent(
        self,
        table: Seq<Option<u32>>,
        start: int,
        route: Seq<usize>,
    ) -> bool {
        &&& table[start] is Some
        &&& route.len() == table[start]->0 + 1
        &&& route[0] == start
        &&& route[route.len() - 1] == self.goal
        &&& self.descends(table, route)
    }

    /// The route that only holds its start descends.
    proof fn lemma_descent_start(self, table: Seq<Option<u32>>, start: usize)
        requires
            self.in_grid(start as int),
            table[start as int] is Some,
        ensures
            self.descends(table, seq![start]),
    {
        reveal(Layout::descends);
    }

    /// A descending route goes on to the downhill cell of its last cell.
    proof fn lemma_descent_push(self, table: Seq<Option<u32>>, route: Seq<usize>, next: usize)
        requires
            self.wf(),
            route.len() > 0,
            self.descends(table, route),
            table[route[0] as int]->0 >= route.len(),
            self.first_down(table, route[route.len() - 1] as int, 4) is Some,
            next == self.downhill(table, route[route.len() - 1] as int),
        ensures
            self.descends(table, route.push(next)),
            self.in_grid(next as int),
            table[next as int] == Some((table[route[0] as int]->0 - route.len()) as u32),
    {
        reveal(Layout::descends);
        let last = route[route.len() - 1];
        let j = self.first_down(table, last as int, 4)->0;
        assert(self.in_grid(route[route.len() - 1] as int));
        self.lemma_neighbor(last as int, j);
        let r = route.push(next);
        assert forall|k: int| 0 <= k < r.len() implies self.in_grid(#[trigger] r[k] as int)
            && table[r[k] as int] == Some((table[r[0] as int]->0 - k) as u32) by {
            if k < route.len() {
                assert(self.in_grid(route[k] as int));
            }
        }
        assert forall|k: int| 0 < k < r.len() implies #[trigger] r[k] == self.downhill(
            table,
            r[k - 1] as int,
        ) && self.adjacent(r[k - 1] as int, r[k] as int) && self.tiles[r[k] as int]
            == Tile::Path by {
            if k < route.len() {
                assert(route[k] == self.downhill(table, route[k - 1] as int));
            }
        }
    }

    /// From one start there is one descent only.
    pub proof fn lemma_descent_unique(
        self,
        table: Seq<Option<u32>>,
        start: int,
        first: Seq<usize>,
        second: Seq<usize>,
    )
        requires
            self.is_descent(table, start, first),
            self.is_descent(table, start, second),
        ensures
            first == second,
    {
        assert forall|k: int| 0 <= k < first.len() implies first[k] == second[k] by {
            self.lemma_descent_agree(table, first, second, k);
        }
        assert(first =~= second);
    }

    /// Two descending routes from one cell agree as far as both go.
    proof fn lemma_descent_agree(
        self,
        table: Seq<Option<u32>>,
        first: Seq<usize>,
        second: Seq<usize>,
        k: int,
    )
        requires
            self.descends(table, first),
            self.descends(table, second),
            0 <= k < first.len(),
            k < second.len(),
            first[0] == second[0],
        ensures
            first[k] == second[k],
        decreases k,
    {
        if k > 0 {
            self.lemma_descent_agree(table, first, second, k - 1);
            self.lemma_descent_at(table, first, k);
            self.lemma_descent_at(table, second, k);
        }
    }

    /// What a descending route holds at one place.
    pub proof fn lemma_descent_at(self, table: Seq<Option<u32>>, route: Seq<usize>, k: int)
        requires
            self.descends(table, route),
            0 <= k < route.len(),
        ensures
            self.in_grid(route[k] as int),
            table[route[k] as int] == Some((table[route[0] as int]->0 - k) as u32),
            k > 0 ==> route[k] == self.downhill(table, route[k - 1] as int) && self.adjacent(
                route[k - 1] as int,
                route[k] as int,
            ) && self.tiles[route[k] as int] == Tile::Path,
    {
        reveal(Layout::descends);
    }

    /// In a distance table, every cell but the goal that has a distance has a
    /// direction that leads down, provided the goal is a path tile.
    pub proof fn lemma_has_downhill(self, table: Seq<Option<u32>>, i: int)
        requires
            self.wf(),
            self.is_distance_table(table),
            self.tiles[self.goal] == Tile::Path,
            self.in_grid(i),
            table[i] is Some,
            i != self.goal,
        ensures
            table[i]->0 > 0,
            self.tiles[i] == Tile::Path,
            self.first_down(table, i, 4) is Some,
    {
        let d = table[i]->0 as nat;
        self.lemma_table_entry(table, i);
        self.lemma_zero_hops(i);
        let a = self.lemma_last_hop(i, d);
        self.lemma_table_entry(table, a);
        if table[a] is Some {
            let v = table[a]->0 as nat;
            if v + 1 < d {
                self.lemma_one_more_hop(a, v, i);
            }
        }
        assert(table[a] == Some((d - 1) as u32));
        if d - 1 == 0 {
            self.lemma_zero_hops(a);
        } else {
            let b = self.lemma_last_hop(a, (d - 1) as nat);
        }
        assert(self.tiles[a] == Tile::Path);
        self.lemma_neighbor(a, 0);
        self.lemma_neighbor(a, 1);
        self.lemma_neighbor(a, 2);
        self.lemma_neighbor(a, 3);
        if self.neighbor(a, 0) == Some(i) {
            assert(self.leads_down(table, i, 1));
        } else if self.neighbor(a, 1) == Some(i) {
            assert(self.leads_down(table, i, 0));
        } else if self.neighbor(a, 2) == Some(i) {
            assert(self.leads_down(table, i, 3));
        } else {
            assert(self.leads_down(table, i, 2));
        }
    }

    /// In a distance table, a path tile next to a path tile with a distance
    /// has a distance too, and the two differ by at most one.
    pub proof fn lemma_next_door(self, table: Seq<Option<u32>>, i: int, dir: int)
        requires
            self.wf(),
            self.is_distance_table(table),
            self.in_grid(i),
            table[i] is Some,
            self.tiles[i] == Tile::Path,
            0 <= dir < 4,
            self.neighbor(i, dir) is Some,
            self.tiles[self.neighbor(i, dir)->0] == Tile::Path,
        ensures
            table[self.neighbor(i, dir)->0] is Some,
            table[self.neighbor(i, dir)->0]->0 <= table[i]->0 + 1,
            table[i]->0 <= table[self.neighbor(i, dir)->0]->0 + 1,
    {
        let n = self.neighbor(i, dir)->0;
        self.lemma_neighbor(i, dir);
        assert(self.is_hop(i, n));
        assert(self.is_hop(n, i));
        self.lemma_table_hop(table, i, n);
        self.lemma_table_hop(table, n, i);
    }
}

impl Maze {
    /// The distance table holds the distance of every cell from the goal.
    pub open spec fn is_filled(&self) -> bool {
        self.layout().is_distance_table(self.distances@)
    }

    /// What `solve` answers for a filled maze: no route where the start has no
    /// distance, and else the descent from the start.
    pub open spec fn is_solution(&self, route: Option<Seq<usize>>) -> bool {
        match route {
            None => self.distances@[self.start_position as int] is None,
            Some(r) => self.layout().is_descent(self.distances@, self.start_position as int, r),
        }
    }

    /// Filling and solving have one outcome: two filled mazes with the same
    /// grid, goal and start hold the same table, and their solutions are the same.
    pub proof fn lemma_same_outcome(
        &self,
        other: &Maze,
        route: Option<Seq<usize>>,
        other_route: Option<Seq<usize>>,
    )
        requires
            self.layout() == other.layout(),
            self.start_position == other.start_position,
            self.is_filled(),
            other.is_filled(),
            self.is_solution(route),
            other.is_solution(other_route),
        ensures
            self.distances@ == other.distances@,
            route == other_route,
    {
        self.layout().lemma_table_unique(self.distances@, other.distances@);
        if route is Some && other_route is Some {
            self.layout().lemma_descent_unique(
                self.distances@,
                self.start_position as int,
                route->0,
                other_route->0,
            );
        }
    }

    /// A solution is as short as can be: it makes as many hops as the
    /// shortest walk between the goal and the start, and no walk makes fewer.
    pub proof fn lemma_shortest(&self, route: Seq<usize>)
        requires
            self.is_filled(),
            self.layout().in_grid(self.start_position as int),
            self.is_solution(Some(route)),
        ensures
            self.layout().is_hop_count(self.start_position as int, (route.len() - 1) as nat),
    {
        self.layout().lemma_table_entry(self.distances@, self.start_position as int);
    }

    /// Where no walk from the goal arrives at the start, and only there, a
    /// filled maze has no solution.
    pub proof fn lemma_unsolvable(&self, route: Option<Seq<usize>>)
        requires
            self.is_filled(),
            self.layout().in_grid(self.start_position as int),
            self.is_solution(route),
        ensures
            route is None <==> forall|d: nat| !self.layout().reaches(self.start_position as int, d),
    {
        self.layout().lemma_known_iff_reached(self.distances@, self.start_position as int);
    }

    /// The downhill cell of `index`, a cell with a distance that is not the goal.
    fn step_down(&self, index: usize) -> (next: Option<usize>)
        requires
            self.has_grid(),
            self.goal_position < self.tiles@.len(),
            self.is_filled(),
            index < self.tiles@.len(),
            index != self.goal_position,
            self.distances@[index as int] is Some,
            self.tiles@[self.goal_position as int] == Tile::Path,
        ensures
            self.layout().first_down(self.distances@, index as int, 4) is Some,
            next is Some,
            next->0 as int == self.layout().downhill(self.distances@, index as int),
    {
        let ghost lay = self.layout();
        let ghost table = self.distances@;
        proof {
            lay.lemma_table_entry(table, index as int);
            lay.lemma_has_downhill(table, index as int);
        }
        let curr_value = self.distances[index].unwrap();
        let mut min = curr_value;
        let mut min_index = index;
        let neighbors = self.get_neighbors(index);
        let mut dir: usize = 0;
        while dir < 4
            invariant
                dir <= 4,
                lay == self.layout(),
                table == self.distances@,
                table.len() == lay.tiles.len(),
                lay.wf(),
                self.has_grid(),
                lay.is_distance_table(table),
                lay.in_grid(index as int),
                lay.tiles[index as int] == Tile::Path,
                table[index as int] == Some(curr_value),
                curr_value > 0,
                forall|d: int|
                    0 <= d < 4 ==> #[trigger] neighbors@[d] == lay.neighbor_tile(index as int, d),
                match lay.first_down(table, index as int, dir as int) {
                    Some(j) => min_index as int == lay.neighbor(index as int, j)->0 && min
                        == curr_value - 1,
                    None => min_index == index && min == curr_value,
                },
            decreases 4 - dir,
        {
            let next = neighbors[dir];
            assert(next == neighbors@[dir as int]);
            if let Some(tile) = next {
                if tile == Tile::Path {
                    let n = self.neighbor_index(index, dir);
                    proof {
                        lay.lemma_next_door(table, index as int, dir as int);
                    }
                    let value = match self.distances[n] {
                        Some(v) => v,
                        None => {
                            return None;
                        },
                    };
                    if value < min {
                        min = value;
                        min_index = n;
                    }
                }
            }
            dir += 1;
        }
        Some(min_index)
    }

    /// A shortest route from the start to the goal, both included, or `None`
    /// where the start has no distance. From each cell the route goes on to
    /// the first neighbour, in the order north, south, west, east, that is a
    /// path tile one hop closer to the goal.
    ///
    /// A goal on a wall can be approached but not entered, so it is left out
    /// unless the start is the goal or has no distance.
    pub fn solve(&self) -> (route: Option<Vec<usize>>)
        requires
            self.has_grid(),
            self.goal_position < self.tiles@.len(),
            self.start_position < self.tiles@.len(),
            self.is_filled(),
            self.tiles@[self.goal_position as int] == Tile::Path || self.start_position
                == self.goal_position || self.distances@[self.start_position as int] is None,
        ensures
            self.is_solution(
                match route {
                    Some(r) => Some(r@),
                    None => None,
                },
            ),
            route is Some ==> forall|k: int|
                0 <= k < route->0@.len() ==> self.distances@[#[trigger] route->0@[k] as int]
                    == Some((route->0@.len() - 1 - k) as u32),
    {
        let ghost lay = self.layout();
        let ghost table = self.distances@;
        let start = self.start_position;
        let mut solution: Vec<usize> = vec![start];
        let mut curr_index = start;
        proof {
            lay.lemma_goal_distance(table);
            lay.lemma_table_entry(table, start as int);
            if table[start as int] is Some {
                lay.lemma_descent_start(table, start);
                assert(solution@ =~= seq![start]);
            }
        }
        while curr_index != self.goal_position
            invariant
                lay == self.layout(),
                table == self.distances@,
                table.len() == lay.tiles.len(),
                start == self.start_position,
                lay.wf(),
                self.has_grid(),
                self.is_filled(),
                lay.in_grid(curr_index as int),
                table[lay.goal] == Some(0u32),
                lay.tiles[lay.goal] == Tile::Path || table[start as int] is None || start
                    == lay.goal,
                solution@.len() > 0,
                solution@[0] == start,
                solution@[solution@.len() - 1] == curr_index,
                table[start as int] is None ==> curr_index == start,
                table[start as int] is Some ==> solution@.len() <= table[start as int]->0 + 1
                    && lay.descends(table, solution@) && table[curr_index as int] == Some(
                    (table[start as int]->0 + 1 - solution@.len()) as u32,
                ),
            decreases
                    (if table[curr_index as int] is Some {
                        table[curr_index as int]->0 + 1
                    } else {
                        0
                    }),
        {
            if self.distances[curr_index].is_none() {
                return None;
            }
            let ghost route = solution@;
            let next = self.step_down(curr_index);
            let min_index = match next {
                Some(n) => n,
                None => {
                    return None;
                },
            };
            proof {
                lay.lemma_descent_push(table, route, min_index);
            }
            solution.push(min_index);
            curr_index = min_index;
        }
        proof {
            assert forall|k: int|
                0 <= k < solution@.len() implies self.distances@[#[trigger] solution@[k] as int]
                == Some((solution@.len() - 1 - k) as u32) by {
                lay.lemma_descent_at(table, solution@, k);
            }
        }
        Some(solution)
    }
}

} // verus!
