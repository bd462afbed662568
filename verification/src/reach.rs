use crate::layout::Layout;
use crate::tile::Tile;
use vstd::prelude::*;

verus! {

impl Layout {
    /// One hop away from the goal: from the cell `a` onto the path tile `b` next to it.
    pub open spec fn is_hop(self, a: int, b: int) -> bool {
        &&& self.in_grid(a)
        &&& self.in_grid(b)
        &&& self.adjacent(a, b)
        &&& self.tiles[b] == Tile::Path
    }

    /// `p` lists the cells of a walk that sets out from the goal and only
    /// ever steps onto path tiles.
    pub open spec fn is_walk(self, p: Seq<int>) -> bool {
        &&& p.len() > 0
        &&& p[0] == self.goal
        &&& forall|k: int| 0 < k < p.len() ==> self.is_hop(p[k - 1], #[trigger] p[k])
    }

    /// `p` is a walk of `d` hops from the goal to the cell `i`.
    pub open spec fn is_walk_to(self, p: Seq<int>, i: int, d: nat) -> bool {
        &&& self.is_walk(p)
        &&& p.len() == d + 1
        &&& p[d as int] == i
    }

    /// Some walk of exactly `d` hops leads from the goal to the cell `i`.
    pub open spec fn reaches(self, i: int, d: nat) -> bool {
        exists|p: Seq<int>| #[trigger] self.is_walk_to(p, i, d)
    }

    /// `d` is the least number of hops in which the cell `i` is reached from the goal.
    pub open spec fn is_hop_count(self, i: int, d: nat) -> bool {
        &&& self.reaches(i, d)
        &&& forall|e: nat| e < d ==> !#[trigger] self.reaches(i, e)
    }

    /// `v` is what a filled distance table holds for the cell `i`: its least
    /// number of hops, or nothing where no walk from the goal arrives.
    pub open spec fn is_distance(self, i: int, v: Option<u32>) -> bool {
        match v {
            Some(d) => self.is_hop_count(i, d as nat),
            None => forall|e: nat| !#[trigger] self.reaches(i, e),
        }
    }

    /// `table` holds for every cell of the grid its distance from the goal.
    #[verifier::opaque]
    pub open spec fn is_distance_table(self, table: Seq<Option<u32>>) -> bool {
        &&& table.len() == self.tiles.len()
        &&& forall|i: int| self.in_grid(i) ==> self.is_distance(i, #[trigger] table[i])
    }

    /// The part of a walk up to its `k`-th cell is a walk.
    pub proof fn lemma_walk_prefix(self, p: Seq<int>, k: int)
        requires
            self.is_walk(p),
            0 <= k < p.len(),
        ensures
            self.is_walk_to(p.take(k + 1), p[k], k as nat),
    {
        let q = p.take(k + 1);
        assert forall|j: int| 0 < j < q.len() implies self.is_hop(q[j - 1], #[trigger] q[j]) by {
            assert(self.is_hop(p[j - 1], p[j]));
        }
    }

    /// In no hops only the goal is reached.
    pub proof fn lemma_zero_hops(self, i: int)
        ensures
            self.reaches(i, 0) <==> i == self.goal,
    {
        if i == self.goal {
            assert(self.is_walk_to(seq![self.goal], i, 0));
        }
        if self.reaches(i, 0) {
            let p = choose|p: Seq<int>| #[trigger] self.is_walk_to(p, i, 0);
            assert(p[0] == i);
        }
    }

    /// A cell that is reached in one hop or more is a path tile of the grid,
    /// and the walk arrives from a cell next to it that is reached in one hop less.
    pub proof fn lemma_last_hop(self, i: int, d: nat) -> (a: int)
        requires
            self.reaches(i, d),
            d > 0,
        ensures
            self.is_hop(a, i),
            self.reaches(a, (d - 1) as nat),
    {
        let p = choose|p: Seq<int>| #[trigger] self.is_walk_to(p, i, d);
        assert(self.is_hop(p[d - 1], p[d as int]));
        self.lemma_walk_prefix(p, d - 1);
        p[d - 1]
    }

    /// One hop more reaches the path tile next door.
    pub proof fn lemma_one_more_hop(self, a: int, d: nat, b: int)
        requires
            self.reaches(a, d),
            self.is_hop(a, b),
        ensures
            self.reaches(b, d + 1),
    {
        let p = choose|p: Seq<int>| #[trigger] self.is_walk_to(p, a, d);
        self.lemma_walk_push(p, a, d, b);
    }

    /// A cell has at most one distance.
    pub proof fn lemma_distance_unique(self, i: int, v: Option<u32>, w: Option<u32>)
        requires
            self.is_distance(i, v),
            self.is_distance(i, w),
        ensures
            v == w,
    {
        if v is Some && w is Some {
            let a = v->0 as nat;
            let b = w->0 as nat;
            assert(self.reaches(i, a) && self.reaches(i, b));
            assert(!(a < b));
            assert(!(b < a));
        } else if v is Some {
            assert(self.reaches(i, v->0 as nat));
        } else if w is Some {
            assert(self.reaches(i, w->0 as nat));
        }
    }

    /// What a distance table holds for one cell.
    pub proof fn lemma_table_entry(self, table: Seq<Option<u32>>, i: int)
        requires
            self.is_distance_table(table),
            self.in_grid(i),
        ensures
            table.len() == self.tiles.len(),
            self.is_distance(i, table[i]),
    {
        reveal(Layout::is_distance_table);
    }

    /// A grid has one distance table only: two tables that both hold the
    /// distances of its cells are equal, however they were filled.
    pub proof fn lemma_table_unique(self, first: Seq<Option<u32>>, second: Seq<Option<u32>>)
        requires
            self.is_distance_table(first),
            self.is_distance_table(second),
        ensures
            first == second,
    {
        reveal(Layout::is_distance_table);
        assert forall|i: int| 0 <= i < first.len() implies first[i] == second[i] by {
            assert(self.in_grid(i));
            self.lemma_distance_unique(i, first[i], second[i]);
        }
        assert(first =~= second);
    }

    /// A distance table has an entry for a cell exactly where some walk from
    /// the goal arrives at it.
    pub proof fn lemma_known_iff_reached(self, table: Seq<Option<u32>>, i: int)
        requires
            self.is_distance_table(table),
            self.in_grid(i),
        ensures
            table[i] is Some <==> exists|d: nat| self.reaches(i, d),
    {
        self.lemma_table_entry(table, i);
        if table[i] is Some {
            assert(self.reaches(i, table[i]->0 as nat));
        }
    }

    /// A distance table has no entry for a wall, unless the wall is the goal.
    pub proof fn lemma_wall_has_no_distance(self, table: Seq<Option<u32>>, i: int)
        requires
            self.is_distance_table(table),
            self.in_grid(i),
            self.tiles[i] == Tile::Wall,
            i != self.goal,
        ensures
            table[i] is None,
    {
        self.lemma_table_entry(table, i);
        if table[i] is Some {
            let d = table[i]->0 as nat;
            self.lemma_zero_hops(i);
            let a = self.lemma_last_hop(i, d);
        }
    }

    /// The goal is at distance zero from itself.
    pub proof fn lemma_goal_distance(self, table: Seq<Option<u32>>)
        requires
            self.in_grid(self.goal),
            self.is_distance_table(table),
        ensures
            table[self.goal] == Some(0u32),
    {
        self.lemma_zero_hops(self.goal);
        self.lemma_table_entry(table, self.goal);
        assert(self.is_distance(self.goal, Some(0u32)));
        self.lemma_distance_unique(self.goal, table[self.goal], Some(0u32));
    }

    /// In a distance table, a hop adds at most one.
    pub proof fn lemma_table_hop(self, table: Seq<Option<u32>>, a: int, b: int)
        requires
            self.is_distance_table(table),
            self.is_hop(a, b),
            table[a] is Some,
        ensures
            table[b] is Some,
            table[b]->0 <= table[a]->0 + 1,
    {
        self.lemma_table_entry(table, a);
        self.lemma_table_entry(table, b);
        self.lemma_one_more_hop(a, table[a]->0 as nat, b);
    }

    /// A walk that is one hop longer.
    pub proof fn lemma_walk_push(self, p: Seq<int>, i: int, d: nat, n: int)
        requires
            self.is_walk_to(p, i, d),
            self.is_hop(i, n),
        ensures
            self.is_walk_to(p.push(n), n, d + 1),
    {
        let q = p.push(n);
        assert forall|k: int| 0 < k < q.len() implies self.is_hop(q[k - 1], #[trigger] q[k]) by {
            if k < p.len() {
                assert(self.is_hop(p[k - 1], p[k]));
            }
        }
    }
}

} // verus!
