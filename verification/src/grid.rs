use std::collections::HashMap;
use vstd::prelude::*;

verus! {

broadcast use vstd::std_specs::hash::group_hash_axioms;

/// One cell of the uniform grid that space is cut into: each coordinate of a
/// point, divided by the edge length of a cell and rounded down.
#[derive(Clone, Copy, Debug, PartialEq, Eq, Structural)]
pub struct Cell {
    pub x: i32,
    pub y: i32,
    pub z: i32,
}

/// The number under which a cell's bucket is filed: its three coordinates,
/// each moved up into `0 .. 2^32`, as the digits of a number in base `2^32`.
pub closed spec fn key_of(c: Cell) -> u128 {
    (((c.x + 0x8000_0000) * 0x1_0000_0000 + (c.y + 0x8000_0000)) * 0x1_0000_0000 + (c.z
        + 0x8000_0000)) as u128
}

/// Two cells are filed under one number only if they are the same cell.
proof fn lemma_key_injective(a: Cell, b: Cell)
    ensures
        key_of(a) == key_of(b) <==> a == b,
{
}

fn key(c: Cell) -> (k: u128)
    ensures
        k == key_of(c),
{
    let x: u128 = (c.x as i64 + 0x8000_0000) as u128;
    let y: u128 = (c.y as i64 + 0x8000_0000) as u128;
    let z: u128 = (c.z as i64 + 0x8000_0000) as u128;
    (x * 0x1_0000_0000 + y) * 0x1_0000_0000 + z
}

/// The grain numbers `0 .. n` in order.
pub open spec fn grains(n: nat) -> Seq<u32> {
    Seq::new(n, |i: int| i as u32)
}

/// The test whether a grain lies in cell `c`; `cells` gives each grain's
/// cell.
pub open spec fn lies_in(cells: Seq<Cell>, c: Cell) -> spec_fn(u32) -> bool {
    |i: u32| cells[i as int] == c
}

/// The test whether a grain is another than `index`.
pub open spec fn other_than(index: u32) -> spec_fn(u32) -> bool {
    |j: u32| j != index
}

/// Of the first `n` grains, those that lie in cell `c`, in order.
pub open spec fn members_among(cells: Seq<Cell>, c: Cell, n: nat) -> Seq<u32> {
    grains(n).filter(lies_in(cells, c))
}

/// The grains that lie in cell `c`, in order.
pub open spec fn members(cells: Seq<Cell>, c: Cell) -> Seq<u32> {
    members_among(cells, c, cells.len())
}

/// What a grid holds once the first `n` grains are in it.
pub open spec fn occupancy_among(cells: Seq<Cell>, n: nat) -> Map<Cell, Seq<u32>> {
    Map::new(|c: Cell| cells.take(n as int).contains(c), |c: Cell| members_among(cells, c, n))
}

/// What a grid holds once every grain is in it: each cell in which a grain
/// lies, with the grains that lie there, in order.
pub open spec fn occupancy(cells: Seq<Cell>) -> Map<Cell, Seq<u32>> {
    Map::new(|c: Cell| cells.contains(c), |c: Cell| members(cells, c))
}

/// Whether `v` is a coordinate that a cell can have.
pub open spec fn is_coordinate(v: int) -> bool {
    i32::MIN <= v <= i32::MAX
}

/// Number of cells in a neighborhood: a cell and all that touch it.
pub const NEIGHBORHOOD: u8 = 27;

/// The `k`-th step from a cell to one of its neighborhood, for `k` in
/// `0 .. 27`: each coordinate moves by -1, 0 or 1, x slowest and z fastest.
pub open spec fn offset(k: int) -> (int, int, int) {
    (k / 9 - 1, k / 3 % 3 - 1, k % 3 - 1)
}

/// Whether no coordinate of `a` is more than one away from that of `b`.
pub open spec fn adjacent(a: Cell, b: Cell) -> bool {
    &&& -1 <= a.x - b.x <= 1
    &&& -1 <= a.y - b.y <= 1
    &&& -1 <= a.z - b.z <= 1
}

/// A uniform spatial hash grid: for every cell the grains that lie in it, in
/// the order in which they were put there.
pub struct SpatialGrid {
    buckets: HashMap<u128, Vec<u32>>,
}

impl View for SpatialGrid {
    type V = Map<Cell, Seq<u32>>;

    /// The occupied cells, each with its grains.
    closed spec fn view(&self) -> Map<Cell, Seq<u32>> {
        Map::new(
            |c: Cell| self.buckets@.contains_key(key_of(c)),
            |c: Cell| self.buckets@[key_of(c)]@,
        )
    }
}

impl SpatialGrid {
    /// The grains in cell `c`; none where the grid holds nothing for `c`.
    pub open spec fn bucket(&self, c: Cell) -> Seq<u32> {
        if self@.contains_key(c) {
            self@[c]
        } else {
            Seq::empty()
        }
    }

    /// The grains at the coordinates `(x, y, z)`; none where these are not
    /// the coordinates of a cell.
    pub open spec fn bucket_at(&self, x: int, y: int, z: int) -> Seq<u32> {
        if is_coordinate(x) && is_coordinate(y) && is_coordinate(z) {
            self.bucket(Cell { x: x as i32, y: y as i32, z: z as i32 })
        } else {
            Seq::empty()
        }
    }

    /// The grains other than `index` in the `k`-th cell of the neighborhood
    /// of `c`, in the order of their bucket.
    pub open spec fn others(&self, index: u32, c: Cell, k: int) -> Seq<u32> {
        let (dx, dy, dz) = offset(k);
        self.bucket_at(c.x + dx, c.y + dy, c.z + dz).filter(other_than(index))
    }

    /// The grains other than `index` in the first `k` cells of the
    /// neighborhood of `c`.
    pub open spec fn candidates_within(&self, index: u32, c: Cell, k: nat) -> Seq<u32>
        decreases k,
    {
        if k == 0 {
            Seq::empty()
        } else {
            self.candidates_within(index, c, (k - 1) as nat) + self.others(index, c, k - 1)
        }
    }

    /// The grains that grain `index`, lying in cell `c`, is to be tested
    /// against: all others in the neighborhood of `c`, cell after cell.
    pub open spec fn candidates(&self, index: u32, c: Cell) -> Seq<u32> {
        self.candidates_within(index, c, NEIGHBORHOOD as nat)
    }

    /// A grid with no grain in it.
    pub fn new() -> (g: SpatialGrid)
        ensures
            g@ == Map::<Cell, Seq<u32>>::empty(),
    {
        let g = SpatialGrid { buckets: HashMap::new() };
        assert(g@ =~= Map::<Cell, Seq<u32>>::empty());
        g
    }

    /// Takes every grain out of the grid.
    pub fn clear(&mut self)
        ensures
            final(self)@ == Map::<Cell, Seq<u32>>::empty(),
    {
        self.buckets.clear();
        assert(self@ =~= Map::<Cell, Seq<u32>>::empty());
    }

    /// Puts grain `index` into cell `c`, behind the grains already there.
    pub fn insert(&mut self, c: Cell, index: u32)
        ensures
            final(self)@ == old(self)@.insert(c, old(self).bucket(c).push(index)),
    {
        let k = key(c);
        let bucket = self.buckets.entry(k).or_insert(Vec::new());
        bucket.push(index);
        proof {
            assert forall|d: Cell| key_of(d) == k implies d == c by {
                lemma_key_injective(d, c);
            }
            assert(self@ =~= old(self)@.insert(c, old(self).bucket(c).push(index)));
        }
    }

    /// Empties the grid and fills it anew: grain `i` goes into `cells[i]`, so
    /// that nothing of an earlier filling is left.
    pub fn rebuild(&mut self, cells: &Vec<Cell>)
        requires
            cells@.len() <= u32::MAX,
        ensures
            final(self)@ == occupancy(cells@),
    {
        self.clear();
        let count = cells.len();
        let mut i: usize = 0;
        proof {
            assert(self@ =~= occupancy_among(cells@, 0));
        }
        while i < count
            invariant
                count == cells@.len(),
                count <= u32::MAX,
                i <= count,
                self@ == occupancy_among(cells@, i as nat),
            decreases count - i,
        {
            let ghost before = *self;
            self.insert(cells[i], i as u32);
            proof {
                lemma_occupancy_step(cells@, i as nat);
                lemma_members_among(cells@, cells@[i as int], i as nat);
                assert(before.bucket(cells@[i as int]) == members_among(
                    cells@,
                    cells@[i as int],
                    i as nat,
                ));
            }
            i += 1;
        }
        proof {
            assert(cells@.take(count as int) =~= cells@);
            assert(self@ =~= occupancy(cells@));
        }
    }

    /// The grains in cell `c`, in the order in which they were put there.
    pub fn query(&self, c: Cell) -> (found: Vec<u32>)
        ensures
            found@ == self.bucket(c),
    {
        let mut found: Vec<u32> = Vec::new();
        match self.buckets.get(&key(c)) {
            Some(bucket) => {
                let mut m: usize = 0;
                while m < bucket.len()
                    invariant
                        m <= bucket@.len(),
                        found@ == bucket@.take(m as int),
                    decreases bucket@.len() - m,
                {
                    found.push(bucket[m]);
                    assert(bucket@.take(m + 1) =~= bucket@.take(m as int).push(bucket@[m as int]));
                    m += 1;
                }
                assert(bucket@.take(m as int) =~= bucket@);
            },
            None => {},
        }
        found
    }

    /// The grains that grain `index`, lying in cell `c`, is to be tested
    /// against: every grain but `index` itself in `c` and in the cells that
    /// touch it. The cells are taken with x changing slowest and z fastest,
    /// the grains of one cell in the order of its bucket.
    pub fn neighbors(&self, index: u32, c: Cell) -> (found: Vec<u32>)
        ensures
            found@ == self.candidates(index, c),
    {
        let mut found: Vec<u32> = Vec::new();
        let mut k: u8 = 0;
        while k < NEIGHBORHOOD
            invariant
                k <= NEIGHBORHOOD,
                found@ == self.candidates_within(index, c, k as nat),
            decreases NEIGHBORHOOD - k,
        {
            let x: i64 = c.x as i64 + (k / 9) as i64 - 1;
            let y: i64 = c.y as i64 + (k / 3 % 3) as i64 - 1;
            let z: i64 = c.z as i64 + (k % 3) as i64 - 1;
            let ghost so_far = found@;
            if is_cell_coordinate(x) && is_cell_coordinate(y) && is_cell_coordinate(z) {
                let near = Cell { x: x as i32, y: y as i32, z: z as i32 };
                match self.buckets.get(&key(near)) {
                    Some(bucket) => {
                        assert(bucket@ == self.bucket(near));
                        let mut m: usize = 0;
                        while m < bucket.len()
                            invariant
                                m <= bucket@.len(),
                                found@ == so_far + bucket@.take(m as int).filter(other_than(index)),
                            decreases bucket@.len() - m,
                        {
                            let j = bucket[m];
                            proof {
                                assert(bucket@.take(m + 1) =~= bucket@.take(m as int).push(j));
                                bucket@.take(m as int).lemma_filter_push(j, other_than(index));
                            }
                            if j != index {
                                found.push(j);
                            }
                            m += 1;
                        }
                        assert(bucket@.take(m as int) =~= bucket@);
                    },
                    None => {
                        assert(self.bucket(near) =~= Seq::empty());
                    },
                }
            }
            assert(found@ =~= so_far + self.others(index, c, k as int)) by {
                reveal_with_fuel(Seq::filter, 1);
                assert(Seq::<u32>::empty().filter(other_than(index)) =~= Seq::empty());
            }
            k += 1;
        }
        found
    }
}

/// Whether `v` is a coordinate that a cell can have.
fn is_cell_coordinate(v: i64) -> (b: bool)
    ensures
        b == is_coordinate(v as int),
{
    i32::MIN as i64 <= v && v <= i32::MAX as i64
}

/// Among the first `n` grains, the members of a cell are exactly the grains
/// that lie in it.
pub proof fn lemma_members_among(cells: Seq<Cell>, c: Cell, n: nat)
    requires
        n <= cells.len(),
        n <= u32::MAX,
    ensures
        forall|j: u32|
            #[trigger] members_among(cells, c, n).contains(j) <==> j < n && cells[j as int] == c,
        members_among(cells, c, n).len() > 0 <==> cells.take(n as int).contains(c),
{
    let lies_in = lies_in(cells, c);
    let all = grains(n);
    let found = members_among(cells, c, n);
    assert forall|j: u32| #[trigger] found.contains(j) implies j < n && cells[j as int] == c by {
        let m = choose|m: int| 0 <= m < found.len() && found[m] == j;
        all.lemma_filter_pred(lies_in, m);
        all.lemma_filter_contains_rev(lies_in, j);
    }
    assert forall|j: u32| j < n && cells[j as int] == c implies #[trigger] found.contains(j) by {
        assert(all[j as int] == j);
        all.lemma_filter_contains(lies_in, j as int);
    }
    if found.len() > 0 {
        let j = found[0];
        assert(found.contains(j));
        assert(cells.take(n as int)[j as int] == c);
    }
    if cells.take(n as int).contains(c) {
        let i = choose|i: int| 0 <= i < n && cells.take(n as int)[i] == c;
        assert(found.contains(i as u32));
    }
}

/// Putting grain `n` into its cell turns the grid of the first `n` grains
/// into that of the first `n + 1`.
proof fn lemma_occupancy_step(cells: Seq<Cell>, n: nat)
    requires
        n < cells.len(),
        n <= u32::MAX,
    ensures
        occupancy_among(cells, n + 1) == occupancy_among(cells, n).insert(
            cells[n as int],
            members_among(cells, cells[n as int], n).push(n as u32),
        ),
{
    let c = cells[n as int];
    let next = occupancy_among(cells, n + 1);
    let step = occupancy_among(cells, n).insert(c, members_among(cells, c, n).push(n as u32));
    assert(grains(n + 1) =~= grains(n).push(n as u32));
    assert(cells.take((n + 1) as int) =~= cells.take(n as int).push(c));
    assert forall|d: Cell| next.contains_key(d) <==> step.contains_key(d) by {
        if cells.take(n as int).contains(d) {
            let i = choose|i: int| 0 <= i < n && cells.take(n as int)[i] == d;
            assert(cells.take((n + 1) as int)[i] == d);
        }
        if d == c {
            assert(cells.take((n + 1) as int)[n as int] == c);
        }
    }
    assert forall|d: Cell| #[trigger] next.contains_key(d) implies next[d] == step[d] by {
        grains(n).lemma_filter_push(n as u32, lies_in(cells, d));
    }
    assert(next =~= step);
}

/// Whether the `m`-th step from cell `c` leads to cell `d`.
pub open spec fn steps_to(c: Cell, d: Cell, m: int) -> bool {
    let (dx, dy, dz) = offset(m);
    d.x == c.x + dx && d.y == c.y + dy && d.z == c.z + dz
}

/// Whether one of the first `k` steps from cell `c` leads to cell `d`.
pub open spec fn reached_within(c: Cell, d: Cell, k: nat) -> bool {
    exists|m: int| 0 <= m < k && #[trigger] steps_to(c, d, m)
}

/// The neighborhood of a cell is the cells adjacent to it: one of the 27
/// steps leads from `c` to `d` exactly if no coordinate of `d` is more than
/// one away from that of `c`.
pub proof fn lemma_neighborhood_is_adjacency(c: Cell, d: Cell)
    ensures
        reached_within(c, d, NEIGHBORHOOD as nat) <==> adjacent(d, c),
{
    if adjacent(d, c) {
        let m = (d.x - c.x + 1) * 9 + (d.y - c.y + 1) * 3 + (d.z - c.z + 1);
        assert(steps_to(c, d, m));
    }
}

/// A cell is reached by at most one step.
proof fn lemma_steps_differ(c: Cell, d: Cell, m1: int, m2: int)
    requires
        0 <= m1 < NEIGHBORHOOD,
        0 <= m2 < NEIGHBORHOOD,
        steps_to(c, d, m1),
        steps_to(c, d, m2),
    ensures
        m1 == m2,
{
}

/// The members of a cell stand in increasing order, so none stands twice.
pub proof fn lemma_members_increasing(cells: Seq<Cell>, c: Cell, n: nat)
    requires
        n <= cells.len(),
        n <= u32::MAX,
    ensures
        forall|a: int, b: int|
            0 <= a < b < members_among(cells, c, n).len() ==> members_among(cells, c, n)[a]
                < members_among(cells, c, n)[b],
        members_among(cells, c, n).no_duplicates(),
    decreases n,
{
    if n == 0 {
        grains(0).lemma_filter_len(lies_in(cells, c));
    } else {
        let less = (n - 1) as nat;
        lemma_members_increasing(cells, c, less);
        lemma_members_among(cells, c, less);
        assert(grains(n) =~= grains(less).push(less as u32));
        grains(less).lemma_filter_push(less as u32, lies_in(cells, c));
        let shorter = members_among(cells, c, less);
        assert forall|a: int| 0 <= a < shorter.len() implies shorter[a] < less by {
            assert(shorter.contains(shorter[a]));
        }
    }
}

impl SpatialGrid {
    /// In a grid filled from `cells`, the bucket of every cell holds the
    /// grains that lie in it, in order, and nothing else.
    pub proof fn lemma_bucket_holds_members(&self, cells: Seq<Cell>, c: Cell)
        requires
            self@ == occupancy(cells),
            cells.len() <= u32::MAX,
        ensures
            self.bucket(c) == members(cells, c),
            forall|j: u32| #[trigger]
                self.bucket(c).contains(j) <==> j < cells.len() && cells[j as int] == c,
            self.bucket(c).no_duplicates(),
    {
        lemma_members_among(cells, c, cells.len());
        lemma_members_increasing(cells, c, cells.len());
        assert(cells.take(cells.len() as int) =~= cells);
        if !self@.contains_key(c) {
            assert(members(cells, c) =~= Seq::empty());
        }
    }

    /// In a grid filled from `cells`, the `m`-th cell of the neighborhood of
    /// `c` yields the grains other than `index` that lie in it.
    proof fn lemma_others(&self, cells: Seq<Cell>, index: u32, c: Cell, m: int, j: u32)
        requires
            self@ == occupancy(cells),
            cells.len() <= u32::MAX,
            0 <= m < NEIGHBORHOOD,
        ensures
            self.others(index, c, m).contains(j) <==> j != index && j < cells.len() && steps_to(
                c,
                cells[j as int],
                m,
            ),
            self.others(index, c, m).no_duplicates(),
    {
        let (dx, dy, dz) = offset(m);
        let near = self.bucket_at(c.x + dx, c.y + dy, c.z + dz);
        let kept = near.filter(other_than(index));
        if is_coordinate(c.x + dx) && is_coordinate(c.y + dy) && is_coordinate(c.z + dz) {
            let d = Cell { x: (c.x + dx) as i32, y: (c.y + dy) as i32, z: (c.z + dz) as i32 };
            self.lemma_bucket_holds_members(cells, d);
        }
        lemma_filter_keeps_distinct(near, other_than(index));
        if kept.contains(j) {
            let a = choose|a: int| 0 <= a < kept.len() && kept[a] == j;
            near.lemma_filter_pred(other_than(index), a);
            near.lemma_filter_contains_rev(other_than(index), j);
        }
        if j != index && near.contains(j) {
            let a = choose|a: int| 0 <= a < near.len() && near[a] == j;
            near.lemma_filter_contains(other_than(index), a);
        }
    }

    /// In a grid filled from `cells`, the first `k` cells of the
    /// neighborhood of `c` yield every other grain that lies in one of
    /// them, each once.
    proof fn lemma_candidates_within(&self, cells: Seq<Cell>, index: u32, c: Cell, k: nat)
        requires
            self@ == occupancy(cells),
            cells.len() <= u32::MAX,
            k <= NEIGHBORHOOD,
        ensures
            forall|j: u32| #[trigger]
                self.candidates_within(index, c, k).contains(j) <==> j != index && j < cells.len()
                    && reached_within(c, cells[j as int], k),
            self.candidates_within(index, c, k).no_duplicates(),
        decreases k,
    {
        if k > 0 {
            let less = (k - 1) as nat;
            let earlier = self.candidates_within(index, c, less);
            let last = self.others(index, c, less as int);
            self.lemma_candidates_within(cells, index, c, less);
            assert forall|j: u32| #[trigger]
                (earlier + last).contains(j) <==> j != index && j < cells.len() && reached_within(
                    c,
                    cells[j as int],
                    k,
                ) by {
                self.lemma_others(cells, index, c, less as int, j);
                vstd::seq_lib::lemma_seq_concat_contains_all_elements(earlier, last, j);
                if earlier.contains(j) {
                    let m = choose|m: int| 0 <= m < less && #[trigger] steps_to(c, cells[j as int], m);
                    assert(steps_to(c, cells[j as int], m));
                }
                if last.contains(j) {
                    assert(steps_to(c, cells[j as int], less as int));
                }
            }
            assert forall|a: int, b: int| 0 <= a < earlier.len() && 0 <= b < last.len() implies earlier[a]
                != last[b] by {
                let j = earlier[a];
                assert(earlier.contains(j));
                if last[b] == j {
                    assert(last.contains(j));
                    self.lemma_others(cells, index, c, less as int, j);
                    let m = choose|m: int| 0 <= m < less && #[trigger] steps_to(c, cells[j as int], m);
                    lemma_steps_differ(c, cells[j as int], m, less as int);
                }
            }
            self.lemma_others(cells, index, c, less as int, index);
            vstd::seq_lib::lemma_no_dup_in_concat(earlier, last);
        }
    }

    /// In a grid filled from `cells`, the candidates of grain `index` in cell
    /// `c` are the other grains whose cell is `c` or touches it: none is
    /// missed, none from farther away is named, and none is named twice.
    pub proof fn lemma_candidates_are_adjacent(&self, cells: Seq<Cell>, index: u32, c: Cell)
        requires
            self@ == occupancy(cells),
            cells.len() <= u32::MAX,
        ensures
            forall|j: u32| #[trigger]
                self.candidates(index, c).contains(j) <==> j != index && j < cells.len()
                    && adjacent(cells[j as int], c),
            self.candidates(index, c).no_duplicates(),
    {
        self.lemma_candidates_within(cells, index, c, NEIGHBORHOOD as nat);
        assert forall|j: u32| #[trigger]
            self.candidates(index, c).contains(j) <==> j != index && j < cells.len() && adjacent(
                cells[j as int],
                c,
            ) by {
            lemma_neighborhood_is_adjacency(c, cells[j as int]);
        }
    }

    /// In a grid filled from `cells`, grain `j` is a candidate of grain `i`
    /// exactly if `i` is one of `j`, each taken in its own cell: every pair
    /// of near grains is met from both sides.
    pub proof fn lemma_candidates_symmetric(&self, cells: Seq<Cell>, i: u32, j: u32)
        requires
            self@ == occupancy(cells),
            cells.len() <= u32::MAX,
            i < cells.len(),
            j < cells.len(),
        ensures
            self.candidates(i, cells[i as int]).contains(j) <==> self.candidates(
                j,
                cells[j as int],
            ).contains(i),
    {
        self.lemma_candidates_are_adjacent(cells, i, cells[i as int]);
        self.lemma_candidates_are_adjacent(cells, j, cells[j as int]);
    }
}

/// Leaving items out of a sequence in which none stands twice leaves one in
/// which none stands twice.
proof fn lemma_filter_keeps_distinct(s: Seq<u32>, keep: spec_fn(u32) -> bool)
    requires
        s.no_duplicates(),
    ensures
        s.filter(keep).no_duplicates(),
    decreases s.len(),
{
    reveal(Seq::filter);
    if s.len() > 0 {
        let shorter = s.drop_last();
        lemma_filter_keeps_distinct(shorter, keep);
        if keep(s.last()) {
            if shorter.filter(keep).contains(s.last()) {
                shorter.lemma_filter_contains_rev(keep, s.last());
                let a = choose|a: int| 0 <= a < shorter.len() && shorter[a] == s.last();
                assert(s[a] == s[s.len() - 1]);
            }
            vstd::seq_lib::lemma_no_dup_in_concat(shorter.filter(keep), seq![s.last()]);
            assert(shorter.filter(keep).push(s.last()) =~= shorter.filter(keep) + seq![s.last()]);
        }
    }
}

} // verus!
