//! A rectangular grid of cells stored row by row, and flood fill over it.

use vstd::prelude::*;

verus! {

/// A `width` by `height` grid; the cell at column `x` and row `z` is stored
/// at `x + z * width`.
#[derive(Eq, PartialEq, Debug, Clone)]
pub struct Grid<T> {
    pub items: Vec<T>,
    pub height: i32,
    pub width: i32,
}

/// A cell coordinate of a grid.
#[derive(Eq, PartialEq, Structural, Hash, Debug, Clone, Copy)]
pub struct GridPosition {
    pub x: i32,
    pub z: i32,
}

impl GridPosition {
    pub fn new(x: i32, z: i32) -> (r: Self)
        ensures
            r.x == x,
            r.z == z,
    {
        Self { x, z }
    }
}

/// Number of `false` cells in `s`.
pub open spec fn count_false(s: Seq<bool>) -> nat
    decreases s.len(),
{
    if s.len() == 0 {
        0
    } else {
        count_false(s.drop_last()) + if s.last() {
            0nat
        } else {
            1nat
        }
    }
}

proof fn lemma_count_false_set(s: Seq<bool>, i: int)
    requires
        0 <= i < s.len(),
        !s[i],
    ensures
        count_false(s.update(i, true)) + 1 == count_false(s),
    decreases s.len(),
{
    let t = s.update(i, true);
    if i == s.len() - 1 {
        assert(t.drop_last() =~= s.drop_last());
    } else {
        assert(t.drop_last() =~= s.drop_last().update(i, true));
        lemma_count_false_set(s.drop_last(), i);
    }
}

pub proof fn lemma_index_in_bounds(x: int, z: int, width: int, height: int)
    requires
        0 <= x < width,
        0 <= z < height,
    ensures
        0 <= x + z * width < width * height,
{
    assert(0 <= z * width) by (nonlinear_arith)
        requires
            0 <= z,
            0 <= width,
    ;
    assert(z * width + width <= height * width) by (nonlinear_arith)
        requires
            z + 1 <= height,
            0 <= width,
    ;
}

impl<T> Grid<T> {
    /// Dimensions are non-negative, every index fits in an `i32`, and there
    /// is one item per cell.
    pub open spec fn wf(&self) -> bool {
        &&& 0 <= self.width
        &&& 0 <= self.height
        &&& self.width * self.height <= i32::MAX
        &&& self.items@.len() == self.width * self.height
    }

    pub open spec fn spec_within(&self, x: int, z: int) -> bool {
        0 <= x < self.width && 0 <= z < self.height
    }

    pub open spec fn index_of(&self, x: int, z: int) -> int {
        x + z * self.width
    }

    pub open spec fn cell(&self, x: int, z: int) -> T {
        self.items@[self.index_of(x, z)]
    }

    pub fn width(&self) -> (r: i32)
        ensures
            r == self.width,
    {
        self.width
    }

    pub fn height(&self) -> (r: i32)
        ensures
            r == self.height,
    {
        self.height
    }

    pub fn is_within(&self, x: i32, z: i32) -> (r: bool)
        ensures
            r == self.spec_within(x as int, z as int),
    {
        x >= 0 && x < self.width && z >= 0 && z < self.height
    }

    fn index(&self, x: i32, z: i32) -> (r: usize)
        requires
            self.wf(),
            self.spec_within(x as int, z as int),
        ensures
            r == self.index_of(x as int, z as int),
            r < self.items@.len(),
    {
        proof {
            lemma_index_in_bounds(x as int, z as int, self.width as int, self.height as int);
        }
        (x + z * self.width) as usize
    }

    /// The cell at `(x, z)`, or `None` outside the grid.
    pub fn get(&self, x: i32, z: i32) -> (r: Option<&T>)
        requires
            self.wf(),
        ensures
            r.is_some() == self.spec_within(x as int, z as int),
            r.is_some() ==> *r.unwrap() == self.cell(x as int, z as int),
    {
        if !self.is_within(x, z) {
            return None;
        }
        let i = self.index(x, z);
        Some(&self.items[i])
    }

    /// A mutable borrow of the cell at `(x, z)`, or `None` outside the grid.
    pub fn get_mut(&mut self, x: i32, z: i32) -> (r: Option<&mut T>)
        requires
            old(self).wf(),
        ensures
            r.is_some() == old(self).spec_within(x as int, z as int),
            r.is_none() ==> *final(self) == *old(self),
            r.is_some() ==> {
                &&& *r.unwrap() == old(self).cell(x as int, z as int)
                &&& final(self).width == old(self).width
                &&& final(self).height == old(self).height
                &&& final(self).items@ == old(self).items@.update(
                    old(self).index_of(x as int, z as int),
                    *final(r.unwrap()),
                )
            },
    {
        if !self.is_within(x, z) {
            return None;
        }
        let i = self.index(x, z);
        Some(&mut self.items[i])
    }

    /// Replaces the cell at `(x, z)`.
    pub fn set(&mut self, x: i32, z: i32, value: T)
        requires
            old(self).wf(),
            old(self).spec_within(x as int, z as int),
        ensures
            final(self).wf(),
            final(self).width == old(self).width,
            final(self).height == old(self).height,
            final(self).items@ == old(self).items@.update(
                old(self).index_of(x as int, z as int),
                value,
            ),
    {
        let i = self.index(x, z);
        self.items.set(i, value);
    }

    /// A grid of the same shape holding `operate` applied to every cell.
    pub fn map<S, F: Fn(&T) -> S>(&self, operate: F) -> (r: Grid<S>)
        requires
            self.wf(),
            forall|t: &T| operate.requires((t,)),
        ensures
            r.wf(),
            r.width == self.width,
            r.height == self.height,
            forall|i: int|
                0 <= i < self.items@.len() ==> operate.ensures((&self.items@[i],), r.items@[i]),
    {
        let mut new_items: Vec<S> = Vec::new();
        let mut i: usize = 0;
        while i < self.items.len()
            invariant
                i <= self.items@.len(),
                new_items@.len() == i,
                forall|t: &T| operate.requires((t,)),
                forall|j: int| 0 <= j < i ==> operate.ensures((&self.items@[j],), new_items@[j]),
            decreases self.items@.len() - i,
        {
            let v = operate(&self.items[i]);
            new_items.push(v);
            i = i + 1;
        }
        Grid::new_from_list(self.width, self.height, new_items)
    }

    /// A grid over `items`, which hold the cells row by row.
    pub fn new_from_list(width: i32, height: i32, items: Vec<T>) -> (r: Self)
        requires
            0 <= width,
            0 <= height,
            width * height <= i32::MAX,
            width * height == items@.len(),
        ensures
            r.wf(),
            r.width == width,
            r.height == height,
            r.items@ == items@,
    {
        Self { items, height, width }
    }
}

impl<T: Copy> Grid<T> {
    /// A grid whose every cell holds `initial_value`.
    pub fn new(width: i32, height: i32, initial_value: T) -> (r: Self)
        requires
            0 <= width,
            0 <= height,
            width * height <= i32::MAX,
        ensures
            r.wf(),
            r.width == width,
            r.height == height,
            forall|i: int| 0 <= i < r.items@.len() ==> r.items@[i] == initial_value,
    {
        let count = width * height;
        let mut items: Vec<T> = Vec::with_capacity(count as usize);
        let mut k: i32 = 0;
        while k < count
            invariant
                0 <= k <= count,
                items@.len() == k,
                forall|i: int| 0 <= i < items@.len() ==> items@[i] == initial_value,
            decreases count - k,
        {
            items.push(initial_value);
            k = k + 1;
        }
        Self { items, height, width }
    }
}

/// Whether `p` and `q` are orthogonal neighbours.
pub open spec fn adjacent(p: GridPosition, q: GridPosition) -> bool {
    (p.x == q.x && (p.z == q.z + 1 || q.z == p.z + 1)) || (p.z == q.z && (p.x == q.x + 1 || q.x == p.x + 1))
}

/// Entry `i` of `s` is next to some entry before it, not counting the
/// first.
#[verifier::opaque]
pub open spec fn follows(s: Seq<GridPosition>, i: int) -> bool {
    exists|j: int| 1 <= j < i && adjacent(s[j], s[i])
}

proof fn lemma_follows_push(s: Seq<GridPosition>, p: GridPosition, i: int)
    requires
        0 <= i < s.len(),
        follows(s, i),
    ensures
        follows(s.push(p), i),
{
    reveal(follows);
    let j = choose|j: int| 1 <= j < i && adjacent(s[j], s[i]);
    assert(s.push(p)[j] == s[j] && s.push(p)[i] == s[i]);
}

proof fn lemma_follows_new(s: Seq<GridPosition>, p: GridPosition, j: int)
    requires
        1 <= j < s.len(),
        adjacent(s[j], p),
    ensures
        follows(s.push(p), s.len() as int),
{
    reveal(follows);
    assert(s.push(p)[j] == s[j]);
    assert(s.push(p)[s.len() as int] == p);
}

/// Collects the cells reachable from `(start_x, start_z)` through
/// orthogonal steps over cells for which `expand_to` holds.
///
/// The start comes first whatever `expand_to` says of it; every later
/// entry lies inside the grid, `expand_to` held for it, and it appears
/// once. The first later entry is the start and each further one is next
/// to an earlier one, so all are reached from the start over such cells.
/// Every cell of
/// the grid next to a later entry, and the start itself if it lies in the
/// grid, is a later entry too unless `expand_to` turned it down. A start
/// past the grid's far edges gives no cell at all.
pub fn flood_fill_grid<T, F: Fn(i32, i32) -> bool>(
    grid: &Grid<T>,
    start_x: i32,
    start_z: i32,
    expand_to: F,
) -> (r: Vec<GridPosition>)
    requires
        grid.wf(),
        forall|x: i32, z: i32| expand_to.requires((x, z)),
    ensures
        (start_x > grid.width || start_z > grid.height) ==> r@.len() == 0,
        !(start_x > grid.width || start_z > grid.height) ==> {
            &&& r@.len() >= 1
            &&& r@[0] == GridPosition { x: start_x, z: start_z }
            &&& grid.spec_within(start_x as int, start_z as int) ==> r@.subrange(1, r@.len() as int).contains(
                GridPosition { x: start_x, z: start_z },
            ) || expand_to.ensures((start_x, start_z), false)
        },
        forall|i: int|
            1 <= i < r@.len() ==> {
                &&& grid.spec_within(r@[i].x as int, r@[i].z as int)
                &&& expand_to.ensures((r@[i].x, r@[i].z), true)
            },
        forall|i: int, q: GridPosition|
            1 <= i < r@.len() && grid.spec_within(q.x as int, q.z as int) && #[trigger] adjacent(r@[i], q) ==>
                r@.subrange(1, r@.len() as int).contains(q) || expand_to.ensures((q.x, q.z), false),
        r@.len() >= 1 ==> r@.subrange(1, r@.len() as int).no_duplicates(),
        r@.len() >= 2 ==> r@[1] == (GridPosition { x: start_x, z: start_z }),
        forall|i: int| 2 <= i < r@.len() ==> #[trigger] follows(r@, i),
{
    if start_x > grid.width || start_z > grid.height {
        return Vec::new();
    }
    let mut visited = Grid::new(grid.width(), grid.height(), false);
    let mut queue: Vec<(i32, i32)> = Vec::new();
    queue.push((start_x, start_z));
    let mut result: Vec<GridPosition> = Vec::new();
    result.push(GridPosition { x: start_x, z: start_z });
    let ghost start = GridPosition { x: start_x, z: start_z };
    proof {
        assert(queue@[0] == (start_x, start_z));
        assert forall|q: GridPosition| grid.spec_within(q.x as int, q.z as int) implies !visited.cell(q.x as int, q.z as int) by {
            lemma_index_in_bounds(q.x as int, q.z as int, visited.width as int, visited.height as int);
        }
    }
    while queue.len() > 0
        invariant
            grid.wf(),
            visited.wf(),
            visited.width == grid.width,
            visited.height == grid.height,
            forall|x: i32, z: i32| expand_to.requires((x, z)),
            result@.len() >= 1,
            result@[0] == start,
            start == (GridPosition { x: start_x, z: start_z }),
            forall|i: int|
                1 <= i < result@.len() ==> {
                    &&& grid.spec_within(result@[i].x as int, result@[i].z as int)
                    &&& expand_to.ensures((result@[i].x, result@[i].z), true)
                    &&& visited.cell(result@[i].x as int, result@[i].z as int)
                },
            forall|q: GridPosition|
                grid.spec_within(q.x as int, q.z as int) && #[trigger] visited.cell(q.x as int, q.z as int) ==>
                    result@.subrange(1, result@.len() as int).contains(q) || expand_to.ensures((q.x, q.z), false),
            forall|i: int, q: GridPosition|
                1 <= i < result@.len() && grid.spec_within(q.x as int, q.z as int) && #[trigger] adjacent(result@[i], q) ==>
                    visited.cell(q.x as int, q.z as int) || queue@.contains((q.x, q.z)),
            grid.spec_within(start_x as int, start_z as int) ==>
                visited.cell(start_x as int, start_z as int) || queue@.contains((start_x, start_z)),
            result@.subrange(1, result@.len() as int).no_duplicates(),
            result@.len() >= 2 ==> result@[1] == start,
            result@.len() >= 2 ==> grid.spec_within(start_x as int, start_z as int) && visited.cell(start_x as int, start_z as int),
            forall|i: int| 2 <= i < result@.len() ==> #[trigger] follows(result@, i),
            forall|k: int|
                0 <= k < queue@.len() ==> queue@[k] == (start_x, start_z) || exists|i: int|
                    1 <= i < result@.len() && #[trigger] adjacent(result@[i], GridPosition { x: (#[trigger] queue@[k]).0, z: queue@[k].1 }),
        decreases 4 * count_false(visited.items@) + queue@.len(),
    {
        let ghost queue_before = queue@;
        let (x, z) = queue.pop().unwrap();
        proof {
            assert(queue_before == queue@.push((x, z)));
            assert forall|c: (i32, i32)| queue_before.contains(c) && c != (x, z) implies queue@.contains(c) by {
                let k = choose|k: int| 0 <= k < queue_before.len() && queue_before[k] == c;
                assert(k < queue@.len());
                assert(queue@[k] == c);
            }
        }
        let seen = match visited.get(x, z) {
            Some(v) => *v,
            None => true,
        };
        proof {
            assert forall|k: int| 0 <= k < queue@.len() implies queue@[k] == queue_before[k] by {}
        }
        if seen {
            proof {
                if grid.spec_within(x as int, z as int) {
                    assert(visited.cell(x as int, z as int));
                }
            }
            continue;
        }
        let ghost visited_before = visited;
        let ghost result_before = result@;
        proof {
            lemma_index_in_bounds(x as int, z as int, visited.width as int, visited.height as int);
            lemma_count_false_set(visited.items@, visited.index_of(x as int, z as int));
        }
        visited.set(x, z, true);
        proof {
            assert forall|a: int, b: int| visited.spec_within(a, b) implies visited.cell(a, b) == (visited_before.cell(a, b) || (a == x && b == z)) by {
                lemma_index_in_bounds(a, b, visited.width as int, visited.height as int);
                if visited.index_of(a, b) == visited.index_of(x as int, z as int) {
                    lemma_same_cell(visited.width as int, a, b, x as int, z as int);
                }
            }
        }
        let ghost queue_mid = queue@;
        let expand = expand_to(x, z);
        if expand {
            result.push(GridPosition { x, z });
            if x + 1 < grid.width() {
                queue.push((x + 1, z));
            }
            if x > 0 {
                queue.push((x - 1, z));
            }
            if z + 1 < grid.height() {
                queue.push((x, z + 1));
            }
            if z > 0 {
                queue.push((x, z - 1));
            }
            proof {
                let p = GridPosition { x, z };
                assert forall|c: (i32, i32)| queue_mid.contains(c) implies queue@.contains(c) by {
                    let k = choose|k: int| 0 <= k < queue_mid.len() && queue_mid[k] == c;
                    assert(queue@[k] == c);
                }
                assert forall|q: GridPosition| grid.spec_within(q.x as int, q.z as int) && adjacent(p, q) && !visited.cell(q.x as int, q.z as int)
                    implies queue@.contains((q.x, q.z)) by {
                    let n = queue_mid.len() as int;
                    if q.x == x + 1 {
                        assert(queue@[n] == (q.x, q.z));
                    } else if q.x + 1 == x {
                        let k = if x + 1 < grid.width { n + 1 } else { n };
                        assert(queue@[k] == (q.x, q.z));
                    } else if q.z == z + 1 {
                        let k = n + (if x + 1 < grid.width { 1int } else { 0 }) + (if x > 0 { 1int } else { 0 });
                        assert(queue@[k] == (q.x, q.z));
                    } else {
                        let k = n + (if x + 1 < grid.width { 1int } else { 0 }) + (if x > 0 { 1int } else { 0 })
                            + (if z + 1 < grid.height { 1int } else { 0 });
                        assert(queue@[k] == (q.x, q.z));
                    }
                }
                lemma_subrange_push(result_before, p);
                let rs = result@.subrange(1, result@.len() as int);
                assert(rs[rs.len() - 1] == p);
                let old_rs = result_before.subrange(1, result_before.len() as int);
                assert forall|a: int| 0 <= a < old_rs.len() implies old_rs[a] != p by {
                    assert(result_before[a + 1] == old_rs[a]);
                }
                assert forall|a: int, b: int| 0 <= a < b < rs.len() implies rs[a] != rs[b] by {
                    if b == rs.len() - 1 {
                        assert(rs[a] == old_rs[a]);
                    } else {
                        assert(rs[a] == old_rs[a] && rs[b] == old_rs[b]);
                    }
                }
                // the new entry is the start itself, or was queued by an
                // earlier entry next to it
                let top = queue_before[queue_before.len() - 1];
                assert(result@ == result_before.push(p));
                if result_before.len() >= 2 {
                    if top == (start_x, start_z) {
                        assert(visited_before.cell(start_x as int, start_z as int));
                    }
                    let j = choose|j: int|
                        1 <= j < result_before.len() && #[trigger] adjacent(result_before[j], GridPosition { x: top.0, z: top.1 });
                    lemma_follows_new(result_before, p, j);
                } else {
                    if top != (start_x, start_z) {
                        let j = choose|j: int|
                            1 <= j < result_before.len() && #[trigger] adjacent(result_before[j], GridPosition { x: top.0, z: top.1 });
                    }
                    assert(result@[1] == start);
                }
                assert forall|i: int| 2 <= i < result@.len() implies #[trigger] follows(result@, i) by {
                    if i < result@.len() - 1 {
                        lemma_follows_push(result_before, p, i);
                    }
                }
                assert forall|k: int|
                    0 <= k < queue@.len() implies queue@[k] == (start_x, start_z) || exists|i: int|
                        1 <= i < result@.len() && #[trigger] adjacent(result@[i], GridPosition { x: (#[trigger] queue@[k]).0, z: queue@[k].1 }) by {
                    if k < queue_mid.len() {
                        assert(queue@[k] == queue_before[k]);
                        if queue@[k] != (start_x, start_z) {
                            let i = choose|i: int|
                                1 <= i < result_before.len() && #[trigger] adjacent(result_before[i], GridPosition { x: queue_before[k].0, z: queue_before[k].1 });
                            assert(result@[i] == result_before[i]);
                        }
                    } else {
                        assert(adjacent(result@[result@.len() - 1], GridPosition { x: queue@[k].0, z: queue@[k].1 }));
                    }
                }
                assert forall|q: GridPosition| result_before.subrange(1, result_before.len() as int).contains(q) implies
                    rs.contains(q) by {
                    let k = choose|k: int| 0 <= k < result_before.len() - 1 && result_before.subrange(1, result_before.len() as int)[k] == q;
                    assert(rs[k] == q);
                }
            }
        } else {
            proof {
                assert(queue@ == queue_mid);
            }
        }
    }
    proof {
        assert forall|i: int, q: GridPosition|
            1 <= i < result@.len() && grid.spec_within(q.x as int, q.z as int) && #[trigger] adjacent(result@[i], q) implies
                result@.subrange(1, result@.len() as int).contains(q) || expand_to.ensures((q.x, q.z), false) by {
            assert(visited.cell(q.x as int, q.z as int));
        }
        if grid.spec_within(start_x as int, start_z as int) {
            assert(visited.cell(start.x as int, start.z as int));
        }
    }
    result
}

/// Two in-row indices of a grid `width` wide name the same cell only if
/// they name the same column and row.
pub proof fn lemma_same_cell(width: int, a: int, b: int, c: int, d: int)
    requires
        0 <= a < width,
        0 <= c < width,
        a + b * width == c + d * width,
    ensures
        a == c,
        b == d,
{
    vstd::arithmetic::div_mod::lemma_fundamental_div_mod_converse(a + b * width, width, b, a);
    vstd::arithmetic::div_mod::lemma_fundamental_div_mod_converse(c + d * width, width, d, c);
}

proof fn lemma_subrange_push(s: Seq<GridPosition>, p: GridPosition)
    requires
        s.len() >= 1,
    ensures
        s.push(p).subrange(1, s.len() as int + 1) == s.subrange(1, s.len() as int).push(p),
{
    assert(s.push(p).subrange(1, s.len() as int + 1) =~= s.subrange(1, s.len() as int).push(p));
}

} // verus!
