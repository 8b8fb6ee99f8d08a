//! A uniform grid over the plane that finds the rectangles near a rectangle.
use crate::geom::Rect;
use crate::number;
use crate::sort;
use crate::sort::Ordered;
use std::collections::HashMap;
use vstd::prelude::*;

verus! {

broadcast use vstd::std_specs::hash::group_hash_axioms;

/// Whether a rectangle's coordinates are in the range that the grid takes.
pub open spec fn in_plane(r: (int, int, int, int)) -> bool {
    &&& -0x2_0000_0000_0000_0000 <= r.0 <= r.2 <= 0x2_0000_0000_0000_0000
    &&& -0x2_0000_0000_0000_0000 <= r.1 <= r.3 <= 0x2_0000_0000_0000_0000
}

/// Whether two rectangles come within `pad` of each other along both axes.
pub open spec fn close(a: (int, int, int, int), b: (int, int, int, int), pad: int) -> bool {
    &&& a.0 - pad <= b.2
    &&& b.0 <= a.2 + pad
    &&& a.1 - pad <= b.3
    &&& b.1 <= a.3 + pad
}

/// A grid of square cells, each with the numbers of the rectangles that touch
/// it.
#[derive(Debug)]
pub(crate) struct Grid {
    cell: i128,
    cells: HashMap<i128, Vec<usize>>,
}

spec fn cell_key(x: int, y: int) -> int {
    x * 0x1_0000_0000_0000_0000 + y
}

impl Grid {
    /// Whether every number in the grid is below `n`.
    pub(crate) closed spec fn below(self, n: int) -> bool {
        &&& self.cell >= 1_000_000
        &&& forall|k: i128, t: int|
            self.cells@.contains_key(k) && 0 <= t < self.cells@[k]@.len()
                ==> #[trigger] self.cells@[k]@[t] < n
    }

    spec fn at(self, key: i128, id: usize) -> bool {
        self.cells@.contains_key(key) && self.cells@[key]@.contains(id)
    }

    /// Whether the number stands in every cell that the rectangle touches.
    pub(crate) closed spec fn holds(self, id: usize, r: (int, int, int, int)) -> bool {
        forall|x: int, y: int|
            r.0 / (self.cell as int) <= x <= r.2 / (self.cell as int) && r.1 / (self.cell as int)
                <= y <= r.3 / (self.cell as int) ==> self.at(#[trigger] cell_key(x, y) as i128, id)
    }

    /// A grid without rectangles. Cells are no smaller than a micrometre.
    pub(crate) fn new(size: i128) -> (r: Grid)
        ensures
            r.below(0),
    {
        let cell: i128 = if size < 1_000_000 {
            1_000_000
        } else {
            size
        };
        Grid { cell, cells: HashMap::new() }
    }

    /// A bound on the numbers can be raised.
    pub(crate) proof fn lemma_below_more(self, m: int, n: int)
        requires
            self.below(m),
            m <= n,
        ensures
            self.below(n),
    {
        assert forall|k: i128, t: int|
            self.cells@.contains_key(k) && 0 <= t
                < self.cells@[k]@.len() implies #[trigger] self.cells@[k]@[t] < n by {
            assert(self.cells@[k]@[t] < m);
        }
    }

    fn put(&mut self, key: i128, id: usize)
        ensures
            final(self).cell == old(self).cell,
            forall|k: i128, i: usize| #[trigger] old(self).at(k, i) ==> final(self).at(k, i),
            final(self).at(key, id),
            forall|n: int| old(self).below(n) && id < n ==> #[trigger] final(self).below(n),
    {
        let ghost before = self.cells@;
        let mut list: Vec<usize> = match self.cells.remove(&key) {
            Some(v) => v,
            None => Vec::new(),
        };
        let ghost kept = list@;
        list.push(id);
        let ghost now = list@;
        let _ = self.cells.insert(key, list);
        proof {
            assert(now[kept.len() as int] == id);
            assert(self.at(key, id));
            assert forall|k: i128, i: usize| #[trigger] old(self).at(k, i) implies self.at(k, i) by {
                if k == key {
                    let t = before[k]@.index_of(i);
                    assert(kept == before[k]@);
                    assert(now[t] == i);
                }
            }
            assert forall|n: int| old(self).below(n) && id < n implies #[trigger] self.below(n) by {
                assert forall|k: i128, t: int|
                    self.cells@.contains_key(k) && 0 <= t
                        < self.cells@[k]@.len() implies #[trigger] self.cells@[k]@[t] < n by {
                    if k == key {
                        if t < kept.len() {
                            assert(before.contains_key(k));
                            assert(before[k]@[t] == now[t]);
                        }
                    } else {
                        assert(before.contains_key(k));
                        assert(before[k]@[t] < n);
                    }
                }
            }
        }
    }

    proof fn lemma_bin_range(self, v: int)
        requires
            self.cell >= 1_000_000,
            -0x4_0000_0000_0000_0000 <= v <= 0x4_0000_0000_0000_0000,
        ensures
            -0x4000_0000_0000_0000 <= v / (self.cell as int) <= 0x4000_0000_0000_0000,
    {
        let c = self.cell as int;
        vstd::arithmetic::div_mod::lemma_fundamental_div_mod(v, c);
        let q = v / c;
        assert(q <= 0x4000_0000_0000_0000) by (nonlinear_arith)
            requires
                v == c * q + (v % c),
                0 <= v % c < c,
                c >= 1_000_000,
                v <= 0x4_0000_0000_0000_0000,
        ;
        assert(q >= -0x4000_0000_0000_0000) by (nonlinear_arith)
            requires
                v == c * q + (v % c),
                0 <= v % c < c,
                c >= 1_000_000,
                v >= -0x4_0000_0000_0000_0000,
        ;
    }

    /// Takes up a rectangle under a number.
    pub(crate) fn insert(&mut self, id: usize, r: &Rect, Ghost(n): Ghost<int>)
        requires
            old(self).below(n),
            id < n,
            in_plane(r.corners()),
        ensures
            final(self).below(n),
            final(self).holds(id, r.corners()),
            forall|i: usize, q: (int, int, int, int)| #[trigger]
                old(self).holds(i, q) ==> final(self).holds(i, q),
    {
        let ghost c = self.cell as int;
        let ghost first = *self;
        proof {
            self.lemma_bin_range(r.x0 as int);
            self.lemma_bin_range(r.x1 as int);
            self.lemma_bin_range(r.y0 as int);
            self.lemma_bin_range(r.y1 as int);
            vstd::arithmetic::div_mod::lemma_div_is_ordered(r.x0 as int, r.x1 as int, c);
            vstd::arithmetic::div_mod::lemma_div_is_ordered(r.y0 as int, r.y1 as int, c);
        }
        let xlo: i128 = number::floor_div(r.x0, self.cell);
        let xhi: i128 = number::floor_div(r.x1, self.cell);
        let ylo: i128 = number::floor_div(r.y0, self.cell);
        let yhi: i128 = number::floor_div(r.y1, self.cell);
        let mut x: i128 = xlo;
        while x <= xhi
            invariant
                self.below(n),
                self.cell == c,
                c == first.cell,
                id < n,
                -0x4000_0000_0000_0000 <= xlo <= x <= xhi + 1,
                xhi <= 0x4000_0000_0000_0000,
                -0x4000_0000_0000_0000 <= ylo <= yhi <= 0x4000_0000_0000_0000,
                forall|k: i128, i: usize| #[trigger] first.at(k, i) ==> self.at(k, i),
                forall|u: int, v: int|
                    xlo <= u < x && ylo <= v <= yhi ==> self.at(
                        #[trigger] cell_key(u, v) as i128,
                        id,
                    ),
            decreases xhi + 1 - x,
        {
            let mut y: i128 = ylo;
            while y <= yhi
                invariant
                    self.below(n),
                    self.cell == c,
                    c == first.cell,
                    id < n,
                    -0x4000_0000_0000_0000 <= xlo <= x <= xhi,
                    xhi <= 0x4000_0000_0000_0000,
                    -0x4000_0000_0000_0000 <= ylo <= y <= yhi + 1,
                    yhi <= 0x4000_0000_0000_0000,
                    forall|k: i128, i: usize| #[trigger] first.at(k, i) ==> self.at(k, i),
                    forall|u: int, v: int|
                        xlo <= u < x && ylo <= v <= yhi ==> self.at(
                            #[trigger] cell_key(u, v) as i128,
                            id,
                        ),
                    forall|v: int|
                        ylo <= v < y ==> self.at(#[trigger] cell_key(x as int, v) as i128, id),
                decreases yhi + 1 - y,
            {
                let key: i128 = x * 0x1_0000_0000_0000_0000 + y;
                assert(key == cell_key(x as int, y as int));
                self.put(key, id);
                y = y + 1;
            }
            x = x + 1;
        }
        assert(self.holds(id, r.corners()));
        assert forall|i: usize, q: (int, int, int, int)| #[trigger]
            first.holds(i, q) implies self.holds(i, q) by {
            assert forall|u: int, v: int|
                q.0 / c <= u <= q.2 / c && q.1 / c <= v <= q.3 / c implies self.at(
                #[trigger] cell_key(u, v) as i128,
                i,
            ) by {
                assert(first.at(cell_key(u, v) as i128, i));
            }
        }
    }

    /// The numbers in the cells within `pad` of a rectangle, some of them
    /// perhaps several times.
    fn gather(&self, r: &Rect, pad: i128, Ghost(n): Ghost<int>) -> (out: Vec<usize>)
        requires
            self.below(n),
            in_plane(r.corners()),
            0 <= pad <= 0x2_0000_0000_0000_0000,
        ensures
            forall|t: int| 0 <= t < out@.len() ==> out@[t] < n,
            forall|id: usize, q: (int, int, int, int)|
                #![trigger self.holds(id, q)]
                self.holds(id, q) && in_plane(q) && close(r.corners(), q, pad as int)
                    ==> out@.contains(id),
    {
        let ghost c = self.cell as int;
        let ghost rv = r.corners();
        proof {
            self.lemma_bin_range(r.x0 - pad);
            self.lemma_bin_range(r.x1 + pad);
            self.lemma_bin_range(r.y0 - pad);
            self.lemma_bin_range(r.y1 + pad);
            vstd::arithmetic::div_mod::lemma_div_is_ordered(r.x0 - pad, r.x1 + pad, c);
            vstd::arithmetic::div_mod::lemma_div_is_ordered(r.y0 - pad, r.y1 + pad, c);
        }
        let xlo: i128 = number::floor_div(r.x0 - pad, self.cell);
        let xhi: i128 = number::floor_div(r.x1 + pad, self.cell);
        let ylo: i128 = number::floor_div(r.y0 - pad, self.cell);
        let yhi: i128 = number::floor_div(r.y1 + pad, self.cell);
        let mut out: Vec<usize> = Vec::new();
        let mut x: i128 = xlo;
        while x <= xhi
            invariant
                self.below(n),
                -0x4000_0000_0000_0000 <= xlo <= x <= xhi + 1,
                xhi <= 0x4000_0000_0000_0000,
                -0x4000_0000_0000_0000 <= ylo <= yhi <= 0x4000_0000_0000_0000,
                forall|t: int| 0 <= t < out@.len() ==> out@[t] < n,
                forall|u: int, v: int, id: usize|
                    xlo <= u < x && ylo <= v <= yhi && #[trigger] self.at(
                        cell_key(u, v) as i128,
                        id,
                    ) ==> out@.contains(id),
            decreases xhi + 1 - x,
        {
            let mut y: i128 = ylo;
            while y <= yhi
                invariant
                    self.below(n),
                    -0x4000_0000_0000_0000 <= xlo <= x <= xhi,
                    xhi <= 0x4000_0000_0000_0000,
                    -0x4000_0000_0000_0000 <= ylo <= y <= yhi + 1,
                    yhi <= 0x4000_0000_0000_0000,
                    forall|t: int| 0 <= t < out@.len() ==> out@[t] < n,
                    forall|u: int, v: int, id: usize|
                        xlo <= u < x && ylo <= v <= yhi && #[trigger] self.at(
                            cell_key(u, v) as i128,
                            id,
                        ) ==> out@.contains(id),
                    forall|v: int, id: usize|
                        ylo <= v < y && #[trigger] self.at(cell_key(x as int, v) as i128, id)
                            ==> out@.contains(id),
                decreases yhi + 1 - y,
            {
                let key: i128 = x * 0x1_0000_0000_0000_0000 + y;
                assert(key == cell_key(x as int, y as int));
                let ghost before = out@;
                if let Some(list) = self.cells.get(&key) {
                    append(&mut out, list);
                    assert forall|t: int| 0 <= t < out@.len() implies out@[t] < n by {
                        if t >= before.len() {
                            assert(self.cells@[key]@[t - before.len()] < n);
                        }
                    }
                }
                assert forall|id: usize| self.at(key, id) implies out@.contains(id) by {
                    let t = self.cells@[key]@.index_of(id);
                    assert(out@[before.len() + t] == id);
                }
                assert forall|id: usize| before.contains(id) implies out@.contains(id) by {
                    assert(out@[before.index_of(id)] == id);
                }
                y = y + 1;
            }
            x = x + 1;
        }
        assert forall|id: usize, q: (int, int, int, int)|
            #![trigger self.holds(id, q)]
            self.holds(id, q) && in_plane(q) && close(rv, q, pad as int) implies out@.contains(id) by {
            vstd::arithmetic::div_mod::lemma_div_is_ordered(rv.0 - pad, q.2, c);
            vstd::arithmetic::div_mod::lemma_div_is_ordered(q.0, rv.2 + pad, c);
            vstd::arithmetic::div_mod::lemma_div_is_ordered(q.0, q.2, c);
            vstd::arithmetic::div_mod::lemma_div_is_ordered(rv.1 - pad, q.3, c);
            vstd::arithmetic::div_mod::lemma_div_is_ordered(q.1, rv.3 + pad, c);
            vstd::arithmetic::div_mod::lemma_div_is_ordered(q.1, q.3, c);
            let u = if q.0 / c > xlo {
                q.0 / c
            } else {
                xlo as int
            };
            let v = if q.1 / c > ylo {
                q.1 / c
            } else {
                ylo as int
            };
            assert(self.at(cell_key(u, v) as i128, id));
        }
        out
    }

    /// The numbers of the rectangles that may come within `pad` of a rectangle,
    /// in ascending order: all that do, and perhaps others.
    pub(crate) fn near(&self, r: &Rect, pad: i128, Ghost(n): Ghost<int>) -> (out: Vec<usize>)
        requires
            self.below(n),
            in_plane(r.corners()),
            0 <= pad <= 0x2_0000_0000_0000_0000,
        ensures
            forall|t: int| 0 <= t < out@.len() ==> out@[t] < n,
            forall|s: int, t: int| 0 <= s < t < out@.len() ==> out@[s] < out@[t],
            forall|id: usize, q: (int, int, int, int)|
                #![trigger self.holds(id, q)]
                self.holds(id, q) && in_plane(q) && close(r.corners(), q, pad as int)
                    ==> out@.contains(id),
    {
        let raw = self.gather(r, pad, Ghost(n));
        let order = sort::order_of(&raw);
        let mut out: Vec<usize> = Vec::new();
        proof {
            assert forall|i: int| 0 <= i < order@.len() implies order@[i] < raw@.len() by {
                assert(order@.contains(order@[i]));
            }
        }
        for i in 0..order.len()
            invariant
                sort::arranges(order@, 0, raw@.len() as int),
                sort::in_order(raw@, order@),
                forall|i: int| 0 <= i < order@.len() ==> order@[i] < raw@.len(),
                forall|t: int| 0 <= t < raw@.len() ==> raw@[t] < n,
                forall|t: int| 0 <= t < out@.len() ==> out@[t] < n,
                forall|s: int, t: int| 0 <= s < t < out@.len() ==> out@[s] < out@[t],
                forall|t: int|
                    0 <= t < i ==> out@.contains(raw@[#[trigger] order@[t] as int]),
                i == 0 ==> out@.len() == 0,
                i > 0 ==> out@.len() > 0 && out@.last() == raw@[order@[i - 1] as int],
        {
            let v: usize = raw[order[i]];
            let ghost before = out@;
            if out.len() == 0 || out[out.len() - 1] != v {
                proof {
                    if i > 0 {
                        assert(sort::comes(raw@, order@[i - 1], order@[i as int]));
                    }
                }
                out.push(v);
                assert(out@[before.len() as int] == v);
            } else {
                assert(out@[out@.len() - 1] == v);
            }
            assert forall|t: int| 0 <= t < i + 1 implies out@.contains(
                raw@[#[trigger] order@[t] as int],
            ) by {
                if t < i {
                    let w = raw@[order@[t] as int];
                    assert(before.contains(w));
                    assert(out@[before.index_of(w)] == w);
                } else {
                    assert(out@.contains(v));
                }
            }
        }
        assert forall|id: usize| raw@.contains(id) implies out@.contains(id) by {
            let k = raw@.index_of(id);
            assert(order@.contains(k as usize));
            let t = order@.index_of(k as usize);
            assert(out@.contains(raw@[order@[t] as int]));
        }
        out
    }
}

/// Appends a list of numbers to another.
fn append(out: &mut Vec<usize>, list: &Vec<usize>)
    ensures
        final(out)@ == old(out)@ + list@,
{
    let ghost first = out@;
    for i in 0..list.len()
        invariant
            out@ == first + list@.take(i as int),
    {
        out.push(list[i]);
        assert(first + list@.take(i + 1) == (first + list@.take(i as int)).push(list@[i as int]));
    }
    assert(list@.take(list@.len() as int) == list@);
}

} // verus!
