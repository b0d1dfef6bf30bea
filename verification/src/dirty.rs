use vstd::pervasive::VecAdditionalExecFns;
use vstd::prelude::*;

use crate::board::{lemma_lin, near};

verus! {

/// The set of coordinates that must be re-evaluated on the next tick. A
/// flat bitmap indexed by `y * width + x` gives duplicate-free constant-time
/// membership; a side list of the marked coordinates makes iteration cost
/// proportional to the set's size rather than the grid's.
pub struct DirtySet {
    width: usize,
    height: usize,
    marks: Vec<bool>,
    coords: Vec<(usize, usize)>,
}

impl DirtySet {
    pub closed spec fn spec_width(self) -> int {
        self.width as int
    }

    pub closed spec fn spec_height(self) -> int {
        self.height as int
    }

    /// Membership: `(x, y)` is in bounds and marked.
    pub closed spec fn has(self, x: int, y: int) -> bool {
        0 <= x < self.width && 0 <= y < self.height && self.marks@[y * (self.width as int) + x]
    }

    /// The members in iteration order, each exactly once.
    pub closed spec fn iter(self) -> Seq<(int, int)> {
        self.coords@.map_values(|c: (usize, usize)| (c.0 as int, c.1 as int))
    }

    /// The bitmap covers the grid, the list holds exactly the marked
    /// coordinates, and no coordinate appears in the list twice.
    pub closed spec fn wf(self) -> bool {
        &&& self.width > 0
        &&& self.height > 0
        &&& self.width * self.height <= usize::MAX
        &&& self.marks@.len() == self.width * self.height
        &&& forall|k: int|
            0 <= k < self.coords@.len() ==> {
                let c = #[trigger] self.coords@[k];
                c.0 < self.width && c.1 < self.height && self.marks@[c.1 * (self.width as int)
                    + c.0]
            }
        &&& forall|k1: int, k2: int|
            0 <= k1 < k2 < self.coords@.len() ==> self.coords@[k1] != self.coords@[k2]
        &&& forall|x: int, y: int| #[trigger] self.has(x, y) ==> self.iter().contains((x, y))
    }

    /// Every listed member is an in-bounds member of the set, and the list
    /// never repeats a coordinate.
    pub proof fn lemma_iter(self)
        requires
            self.wf(),
        ensures
            forall|k: int|
                0 <= k < self.iter().len() ==> {
                    let p = #[trigger] self.iter()[k];
                    self.has(p.0, p.1) && 0 <= p.0 < self.spec_width() && 0 <= p.1
                        < self.spec_height()
                },
            forall|k1: int, k2: int|
                0 <= k1 < k2 < self.iter().len() ==> self.iter()[k1] != self.iter()[k2],
            forall|x: int, y: int| #[trigger] self.has(x, y) ==> self.iter().contains((x, y)),
    {
        assert forall|k: int| 0 <= k < self.iter().len() implies {
            let p = #[trigger] self.iter()[k];
            self.has(p.0, p.1) && 0 <= p.0 < self.spec_width() && 0 <= p.1 < self.spec_height()
        } by {
            let c = self.coords@[k];
            assert(c.0 < self.width && c.1 < self.height && self.marks@[c.1 * (self.width as int)
                + c.0]);
        }
        assert forall|k1: int, k2: int| 0 <= k1 < k2 < self.iter().len() implies self.iter()[k1]
            != self.iter()[k2] by {
            assert(self.coords@[k1] != self.coords@[k2]);
        }
    }

    /// An empty set over a `width` by `height` grid.
    pub fn new(width: usize, height: usize) -> (d: DirtySet)
        requires
            width > 0,
            height > 0,
            width * height <= usize::MAX,
        ensures
            d.wf(),
            d.spec_width() == width,
            d.spec_height() == height,
            forall|x: int, y: int| !d.has(x, y),
            d.iter().len() == 0,
    {
        let total: usize = width * height;
        let mut marks: Vec<bool> = Vec::new();
        while marks.len() < total
            invariant
                marks@.len() <= total,
                forall|i: int| 0 <= i < marks@.len() ==> marks@[i] == false,
            decreases total - marks@.len(),
        {
            marks.push(false);
        }
        let d = DirtySet { width, height, marks, coords: Vec::new() };
        proof {
            assert forall|x: int, y: int| !d.has(x, y) by {
                if 0 <= x < width && 0 <= y < height {
                    lemma_lin(width as int, height as int, x, y);
                }
            }
        }
        d
    }

    /// The number of members.
    pub fn len(&self) -> (n: usize)
        ensures
            n == self.iter().len(),
    {
        self.coords.len()
    }

    /// True exactly when the set has no members.
    pub fn is_empty(&self) -> (r: bool)
        requires
            self.wf(),
        ensures
            r <==> forall|x: int, y: int| !self.has(x, y),
    {
        let r = self.coords.len() == 0;
        proof {
            if r {
                assert forall|x: int, y: int| !self.has(x, y) by {
                    if self.has(x, y) {
                        assert(self.iter().contains((x, y)));
                    }
                }
            } else {
                let c = self.coords@[0];
                assert(self.has(c.0 as int, c.1 as int));
            }
        }
        r
    }

    /// The `k`-th member in iteration order.
    pub fn get(&self, k: usize) -> (c: (usize, usize))
        requires
            self.wf(),
            k < self.iter().len(),
        ensures
            (c.0 as int, c.1 as int) == self.iter()[k as int],
            self.has(c.0 as int, c.1 as int),
    {
        self.coords[k]
    }

    /// Adds `(x, y)` to the set; every other coordinate's membership is
    /// unchanged.
    pub fn insert(&mut self, x: usize, y: usize)
        requires
            old(self).wf(),
            (x as int) < old(self).spec_width(),
            (y as int) < old(self).spec_height(),
        ensures
            final(self).wf(),
            final(self).spec_width() == old(self).spec_width(),
            final(self).spec_height() == old(self).spec_height(),
            forall|qx: int, qy: int|
                final(self).has(qx, qy) <==> old(self).has(qx, qy) || (qx == x as int && qy
                    == y as int),
    {
        let ghost w = self.spec_width();
        let ghost h = self.spec_height();
        proof {
            lemma_lin(w, h, x as int, y as int);
        }
        let i: usize = y * self.width + x;
        if !self.marks[i] {
            self.marks.set(i, true);
            self.coords.push((x, y));
            proof {
                assert(self.iter() =~= old(self).iter().push((x as int, y as int)));
                assert forall|qx: int, qy: int|
                    self.has(qx, qy) <==> old(self).has(qx, qy) || (qx == x as int && qy
                        == y as int) by {
                    if 0 <= qx < w && 0 <= qy < h {
                        lemma_lin(w, h, qx, qy);
                    }
                }
                assert forall|k: int| 0 <= k < self.coords@.len() implies {
                    let c = #[trigger] self.coords@[k];
                    c.0 < self.width && c.1 < self.height && self.marks@[c.1 * (self.width as int)
                        + c.0]
                } by {
                    let c = self.coords@[k];
                    lemma_lin(w, h, c.0 as int, c.1 as int);
                    if k < self.coords@.len() - 1 {
                        assert(old(self).coords@[k] == c);
                    }
                }
                assert forall|k1: int, k2: int|
                    0 <= k1 < k2 < self.coords@.len() implies self.coords@[k1]
                    != self.coords@[k2] by {
                    if k2 == self.coords@.len() - 1 {
                        if old(self).coords@[k1] == (x, y) {
                            assert(old(self).marks@[y * (old(self).width as int) + x]);
                        }
                    }
                }
                assert forall|qx: int, qy: int| #[trigger] self.has(qx, qy) implies self.iter()
                    .contains((qx, qy)) by {
                    if qx == x as int && qy == y as int {
                        assert(self.iter()[self.iter().len() - 1] == (qx, qy));
                    } else {
                        if 0 <= qx < w && 0 <= qy < h {
                            lemma_lin(w, h, qx, qy);
                        }
                        assert(old(self).has(qx, qy));
                        assert(old(self).iter().contains((qx, qy)));
                        let k = choose|k: int|
                            0 <= k < old(self).iter().len() && old(self).iter()[k] == ((qx, qy));
                        assert(self.iter()[k] == (qx, qy));
                    }
                }
            }
        } else {
            proof {
                assert(self.has(x as int, y as int));
            }
        }
    }

    /// Adds `(x, y)` and every in-bounds Moore neighbor of it: exactly the
    /// coordinates near `(x, y)` that lie on the grid.
    pub fn insert_neighborhood(&mut self, x: usize, y: usize)
        requires
            old(self).wf(),
            (x as int) < old(self).spec_width(),
            (y as int) < old(self).spec_height(),
        ensures
            final(self).wf(),
            final(self).spec_width() == old(self).spec_width(),
            final(self).spec_height() == old(self).spec_height(),
            forall|qx: int, qy: int|
                final(self).has(qx, qy) <==> old(self).has(qx, qy) || (0 <= qx
                    < old(self).spec_width() && 0 <= qy < old(self).spec_height() && near(
                    qx,
                    qy,
                    x as int,
                    y as int,
                )),
    {
        let ghost pre = *self;
        let ghost w = self.spec_width();
        let ghost h = self.spec_height();
        if x > 0 && y > 0 {
            self.insert(x - 1, y - 1);
        }
        if y > 0 {
            self.insert(x, y - 1);
        }
        if x + 1 < self.width && y > 0 {
            self.insert(x + 1, y - 1);
        }
        if x > 0 {
            self.insert(x - 1, y);
        }
        self.insert(x, y);
        if x + 1 < self.width {
            self.insert(x + 1, y);
        }
        if x > 0 && y + 1 < self.height {
            self.insert(x - 1, y + 1);
        }
        if y + 1 < self.height {
            self.insert(x, y + 1);
        }
        if x + 1 < self.width && y + 1 < self.height {
            self.insert(x + 1, y + 1);
        }
        proof {
            assert forall|qx: int, qy: int|
                self.has(qx, qy) <==> pre.has(qx, qy) || (0 <= qx < w && 0 <= qy < h && near(
                    qx,
                    qy,
                    x as int,
                    y as int,
                )) by {}
        }
    }
}

} // verus!
