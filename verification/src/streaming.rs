use vstd::prelude::*;

use crate::consts::{U_X, U_Y};
use crate::direction::{lemma_opposite_involution, link_dx, link_dy, opposite, Q};
use crate::lattice::{cell_index, forward, in_grid, linked, slot_at, touches, Lattice};

verus! {

/// Distinct cells have distinct positions in the visiting order.
proof fn lemma_cell_index_injective(x1: int, y1: int, x2: int, y2: int)
    requires
        in_grid(x1, y1),
        in_grid(x2, y2),
        x1 != x2 || y1 != y2,
    ensures
        cell_index(x1, y1) != cell_index(x2, y2),
{
    if x1 < x2 {
        assert(x1 * U_X + U_X <= x2 * U_X) by (nonlinear_arith)
            requires
                x1 < x2,
        ;
    } else if x2 < x1 {
        assert(x2 * U_X + U_X <= x1 * U_X) by (nonlinear_arith)
            requires
                x2 < x1,
        ;
    }
}

/// Every cell has a position in the visiting order below `U_X * U_Y`.
proof fn lemma_cell_index_bounds(x: int, y: int)
    requires
        in_grid(x, y),
    ensures
        0 <= cell_index(x, y) < U_X * U_Y,
{
    assert(0 <= x * U_X <= (U_Y - 1) * U_X) by (nonlinear_arith)
        requires
            0 <= x < U_Y,
    ;
}

/// The slot that a linked slot is paired with is linked back to it.
proof fn lemma_linked_symmetric(x: int, y: int, d: int)
    requires
        linked(x, y, d),
    ensures
        linked(x + link_dx(d), y + link_dy(d), opposite(d)),
        x + link_dx(d) + link_dx(opposite(d)) == x,
        y + link_dy(d) + link_dy(opposite(d)) == y,
        opposite(opposite(d)) == d,
        x + link_dx(d) != x || y + link_dy(d) != y,
{
    lemma_opposite_involution(d);
}

/// Before any exchange, a lattice is its own start.
proof fn lemma_toggle_none<F>(l: Lattice<F>, cx: int, cy: int)
    ensures
        l.toggled_from(&l, cx, cy, Set::empty()),
{
}

/// Exchanging the pair through slot `d0` of cell `(cx, cy)` adds `d0` to
/// the exchanged slots.
proof fn lemma_toggle_step<F>(
    start: Lattice<F>,
    prev: Lattice<F>,
    cur: Lattice<F>,
    cx: int,
    cy: int,
    d0: int,
    done: Set<int>,
)
    requires
        prev.toggled_from(&start, cx, cy, done),
        linked(cx, cy, d0),
        !done.contains(d0),
        cur.swapped(&prev, cx, cy, d0, cx + link_dx(d0), cy + link_dy(d0), opposite(d0)),
    ensures
        cur.toggled_from(&start, cx, cy, done.insert(d0)),
{
    lemma_linked_symmetric(cx, cy, d0);
    let px = cx + link_dx(d0);
    let py = cy + link_dy(d0);
    assert forall|x: int, y: int, d: int| in_grid(x, y) && 0 <= d < Q implies #[trigger] cur.vel(
        x,
        y,
        d,
    ) == start.toggled(cx, cy, done.insert(d0), x, y, d) by {
        if x == cx && y == cy && d == d0 {
            assert(prev.vel(px, py, opposite(d0)) == start.toggled(cx, cy, done, px, py, opposite(d0)));
        } else if x == px && y == py && d == opposite(d0) {
            assert(prev.vel(cx, cy, d0) == start.toggled(cx, cy, done, cx, cy, d0));
        } else {
            assert(prev.vel(x, y, d) == start.toggled(cx, cy, done, x, y, d));
            if touches(cx, cy, x, y, d) && slot_at(cx, cy, x, y, d) == d0 {
                lemma_opposite_involution(d);
                lemma_opposite_involution(d0);
            }
        }
    }
}

/// A slot of cell `(cx, cy)` without a neighbour can be counted as
/// exchanged without changing anything.
proof fn lemma_toggle_skip<F>(start: Lattice<F>, cur: Lattice<F>, cx: int, cy: int, d0: int, done: Set<int>)
    requires
        cur.toggled_from(&start, cx, cy, done),
        in_grid(cx, cy),
        1 <= d0 < Q,
        !linked(cx, cy, d0),
    ensures
        cur.toggled_from(&start, cx, cy, done.insert(d0)),
{
    assert forall|x: int, y: int, d: int| in_grid(x, y) && 0 <= d < Q implies #[trigger] cur.vel(
        x,
        y,
        d,
    ) == start.toggled(cx, cy, done.insert(d0), x, y, d) by {
        assert(cur.vel(x, y, d) == start.toggled(cx, cy, done, x, y, d));
        if touches(cx, cy, x, y, d) && slot_at(cx, cy, x, y, d) == d0 && !(x == cx && y == cy) {
            lemma_linked_symmetric(x, y, d);
        }
    }
}

/// A linked slot is forward exactly when its neighbour comes later in the
/// visiting order.
proof fn lemma_forward_is_later(x: int, y: int, d: int)
    requires
        linked(x, y, d),
    ensures
        forward(d) <==> cell_index(x + link_dx(d), y + link_dy(d)) > cell_index(x, y),
{
}

/// Visiting cell number `k` of the first streaming pass, which exchanges the
/// pairs through the forward slots of that cell, moves the pass on to
/// position `k + 1`.
proof fn lemma_first_pass_advance<F>(
    start: Lattice<F>,
    cur: Lattice<F>,
    next: Lattice<F>,
    cx: int,
    cy: int,
    done: Set<int>,
)
    requires
        in_grid(cx, cy),
        cur.first_pass_at(&start, cell_index(cx, cy)),
        next.toggled_from(&cur, cx, cy, done),
        forall|s: int| 1 <= s < Q ==> (done.contains(s) <==> forward(s)),
    ensures
        next.first_pass_at(&start, cell_index(cx, cy) + 1),
{
    let k = cell_index(cx, cy);
    assert forall|x: int, y: int, d: int| in_grid(x, y) && 0 <= d < Q implies #[trigger] next.vel(
        x,
        y,
        d,
    ) == start.streamed_upto(k + 1, x, y, d) by {
        assert(next.vel(x, y, d) == cur.toggled(cx, cy, done, x, y, d));
        if linked(x, y, d) {
            lemma_linked_symmetric(x, y, d);
            let px = x + link_dx(d);
            let py = y + link_dy(d);
            lemma_forward_is_later(x, y, d);
            lemma_forward_is_later(px, py, opposite(d));
            if x != cx || y != cy {
                lemma_cell_index_injective(x, y, cx, cy);
            }
            if px != cx || py != cy {
                lemma_cell_index_injective(px, py, cx, cy);
            }
            assert(cur.vel(px, py, opposite(d)) == start.streamed_upto(k, px, py, opposite(d)));
            assert(cur.vel(x, y, d) == start.streamed_upto(k, x, y, d));
            assert(1 <= slot_at(cx, cy, x, y, d) < Q) by {
                lemma_opposite_involution(d);
            }
        } else {
            assert(cur.vel(x, y, d) == start.streamed_upto(k, x, y, d));
        }
    }
}

/// Once the first streaming pass has visited every cell, each pair has been
/// exchanged once.
proof fn lemma_first_pass_done<F>(start: Lattice<F>, cur: Lattice<F>)
    requires
        cur.first_pass_at(&start, U_Y * U_X),
    ensures
        forall|x: int, y: int, d: int|
            in_grid(x, y) && 0 <= d < Q ==> #[trigger] cur.vel(x, y, d) == if linked(x, y, d) {
                start.partner_vel(x, y, d)
            } else {
                start.vel(x, y, d)
            },
{
    assert forall|x: int, y: int, d: int| in_grid(x, y) && 0 <= d < Q implies #[trigger] cur.vel(
        x,
        y,
        d,
    ) == if linked(x, y, d) {
        start.partner_vel(x, y, d)
    } else {
        start.vel(x, y, d)
    } by {
        assert(cur.vel(x, y, d) == start.streamed_upto(U_Y * U_X, x, y, d));
        lemma_cell_index_bounds(x, y);
    }
}

/// Reversing the node at position `k` moves the second pass on to `k + 1`.
proof fn lemma_second_pass_advance<F>(start: Lattice<F>, cur: Lattice<F>, next: Lattice<F>, cx: int, cy: int)
    requires
        in_grid(cx, cy),
        cur.second_pass_at(&start, cell_index(cx, cy)),
        forall|x: int, y: int, d: int|
            in_grid(x, y) && 0 <= d < Q ==> #[trigger] next.vel(x, y, d) == if x == cx && y == cy {
                cur.vel(x, y, opposite(d))
            } else {
                cur.vel(x, y, d)
            },
    ensures
        next.second_pass_at(&start, cell_index(cx, cy) + 1),
{
    let k = cell_index(cx, cy);
    assert forall|x: int, y: int, d: int| in_grid(x, y) && 0 <= d < Q implies #[trigger] next.vel(
        x,
        y,
        d,
    ) == if cell_index(x, y) < k + 1 {
        start.vel(x, y, opposite(d))
    } else {
        start.vel(x, y, d)
    } by {
        lemma_opposite_involution(d);
        if x == cx && y == cy {
            assert(cur.vel(x, y, opposite(d)) == if cell_index(x, y) < k {
                start.vel(x, y, opposite(opposite(d)))
            } else {
                start.vel(x, y, opposite(d))
            });
        } else {
            lemma_cell_index_injective(x, y, cx, cy);
            assert(cur.vel(x, y, d) == if cell_index(x, y) < k {
                start.vel(x, y, opposite(d))
            } else {
                start.vel(x, y, d)
            });
        }
    }
}

impl<F: Copy> Lattice<F> {
    /// Exchanges velocity `d1` of node `(x1, y1)` with velocity `d2` of
    /// node `(x2, y2)`, two different nodes.
    pub(crate) fn swap_vel(&mut self, x1: usize, y1: usize, d1: usize, x2: usize, y2: usize, d2: usize)
        requires
            old(self).wf(),
            in_grid(x1 as int, y1 as int),
            in_grid(x2 as int, y2 as int),
            d1 < Q,
            d2 < Q,
            x1 != x2 || y1 != y2,
        ensures
            final(self).swapped(
                old(self),
                x1 as int,
                y1 as int,
                d1 as int,
                x2 as int,
                y2 as int,
                d2 as int,
            ),
    {
        let a = self.nodes[x1][y1].micro_vel[d1];
        let b = self.nodes[x2][y2].micro_vel[d2];
        self.nodes[x1][y1].micro_vel[d1] = b;
        self.nodes[x2][y2].micro_vel[d2] = a;
    }

    /// Exchanges each forward slot of node `(x, y)` (directions 1, 5 and 8,
    /// towards the next row, and 4, towards the next node of the row) with the
    /// opposite slot of the neighbour in that direction, where it exists.
    fn stream_cell(&mut self, x: usize, y: usize)
        requires
            old(self).wf(),
            in_grid(x as int, y as int),
        ensures
            final(self).wf(),
            final(self).same_except_vel(old(self)),
            exists|done: Set<int>|
                {
                    &&& forall|s: int| 1 <= s < Q ==> (done.contains(s) <==> forward(s))
                    &&& final(self).toggled_from(old(self), x as int, y as int, done)
                },
    {
        let ghost start = *self;
        let ghost mut done: Set<int> = Set::empty();
        proof {
            lemma_toggle_none(start, x as int, y as int);
        }
        if x < U_X - 1 {
            let ghost prev = *self;
            self.swap_vel(x, y, 1, x + 1, y, 3);
            proof {
                lemma_toggle_step(start, prev, *self, x as int, y as int, 1, done);
                done = done.insert(1);
            }
            if y > 0 {
                let ghost prev = *self;
                self.swap_vel(x, y, 5, x + 1, y - 1, 7);
                proof {
                    lemma_toggle_step(start, prev, *self, x as int, y as int, 5, done);
                    done = done.insert(5);
                }
            } else {
                proof {
                    lemma_toggle_skip(start, *self, x as int, y as int, 5, done);
                    done = done.insert(5);
                }
            }
            if y < U_Y - 1 {
                let ghost prev = *self;
                self.swap_vel(x, y, 8, x + 1, y + 1, 6);
                proof {
                    lemma_toggle_step(start, prev, *self, x as int, y as int, 8, done);
                    done = done.insert(8);
                }
            } else {
                proof {
                    lemma_toggle_skip(start, *self, x as int, y as int, 8, done);
                    done = done.insert(8);
                }
            }
        } else {
            proof {
                lemma_toggle_skip(start, *self, x as int, y as int, 1, done);
                done = done.insert(1);
                lemma_toggle_skip(start, *self, x as int, y as int, 5, done);
                done = done.insert(5);
                lemma_toggle_skip(start, *self, x as int, y as int, 8, done);
                done = done.insert(8);
            }
        }
        if y < U_Y - 1 {
            let ghost prev = *self;
            self.swap_vel(x, y, 4, x, y + 1, 2);
            proof {
                lemma_toggle_step(start, prev, *self, x as int, y as int, 4, done);
                done = done.insert(4);
            }
        } else {
            proof {
                lemma_toggle_skip(start, *self, x as int, y as int, 4, done);
                done = done.insert(4);
            }
        }
        assert(forall|s: int| 1 <= s < Q ==> (done.contains(s) <==> forward(s)));
    }

    /// Swaps, within node `(x, y)`, each microscopic velocity with the one in
    /// the opposite direction.
    fn reverse_cell(&mut self, x: usize, y: usize)
        requires
            old(self).wf(),
            in_grid(x as int, y as int),
        ensures
            final(self).wf(),
            final(self).same_except_vel(old(self)),
            forall|i: int, j: int, d: int|
                in_grid(i, j) && 0 <= d < Q ==> #[trigger] final(self).vel(i, j, d) == if i == x
                    && j == y {
                    old(self).vel(i, j, opposite(d))
                } else {
                    old(self).vel(i, j, d)
                },
    {
        let s = self.nodes[x][y].micro_vel[1];
        self.nodes[x][y].micro_vel[1] = self.nodes[x][y].micro_vel[3];
        self.nodes[x][y].micro_vel[3] = s;

        let s = self.nodes[x][y].micro_vel[2];
        self.nodes[x][y].micro_vel[2] = self.nodes[x][y].micro_vel[4];
        self.nodes[x][y].micro_vel[4] = s;

        let s = self.nodes[x][y].micro_vel[5];
        self.nodes[x][y].micro_vel[5] = self.nodes[x][y].micro_vel[7];
        self.nodes[x][y].micro_vel[7] = s;

        let s = self.nodes[x][y].micro_vel[6];
        self.nodes[x][y].micro_vel[6] = self.nodes[x][y].micro_vel[8];
        self.nodes[x][y].micro_vel[8] = s;
    }

    /// The streaming step, done in place in two passes.  Every microscopic
    /// velocity moves one node along its direction; one that would leave the
    /// grid bounces back into the opposite direction of its own node.
    ///
    /// The first pass visits the cells in row-major order and exchanges each
    /// forward slot of the visited node with the opposite slot of the
    /// neighbour in that direction, so that every pair is exchanged once.  The
    /// second pass swaps, within each node, each velocity with the opposite
    /// one, which puts every moved value back into its own direction.
    pub fn streaming(&mut self)
        requires
            old(self).wf(),
        ensures
            final(self).is_streamed(old(self)),
    {
        let ghost start = *self;
        let n_rows = self.nodes.len();
        let mut x: usize = 0;
        while x < n_rows
            invariant
                self.wf(),
                n_rows == U_Y,
                x <= n_rows,
                self.same_except_vel(&start),
                self.first_pass_at(&start, x * U_X),
            decreases n_rows - x,
        {
            let n_cols = self.nodes[x].len();
            let mut y: usize = 0;
            while y < n_cols
                invariant
                    self.wf(),
                    n_rows == U_Y,
                    x < n_rows,
                    n_cols == U_X,
                    y <= n_cols,
                    self.same_except_vel(&start),
                    self.first_pass_at(&start, x * U_X + y),
                decreases n_cols - y,
            {
                let ghost cur = *self;
                self.stream_cell(x, y);
                proof {
                    let done = choose|done: Set<int>|
                        {
                            &&& forall|s: int| 1 <= s < Q ==> (done.contains(s) <==> forward(s))
                            &&& self.toggled_from(&cur, x as int, y as int, done)
                        };
                    lemma_first_pass_advance(start, cur, *self, x as int, y as int, done);
                }
                y += 1;
            }
            x += 1;
        }
        proof {
            lemma_first_pass_done(start, *self);
        }
        let ghost mid = *self;
        let mut x: usize = 0;
        while x < n_rows
            invariant
                self.wf(),
                n_rows == U_Y,
                x <= n_rows,
                self.same_except_vel(&start),
                self.second_pass_at(&mid, x * U_X),
            decreases n_rows - x,
        {
            let n_cols = self.nodes[x].len();
            let mut y: usize = 0;
            while y < n_cols
                invariant
                    self.wf(),
                    n_rows == U_Y,
                    x < n_rows,
                    n_cols == U_X,
                    y <= n_cols,
                    self.same_except_vel(&start),
                    self.second_pass_at(&mid, x * U_X + y),
                decreases n_cols - y,
            {
                let ghost cur = *self;
                self.reverse_cell(x, y);
                proof {
                    lemma_second_pass_advance(mid, cur, *self, x as int, y as int);
                }
                y += 1;
            }
            x += 1;
        }
        proof {
            assert forall|i: int, j: int, d: int| in_grid(i, j) && 0 <= d < Q implies #[trigger] self.vel(
                i,
                j,
                d,
            ) == if in_grid(i - link_dx(d), j - link_dy(d)) {
                start.vel(i - link_dx(d), j - link_dy(d), d)
            } else {
                start.vel(i, j, opposite(d))
            } by {
                lemma_cell_index_bounds(i, j);
                lemma_opposite_involution(d);
                assert(self.vel(i, j, d) == mid.vel(i, j, opposite(d)));
            }
        }
    }
}


} // verus!
