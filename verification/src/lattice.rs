use vstd::prelude::*;

use crate::consts::{U_X, U_Y};
use crate::direction::{link_dx, link_dy, opposite, Q};
use crate::node::Node;

verus! {

/// A `U_Y` by `U_X` grid of nodes, with the lattice speed `c` and the
/// relaxation time `tau` that the collision step uses.
pub struct Lattice<F> {
    pub nodes: Vec<Vec<Node<F>>>,
    pub c: F,
    pub tau: F,
}

/// `(x, y)` is a cell of the grid: `x` picks the row, `y` the node in it.
pub open spec fn in_grid(x: int, y: int) -> bool {
    0 <= x < U_Y && 0 <= y < U_X
}

/// Slot `d` of cell `(x, y)` is paired by the streaming pass with slot
/// `opposite(d)` of the neighbouring cell `(x + link_dx(d), y + link_dy(d))`,
/// when that neighbour exists.
pub open spec fn linked(x: int, y: int, d: int) -> bool {
    &&& in_grid(x, y)
    &&& 1 <= d < Q
    &&& in_grid(x + link_dx(d), y + link_dy(d))
}

/// Position of cell `(x, y)` in the row-major order in which the streaming
/// pass visits the grid.
pub open spec fn cell_index(x: int, y: int) -> int {
    x * U_X + y
}

/// Slot `d` of cell `(x, y)` is one end of a pair that has cell `(cx, cy)` at
/// one of its ends.
pub open spec fn touches(cx: int, cy: int, x: int, y: int, d: int) -> bool {
    &&& linked(x, y, d)
    &&& ((x == cx && y == cy) || (x + link_dx(d) == cx && y + link_dy(d) == cy))
}

/// The slot of cell `(cx, cy)` through which slot `d` of `(x, y)` is paired
/// with it.
pub open spec fn slot_at(cx: int, cy: int, x: int, y: int, d: int) -> int {
    if x == cx && y == cy {
        d
    } else {
        opposite(d)
    }
}

/// Slot `d` points to a neighbour that comes later in the visiting order:
/// the next row (`link_dx(d) == 1`), or the next node of the same row.
pub open spec fn forward(d: int) -> bool {
    link_dx(d) == 1 || (link_dx(d) == 0 && link_dy(d) == 1)
}

impl<F> Lattice<F> {
    /// The grid has `U_Y` rows of `U_X` nodes each.
    pub open spec fn wf(&self) -> bool {
        &&& self.nodes@.len() == U_Y
        &&& forall|x: int| 0 <= x < U_Y ==> (#[trigger] self.nodes@[x])@.len() == U_X
    }

    /// The node at cell `(x, y)`.
    pub open spec fn node(&self, x: int, y: int) -> Node<F> {
        self.nodes@[x]@[y]
    }

    /// Microscopic velocity `d` of the node at cell `(x, y)`.
    pub open spec fn vel(&self, x: int, y: int, d: int) -> F {
        self.nodes@[x]@[y].micro_vel@[d]
    }

    /// The value held by the slot that slot `d` of `(x, y)` is paired with.
    pub open spec fn partner_vel(&self, x: int, y: int, d: int) -> F {
        self.vel(x + link_dx(d), y + link_dy(d), opposite(d))
    }

    /// Microscopic velocity `d` of `(x, y)` once the pairs through the slots
    /// `done` of cell `(cx, cy)` have been exchanged.
    pub open spec fn toggled(&self, cx: int, cy: int, done: Set<int>, x: int, y: int, d: int) -> F {
        if touches(cx, cy, x, y, d) && done.contains(slot_at(cx, cy, x, y, d)) {
            self.partner_vel(x, y, d)
        } else {
            self.vel(x, y, d)
        }
    }

    /// Every microscopic velocity of `self` is that of `start` with the pairs
    /// through the slots `done` of cell `(cx, cy)` exchanged.
    pub open spec fn toggled_from(&self, start: &Lattice<F>, cx: int, cy: int, done: Set<int>) -> bool {
        forall|x: int, y: int, d: int|
            in_grid(x, y) && 0 <= d < Q ==> #[trigger] self.vel(x, y, d) == start.toggled(
                cx,
                cy,
                done,
                x,
                y,
                d,
            )
    }

    /// The pair through slot `d` of `(x, y)` has an end before position `k`
    /// of the visiting order, so the first streaming pass, which exchanges
    /// each pair when it visits the earlier of its two ends, has exchanged it.
    pub open spec fn crossed(k: int, x: int, y: int, d: int) -> bool {
        &&& linked(x, y, d)
        &&& (cell_index(x, y) < k || cell_index(x + link_dx(d), y + link_dy(d)) < k)
    }

    /// Microscopic velocity `d` of `(x, y)` after the first streaming pass has
    /// visited the cells before position `k`.
    pub open spec fn streamed_upto(&self, k: int, x: int, y: int, d: int) -> F {
        if Self::crossed(k, x, y, d) {
            self.partner_vel(x, y, d)
        } else {
            self.vel(x, y, d)
        }
    }

    /// Every microscopic velocity of `self` is that of `start` after the first
    /// streaming pass has visited the cells before position `k`.
    pub open spec fn first_pass_at(&self, start: &Lattice<F>, k: int) -> bool {
        forall|x: int, y: int, d: int|
            in_grid(x, y) && 0 <= d < Q ==> #[trigger] self.vel(x, y, d) == start.streamed_upto(
                k,
                x,
                y,
                d,
            )
    }

    /// `self` is `before` with velocity `d1` of `(x1, y1)` and velocity `d2`
    /// of `(x2, y2)` exchanged, and nothing else changed.
    pub open spec fn swapped(
        &self,
        before: &Lattice<F>,
        x1: int,
        y1: int,
        d1: int,
        x2: int,
        y2: int,
        d2: int,
    ) -> bool {
        &&& self.wf()
        &&& self.same_except_vel(before)
        &&& forall|x: int, y: int, d: int|
            in_grid(x, y) && 0 <= d < Q ==> #[trigger] self.vel(x, y, d) == if x == x1 && y == y1
                && d == d1 {
                before.vel(x2, y2, d2)
            } else if x == x2 && y == y2 && d == d2 {
                before.vel(x1, y1, d1)
            } else {
                before.vel(x, y, d)
            }
    }

    /// `self` is `before` after one streaming step: the value that slot `d`
    /// of a node held has moved one node along direction `d`, to slot `d` of
    /// the neighbour `(x + link_dx(d), y + link_dy(d))`; where that neighbour
    /// is outside the grid it has bounced back into slot `opposite(d)` of its
    /// own node.  Nothing but the microscopic velocities changes.
    pub open spec fn is_streamed(&self, before: &Lattice<F>) -> bool {
        &&& self.wf()
        &&& self.same_except_vel(before)
        &&& forall|x: int, y: int, d: int|
            in_grid(x, y) && 0 <= d < Q ==> #[trigger] self.vel(x, y, d) == if in_grid(
                x - link_dx(d),
                y - link_dy(d),
            ) {
                before.vel(x - link_dx(d), y - link_dy(d), d)
            } else {
                before.vel(x, y, opposite(d))
            }
    }

    /// Every microscopic velocity of `self` is that of `start`, reversed in
    /// the nodes that come before position `k` of the visiting order.
    pub open spec fn second_pass_at(&self, start: &Lattice<F>, k: int) -> bool {
        forall|x: int, y: int, d: int|
            in_grid(x, y) && 0 <= d < Q ==> #[trigger] self.vel(x, y, d) == if cell_index(x, y)
                < k {
                start.vel(x, y, opposite(d))
            } else {
                start.vel(x, y, d)
            }
    }

    /// Both lattices have the same parameters, and their nodes agree on every
    /// field but the microscopic velocities.
    pub open spec fn same_except_vel(&self, other: &Lattice<F>) -> bool {
        &&& self.c == other.c
        &&& self.tau == other.tau
        &&& forall|x: int, y: int|
            in_grid(x, y) ==> (#[trigger] self.node(x, y)).same_except_vel(&other.node(x, y))
    }
}

/// A lattice of `U_Y` rows of `U_X` copies of `node`, with lattice speed `c`
/// and relaxation time `tau`.
pub fn build_lattice<F: Copy>(node: Node<F>, c: F, tau: F) -> (l: Lattice<F>)
    ensures
        l.wf(),
        l.c == c,
        l.tau == tau,
        forall|x: int, y: int| in_grid(x, y) ==> #[trigger] l.node(x, y) == node,
{
    let mut nodes: Vec<Vec<Node<F>>> = Vec::new();
    let mut i: usize = 0;
    while i < U_Y
        invariant
            i <= U_Y,
            nodes@.len() == i,
            forall|x: int| 0 <= x < i ==> (#[trigger] nodes@[x])@.len() == U_X,
            forall|x: int, y: int| 0 <= x < i && 0 <= y < U_X ==> #[trigger] nodes@[x]@[y] == node,
        decreases U_Y - i,
    {
        let mut row: Vec<Node<F>> = Vec::new();
        let mut j: usize = 0;
        while j < U_X
            invariant
                j <= U_X,
                row@.len() == j,
                forall|y: int| 0 <= y < j ==> #[trigger] row@[y] == node,
            decreases U_X - j,
        {
            row.push(node);
            j += 1;
        }
        nodes.push(row);
        i += 1;
    }
    Lattice { nodes, c, tau }
}

/// `(x, y)` is a cell of `l`, whatever the shape of its rows.
pub open spec fn has_cell<F>(l: &Lattice<F>, x: int, y: int) -> bool {
    0 <= x < l.nodes@.len() && 0 <= y < l.nodes@[x]@.len()
}

/// Number of cells in the rows of `l` before row `x`.
pub open spec fn cells_before<F>(l: &Lattice<F>, x: int) -> int
    decreases x,
{
    if x <= 0 {
        0
    } else {
        cells_before(l, x - 1) + l.nodes@[x - 1]@.len()
    }
}

/// Position of cell `(x, y)` of `l` in row-major order: the rows in order,
/// each from its first node to its last.
pub open spec fn visit_position<F>(l: &Lattice<F>, x: int, y: int) -> int {
    cells_before(l, x) + y
}

/// Number of cells of `l`.
pub open spec fn cell_count<F>(l: &Lattice<F>) -> int {
    cells_before(l, l.nodes@.len() as int)
}

/// `after` is `before` with every node replaced by the visitor `f`, called on
/// the cells in row-major order and carrying a state from each call to the
/// next: `states[k]` is the state handed to the `k`-th call and
/// `states[k + 1]` the state it returned.
pub open spec fn visited_in_order<F, S, G: Fn(S, Node<F>) -> (S, Node<F>)>(
    before: &Lattice<F>,
    after: &Lattice<F>,
    f: G,
    states: Seq<S>,
) -> bool {
    &&& states.len() == cell_count(before) + 1
    &&& forall|x: int, y: int|
        has_cell(before, x, y) ==> f.ensures(
            (states[visit_position(before, x, y)], before.node(x, y)),
            (states[visit_position(before, x, y) + 1], #[trigger] after.node(x, y)),
        )
}

/// `after` comes from `before` by the ordered visit of `f`, started in state
/// `init` and ended in state `end`.
pub open spec fn ordered_update<F, S, G: Fn(S, Node<F>) -> (S, Node<F>)>(
    before: &Lattice<F>,
    after: &Lattice<F>,
    init: S,
    end: S,
    f: G,
) -> bool {
    exists|states: Seq<S>|
        {
            &&& visited_in_order(before, after, f, states)
            &&& states[0] == init
            &&& states[cell_count(before)] == end
        }
}

/// No row holds a negative number of cells.
proof fn lemma_cells_before_nonnegative<F>(l: &Lattice<F>, a: int)
    ensures
        0 <= cells_before(l, a),
    decreases a,
{
    if a > 0 {
        lemma_cells_before_nonnegative(l, a - 1);
    }
}

/// Row counts only grow: the rows before `a` hold no more cells than the
/// rows before `b`.
proof fn lemma_cells_before_monotonic<F>(l: &Lattice<F>, a: int, b: int)
    requires
        a <= b,
    ensures
        cells_before(l, a) <= cells_before(l, b),
    decreases b - a,
{
    if a < b {
        lemma_cells_before_monotonic(l, a, b - 1);
        if b > 0 {
            assert(cells_before(l, b) == cells_before(l, b - 1) + l.nodes@[b - 1]@.len());
        }
    }
}

impl<F: Copy> Lattice<F> {
    /// Replaces every node by what `f` returns for it, visiting the rows in
    /// order and each row from its first node to its last.  The rows may
    /// have any lengths.  This is `update_nodes_in_order` with a visitor that
    /// carries no state; the order of the calls is stated there, since a
    /// visitor without state gives its calls no order to be seen by.
    pub fn update_nodes<G: Fn(Node<F>) -> Node<F>>(&mut self, f: G)
        requires
            forall|n: Node<F>| f.requires((n,)),
        ensures
            final(self).nodes@.len() == old(self).nodes@.len(),
            forall|x: int|
                0 <= x < old(self).nodes@.len() ==> (#[trigger] final(self).nodes@[x])@.len()
                    == old(self).nodes@[x]@.len(),
            final(self).c == old(self).c,
            final(self).tau == old(self).tau,
            forall|x: int, y: int|
                has_cell(old(self), x, y) ==> f.ensures(
                    (old(self).node(x, y),),
                    #[trigger] final(self).node(x, y),
                ),
    {
        let ghost start = *self;
        let fr = &f;
        let g = move |s: (), n: Node<F>| -> (r: ((), Node<F>))
            requires
                fr.requires((n,)),
            ensures
                fr.ensures((n,), r.1),
            { ((), fr(n)) };
        self.update_nodes_in_order((), g);
        proof {
            let states = choose|states: Seq<()>|
                {
                    &&& visited_in_order(&start, self, g, states)
                    &&& states[0] == ()
                    &&& states[cell_count(&start)] == ()
                };
            assert forall|x: int, y: int| has_cell(&start, x, y) implies f.ensures(
                (start.node(x, y),),
                #[trigger] self.node(x, y),
            ) by {
                let p = visit_position(&start, x, y);
                assert(g.ensures((states[p], start.node(x, y)), (states[p + 1], self.node(x, y))));
            }
        }
    }

    /// Replaces every node by what the visitor `f` returns for it, visiting
    /// the rows in order and each row from its first node to its last, and
    /// handing each call of `f` the state that the previous call returned
    /// (`init` for the first).  Returns the state the last call returned.
    /// The rows may have any lengths.
    pub fn update_nodes_in_order<S, G: Fn(S, Node<F>) -> (S, Node<F>)>(&mut self, init: S, f: G) -> (end: S)
        requires
            forall|s: S, n: Node<F>| f.requires((s, n)),
        ensures
            final(self).nodes@.len() == old(self).nodes@.len(),
            forall|x: int|
                0 <= x < old(self).nodes@.len() ==> (#[trigger] final(self).nodes@[x])@.len()
                    == old(self).nodes@[x]@.len(),
            final(self).c == old(self).c,
            final(self).tau == old(self).tau,
            ordered_update(old(self), final(self), init, end, f),
    {
        let ghost start = *self;
        let ghost mut states: Seq<S> = seq![init];
        let mut s = init;
        let n_rows = self.nodes.len();
        let mut x: usize = 0;
        while x < n_rows
            invariant
                n_rows == start.nodes@.len(),
                self.nodes@.len() == n_rows,
                forall|i: int| 0 <= i < n_rows ==> (#[trigger] self.nodes@[i])@.len() == start.nodes@[i]@.len(),
                x <= n_rows,
                self.c == start.c,
                self.tau == start.tau,
                forall|a: S, n: Node<F>| f.requires((a, n)),
                states.len() == cells_before(&start, x as int) + 1,
                states[0] == init,
                states[states.len() - 1] == s,
                forall|i: int, j: int|
                    has_cell(&start, i, j) ==> if i < x {
                        f.ensures(
                            (states[visit_position(&start, i, j)], start.node(i, j)),
                            (states[visit_position(&start, i, j) + 1], #[trigger] self.node(i, j)),
                        )
                    } else {
                        self.node(i, j) == start.node(i, j)
                    },
            decreases n_rows - x,
        {
            let n_cols = self.nodes[x].len();
            let mut y: usize = 0;
            while y < n_cols
                invariant
                    n_rows == start.nodes@.len(),
                    self.nodes@.len() == n_rows,
                    forall|i: int| 0 <= i < n_rows ==> (#[trigger] self.nodes@[i])@.len() == start.nodes@[i]@.len(),
                    x < n_rows,
                    n_cols == start.nodes@[x as int]@.len(),
                    y <= n_cols,
                    self.c == start.c,
                    self.tau == start.tau,
                    forall|a: S, n: Node<F>| f.requires((a, n)),
                    states.len() == cells_before(&start, x as int) + y + 1,
                    states[0] == init,
                    states[states.len() - 1] == s,
                    forall|i: int, j: int|
                        has_cell(&start, i, j) ==> if i < x || (i == x && j < y) {
                            f.ensures(
                                (states[visit_position(&start, i, j)], start.node(i, j)),
                                (states[visit_position(&start, i, j) + 1], #[trigger] self.node(i, j)),
                            )
                        } else {
                            self.node(i, j) == start.node(i, j)
                        },
                decreases n_cols - y,
            {
                let ghost prev = *self;
                let ghost prev_states = states;
                let ghost p = visit_position(&start, x as int, y as int);
                proof {
                    lemma_cells_before_nonnegative(&start, x as int);
                }
                let n = self.nodes[x][y];
                assert(n == prev.node(x as int, y as int));
                let ghost s_in = s;
                let (s2, m) = f(s, n);
                assert(f.ensures((s_in, n), (s2, m)));
                proof {
                    states = states.push(s2);
                }
                s = s2;
                self.nodes[x][y] = m;
                assert(self.node(x as int, y as int) == m);
                assert(states[p] == s_in && states[p + 1] == s2);
                assert forall|i: int| 0 <= i < n_rows implies (#[trigger] self.nodes@[i])@.len()
                    == start.nodes@[i]@.len() by {
                    assert(prev.nodes@[i]@.len() == start.nodes@[i]@.len());
                }
                assert forall|i: int, j: int| has_cell(&start, i, j) && (i != x || j != y) implies #[trigger] self.node(
                    i,
                    j,
                ) == prev.node(i, j) by {
                    if i != x {
                        assert(self.nodes@[i] == prev.nodes@[i]);
                    }
                }
                assert forall|i: int, j: int|
                    has_cell(&start, i, j) && (i < x || (i == x && j < y)) implies f.ensures(
                    (states[visit_position(&start, i, j)], start.node(i, j)),
                    (states[visit_position(&start, i, j) + 1], #[trigger] self.node(i, j)),
                ) by {
                    lemma_cells_before_nonnegative(&start, i);
                    if i < x {
                        lemma_cells_before_monotonic(&start, i + 1, x as int);
                    }
                    let q = visit_position(&start, i, j);
                    assert(q + 1 < prev_states.len());
                    assert(states[q] == prev_states[q]);
                    assert(states[q + 1] == prev_states[q + 1]);
                    assert(f.ensures(
                        (prev_states[q], start.node(i, j)),
                        (prev_states[q + 1], prev.node(i, j)),
                    ));
                }
                y += 1;
            }
            x += 1;
        }
        s
    }
}

} // verus!
