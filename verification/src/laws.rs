use vstd::prelude::*;

use vstd::arithmetic::div_mod::lemma_fundamental_div_mod_converse;
use vstd::relations::injective_on;
use vstd::set_lib::{lemma_map_size, set_int_range};

use crate::consts::{U_X, U_Y};
use crate::direction::{lemma_opposite_involution, link_dx, link_dy, opposite, Q};
use crate::lattice::{
    cell_count, cells_before, has_cell, in_grid, ordered_update, visit_position, visited_in_order,
    Lattice,
};
use crate::node::Node;

verus! {

/// A slot of the grid: a cell `(s.0, s.1)` and a direction `s.2`.
pub open spec fn is_slot(s: (int, int, int)) -> bool {
    in_grid(s.0, s.1) && 0 <= s.2 < Q
}

/// The slot numbered `k` when the slots are numbered cell by cell, in the
/// row-major order of the cells and by direction within a cell.
pub open spec fn slot_of(k: int) -> (int, int, int) {
    (k / (U_X * Q) as int, (k % (U_X * Q) as int) / Q as int, k % Q as int)
}

/// All the slots of the grid.
pub open spec fn all_slots() -> Set<(int, int, int)> {
    set_int_range(0, (U_Y * U_X * Q) as int).map(|k: int| slot_of(k))
}

/// The slots of the grid whose direction is `i` or `opposite(i)`.
pub open spec fn pair_slots(i: int) -> Set<(int, int, int)> {
    all_slots().filter(|s: (int, int, int)| s.2 == i || s.2 == opposite(i))
}

/// Number of slots, among those of direction `i` or `opposite(i)`, that hold
/// `v` in lattice `l`.
pub open spec fn count_in_pair<F>(l: Lattice<F>, i: int, v: F) -> nat {
    pair_slots(i).filter(|s: (int, int, int)| l.vel(s.0, s.1, s.2) == v).len()
}

/// The slot that one streaming step moves the value of slot `s` to: one node
/// along its direction, or, at the wall, the opposite direction of its node.
pub open spec fn destination(s: (int, int, int)) -> (int, int, int) {
    if in_grid(s.0 + link_dx(s.2), s.1 + link_dy(s.2)) {
        (s.0 + link_dx(s.2), s.1 + link_dy(s.2), s.2)
    } else {
        (s.0, s.1, opposite(s.2))
    }
}

/// The slot whose value one streaming step moves into slot `t`.
pub open spec fn source(t: (int, int, int)) -> (int, int, int) {
    if in_grid(t.0 - link_dx(t.2), t.1 - link_dy(t.2)) {
        (t.0 - link_dx(t.2), t.1 - link_dy(t.2), t.2)
    } else {
        (t.0, t.1, opposite(t.2))
    }
}

/// The numbering `slot_of` covers exactly the slots of the grid.
proof fn lemma_all_slots(s: (int, int, int))
    ensures
        all_slots().contains(s) <==> is_slot(s),
{
    let w = (U_X * Q) as int;
    if is_slot(s) {
        let r = s.1 * Q + s.2;
        let k = s.0 * w + r;
        assert(0 <= r < w) by (nonlinear_arith)
            requires
                0 <= s.1 < U_X,
                0 <= s.2 < Q,
                r == s.1 * Q + s.2,
                w == U_X * Q,
        ;
        assert(0 <= k < U_Y * U_X * Q) by (nonlinear_arith)
            requires
                0 <= s.0 < U_Y,
                0 <= r < w,
                k == s.0 * w + r,
                w == U_X * Q,
        ;
        lemma_fundamental_div_mod_converse(k, w, s.0, r);
        lemma_fundamental_div_mod_converse(r, Q as int, s.1, s.2);
        assert(k == (s.0 * U_X + s.1) * Q + s.2) by (nonlinear_arith)
            requires
                k == s.0 * w + r,
                r == s.1 * Q + s.2,
                w == U_X * Q,
        ;
        lemma_fundamental_div_mod_converse(k, Q as int, s.0 * U_X + s.1, s.2);
        assert(slot_of(k) == s);
        assert(set_int_range(0, (U_Y * U_X * Q) as int).contains(k));
    }
    if all_slots().contains(s) {
        let k = choose|k: int| set_int_range(0, (U_Y * U_X * Q) as int).contains(k) && slot_of(k) == s;
        assert(0 <= k / w < U_Y) by (nonlinear_arith)
            requires
                0 <= k < U_Y * U_X * Q,
                w == U_X * Q,
        ;
        assert(0 <= (k % w) / (Q as int) < U_X) by (nonlinear_arith)
            requires
                w == U_X * Q,
        ;
    }
}

/// One streaming step moves the value of every slot to its destination: one
/// node along its direction, or back into the opposite direction of its own
/// node when the neighbour in its direction is outside the grid.
pub proof fn lemma_streaming_moves_each_value<F>(before: Lattice<F>, after: Lattice<F>)
    requires
        after.is_streamed(&before),
    ensures
        forall|x: int, y: int, d: int|
            is_slot((x, y, d)) ==> {
                let t = destination((x, y, d));
                &&& is_slot(t)
                &&& after.vel(t.0, t.1, t.2) == #[trigger] before.vel(x, y, d)
            },
{
    assert forall|x: int, y: int, d: int| is_slot((x, y, d)) implies {
        let t = destination((x, y, d));
        &&& is_slot(t)
        &&& after.vel(t.0, t.1, t.2) == #[trigger] before.vel(x, y, d)
    } by {
        lemma_opposite_involution(d);
        let t = destination((x, y, d));
        assert(after.vel(t.0, t.1, t.2) == if in_grid(t.0 - link_dx(t.2), t.1 - link_dy(t.2)) {
            before.vel(t.0 - link_dx(t.2), t.1 - link_dy(t.2), t.2)
        } else {
            before.vel(t.0, t.1, opposite(t.2))
        });
    }
}

/// `source` undoes `destination`, so no two slots send their values to the
/// same slot.
proof fn lemma_source_destination(s: (int, int, int))
    requires
        is_slot(s),
    ensures
        is_slot(destination(s)),
        source(destination(s)) == s,
        is_slot(source(s)),
        destination(source(s)) == s,
{
    lemma_opposite_involution(s.2);
}

/// For every direction pair `{i, opposite(i)}` and every value `v`, one
/// streaming step keeps the number of slots of that pair holding `v`: values
/// only move between slots of the same direction pair.
pub proof fn lemma_streaming_conserves_pairs<F>(before: Lattice<F>, after: Lattice<F>, i: int, v: F)
    requires
        after.is_streamed(&before),
        0 <= i < Q,
    ensures
        count_in_pair(after, i, v) == count_in_pair(before, i, v),
{
    let b = pair_slots(i).filter(|s: (int, int, int)| before.vel(s.0, s.1, s.2) == v);
    let a = pair_slots(i).filter(|s: (int, int, int)| after.vel(s.0, s.1, s.2) == v);
    let f = |s: (int, int, int)| destination(s);
    lemma_streaming_moves_each_value(before, after);
    assert(all_slots().finite()) by {
        vstd::set_lib::lemma_int_range(0, (U_Y * U_X * Q) as int);
        set_int_range(0, (U_Y * U_X * Q) as int).lemma_map_finite(|k: int| slot_of(k));
    }
    assert(b.finite());
    assert(injective_on(f, b)) by {
        assert forall|s1: (int, int, int), s2: (int, int, int)|
            b.contains(s1) && b.contains(s2) && #[trigger] f(s1) == #[trigger] f(s2) implies s1 == s2 by {
            lemma_all_slots(s1);
            lemma_all_slots(s2);
            lemma_source_destination(s1);
            lemma_source_destination(s2);
        }
    }
    assert(b.map(f) =~= a) by {
        assert forall|t: (int, int, int)| a.contains(t) implies b.map(f).contains(t) by {
            lemma_all_slots(t);
            lemma_source_destination(t);
            let s = source(t);
            lemma_all_slots(s);
            lemma_opposite_involution(t.2);
            lemma_opposite_involution(i);
            assert(before.vel(s.0, s.1, s.2) == after.vel(t.0, t.1, t.2));
            assert(b.contains(s));
            assert(f(s) == t);
        }
        assert forall|t: (int, int, int)| b.map(f).contains(t) implies a.contains(t) by {
            let s = choose|s: (int, int, int)| b.contains(s) && f(s) == t;
            lemma_all_slots(s);
            lemma_source_destination(s);
            lemma_all_slots(t);
            lemma_opposite_involution(s.2);
            lemma_opposite_involution(i);
            assert(after.vel(t.0, t.1, t.2) == before.vel(s.0, s.1, s.2));
        }
    }
    lemma_map_size(b, a, f);
}

/// The state that a visitor whose calls behave as `g` holds when it reaches
/// cell `(x, y)` of `l`, having started in state `init` and visited every
/// earlier cell in row-major order (the rows in order, each from its first
/// node to its last).  `y` may be the row's length: the state once the row is
/// done.
pub open spec fn state_before<F, S>(
    l: Lattice<F>,
    g: spec_fn(S, Node<F>) -> (S, Node<F>),
    init: S,
    x: int,
    y: int,
) -> S
    decreases x, y,
{
    if y > 0 {
        g(state_before(l, g, init, x, y - 1), l.node(x, y - 1)).0
    } else if x > 0 {
        state_before(l, g, init, x - 1, l.nodes@[x - 1]@.len() as int)
    } else {
        init
    }
}

/// The state handed to the call at position `visit_position(x, y)` is the
/// state after visiting the cells before `(x, y)`.
proof fn lemma_states_follow_the_order<F, S, G: Fn(S, Node<F>) -> (S, Node<F>)>(
    before: Lattice<F>,
    after: Lattice<F>,
    f: G,
    states: Seq<S>,
    g: spec_fn(S, Node<F>) -> (S, Node<F>),
    x: int,
    y: int,
)
    requires
        visited_in_order(&before, &after, f, states),
        forall|s: S, n: Node<F>, r: (S, Node<F>)| #[trigger] f.ensures((s, n), r) ==> r == g(s, n),
        0 <= x <= before.nodes@.len(),
        x < before.nodes@.len() ==> 0 <= y <= before.nodes@[x]@.len(),
        x == before.nodes@.len() ==> y == 0,
    ensures
        states[visit_position(&before, x, y)] == state_before(before, g, states[0], x, y),
    decreases x, y,
{
    if y > 0 {
        lemma_states_follow_the_order(before, after, f, states, g, x, y - 1);
        let p = visit_position(&before, x, y - 1);
        assert(has_cell(&before, x, y - 1));
        assert(f.ensures(
            (states[p], before.node(x, y - 1)),
            (states[p + 1], after.node(x, y - 1)),
        ));
    } else if x > 0 {
        lemma_states_follow_the_order(
            before,
            after,
            f,
            states,
            g,
            x - 1,
            before.nodes@[x - 1]@.len() as int,
        );
    }
}

/// An ordered visit is a left fold in row-major order: when every call of the
/// visitor `f` behaves as `g`, each cell gets what `g` makes of its old node
/// in the state reached after visiting all the cells before it, in the rows
/// before its row and earlier in its own row, and the visit ends in the state
/// reached after the last cell.
pub proof fn lemma_ordered_update_is_a_fold<F, S, G: Fn(S, Node<F>) -> (S, Node<F>)>(
    before: Lattice<F>,
    after: Lattice<F>,
    init: S,
    end: S,
    f: G,
    g: spec_fn(S, Node<F>) -> (S, Node<F>),
)
    requires
        ordered_update(&before, &after, init, end, f),
        forall|s: S, n: Node<F>, r: (S, Node<F>)| #[trigger] f.ensures((s, n), r) ==> r == g(s, n),
    ensures
        forall|x: int, y: int|
            has_cell(&before, x, y) ==> #[trigger] after.node(x, y) == g(
                state_before(before, g, init, x, y),
                before.node(x, y),
            ).1,
        end == state_before(before, g, init, before.nodes@.len() as int, 0),
{
    let states = choose|states: Seq<S>|
        {
            &&& visited_in_order(&before, &after, f, states)
            &&& states[0] == init
            &&& states[cell_count(&before)] == end
        };
    assert forall|x: int, y: int| has_cell(&before, x, y) implies #[trigger] after.node(x, y) == g(
        state_before(before, g, init, x, y),
        before.node(x, y),
    ).1 by {
        lemma_states_follow_the_order(before, after, f, states, g, x, y);
        let p = visit_position(&before, x, y);
        assert(f.ensures((states[p], before.node(x, y)), (states[p + 1], after.node(x, y))));
    }
    lemma_states_follow_the_order(before, after, f, states, g, before.nodes@.len() as int, 0);
    assert(visit_position(&before, before.nodes@.len() as int, 0) == cell_count(&before));
}

/// With a visitor that counts its calls, the state handed to a cell is its
/// row-major position.
proof fn lemma_counting_states<F, G: Fn(u64, Node<F>) -> (u64, Node<F>)>(
    before: Lattice<F>,
    after: Lattice<F>,
    f: G,
    states: Seq<u64>,
    x: int,
    y: int,
)
    requires
        visited_in_order(&before, &after, f, states),
        forall|s: u64, n: Node<F>, r: (u64, Node<F>)| #[trigger] f.ensures((s, n), r) ==> r.0 == s + 1,
        0 <= x <= before.nodes@.len(),
        x < before.nodes@.len() ==> 0 <= y <= before.nodes@[x]@.len(),
        x == before.nodes@.len() ==> y == 0,
    ensures
        states[visit_position(&before, x, y)] == states[0] + visit_position(&before, x, y),
    decreases x, y,
{
    if y > 0 {
        lemma_counting_states(before, after, f, states, x, y - 1);
        let p = visit_position(&before, x, y - 1);
        assert(has_cell(&before, x, y - 1));
        assert(f.ensures(
            (states[p], before.node(x, y - 1)),
            (states[p + 1], after.node(x, y - 1)),
        ));
    } else if x > 0 {
        lemma_counting_states(before, after, f, states, x - 1, before.nodes@[x - 1]@.len() as int);
    }
}

/// The visit goes in row-major order: with a visitor that counts its calls
/// (each call returns the state it was handed plus one), the call made on
/// cell `(x, y)` is handed `init` plus the number of cells in the rows before
/// row `x` plus `y`, and the visit ends with `init` plus the number of cells.
pub proof fn lemma_ordered_update_counts_in_row_major_order<F, G: Fn(u64, Node<F>) -> (u64, Node<F>)>(
    before: Lattice<F>,
    after: Lattice<F>,
    init: u64,
    end: u64,
    f: G,
)
    requires
        ordered_update(&before, &after, init, end, f),
        forall|s: u64, n: Node<F>, r: (u64, Node<F>)| #[trigger] f.ensures((s, n), r) ==> r.0 == s + 1,
    ensures
        forall|x: int, y: int|
            has_cell(&before, x, y) ==> f.ensures(
                ((init + cells_before(&before, x) + y) as u64, before.node(x, y)),
                ((init + cells_before(&before, x) + y + 1) as u64, #[trigger] after.node(x, y)),
            ),
        end == init + cell_count(&before),
{
    let states = choose|states: Seq<u64>|
        {
            &&& visited_in_order(&before, &after, f, states)
            &&& states[0] == init
            &&& states[cell_count(&before)] == end
        };
    assert forall|x: int, y: int| has_cell(&before, x, y) implies f.ensures(
        ((init + cells_before(&before, x) + y) as u64, before.node(x, y)),
        ((init + cells_before(&before, x) + y + 1) as u64, #[trigger] after.node(x, y)),
    ) by {
        lemma_counting_states(before, after, f, states, x, y);
        lemma_counting_states(before, after, f, states, x, y + 1);
        let p = visit_position(&before, x, y);
        assert(f.ensures((states[p], before.node(x, y)), (states[p + 1], after.node(x, y))));
    }
    lemma_counting_states(before, after, f, states, before.nodes@.len() as int, 0);
}

} // verus!
