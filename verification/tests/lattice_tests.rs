use lattice_boltzmann::consts::{cursor_cell, SCALE_X, SCALE_Y, U_X, U_Y, X, Y};
use lattice_boltzmann::direction::{opposite_dir, Q};
use lattice_boltzmann::lattice::{build_lattice, Lattice};
use lattice_boltzmann::node::Node;

fn node_with(base: u32) -> Node<u32> {
    let mut micro_vel = [0u32; 9];
    for d in 0..9 {
        micro_vel[d] = base + d as u32;
    }
    Node {
        micro_vel,
        macro_vel: [base + 100, base + 101],
        micro_den: [base + 200; 9],
        macro_den: base + 300,
        eq_dist: [base + 400; 9],
    }
}

/// A lattice whose every microscopic velocity is distinct: row, column and
/// direction are encoded in the value.
fn numbered_lattice() -> Lattice<u32> {
    let mut l = build_lattice(node_with(0), 7, 11);
    for x in 0..U_Y {
        for y in 0..U_X {
            l.nodes[x][y] = node_with((x as u32) * 100_000 + (y as u32) * 1_000);
        }
    }
    l
}

const OPPOSITE: [usize; 9] = [0, 3, 4, 1, 2, 7, 8, 5, 6];

#[test]
fn constants_describe_a_32_by_32_grid_drawn_at_8_pixels_per_cell() {
    assert_eq!(U_X, 32);
    assert_eq!(U_Y, 32);
    assert_eq!(X, 32);
    assert_eq!(Y, 32);
    assert_eq!(SCALE_X, 8);
    assert_eq!(SCALE_Y, 8);
}

#[test]
fn opposite_directions() {
    for d in 0..Q {
        assert_eq!(opposite_dir(d), OPPOSITE[d]);
        assert_eq!(opposite_dir(opposite_dir(d)), d);
    }
}

#[test]
fn cursor_cell_divides_by_the_cell_size() {
    assert_eq!(cursor_cell(0, 0), (0, 0));
    assert_eq!(cursor_cell(7, 8), (0, 1));
    assert_eq!(cursor_cell(17, 255), (2, 31));
    assert_eq!(cursor_cell(255, 255), (31, 31));
    assert_eq!(cursor_cell(256, 3), (32, 0));
}

#[test]
fn cursor_cell_of_every_window_pixel_is_in_the_grid() {
    for c0 in 0..X * SCALE_X {
        for c1 in (0..Y * SCALE_Y).step_by(17) {
            let (i, j) = cursor_cell(c0, c1);
            assert!(i < U_Y && j < U_X);
        }
    }
}

#[test]
fn build_lattice_fills_the_grid_with_copies() {
    let l = build_lattice(node_with(5), 3, 4);
    assert_eq!(l.nodes.len(), U_Y);
    assert_eq!(l.c, 3);
    assert_eq!(l.tau, 4);
    for row in l.nodes.iter() {
        assert_eq!(row.len(), U_X);
        for n in row.iter() {
            assert_eq!(n.micro_vel, node_with(5).micro_vel);
            assert_eq!(n.macro_vel, [105, 106]);
            assert_eq!(n.micro_den, [205; 9]);
            assert_eq!(n.macro_den, 305);
            assert_eq!(n.eq_dist, [405; 9]);
        }
    }
}

/// Offsets, in (row, node) indices, of the neighbour in each direction.
const OFFSET: [(i64, i64); 9] =
    [(0, 0), (1, 0), (0, -1), (-1, 0), (0, 1), (1, -1), (-1, -1), (-1, 1), (1, 1)];

fn in_grid(x: i64, y: i64) -> bool {
    0 <= x && x < U_Y as i64 && 0 <= y && y < U_X as i64
}

#[test]
fn streaming_moves_each_velocity_one_node_along_its_direction() {
    let before = numbered_lattice();
    let mut after = numbered_lattice();
    after.streaming();
    assert_eq!(after.c, 7);
    assert_eq!(after.tau, 11);
    for x in 0..U_Y {
        for y in 0..U_X {
            let a = &after.nodes[x][y];
            let b = &before.nodes[x][y];
            for d in 0..Q {
                let (dx, dy) = OFFSET[d];
                let (sx, sy) = (x as i64 - dx, y as i64 - dy);
                let expected = if in_grid(sx, sy) {
                    before.nodes[sx as usize][sy as usize].micro_vel[d]
                } else {
                    b.micro_vel[OPPOSITE[d]]
                };
                assert_eq!(a.micro_vel[d], expected);
            }
            assert_eq!(a.macro_vel, b.macro_vel);
            assert_eq!(a.micro_den, b.micro_den);
            assert_eq!(a.macro_den, b.macro_den);
            assert_eq!(a.eq_dist, b.eq_dist);
        }
    }
}

#[test]
fn streaming_an_interior_node() {
    let template = Node {
        micro_vel: [0.5f32; 9],
        macro_vel: [0.0, 0.0],
        micro_den: [0.5; 9],
        macro_den: 0.0,
        eq_dist: [0.0; 9],
    };
    let mut l = build_lattice(template, 0.2f32, 1.0f32);
    l.nodes[1][1].micro_vel = [0., 1., 0.5, 3., 0.5, 0.5, 0.5, 0.5, 0.5];
    l.streaming();
    assert_eq!(l.nodes[2][1].micro_vel[1], 1.0);
    assert_eq!(l.nodes[0][1].micro_vel[3], 3.0);
    assert_eq!(l.nodes[1][1].micro_vel, [0., 0.5, 0.5, 0.5, 0.5, 0.5, 0.5, 0.5, 0.5]);
}

#[test]
fn streaming_bounces_back_at_the_walls() {
    let mut l = numbered_lattice();
    l.streaming();
    // At corner (0, 0) the values heading for rows or nodes before it come
    // back reversed; the others arrive from (0, 1), (1, 0) and (1, 1).
    assert_eq!(
        l.nodes[0][0].micro_vel,
        [0, 3, 1_002, 100_003, 2, 7, 101_006, 5, 6]
    );
}

#[test]
fn streaming_keeps_the_values_of_each_direction_pair() {
    let before = numbered_lattice();
    let mut l = numbered_lattice();
    l.streaming();
    for i in 0..Q {
        let collect = |lat: &Lattice<u32>| {
            let mut v: Vec<u32> = Vec::new();
            for row in lat.nodes.iter() {
                for n in row.iter() {
                    v.push(n.micro_vel[i]);
                    if OPPOSITE[i] != i {
                        v.push(n.micro_vel[OPPOSITE[i]]);
                    }
                }
            }
            v.sort();
            v
        };
        assert_eq!(collect(&l), collect(&before));
    }
}

#[test]
fn update_nodes_applies_the_function_to_every_node() {
    let mut l = numbered_lattice();
    l.update_nodes(|mut n: Node<u32>| {
        n.macro_den = n.micro_vel[0] + 1;
        n
    });
    assert_eq!(l.c, 7);
    assert_eq!(l.tau, 11);
    for x in 0..U_Y {
        for y in 0..U_X {
            let base = (x as u32) * 100_000 + (y as u32) * 1_000;
            assert_eq!(l.nodes[x][y].macro_den, base + 1);
            assert_eq!(l.nodes[x][y].micro_vel, node_with(base).micro_vel);
        }
    }
}

#[test]
fn update_nodes_visits_the_cells_in_row_major_order() {
    let mut l = build_lattice(node_with(0), 0, 0);
    let counter = std::cell::Cell::new(0u32);
    l.update_nodes(|mut n: Node<u32>| {
        n.macro_den = counter.get();
        counter.set(counter.get() + 1);
        n
    });
    assert_eq!(l.nodes[0][0].macro_den, 0);
    assert_eq!(l.nodes[0][1].macro_den, 1);
    assert_eq!(l.nodes[1][0].macro_den, 32);
    assert_eq!(l.nodes[31][31].macro_den, 1023);
}

#[test]
fn update_nodes_works_on_rows_of_any_length() {
    let mut l = build_lattice(node_with(0), 0, 0);
    l.nodes.truncate(3);
    l.nodes[1].truncate(5);
    l.nodes[2].clear();
    l.update_nodes(|mut n: Node<u32>| {
        n.macro_den += 1;
        n
    });
    assert_eq!(l.nodes.len(), 3);
    assert_eq!(l.nodes[0].len(), 32);
    assert_eq!(l.nodes[1].len(), 5);
    assert_eq!(l.nodes[2].len(), 0);
    assert!(l.nodes[0].iter().chain(l.nodes[1].iter()).all(|n| n.macro_den == 301));
}
