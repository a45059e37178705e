use mosaicify::grid::{Cell, Grid, GridError};

#[test]
fn grid_geometry_discards_remainder() {
    let g = Grid::new(10, 7, 3, 2).unwrap();
    assert_eq!(g.block_width, 3);
    assert_eq!(g.block_height, 3);
    assert_eq!(g.canvas_width_exec(), 9);
    assert_eq!(g.canvas_height_exec(), 6);
}

#[test]
fn grid_zero_count_is_rejected() {
    assert_eq!(Grid::new(10, 10, 0, 2), Err(GridError::ZeroCount));
    assert_eq!(Grid::new(10, 10, 2, 0), Err(GridError::ZeroCount));
}

#[test]
fn grid_zero_block_is_rejected() {
    assert_eq!(Grid::new(3, 10, 4, 2), Err(GridError::ZeroBlock));
    assert_eq!(Grid::new(10, 1, 2, 2), Err(GridError::ZeroBlock));
}

#[test]
fn cell_list_is_row_major() {
    let g = Grid::new(6, 4, 3, 2).unwrap();
    let cells = g.cell_list();
    let expected = vec![
        Cell { y: 0, x: 0 },
        Cell { y: 0, x: 1 },
        Cell { y: 0, x: 2 },
        Cell { y: 1, x: 0 },
        Cell { y: 1, x: 1 },
        Cell { y: 1, x: 2 },
    ];
    assert_eq!(cells, expected);
}

#[test]
fn traversal_visits_each_cell_once() {
    let g = Grid::new(40, 30, 5, 3).unwrap();
    let mut order: Vec<(u32, u32)> = g.traversal_order().iter().map(|c| (c.y, c.x)).collect();
    assert_eq!(order.len(), 15);
    order.sort();
    let mut expected = Vec::new();
    for y in 0..3 {
        for x in 0..5 {
            expected.push((y, x));
        }
    }
    assert_eq!(order, expected);
}

#[test]
fn cells_tile_the_canvas() {
    let g = Grid::new(7, 5, 3, 2).unwrap();
    let (bw, bh) = (g.block_width, g.block_height);
    let mut hits = vec![0u32; (g.canvas_width_exec() * g.canvas_height_exec()) as usize];
    for c in g.cell_list() {
        for py in c.y * bh..(c.y + 1) * bh {
            for px in c.x * bw..(c.x + 1) * bw {
                hits[(py * g.canvas_width_exec() + px) as usize] += 1;
            }
        }
    }
    assert!(hits.iter().all(|&h| h == 1));
}
