use conlife::{Grid, Object};

fn live_cells(g: &Grid) -> Vec<(usize, usize)> {
    let mut out = Vec::new();
    for x in 0..g.width {
        for y in 0..g.height {
            if g.cells[x][y].alive {
                out.push((x, y));
            }
        }
    }
    out
}

#[test]
fn block_is_stable_over_generations() {
    let mut g = Grid::new(20, 20);
    let block = Object::from_string("(0,0) (0,1) (1,0) (1,1)").unwrap();
    g.load_object(&block, (1, 1));
    let loaded = live_cells(&g);
    for _ in 0..5 {
        g.advance();
        assert_eq!(live_cells(&g), loaded);
    }
}

#[test]
fn isolated_cell_dies() {
    let mut g = Grid::new(8, 8);
    let dot = Object::from_string("(0,0)").unwrap();
    g.load_object(&dot, (3, 3));
    assert_eq!(live_cells(&g), vec![(3, 3)]);
    g.advance();
    assert_eq!(live_cells(&g).len(), 0);
}

#[test]
fn two_neighboring_cells_die() {
    let mut g = Grid::new(8, 8);
    let pair = Object::from_string("(0,0) (1,0)").unwrap();
    g.load_object(&pair, (3, 3));
    g.advance();
    assert_eq!(live_cells(&g).len(), 0);
}

#[test]
fn overpopulated_center_dies() {
    let mut g = Grid::new(10, 10);
    let plus = Object::from_string("(0,0) (-1,0) (1,0) (0,-1) (0,1)").unwrap();
    g.load_object(&plus, (5, 5));
    assert!(g.cells[5][5].alive);
    g.advance();
    assert!(!g.cells[5][5].alive);
    assert_eq!(
        live_cells(&g),
        vec![(4, 4), (4, 5), (4, 6), (5, 4), (5, 6), (6, 4), (6, 5), (6, 6)]
    );
}

#[test]
fn dead_cell_with_three_neighbors_is_born() {
    let mut g = Grid::new(10, 10);
    let blinker = Object::from_string("(0,0) (0,1) (0,2)").unwrap();
    g.load_object(&blinker, (5, 4));
    assert!(!g.cells[4][5].alive);
    assert!(!g.cells[6][5].alive);
    g.advance();
    assert!(g.cells[4][5].alive);
    assert!(g.cells[6][5].alive);
    assert_eq!(live_cells(&g), vec![(4, 5), (5, 5), (6, 5)]);
}

#[test]
fn blinker_has_period_two() {
    let mut g = Grid::new(10, 10);
    let blinker = Object::from_string("(0,0) (0,1) (0,2)").unwrap();
    g.load_object(&blinker, (5, 4));
    let vertical = live_cells(&g);
    g.advance();
    g.advance();
    assert_eq!(live_cells(&g), vertical);
}

#[test]
fn pentomino_and_blocks_first_generation() {
    let mut g = Grid::new(20, 20);
    let pentomino = Object::from_string("(1,0) (1,1) (1,2) (0,1) (2,0)").unwrap();
    let block = Object::from_string("(0,0) (0,1) (1,0) (1,1)").unwrap();
    g.load_object(&pentomino, (9, 10));
    g.load_object(&block, (1, 1));
    g.load_object(&block, (16, 16));
    g.advance();
    assert_eq!(
        live_cells(&g),
        vec![
            (1, 1),
            (1, 2),
            (2, 1),
            (2, 2),
            (9, 10),
            (9, 11),
            (9, 12),
            (10, 10),
            (10, 12),
            (11, 10),
            (16, 16),
            (16, 17),
            (17, 16),
            (17, 17)
        ]
    );
}

#[test]
fn glider_decays_at_edge_instead_of_wrapping() {
    let mut g = Grid::new(14, 14);
    let glider = Object::from_string("(1,0) (2,1) (0,2) (1,2) (2,2)").unwrap();
    g.load_object(&glider, (9, 9));
    assert_eq!(live_cells(&g).len(), 5);
    for _ in 0..8 {
        g.advance();
    }
    // Still a glider, one cell from the corner.
    assert_eq!(
        live_cells(&g),
        vec![(11, 13), (12, 11), (12, 13), (13, 12), (13, 13)]
    );
    for _ in 0..4 {
        g.advance();
    }
    // It has lost the cells that depended on now-absent neighbors beyond
    // the boundary and settled into a block; a wrapping grid would still
    // carry five traveling cells.
    let settled = live_cells(&g);
    assert_eq!(settled, vec![(12, 12), (12, 13), (13, 12), (13, 13)]);
    for _ in 0..6 {
        g.advance();
    }
    assert_eq!(live_cells(&g), settled);
}
