use nyx::color::Rgba;
use nyx::config::ConfigError;
use nyx::maze::{create_maze_map, create_maze_texture, create_maze_texture_eroded, Cell, MazeGrid};
use nyx::rng::Prng;

fn white() -> Rgba {
    Rgba::new(255, 255, 255, 255)
}

fn black() -> Rgba {
    Rgba::new(0, 0, 0, 255)
}

fn is_floor(g: &MazeGrid, x: usize, y: usize) -> bool {
    g.get_cell(x, y) == Cell::Floor
}

/// Flood fill over floor cells from the start, returning how many floor
/// cells were reached.
fn flood_fill_count(g: &MazeGrid, sx: usize, sy: usize) -> usize {
    let n = g.size;
    let mut seen = vec![false; n * n];
    let mut stack = vec![(sx, sy)];
    seen[sy * n + sx] = true;
    let mut count = 0usize;
    while let Some((x, y)) = stack.pop() {
        count += 1;
        let mut neighbors: Vec<(usize, usize)> = Vec::new();
        if x > 0 {
            neighbors.push((x - 1, y));
        }
        if x + 1 < n {
            neighbors.push((x + 1, y));
        }
        if y > 0 {
            neighbors.push((x, y - 1));
        }
        if y + 1 < n {
            neighbors.push((x, y + 1));
        }
        for (qx, qy) in neighbors {
            if !seen[qy * n + qx] && is_floor(g, qx, qy) {
                seen[qy * n + qx] = true;
                stack.push((qx, qy));
            }
        }
    }
    count
}

fn floor_count(g: &MazeGrid) -> usize {
    let mut count = 0usize;
    for x in 0..g.size {
        for y in 0..g.size {
            if is_floor(g, x, y) {
                count += 1;
            }
        }
    }
    count
}

/// Unordered adjacent floor pairs, each counted once at its left or upper
/// end.
fn edge_count(g: &MazeGrid) -> usize {
    let n = g.size;
    let mut count = 0usize;
    for x in 0..n {
        for y in 0..n {
            if is_floor(g, x, y) {
                if x + 1 < n && is_floor(g, x + 1, y) {
                    count += 1;
                }
                if y + 1 < n && is_floor(g, x, y + 1) {
                    count += 1;
                }
            }
        }
    }
    count
}

#[test]
fn maze_start_cell_is_floor() {
    let mut rng = Prng::from_seed(7);
    let g = create_maze_map(21, 11, 11, &mut rng).unwrap();
    assert!(is_floor(&g, 11, 11));
}

#[test]
fn maze_flood_fill_reaches_every_floor_cell() {
    // P6: a flood fill from the start reaches every floor cell.
    let mut rng = Prng::from_seed(42);
    let g = create_maze_map(21, 11, 11, &mut rng).unwrap();
    let reached = flood_fill_count(&g, 11, 11);
    assert_eq!(reached, floor_count(&g));
}

#[test]
fn maze_floor_graph_is_a_tree() {
    // P6: no cycles — the floor adjacency graph has exactly one edge fewer
    // than it has floor cells.
    for seed in [1u64, 9, 1234] {
        let mut rng = Prng::from_seed(seed);
        let g = create_maze_map(15, 7, 7, &mut rng).unwrap();
        assert_eq!(edge_count(&g) + 1, floor_count(&g), "seed {}", seed);
    }
}

#[test]
fn maze_covers_every_logical_cell() {
    // Depth-first carving visits the whole interior: every odd-odd cell
    // ends up floor.
    let mut rng = Prng::from_seed(3);
    let g = create_maze_map(11, 5, 5, &mut rng).unwrap();
    for x in 0..11usize {
        for y in 0..11usize {
            if x % 2 == 1 && y % 2 == 1 && x <= 9 && y <= 9 {
                assert!(is_floor(&g, x, y), "logical cell ({}, {})", x, y);
            }
        }
    }
}

#[test]
fn maze_border_and_even_cells_stay_wall() {
    let mut rng = Prng::from_seed(5);
    let g = create_maze_map(13, 5, 7, &mut rng).unwrap();
    for i in 0..13usize {
        assert_eq!(g.get_cell(i, 0), Cell::Wall);
        assert_eq!(g.get_cell(i, 12), Cell::Wall);
        assert_eq!(g.get_cell(0, i), Cell::Wall);
        assert_eq!(g.get_cell(12, i), Cell::Wall);
    }
    for x in 0..13usize {
        for y in 0..13usize {
            if x % 2 == 0 && y % 2 == 0 {
                assert_eq!(g.get_cell(x, y), Cell::Wall, "even-even cell ({}, {})", x, y);
            }
        }
    }
}

#[test]
fn maze_same_seed_gives_identical_grid() {
    // P7: the same deterministic random source gives the same maze.
    let mut rng1 = Prng::from_seed(987654321);
    let mut rng2 = Prng::from_seed(987654321);
    let a = create_maze_map(21, 11, 11, &mut rng1).unwrap();
    let b = create_maze_map(21, 11, 11, &mut rng2).unwrap();
    assert_eq!(a.size, b.size);
    assert_eq!(a.cells, b.cells);
}

#[test]
fn maze_rejects_even_size() {
    let mut rng = Prng::from_seed(1);
    assert_eq!(create_maze_map(10, 1, 1, &mut rng).unwrap_err(), ConfigError::MazeSizeNotOdd);
}

#[test]
fn maze_rejects_too_small_size() {
    let mut rng = Prng::from_seed(1);
    assert_eq!(create_maze_map(1, 1, 1, &mut rng).unwrap_err(), ConfigError::MazeSizeTooSmall);
}

#[test]
fn maze_rejects_start_outside_interior() {
    let mut rng = Prng::from_seed(1);
    assert_eq!(create_maze_map(9, 0, 1, &mut rng).unwrap_err(),
        ConfigError::MazeStartOutOfRange);
    assert_eq!(create_maze_map(9, 1, 8, &mut rng).unwrap_err(),
        ConfigError::MazeStartOutOfRange);
}

#[test]
fn maze_rejects_even_start_coordinates() {
    let mut rng = Prng::from_seed(1);
    assert_eq!(create_maze_map(9, 2, 1, &mut rng).unwrap_err(), ConfigError::MazeStartNotOdd);
    assert_eq!(create_maze_map(9, 1, 4, &mut rng).unwrap_err(), ConfigError::MazeStartNotOdd);
}

#[test]
fn smallest_maze_is_single_open_cell() {
    let mut rng = Prng::from_seed(1);
    let g = create_maze_map(3, 1, 1, &mut rng).unwrap();
    assert_eq!(floor_count(&g), 1);
    assert!(is_floor(&g, 1, 1));
}

/// What the texture formula says pixel `(px, py)` must hold.
fn expected_texture_pixel(g: &MazeGrid, tile: usize, wall: Rgba, floor: Rgba,
    px: usize, py: usize) -> Rgba {
    let n = g.size;
    let cx = px / tile;
    let cy = py / tile;
    let tx = px % tile;
    let ty = py % tile;
    if g.get_cell(cx, cy) == Cell::Wall {
        return wall;
    }
    let wallish = |x: isize, y: isize| -> bool {
        if x < 0 || y < 0 || x as usize >= n || y as usize >= n {
            true
        } else {
            g.get_cell(x as usize, y as usize) == Cell::Wall
        }
    };
    let inside = tx > 0 && tx < tile - 1 && ty > 0 && ty < tile - 1;
    let border = inside
        && ((tx == 1 && wallish(cx as isize - 1, cy as isize))
            || (tx == tile - 2 && wallish(cx as isize + 1, cy as isize))
            || (ty == 1 && wallish(cx as isize, cy as isize - 1))
            || (ty == tile - 2 && wallish(cx as isize, cy as isize + 1)));
    if border { wall } else { floor }
}

#[test]
fn texture_expands_cells_to_tiles() {
    let mut rng = Prng::from_seed(11);
    let g = create_maze_map(7, 3, 3, &mut rng).unwrap();
    let tile = 5usize;
    let img = create_maze_texture(&g, tile, white(), black());
    assert_eq!(img.width, 7 * tile);
    assert_eq!(img.height, 7 * tile);
    for px in 0..img.width {
        for py in 0..img.height {
            assert_eq!(
                img.get_pixel(px, py),
                expected_texture_pixel(&g, tile, white(), black(), px, py),
                "pixel ({}, {})",
                px,
                py
            );
        }
    }
}

#[test]
fn texture_wall_cells_fill_solid() {
    let mut rng = Prng::from_seed(2);
    let g = create_maze_map(5, 1, 1, &mut rng).unwrap();
    let tile = 4usize;
    let img = create_maze_texture(&g, tile, white(), black());
    // The corner cell (0,0) is always wall: its whole tile is wall-colored.
    for tx in 0..tile {
        for ty in 0..tile {
            assert_eq!(img.get_pixel(tx, ty), white());
        }
    }
}

#[test]
fn texture_floor_tile_interior_is_open() {
    let mut rng = Prng::from_seed(2);
    let g = create_maze_map(5, 1, 1, &mut rng).unwrap();
    let tile = 6usize;
    let img = create_maze_texture(&g, tile, white(), black());
    // The start cell (1,1) is floor; the center of its tile is floor-colored
    // and its outermost ring belongs to the open corridor as well.
    assert!(is_floor(&g, 1, 1));
    let base = tile;
    assert_eq!(img.get_pixel(base + 3, base + 3), black());
    assert_eq!(img.get_pixel(base, base), black());
}

#[test]
fn eroded_texture_keeps_floor_tiles_exact() {
    let mut rng = Prng::from_seed(21);
    let g = create_maze_map(7, 3, 3, &mut rng).unwrap();
    let tile = 5usize;
    let plain = create_maze_texture(&g, tile, white(), black());
    let mut erng = Prng::from_seed(99);
    let eroded = create_maze_texture_eroded(&g, tile, white(), black(), 4, &mut erng);
    for px in 0..eroded.width {
        for py in 0..eroded.height {
            let cell = g.get_cell(px / tile, py / tile);
            let got = eroded.get_pixel(px, py);
            if cell == Cell::Wall {
                assert!(got == white() || got == black(), "pixel ({}, {})", px, py);
            } else {
                assert_eq!(got, plain.get_pixel(px, py), "pixel ({}, {})", px, py);
            }
        }
    }
}

#[test]
fn eroded_texture_with_unit_chance_erases_every_wall_pixel() {
    // With erosion chance one-in-one every wall-cell pixel is skipped.
    let mut rng = Prng::from_seed(21);
    let g = create_maze_map(5, 1, 3, &mut rng).unwrap();
    let tile = 3usize;
    let mut erng = Prng::from_seed(5);
    let eroded = create_maze_texture_eroded(&g, tile, white(), black(), 1, &mut erng);
    for px in 0..eroded.width {
        for py in 0..eroded.height {
            if g.get_cell(px / tile, py / tile) == Cell::Wall {
                assert_eq!(eroded.get_pixel(px, py), black());
            }
        }
    }
}

#[test]
fn prng_draws_are_deterministic_and_bounded() {
    let mut a = Prng::from_seed(1234);
    let mut b = Prng::from_seed(1234);
    for n in 1..50u64 {
        let x = a.next_below(n);
        let y = b.next_below(n);
        assert_eq!(x, y);
        assert!(x < n);
    }
}
