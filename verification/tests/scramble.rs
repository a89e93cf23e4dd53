use tracii::color::Color;
use tracii::image_util::{compose_grid, pane_scramble, random_order};
use tracii::pixmap::Pixmap;

fn rgb(r: u8, g: u8, b: u8) -> Color {
    Color { r, g, b }
}

const BG: Color = Color { r: 0, g: 0, b: 0 };

#[test]
fn scramble_of_nothing_is_no_composite() {
    let tiles: Vec<Pixmap> = Vec::new();
    assert!(pane_scramble(&tiles, BG, 3, 2).is_none());
    assert!(pane_scramble(&tiles, BG, 0, 0).is_none());
}

#[test]
fn scramble_rejects_width_mismatch() {
    for _ in 0..20 {
        let tiles = vec![
            Pixmap::new(2, 2, rgb(1, 1, 1)),
            Pixmap::new(3, 2, rgb(2, 2, 2)),
            Pixmap::new(2, 2, rgb(3, 3, 3)),
        ];
        assert!(pane_scramble(&tiles, BG, 2, 2).is_none());
    }
}

#[test]
fn scramble_rejects_height_mismatch() {
    for _ in 0..20 {
        let tiles = vec![
            Pixmap::new(2, 2, rgb(1, 1, 1)),
            Pixmap::new(2, 2, rgb(2, 2, 2)),
            Pixmap::new(2, 5, rgb(3, 3, 3)),
        ];
        assert!(pane_scramble(&tiles, BG, 2, 2).is_none());
    }
}

#[test]
fn mismatch_outside_working_set_is_ignored() {
    // the grid holds 1 cell, so only the first tile is in the working set;
    // the ill-sized second tile is never fetched
    let tiles = vec![
        Pixmap::new(2, 2, rgb(1, 1, 1)),
        Pixmap::new(9, 9, rgb(2, 2, 2)),
    ];
    let canvas = pane_scramble(&tiles, BG, 1, 1).unwrap();
    assert_eq!(canvas.width, 2);
    assert_eq!(canvas.height, 2);
}

#[test]
fn single_tile_single_cell_is_identity() {
    let mut tile = Pixmap::new(2, 3, rgb(9, 9, 9));
    tile.set(0, 0, rgb(10, 20, 30));
    tile.set(1, 2, rgb(40, 50, 60));
    let expected = tile.data.clone();
    let tiles = vec![tile];
    let canvas = pane_scramble(&tiles, BG, 1, 1).unwrap();
    assert_eq!(canvas.width, 2);
    assert_eq!(canvas.height, 3);
    for y in 0..3 {
        for x in 0..2 {
            assert_eq!(canvas.get(x, y), expected[(y * 2 + x) as usize]);
        }
    }
}

#[test]
fn partial_working_set_leaves_background_cells() {
    // two 1x1 tiles in a 2x2 grid: cells are filled row-major, so the two
    // top cells hold the tiles (in some order) and the bottom row stays flat
    let a = rgb(100, 0, 0);
    let b = rgb(0, 100, 0);
    for _ in 0..50 {
        let tiles = vec![Pixmap::new(1, 1, a), Pixmap::new(1, 1, b)];
        let canvas = pane_scramble(&tiles, BG, 2, 2).unwrap();
        assert_eq!(canvas.width, 2);
        assert_eq!(canvas.height, 2);
        let top = [canvas.get(0, 0), canvas.get(1, 0)];
        assert!(top == [a, b] || top == [b, a], "top row {:?}", top);
        assert_eq!(canvas.get(0, 1), BG);
        assert_eq!(canvas.get(1, 1), BG);
    }
}

#[test]
fn full_grid_uses_each_working_tile_once() {
    let colors = [
        rgb(10, 0, 0),
        rgb(0, 10, 0),
        rgb(0, 0, 10),
        rgb(10, 10, 0),
    ];
    for _ in 0..50 {
        let tiles: Vec<Pixmap> = colors.iter().map(|&c| Pixmap::new(1, 1, c)).collect();
        let canvas = pane_scramble(&tiles, BG, 2, 2).unwrap();
        let mut seen: Vec<Color> = Vec::new();
        for y in 0..2 {
            for x in 0..2 {
                seen.push(canvas.get(x, y));
            }
        }
        for c in colors.iter() {
            assert_eq!(seen.iter().filter(|&s| s == c).count(), 1);
        }
    }
}

#[test]
fn excess_tiles_beyond_grid_are_dropped() {
    // five tiles for a 2x2 grid: only the first four form the working set
    let colors = [
        rgb(10, 0, 0),
        rgb(0, 10, 0),
        rgb(0, 0, 10),
        rgb(10, 10, 0),
        rgb(99, 99, 99),
    ];
    let mut fifth_seen = false;
    for _ in 0..50 {
        let tiles: Vec<Pixmap> = colors.iter().map(|&c| Pixmap::new(1, 1, c)).collect();
        let canvas = pane_scramble(&tiles, BG, 2, 2).unwrap();
        for y in 0..2 {
            for x in 0..2 {
                if canvas.get(x, y) == colors[4] {
                    fifth_seen = true;
                }
            }
        }
    }
    assert!(!fifth_seen);
}

#[test]
fn compose_grid_places_row_major() {
    let colors = [
        rgb(1, 0, 0),
        rgb(2, 0, 0),
        rgb(3, 0, 0),
        rgb(4, 0, 0),
        rgb(5, 0, 0),
        rgb(6, 0, 0),
    ];
    let tiles: Vec<Pixmap> = colors.iter().map(|&c| Pixmap::new(2, 2, c)).collect();
    let order: Vec<usize> = (0..6).collect();
    let canvas = compose_grid(&tiles, &order, BG, 3, 2).unwrap();
    assert_eq!(canvas.width, 6);
    assert_eq!(canvas.height, 4);
    // cell k sits at column k % 3, row k / 3, each cell 2x2
    for k in 0..6u32 {
        let (col, row) = (k % 3, k / 3);
        for dy in 0..2 {
            for dx in 0..2 {
                assert_eq!(canvas.get(col * 2 + dx, row * 2 + dy), colors[k as usize]);
            }
        }
    }
}

#[test]
fn compose_grid_follows_given_order() {
    let colors = [rgb(1, 0, 0), rgb(2, 0, 0), rgb(3, 0, 0)];
    let tiles: Vec<Pixmap> = colors.iter().map(|&c| Pixmap::new(1, 1, c)).collect();
    let order: Vec<usize> = vec![2, 0, 1];
    let canvas = compose_grid(&tiles, &order, BG, 3, 1).unwrap();
    assert_eq!(canvas.get(0, 0), colors[2]);
    assert_eq!(canvas.get(1, 0), colors[0]);
    assert_eq!(canvas.get(2, 0), colors[1]);
}

#[test]
fn random_order_is_a_permutation() {
    for n in [0usize, 1, 2, 7, 100] {
        let mut order = random_order(n);
        order.sort();
        let identity: Vec<usize> = (0..n).collect();
        assert_eq!(order, identity);
    }
}

#[test]
fn shuffle_hits_each_slot_with_uniform_frequency() {
    // three distinct tiles in a 3x1 grid: over many trials every tile should
    // land in every slot about a third of the time; a draw that never picks
    // the last index would show up as a strong skew here
    let colors = [rgb(10, 0, 0), rgb(0, 10, 0), rgb(0, 0, 10)];
    let trials = 3000;
    let mut counts = [[0u32; 3]; 3];
    for _ in 0..trials {
        let tiles: Vec<Pixmap> = colors.iter().map(|&c| Pixmap::new(1, 1, c)).collect();
        let canvas = pane_scramble(&tiles, BG, 3, 1).unwrap();
        for slot in 0..3 {
            let c = canvas.get(slot as u32, 0);
            let tile = colors.iter().position(|&t| t == c).unwrap();
            counts[slot][tile] += 1;
        }
    }
    for slot in 0..3 {
        for tile in 0..3 {
            let c = counts[slot][tile];
            assert!(
                (700..=1300).contains(&c),
                "tile {} in slot {} occurred {} times over {} trials",
                tile,
                slot,
                c,
                trials
            );
        }
    }
}
