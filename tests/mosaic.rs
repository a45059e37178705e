use mosaicify::features::{crop, distance_exec, feature_map, ColorSpace};
use mosaicify::grid::{Cell, Grid, GridError};
use mosaicify::mosaic::{
    build_library, choose_tile, compose, mosaic, prepare_tile, select_best, MosaicError,
};
use mosaicify::raster::Image;
use std::collections::BTreeSet;

const RED: [u8; 3] = [255, 0, 0];
const GREEN: [u8; 3] = [0, 255, 0];
const BLUE: [u8; 3] = [0, 0, 255];
const WHITE: [u8; 3] = [255, 255, 255];

fn uniform(width: u32, height: u32, rgb: [u8; 3]) -> Image {
    let mut pixels = Vec::new();
    for _ in 0..width * height {
        pixels.extend_from_slice(&rgb);
    }
    Image { width, height, pixels }
}

/// A 4 by 4 image whose 2 by 2 quadrants are red, green, blue and white.
fn quadrants() -> Image {
    let colors = [RED, GREEN, BLUE, WHITE];
    let mut pixels = Vec::new();
    for y in 0..4u32 {
        for x in 0..4u32 {
            let q = (y / 2) * 2 + x / 2;
            pixels.extend_from_slice(&colors[q as usize]);
        }
    }
    Image { width: 4, height: 4, pixels }
}

#[test]
fn select_best_takes_least_score() {
    let used = BTreeSet::new();
    assert_eq!(select_best(&vec![5, 3, 9], &used, false), Some(1));
}

#[test]
fn select_best_breaks_ties_by_lowest_index() {
    let used = BTreeSet::new();
    assert_eq!(select_best(&vec![4, 2, 2, 7], &used, true), Some(1));
}

#[test]
fn select_best_skips_used_tiles_when_avoiding() {
    let mut used = BTreeSet::new();
    used.insert(1usize);
    assert_eq!(select_best(&vec![5, 3, 9], &used, true), Some(0));
    assert_eq!(select_best(&vec![5, 3, 9], &used, false), Some(1));
}

#[test]
fn select_best_none_when_all_used() {
    let mut used = BTreeSet::new();
    used.insert(0usize);
    used.insert(1usize);
    assert_eq!(select_best(&vec![5, 3], &used, true), None);
    assert_eq!(select_best(&vec![], &BTreeSet::new(), false), None);
}

#[test]
fn tiles_are_resized_to_the_block() {
    let sources = vec![uniform(7, 3, RED), uniform(1, 1, GREEN), uniform(2, 5, BLUE)];
    let tiles = build_library(&sources, 2, 3, ColorSpace::Rgb);
    assert_eq!(tiles.len(), 3);
    for t in &tiles {
        assert_eq!((t.image.width, t.image.height), (2, 3));
        assert_eq!(t.image.pixels.len(), 18);
        assert_eq!((t.features.width, t.features.height, t.features.arity), (2, 3, 3));
    }
}

#[test]
fn resize_changes_the_size() {
    let img = uniform(4, 2, GREEN);
    let r = img.resized(2, 1);
    assert_eq!((r.width, r.height), (2, 1));
    assert_eq!(r.pixels.len(), 6);
    let t = prepare_tile(&img, 1, 1, ColorSpace::Gray);
    assert_eq!(t.features.values.len(), 1);
}

#[test]
fn paste_overwrites_only_the_rectangle() {
    let mut canvas = uniform(3, 2, [0, 0, 0]);
    let tile = uniform(1, 2, WHITE);
    canvas.paste(&tile, 1, 0);
    let mut expected = Vec::new();
    for _ in 0..2 {
        expected.extend_from_slice(&[0, 0, 0]);
        expected.extend_from_slice(&WHITE);
        expected.extend_from_slice(&[0, 0, 0]);
    }
    assert_eq!(canvas.pixels, expected);
}

#[test]
fn uniform_quadrants_get_their_own_colour() {
    for cs in [ColorSpace::Rgb, ColorSpace::Lab, ColorSpace::Gray] {
        for avoid in [false, true] {
            let target = quadrants();
            let g = Grid::new(4, 4, 2, 2).unwrap();
            let sources = vec![uniform(2, 2, WHITE), uniform(2, 2, BLUE), uniform(2, 2, RED), uniform(2, 2, GREEN)];
            let tiles = build_library(&sources, 2, 2, cs);
            let fm = feature_map(&target, cs);
            let order = g.cell_list();
            let mut canvas = target.clone();
            let picks = compose(&mut canvas, &fm, &g, &tiles, &order, avoid);
            assert_eq!(picks, vec![2, 3, 1, 0]);
            for (c, &p) in order.iter().zip(&picks) {
                let block = crop(&fm, c.x * 2, c.y * 2, 2, 2);
                assert_eq!(distance_exec(&block, &tiles[p].features), 0);
            }
            assert_eq!(canvas.pixels, target.pixels);
        }
    }
}

#[test]
fn uniform_quadrants_through_mosaic() {
    let target = quadrants();
    let sources = vec![uniform(2, 2, RED), uniform(2, 2, GREEN), uniform(2, 2, BLUE), uniform(2, 2, WHITE)];
    for cs in [ColorSpace::Rgb, ColorSpace::Lab, ColorSpace::Gray] {
        let out = mosaic(&target, 2, 2, &sources, cs, true).unwrap();
        assert_eq!((out.width, out.height), (4, 4));
        assert_eq!(out.pixels, target.pixels);
    }
}

#[test]
fn single_tile_library_resets_before_second_cell() {
    let tiles = build_library(&vec![uniform(1, 1, RED)], 1, 1, ColorSpace::Rgb);
    let block = feature_map(&uniform(1, 1, BLUE), ColorSpace::Rgb);
    let mut used = BTreeSet::new();
    assert_eq!(choose_tile(&block, &tiles, &mut used, true), 0);
    assert_eq!(used.len(), 1);
    assert_eq!(choose_tile(&block, &tiles, &mut used, true), 0);
    assert_eq!(used.len(), 1);
    assert!(used.contains(&0));
}

#[test]
fn single_tile_library_fills_both_cells() {
    let target = uniform(2, 1, BLUE);
    let g = Grid::new(2, 1, 2, 1).unwrap();
    let tiles = build_library(&vec![uniform(1, 1, RED)], 1, 1, ColorSpace::Rgb);
    let fm = feature_map(&target, ColorSpace::Rgb);
    let mut canvas = target.clone();
    let order = vec![Cell { y: 0, x: 1 }, Cell { y: 0, x: 0 }];
    let picks = compose(&mut canvas, &fm, &g, &tiles, &order, true);
    assert_eq!(picks, vec![0, 0]);
    assert_eq!(canvas.pixels, vec![255, 0, 0, 255, 0, 0]);
}

#[test]
fn avoiding_duplicates_spreads_the_library() {
    let target = uniform(3, 1, RED);
    let g = Grid::new(3, 1, 3, 1).unwrap();
    let sources = vec![uniform(1, 1, [250, 0, 0]), uniform(1, 1, [0, 0, 0]), uniform(1, 1, [200, 0, 0])];
    let tiles = build_library(&sources, 1, 1, ColorSpace::Rgb);
    let fm = feature_map(&target, ColorSpace::Rgb);
    let order = g.cell_list();
    let mut canvas = target.clone();
    assert_eq!(compose(&mut canvas, &fm, &g, &tiles, &order, true), vec![0, 2, 1]);
    let mut canvas = target.clone();
    assert_eq!(compose(&mut canvas, &fm, &g, &tiles, &order, false), vec![0, 0, 0]);
}

#[test]
fn mosaic_rejects_bad_grids_and_empty_libraries() {
    let target = uniform(4, 4, RED);
    let sources = vec![uniform(1, 1, RED)];
    assert_eq!(
        mosaic(&target, 0, 2, &sources, ColorSpace::Lab, false).err(),
        Some(MosaicError::Grid(GridError::ZeroCount))
    );
    assert_eq!(
        mosaic(&target, 5, 2, &sources, ColorSpace::Lab, false).err(),
        Some(MosaicError::Grid(GridError::ZeroBlock))
    );
    assert_eq!(
        mosaic(&target, 2, 2, &vec![], ColorSpace::Lab, false).err(),
        Some(MosaicError::EmptyLibrary)
    );
}

#[test]
fn mosaic_output_is_the_truncated_canvas() {
    let target = uniform(7, 5, GREEN);
    let out = mosaic(&target, 3, 2, &vec![uniform(2, 2, GREEN)], ColorSpace::Gray, false).unwrap();
    assert_eq!((out.width, out.height), (6, 4));
    assert_eq!(out.pixels.len(), 6 * 4 * 3);
}
