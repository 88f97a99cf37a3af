//! Tests of the rendering-side helpers: the palette generator, the color
//! distance, and the greedy nearest-color flood-fill canvas.

use wavetile::canvas::{colorize, Canvas};
use wavetile::colors::{dist, gen_colors};

#[test]
fn gen_colors_empty() {
    assert!(gen_colors(0).is_empty());
}

#[test]
fn gen_colors_single() {
    assert_eq!(gen_colors(1), vec![(255, 255, 255)]);
}

#[test]
fn gen_colors_exact_small_palette() {
    // n = 8 gives two steps per channel: 127 and 255, red varying fastest
    let colors = gen_colors(8);
    assert_eq!(colors.len(), 8);
    assert_eq!(colors[0], (127, 127, 127));
    assert_eq!(colors[1], (255, 127, 127));
    assert_eq!(colors[2], (127, 255, 127));
    assert_eq!(colors[7], (255, 255, 255));
}

#[test]
fn gen_colors_distinct() {
    let colors = gen_colors(300);
    assert_eq!(colors.len(), 300);
    assert_eq!(colors[0], (36, 36, 36));
    let mut sorted = colors.clone();
    sorted.sort();
    sorted.dedup();
    assert_eq!(sorted.len(), 300);
}

#[test]
fn dist_exact_values() {
    assert_eq!(dist(&[0, 0, 0], &[1, 2, 3]), 14);
    assert_eq!(dist(&[5, 1, 9], &[2, 1, 3]), 45);
    assert_eq!(dist(&[7, 7, 7], &[7, 7, 7]), 0);
    assert_eq!(dist(&[0, 0, 0], &[255, 255, 255]), 3 * 255 * 255);
}

#[test]
fn dist_is_symmetric() {
    assert_eq!(dist(&[10, 200, 30], &[90, 2, 55]), dist(&[90, 2, 55], &[10, 200, 30]));
}

#[test]
fn canvas_basics() {
    let mut canvas = Canvas::new(3, 2);
    assert_eq!(canvas.max_x, 3);
    assert_eq!(canvas.max_y, 2);
    assert_eq!(canvas.pixels.len(), 6);
    assert!(canvas.pixels.iter().all(|p| *p == [0, 0, 0]));
    canvas.put((2, 1), [9, 8, 7]);
    assert_eq!(canvas.pixels[1 * 3 + 2], [9, 8, 7]);
    assert_eq!(canvas.neighbours((0, 0)), vec![(1, 0), (0, 1)]);
    assert_eq!(canvas.neighbours((1, 0)), vec![(0, 0), (2, 0), (1, 1)]);
}

#[test]
fn colorize_spreads_nearest_colors() {
    // palette for four pixels: two steps per channel
    let palette: Vec<[u8; 3]> = gen_colors(4).into_iter().map(|(r, g, b)| [r, g, b]).collect();
    let canvas = colorize(2, 2, palette, (0, 0));
    // the lexicographically smallest color lands on the start pixel; each
    // flooded pixel takes the unused color nearest to its source pixel's
    assert_eq!(canvas.pixels[0], [127, 127, 127]);
    assert_eq!(canvas.pixels[1], [127, 255, 127]);
    assert_eq!(canvas.pixels[2], [255, 127, 127]);
    assert_eq!(canvas.pixels[3], [255, 255, 127]);
}

#[test]
fn colorize_uses_each_color_once() {
    let palette: Vec<[u8; 3]> = gen_colors(12).into_iter().map(|(r, g, b)| [r, g, b]).collect();
    let canvas = colorize(4, 3, palette.clone(), (2, 1));
    let mut used: Vec<[u8; 3]> = canvas.pixels.clone();
    used.sort();
    used.dedup();
    assert_eq!(used.len(), 12);
    for p in canvas.pixels.iter() {
        assert!(palette.contains(p));
    }
}
