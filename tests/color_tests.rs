use grid_overlay::color::{block_pixels, blend_pixels, render_overlay, to_color, Rgba};
use grid_overlay::grid::{Grid, GridError, GridInfo, IndexVariant};

fn px(r: u8, g: u8, b: u8, a: u8) -> Rgba {
    Rgba { r, g, b, a }
}

#[test]
fn to_color_values() {
    assert_eq!(to_color(0), px(234, 69, 115, 128));
    assert_eq!(to_color(1), px(64, 25, 171, 128));
    assert_eq!(to_color(7), px(106, 121, 21, 128));
    assert_eq!(to_color(200), px(169, 194, 205, 128));
    assert_eq!(to_color(255), px(234, 69, 115, 128));
}

#[test]
fn blend_values() {
    assert_eq!(blend_pixels(&to_color(1), &px(10, 20, 30, 255)), px(37, 22, 100, 255));
    assert_eq!(blend_pixels(&px(255, 255, 255, 255), &px(255, 255, 255, 255)), px(255, 255, 255, 255));
    assert_eq!(blend_pixels(&px(100, 50, 25, 0), &px(200, 100, 50, 0)), px(0, 0, 0, 128));
    assert_eq!(blend_pixels(&to_color(7), &px(0, 0, 0, 0)), px(106, 121, 21, 128));
}

fn checker_grid() -> Grid {
    let mut block = [[0u8; 8]; 8];
    for r in 0..8 {
        for c in 0..8 {
            block[r][c] = ((r + c) % 2) as u8;
        }
    }
    Grid {
        info: GridInfo { width: 1, height: 1, c: vec![0] },
        segment1: vec![0; 4],
        segment2: vec![0; 4],
        segment3: vec![0; 4],
        indices: vec![0; 4],
        blocks: vec![block],
        variant: IndexVariant::Segment,
    }
}

#[test]
fn overlay_blends_nonzero_values_only() {
    let g = checker_grid();
    let base_px = px(10, 20, 30, 255);
    let base = vec![vec![base_px; 130]; 129];
    let out = render_overlay(&g, &base).unwrap();
    assert_eq!(out.len(), 129);
    let blended = px(37, 22, 100, 255);
    assert_eq!(out[0][0], base_px);
    assert_eq!(out[0][1], blended);
    assert_eq!(out[1][0], blended);
    assert_eq!(out[127][126], blended);
    assert_eq!(out[127][127], base_px);
    assert_eq!(out[0][128], base_px);
    assert_eq!(out[0][129], base_px);
    assert_eq!(out[128][1], base_px);
    assert!(out.iter().all(|row| row.len() == 130));
}

#[test]
fn overlay_needs_image_to_hold_grid() {
    let g = checker_grid();
    let short_rows = vec![vec![px(0, 0, 0, 0); 128]; 127];
    assert_eq!(render_overlay(&g, &short_rows), Err(GridError::IndexOutOfRange));
    let narrow = vec![vec![px(0, 0, 0, 0); 127]; 128];
    assert_eq!(render_overlay(&g, &narrow), Err(GridError::IndexOutOfRange));
}

#[test]
fn overlay_fails_on_unresolvable_pixel() {
    let mut g = checker_grid();
    g.indices = vec![0, 0, 0, 9];
    let base = vec![vec![px(0, 0, 0, 0); 128]; 128];
    assert_eq!(render_overlay(&g, &base), Err(GridError::IndexOutOfRange));
}

#[test]
fn block_image_colors_nonzero_values() {
    let mut block = [[0u8; 8]; 8];
    block[2][5] = 7;
    block[7][0] = 1;
    let img = block_pixels(&block);
    assert_eq!(img.len(), 8);
    assert!(img.iter().all(|row| row.len() == 8));
    assert_eq!(img[2][5], px(106, 121, 21, 128));
    assert_eq!(img[7][0], px(64, 25, 171, 128));
    assert_eq!(img[0][0], px(0, 0, 0, 0));
    assert_eq!(img[5][2], px(0, 0, 0, 0));
}
