use gds_text::config::LayerConfig;
use gds_text::gds_out::Boundary;
use gds_text::png_out::{layout_png, render_boundaries, RenderError};

fn rgb(bytes: &[u8], w: usize, x: usize, y: usize) -> [u8; 3] {
    let i = (y * w + x) * 3;
    [bytes[i], bytes[i + 1], bytes[i + 2]]
}

fn rect(layer: i16, datatype: i16, x0: i32, y0: i32, x1: i32, y1: i32) -> Boundary {
    Boundary { layer, datatype, xy: vec![(x0, y0), (x1, y0), (x1, y1), (x0, y1), (x0, y0)] }
}

#[test]
fn layout_png_draws_scaled_cells() {
    let img = layout_png(2, 1, 2, &[(0, 0)], &[(1, 0)]);
    assert_eq!(img.dimensions(), (4, 2));
    let bytes = img.into_bytes();
    assert_eq!(bytes.len(), 4 * 2 * 3);
    for y in 0..2 {
        assert_eq!(rgb(&bytes, 4, 0, y), [160, 160, 160]);
        assert_eq!(rgb(&bytes, 4, 1, y), [160, 160, 160]);
        assert_eq!(rgb(&bytes, 4, 2, y), [0, 0, 0]);
        assert_eq!(rgb(&bytes, 4, 3, y), [0, 0, 0]);
    }
}

#[test]
fn layout_png_text_over_fill_and_white_elsewhere() {
    let img = layout_png(3, 2, 0, &[(0, 0), (2, 1)], &[(0, 0), (-1, 0), (5, 5)]);
    assert_eq!(img.dimensions(), (3, 2));
    let bytes = img.into_bytes();
    assert_eq!(rgb(&bytes, 3, 0, 0), [0, 0, 0]);
    assert_eq!(rgb(&bytes, 3, 2, 1), [160, 160, 160]);
    assert_eq!(rgb(&bytes, 3, 1, 0), [255, 255, 255]);
    assert_eq!(rgb(&bytes, 3, 1, 1), [255, 255, 255]);
}

#[test]
fn render_refuses_empty_library() {
    let r = render_boundaries(&[], LayerConfig::default(), 150, 1, 0);
    assert!(matches!(r, Err(RenderError::NoBoundaries)));
}

#[test]
fn render_single_text_box() {
    let bs = vec![rect(68, 20, 0, 0, 300, 150)];
    let img = render_boundaries(&bs, LayerConfig::default(), 150, 1, 0).unwrap();
    assert_eq!(img.dimensions(), (2, 1));
    assert_eq!(img.into_bytes(), vec![0; 6]);
}

#[test]
fn render_colours_by_layer() {
    let bs = vec![
        rect(68, 20, 0, 0, 150, 150),
        rect(68, 44, 150, 0, 300, 150),
        rect(1, 0, 300, 0, 450, 150),
    ];
    let img = render_boundaries(&bs, LayerConfig::default(), 150, 1, 0).unwrap();
    assert_eq!(img.dimensions(), (3, 1));
    let bytes = img.into_bytes();
    assert_eq!(rgb(&bytes, 3, 0, 0), [0, 0, 0]);
    assert_eq!(rgb(&bytes, 3, 1, 0), [160, 160, 160]);
    assert_eq!(rgb(&bytes, 3, 2, 0), [40, 100, 200]);
}

#[test]
fn render_flips_y_and_pads() {
    // A text box in the lower half of a 2 x 2 cell extent, padded by one
    // cell on every side: a 4 x 4 image, scaled by 2 to 8 x 8.
    let bs = vec![rect(68, 20, 0, 0, 100, 100), rect(68, 44, 100, 100, 200, 200)];
    let img = render_boundaries(&bs, LayerConfig::default(), 100, 2, 100).unwrap();
    assert_eq!(img.dimensions(), (8, 8));
    let bytes = img.into_bytes();
    // Text (cells x 1, y 1 from the bottom) lands in image rows 4..6.
    assert_eq!(rgb(&bytes, 8, 2, 4), [0, 0, 0]);
    assert_eq!(rgb(&bytes, 8, 3, 5), [0, 0, 0]);
    // Fill (cell x 2, y 2 from the bottom) lands in image rows 2..4.
    assert_eq!(rgb(&bytes, 8, 4, 2), [160, 160, 160]);
    assert_eq!(rgb(&bytes, 8, 5, 3), [160, 160, 160]);
    assert_eq!(rgb(&bytes, 8, 0, 0), [255, 255, 255]);
    assert_eq!(rgb(&bytes, 8, 7, 7), [255, 255, 255]);
}

#[test]
fn layout_png_pixel_is_cell_colour() {
    // Law: pixel (px, py) shows cell (px / s, py / s): black for text, else
    // grey for fill, else white.
    let fill = vec![(0, 0), (1, 1), (3, 0), (-1, 1)];
    let text = vec![(1, 1), (2, 0), (9, 9)];
    let s = 3usize;
    let img = layout_png(4, 2, s as u32, &fill, &text);
    assert_eq!(img.dimensions(), (12, 6));
    let bytes = img.into_bytes();
    for py in 0..6 {
        for px in 0..12 {
            let cell = ((px / s) as i32, (py / s) as i32);
            let expected = if text.contains(&cell) {
                [0, 0, 0]
            } else if fill.contains(&cell) {
                [160, 160, 160]
            } else {
                [255, 255, 255]
            };
            assert_eq!(rgb(&bytes, 12, px, py), expected, "pixel ({px}, {py})");
        }
    }
}

#[test]
fn render_later_boundary_wins() {
    // Law: each pixel has the colour of the last boundary covering it.
    let bs = vec![rect(1, 0, 0, 0, 300, 100), rect(68, 20, 100, 0, 200, 100)];
    let img = render_boundaries(&bs, LayerConfig::default(), 100, 1, 0).unwrap();
    assert_eq!(img.dimensions(), (3, 1));
    let bytes = img.into_bytes();
    assert_eq!(rgb(&bytes, 3, 0, 0), [40, 100, 200]);
    assert_eq!(rgb(&bytes, 3, 1, 0), [0, 0, 0]);
    assert_eq!(rgb(&bytes, 3, 2, 0), [40, 100, 200]);
}
