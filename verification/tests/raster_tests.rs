use gds_text::raster::{draw_rect, plot, preview_rgba};

fn px(buf: &[u8], w: usize, x: usize, y: usize) -> [u8; 4] {
    let i = (y * w + x) * 4;
    [buf[i], buf[i + 1], buf[i + 2], buf[i + 3]]
}

#[test]
fn plot_sets_one_pixel() {
    let mut buf = vec![0u8; 2 * 2 * 4];
    plot(&mut buf, 2, 2, 1, 0, [1, 2, 3, 4]);
    assert_eq!(px(&buf, 2, 1, 0), [1, 2, 3, 4]);
    assert_eq!(px(&buf, 2, 0, 0), [0, 0, 0, 0]);
    assert_eq!(px(&buf, 2, 1, 1), [0, 0, 0, 0]);
}

#[test]
fn plot_outside_is_ignored() {
    let mut buf = vec![9u8; 2 * 2 * 4];
    plot(&mut buf, 2, 2, -1, 0, [1, 2, 3, 4]);
    plot(&mut buf, 2, 2, 0, 2, [1, 2, 3, 4]);
    plot(&mut buf, 2, 2, 2, 0, [1, 2, 3, 4]);
    assert!(buf.iter().all(|&b| b == 9));
}

#[test]
fn rect_outline_leaves_inside() {
    let mut buf = vec![0u8; 3 * 3 * 4];
    draw_rect(&mut buf, 3, 3, 0, 0, 3, 3, [5, 5, 5, 5]);
    for y in 0..3 {
        for x in 0..3 {
            let expected = if x == 1 && y == 1 { [0, 0, 0, 0] } else { [5, 5, 5, 5] };
            assert_eq!(px(&buf, 3, x, y), expected);
        }
    }
}

#[test]
fn rect_outline_clipped() {
    let mut buf = vec![0u8; 2 * 2 * 4];
    draw_rect(&mut buf, 2, 2, -1, -1, 5, 5, [7, 7, 7, 7]);
    assert!(buf.iter().all(|&b| b == 0));
    draw_rect(&mut buf, 2, 2, 1, 1, 1, 1, [7, 7, 7, 7]);
    assert!(buf.iter().all(|&b| b == 0));
}

#[test]
fn preview_layers_fill_text_and_boxes() {
    let rgba = preview_rgba(4, 3, &[(0, 0), (1, 0)], &[(1, 0)], &[], None);
    assert_eq!(rgba.len(), 4 * 3 * 4);
    assert_eq!(px(&rgba, 4, 0, 0), [180, 180, 180, 255]);
    assert_eq!(px(&rgba, 4, 1, 0), [0, 0, 0, 255]);
    assert_eq!(px(&rgba, 4, 2, 2), [255, 255, 255, 255]);
}

#[test]
fn preview_outlines_selected_box() {
    let rgba = preview_rgba(4, 4, &[], &[], &[(0, 0, 2, 2), (2, 2, 4, 4)], Some(1));
    assert_eq!(px(&rgba, 4, 0, 0), [120, 180, 230, 255]);
    assert_eq!(px(&rgba, 4, 3, 3), [0, 120, 255, 255]);
    assert_eq!(px(&rgba, 4, 3, 0), [255, 255, 255, 255]);
}

#[test]
fn preview_outline_over_text() {
    // Law: outlines (last box wins) over text over fill over white.
    let rgba = preview_rgba(5, 4, &[(2, 2), (1, 1)], &[(1, 1), (0, 0)], &[(0, 0, 3, 3), (2, 0, 5, 2)], Some(0));
    assert_eq!(px(&rgba, 5, 0, 0), [0, 120, 255, 255]);
    assert_eq!(px(&rgba, 5, 1, 1), [0, 0, 0, 255]);
    assert_eq!(px(&rgba, 5, 2, 2), [0, 120, 255, 255]);
    assert_eq!(px(&rgba, 5, 2, 0), [120, 180, 230, 255]);
    assert_eq!(px(&rgba, 5, 2, 1), [120, 180, 230, 255]);
    assert_eq!(px(&rgba, 5, 3, 1), [120, 180, 230, 255]);
    assert_eq!(px(&rgba, 5, 3, 3), [255, 255, 255, 255]);
    assert_eq!(px(&rgba, 5, 4, 3), [255, 255, 255, 255]);
}
