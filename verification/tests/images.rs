use roses::images::{art_rows, clip_runs, grid_size, half_block_runs, render, render_bytes, ArtError, MAX_BYTES, MAX_COLS, MAX_ROWS};
use roses::theme::Rgb;

/// The image encoded as PNG bytes (lossless, so pixels survive exactly).
fn png(picture: &image::DynamicImage) -> Vec<u8> {
    let mut encoded = std::io::Cursor::new(Vec::new());
    picture.write_to(&mut encoded, image::ImageFormat::Png).unwrap();
    encoded.into_inner()
}

#[test]
fn art_size_caps_height_and_width() {
    let (cols, rows) = grid_size(200, 1000, 4000);
    assert!(rows <= MAX_ROWS, "height capped at MAX_ROWS");
    assert!(cols <= MAX_COLS, "width capped at 80 cells");
    assert_eq!((cols, rows), (80, 40));
}

#[test]
fn one_cell_for_a_two_pixel_image() {
    assert_eq!(grid_size(1, 1, 2), (1, 1));
    assert_eq!(grid_size(0, 0, 0), (1, 1), "degenerate sizes clamp to one cell");
    assert_eq!(grid_size(40, 400, 200), (40, 10), "proportions kept with half-height cells");
}

#[test]
fn half_block_run_keeps_top_and_bottom_colours() {
    let red = Rgb { r: 255, g: 0, b: 0 };
    let blue = Rgb { r: 0, g: 0, b: 255 };
    let runs = half_block_runs(&[(red, blue)]);
    assert_eq!(runs, vec![((red, blue), 1)], "fg = top pixel, bg = bottom pixel");
}

#[test]
fn equal_neighbouring_cells_share_a_run() {
    let a = Rgb { r: 1, g: 2, b: 3 };
    let b = Rgb { r: 9, g: 9, b: 9 };
    let runs = half_block_runs(&[(a, b), (a, b), (b, a), (a, b)]);
    assert_eq!(runs, vec![((a, b), 2), ((b, a), 1), ((a, b), 1)]);
    assert!(half_block_runs(&[]).is_empty());
}

#[test]
fn renders_half_blocks_with_top_and_bottom_pixel_colours() {
    // 1px wide, 2px tall: a red pixel over a blue one -> one cell, one row.
    let mut buffer = image::RgbImage::new(1, 2);
    buffer.put_pixel(0, 0, image::Rgb([255, 0, 0]));
    buffer.put_pixel(0, 1, image::Rgb([0, 0, 255]));
    let picture = image::DynamicImage::ImageRgb8(buffer);

    let lines = render(&png(&picture), 1).unwrap();
    assert_eq!(lines.len(), 1, "two pixel rows collapse to one text row");
    let runs = &lines[0];
    assert_eq!(runs.len(), 1);
    assert_eq!(runs[0].1, 1, "a single half block");
    assert_eq!(runs[0].0 .0, Rgb { r: 255, g: 0, b: 0 }, "fg = top pixel");
    assert_eq!(runs[0].0 .1, Rgb { r: 0, g: 0, b: 255 }, "bg = bottom pixel");
}

#[test]
fn render_caps_height_and_width() {
    let picture = image::DynamicImage::ImageRgb8(image::RgbImage::new(1000, 4000));
    let lines = render(&png(&picture), 200).unwrap();
    assert!(lines.len() as u32 <= MAX_ROWS, "height capped at MAX_ROWS");
    // Width is clamped to 80 cells; each line is at most 80 blocks wide.
    let width: usize = lines[0].iter().map(|run| run.1).sum();
    assert!(width <= 80, "width capped at 80 cells, got {width}");
}

#[test]
fn art_rows_pair_pixel_rows_into_cells() {
    // 2 pixels wide, 4 pixels tall: two text rows.
    let red = [255u8, 0, 0];
    let blue = [0u8, 0, 255];
    let green = [0u8, 255, 0];
    let mut pixels = Vec::new();
    for px in [red, red, blue, blue, green, red, green, red] {
        pixels.extend_from_slice(&px);
    }
    let rows = art_rows(&pixels, 2, 2);
    let r = Rgb { r: 255, g: 0, b: 0 };
    let b = Rgb { r: 0, g: 0, b: 255 };
    let g = Rgb { r: 0, g: 255, b: 0 };
    assert_eq!(rows, vec![vec![((r, b), 2)], vec![((g, g), 1), ((r, r), 1)]]);
}

#[test]
fn image_bytes_over_the_cap_are_refused_before_decoding() {
    let bytes = vec![0u8; MAX_BYTES + 1];
    assert_eq!(render_bytes(&bytes, 40), Err(ArtError::TooLarge(MAX_BYTES + 1)));
}

#[test]
fn bytes_that_are_not_an_image_are_undecodable() {
    assert_eq!(render_bytes(b"<html>not an image</html>", 40), Err(ArtError::Undecodable));
}

#[test]
fn png_bytes_render_at_the_requested_width() {
    let mut buffer = image::RgbImage::new(8, 8);
    for (x, _, px) in buffer.enumerate_pixels_mut() {
        *px = if x < 4 { image::Rgb([200, 10, 10]) } else { image::Rgb([10, 10, 200]) };
    }
    let encoded = png(&image::DynamicImage::ImageRgb8(buffer));
    let lines = render_bytes(&encoded, 4).unwrap();
    // 4 columns; 8x8 keeps proportions with half-height cells: 4*8/8/2 = 2 rows.
    assert_eq!(lines.len(), 2);
    for line in &lines {
        assert_eq!(line.iter().map(|run| run.1).sum::<usize>(), 4);
    }
}

#[test]
fn art_is_clipped_to_the_reader_width() {
    // One art line 10 cells wide, as if drawn when the pane was wider.
    let a = Rgb { r: 1, g: 1, b: 1 };
    let b = Rgb { r: 2, g: 2, b: 2 };
    let wide = vec![((a, b), 10)];
    let clipped = clip_runs(&wide, 6);
    assert_eq!(clipped, vec![((a, b), 6)], "art clipped to the wrap width, not dropped");

    let mixed = vec![((a, b), 3), ((b, a), 4), ((a, a), 2)];
    assert_eq!(clip_runs(&mixed, 5), vec![((a, b), 3), ((b, a), 2)]);
    assert_eq!(clip_runs(&mixed, 7), vec![((a, b), 3), ((b, a), 4)], "a run that exactly fills the width is kept whole");
    assert_eq!(clip_runs(&mixed, 40), mixed, "a narrow line is untouched");
    assert!(clip_runs(&mixed, 0).is_empty());
}

#[test]
fn render_reads_top_and_bottom_pixels_of_each_cell() {
    // 2 wide, 2 tall at two columns: no resampling, one text row.
    let mut buffer = image::RgbImage::new(2, 2);
    buffer.put_pixel(0, 0, image::Rgb([10, 20, 30]));
    buffer.put_pixel(0, 1, image::Rgb([40, 50, 60]));
    buffer.put_pixel(1, 0, image::Rgb([10, 20, 30]));
    buffer.put_pixel(1, 1, image::Rgb([40, 50, 60]));
    let lines = render(&png(&image::DynamicImage::ImageRgb8(buffer)), 2).unwrap();
    let top = Rgb { r: 10, g: 20, b: 30 };
    let bottom = Rgb { r: 40, g: 50, b: 60 };
    assert_eq!(lines, vec![vec![((top, bottom), 2)]]);
    assert_eq!(render(b"not an image", 2), None);
}
