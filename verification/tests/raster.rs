use braille_render::raster::{padded_width, render_frame, Options};

const HOME: &str = "\u{1b}[0;0H";

fn render(
    pixels: &[u8],
    dither: bool,
    threshold: u8,
    skip_width: usize,
    scaled_width: usize,
    scaled_height: usize,
) -> String {
    let options = Options { dither, threshold };
    render_frame(pixels, &options, skip_width, scaled_width, scaled_height)
}

#[test]
fn uniform_bright_frame_is_blank() {
    // Every sample is 200, well above threshold 127: no dot is filled.
    let pixels = vec![200u8; 4 * 8];
    let out = render(&pixels, false, 127, 4, 2, 2);
    assert_eq!(out, format!("{HOME}\u{2800}\u{2800}\n\u{2800}\u{2800}\n"));
}

#[test]
fn uniform_dark_frame_is_full() {
    // Every sample is 50, below threshold 127: every dot is filled.
    let pixels = vec![50u8; 4 * 8];
    let out = render(&pixels, false, 127, 4, 2, 2);
    assert_eq!(out, format!("{HOME}\u{28FF}\u{28FF}\n\u{28FF}\u{28FF}\n"));
}

#[test]
fn threshold_itself_counts_as_unfilled() {
    let pixels = vec![127u8; 2 * 4];
    let out = render(&pixels, false, 127, 2, 1, 1);
    assert_eq!(out, format!("{HOME}\u{2800}\n"));
}

#[test]
fn all_zero_single_cell_renders_full_glyph() {
    // One cell read from a 4x4 buffer (stride 4, logical width 2), all
    // zeros: the frame is the escape, one full glyph, one newline.
    let pixels = vec![0u8; 16];
    let out = render(&pixels, false, 127, 4, 1, 1);
    assert_eq!(out, format!("{HOME}\u{28FF}\n"));
}

#[test]
fn single_cell_with_dither_stays_in_bounds() {
    // A 1x1 cell grid with dithering: every kernel target beyond the cell
    // is dropped; zero samples leave no error to spread.
    let pixels = vec![0u8; 2 * 4];
    let out = render(&pixels, true, 127, 2, 1, 1);
    assert_eq!(out, format!("{HOME}\u{28FF}\n"));
}

#[test]
fn row_padding_is_ignored() {
    // Stride 4 with logical width 2: the logical samples are bright
    // (unfilled), the padding bytes are zero and would fill dots if the
    // stride were mishandled.
    let mut pixels = vec![0u8; 4 * 4];
    for y in 0..4 {
        pixels[y * 4] = 200;
        pixels[y * 4 + 1] = 200;
    }
    let out = render(&pixels, false, 127, 4, 1, 1);
    assert_eq!(out, format!("{HOME}\u{2800}\n"));
}

#[test]
fn dither_spreads_error_within_cell() {
    // Threshold 127. Only the first sub-pixel (120) is below threshold on
    // its own; the diffused error pushes every later corrected value above
    // it, so only dot 1 is set.
    let pixels = vec![120u8, 130, 140, 110, 125, 126, 129, 131];
    let out = render(&pixels, true, 127, 2, 1, 1);
    assert_eq!(out, format!("{HOME}\u{2801}\n"));
    // Without dithering the 110, 125 and 126 samples fill too.
    let flat = render(&pixels, false, 127, 2, 1, 1);
    assert_ne!(out, flat);
}

#[test]
fn dither_spreads_error_across_cells() {
    let pixels = vec![
        100u8, 150, 200, 50, 120, 130, 140, 110, 125, 126, 129, 131, 60, 200, 90, 180,
    ];
    let out = render(&pixels, true, 127, 4, 2, 1);
    assert_eq!(out, format!("{HOME}\u{2841}\u{2808}\n"));
}

#[test]
fn dither_spreads_error_across_cell_rows() {
    // One cell column, two cell rows: error diffused off the bottom of the
    // first cell lands in the second, changing which of its dots fill.
    let pixels = vec![
        135u8, 120, 100, 145, 90, 160, 150, 80, 70, 155, 140, 65, 130, 95, 85, 142,
    ];
    let out = render(&pixels, true, 140, 2, 1, 2);
    assert_eq!(out, format!("{HOME}\u{2885}\n\u{2851}\n"));
    let flat = render(&pixels, false, 140, 2, 1, 2);
    assert_eq!(flat, format!("{HOME}\u{288F}\n\u{2875}\n"));
}

#[test]
fn empty_grid_renders_escape_only() {
    let out = render(&[], false, 127, 0, 0, 0);
    assert_eq!(out, HOME);
}

#[test]
fn zero_width_grid_renders_bare_newlines() {
    let out = render(&[], false, 127, 0, 0, 2);
    assert_eq!(out, format!("{HOME}\n\n"));
}

#[test]
fn padded_width_rounds_up_to_alignment() {
    assert_eq!(padded_width(0), 0);
    assert_eq!(padded_width(1), 32);
    assert_eq!(padded_width(31), 32);
    assert_eq!(padded_width(32), 32);
    assert_eq!(padded_width(33), 64);
    assert_eq!(padded_width(160), 160);
}
