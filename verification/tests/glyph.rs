use braille_render::glyph::get_braille;

fn pattern_of_mask(mask: u32) -> [bool; 8] {
    let mut p = [false; 8];
    for i in 0..8 {
        p[i] = (mask >> i) & 1 == 1;
    }
    p
}

#[test]
fn blank_pattern_is_blank_glyph() {
    assert_eq!(get_braille([false; 8]), '\u{2800}');
}

#[test]
fn full_pattern_is_last_glyph() {
    assert_eq!(get_braille([true; 8]), '\u{28FF}');
}

#[test]
fn top_left_dot_is_dot_one() {
    let p = [true, false, false, false, false, false, false, false];
    assert_eq!(get_braille(p), '\u{2801}');
}

#[test]
fn top_right_dot_is_dot_four() {
    let p = [false, true, false, false, false, false, false, false];
    assert_eq!(get_braille(p), '\u{2808}');
}

#[test]
fn all_patterns_match_reference_table() {
    // Independent reference: raster index -> bit position in the offset.
    let bit_of_raster = [0u32, 3, 1, 4, 2, 5, 6, 7];
    for mask in 0u32..256 {
        let mut expected = 0x2800u32;
        for i in 0..8 {
            if (mask >> i) & 1 == 1 {
                expected += 1 << bit_of_raster[i];
            }
        }
        let got = get_braille(pattern_of_mask(mask));
        assert_eq!(got as u32, expected, "pattern mask {mask:#04x}");
    }
}

#[test]
fn all_patterns_give_distinct_glyphs_in_block() {
    let mut seen = [false; 256];
    for mask in 0u32..256 {
        let code = get_braille(pattern_of_mask(mask)) as u32;
        assert!((0x2800..=0x28FF).contains(&code));
        let offset = (code - 0x2800) as usize;
        assert!(!seen[offset], "offset {offset} produced twice");
        seen[offset] = true;
    }
    assert!(seen.iter().all(|&s| s));
}

#[test]
fn encoding_is_repeatable() {
    let p = [true, false, true, true, false, false, true, false];
    assert_eq!(get_braille(p), get_braille(p));
}
