use worldmap::canvas::BrailleCanvas;

#[test]
fn test_single_pixel() {
    let mut canvas = BrailleCanvas::new(1, 1);
    canvas.set_pixel(0, 0);
    assert_eq!(canvas.to_string(), "⠁");
}

#[test]
fn test_all_dots() {
    let mut canvas = BrailleCanvas::new(1, 1);
    for x in 0..2 {
        for y in 0..4 {
            canvas.set_pixel(x, y);
        }
    }
    assert_eq!(canvas.to_string(), "⣿");
}

#[test]
fn test_diagonal() {
    let mut canvas = BrailleCanvas::new(2, 1);
    canvas.set_pixel(0, 0);
    canvas.set_pixel(1, 1);
    canvas.set_pixel(2, 2);
    canvas.set_pixel(3, 3);
    assert_eq!(canvas.to_string(), "⠑⢄");
}

#[test]
fn blank_canvas_rows_are_empty_patterns() {
    let canvas = BrailleCanvas::new(3, 2);
    assert_eq!(canvas.to_string(), "⠀⠀⠀\n⠀⠀⠀");
    assert_eq!(canvas.char_height(), 2);
    assert_eq!(canvas.char_width(), 3);
    assert_eq!(canvas.rows(), vec!["⠀⠀⠀".to_string(), "⠀⠀⠀".to_string()]);
}

#[test]
fn pixels_off_canvas_are_ignored() {
    let mut canvas = BrailleCanvas::new(1, 1);
    canvas.set_pixel(2, 0);
    canvas.set_pixel(0, 4);
    canvas.set_pixel_signed(-1, 0);
    canvas.set_pixel_signed(0, -3);
    assert_eq!(canvas.to_string(), "⠀");
}

#[test]
fn signed_pixel_sets_dot() {
    let mut canvas = BrailleCanvas::new(1, 1);
    canvas.set_pixel_signed(1, 3);
    assert_eq!(canvas.row_raw(0), &[0x80u8][..]);
}

#[test]
fn row_access_and_past_last_row() {
    let mut canvas = BrailleCanvas::new(2, 2);
    canvas.set_pixel(3, 4);
    assert_eq!(canvas.row_raw(1), &[0u8, 0x08][..]);
    assert_eq!(canvas.row_to_string(1), "⠀⠈");
    assert_eq!(canvas.row_to_string(0), "⠀⠀");
    assert_eq!(canvas.row_to_string(2), "");
}

#[test]
fn clone_keeps_dots() {
    let mut canvas = BrailleCanvas::new(2, 1);
    canvas.set_pixel(1, 2);
    let copy = canvas.clone();
    assert_eq!(copy.to_string(), canvas.to_string());
    assert_eq!(copy.row_raw(0), &[0x20u8, 0][..]);
}
