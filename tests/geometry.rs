use worldmap::canvas::BrailleCanvas;
use worldmap::geometry::{draw_circle, draw_line, draw_marker, draw_thick_line};

#[test]
fn test_horizontal_line() {
    let mut canvas = BrailleCanvas::new(5, 1);
    draw_line(&mut canvas, 0, 0, 9, 0);
    let s = canvas.to_string();
    assert!(s.contains('⠁') || s.contains('⠉') || s.len() > 0);
}

#[test]
fn test_vertical_line() {
    let mut canvas = BrailleCanvas::new(1, 2);
    draw_line(&mut canvas, 0, 0, 0, 7);
    let s = canvas.to_string();
    assert!(s.len() > 0);
}

#[test]
fn horizontal_line_sets_top_row_of_every_cell() {
    let mut canvas = BrailleCanvas::new(5, 1);
    draw_line(&mut canvas, 0, 0, 9, 0);
    assert_eq!(canvas.to_string(), "⠉⠉⠉⠉⠉");
}

#[test]
fn vertical_line_fills_left_column() {
    let mut canvas = BrailleCanvas::new(1, 2);
    draw_line(&mut canvas, 0, 0, 0, 7);
    assert_eq!(canvas.to_string(), "⡇\n⡇");
}

#[test]
fn diagonal_line_and_reverse_direction() {
    let mut a = BrailleCanvas::new(2, 1);
    draw_line(&mut a, 0, 0, 3, 3);
    assert_eq!(a.to_string(), "⠑⢄");
    let mut b = BrailleCanvas::new(2, 1);
    draw_line(&mut b, 3, 3, 0, 0);
    assert_eq!(b.to_string(), "⠑⢄");
}

#[test]
fn line_partly_off_canvas_keeps_visible_part() {
    let mut canvas = BrailleCanvas::new(1, 1);
    draw_line(&mut canvas, -5, 0, 1, 0);
    assert_eq!(canvas.row_raw(0), &[0x09u8][..]);
}

#[test]
fn single_point_line() {
    let mut canvas = BrailleCanvas::new(1, 1);
    draw_line(&mut canvas, 1, 1, 1, 1);
    assert_eq!(canvas.row_raw(0), &[0x10u8][..]);
}

#[test]
fn thick_line_adds_offset_copies() {
    let mut canvas = BrailleCanvas::new(1, 1);
    draw_thick_line(&mut canvas, 0, 0, 0, 0);
    assert_eq!(canvas.row_raw(0), &[0x01u8 | 0x08 | 0x02][..]);
}

#[test]
fn marker_is_a_cross() {
    let mut canvas = BrailleCanvas::new(2, 1);
    draw_marker(&mut canvas, 1, 1, 1);
    assert_eq!(canvas.row_raw(0), &[0x08u8 | 0x02 | 0x10 | 0x20, 0x02][..]);
}

#[test]
fn negative_marker_size_draws_nothing() {
    let mut canvas = BrailleCanvas::new(2, 1);
    draw_marker(&mut canvas, 1, 1, -1);
    assert_eq!(canvas.row_raw(0), &[0u8, 0][..]);
}

#[test]
fn circle_of_radius_one_is_a_plus() {
    let mut canvas = BrailleCanvas::new(2, 1);
    draw_circle(&mut canvas, 1, 1, 1);
    assert_eq!(canvas.row_raw(0), &[0x08u8 | 0x02 | 0x10 | 0x20, 0x02][..]);
}

#[test]
fn circle_of_radius_zero_is_a_dot() {
    let mut canvas = BrailleCanvas::new(1, 1);
    draw_circle(&mut canvas, 0, 0, 0);
    assert_eq!(canvas.row_raw(0), &[0x01u8][..]);
}

#[test]
fn circle_of_radius_two_fills_disc() {
    let mut canvas = BrailleCanvas::new(3, 2);
    draw_circle(&mut canvas, 2, 2, 2);
    let mut count = 0;
    for row in 0..2 {
        for b in canvas.row_raw(row) {
            count += b.count_ones();
        }
    }
    assert_eq!(count, 13);
}
