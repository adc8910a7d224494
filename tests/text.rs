use pog3d::{Canvas, TextError};

#[test]
fn text_plots_font_cells_at_offset() {
    let mut c = Canvas::new(40, 20, false);
    assert_eq!(c.draw_text("Hi", 3, 5, 0xffffff), Ok(()));
    let mask = bitfont::bitmap_bool("Hi").unwrap();
    assert_eq!(mask.len(), 8);
    let mut set = 0;
    for y in 0..20usize {
        for x in 0..40usize {
            let inside = y >= 5 && y < 13 && x >= 3 && x < 19;
            let want = inside && mask[y - 5][x - 3];
            if want {
                set += 1;
            }
            assert_eq!(c.buffer[y * 40 + x] == 0xffffff, want, "pixel ({}, {})", x, y);
        }
    }
    assert!(set > 0);
}

#[test]
fn text_keeps_unset_cells() {
    let mut c = Canvas::new(16, 8, false);
    c.clear(0x0000ff);
    c.draw_text("-", 0, 0, 0xff0000).unwrap();
    assert!(c.buffer.iter().any(|&p| p == 0xff0000));
    assert!(c.buffer.iter().any(|&p| p == 0x0000ff));
}

#[test]
fn text_with_control_byte_is_refused() {
    let mut c = Canvas::new(16, 8, false);
    assert_eq!(c.draw_text("a\nb", 0, 0, 1), Err(TextError::CharacterNotInFont));
    assert!(c.buffer.iter().all(|&p| p == 0));
}

#[test]
fn text_with_delete_byte_is_refused() {
    let mut c = Canvas::new(16, 8, false);
    assert_eq!(c.draw_text("\u{7f}", 0, 0, 1), Err(TextError::CharacterNotInFont));
    assert!(c.buffer.iter().all(|&p| p == 0));
}

#[test]
fn text_with_non_ascii_is_refused() {
    let mut c = Canvas::new(16, 8, false);
    assert_eq!(c.draw_text("caf\u{e9}", 0, 0, 1), Err(TextError::CharacterNotInFont));
    assert!(c.buffer.iter().all(|&p| p == 0));
}

#[test]
fn empty_text_draws_nothing() {
    let mut c = Canvas::new(16, 8, false);
    assert_eq!(c.draw_text("", 0, 0, 1), Ok(()));
    assert!(c.buffer.iter().all(|&p| p == 0));
}

#[test]
fn mask_plots_only_set_cells() {
    let mut c = Canvas::new(6, 4, false);
    let mask = vec![vec![true, false, true], vec![false, true]];
    c.draw_mask(&mask, 2, 1, 7);
    let mut lit = Vec::new();
    for y in 0..4usize {
        for x in 0..6usize {
            if c.buffer[y * 6 + x] == 7 {
                lit.push((x, y));
            }
        }
    }
    assert_eq!(lit, vec![(2, 1), (4, 1), (3, 2)]);
}

#[test]
fn mask_wraps_on_wrapping_canvas() {
    let mut c = Canvas::new(4, 4, true);
    let mask = vec![vec![true, true]];
    c.draw_mask(&mask, -1, 0, 7);
    assert_eq!(c.buffer[3], 7);
    assert_eq!(c.buffer[0], 7);
}
