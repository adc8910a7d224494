use pog3d::Canvas;

fn lit(c: &Canvas, color: u32) -> Vec<(usize, usize)> {
    let mut out = Vec::new();
    for y in 0..c.height {
        for x in 0..c.width {
            if c.buffer[y * c.width + x] == color {
                out.push((x, y));
            }
        }
    }
    out
}

#[test]
fn horizontal_line_six_pixels() {
    let mut c = Canvas::new(10, 10, false);
    c.draw_line(0, 0, 5, 0, 1);
    assert_eq!(lit(&c, 1), vec![(0, 0), (1, 0), (2, 0), (3, 0), (4, 0), (5, 0)]);
}

#[test]
fn vertical_line_six_pixels() {
    let mut c = Canvas::new(10, 10, false);
    c.draw_line(0, 0, 0, 5, 1);
    assert_eq!(lit(&c, 1), vec![(0, 0), (0, 1), (0, 2), (0, 3), (0, 4), (0, 5)]);
}

#[test]
fn reversed_line_draws_same_pixels() {
    let ends = [
        (0, 0, 7, 3),
        (1, 8, 6, 0),
        (2, 2, 2, 2),
        (9, 0, 0, 9),
        (3, 1, 5, 9),
        (0, 4, 9, 5),
        (8, 8, 1, 6),
    ];
    for &(x1, y1, x2, y2) in ends.iter() {
        let mut a = Canvas::new(10, 10, false);
        let mut b = Canvas::new(10, 10, false);
        a.draw_line(x1, y1, x2, y2, 1);
        b.draw_line(x2, y2, x1, y1, 1);
        assert_eq!(a.buffer, b.buffer);
    }
}

#[test]
fn shallow_line_steps_exactly() {
    let mut c = Canvas::new(10, 10, false);
    c.draw_line(0, 0, 7, 3, 1);
    assert_eq!(
        lit(&c, 1),
        vec![(0, 0), (1, 0), (2, 1), (3, 1), (4, 2), (5, 2), (6, 3), (7, 3)]
    );
}

#[test]
fn steep_line_steps_exactly() {
    let mut c = Canvas::new(10, 10, false);
    c.draw_line(0, 0, 2, 5, 1);
    let mut got = lit(&c, 1);
    got.sort_by_key(|p| (p.1, p.0));
    assert_eq!(got, vec![(0, 0), (0, 1), (1, 2), (1, 3), (2, 4), (2, 5)]);
}

#[test]
fn diagonal_line_down_left() {
    let mut c = Canvas::new(10, 10, false);
    c.draw_line(4, 0, 0, 4, 1);
    let mut got = lit(&c, 1);
    got.sort();
    assert_eq!(got, vec![(0, 4), (1, 3), (2, 2), (3, 1), (4, 0)]);
}

#[test]
fn single_point_line() {
    let mut c = Canvas::new(5, 5, false);
    c.draw_line(3, 3, 3, 3, 2);
    assert_eq!(lit(&c, 2), vec![(3, 3)]);
}

#[test]
fn line_leaving_canvas_is_clipped_per_pixel() {
    let mut c = Canvas::new(5, 5, false);
    c.draw_line(-2, 1, 2, 1, 4);
    assert_eq!(lit(&c, 4), vec![(0, 1), (1, 1), (2, 1)]);
}

#[test]
fn polygon_closes_back_to_first_point() {
    let mut c = Canvas::new(10, 10, false);
    c.draw_polygon(&vec![(1, 1), (5, 1), (5, 4)], 3);
    let got = lit(&c, 3);
    for p in [(1, 1), (3, 1), (5, 1), (5, 2), (5, 4), (2, 2)].iter() {
        assert!(got.contains(p), "missing {:?}", p);
    }
    assert!(!got.contains(&(1, 4)));
}

#[test]
fn polygon_empty_draws_nothing() {
    let mut c = Canvas::new(4, 4, false);
    c.draw_polygon(&Vec::new(), 3);
    assert!(c.buffer.iter().all(|&p| p == 0));
}
