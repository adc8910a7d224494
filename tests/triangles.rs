use pog3d::{Canvas, ScreenPoint, ScreenTriangle};

fn pt(x: i32, y: i32) -> ScreenPoint {
    ScreenPoint { x, y }
}

fn tri(a: (i32, i32), b: (i32, i32), c: (i32, i32)) -> ScreenTriangle {
    ScreenTriangle(pt(a.0, a.1), pt(b.0, b.1), pt(c.0, c.1))
}

fn lit(c: &Canvas, color: u32) -> Vec<(usize, usize)> {
    let mut out = Vec::new();
    for y in 0..c.height {
        for x in 0..c.width {
            if c.buffer[y * c.width + x] == color {
                out.push((x, y));
            }
        }
    }
    out
}

/// For each row, the lit columns as (first, last, count).
fn spans(c: &Canvas, color: u32) -> Vec<Option<(usize, usize, usize)>> {
    (0..c.height)
        .map(|y| {
            let xs: Vec<usize> = (0..c.width).filter(|&x| c.buffer[y * c.width + x] == color).collect();
            if xs.is_empty() {
                None
            } else {
                Some((xs[0], xs[xs.len() - 1], xs.len()))
            }
        })
        .collect()
}

#[test]
fn right_triangle_spans_shrink_toward_apex() {
    let mut c = Canvas::new(8, 8, false);
    c.fill_triangle(tri((0, 0), (4, 0), (0, 4)), 1);
    let s = spans(&c, 1);
    assert_eq!(s[0], Some((0, 3, 4)));
    assert_eq!(s[1], Some((0, 2, 3)));
    assert_eq!(s[2], Some((0, 1, 2)));
    assert_eq!(s[3], Some((0, 0, 1)));
    for row in s.iter().skip(4) {
        assert_eq!(*row, None);
    }
    for y in 0..4 {
        let (first, last, count) = s[y].unwrap();
        assert_eq!(last - first + 1, count);
        if y > 0 {
            assert!(count < s[y - 1].unwrap().2);
        }
    }
}

#[test]
fn flat_bottom_triangle_rows() {
    let mut c = Canvas::new(10, 10, false);
    c.fill_triangle(tri((4, 0), (0, 4), (8, 4)), 1);
    let s = spans(&c, 1);
    assert_eq!(s[0], Some((4, 4, 1)));
    assert_eq!(s[1], Some((3, 5, 3)));
    assert_eq!(s[2], Some((2, 6, 5)));
    assert_eq!(s[3], Some((1, 7, 7)));
    assert_eq!(s[4], None);
}

#[test]
fn general_triangle_is_split_at_middle_row() {
    let mut c = Canvas::new(10, 10, false);
    c.fill_triangle(tri((6, 4), (0, 0), (2, 2)), 1);
    assert_eq!(lit(&c, 1), vec![(0, 0), (1, 1), (4, 2), (6, 3)]);
}

#[test]
fn fill_ignores_vertex_order() {
    let orders = [
        tri((1, 1), (8, 3), (3, 8)),
        tri((8, 3), (3, 8), (1, 1)),
        tri((3, 8), (1, 1), (8, 3)),
        tri((1, 1), (3, 8), (8, 3)),
    ];
    let mut first: Option<Vec<u32>> = None;
    for t in orders.iter() {
        let mut c = Canvas::new(10, 10, false);
        c.fill_triangle(*t, 1);
        match &first {
            None => first = Some(c.buffer.clone()),
            Some(b) => assert_eq!(*b, c.buffer),
        }
    }
}

#[test]
fn zero_height_triangle_fills_nothing() {
    let mut c = Canvas::new(10, 10, false);
    c.fill_triangle(tri((0, 3), (5, 3), (9, 3)), 1);
    assert!(c.buffer.iter().all(|&p| p == 0));
}

#[test]
fn fill_with_negative_vertices_truncates_toward_zero() {
    let mut c = Canvas::new(10, 10, false);
    c.fill_triangle(tri((-3, 0), (3, 0), (0, 2)), 1);
    let s = spans(&c, 1);
    assert_eq!(s[0], Some((0, 1, 2)));
    assert_eq!(s[1], Some((0, 0, 1)));
}

#[test]
fn sorted_by_y_is_stable() {
    let t = tri((5, 3), (1, 1), (2, 3));
    let s = t.sorted_by_y();
    assert_eq!(s, tri((1, 1), (5, 3), (2, 3)));
    let u = tri((0, 9), (0, 4), (0, 1));
    assert_eq!(u.sorted_by_y(), tri((0, 1), (0, 4), (0, 9)));
}

#[test]
fn outline_draws_three_edges_only() {
    let mut c = Canvas::new(10, 10, false);
    c.draw_triangle(tri((0, 0), (6, 0), (0, 6)), 2);
    let got = lit(&c, 2);
    assert!(got.contains(&(3, 0)));
    assert!(got.contains(&(0, 3)));
    assert!(got.contains(&(3, 3)));
    assert!(!got.contains(&(1, 1)));
    assert_eq!(got.len(), 18);
}
