use iris::drawing::{sort_ascending, Canvas, MarkerType};
use iris::types::{Point, Rect};

fn canvas(c: usize, h: usize, w: usize) -> Canvas<f32> {
    Canvas { channels: c, height: h, width: w, data: vec![0.0; c * h * w] }
}

/// The pixels of channel `ch` that are not zero, row by row.
fn lit(cv: &Canvas<f32>, ch: usize) -> Vec<(usize, usize)> {
    let mut v = Vec::new();
    for y in 0..cv.height {
        for x in 0..cv.width {
            if cv.data[ch * cv.height * cv.width + y * cv.width + x] != 0.0 {
                v.push((x, y));
            }
        }
    }
    v
}

#[test]
fn test_drawing_operations() {
    let mut img = canvas(3, 100, 100);
    img.draw_line(Point::new(10, 10), Point::new(90, 90), &vec![1.0, 1.0, 1.0, 1.0]);
    img.draw_rectangle(Rect::new(20, 20, 30, 40), &vec![0.5, 0.5, 0.5, 0.5], 1);
    img.draw_circle(Point::new(50, 50), 20, &vec![0.8, 0.8, 0.8, 0.8], -1);
    assert_eq!((img.channels, img.height, img.width), (3, 100, 100));
    assert_eq!(img.data.len(), 3 * 100 * 100);
    assert_eq!(img.data[10 * 100 + 10], 1.0);
    assert_eq!(img.data[50 * 100 + 50], 0.8);
    assert_eq!(img.data[2 * 100 * 100 + 20 * 100 + 35], 0.5);
}

#[test]
fn test_draw_polyline() {
    let mut img = canvas(3, 50, 50);
    let points = vec![
        Point::new(10, 10),
        Point::new(40, 10),
        Point::new(40, 40),
        Point::new(10, 40),
        Point::new(10, 10),
    ];
    img.draw_polyline(&points, &vec![1.0, 1.0, 1.0, 1.0], 1);
    assert_eq!((img.channels, img.height, img.width), (3, 50, 50));
    let on = lit(&img, 0);
    assert_eq!(on.len(), 4 * 30);
    assert!(on.contains(&(25, 10)) && on.contains(&(40, 25)) && on.contains(&(10, 33)));
    assert_eq!(lit(&img, 2), on);
}

#[test]
fn test_draw_marker() {
    let mut img = canvas(3, 50, 50);
    img.draw_marker(Point::new(25, 25), &vec![1.0, 1.0, 1.0, 1.0], MarkerType::Cross, 10);
    img.draw_marker(Point::new(25, 25), &vec![0.5, 0.5, 0.5, 0.5], MarkerType::Circle, 10);
    img.draw_marker(Point::new(25, 25), &vec![0.8, 0.8, 0.8, 0.8], MarkerType::Filled, 10);
    assert_eq!((img.channels, img.height, img.width), (3, 50, 50));
    assert_eq!(img.data[25 * 50 + 25], 0.8);
    assert_eq!(img.data[25 * 50 + 20], 0.8);
    assert_eq!(img.data[25 * 50 + 19], 0.0);
}

#[test]
fn line_diagonal_and_shallow() {
    let mut c = canvas(1, 4, 4);
    c.draw_line(Point::new(0, 0), Point::new(3, 3), &vec![1.0]);
    assert_eq!(lit(&c, 0), vec![(0, 0), (1, 1), (2, 2), (3, 3)]);
    let mut c = canvas(1, 5, 5);
    c.draw_line(Point::new(0, 0), Point::new(4, 2), &vec![1.0]);
    assert_eq!(lit(&c, 0), vec![(0, 0), (1, 1), (2, 1), (3, 2), (4, 2)]);
    let mut c = canvas(1, 5, 5);
    c.draw_line(Point::new(4, 2), Point::new(0, 0), &vec![1.0]);
    assert!(lit(&c, 0).contains(&(0, 0)) && lit(&c, 0).contains(&(4, 2)));
}

#[test]
fn line_is_clipped_to_the_canvas() {
    let mut c = canvas(1, 3, 3);
    c.draw_line(Point::new(0, 1), Point::new(10, 1), &vec![2.0]);
    assert_eq!(lit(&c, 0), vec![(0, 1), (1, 1), (2, 1)]);
    c.put_pixel(-1, 0, &vec![5.0]);
    c.put_pixel(0, 7, &vec![5.0]);
    assert_eq!(lit(&c, 0), vec![(0, 1), (1, 1), (2, 1)]);
    c.put_pixel(2, 2, &vec![5.0]);
    assert_eq!(c.data[2 * 3 + 2], 5.0);
}

#[test]
fn rectangle_outline_and_fill() {
    let mut c = canvas(1, 6, 6);
    c.draw_rectangle(Rect::new(1, 1, 3, 2), &vec![1.0], 0);
    assert_eq!(
        lit(&c, 0),
        vec![(1, 1), (2, 1), (3, 1), (4, 1), (1, 2), (4, 2), (1, 3), (2, 3), (3, 3), (4, 3)]
    );
    let mut f = canvas(2, 4, 4);
    f.draw_rectangle(Rect::new(2, 1, 5, 2), &vec![1.0, 3.0], -1);
    assert_eq!(lit(&f, 0), vec![(2, 1), (3, 1), (2, 2), (3, 2)]);
    assert_eq!(f.data[16 + 1 * 4 + 2], 3.0);
}

#[test]
fn circle_outline_and_disc() {
    let mut c = canvas(1, 5, 5);
    c.draw_circle(Point::new(2, 2), 0, &vec![1.0], 1);
    assert_eq!(lit(&c, 0), vec![(1, 1), (3, 1), (2, 2), (1, 3), (3, 3)]);
    let mut c = canvas(1, 7, 7);
    c.draw_circle(Point::new(3, 3), 2, &vec![1.0], 1);
    assert_eq!(
        lit(&c, 0),
        vec![(2, 1), (3, 1), (4, 1), (1, 2), (5, 2), (1, 3), (5, 3), (1, 4), (5, 4), (2, 5), (3, 5), (4, 5)]
    );
    let mut d = canvas(1, 5, 5);
    d.draw_circle(Point::new(2, 2), 1, &vec![1.0], -1);
    assert_eq!(lit(&d, 0), vec![(2, 1), (1, 2), (2, 2), (3, 2), (2, 3)]);
}

#[test]
fn markers_cross_and_square() {
    let mut c = canvas(1, 7, 7);
    c.draw_marker(Point::new(3, 3), &vec![1.0], MarkerType::Cross, 4);
    assert_eq!(lit(&c, 0), vec![(3, 1), (3, 2), (1, 3), (2, 3), (3, 3), (4, 3), (5, 3), (3, 4), (3, 5)]);
    let mut s = canvas(1, 7, 7);
    s.draw_marker(Point::new(3, 3), &vec![1.0], MarkerType::Square, 2);
    assert_eq!(lit(&s, 0), vec![(2, 2), (3, 2), (4, 2), (2, 3), (4, 3), (2, 4), (3, 4), (4, 4)]);
    let mut t = canvas(1, 7, 7);
    t.draw_marker(Point::new(3, 3), &vec![1.0], MarkerType::TiltedCross, 2);
    assert_eq!(lit(&t, 0), vec![(2, 2), (4, 2), (3, 3), (2, 4), (4, 4)]);
    let mut dmd = canvas(1, 7, 7);
    dmd.draw_marker(Point::new(3, 3), &vec![1.0], MarkerType::Diamond, 2);
    assert_eq!(lit(&dmd, 0), vec![(3, 2), (2, 3), (4, 3), (3, 4)]);
}

#[test]
fn side_by_side_places_both_images() {
    let a = Canvas { channels: 1, height: 2, width: 2, data: vec![1.0f32, 2.0, 3.0, 4.0] };
    let b = Canvas { channels: 2, height: 3, width: 1, data: vec![5.0f32, 6.0, 7.0, 8.0, 9.0, 10.0] };
    let out = Canvas::side_by_side(&a, &b, -1.0);
    assert_eq!((out.channels, out.height, out.width), (1, 3, 3));
    assert_eq!(out.data, vec![1.0, 2.0, 5.0, 3.0, 4.0, 6.0, -1.0, -1.0, 7.0]);
}

#[test]
fn draw_matches_joins_keypoints() {
    let a = canvas(1, 4, 4);
    let b = canvas(1, 4, 4);
    let kps1 = vec![Point::new(0, 0), Point::new(3, 3)];
    let kps2 = vec![Point::new(0, 0), Point::new(1, 3)];
    let out = iris::features::MatchDrawer::draw_matches(&a, &kps1, &b, &kps2, &vec![(0, 0)], &vec![1.0], 0.0);
    assert_eq!((out.height, out.width), (4, 8));
    assert_eq!(lit(&out, 0), vec![(0, 0), (1, 0), (2, 0), (3, 0), (4, 0)]);
    let out = iris::features::MatchDrawer::draw_matches(&a, &kps1, &b, &kps2, &vec![(1, 1)], &vec![1.0], 0.0);
    assert_eq!(lit(&out, 0), vec![(3, 3), (4, 3), (5, 3)]);
    let none = iris::features::MatchDrawer::draw_matches(&a, &kps1, &b, &kps2, &Vec::new(), &vec![1.0], 0.0);
    assert!(lit(&none, 0).is_empty());
}

fn test_font() -> [[u8; 5]; 128] {
    let mut f = [[0u8; 5]; 128];
    // 'I': a single full-height middle column.
    f[b'I' as usize] = [0, 0, 0x7f, 0, 0];
    // '.': the bottom row of the first column.
    f[b'.' as usize] = [0x40, 0, 0, 0, 0];
    // Glyph 127 marks its top-left cell.
    f[127] = [0x01, 0, 0, 0, 0];
    f
}

#[test]
fn draw_text_places_glyph_cells() {
    let font = test_font();
    let mut c = canvas(1, 10, 20);
    c.draw_text(b"I.", Point::new(1, 1), 1, &vec![1.0], &font);
    assert_eq!(lit(&c, 0), vec![(3, 1), (3, 2), (3, 3), (3, 4), (3, 5), (3, 6), (3, 7), (7, 7)]);
    let mut s = canvas(1, 10, 10);
    s.draw_text(&[200u8], Point::new(2, 3), 2, &vec![1.0], &font);
    assert_eq!(lit(&s, 0), vec![(2, 3), (3, 3), (2, 4), (3, 4)]);
    let mut z = canvas(1, 3, 3);
    z.draw_text(b"I", Point::new(0, 0), 0, &vec![1.0], &font);
    assert_eq!(lit(&z, 0), vec![(2, 0), (2, 1), (2, 2)]);
}

#[test]
fn sort_and_fill_spans() {
    assert_eq!(sort_ascending(&vec![5, 1, 4, 1, 9]), vec![1, 1, 4, 5, 9]);
    assert!(sort_ascending(&Vec::new()).is_empty());
    let mut c = canvas(1, 3, 10);
    c.fill_spans(1, &vec![1, 3, 6, 20, 8], &vec![1.0]);
    assert_eq!(lit(&c, 0), vec![(1, 1), (2, 1), (3, 1), (6, 1), (7, 1), (8, 1), (9, 1)]);
    let mut d = canvas(1, 2, 4);
    d.fill_spans(0, &vec![2], &vec![1.0]);
    assert!(lit(&d, 0).is_empty());
}

#[test]
fn circle_far_off_the_canvas_draws_nothing() {
    let mut c = canvas(1, 5, 5);
    c.draw_circle(Point::new(1000, 2), 3, &vec![1.0], 1);
    c.draw_circle(Point::new(2, 1000), 3, &vec![1.0], -1);
    assert!(lit(&c, 0).is_empty());
    c.draw_circle(Point::new(6, 2), 2, &vec![1.0], -1);
    assert_eq!(lit(&c, 0), vec![(4, 2)]);
}

#[test]
fn filled_circle_of_the_largest_radius() {
    let mut c = Canvas::filled(1, 4, 5, 0.0f32);
    c.draw_circle(Point::new(2, 2), iris::drawing::CIRCLE_LIMIT, &vec![1.0], -1);
    assert!(c.data.iter().all(|&v| v == 1.0));
    // Far enough away, even the largest disc misses the canvas.
    let mut d = Canvas::filled(1, 4, 5, 0.0f32);
    d.draw_circle(Point::new(2, 4_000_000_000), iris::drawing::CIRCLE_LIMIT, &vec![1.0], -1);
    assert!(d.data.iter().all(|&v| v == 0.0));
}

#[test]
fn far_coordinates_are_accepted() {
    let far = 1usize << 61;
    let mut c = Canvas::filled(1, 4, 5, 0.0f32);
    c.draw_line(Point::new(far, far), Point::new(far, far), &vec![1.0]);
    c.draw_line(Point::new(far, 2), Point::new(far + 3, 2), &vec![1.0]);
    assert!(c.data.iter().all(|&v| v == 0.0));
    let mut d = Canvas::filled(1, 4, 5, 0.0f32);
    d.draw_circle(Point::new(far, far), 3, &vec![1.0], 1);
    assert!(d.data.iter().all(|&v| v == 0.0));
}
