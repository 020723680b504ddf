use iris::contours::{build_hierarchy, Contour, RetrievalMode};
use iris::geometry::orientation;
use iris::hull::monotone_chain_hull;
use iris::trace::find_contours_in;
use iris::types::{Point, Rect};

fn pts(v: &[(usize, usize)]) -> Vec<Point<usize>> {
    v.iter().map(|&(x, y)| Point::new(x, y)).collect()
}

#[test]
fn hull_of_square_with_interior_point() {
    let c = Contour::new(pts(&[(0, 0), (4, 0), (4, 4), (0, 4), (2, 2)]));
    let h = c.convex_hull();
    assert_eq!(h.points, pts(&[(0, 0), (4, 0), (4, 4), (0, 4)]));
}

#[test]
fn hull_drops_collinear_and_interior_points() {
    let h = monotone_chain_hull(&pts(&[(0, 0), (1, 1), (2, 2), (3, 3)]));
    assert_eq!(h, pts(&[(0, 0), (3, 3)]));
    let h = monotone_chain_hull(&pts(&[(3, 1), (0, 0), (5, 0), (2, 6), (1, 2), (3, 3)]));
    assert_eq!(h, pts(&[(0, 0), (5, 0), (2, 6)]));
}

#[test]
fn hull_of_small_contour_is_unchanged() {
    let c = Contour::new(pts(&[(5, 5), (1, 1), (3, 0)]));
    assert_eq!(c.convex_hull().points, pts(&[(5, 5), (1, 1), (3, 0)]));
    let empty = Contour::new(Vec::new());
    assert!(empty.convex_hull().points.is_empty());
}

#[test]
fn orientation_signs() {
    let o = Point::new(0, 0);
    assert_eq!(orientation(&o, &Point::new(1, 0), &Point::new(0, 1)), 1);
    assert_eq!(orientation(&o, &Point::new(0, 1), &Point::new(1, 0)), -1);
    assert_eq!(orientation(&o, &Point::new(2, 2), &Point::new(4, 4)), 0);
}

#[test]
fn bounding_rect_spans_extremes() {
    let c = Contour::new(pts(&[(3, 7), (10, 2), (5, 12)]));
    assert_eq!(c.bounding_rect(), Rect::new(3, 2, 7, 10));
    let one = Contour::new(pts(&[(4, 4)]));
    assert_eq!(one.bounding_rect(), Rect::new(4, 4, 0, 0));
    let none = Contour::new(Vec::new());
    assert_eq!(none.bounding_rect(), Rect::new(0, 0, 0, 0));
}

#[test]
fn contour_clone_keeps_points() {
    let c = Contour::new(pts(&[(1, 2), (3, 4)]));
    let d = c.clone();
    assert_eq!(d.points, c.points);
}

fn grid(w: usize, h: usize, on: &[(usize, usize)]) -> Vec<bool> {
    let mut g = vec![false; w * h];
    for &(x, y) in on {
        g[y * w + x] = true;
    }
    g
}

#[test]
fn trace_square_block() {
    let g = grid(4, 4, &[(1, 1), (2, 1), (1, 2), (2, 2)]);
    let cs = find_contours_in(&g, 4, 4, false);
    assert_eq!(cs.len(), 1);
    assert_eq!(cs[0], pts(&[(1, 1), (2, 1), (2, 2), (1, 2), (1, 1)]));
    let cs = find_contours_in(&g, 4, 4, true);
    assert_eq!(cs.len(), 1);
    assert_eq!(cs[0], pts(&[(1, 1), (2, 1), (2, 2), (1, 2), (1, 1)]));
}

#[test]
fn trace_skips_lone_pixels_and_border() {
    let g = grid(3, 3, &[(1, 1)]);
    assert!(find_contours_in(&g, 3, 3, false).is_empty());
    let g = grid(3, 3, &[(0, 0), (1, 0), (2, 0)]);
    assert!(find_contours_in(&g, 3, 3, false).is_empty());
    let g = grid(2, 1, &[(0, 0)]);
    assert!(find_contours_in(&g, 2, 1, false).is_empty());
}

#[test]
fn hierarchy_tree_and_external() {
    let parent = vec![None, Some(0), Some(0), None];
    let (idx, hier) = build_hierarchy(&parent, RetrievalMode::Tree);
    assert_eq!(idx, vec![0, 1, 2, 3]);
    assert_eq!(hier[0], [-1, -1, 1, -1]);
    assert_eq!(hier[1], [2, -1, -1, 0]);
    assert_eq!(hier[2], [-1, 1, -1, 0]);
    assert_eq!(hier[3], [-1, -1, -1, -1]);

    let (idx, hier) = build_hierarchy(&parent, RetrievalMode::External);
    assert_eq!(idx, vec![0, 3]);
    assert_eq!(hier, vec![[-1, -1, -1, -1], [-1, -1, -1, -1]]);

    let (idx, hier) = build_hierarchy(&Vec::new(), RetrievalMode::List);
    assert!(idx.is_empty());
    assert!(hier.is_empty());
}

#[test]
fn test_find_contours_with_hierarchy() {
    let mut on = Vec::new();
    for y in 2..5 {
        for x in 2..5 {
            on.push((x, y));
        }
    }
    for y in 12..15 {
        for x in 12..15 {
            on.push((x, y));
        }
    }
    let g = grid(20, 20, &on);
    let contours = find_contours_in(&g, 20, 20, true);
    assert!(!contours.is_empty());
    assert_eq!(contours.len(), 2);
    let parents = vec![None; contours.len()];
    let (kept, hierarchy) = build_hierarchy(&parents, RetrievalMode::External);
    assert_eq!(kept.len(), hierarchy.len());
    assert_eq!(kept, vec![0, 1]);
    for h in &hierarchy {
        assert_eq!(h.len(), 4);
    }
    assert_eq!(hierarchy, vec![[-1, -1, -1, -1], [-1, -1, -1, -1]]);
}

#[test]
fn test_contours_and_moments() {
    let contour = Contour::new(pts(&[(0, 0), (10, 0), (10, 10), (0, 10)]));
    let hull = contour.convex_hull();
    assert_eq!(hull.points.len(), 4);

    // A 3x3 block in a 10x10 mask.
    let mut on = Vec::new();
    for y in 2..5 {
        for x in 2..5 {
            on.push((x, y));
        }
    }
    let g = grid(10, 10, &on);
    let found = find_contours_in(&g, 10, 10, false);
    assert!(!found.is_empty());
}

#[test]
fn hierarchy_list_is_flat() {
    let parent = vec![None, Some(0), Some(0), None];
    let (idx, hier) = build_hierarchy(&parent, RetrievalMode::List);
    assert_eq!(idx, vec![0, 1, 2, 3]);
    assert!(hier.iter().all(|e| *e == [-1, -1, -1, -1]));
}

#[test]
fn hierarchy_ccomp_has_two_levels() {
    // An outer contour, a hole in it, a contour inside the hole, a hole in that.
    let parent = vec![None, Some(0), Some(1), Some(2)];
    let (idx, hier) = build_hierarchy(&parent, RetrievalMode::CComp);
    assert_eq!(idx, vec![0, 1, 2, 3]);
    assert_eq!(hier, vec![[-1, -1, 1, -1], [-1, -1, -1, 0], [-1, -1, 3, -1], [-1, -1, -1, 2]]);
    let (_, tree) = build_hierarchy(&parent, RetrievalMode::Tree);
    assert_eq!(tree[2], [-1, -1, 3, 1]);
}

#[test]
fn hull_drops_edge_and_interior_points_and_is_stable() {
    let c = Contour::new(pts(&[(0, 0), (2, 0), (1, 0), (2, 2), (0, 2), (1, 1)]));
    let h = c.convex_hull();
    assert_eq!(h.points, pts(&[(0, 0), (2, 0), (2, 2), (0, 2)]));
    assert_eq!(h.convex_hull().points, h.points);
    let all_same = Contour::new(pts(&[(3, 3), (3, 3), (3, 3), (3, 3)]));
    assert_eq!(all_same.convex_hull().points, pts(&[(3, 3), (3, 3)]));
}

#[test]
fn list_retrieves_what_tree_retrieves() {
    let parent = vec![None, Some(0), Some(1), None, Some(3)];
    let (list_idx, list_hier) = build_hierarchy(&parent, RetrievalMode::List);
    let (tree_idx, _) = build_hierarchy(&parent, RetrievalMode::Tree);
    assert_eq!(list_idx, tree_idx);
    assert!(list_hier.iter().all(|e| e[2] == -1 && e[3] == -1));
}

#[test]
fn hull_of_far_away_points() {
    let base = 1usize << 61;
    let c = Contour::new(pts(&[(base, base), (base + 4, base), (base + 4, base + 4), (base, base + 4), (base + 2, base + 2)]));
    assert_eq!(c.convex_hull().points, pts(&[(base, base), (base + 4, base), (base + 4, base + 4), (base, base + 4)]));
}
