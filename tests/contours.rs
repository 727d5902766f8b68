use rusto::candidates::{
    contour_area_twice, contour_candidates, order_by_key_desc, reading_order, select_candidates,
};
use rusto::contours::{
    approx_simple, contours_from_labels, extract_boundary, find_contours, is_boundary_pixel,
    is_boundary_pixel_label, simplify_contour, Contour,
};
use rusto::labels::label_components;
use rusto::raster::{dilate_2x2, is_border_pixel, GrayMask, Size};

fn mask_with_square(w: u32, h: u32, x0: u32, y0: u32, side: u32, v: u8) -> GrayMask {
    let mut img = GrayMask::new(w, h);
    for x in x0..x0 + side {
        for y in y0..y0 + side {
            img.put_pixel(x, y, v);
        }
    }
    img
}

#[test]
fn test_find_contours_simple() {
    let mut img = GrayMask::new(10, 10);

    // Draw a simple rectangle
    for x in 2..8 {
        for y in 2..8 {
            img.put_pixel(x, y, 255);
        }
    }

    let contours = find_contours(&img);
    assert!(!contours.is_empty(), "Should find at least one contour");
}

#[test]
fn six_by_six_square_gives_one_contour_of_its_outline() {
    let img = mask_with_square(12, 12, 3, 3, 6, 128);
    let contours = find_contours(&img);
    assert_eq!(contours.len(), 1);
    let pts = &contours[0].points;
    assert_eq!(pts.len(), 20);
    assert_eq!(pts[0], (3, 3));
    assert_eq!(pts[pts.len() - 1], (8, 8));
    for &(x, y) in pts {
        assert!(x == 3 || x == 8 || y == 3 || y == 8);
    }
    let cands = contour_candidates(&img, false, 1000);
    assert_eq!(cands.len(), 1);
    assert_eq!(cands[0].points, contours[0].points);
}

#[test]
fn dilated_square_grows_by_one_pixel() {
    let img = mask_with_square(12, 12, 3, 3, 6, 128);
    let cands = contour_candidates(&img, true, 1000);
    assert_eq!(cands.len(), 1);
    // the 2 x 2 window reaches right and down: the square spans 2..=8
    assert_eq!(cands[0].points.len(), 24);
    assert_eq!(cands[0].points[0], (2, 2));
    assert_eq!(cands[0].points[23], (8, 8));
}

#[test]
fn threshold_is_strictly_above_127() {
    let img = mask_with_square(8, 8, 2, 2, 4, 127);
    assert!(find_contours(&img).is_empty());
    let img = mask_with_square(8, 8, 2, 2, 4, 128);
    assert_eq!(find_contours(&img).len(), 1);
}

#[test]
fn all_background_mask_gives_no_candidates() {
    let mut img = GrayMask::new(16, 9);
    for x in 0..16 {
        for y in 0..9 {
            img.put_pixel(x, y, ((x * 7 + y * 3) % 128) as u8);
        }
    }
    assert!(find_contours(&img).is_empty());
    assert!(contour_candidates(&img, false, 1000).is_empty());
    assert!(contour_candidates(&img, true, 1000).is_empty());
    let empty = GrayMask::new(0, 0);
    assert!(contour_candidates(&empty, true, 10).is_empty());
}

#[test]
fn labels_follow_raster_order_and_seeds_are_first_pixels() {
    let mut img = GrayMask::new(10, 6);
    // region A: a vertical bar at x = 7, rows 0..4
    for y in 0..4 {
        img.put_pixel(7, y, 200);
    }
    // region B: an L shape starting at (1, 2)
    img.put_pixel(1, 2, 255);
    img.put_pixel(1, 3, 255);
    img.put_pixel(2, 3, 255);
    // diagonal neighbour of B only: a separate region under 4-connectivity
    img.put_pixel(3, 4, 255);
    let (lm, seeds) = label_components(&img);
    assert_eq!(seeds, vec![(7, 0), (1, 2), (3, 4)]);
    assert_eq!(lm.get(7, 3), 1);
    assert_eq!(lm.get(2, 3), 2);
    assert_eq!(lm.get(3, 4), 3);
    assert_eq!(lm.get(0, 0), 0);
    let cs = contours_from_labels(&lm, 3);
    // the single pixel has a boundary of one point, which gives no contour
    assert_eq!(cs.len(), 2);
    assert_eq!(cs[0].points, vec![(7, 0), (7, 1), (7, 2), (7, 3)]);
    assert_eq!(cs[1].points, vec![(1, 2), (1, 3), (2, 3)]);
}

#[test]
fn boundary_of_a_block_skips_its_interior() {
    let img = mask_with_square(5, 5, 1, 1, 3, 255);
    let (lm, seeds) = label_components(&img);
    assert_eq!(seeds.len(), 1);
    let b = extract_boundary(&lm, 1);
    assert_eq!(
        b,
        vec![(1, 1), (2, 1), (3, 1), (1, 2), (3, 2), (1, 3), (2, 3), (3, 3)]
    );
    assert!(!is_boundary_pixel_label(&lm, 2, 2, 1));
    assert!(is_boundary_pixel_label(&lm, 1, 2, 1));
    assert!(is_boundary_pixel_label(&lm, 2, 2, 7));
    assert!(!is_boundary_pixel(&lm, 2, 2));
    assert!(is_boundary_pixel(&lm, 0, 0));
    assert!(is_border_pixel(&img, 1, 1));
    assert!(!is_border_pixel(&img, 2, 2));
}

#[test]
fn region_touching_the_edge_is_boundary_there() {
    let img = mask_with_square(3, 3, 0, 0, 3, 255);
    let (lm, _) = label_components(&img);
    let b = extract_boundary(&lm, 1);
    assert_eq!(b.len(), 8);
    assert!(!b.contains(&(1, 1)));
}

#[test]
fn dilation_takes_the_max_of_a_clamped_two_by_two_window() {
    let mut img = GrayMask::new(4, 3);
    img.put_pixel(2, 1, 200);
    img.put_pixel(3, 2, 90);
    let d = dilate_2x2(&img);
    let rows: Vec<Vec<u8>> = (0..3).map(|y| (0..4).map(|x| d.get_pixel(x, y)).collect()).collect();
    assert_eq!(rows[0], vec![0, 200, 200, 0]);
    assert_eq!(rows[1], vec![0, 200, 200, 90]);
    assert_eq!(rows[2], vec![0, 0, 90, 90]);
}

#[test]
fn dilation_joins_regions_one_pixel_apart() {
    let mut img = GrayMask::new(6, 3);
    img.put_pixel(1, 1, 255);
    img.put_pixel(3, 1, 255);
    assert_eq!(find_contours(&img).len(), 0);
    let (_, seeds) = label_components(&img);
    assert_eq!(seeds.len(), 2);
    let (_, seeds) = label_components(&dilate_2x2(&img));
    assert_eq!(seeds.len(), 1);
}

#[test]
fn approx_simple_drops_points_collinear_with_input_neighbours() {
    let c = Contour { points: vec![(0, 0), (1, 0), (2, 0), (2, 1), (2, 2), (1, 2)] };
    let r = approx_simple(&c);
    assert_eq!(r.points, vec![(0, 0), (2, 0), (2, 2), (1, 2)]);
    let short = Contour { points: vec![(5, 5), (6, 6)] };
    assert_eq!(approx_simple(&short).points, vec![(5, 5), (6, 6)]);
}

#[test]
fn simplify_compares_with_the_last_kept_point() {
    // (1,0) is dropped; the return to (0,0) is then checked against the kept
    // (0,0) and drops too, while approx_simple checks it against (1,0).
    let pts = vec![(0, 0), (1, 0), (0, 0), (0, 1), (0, 2)];
    assert_eq!(simplify_contour(&pts), vec![(0, 0), (0, 2)]);
    let c = Contour { points: pts.clone() };
    assert_eq!(approx_simple(&c).points, vec![(0, 0), (0, 0), (0, 2)]);
    let turning = vec![(0, 0), (1, 0), (2, 1), (4, 2), (4, 5)];
    assert_eq!(simplify_contour(&turning), turning);
    let three = vec![(0, 0), (1, 0), (2, 0)];
    assert_eq!(simplify_contour(&three), three);
}

#[test]
fn contour_accessors() {
    let c = Contour::new();
    assert!(c.is_empty());
    assert_eq!(c.len(), 0);
    let c = Contour { points: vec![(1, 2)] };
    assert!(!c.is_empty());
    assert_eq!(c.len(), 1);
    let s = Size::new(640, 480);
    assert_eq!((s.width, s.height), (640, 480));
}

#[test]
fn double_area_by_shoelace() {
    let sq = Contour { points: vec![(0, 0), (4, 0), (4, 4), (0, 4)] };
    assert_eq!(contour_area_twice(&sq), 32);
    let tri = Contour { points: vec![(0, 0), (0, 3), (5, 0)] };
    assert_eq!(contour_area_twice(&tri), 15);
    let two = Contour { points: vec![(0, 0), (9, 9)] };
    assert_eq!(contour_area_twice(&two), 0);
    let far = Contour {
        points: vec![(i32::MIN, i32::MIN), (i32::MAX, i32::MIN), (i32::MAX, i32::MAX), (i32::MIN, i32::MAX)],
    };
    let side = ((i32::MAX as i128) - (i32::MIN as i128)) as u128;
    assert_eq!(contour_area_twice(&far), 2 * side * side);
}

#[test]
fn order_is_by_decreasing_key_and_stable() {
    assert_eq!(order_by_key_desc(&vec![3, 9, 3, 1, 9]), vec![1, 4, 0, 2, 3]);
    assert_eq!(order_by_key_desc(&vec![]), Vec::<usize>::new());
}

#[test]
fn candidates_are_largest_first_capped_and_need_four_points() {
    let small = Contour { points: vec![(0, 0), (2, 0), (2, 2), (0, 2)] };
    let big = Contour { points: vec![(0, 0), (10, 0), (10, 10), (0, 10)] };
    let tri = Contour { points: vec![(0, 0), (30, 0), (0, 30)] };
    let cs = vec![small.clone(), big.clone(), tri.clone()];
    let r = select_candidates(&cs, 10);
    assert_eq!(r.len(), 2);
    assert_eq!(r[0].points, big.points);
    assert_eq!(r[1].points, small.points);
    let r = select_candidates(&cs, 1);
    // the largest is the triangle, which has too few points
    assert_eq!(r.len(), 0);
    let r = select_candidates(&cs, 2);
    assert_eq!(r.len(), 1);
    assert_eq!(r[0].points, big.points);
}

#[test]
fn boxes_read_by_row_then_column_stably() {
    let keys = vec![(30, 5), (10, 50), (10, 2), (30, 5), (-1, 100)];
    assert_eq!(reading_order(&keys), vec![4, 2, 1, 0, 3]);
    assert!(reading_order(&vec![]).is_empty());
}
