use inverse_design::brushes::Brush;
use inverse_design::design::Design;

fn bits(v: &Vec<bool>) -> String {
    v.iter().map(|b| if *b { '1' } else { '0' }).collect()
}

fn scenario_design() -> Design {
    Design::new((6, 8), Brush::notched_square(5, 1))
}

fn planes(d: &Design) -> Vec<Vec<bool>> {
    vec![
        d.void.clone(),
        d.solid.clone(),
        d.void_pixel_impossible.clone(),
        d.void_pixel_existing.clone(),
        d.void_pixel_required.clone(),
        d.solid_pixel_impossible.clone(),
        d.solid_pixel_existing.clone(),
        d.solid_pixel_required.clone(),
        d.void_touch_required.clone(),
        d.void_touch_invalid.clone(),
        d.void_touch_existing.clone(),
        d.solid_touch_required.clone(),
        d.solid_touch_invalid.clone(),
        d.solid_touch_existing.clone(),
    ]
}

fn check_invariants(d: &Design) {
    let (m, n) = d.shape;
    for k in 0..m * n {
        // existing pixels of the two polarities never overlap
        assert!(!(d.void_pixel_existing[k] && d.solid_pixel_existing[k]));
        // existing in one polarity means impossible in the other
        assert!(!d.void_pixel_existing[k] || d.solid_pixel_impossible[k]);
        assert!(!d.solid_pixel_existing[k] || d.void_pixel_impossible[k]);
        // existing pixels are painted
        assert!(!d.void_pixel_existing[k] || d.void[k]);
        assert!(!d.solid_pixel_existing[k] || d.solid[k]);
    }
    for i in 0..m {
        for j in 0..n {
            let k = i * n + j;
            if d.void_touch_existing[k] {
                for (a, b) in d.brush.at((i, j), d.shape) {
                    assert!(d.void_pixel_existing[a * n + b]);
                }
                // every void touch, free ones included, invalidates around it
                for (a, b) in d.big_brush.at((i, j), d.shape) {
                    assert!(d.solid_touch_invalid[a * n + b]);
                }
                assert!(!d.void_touch_invalid[k]);
            }
            if d.solid_touch_existing[k] {
                for (a, b) in d.brush.at((i, j), d.shape) {
                    assert!(d.solid_pixel_existing[a * n + b]);
                }
            }
            if d.void_pixel_required[k] {
                for (a, b) in d.brush.at((i, j), d.shape) {
                    assert!(d.solid_touch_invalid[a * n + b]);
                }
            }
            let touches_void = d.brush.at((i, j), d.shape).iter().any(|(a, b)| d.void_pixel_existing[a * n + b]);
            assert_eq!(touches_void, d.solid_touch_invalid[k]);
            let touches_solid = d.brush.at((i, j), d.shape).iter().any(|(a, b)| d.solid_pixel_existing[a * n + b]);
            assert_eq!(touches_solid, d.void_touch_invalid[k]);
        }
    }
}

#[test]
fn new_design_is_blank() {
    let d = scenario_design();
    for plane in planes(&d) {
        assert_eq!(plane, vec![false; 48]);
    }
    assert_eq!(d.big_brush.shape, (9, 9));
    assert_eq!(d.very_big_brush.shape, (15, 15));
}

#[test]
fn first_void_touch_paints_and_invalidates() {
    let mut d = scenario_design();
    let (required, resolving) = d.add_void_touch((0, 6));
    assert!(required.is_empty());
    assert!(resolving.is_empty());
    assert!(d.void_touch_existing[6]);
    for (i, j) in d.brush.at((0, 6), (6, 8)) {
        assert!(d.void_pixel_existing[i * 8 + j]);
        assert!(d.solid_pixel_impossible[i * 8 + j]);
    }
    assert_eq!(bits(&d.void_pixel_existing), "000011110000111100000111000000000000000000000000");
    // the free touch at (0, 7) is taken as well
    assert_eq!(bits(&d.void_touch_existing), "000000110000000000000000000000000000000000000000");
    assert_eq!(bits(&d.solid_touch_invalid), "001111110011111100111111000111110000111100000000");
    check_invariants(&d);
}

#[test]
fn solid_touch_paints_the_solid_polarity() {
    let mut d = scenario_design();
    d.add_void_touch((0, 6));
    let (required, resolving) = d.add_solid_touch((0, 0));
    assert!(required.is_empty());
    assert!(resolving.is_empty());
    assert_eq!(bits(&d.solid_pixel_existing), "111000001110000011000000000000000000000000000000");
    assert_eq!(bits(&d.solid_touch_existing), "100000000000000000000000000000000000000000000000");
    check_invariants(&d);
}

#[test]
fn scenario_required_and_resolving_sets() {
    let mut d = scenario_design();
    d.add_void_touch((0, 6));
    d.add_solid_touch((0, 0));
    let (required, resolving) = d.add_void_touch((4, 6));
    assert_eq!(required, vec![(2, 4)]);
    assert!(resolving.is_empty());
    check_invariants(&d);
    let (required, resolving) = d.add_void_touch((4, 4));
    assert_eq!(required, vec![(4, 0), (4, 1), (5, 0), (5, 1)]);
    assert_eq!(resolving, vec![(5, 0), (5, 1), (5, 2), (5, 0), (5, 1), (5, 2)]);
    check_invariants(&d);
    let (required, resolving) = d.add_void_touch((5, 0));
    assert!(required.is_empty());
    assert!(resolving.is_empty());
    let (required, resolving) = d.add_void_touch((2, 5));
    assert_eq!(required, vec![(0, 3), (2, 2)]);
    assert!(resolving.is_empty());
    check_invariants(&d);
    assert_eq!(bits(&d.void), "000111110001111100111111111111111111111111111111");
    assert_eq!(bits(&d.solid), "111000001110000011000000000000000000000000000000");
    assert_eq!(bits(&d.void_touch_existing), "000001110000011100000111000011110001111111111111");
    for k in 0..48 {
        assert!(d.void[k] || d.solid[k]);
    }
}

#[test]
fn invert_twice_is_identity() {
    let mut d = scenario_design();
    d.add_void_touch((0, 6));
    d.add_solid_touch((0, 0));
    let before = planes(&d);
    d.invert();
    assert_ne!(planes(&d), before);
    assert_eq!(d.void, before[1]);
    d.invert();
    assert_eq!(planes(&d), before);
}

#[test]
fn solid_touch_equals_inverted_void_touch() {
    let mut a = scenario_design();
    let mut b = scenario_design();
    a.add_void_touch((0, 6));
    b.add_void_touch((0, 6));
    let ra = a.add_solid_touch((3, 1));
    b.invert();
    let rb = b.add_void_touch((3, 1));
    b.invert();
    assert_eq!(ra, rb);
    assert_eq!(planes(&a), planes(&b));
}

#[test]
fn required_pixels_are_covered_by_free_touches() {
    let mut d = Design::new((5, 5), Brush::notched_square(3, 0));
    assert_eq!(d.add_void_touch((0, 0)), (vec![], vec![]));
    assert_eq!(d.add_solid_touch((4, 4)), (vec![], vec![]));
    let (required, resolving) = d.add_void_touch((2, 0));
    assert_eq!(required, vec![(4, 0), (4, 1)]);
    assert!(resolving.is_empty());
    assert_eq!(bits(&d.void_pixel_existing), "1100011000110001100011000");
    assert_eq!(bits(&d.solid_pixel_existing), "0000000000000000001100011");
    assert_eq!(bits(&d.void_pixel_required), "0000000000000000000000000");
    check_invariants(&d);
}

#[test]
fn notched_brush_is_symmetric_and_splittable() {
    let b = Brush::notched_square(5, 1).brush;
    for x in b.iter() {
        assert!(b.contains(&(-x.0, -x.1)));
    }
    let between = |v: i32, o: i32| (0 <= v && v <= o) || (o <= v && v <= 0);
    for a in b.iter() {
        for c in b.iter() {
            let o = (a.0 + c.0, a.1 + c.1);
            let split = b.iter().any(|x| {
                b.contains(&(o.0 - x.0, o.1 - x.1)) && between(x.0, o.0) && between(x.1, o.1)
            });
            assert!(split);
        }
    }
}
