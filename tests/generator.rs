use inverse_design::brushes::Brush;
use inverse_design::design::Design;
use inverse_design::generator::{generate_feasible_design, resolve_required_void_pixels, sort_indices_by_value, void_step};

fn bits(v: &Vec<bool>) -> String {
    v.iter().map(|b| if *b { '1' } else { '0' }).collect()
}

fn striped_latent(m: usize, n: usize) -> Vec<i32> {
    let mut v = Vec::new();
    for i in 0..m {
        for j in 0..n {
            let magnitude = (1 + i * n + j) as i32;
            v.push(if j < 5 { -magnitude } else { magnitude });
        }
    }
    v
}

fn assert_consistent(d: &Design) {
    let (m, n) = d.shape;
    for i in 0..m {
        for j in 0..n {
            let k = i * n + j;
            let under: Vec<usize> = d.brush.at((i, j), d.shape).iter().map(|(a, b)| a * n + b).collect();
            if d.void_touch_existing[k] {
                assert!(under.iter().all(|x| d.void_pixel_existing[*x]));
            }
            if d.solid_touch_existing[k] {
                assert!(under.iter().all(|x| d.solid_pixel_existing[*x]));
            }
            assert_eq!(under.iter().any(|x| d.void_pixel_existing[*x]), d.solid_touch_invalid[k]);
            assert_eq!(under.iter().any(|x| d.solid_pixel_existing[*x]), d.void_touch_invalid[k]);
            if d.void_pixel_required[k] {
                assert!(under.iter().all(|x| d.solid_touch_invalid[*x]));
            }
            if d.solid_pixel_required[k] {
                assert!(under.iter().all(|x| d.void_touch_invalid[*x]));
            }
            assert!(!(d.void_pixel_existing[k] && d.solid_pixel_existing[k]));
        }
    }
}

#[test]
fn generated_designs_keep_the_invariants() {
    let (m, n) = (16, 14);
    let mut latent = Vec::new();
    for i in 0..m {
        for j in 0..n {
            latent.push((((i * 31 + j * 17) % 29) as i32 - 14) * (1 + (i + j) as i32 % 3));
        }
    }
    let d = generate_feasible_design((m, n), &latent, Brush::notched_square(5, 1));
    assert_consistent(&d);
    let d = generate_feasible_design((m, n), &striped_latent(m, n), Brush::notched_square(3, 0));
    assert_consistent(&d);
}

#[test]
fn sort_keeps_equal_keys_in_order() {
    let mut idx = vec![(1, 1), (0, 0), (1, 0), (0, 1)];
    let values = vec![5i64, 5, 5, 5];
    sort_indices_by_value(&mut idx, &values, (2, 2));
    assert_eq!(idx, vec![(1, 1), (0, 0), (1, 0), (0, 1)]);
}

#[test]
fn resolving_places_the_largest_key_first() {
    let mut d = Design::new((6, 8), Brush::notched_square(5, 1));
    d.add_void_touch((0, 6));
    d.add_solid_touch((0, 0));
    d.add_void_touch((4, 6));
    let (mut required, mut resolving) = d.add_void_touch((4, 4));
    assert_eq!(required, vec![(4, 0), (4, 1), (5, 0), (5, 1)]);
    // keys favour (5, 1) among the resolving touches
    let mut keys = vec![0i64; 48];
    keys[5 * 8 + 1] = 9;
    resolve_required_void_pixels(&mut d, &mut required, &mut resolving, &keys);
    assert!(d.void_touch_existing[5 * 8 + 1]);
    assert!(required.iter().all(|(i, j)| !d.void_pixel_required[i * 8 + j]) || resolving.is_empty());
}

#[test]
fn sort_is_stable_and_ascending() {
    let mut idx = vec![(0, 0), (0, 1), (1, 0), (1, 1)];
    let values = vec![3i64, -1, 3, 0];
    sort_indices_by_value(&mut idx, &values, (2, 2));
    assert_eq!(idx, vec![(0, 1), (1, 1), (0, 0), (1, 0)]);
}

#[test]
fn void_step_skips_invalid_or_existing_centres() {
    let mut d = Design::new((6, 8), Brush::notched_square(5, 1));
    let (r, t) = void_step(&mut d, (0, 6));
    assert!(r.is_empty() && t.is_empty());
    assert!(d.void_touch_existing[6]);
    let before = d.void.clone();
    let (r, t) = void_step(&mut d, (0, 6));
    assert!(r.is_empty() && t.is_empty());
    assert_eq!(d.void, before);
}

#[test]
fn striped_latent_gives_expected_design() {
    let (m, n) = (12, 10);
    let design = generate_feasible_design((m, n), &striped_latent(m, n), Brush::notched_square(5, 1));
    assert_eq!(
        bits(&design.void),
        "111000000011100000001110000000111000000011100000001110000000111000000011100000001110000000111000000011100000001110000000"
    );
    assert_eq!(
        bits(&design.void_touch_existing),
        "100000000010000000001000000000100000000010000000001000000000100000000010000000001000000000100000000010000000001000000000"
    );
    assert_eq!(
        bits(&design.solid_touch_existing),
        "000001111100000111110000011111000001111100000111110000011111000001111100000111110000011111000001111100000111110000011111"
    );
}

#[test]
fn generation_is_deterministic_and_consistent() {
    let (m, n) = (12, 10);
    let mut latent = Vec::new();
    for i in 0..m {
        for j in 0..n {
            latent.push(((i * 7 + j * 13) % 23) as i32 - 11);
        }
    }
    let a = generate_feasible_design((m, n), &latent, Brush::notched_square(5, 1));
    let b = generate_feasible_design((m, n), &latent, Brush::notched_square(5, 1));
    assert_eq!(a.void, b.void);
    assert_eq!(a.void_touch_existing, b.void_touch_existing);
    assert_eq!(a.solid_touch_existing, b.solid_touch_existing);
    assert_eq!(bits(&a.void), "1".repeat(120));
    for k in 0..m * n {
        assert!(!(a.void_pixel_existing[k] && a.solid_pixel_existing[k]));
    }
}
