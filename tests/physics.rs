use barnes_hut::body::Body;
use barnes_hut::config::Config;
use barnes_hut::region::Region;

const G: i64 = 500;

fn config(dims: usize) -> Config {
    Config {
        dims,
        g: G,
        theta_num: 1,
        theta_den: 2000,
        dt_num: 7,
        dt_den: 10000,
        min_len: 10,
        min_dist: 0,
    }
}

fn body(pos: Vec<i64>, vel: Vec<i64>, mass: i64) -> Body {
    Body { pos_vec: pos, vel_vec: vel, mass }
}

fn leaf(center: Vec<i64>, half: i64, com: Option<Body>) -> Region {
    Region { reg_vec: None, coord_vec: center, half_length: half, add_queue: Vec::new(), com }
}

#[test]
fn test_dist_sq() {
    let m1 = body(vec![1, 0, 0], vec![0, 0, 0], 0);
    let m2 = body(vec![0, 0, 0], vec![0, 0, 0], 0);
    let m3 = body(vec![-3, 0, 0], vec![0, 0, 0], 0);
    let m4 = body(vec![0, 4, 0], vec![0, 0, 0], 0);
    assert_eq!(m1.squared_dist_to(&m2), 1);
    assert_eq!(m3.squared_dist_to(&m4), 25);
}

#[test]
fn test_vec_rel() {
    let m1 = body(vec![1; 2], vec![0; 2], 0);
    let m2 = body(vec![0; 2], vec![0; 2], 0);
    assert_eq!(m1.vec_rel(&m2), vec![-1; 2]);
}

#[test]
fn test_sq_mag() {
    let m1 = body(vec![1, 0, 0], vec![0, 0, 0], 0);
    let m2 = body(vec![0, 0, 0], vec![0, 0, 0], 0);
    let m3 = body(vec![-3, 0, 0], vec![0, 0, 0], 0);
    let m4 = body(vec![0, 4, 0], vec![0, 0, 0], 0);
    assert_eq!(m1.sq_magnitude(&m1.vec_rel(&m2)), 1);
    assert_eq!(m3.sq_magnitude(&m3.vec_rel(&m4)), 25);
}

#[test]
fn test_is_far() {
    // A region of half extent one lattice unit seen from 8000 units away:
    // 2 * 1 / 8000 is half the opening angle 1/2000.
    for dims in 1..9 {
        let mut pos = vec![0; dims];
        pos[0] = 8000;
        let b = body(pos, vec![0; dims], 0);
        let node = leaf(vec![0; dims], 1, Some(body(vec![0; dims], vec![0; dims], 0)));
        assert!(b.is_far(&node, &config(dims)));
    }
}

#[test]
fn test_get_classical_accel() {
    for dims in 1..2 {
        let body1 = body(vec![1; dims], vec![0; dims], 1);
        let body2 = body(vec![0; dims], vec![0; dims], 1);
        let acc = body1.get_classical_accel(&body2, &config(dims));
        let expected = G / (dims as i64);
        assert_eq!(body1.sq_magnitude(&acc), expected * expected);
    }
}

#[test]
fn test_update_accel() {
    // Each component is rounded toward zero, so it lies within one unit of
    // -G / sqrt(dims) / dims.
    for dims in 1..5 {
        let body1 = body(vec![1; dims], vec![0; dims], 1);
        let body2 = body(vec![0; dims], vec![0; dims], 1);
        let acc = vec![0; dims];
        let entry = -1.0 * (G as f64) / (dims as f64).sqrt() / (dims as f64);
        let result = body1.update_accel(acc, &body2, &config(dims));
        assert_eq!(result.len(), dims);
        for x in result {
            assert!(x as f64 <= 0.0 && (x as f64 - entry).abs() < 1.0);
        }
    }
}

#[test]
fn acceleration_magnitude_at_irrational_distance() {
    // r^2 = 2: G m / r^2 = 250 along (1, 1) / sqrt(2), about 176.78 per axis.
    let target = body(vec![0, 0], vec![0, 0], 1);
    let source = body(vec![1, 1], vec![0, 0], 1);
    assert_eq!(target.get_classical_accel(&source, &config(2)), vec![176, 176]);
}

#[test]
fn test_get_total_acc() {
    // A leaf acts through its body; an empty leaf exerts nothing.
    let cfg = config(2);
    let b = body(vec![0, 0], vec![0, 0], 1);
    let source = body(vec![200, 0], vec![0, 0], 1000);
    let full = leaf(vec![200, 0], 100, Some(source));
    let empty = leaf(vec![200, 0], 100, None);
    // 500 * 1000 * 200 / (40000 * 200) = 12.5, rounded toward zero.
    assert_eq!(b.get_total_acc(&full, &cfg), vec![12, 0]);
    assert_eq!(b.get_total_acc(&empty, &cfg), vec![0, 0]);
}

#[test]
fn test_update_vel() {
    let cfg = Config { dt_num: 1, dt_den: 1, ..config(2) };
    let mut b = body(vec![0, 0], vec![3, -4], 1);
    let root = leaf(vec![200, 0], 100, Some(body(vec![200, 0], vec![0, 0], 1000)));
    b.update_vel(&root, &cfg);
    assert_eq!(b.vel_vec, vec![15, -4]);
    assert_eq!(b.pos_vec, vec![0, 0]);
}

#[test]
fn test_update_pos() {
    let cfg = Config { dt_num: 1, dt_den: 2, ..config(2) };
    let mut b = body(vec![10, 10], vec![3, -5], 1);
    b.update_pos(&cfg);
    // 3 / 2 and -5 / 2 round toward zero.
    assert_eq!(b.pos_vec, vec![11, 8]);
    assert_eq!(b.vel_vec, vec![3, -5]);
}

#[test]
fn test_update_com() {
    let mut r = leaf(vec![0, 0], 8, None);
    r.split(2);
    let kids = r.reg_vec.as_mut().unwrap();
    kids[0].com = Some(body(vec![-4, -4], vec![1, 1], 1));
    kids[3].com = Some(body(vec![4, 4], vec![1, 1], 3));
    assert_eq!(r.update_com(2), Ok(()));
    let com = r.com.as_ref().unwrap();
    assert_eq!(com.mass, 4);
    // (-4 * 1 + 4 * 3) / 4 = 2 along each axis; a summary is at rest.
    assert_eq!(com.pos_vec, vec![2, 2]);
    assert_eq!(com.vel_vec, vec![0, 0]);
}

#[test]
fn squared_distance_is_symmetric() {
    let a = body(vec![7, -2, 5], vec![0, 0, 0], 1);
    let b = body(vec![-1, 3, 0], vec![0, 0, 0], 1);
    assert_eq!(a.squared_dist_to(&b), 64 + 25 + 25);
    assert_eq!(a.squared_dist_to(&b), b.squared_dist_to(&a));
}

#[test]
fn acceleration_is_zero_for_probe_and_close_pairs() {
    let cfg = Config { min_dist: 5, ..config(2) };
    let target = body(vec![0, 0], vec![0, 0], 1);
    let probe = body(vec![100, 0], vec![0, 0], 0);
    let near = body(vec![3, 4], vec![0, 0], 1000);
    let itself = body(vec![0, 0], vec![0, 0], 1000);
    assert_eq!(target.get_classical_accel(&probe, &cfg), vec![0, 0]);
    assert_eq!(target.get_classical_accel(&near, &cfg), vec![0, 0]);
    assert_eq!(target.get_classical_accel(&itself, &config(2)), vec![0, 0]);
}

#[test]
fn acceleration_points_toward_source_in_every_dimension() {
    for dims in 1..9 {
        let cfg = config(dims);
        let target = body(vec![0; dims], vec![0; dims], 1);
        let mut pos = vec![0; dims];
        pos[0] = -30;
        pos[dims - 1] += 40;
        let source = body(pos.clone(), vec![0; dims], 100);
        let acc = target.get_classical_accel(&source, &cfg);
        for i in 0..dims {
            assert!(acc[i] * pos[i] >= 0);
            if pos[i] == 0 {
                assert_eq!(acc[i], 0);
            }
        }
    }
    // At distance 50 along (-30, 40): 500 * 100 / 2500 = 20 in magnitude.
    let acc = body(vec![0, 0], vec![0, 0], 1).get_classical_accel(&body(vec![-30, 40], vec![0, 0], 100), &config(2));
    assert_eq!(acc, vec![-12, 16]);
}

#[test]
fn opening_angle_is_monotonic_in_extent() {
    let cfg = Config { theta_num: 1, theta_den: 2, ..config(2) };
    let b = body(vec![400, 0], vec![0, 0], 1);
    // 2 h / 400 <= 1 / 2 exactly while h <= 100.
    let mut seen_not_far = false;
    for h in 1..300 {
        let node = leaf(vec![0, 0], h, None);
        let far = b.is_far(&node, &cfg);
        assert_eq!(far, h <= 100);
        if !far {
            seen_not_far = true;
        } else {
            assert!(!seen_not_far);
        }
    }
}

#[test]
fn potential_matches_formula() {
    let cfg = config(2);
    let target = body(vec![0, 0], vec![0, 0], 1);
    let source = body(vec![0, 50], vec![0, 0], 10);
    // 500 * 10 * 50 / 2500 = 100 along the offset.
    assert_eq!(target.get_classical_potential(&source, &cfg), vec![0, 100]);
    assert_eq!(target.get_classical_potential(&target, &cfg), vec![0, 0]);
}

#[test]
fn opposite_pair_has_opposite_accelerations() {
    let cfg = config(2);
    let a = body(vec![-100, 0], vec![0, 0], 1000);
    let b = body(vec![100, 0], vec![0, 0], 1000);
    let ab = a.get_classical_accel(&b, &cfg);
    let ba = b.get_classical_accel(&a, &cfg);
    assert_eq!(ab, vec![12, 0]);
    assert_eq!(ba, vec![-12, 0]);
}
