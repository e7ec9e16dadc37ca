use barnes_hut::analysis::{kinetic_energy, potential_energy, radial_distribution};
use barnes_hut::body::Body;
use barnes_hut::config::{Config, MASS_LIMIT};
use barnes_hut::generate::{
    gt_binary_scattering, gt_binary_system, gt_rutherford_scattering, gt_scattering, gt_two_body,
};
use barnes_hut::region::{populate_mult, Region};
use barnes_hut::summary::TreeError;
use barnes_hut::tree::TreeWrapper;

fn config(min_len: i64, dt_num: i64) -> Config {
    Config { dims: 2, g: 500, theta_num: 1, theta_den: 2, dt_num, dt_den: 1, min_len, min_dist: 0 }
}

fn body(pos: Vec<i64>, vel: Vec<i64>, mass: i64) -> Body {
    Body { pos_vec: pos, vel_vec: vel, mass }
}

fn tree(half: i64, min_len: i64, dt_num: i64) -> TreeWrapper {
    TreeWrapper::new(config(min_len, dt_num), vec![0, 0], half).unwrap()
}

fn key(b: &Body) -> (Vec<i64>, Vec<i64>, i64) {
    (b.pos_vec.clone(), b.vel_vec.clone(), b.mass)
}

#[test]
fn sign_patterns_count_in_binary() {
    assert_eq!(populate_mult(0), vec![Vec::<i64>::new()]);
    assert_eq!(populate_mult(2), vec![vec![-1, -1], vec![1, -1], vec![-1, 1], vec![1, 1]]);
    assert_eq!(populate_mult(3).len(), 8);
    assert_eq!(populate_mult(3)[5], vec![1, -1, 1]);
}

#[test]
fn split_makes_children_around_the_center() {
    let mut r = Region { reg_vec: None, coord_vec: vec![10, -10], half_length: 8, add_queue: Vec::new(), com: None };
    r.split(2);
    let kids = r.reg_vec.as_ref().unwrap();
    assert_eq!(kids.len(), 4);
    assert_eq!(kids[0].coord_vec, vec![6, -14]);
    assert_eq!(kids[1].coord_vec, vec![14, -14]);
    assert_eq!(kids[2].coord_vec, vec![6, -6]);
    assert_eq!(kids[3].coord_vec, vec![14, -6]);
    for k in kids {
        assert_eq!(k.half_length, 4);
        assert!(k.reg_vec.is_none() && k.com.is_none() && k.add_queue.is_empty());
    }
}

#[test]
fn contains_is_boundary_inclusive() {
    let r = Region { reg_vec: None, coord_vec: vec![0, 0], half_length: 5, add_queue: Vec::new(), com: None };
    assert!(r.contains(&body(vec![5, -5], vec![0, 0], 1)));
    assert!(!r.contains(&body(vec![6, 0], vec![0, 0], 1)));
}

#[test]
fn insertion_outside_root_is_dropped() {
    let mut t = tree(1000, 1, 0);
    assert!(!t.push_body_global(body(vec![1001, 0], vec![0, 0], 1)));
    assert!(t.push_body_global(body(vec![1000, -1000], vec![0, 0], 1)));
    assert_eq!(t.tree.add_queue.len(), 1);
    assert!(!t.push_body_global(body(vec![0, 0], vec![0, 0], MASS_LIMIT)));
    assert_eq!(t.mass, 1);
}

fn round_trip(n: usize) {
    let mut t = tree(1024, 1, 0);
    let mut inserted = Vec::new();
    for i in 0..n {
        let x = (i as i64) * 30 - 750;
        let y = (((i as i64) * 17) % 50) * 30 - 750;
        let b = body(vec![x, y], vec![i as i64, -(i as i64)], 1 + i as i64);
        assert!(t.push_body_global(b.copy()));
        inserted.push(key(&b));
    }
    t.update();
    assert!(t.tree.add_queue.is_empty());
    let mut listed: Vec<_> = t.tree.list_masses().iter().map(key).collect();
    listed.sort();
    inserted.sort();
    assert_eq!(listed, inserted);
    t.step();
    let mut after: Vec<_> = t.tree.list_masses().iter().map(key).collect();
    after.sort();
    assert_eq!(after, inserted);
}

#[test]
fn round_trip_keeps_every_body_once() {
    for n in [0, 1, 2, 50] {
        round_trip(n);
    }
}

#[test]
fn com_recomputation_is_idempotent() {
    let mut t = tree(1024, 1, 0);
    for (x, y, m) in [(-300, 200, 5), (400, 410, 7), (-20, -900, 11), (850, -3, 2)] {
        t.push_body_global(body(vec![x, y], vec![0, 0], m));
    }
    t.update();
    assert_eq!(t.tree.update_com(2), Ok(()));
    let first = key(t.tree.com.as_ref().unwrap());
    assert_eq!(t.tree.update_com(2), Ok(()));
    let second = key(t.tree.com.as_ref().unwrap());
    assert_eq!(first, second);
    assert_eq!(first.2, 25);
    // x: (-300*5 + 400*7 - 20*11 + 850*2) / 25 = 2780 / 25,
    // y: (200*5 + 410*7 - 900*11 - 3*2) / 25 = -6036 / 25, rounded toward zero.
    assert_eq!(first.0, vec![111, -241]);
}

#[test]
fn two_body_step_is_equal_and_opposite() {
    let mut t = tree(1024, 1, 1);
    t.push_body_global(body(vec![-100, 0], vec![0, 0], 1000));
    t.push_body_global(body(vec![100, 0], vec![0, 0], 1000));
    assert_eq!(t.step(), 0);
    let mut listed: Vec<_> = t.tree.list_masses().iter().map(key).collect();
    listed.sort();
    assert_eq!(listed[0], (vec![-88, 0], vec![12, 0], 1000));
    assert_eq!(listed[1], (vec![88, 0], vec![-12, 0], 1000));
}

#[test]
fn coincident_bodies_collapse_at_minimum_size() {
    let mut t = tree(8, 10, 0);
    t.push_body_global(body(vec![3, 4], vec![1, 0], 5));
    t.push_body_global(body(vec![3, 4], vec![2, 0], 7));
    t.push_body_global(body(vec![3, 4], vec![3, 0], 11));
    t.update();
    assert!(t.tree.reg_vec.is_none());
    let com = t.tree.com.as_ref().unwrap();
    assert_eq!(com.mass, 23);
    assert_eq!(com.pos_vec, vec![3, 4]);
    // (5 + 14 + 33) / 23 rounded toward zero.
    assert_eq!(com.vel_vec, vec![2, 0]);
    assert_eq!(t.tree.list_masses().len(), 1);
}

#[test]
fn emptied_subtree_is_pruned() {
    let mut t = tree(1024, 1, 1);
    t.push_body_global(body(vec![-500, -500], vec![0, 0], 50));
    t.push_body_global(body(vec![600, 600], vec![5000, 0], 1));
    t.push_body_global(body(vec![700, 700], vec![5000, 0], 1));
    t.update();
    {
        let kids = t.tree.reg_vec.as_ref().unwrap();
        assert!(kids[3].reg_vec.is_some());
    }
    assert_eq!(t.step(), 2);
    t.update();
    let kids = t.tree.reg_vec.as_ref().unwrap();
    assert!(kids[3].reg_vec.is_none());
    assert!(kids[3].com.is_none());
    assert_eq!(t.tree.com.as_ref().unwrap().mass, 50);
    assert_eq!(t.mass, 50);
}

#[test]
fn whole_tree_pruned_when_every_body_leaves() {
    let mut t = tree(1024, 1, 1);
    t.push_body_global(body(vec![600, 600], vec![5000, 0], 1));
    t.push_body_global(body(vec![-600, 600], vec![5000, 0], 1));
    t.update();
    assert_eq!(t.step(), 2);
    assert!(!t.update());
    assert!(t.tree.reg_vec.is_none() && t.tree.com.is_none());
}

#[test]
fn summary_past_mass_limit_is_refused() {
    let mut r = Region { reg_vec: None, coord_vec: vec![0, 0], half_length: 8, add_queue: Vec::new(), com: None };
    r.split(2);
    for k in r.reg_vec.as_mut().unwrap().iter_mut() {
        let c = k.coord_vec.clone();
        k.com = Some(body(c, vec![0, 0], MASS_LIMIT));
    }
    assert_eq!(r.update_com(2), Err(TreeError::MassLimit));
    assert!(r.com.is_none());
}

#[test]
fn bad_parameters_are_refused() {
    assert!(Config::new(0, 500, 1, 2, 1, 1, 1, 0).is_none());
    assert!(Config::new(2, 500, 1, 0, 1, 1, 1, 0).is_none());
    assert!(Config::new(2, 500, 1, 2, 1, 1, 1, 0).is_some());
    assert!(TreeWrapper::new(config(1, 0), vec![0, 0], 1 << 29).is_none());
    assert!(TreeWrapper::new(config(1, 0), vec![0], 10).is_none());
}

#[test]
fn two_body_scenario_queues_the_pair() {
    let mut t = tree(1000, 10, 0);
    gt_two_body(&mut t);
    let q: Vec<_> = t.tree.add_queue.iter().map(key).collect();
    assert_eq!(q, vec![(vec![-100, 0], vec![0, 2000], 100000), (vec![100, 0], vec![0, -2000], 100000)]);
}

#[test]
fn scattering_draws_projectiles_in_range() {
    let mut t = tree(1000, 10, 0);
    gt_scattering(&mut t, 20);
    assert_eq!(t.tree.add_queue.len(), 20);
    let mut heights = Vec::new();
    for b in &t.tree.add_queue {
        assert!(-950 <= b.pos_vec[0] && b.pos_vec[0] < -850);
        assert!(-400 <= b.pos_vec[1] && b.pos_vec[1] < 400);
        assert!(750 <= b.vel_vec[0] && b.vel_vec[0] < 10000);
        assert_eq!(b.vel_vec[1], 0);
        assert_eq!(b.mass, 1);
        heights.push(b.pos_vec[1]);
    }
    heights.sort();
    heights.dedup();
    assert!(heights.len() > 1);
}

#[test]
fn rutherford_and_binary_scenarios() {
    let mut t = tree(1000, 10, 0);
    gt_rutherford_scattering(&mut t, 5);
    assert_eq!(t.tree.add_queue.len(), 6);
    assert_eq!(key(&t.tree.add_queue[0]), (vec![0, 0], vec![0, 0], 100000));
    let mut t = tree(1000, 10, 0);
    gt_binary_scattering(&mut t, 5);
    assert_eq!(t.tree.add_queue.len(), 7);
    let mut t = tree(1000, 10, 0);
    gt_binary_system(&mut t, vec![body(vec![300, 300], vec![0, 0], 3), body(vec![5000, 0], vec![0, 0], 3)]);
    assert_eq!(t.tree.add_queue.len(), 3);
}

#[test]
fn analysis_of_listed_bodies() {
    let bodies = vec![body(vec![3, 4], vec![3, 4], 2), body(vec![3, 204], vec![0, 0], 1000)];
    assert_eq!(radial_distribution(&bodies, 2), vec![25, 9 + 204 * 204]);
    assert_eq!(kinetic_energy(&bodies, 2), 25);
    let pair = vec![body(vec![0, 0], vec![0, 0], 1000), body(vec![0, 200], vec![0, 0], 1000)];
    assert_eq!(potential_energy(&pair, &config(1, 0)), -2500000);
}

#[test]
fn coincident_bodies_collapse_after_splitting_down() {
    let mut t = tree(64, 10, 0);
    for m in [2, 3, 5] {
        t.push_body_global(body(vec![3, 4], vec![0, 0], m));
    }
    t.update();
    let listed = t.tree.list_masses();
    assert_eq!(listed.len(), 1);
    assert_eq!(key(&listed[0]), (vec![3, 4], vec![0, 0], 10));
    // The collapsed leaf sits three levels down, at half extent 8.
    let mut node = &t.tree;
    let mut depth = 0;
    while let Some(kids) = &node.reg_vec {
        node = kids.iter().find(|k| k.com.is_some()).unwrap();
        depth += 1;
    }
    assert_eq!(depth, 3);
    assert_eq!(node.half_length, 8);
}

#[test]
fn binary_system_queues_pair_then_companions() {
    let mut t = tree(1000, 10, 0);
    let companions = vec![body(vec![300, 300], vec![1, 0], 3), body(vec![-300, 20], vec![0, 1], 4)];
    gt_binary_system(&mut t, companions);
    let q: Vec<_> = t.tree.add_queue.iter().map(key).collect();
    assert_eq!(q.len(), 4);
    assert_eq!(q[0], (vec![-100, 0], vec![0, 2000], 100000));
    assert_eq!(q[1], (vec![100, 0], vec![0, -2000], 100000));
    assert_eq!(q[2], (vec![300, 300], vec![1, 0], 3));
    assert_eq!(q[3], (vec![-300, 20], vec![0, 1], 4));
}

#[test]
fn step_requeues_moved_body_and_resummarises() {
    let mut t = tree(1024, 1, 1);
    t.push_body_global(body(vec![-500, -500], vec![0, 0], 50));
    t.push_body_global(body(vec![500, 500], vec![-600, 0], 1));
    assert_eq!(t.step(), 0);
    let q: Vec<_> = t.tree.add_queue.iter().map(key).collect();
    assert_eq!(q, vec![(vec![-100, 500], vec![-600, 0], 1)]);
    let com = t.tree.com.as_ref().unwrap();
    assert_eq!(com.mass, 50);
    assert_eq!(com.pos_vec, vec![-500, -500]);
    assert_eq!(t.mass, 51);
}
