use renders::scene::{choose_root, nearest, Hittables, Root};

#[test]
fn an_empty_scene_has_no_hit() {
    assert_eq!(nearest(&Vec::new()), None);
}

#[test]
fn a_ray_that_misses_every_surface_has_no_hit() {
    assert_eq!(nearest(&vec![None, None, None]), None);
}

#[test]
fn a_single_hit_is_the_nearest() {
    assert_eq!(nearest(&vec![None, Some(7), None]), Some(1));
    assert_eq!(nearest(&vec![Some(u64::MAX)]), Some(0));
}

#[test]
fn the_smallest_distance_wins() {
    assert_eq!(nearest(&vec![Some(9), Some(4), Some(6)]), Some(1));
    assert_eq!(nearest(&vec![Some(9), None, Some(6), Some(2)]), Some(3));
    assert_eq!(nearest(&vec![Some(0), Some(4), Some(6)]), Some(0));
}

#[test]
fn of_equal_distances_the_first_wins() {
    assert_eq!(nearest(&vec![Some(5), Some(5)]), Some(0));
    assert_eq!(nearest(&vec![Some(8), Some(3), None, Some(3), Some(3)]), Some(1));
    assert_eq!(nearest(&vec![None, Some(3), Some(9), Some(3)]), Some(1));
}

#[test]
fn the_near_crossing_is_preferred() {
    assert_eq!(choose_root(true, true), Some(Root::Near));
    assert_eq!(choose_root(true, false), Some(Root::Near));
}

#[test]
fn the_far_crossing_is_the_fallback() {
    assert_eq!(choose_root(false, true), Some(Root::Far));
}

#[test]
fn no_crossing_inside_the_range_is_no_hit() {
    assert_eq!(choose_root(false, false), None);
}

#[test]
fn a_new_scene_is_empty() {
    let scene: Hittables<u8> = Hittables::new();
    assert_eq!(scene.len(), 0);
    let scene: Hittables<String> = Hittables::default();
    assert_eq!(scene.len(), 0);
}

#[test]
fn a_scene_keeps_its_surfaces_in_the_order_they_were_added() {
    let mut scene = Hittables::new();
    scene.add("ground");
    scene.add("ball");
    scene.add("bubble");
    assert_eq!(scene.len(), 3);
    assert_eq!(*scene.get(0), "ground");
    assert_eq!(*scene.get(1), "ball");
    assert_eq!(*scene.get(2), "bubble");
}

#[test]
fn a_cleared_scene_is_empty_and_can_be_filled_again() {
    let mut scene = Hittables::new();
    scene.add(1.5_f64);
    scene.add(2.5_f64);
    scene.clear();
    assert_eq!(scene.len(), 0);
    scene.add(3.5_f64);
    assert_eq!(scene.len(), 1);
    assert_eq!(*scene.get(0), 3.5);
}
