use ternary_walk::{random_walk, walk_distribution, Walk};

#[test]
fn test_walk_new() {
    let w = Walk::new(5, 1);
    assert_eq!(w.position, 5);
    assert_eq!(w.state, 1);
    assert_eq!(w.steps, 0);
}

#[test]
fn test_walk_step_right() {
    let mut w = Walk::new(5, 0);
    w.step(10, 1); // right
    assert_eq!(w.position, 6);
    assert_eq!(w.steps, 1);
}

#[test]
fn test_walk_step_left() {
    let mut w = Walk::new(5, 0);
    w.step(10, 3); // left
    assert_eq!(w.position, 4);
}

#[test]
fn test_walk_step_up() {
    let mut w = Walk::new(15, 0);
    w.step(10, 0); // up
    assert_eq!(w.position, 5);
}

#[test]
fn test_walk_step_down() {
    let mut w = Walk::new(5, 0);
    w.step(10, 2); // down
    assert_eq!(w.position, 15);
}

#[test]
fn test_walk_struct_size() {
    assert!(std::mem::size_of::<Walk>() <= 16);
}

#[test]
fn test_random_walk_length() {
    let mut counter = 0u8;
    let path = random_walk(5, 10, 100, || {
        counter += 1;
        counter % 4
    });
    assert_eq!(path.len(), 11); // start + 10 steps
}

#[test]
fn test_random_walk_starts_at_start() {
    let path = random_walk(42, 5, 100, || 0);
    assert_eq!(path[0], 42);
}

#[test]
fn test_random_walk_all_up() {
    let path = random_walk(50, 5, 10, || 0); // all up
    assert_eq!(path[5], 0); // 50 - 5*10 = 0
}

#[test]
fn test_random_walk_all_right() {
    let path = random_walk(5, 3, 100, || 1); // all right
    assert_eq!(path[3], 8); // 5 + 3
}

#[test]
fn test_walk_distribution() {
    let vals = [0u8, 1, 2, 3];
    let mut idx = 0;
    let dist = walk_distribution(&[50], 4, 10, || {
        let v = vals[idx % 4];
        idx += 1;
        v
    });
    // Walk from 50: up->40, right->41, down->51, left->50 -> final=50
    assert!(dist.len() > 50);
    assert!(dist[50] >= 1);
}
