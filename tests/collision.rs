use mep_horror::collision::{resolve_collisions, Collider};
use mep_horror::geometry::{collide, Position, SpriteSize};
use mep_horror::motion::SUBPIXELS_PER_PIXEL;

fn px(n: i64) -> i64 {
    n * SUBPIXELS_PER_PIXEL
}

fn square(id: u64, x: i64, y: i64) -> Collider {
    Collider { id, pos: Position { x: px(x), y: px(y) }, size: SpriteSize::from((px(64), px(64))) }
}

#[test]
fn boxes_thirty_apart_overlap() {
    let a = square(0, 0, 0);
    let b = square(1, 30, 0);
    assert!(collide(a.pos, a.size, b.pos, b.size));
}

#[test]
fn boxes_a_hundred_apart_do_not_overlap() {
    let a = square(0, 0, 0);
    let b = square(1, 100, 0);
    assert!(!collide(a.pos, a.size, b.pos, b.size));
}

#[test]
fn touching_boxes_overlap() {
    let a = square(0, 0, 0);
    assert!(collide(a.pos, a.size, square(1, 64, 0).pos, a.size));
    assert!(collide(a.pos, a.size, square(1, 0, -64).pos, a.size));
    assert!(collide(a.pos, a.size, square(1, -64, 64).pos, a.size));
    assert!(!collide(a.pos, a.size, square(1, 65, 0).pos, a.size));
    assert!(!collide(a.pos, a.size, square(1, 0, 65).pos, a.size));
}

#[test]
fn overlap_needs_both_axes() {
    let a = square(0, 0, 0);
    assert!(!collide(a.pos, a.size, square(1, 10, 200).pos, a.size));
    assert!(!collide(a.pos, a.size, square(1, -200, 10).pos, a.size));
}

#[test]
fn boxes_of_different_sizes() {
    let a = Collider { id: 0, pos: Position { x: 0, y: 0 }, size: SpriteSize { w: 10, h: 4 } };
    let b = Collider { id: 1, pos: Position { x: 8, y: 3 }, size: SpriteSize { w: 6, h: 2 } };
    // half-widths 5 + 3 = 8, half-heights 2 + 1 = 3
    assert!(collide(a.pos, a.size, b.pos, b.size));
    let c = Collider { id: 2, pos: Position { x: 9, y: 0 }, size: b.size };
    assert!(!collide(a.pos, a.size, c.pos, c.size));
}

#[test]
fn extreme_coordinates_do_not_overflow() {
    let a = Position { x: i64::MAX, y: i64::MIN };
    let b = Position { x: i64::MIN, y: i64::MAX };
    let s = SpriteSize { w: i64::MAX, h: i64::MAX };
    assert!(!collide(a, s, b, s));
    assert!(collide(a, s, a, s));
}

#[test]
fn laser_hits_enemy_thirty_away() {
    let out = resolve_collisions(&vec![square(1, 0, 0)], &vec![square(2, 30, 0)]);
    assert_eq!(out.despawned, vec![2, 1]);
    assert_eq!(out.hits, vec![0]);
}

#[test]
fn laser_misses_enemy_a_hundred_away() {
    let out = resolve_collisions(&vec![square(1, 0, 0)], &vec![square(2, 100, 0)]);
    assert!(out.despawned.is_empty());
    assert!(out.hits.is_empty());
}

#[test]
fn one_laser_two_enemies() {
    let out = resolve_collisions(&vec![square(1, 0, 0)], &vec![square(2, 30, 0), square(3, -30, 10)]);
    assert_eq!(out.despawned, vec![2, 1, 3]);
    assert_eq!(out.hits, vec![0, 1]);
}

#[test]
fn two_lasers_one_enemy() {
    let out = resolve_collisions(&vec![square(1, 0, 0), square(2, 10, 0)], &vec![square(3, 30, 0)]);
    assert_eq!(out.despawned, vec![3, 1, 2]);
    assert_eq!(out.hits, vec![0]);
}

#[test]
fn only_overlapping_pairs_count() {
    let lasers = vec![square(1, 0, 0), square(2, 500, 0), square(3, 1000, 0)];
    let enemies = vec![square(4, 1000, 40), square(5, 0, -40), square(6, -500, 0)];
    let out = resolve_collisions(&lasers, &enemies);
    assert_eq!(out.despawned, vec![5, 1, 4, 3]);
    assert_eq!(out.hits, vec![1, 0]);
}

#[test]
fn empty_snapshots() {
    let out = resolve_collisions(&vec![], &vec![square(1, 0, 0)]);
    assert!(out.despawned.is_empty() && out.hits.is_empty());
    let out = resolve_collisions(&vec![square(1, 0, 0)], &vec![]);
    assert!(out.despawned.is_empty() && out.hits.is_empty());
}
