use mep_horror::collision::Collider;
use mep_horror::geometry::{Position, SpriteSize};
use mep_horror::hud::score_text;
use mep_horror::motion::{
    advance, is_out_of_play_area, move_entity, Movable, Velocity, WinSize, MARGIN, SUBPIXELS_PER_PIXEL,
};
use mep_horror::resources::{Scoring, Temporary, REWARD_FILE_MS, REWARD_TEXT_MS};
use mep_horror::systems::{
    ENEMY_MAX, ENEMY_SIDE_GAP, ENEMY_SPEED, LASER_SPEED, PLAYER_FLOOR_GAP, PLAYER_SPEED, PUSH_FILE_SPEED,
    SPRITE_SIZE, TEXT_EDGE_GAP,
};
use mep_horror::world::{Entity, Kind, Motion, World};

fn px(n: i64) -> i64 {
    n * SUBPIXELS_PER_PIXEL
}

fn win() -> WinSize {
    WinSize { w: px(600), h: px(600) }
}

fn sprite() -> SpriteSize {
    SpriteSize { w: SPRITE_SIZE, h: SPRITE_SIZE }
}

fn moving(vx: i64, vy: i64, auto_despawn: bool) -> Option<Motion> {
    Some(Motion { velocity: Velocity { x: vx, y: vy }, movable: Movable { auto_despawn } })
}

fn spawn_at(w: &mut World, kind: Kind, x: i64, y: i64, motion: Option<Motion>) -> u64 {
    w.spawn(kind, Position { x: px(x), y: px(y) }, sprite(), motion, None)
}

fn ids(w: &World) -> Vec<u64> {
    w.entities.iter().map(|e| e.id).collect()
}

fn find(w: &World, id: u64) -> Option<Entity> {
    w.entities.iter().find(|e| e.id == id).copied()
}

#[test]
fn one_tick_moves_by_velocity_times_step_times_speed() {
    // 1/60 s at 500 px/s: a full-speed velocity covers 500/60 px = 500 sub-pixels
    let p = advance(Position { x: 0, y: 0 }, Velocity { x: 100, y: -50 });
    assert_eq!(p, Position { x: 500, y: -250 });
    // in pixels: velocity 1.0 * (1/60 s) * 500 px/s
    let pixels = p.x as f64 / SUBPIXELS_PER_PIXEL as f64;
    assert!((pixels - 1.0 * (1.0 / 60.0) * 500.0).abs() < 1e-9);
}

#[test]
fn n_ticks_add_up() {
    let v = Velocity { x: 80, y: -100 };
    let mut p = Position { x: 7, y: -3 };
    for _ in 0..120 {
        p = advance(p, v);
    }
    assert_eq!(p, Position { x: 7 + 120 * 400, y: -3 - 120 * 500 });
}

#[test]
fn play_area_edges() {
    let w = win();
    let edge = px(300) + MARGIN;
    assert!(!is_out_of_play_area(Position { x: edge, y: 0 }, w));
    assert!(is_out_of_play_area(Position { x: edge + 1, y: 0 }, w));
    assert!(!is_out_of_play_area(Position { x: 0, y: -edge }, w));
    assert!(is_out_of_play_area(Position { x: 0, y: -edge - 1 }, w));
    assert!(is_out_of_play_area(Position { x: -edge - 1, y: 0 }, w));
    assert!(is_out_of_play_area(Position { x: 0, y: edge + 1 }, w));
}

#[test]
fn move_entity_reports_despawn_only_for_auto_despawn() {
    let w = win();
    let edge = px(300) + MARGIN;
    let mut p = Position { x: 0, y: edge - 100 };
    assert!(move_entity(&mut p, Velocity { x: 0, y: 100 }, Movable { auto_despawn: true }, w));
    assert_eq!(p.y, edge + 400);
    let mut q = Position { x: 0, y: edge - 100 };
    assert!(!move_entity(&mut q, Velocity { x: 0, y: 100 }, Movable { auto_despawn: false }, w));
    assert_eq!(q.y, edge + 400);
}

#[test]
fn auto_despawn_entity_removed_on_the_tick_it_leaves() {
    let mut w = World::new();
    let edge = px(300) + MARGIN;
    let id = w.spawn(Kind::Laser, Position { x: 0, y: edge - 1000 }, sprite(), moving(0, LASER_SPEED, true), None);
    w.movable_system(win());
    assert_eq!(find(&w, id).unwrap().pos.y, edge - 500);
    w.movable_system(win());
    assert_eq!(find(&w, id).unwrap().pos.y, edge);
    w.movable_system(win());
    assert!(find(&w, id).is_none());
    for _ in 0..5 {
        spawn_at(&mut w, Kind::Enemy, 0, 0, moving(0, 0, true));
        w.movable_system(win());
        assert!(find(&w, id).is_none());
    }
    assert!(ids(&w).iter().all(|&i| i > id));
}

#[test]
fn entity_without_auto_despawn_never_removed() {
    let mut w = World::new();
    let id = spawn_at(&mut w, Kind::Player, 0, 0, moving(100, 100, false));
    for _ in 0..1000 {
        w.movable_system(win());
    }
    let p = find(&w, id).unwrap();
    assert_eq!(p.pos, Position { x: 500_000, y: 500_000 });
}

#[test]
fn entity_without_motion_stays_put() {
    let mut w = World::new();
    let id = spawn_at(&mut w, Kind::PushText, 5000, 5000, None);
    w.movable_system(win());
    assert_eq!(find(&w, id).unwrap().pos, Position { x: px(5000), y: px(5000) });
}

#[test]
fn reward_text_expires_after_its_lifetime() {
    let mut w = World::new();
    let id = w.spawn(
        Kind::PushText,
        Position { x: 0, y: 0 },
        sprite(),
        None,
        Some(Temporary { duration: REWARD_TEXT_MS, current_time: 0 }),
    );
    let other = spawn_at(&mut w, Kind::Enemy, 0, 0, None);
    w.temporary_system(600);
    assert_eq!(find(&w, id).unwrap().temporary.unwrap().current_time, 600);
    w.temporary_system(399);
    assert!(find(&w, id).is_some());
    w.temporary_system(1);
    assert!(find(&w, id).is_none());
    assert!(find(&w, other).is_some());
}

#[test]
fn temporary_age_reports_expiry() {
    let mut t = Temporary { duration: 1000, current_time: 0 };
    assert!(!t.age(999));
    assert!(t.age(1));
    assert_eq!(t.current_time, 1000);
}

#[test]
fn despawn_all_ignores_unknown_ids() {
    let mut w = World::new();
    let a = spawn_at(&mut w, Kind::Enemy, 0, 0, None);
    let b = spawn_at(&mut w, Kind::Enemy, 0, 0, None);
    let c = spawn_at(&mut w, Kind::Enemy, 0, 0, None);
    w.despawn_all(&vec![b, 77, b]);
    assert_eq!(ids(&w), vec![a, c]);
    assert_eq!(w.next_id, 3);
}

#[test]
fn colliders_lists_one_kind_in_order() {
    let mut w = World::new();
    spawn_at(&mut w, Kind::Laser, 1, 2, None);
    spawn_at(&mut w, Kind::Enemy, 3, 4, None);
    spawn_at(&mut w, Kind::Laser, 5, 6, None);
    let lasers = w.colliders(Kind::Laser);
    assert_eq!(
        lasers,
        vec![
            Collider { id: 0, pos: Position { x: px(1), y: px(2) }, size: sprite() },
            Collider { id: 2, pos: Position { x: px(5), y: px(6) }, size: sprite() },
        ]
    );
    assert_eq!(w.single(Kind::Enemy), Some(1));
    assert_eq!(w.single(Kind::Laser), None);
    assert_eq!(w.single(Kind::Player), None);
}

#[test]
fn hit_destroys_enemy_and_laser_and_scores() {
    let mut w = World::new();
    let mut scoring = Scoring::default();
    let laser = spawn_at(&mut w, Kind::Laser, 0, 0, moving(0, LASER_SPEED, true));
    let enemy = spawn_at(&mut w, Kind::Enemy, 30, 0, moving(0, -ENEMY_SPEED, true));
    let n = w.player_file_hit_enemy_system(&mut scoring, win());
    assert_eq!(n, 1);
    assert_eq!(scoring.bug_fix, 1);
    assert!(find(&w, laser).is_none() && find(&w, enemy).is_none());
    assert_eq!(w.entities.len(), 2);
    let file = w.entities[0];
    assert_eq!(file.kind, Kind::PushFile);
    assert_eq!(file.pos, Position { x: px(30), y: 0 });
    assert_eq!(file.motion, moving(0, PUSH_FILE_SPEED, true));
    assert_eq!(file.temporary, Some(Temporary { duration: REWARD_FILE_MS, current_time: 0 }));
    let text = w.entities[1];
    assert_eq!(text.kind, Kind::PushText);
    assert_eq!(text.temporary, Some(Temporary { duration: REWARD_TEXT_MS, current_time: 0 }));
    assert_eq!(text.motion, None);
    let span = px(300) - TEXT_EDGE_GAP;
    assert!(-span <= text.pos.x && text.pos.x < span);
    assert!(-span <= text.pos.y && text.pos.y < span);
    assert_eq!(score_text(scoring.bug_fix), "bug fix : 1");
}

#[test]
fn miss_changes_nothing() {
    let mut w = World::new();
    let mut scoring = Scoring::default();
    spawn_at(&mut w, Kind::Laser, 0, 0, None);
    spawn_at(&mut w, Kind::Enemy, 100, 0, None);
    let before = ids(&w);
    assert_eq!(w.player_file_hit_enemy_system(&mut scoring, win()), 0);
    assert_eq!(scoring.bug_fix, 0);
    assert_eq!(ids(&w), before);
}

#[test]
fn one_laser_two_enemies_in_the_world() {
    let mut w = World::new();
    let mut scoring = Scoring { bug_fix: 10 };
    let player = spawn_at(&mut w, Kind::Player, 0, -200, None);
    spawn_at(&mut w, Kind::Laser, 0, 0, None);
    spawn_at(&mut w, Kind::Enemy, 30, 0, None);
    spawn_at(&mut w, Kind::Enemy, -30, 0, None);
    assert_eq!(w.player_file_hit_enemy_system(&mut scoring, win()), 2);
    assert_eq!(scoring.bug_fix, 12);
    assert_eq!(w.entities[0].id, player);
    let kinds: Vec<Kind> = w.entities.iter().map(|e| e.kind).collect();
    assert_eq!(kinds, vec![Kind::Player, Kind::PushFile, Kind::PushText, Kind::PushFile, Kind::PushText]);
    assert_eq!(ids(&w), vec![0, 4, 5, 6, 7]);
    assert_eq!(w.entities[3].pos, Position { x: px(-30), y: 0 });
}

#[test]
fn two_lasers_one_enemy_in_the_world() {
    let mut w = World::new();
    let mut scoring = Scoring::default();
    spawn_at(&mut w, Kind::Laser, 0, 0, None);
    spawn_at(&mut w, Kind::Laser, 20, 0, None);
    spawn_at(&mut w, Kind::Enemy, 30, 0, None);
    assert_eq!(w.player_file_hit_enemy_system(&mut scoring, win()), 1);
    assert_eq!(scoring.bug_fix, 1);
    let kinds: Vec<Kind> = w.entities.iter().map(|e| e.kind).collect();
    assert_eq!(kinds, vec![Kind::PushFile, Kind::PushText]);
}

#[test]
fn score_counts_up_over_three_ticks() {
    let mut w = World::new();
    let mut scoring = Scoring::default();
    assert_eq!(score_text(scoring.bug_fix), "bug fix : 0");
    for (tick, x) in [-200i64, 0, 200].iter().enumerate() {
        spawn_at(&mut w, Kind::Laser, *x, 0, None);
        spawn_at(&mut w, Kind::Enemy, *x + 10, 0, None);
        w.player_file_hit_enemy_system(&mut scoring, win());
        assert_eq!(scoring.bug_fix as usize, tick + 1);
        assert_eq!(score_text(scoring.bug_fix), format!("bug fix : {}", tick + 1));
    }
}

#[test]
fn player_spawns_above_the_bottom_edge() {
    let mut w = World::new();
    w.player_spawn_system(win());
    let p = w.entities[0];
    assert_eq!(p.kind, Kind::Player);
    assert_eq!(p.pos, Position { x: 0, y: -px(300) + SPRITE_SIZE / 2 + PLAYER_FLOOR_GAP });
    assert_eq!(p.pos.y, px(-300 + 32 + 5));
    assert_eq!(p.motion, moving(0, 0, false));
}

#[test]
fn player_steering() {
    let mut w = World::new();
    w.player_spawn_system(win());
    w.player_keyboard_event_system(true, false);
    assert_eq!(w.entities[0].motion.unwrap().velocity.x, -PLAYER_SPEED);
    w.player_keyboard_event_system(false, true);
    assert_eq!(w.entities[0].motion.unwrap().velocity.x, PLAYER_SPEED);
    w.player_keyboard_event_system(true, true);
    assert_eq!(w.entities[0].motion.unwrap().velocity.x, -PLAYER_SPEED);
    w.player_keyboard_event_system(false, false);
    assert_eq!(w.entities[0].motion.unwrap().velocity.x, 0);
    w.player_keyboard_event_system(false, true);
    w.movable_system(win());
    assert_eq!(w.entities[0].pos.x, 500);
}

#[test]
fn steering_needs_exactly_one_player() {
    let mut w = World::new();
    w.player_keyboard_event_system(true, false);
    assert!(w.entities.is_empty());
    w.player_spawn_system(win());
    w.player_spawn_system(win());
    w.player_keyboard_event_system(true, false);
    assert!(w.entities.iter().all(|e| e.motion.unwrap().velocity.x == 0));
    w.player_fire_system(true);
    assert_eq!(w.entities.len(), 2);
}

#[test]
fn firing_spawns_a_laser_at_the_player() {
    let mut w = World::new();
    w.player_spawn_system(win());
    w.player_fire_system(false);
    assert_eq!(w.entities.len(), 1);
    w.player_fire_system(true);
    assert_eq!(w.entities.len(), 2);
    let laser = w.entities[1];
    assert_eq!(laser.kind, Kind::Laser);
    assert_eq!(laser.pos, w.entities[0].pos);
    assert_eq!(laser.motion, moving(0, LASER_SPEED, true));
    assert_eq!(laser.id, 1);
}

#[test]
fn enemies_spawn_up_to_the_maximum() {
    let mut w = World::new();
    for _ in 0..5 {
        w.enemy_spawn_system_v2(win());
    }
    assert_eq!(w.entities.len(), ENEMY_MAX);
    let span = px(300) - ENEMY_SIDE_GAP;
    for e in w.entities.iter() {
        assert_eq!(e.kind, Kind::Enemy);
        assert_eq!(e.pos.y, px(300) + SPRITE_SIZE);
        assert!(-span <= e.pos.x && e.pos.x < span);
        assert_eq!(e.motion, moving(0, -ENEMY_SPEED, true));
    }
    let first = w.entities[0].id;
    w.despawn_all(&vec![first]);
    w.enemy_spawn_system_v2(win());
    assert_eq!(w.entities.len(), ENEMY_MAX);
}

#[test]
fn enemy_positions_are_drawn() {
    let mut w = World::new();
    for _ in 0..64 {
        w.spawn_enemy(win());
    }
    let span = px(300) - ENEMY_SIDE_GAP;
    let xs: Vec<i64> = w.entities.iter().map(|e| e.pos.x).collect();
    assert!(xs.iter().all(|&x| -span <= x && x < span));
    assert!(xs.iter().any(|&x| x != xs[0]));
}

#[test]
fn narrow_window_centres_spawns() {
    let mut w = World::new();
    let narrow = WinSize { w: px(100), h: px(100) };
    w.spawn_enemy(narrow);
    w.spawn_push_text(narrow);
    assert_eq!(w.entities[0].pos.x, 0);
    assert_eq!(w.entities[1].pos, Position { x: 0, y: 0 });
}

#[test]
fn reward_texts_are_drawn() {
    let mut w = World::new();
    for _ in 0..64 {
        w.spawn_push_text(win());
    }
    let span = px(300) - TEXT_EDGE_GAP;
    let ps: Vec<Position> = w.entities.iter().map(|e| e.pos).collect();
    assert!(ps.iter().all(|p| -span <= p.x && p.x < span && -span <= p.y && p.y < span));
    assert!(ps.iter().any(|p| p.x != ps[0].x));
    assert!(ps.iter().any(|p| p.y != ps[0].y));
}

#[test]
fn push_file_spawns_where_asked() {
    let mut w = World::new();
    w.spawn_push_file(Position { x: 12, y: 34 });
    assert_eq!(w.entities[0].pos, Position { x: 12, y: 34 });
    assert_eq!(w.entities[0].kind, Kind::PushFile);
    assert_eq!(w.entities[0].temporary, Some(Temporary { duration: REWARD_FILE_MS, current_time: 0 }));
}

#[test]
fn rewards_expire_after_their_lifetimes() {
    let mut w = World::new();
    let mut scoring = Scoring::default();
    spawn_at(&mut w, Kind::Laser, 0, 0, None);
    spawn_at(&mut w, Kind::Enemy, 30, 0, None);
    assert_eq!(w.player_file_hit_enemy_system(&mut scoring, win()), 1);
    assert_eq!(w.entities.len(), 2);
    w.temporary_system(999);
    assert_eq!(w.entities.len(), 2);
    w.temporary_system(1);
    assert!(w.entities.is_empty());
}

#[test]
fn step_moves_before_colliding() {
    let edge = px(300) + MARGIN;
    let mut w = World::new();
    let mut scoring = Scoring::default();
    // both leave the play area on this tick: the collision pass never sees them
    w.spawn(Kind::Laser, Position { x: 0, y: edge - 100 }, sprite(), moving(0, LASER_SPEED, true), None);
    w.spawn(Kind::Enemy, Position { x: 0, y: edge - 100 }, sprite(), moving(0, LASER_SPEED, true), None);
    assert_eq!(w.step(&mut scoring, win()), 0);
    assert!(w.entities.is_empty());
    assert_eq!(scoring.bug_fix, 0);
}

#[test]
fn step_collides_after_moving() {
    let mut w = World::new();
    let mut scoring = Scoring::default();
    // 65 px apart before the tick, 64 px - 750 sub-pixels apart after it
    spawn_at(&mut w, Kind::Laser, 0, 0, moving(0, LASER_SPEED, true));
    spawn_at(&mut w, Kind::Enemy, 0, 65, moving(0, -ENEMY_SPEED, true));
    assert_eq!(w.step(&mut scoring, win()), 1);
    assert_eq!(scoring.bug_fix, 1);
    let kinds: Vec<Kind> = w.entities.iter().map(|e| e.kind).collect();
    assert_eq!(kinds, vec![Kind::PushFile, Kind::PushText]);
    assert_eq!(w.entities[0].pos, Position { x: 0, y: px(65) - 250 });
}
