use vstd::prelude::*;

use crate::collision::{
    collision_pass, ids_distinct, lemma_collision_pass, lemma_hits_bounded, overlapped_enemies,
    resolve_collisions, Collider,
};
use crate::geometry::{Position, SpriteSize};
use crate::motion::{Movable, Velocity, WinSize, SUBPIXELS_PER_PIXEL};
use crate::random::{random_within, within_span};
use crate::resources::{Scoring, Temporary, REWARD_FILE_MS, REWARD_TEXT_MS};
use crate::world::{
    can_move, has_id, ids_increasing, lemma_update_all_len, movement, removal, update_all, Entity, Kind, Motion,
    World,
};

verus! {

/// Side of every sprite's square box, in sub-pixels.
pub const SPRITE_SIZE: i64 = 64 * SUBPIXELS_PER_PIXEL;

/// At most this many enemies are alive at once.
pub const ENEMY_MAX: usize = 2;

/// Horizontal speed of the player while a direction is held.
pub const PLAYER_SPEED: i64 = 100;

/// Upward speed of a laser.
pub const LASER_SPEED: i64 = 100;

/// Downward drift of an enemy.
pub const ENEMY_SPEED: i64 = 50;

/// Upward speed of the reward sprite left where an enemy was destroyed.
pub const PUSH_FILE_SPEED: i64 = 80;

/// Gap between the player and the bottom edge, in sub-pixels.
pub const PLAYER_FLOOR_GAP: i64 = 5 * SUBPIXELS_PER_PIXEL;

/// Enemies appear at least this far from the side edges, in sub-pixels.
pub const ENEMY_SIDE_GAP: i64 = 100 * SUBPIXELS_PER_PIXEL;

/// Reward texts appear at least this far from the edges, in sub-pixels.
pub const TEXT_EDGE_GAP: i64 = 64 * SUBPIXELS_PER_PIXEL;

pub open spec fn sprite() -> SpriteSize {
    SpriteSize { w: SPRITE_SIZE, h: SPRITE_SIZE }
}

pub open spec fn moving(vx: i64, vy: i64, auto_despawn: bool) -> Option<Motion> {
    Some(Motion { velocity: Velocity { x: vx, y: vy }, movable: Movable { auto_despawn } })
}

/// The player: centred above the bottom edge, at rest, never auto-despawned.
pub open spec fn player_entity(id: u64, win: WinSize) -> Entity {
    Entity {
        id,
        kind: Kind::Player,
        pos: Position { x: 0, y: (-(win.h / 2) + SPRITE_SIZE / 2 + PLAYER_FLOOR_GAP) as i64 },
        size: sprite(),
        motion: moving(0, 0, false),
        temporary: None,
    }
}

/// A laser fired from `pos`, going up.
pub open spec fn laser_entity(id: u64, pos: Position) -> Entity {
    Entity {
        id,
        kind: Kind::Laser,
        pos,
        size: sprite(),
        motion: moving(0, LASER_SPEED, true),
        temporary: None,
    }
}

/// An enemy above the top edge at abscissa `x`, drifting down.
pub open spec fn enemy_entity(id: u64, x: i64, win: WinSize) -> Entity {
    Entity {
        id,
        kind: Kind::Enemy,
        pos: Position { x, y: (win.h / 2 + SPRITE_SIZE) as i64 },
        size: sprite(),
        motion: moving(0, -ENEMY_SPEED as i64, true),
        temporary: None,
    }
}

/// The reward sprite left at `pos`, going up, with a short lifetime.
pub open spec fn push_file_entity(id: u64, pos: Position) -> Entity {
    Entity {
        id,
        kind: Kind::PushFile,
        pos,
        size: sprite(),
        motion: moving(0, PUSH_FILE_SPEED, true),
        temporary: Some(Temporary { duration: REWARD_FILE_MS, current_time: 0 }),
    }
}

/// A floating reward text at `pos`, with a short lifetime.
pub open spec fn push_text_entity(id: u64, pos: Position) -> Entity {
    Entity {
        id,
        kind: Kind::PushText,
        pos,
        size: sprite(),
        motion: None,
        temporary: Some(Temporary { duration: REWARD_TEXT_MS, current_time: 0 }),
    }
}

/// A reward text anywhere on screen, away from the edges.
pub open spec fn is_push_text(e: Entity, id: u64, win: WinSize) -> bool {
    &&& e == push_text_entity(id, e.pos)
    &&& within_span(e.pos.x, win.w / 2 - TEXT_EDGE_GAP)
    &&& within_span(e.pos.y, win.h / 2 - TEXT_EDGE_GAP)
}

/// A new enemy at the top, away from the side edges.
pub open spec fn is_new_enemy(e: Entity, id: u64, win: WinSize) -> bool {
    &&& e == enemy_entity(id, e.pos.x, win)
    &&& within_span(e.pos.x, win.w / 2 - ENEMY_SIDE_GAP)
}

/// What the collision pass reads of an entity.
pub open spec fn collider(e: Entity) -> Collider {
    Collider { id: e.id, pos: e.pos, size: e.size }
}

/// The entities of one kind, in order, as the collision pass reads them.
pub open spec fn colliders_of(s: Seq<Entity>, kind: Kind) -> Seq<Collider>
    decreases s.len(),
{
    if s.len() == 0 {
        Seq::empty()
    } else {
        let prev = colliders_of(s.drop_last(), kind);
        if s.last().kind == kind {
            prev.push(collider(s.last()))
        } else {
            prev
        }
    }
}

proof fn lemma_colliders_len(s: Seq<Entity>, kind: Kind)
    ensures
        colliders_of(s, kind).len() <= s.len(),
    decreases s.len(),
{
    if s.len() > 0 {
        lemma_colliders_len(s.drop_last(), kind);
    }
}

/// The collision pass over the lasers and the enemies of `s`.
pub open spec fn pass_of(s: Seq<Entity>) -> (Seq<u64>, Seq<usize>) {
    collision_pass(colliders_of(s, Kind::Laser), colliders_of(s, Kind::Enemy))
}

/// Horizontal velocity of the player for the directions held: left wins.
pub open spec fn steer(left: bool, right: bool) -> i64 {
    if left {
        -PLAYER_SPEED as i64
    } else if right {
        PLAYER_SPEED
    } else {
        0
    }
}

/// `r` is the index of the one entity of this kind where there is exactly one, and none otherwise.
pub open spec fn sole(s: Seq<Entity>, kind: Kind, r: Option<usize>) -> bool {
    &&& r is Some <==> colliders_of(s, kind).len() == 1
    &&& r is Some ==> r->Some_0 < s.len() && s[r->Some_0 as int].kind == kind
}

/// Horizontal velocity of the player for the directions held.
pub fn steer_velocity(left: bool, right: bool) -> (r: i64)
    ensures
        r == steer(left, right),
{
    if left {
        -PLAYER_SPEED
    } else if right {
        PLAYER_SPEED
    } else {
        0
    }
}

/// Where the player starts: centred, just above the bottom edge.
pub fn player_start(win: WinSize) -> (r: Position)
    requires
        win.wf(),
    ensures
        r == player_entity(0, win).pos,
{
    Position { x: 0, y: -(win.h / 2) + SPRITE_SIZE / 2 + PLAYER_FLOOR_GAP }
}

/// Where a new enemy appears: above the top edge, at a random abscissa away
/// from the side edges.
pub fn enemy_start(win: WinSize) -> (r: Position)
    requires
        win.wf(),
    ensures
        r.y == win.h / 2 + SPRITE_SIZE,
        within_span(r.x, win.w / 2 - ENEMY_SIDE_GAP),
{
    let x = random_within(win.w / 2 - ENEMY_SIDE_GAP);
    Position { x, y: win.h / 2 + SPRITE_SIZE }
}

/// Where a reward text appears: at random, away from the edges.
pub fn push_text_position(win: WinSize) -> (r: Position)
    requires
        win.wf(),
    ensures
        within_span(r.x, win.w / 2 - TEXT_EDGE_GAP),
        within_span(r.y, win.h / 2 - TEXT_EDGE_GAP),
{
    let x = random_within(win.w / 2 - TEXT_EDGE_GAP);
    let y = random_within(win.h / 2 - TEXT_EDGE_GAP);
    Position { x, y }
}

/// Another enemy may appear while fewer than the maximum are alive.
pub fn may_spawn_enemy(alive: usize) -> (r: bool)
    ensures
        r == (alive < ENEMY_MAX),
{
    alive < ENEMY_MAX
}

/// What the collision pass over `before` (whose next id was `base`) left:
/// the survivors in order, then for each of the `n` enemies destroyed, in
/// order, its reward sprite where it was and a reward text.
pub open spec fn collided(
    before: Seq<Entity>,
    base: u64,
    after: Seq<Entity>,
    next_id: u64,
    win: WinSize,
    n: usize,
) -> bool {
    let pass = pass_of(before);
    let enemies = colliders_of(before, Kind::Enemy);
    let kept = update_all(before, removal(pass.0));
    &&& n == pass.1.len()
    &&& next_id == base + 2 * n
    &&& after.len() == kept.len() + 2 * n
    &&& after.subrange(0, kept.len() as int) == kept
    &&& forall|k: int|
        0 <= k < n ==> {
            &&& pass.1[k] < enemies.len()
            &&& #[trigger] after[kept.len() + 2 * k] == push_file_entity(
                (base + 2 * k) as u64,
                enemies[pass.1[k] as int].pos,
            )
            &&& is_push_text(after[kept.len() + 2 * k + 1], (base + 2 * k + 1) as u64, win)
        }
}

impl World {
    /// The entities of one kind, in order, as the collision pass reads them.
    pub fn colliders(&self, kind: Kind) -> (r: Vec<Collider>)
        ensures
            r@ == colliders_of(self.entities@, kind),
    {
        let ghost s = self.entities@;
        let mut out: Vec<Collider> = Vec::new();
        let mut i: usize = 0;
        while i < self.entities.len()
            invariant
                i <= self.entities.len(),
                s == self.entities@,
                out@ == colliders_of(s.subrange(0, i as int), kind),
            decreases self.entities.len() - i,
        {
            proof {
                assert(s.subrange(0, i + 1).drop_last() =~= s.subrange(0, i as int));
            }
            let e = &self.entities[i];
            if e.kind == kind {
                out.push(Collider { id: e.id, pos: e.pos, size: e.size });
            }
            i = i + 1;
        }
        proof {
            assert(s.subrange(0, s.len() as int) =~= s);
        }
        out
    }

    /// The index of the entity of this kind where there is exactly one.
    pub fn single(&self, kind: Kind) -> (r: Option<usize>)
        ensures
            sole(self.entities@, kind, r),
    {
        let ghost s = self.entities@;
        let mut found: Option<usize> = None;
        let mut count: usize = 0;
        let mut i: usize = 0;
        while i < self.entities.len()
            invariant
                i <= self.entities.len(),
                s == self.entities@,
                count == colliders_of(s.subrange(0, i as int), kind).len(),
                count <= i,
                count == 0 <==> found is None,
                found is Some ==> found->Some_0 < i && s[found->Some_0 as int].kind == kind,
            decreases self.entities.len() - i,
        {
            proof {
                assert(s.subrange(0, i + 1).drop_last() =~= s.subrange(0, i as int));
            }
            if self.entities[i].kind == kind {
                found = Some(i);
                count = count + 1;
            }
            i = i + 1;
        }
        proof {
            assert(s.subrange(0, s.len() as int) =~= s);
        }
        if count == 1 {
            found
        } else {
            None
        }
    }

    /// Puts the player in the world, centred above the bottom edge.
    pub fn player_spawn_system(&mut self, win: WinSize)
        requires
            old(self).wf(),
            win.wf(),
            old(self).next_id < u64::MAX,
        ensures
            final(self).wf(),
            final(self).next_id == old(self).next_id + 1,
            final(self).entities@ == old(self).entities@.push(
                player_entity(old(self).next_id, win),
            ),
            forall|x: u64| old(self).retired(x) ==> final(self).retired(x),
    {
        self.spawn(
            Kind::Player,
            player_start(win),
            SpriteSize { w: SPRITE_SIZE, h: SPRITE_SIZE },
            Some(Motion { velocity: Velocity { x: 0, y: 0 }, movable: Movable { auto_despawn: false } }),
            None,
        );
    }

    /// Steers the player: left, right or at rest, by the keys held.
    pub fn player_keyboard_event_system(&mut self, left: bool, right: bool)
        requires
            old(self).wf(),
        ensures
            final(self).wf(),
            final(self).next_id == old(self).next_id,
            forall|x: u64| old(self).retired(x) ==> final(self).retired(x),
            ({
                let s = old(self).entities@;
                match old(self).single_spec(Kind::Player) {
                    Some(i) => match s[i as int].motion {
                        Some(m) => final(self).entities@ == s.update(
                            i as int,
                            Entity {
                                motion: Some(
                                    Motion {
                                        velocity: Velocity { x: steer(left, right), y: m.velocity.y },
                                        movable: m.movable,
                                    },
                                ),
                                ..s[i as int]
                            },
                        ),
                        None => final(self).entities@ == s,
                    },
                    None => final(self).entities@ == s,
                }
            }),
    {
        let found = self.single(Kind::Player);
        proof {
            self.lemma_single_spec(Kind::Player, found);
        }
        if let Some(i) = found {
            let e = self.entities[i];
            if let Some(m) = e.motion {
                let vx = steer_velocity(left, right);
                let ghost before = *self;
                let updated = Entity {
                    motion: Some(
                        Motion { velocity: Velocity { x: vx, y: m.velocity.y }, movable: m.movable },
                    ),
                    ..e
                };
                self.entities.set(i, updated);
                proof {
                    assert forall|a: int, b: int|
                        0 <= a < b < self.entities@.len() implies self.entities@[a].id
                        < self.entities@[b].id by {
                        assert(before.entities@[a].id == self.entities@[a].id);
                        assert(before.entities@[b].id == self.entities@[b].id);
                    }
                    assert forall|x: u64| before.retired(x) implies self.retired(x) by {
                        if has_id(self.entities@, x) {
                            let k = choose|k: int| 0 <= k < self.entities@.len() && self.entities@[k].id == x;
                            assert(before.entities@[k].id == x);
                        }
                    }
                }
            }
        }
    }

    /// The index of the entity of this kind, where there is exactly one.
    pub open spec fn single_spec(&self, kind: Kind) -> Option<usize> {
        if colliders_of(self.entities@, kind).len() == 1 {
            Some(choose|i: usize| i < self.entities@.len() && self.entities@[i as int].kind == kind)
        } else {
            None
        }
    }

    proof fn lemma_single_spec(&self, kind: Kind, r: Option<usize>)
        requires
            sole(self.entities@, kind, r),
        ensures
            r == self.single_spec(kind),
    {
        if r is Some {
            let i = r->Some_0;
            let j = choose|j: usize| j < self.entities@.len() && self.entities@[j as int].kind == kind;
            lemma_only_one(self.entities@, kind, i as int, j as int);
        }
    }

    /// Fires a laser from the player's position, where there is exactly one
    /// player and the fire key was pressed this tick.
    pub fn player_fire_system(&mut self, fire: bool)
        requires
            old(self).wf(),
            old(self).next_id < u64::MAX,
        ensures
            final(self).wf(),
            forall|x: u64| old(self).retired(x) ==> final(self).retired(x),
            ({
                let s = old(self).entities@;
                match old(self).single_spec(Kind::Player) {
                    Some(i) if fire => final(self).entities@ == s.push(
                        laser_entity(old(self).next_id, s[i as int].pos),
                    ) && final(self).next_id == old(self).next_id + 1,
                    _ => final(self).entities@ == s && final(self).next_id == old(self).next_id,
                }
            }),
    {
        let found = self.single(Kind::Player);
        proof {
            self.lemma_single_spec(Kind::Player, found);
        }
        if let Some(i) = found {
            if fire {
                let pos = self.entities[i].pos;
                self.spawn(
                    Kind::Laser,
                    pos,
                    SpriteSize { w: SPRITE_SIZE, h: SPRITE_SIZE },
                    Some(
                        Motion {
                            velocity: Velocity { x: 0, y: LASER_SPEED },
                            movable: Movable { auto_despawn: true },
                        },
                    ),
                    None,
                );
            }
        }
    }

    /// Puts an enemy above the top edge, at a random abscissa away from the
    /// side edges, drifting down.
    pub fn spawn_enemy(&mut self, win: WinSize)
        requires
            old(self).wf(),
            win.wf(),
            old(self).next_id < u64::MAX,
        ensures
            final(self).wf(),
            final(self).next_id == old(self).next_id + 1,
            final(self).entities@.drop_last() == old(self).entities@,
            final(self).entities@.len() == old(self).entities@.len() + 1,
            is_new_enemy(final(self).entities@.last(), old(self).next_id, win),
            forall|x: u64| old(self).retired(x) ==> final(self).retired(x),
    {
        self.spawn(
            Kind::Enemy,
            enemy_start(win),
            SpriteSize { w: SPRITE_SIZE, h: SPRITE_SIZE },
            Some(
                Motion {
                    velocity: Velocity { x: 0, y: -ENEMY_SPEED },
                    movable: Movable { auto_despawn: true },
                },
            ),
            None,
        );
        proof {
            assert(self.entities@.drop_last() =~= old(self).entities@);
        }
    }

    /// Spawns an enemy unless as many as allowed are already alive.
    pub fn enemy_spawn_system_v2(&mut self, win: WinSize)
        requires
            old(self).wf(),
            win.wf(),
            old(self).next_id < u64::MAX,
        ensures
            final(self).wf(),
            forall|x: u64| old(self).retired(x) ==> final(self).retired(x),
            colliders_of(old(self).entities@, Kind::Enemy).len() >= ENEMY_MAX ==> *final(self)
                == *old(self),
            colliders_of(old(self).entities@, Kind::Enemy).len() < ENEMY_MAX ==> {
                &&& final(self).next_id == old(self).next_id + 1
                &&& final(self).entities@.drop_last() == old(self).entities@
                &&& final(self).entities@.len() == old(self).entities@.len() + 1
                &&& is_new_enemy(final(self).entities@.last(), old(self).next_id, win)
            },
    {
        let enemies = self.colliders(Kind::Enemy);
        if may_spawn_enemy(enemies.len()) {
            self.spawn_enemy(win);
        }
    }

    /// Leaves the reward sprite where an enemy was destroyed, for a short while.
    pub fn spawn_push_file(&mut self, pos: Position)
        requires
            old(self).wf(),
            old(self).next_id < u64::MAX,
        ensures
            final(self).wf(),
            final(self).next_id == old(self).next_id + 1,
            final(self).entities@ == old(self).entities@.push(
                push_file_entity(old(self).next_id, pos),
            ),
            forall|x: u64| old(self).retired(x) ==> final(self).retired(x),
    {
        self.spawn(
            Kind::PushFile,
            pos,
            SpriteSize { w: SPRITE_SIZE, h: SPRITE_SIZE },
            Some(
                Motion {
                    velocity: Velocity { x: 0, y: PUSH_FILE_SPEED },
                    movable: Movable { auto_despawn: true },
                },
            ),
            Some(Temporary { duration: REWARD_FILE_MS, current_time: 0 }),
        );
    }

    /// Shows a floating reward text at a random place on screen, for a short while.
    pub fn spawn_push_text(&mut self, win: WinSize)
        requires
            old(self).wf(),
            win.wf(),
            old(self).next_id < u64::MAX,
        ensures
            final(self).wf(),
            final(self).next_id == old(self).next_id + 1,
            final(self).entities@.drop_last() == old(self).entities@,
            final(self).entities@.len() == old(self).entities@.len() + 1,
            is_push_text(final(self).entities@.last(), old(self).next_id, win),
            forall|x: u64| old(self).retired(x) ==> final(self).retired(x),
    {
        self.spawn(
            Kind::PushText,
            push_text_position(win),
            SpriteSize { w: SPRITE_SIZE, h: SPRITE_SIZE },
            None,
            Some(Temporary { duration: REWARD_TEXT_MS, current_time: 0 }),
        );
        proof {
            assert(self.entities@.drop_last() =~= old(self).entities@);
        }
    }

    /// One tick of the world's physics: the movement pass completes first,
    /// then the collision pass runs on what is left, so that an entity gone
    /// out of bounds on this tick is never tested for collision. Returns the
    /// number of enemies destroyed.
    pub fn step(&mut self, scoring: &mut Scoring, win: WinSize) -> (n: usize)
        requires
            old(self).wf(),
            win.wf(),
            forall|i: int| 0 <= i < old(self).entities@.len() ==> can_move(#[trigger] old(self).entities@[i]),
            old(scoring).bug_fix + old(self).entities@.len() <= u32::MAX,
            old(self).next_id + 2 * old(self).entities@.len() <= u64::MAX,
        ensures
            final(self).wf(),
            forall|x: u64| old(self).retired(x) ==> final(self).retired(x),
            collided(
                update_all(old(self).entities@, movement(win)),
                old(self).next_id,
                final(self).entities@,
                final(self).next_id,
                win,
                n,
            ),
            final(scoring).bug_fix == old(scoring).bug_fix + n,
    {
        proof {
            lemma_update_all_len(self.entities@, movement(win));
        }
        self.movable_system(win);
        self.player_file_hit_enemy_system(scoring, win)
    }

    /// The collision pass over the world: resolves every laser against every
    /// enemy (see `collision_pass`), despawns what it says, and for each enemy
    /// destroyed adds one to the score, leaves a reward sprite where the enemy
    /// was and shows a reward text. Returns the number of enemies destroyed.
    pub fn player_file_hit_enemy_system(&mut self, scoring: &mut Scoring, win: WinSize) -> (n: usize)
        requires
            old(self).wf(),
            win.wf(),
            old(scoring).bug_fix + old(self).entities@.len() <= u32::MAX,
            old(self).next_id + 2 * old(self).entities@.len() <= u64::MAX,
        ensures
            final(self).wf(),
            forall|x: u64| old(self).retired(x) ==> final(self).retired(x),
            collided(old(self).entities@, old(self).next_id, final(self).entities@, final(self).next_id, win, n),
            final(scoring).bug_fix == old(scoring).bug_fix + n,
    {
        let ghost w0 = *self;
        let lasers = self.colliders(Kind::Laser);
        let enemies = self.colliders(Kind::Enemy);
        let outcome = resolve_collisions(&lasers, &enemies);
        proof {
            lemma_colliders_len(w0.entities@, Kind::Enemy);
            lemma_hits_bounded(lasers@, enemies@);
        }
        self.despawn_all(&outcome.despawned);
        let ghost kept = self.entities@;
        let ghost base = self.next_id;
        let mut k: usize = 0;
        while k < outcome.hits.len()
            invariant
                k <= outcome.hits.len(),
                outcome@ == collision_pass(lasers@, enemies@),
                lasers@ == colliders_of(w0.entities@, Kind::Laser),
                enemies@ == colliders_of(w0.entities@, Kind::Enemy),
                outcome.hits.len() <= enemies.len() <= w0.entities@.len(),
                forall|q: int| 0 <= q < outcome.hits.len() ==> outcome.hits@[q] < enemies.len(),
                kept == update_all(w0.entities@, removal(outcome.despawned@)),
                base == w0.next_id,
                win.wf(),
                self.wf(),
                forall|x: u64| w0.retired(x) ==> self.retired(x),
                self.next_id == base + 2 * k,
                base + 2 * w0.entities@.len() <= u64::MAX,
                scoring.bug_fix == old(scoring).bug_fix + k,
                old(scoring).bug_fix + w0.entities@.len() <= u32::MAX,
                self.entities@.len() == kept.len() + 2 * k,
                self.entities@.subrange(0, kept.len() as int) == kept,
                forall|q: int|
                    0 <= q < k ==> {
                        &&& #[trigger] self.entities@[kept.len() + 2 * q] == push_file_entity(
                            (base + 2 * q) as u64,
                            enemies@[outcome.hits@[q] as int].pos,
                        )
                        &&& is_push_text(
                            self.entities@[kept.len() + 2 * q + 1],
                            (base + 2 * q + 1) as u64,
                            win,
                        )
                    },
            decreases outcome.hits.len() - k,
        {
            let pos = enemies[outcome.hits[k]].pos;
            scoring.record_hit();
            let ghost before = self.entities@;
            self.spawn_push_file(pos);
            self.spawn_push_text(win);
            proof {
                let e = self.entities@;
                assert(e.drop_last().drop_last() == before);
                assert forall|i: int| 0 <= i < before.len() implies e[i] == before[i] by {
                    assert(e.drop_last()[i] == e[i]);
                    assert(e.drop_last().drop_last()[i] == e.drop_last()[i]);
                }
                assert(e.subrange(0, kept.len() as int) =~= kept) by {
                    assert(before.subrange(0, kept.len() as int) == kept);
                }
                assert(e[kept.len() + 2 * k] == e.drop_last()[kept.len() + 2 * k]);
            }
            k = k + 1;
        }
        k
    }
}

/// Where exactly one entity has a kind, any two entities of that kind are the same one.
proof fn lemma_only_one(s: Seq<Entity>, kind: Kind, i: int, j: int)
    requires
        colliders_of(s, kind).len() == 1,
        0 <= i < s.len(),
        0 <= j < s.len(),
        s[i].kind == kind,
        s[j].kind == kind,
    ensures
        i == j,
    decreases s.len(),
{
    if i != j {
        lemma_two_counted(s, kind, if i < j { i } else { j }, if i < j { j } else { i });
    }
}

proof fn lemma_two_counted(s: Seq<Entity>, kind: Kind, i: int, j: int)
    requires
        0 <= i < j < s.len(),
        s[i].kind == kind,
        s[j].kind == kind,
    ensures
        colliders_of(s, kind).len() >= 2,
    decreases s.len(),
{
    let d = s.drop_last();
    if j < s.len() - 1 {
        lemma_two_counted(d, kind, i, j);
    } else {
        lemma_one_counted(d, kind, i);
    }
}

proof fn lemma_one_counted(s: Seq<Entity>, kind: Kind, i: int)
    requires
        0 <= i < s.len(),
        s[i].kind == kind,
    ensures
        colliders_of(s, kind).len() >= 1,
    decreases s.len(),
{
    if i < s.len() - 1 {
        lemma_one_counted(s.drop_last(), kind, i);
    }
}

proof fn lemma_colliders_bounded(s: Seq<Entity>, kind: Kind, b: u64)
    requires
        forall|i: int| 0 <= i < s.len() ==> s[i].id < b,
    ensures
        forall|q: int| 0 <= q < colliders_of(s, kind).len() ==> colliders_of(s, kind)[q].id < b,
    decreases s.len(),
{
    if s.len() > 0 {
        let d = s.drop_last();
        assert forall|i: int| 0 <= i < d.len() implies d[i].id < b by {
            assert(d[i] == s[i]);
        }
        lemma_colliders_bounded(d, kind, b);
        let prev = colliders_of(d, kind);
        let c = colliders_of(s, kind);
        assert forall|q: int| 0 <= q < c.len() implies c[q].id < b by {
            if q < prev.len() {
                assert(c[q] == prev[q]);
            } else {
                assert(c[q] == collider(s.last()));
                assert(s[s.len() - 1].id < b);
            }
        }
    }
}

proof fn lemma_colliders_distinct(s: Seq<Entity>)
    requires
        ids_increasing(s),
    ensures
        ids_distinct(colliders_of(s, Kind::Laser), colliders_of(s, Kind::Enemy)),
    decreases s.len(),
{
    if s.len() > 0 {
        let d = s.drop_last();
        let x = s.last();
        assert(ids_increasing(d));
        lemma_colliders_distinct(d);
        assert forall|i: int| 0 <= i < d.len() implies d[i].id < x.id by {
            assert(s[i].id < s[s.len() - 1].id);
        }
        lemma_colliders_bounded(d, Kind::Laser, x.id);
        lemma_colliders_bounded(d, Kind::Enemy, x.id);
    }
}

/// In a well-formed world lasers and enemies are distinct entities, so the
/// collision pass over it despawns each entity at most once, scores each
/// enemy at most once, and scores exactly the enemies that some laser
/// overlaps, however many lasers overlap each of them.
pub proof fn lemma_world_pass(w: World)
    requires
        w.wf(),
        w.entities@.len() <= usize::MAX,
    ensures
        ids_distinct(colliders_of(w.entities@, Kind::Laser), colliders_of(w.entities@, Kind::Enemy)),
        pass_of(w.entities@).0.no_duplicates(),
        pass_of(w.entities@).1.no_duplicates(),
        pass_of(w.entities@).1.len() == overlapped_enemies(
            colliders_of(w.entities@, Kind::Laser),
            colliders_of(w.entities@, Kind::Enemy),
        ).len(),
{
    let s = w.entities@;
    lemma_colliders_distinct(s);
    lemma_colliders_len(s, Kind::Enemy);
    lemma_collision_pass(colliders_of(s, Kind::Laser), colliders_of(s, Kind::Enemy));
}

} // verus!
