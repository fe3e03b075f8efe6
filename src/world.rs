use vstd::prelude::*;

use crate::geometry::{Position, SpriteSize};
use crate::motion::{
    advanced, advanced_n, can_advance, displacement, lemma_advanced_n, move_entity, out_of_play_area,
    Movable, Velocity, WinSize,
};
use crate::resources::Temporary;

verus! {

/// What an entity is, in place of the engine's marker components.
#[derive(Clone, Copy, Debug, PartialEq, Eq, Hash, Structural)]
pub enum Kind {
    Player,
    Laser,
    Enemy,
    PushFile,
    PushText,
}

/// How an entity moves: its velocity, and whether it leaves the world once
/// out of the play area.
#[derive(Clone, Copy, Debug, PartialEq, Eq, Structural)]
pub struct Motion {
    pub velocity: Velocity,
    pub movable: Movable,
}

/// One entity of the world with the components it has.
#[derive(Clone, Copy, Debug)]
pub struct Entity {
    pub id: u64,
    pub kind: Kind,
    pub pos: Position,
    pub size: SpriteSize,
    pub motion: Option<Motion>,
    pub temporary: Option<Temporary>,
}

/// Some entity of `s` has this id.
pub open spec fn has_id(s: Seq<Entity>, id: u64) -> bool {
    exists|i: int| 0 <= i < s.len() && s[i].id == id
}

/// Ids grow strictly along the sequence (so no id occurs twice).
pub open spec fn ids_increasing(s: Seq<Entity>) -> bool {
    forall|i: int, j: int| 0 <= i < j < s.len() ==> s[i].id < s[j].id
}

/// Each entity in order is kept as `f` makes it, or dropped where `f` gives `None`.
pub open spec fn update_all(s: Seq<Entity>, f: spec_fn(Entity) -> Option<Entity>) -> Seq<Entity>
    decreases s.len(),
{
    if s.len() == 0 {
        Seq::empty()
    } else {
        let prev = update_all(s.drop_last(), f);
        match f(s.last()) {
            Some(e) => prev.push(e),
            None => prev,
        }
    }
}

pub open spec fn keeps_ids(f: spec_fn(Entity) -> Option<Entity>) -> bool {
    forall|e: Entity| (#[trigger] f(e)) is Some ==> f(e)->Some_0.id == e.id
}

proof fn lemma_update_all(s: Seq<Entity>, f: spec_fn(Entity) -> Option<Entity>)
    requires
        keeps_ids(f),
    ensures
        ids_increasing(s) ==> ids_increasing(update_all(s, f)),
        forall|id: u64| has_id(update_all(s, f), id) ==> has_id(s, id),
    decreases s.len(),
{
    if s.len() > 0 {
        let d = s.drop_last();
        let prev = update_all(d, f);
        lemma_update_all(d, f);
        assert forall|id: u64| has_id(update_all(s, f), id) implies has_id(s, id) by {
            let r = update_all(s, f);
            let i = choose|i: int| 0 <= i < r.len() && r[i].id == id;
            if i < prev.len() {
                assert(r[i] == prev[i]);
                assert(has_id(prev, id));
                assert(has_id(d, id));
                let k = choose|k: int| 0 <= k < d.len() && d[k].id == id;
                assert(s[k].id == id);
            } else {
                assert(f(s.last()) is Some);
                assert(r[i] == f(s.last())->Some_0);
                assert(s[s.len() - 1].id == id);
            }
        }
        if ids_increasing(s) {
            assert(ids_increasing(d));
            assert forall|i: int| 0 <= i < prev.len() implies prev[i].id < s.last().id by {
                assert(has_id(prev, prev[i].id));
                assert(has_id(d, prev[i].id));
                let k = choose|k: int| 0 <= k < d.len() && d[k].id == prev[i].id;
                assert(s[k].id == prev[i].id);
            }
        }
    }
}

/// With distinct ids, an entity's id is still there after the update exactly
/// when `f` keeps that entity.
proof fn lemma_update_all_member(s: Seq<Entity>, f: spec_fn(Entity) -> Option<Entity>, i: int)
    requires
        keeps_ids(f),
        ids_increasing(s),
        0 <= i < s.len(),
    ensures
        has_id(update_all(s, f), s[i].id) <==> f(s[i]) is Some,
    decreases s.len(),
{
    let d = s.drop_last();
    let prev = update_all(d, f);
    let r = update_all(s, f);
    let last = s.len() - 1;
    lemma_update_all(d, f);
    if i == last {
        if has_id(prev, s[i].id) {
            assert(has_id(d, s[i].id));
            let k = choose|k: int| 0 <= k < d.len() && d[k].id == s[i].id;
            assert(s[k].id == s[i].id);
        }
        if f(s[i]) is Some {
            assert(r[r.len() - 1].id == s[i].id);
        } else {
            assert(r == prev);
        }
    } else {
        assert(d[i] == s[i]);
        lemma_update_all_member(d, f, i);
        if has_id(prev, s[i].id) {
            let k = choose|k: int| 0 <= k < prev.len() && prev[k].id == s[i].id;
            assert(r[k] == prev[k]);
        }
        if has_id(r, s[i].id) {
            let k = choose|k: int| 0 <= k < r.len() && r[k].id == s[i].id;
            if k == prev.len() {
                assert(f(s.last()) is Some);
                assert(s[last].id == s[i].id);
            } else {
                assert(r[k] == prev[k]);
            }
        }
    }
}

/// An update never adds entities.
pub(crate) proof fn lemma_update_all_len(s: Seq<Entity>, f: spec_fn(Entity) -> Option<Entity>)
    ensures
        update_all(s, f).len() <= s.len(),
    decreases s.len(),
{
    if s.len() > 0 {
        lemma_update_all_len(s.drop_last(), f);
    }
}

/// The world: every live entity, in order of creation, and the next id to hand out.
pub struct World {
    pub entities: Vec<Entity>,
    pub next_id: u64,
}

/// An entity one tick later, or `None` where it leaves the world: it moves by
/// its velocity, and goes once auto-despawn and out of the play area.
pub open spec fn moved(e: Entity, win: WinSize) -> Option<Entity> {
    match e.motion {
        None => Some(e),
        Some(m) => {
            let p = advanced(e.pos, m.velocity);
            if m.movable.auto_despawn && out_of_play_area(p, win) {
                None
            } else {
                Some(
                    Entity {
                        id: e.id,
                        kind: e.kind,
                        pos: p,
                        size: e.size,
                        motion: e.motion,
                        temporary: e.temporary,
                    },
                )
            }
        },
    }
}

pub open spec fn movement(win: WinSize) -> spec_fn(Entity) -> Option<Entity> {
    |e: Entity| moved(e, win)
}

pub open spec fn can_move(e: Entity) -> bool {
    match e.motion {
        None => true,
        Some(m) => can_advance(e.pos, m.velocity),
    }
}

/// An entity after `elapsed_ms` more of its lifetime, or `None` once it is over.
pub open spec fn decayed(e: Entity, elapsed_ms: u32) -> Option<Entity> {
    match e.temporary {
        None => Some(e),
        Some(t) => {
            if t.aged(elapsed_ms).expired() {
                None
            } else {
                Some(
                    Entity {
                        id: e.id,
                        kind: e.kind,
                        pos: e.pos,
                        size: e.size,
                        motion: e.motion,
                        temporary: Some(t.aged(elapsed_ms)),
                    },
                )
            }
        },
    }
}

pub open spec fn decay(elapsed_ms: u32) -> spec_fn(Entity) -> Option<Entity> {
    |e: Entity| decayed(e, elapsed_ms)
}

pub open spec fn can_decay(e: Entity, elapsed_ms: u32) -> bool {
    match e.temporary {
        None => true,
        Some(t) => t.can_age(elapsed_ms),
    }
}

/// Drops the entities whose id is listed.
pub open spec fn removal(ids: Seq<u64>) -> spec_fn(Entity) -> Option<Entity> {
    |e: Entity|
        if ids.contains(e.id) {
            None
        } else {
            Some(e)
        }
}

impl World {
    /// Ids are handed out in increasing order and never twice.
    pub open spec fn wf(&self) -> bool {
        &&& ids_increasing(self.entities@)
        &&& forall|i: int| 0 <= i < self.entities@.len() ==> self.entities@[i].id < self.next_id
    }

    /// The id was handed out, and its entity is gone.
    pub open spec fn retired(&self, id: u64) -> bool {
        id < self.next_id && !has_id(self.entities@, id)
    }

    /// An empty world.
    pub fn new() -> (r: World)
        ensures
            r.wf(),
            r.entities@.len() == 0,
            r.next_id == 0,
    {
        World { entities: Vec::new(), next_id: 0 }
    }

    proof fn lemma_replaced(&self, old_world: World, f: spec_fn(Entity) -> Option<Entity>)
        requires
            old_world.wf(),
            keeps_ids(f),
            self.entities@ == update_all(old_world.entities@, f),
            self.next_id == old_world.next_id,
        ensures
            self.wf(),
            forall|id: u64| old_world.retired(id) ==> self.retired(id),
    {
        lemma_update_all(old_world.entities@, f);
        assert forall|i: int| 0 <= i < self.entities@.len() implies self.entities@[i].id
            < self.next_id by {
            let id = self.entities@[i].id;
            assert(has_id(self.entities@, id));
            assert(has_id(old_world.entities@, id));
            let k = choose|k: int| 0 <= k < old_world.entities@.len() && old_world.entities@[k].id == id;
            assert(old_world.entities@[k].id < old_world.next_id);
        }
    }

    /// Adds an entity under the next id; returns that id.
    pub fn spawn(
        &mut self,
        kind: Kind,
        pos: Position,
        size: SpriteSize,
        motion: Option<Motion>,
        temporary: Option<Temporary>,
    ) -> (id: u64)
        requires
            old(self).wf(),
            old(self).next_id < u64::MAX,
        ensures
            final(self).wf(),
            id == old(self).next_id,
            final(self).next_id == old(self).next_id + 1,
            final(self).entities@ == old(self).entities@.push(
                Entity { id, kind, pos, size, motion, temporary },
            ),
            forall|x: u64| old(self).retired(x) ==> final(self).retired(x),
    {
        let id = self.next_id;
        self.entities.push(Entity { id, kind, pos, size, motion, temporary });
        self.next_id = self.next_id + 1;
        id
    }

    /// Removes every entity whose id is listed; ids of no live entity are ignored.
    pub fn despawn_all(&mut self, ids: &Vec<u64>)
        requires
            old(self).wf(),
        ensures
            final(self).wf(),
            final(self).next_id == old(self).next_id,
            final(self).entities@ == update_all(old(self).entities@, removal(ids@)),
            forall|x: u64| old(self).retired(x) ==> final(self).retired(x),
    {
        let ghost start = self.entities@;
        let ghost f = removal(ids@);
        let mut kept: Vec<Entity> = Vec::new();
        let mut i: usize = 0;
        while i < self.entities.len()
            invariant
                i <= self.entities.len(),
                self.entities@ == start,
                f == removal(ids@),
                kept@ == update_all(start.subrange(0, i as int), f),
            decreases self.entities.len() - i,
        {
            let e = self.entities[i];
            proof {
                assert(start.subrange(0, i + 1).drop_last() =~= start.subrange(0, i as int));
            }
            if !crate::collision::contains_id(ids, e.id) {
                kept.push(e);
            }
            i = i + 1;
        }
        proof {
            assert(start.subrange(0, start.len() as int) =~= start);
        }
        let ghost before = *self;
        self.entities = kept;
        proof {
            self.lemma_replaced(before, f);
        }
    }

    /// The movement pass: every entity with a velocity advances by one tick,
    /// and each auto-despawn entity that is then out of the play area leaves
    /// the world.
    pub fn movable_system(&mut self, win: WinSize)
        requires
            old(self).wf(),
            forall|i: int| 0 <= i < old(self).entities@.len() ==> can_move(#[trigger] old(self).entities@[i]),
        ensures
            final(self).wf(),
            final(self).next_id == old(self).next_id,
            final(self).entities@ == update_all(old(self).entities@, movement(win)),
            forall|x: u64| old(self).retired(x) ==> final(self).retired(x),
    {
        let ghost start = self.entities@;
        let ghost f = movement(win);
        let mut kept: Vec<Entity> = Vec::new();
        let mut i: usize = 0;
        while i < self.entities.len()
            invariant
                i <= self.entities.len(),
                self.entities@ == start,
                f == movement(win),
                forall|k: int| 0 <= k < start.len() ==> can_move(#[trigger] start[k]),
                kept@ == update_all(start.subrange(0, i as int), f),
            decreases self.entities.len() - i,
        {
            let e = self.entities[i];
            proof {
                assert(start.subrange(0, i + 1).drop_last() =~= start.subrange(0, i as int));
                assert(can_move(start[i as int]));
            }
            match e.motion {
                None => kept.push(e),
                Some(m) => {
                    let mut pos = e.pos;
                    let gone = move_entity(&mut pos, m.velocity, m.movable, win);
                    if !gone {
                        kept.push(
                            Entity {
                                id: e.id,
                                kind: e.kind,
                                pos,
                                size: e.size,
                                motion: e.motion,
                                temporary: e.temporary,
                            },
                        );
                    }
                },
            }
            i = i + 1;
        }
        proof {
            assert(start.subrange(0, start.len() as int) =~= start);
        }
        let ghost before = *self;
        self.entities = kept;
        proof {
            self.lemma_replaced(before, f);
        }
    }

    /// The lifetime pass: every entity with a lifetime ages by the real time
    /// elapsed, and leaves the world once its lifetime is over.
    pub fn temporary_system(&mut self, elapsed_ms: u32)
        requires
            old(self).wf(),
            forall|i: int|
                0 <= i < old(self).entities@.len() ==> can_decay(#[trigger] old(self).entities@[i], elapsed_ms),
        ensures
            final(self).wf(),
            final(self).next_id == old(self).next_id,
            final(self).entities@ == update_all(old(self).entities@, decay(elapsed_ms)),
            forall|x: u64| old(self).retired(x) ==> final(self).retired(x),
    {
        let ghost start = self.entities@;
        let ghost f = decay(elapsed_ms);
        let mut kept: Vec<Entity> = Vec::new();
        let mut i: usize = 0;
        while i < self.entities.len()
            invariant
                i <= self.entities.len(),
                self.entities@ == start,
                f == decay(elapsed_ms),
                forall|k: int| 0 <= k < start.len() ==> can_decay(#[trigger] start[k], elapsed_ms),
                kept@ == update_all(start.subrange(0, i as int), f),
            decreases self.entities.len() - i,
        {
            let e = self.entities[i];
            proof {
                assert(start.subrange(0, i + 1).drop_last() =~= start.subrange(0, i as int));
                assert(can_decay(start[i as int], elapsed_ms));
            }
            match e.temporary {
                None => kept.push(e),
                Some(t) => {
                    let mut t = t;
                    let expired = t.age(elapsed_ms);
                    if !expired {
                        kept.push(
                            Entity {
                                id: e.id,
                                kind: e.kind,
                                pos: e.pos,
                                size: e.size,
                                motion: e.motion,
                                temporary: Some(t),
                            },
                        );
                    }
                },
            }
            i = i + 1;
        }
        proof {
            assert(start.subrange(0, start.len() as int) =~= start);
        }
        let ghost before = *self;
        self.entities = kept;
        proof {
            self.lemma_replaced(before, f);
        }
    }
}


/// An auto-despawn entity whose position after the tick is out of the play
/// area is gone from the world on that very tick; its id is retired, which
/// every operation of the world keeps.
pub proof fn lemma_leaving_entity_despawned(before: World, after: World, win: WinSize, i: int)
    requires
        before.wf(),
        0 <= i < before.entities@.len(),
        before.entities@[i].motion is Some,
        before.entities@[i].motion->Some_0.movable.auto_despawn,
        out_of_play_area(
            advanced(before.entities@[i].pos, before.entities@[i].motion->Some_0.velocity),
            win,
        ),
        after.entities@ == update_all(before.entities@, movement(win)),
        after.next_id == before.next_id,
    ensures
        after.retired(before.entities@[i].id),
{
    lemma_update_all_member(before.entities@, movement(win), i);
}

/// An entity that is not auto-despawn stays in the world through the tick,
/// however far it moves.
pub proof fn lemma_exempt_entity_stays(before: World, win: WinSize, i: int)
    requires
        before.wf(),
        0 <= i < before.entities@.len(),
        !(before.entities@[i].motion is Some && before.entities@[i].motion->Some_0.movable.auto_despawn),
    ensures
        has_id(update_all(before.entities@, movement(win)), before.entities@[i].id),
{
    lemma_update_all_member(before.entities@, movement(win), i);
}

/// After the tick no auto-despawn entity is out of the play area.
pub proof fn lemma_survivors_in_play_area(s: Seq<Entity>, win: WinSize)
    ensures
        forall|k: int|
            0 <= k < update_all(s, movement(win)).len() ==> {
                let e = #[trigger] update_all(s, movement(win))[k];
                e.motion is Some && e.motion->Some_0.movable.auto_despawn ==> !out_of_play_area(
                    e.pos,
                    win,
                )
            },
    decreases s.len(),
{
    if s.len() > 0 {
        lemma_survivors_in_play_area(s.drop_last(), win);
        let prev = update_all(s.drop_last(), movement(win));
        let r = update_all(s, movement(win));
        assert forall|k: int| 0 <= k < prev.len() implies r[k] == prev[k] by {}
    }
}

/// Where `f` keeps an entity, what it makes of it is in the update.
proof fn lemma_update_all_keeps(s: Seq<Entity>, f: spec_fn(Entity) -> Option<Entity>, i: int)
    requires
        0 <= i < s.len(),
        f(s[i]) is Some,
    ensures
        exists|k: int|
            0 <= k < update_all(s, f).len() && update_all(s, f)[k] == f(s[i])->Some_0,
    decreases s.len(),
{
    let d = s.drop_last();
    let prev = update_all(d, f);
    let r = update_all(s, f);
    if i == s.len() - 1 {
        assert(r[r.len() - 1] == f(s[i])->Some_0);
    } else {
        assert(d[i] == s[i]);
        lemma_update_all_keeps(d, f, i);
        let k = choose|k: int| 0 <= k < prev.len() && prev[k] == f(d[i])->Some_0;
        assert(r[k] == prev[k]);
    }
}

/// The entities after `n` movement passes.
pub open spec fn ticks(s: Seq<Entity>, win: WinSize, n: nat) -> Seq<Entity>
    decreases n,
{
    if n == 0 {
        s
    } else {
        update_all(ticks(s, win, (n - 1) as nat), movement(win))
    }
}

/// `n` movement passes and then `m` more are `n + m` passes.
pub proof fn lemma_ticks_add(s: Seq<Entity>, win: WinSize, n: nat, m: nat)
    ensures
        ticks(ticks(s, win, n), win, m) == ticks(s, win, n + m),
    decreases m,
{
    if m > 0 {
        lemma_ticks_add(s, win, n, (m - 1) as nat);
        assert((n + m - 1) as nat == n + (m - 1) as nat);
    }
}

proof fn lemma_ticks_increasing(s: Seq<Entity>, win: WinSize, n: nat)
    requires
        ids_increasing(s),
    ensures
        ids_increasing(ticks(s, win, n)),
    decreases n,
{
    if n > 0 {
        lemma_ticks_increasing(s, win, (n - 1) as nat);
        lemma_update_all(ticks(s, win, (n - 1) as nat), movement(win));
    }
}

/// An entity as it is after moving to `p`.
pub open spec fn moved_to(e: Entity, p: Position) -> Entity {
    Entity { id: e.id, kind: e.kind, pos: p, size: e.size, motion: e.motion, temporary: e.temporary }
}

/// An entity with a velocity that is still in the world after `n` movement
/// passes has moved `n` single steps at that velocity, and is otherwise unchanged.
pub proof fn lemma_ticks_carry_entity(s: Seq<Entity>, win: WinSize, i: int, n: nat)
    requires
        ids_increasing(s),
        0 <= i < s.len(),
        s[i].motion is Some,
        has_id(ticks(s, win, n), s[i].id),
    ensures
        exists|k: int|
            0 <= k < ticks(s, win, n).len() && ticks(s, win, n)[k] == moved_to(
                s[i],
                advanced_n(s[i].pos, s[i].motion->Some_0.velocity, n),
            ),
    decreases n,
{
    let e = s[i];
    let v = e.motion->Some_0.velocity;
    if n == 0 {
        assert(s[i] == moved_to(e, e.pos));
    } else {
        let k0 = (n - 1) as nat;
        let prev = ticks(s, win, k0);
        lemma_ticks_increasing(s, win, k0);
        lemma_update_all(prev, movement(win));
        assert(has_id(prev, e.id)) by {
            assert(has_id(update_all(prev, movement(win)), e.id));
        }
        lemma_ticks_carry_entity(s, win, i, k0);
        let j = choose|j: int|
            0 <= j < prev.len() && prev[j] == moved_to(e, advanced_n(e.pos, v, k0));
        lemma_update_all_member(prev, movement(win), j);
        assert(movement(win)(prev[j]) is Some);
        lemma_update_all_keeps(prev, movement(win), j);
        assert(movement(win)(prev[j])->Some_0 == moved_to(e, advanced_n(e.pos, v, n)));
    }
}

/// An entity with a constant velocity that stays in the world through `n`
/// movement passes ends `n` times the one-tick displacement away from where
/// it started, on each axis (as long as every position on the way fits).
pub proof fn lemma_ticks_move_entity(s: Seq<Entity>, win: WinSize, i: int, n: nat)
    requires
        ids_increasing(s),
        0 <= i < s.len(),
        s[i].motion is Some,
        has_id(ticks(s, win, n), s[i].id),
        forall|k: nat|
            k <= n ==> i64::MIN <= #[trigger] (s[i].pos.x + k * displacement(
                s[i].motion->Some_0.velocity.x as int,
            )) <= i64::MAX && i64::MIN <= s[i].pos.y + k * displacement(
                s[i].motion->Some_0.velocity.y as int,
            ) <= i64::MAX,
    ensures
        exists|k: int|
            0 <= k < ticks(s, win, n).len() && ticks(s, win, n)[k].id == s[i].id
                && ticks(s, win, n)[k].pos.x == s[i].pos.x + n * displacement(
                s[i].motion->Some_0.velocity.x as int,
            ) && ticks(s, win, n)[k].pos.y == s[i].pos.y + n * displacement(
                s[i].motion->Some_0.velocity.y as int,
            ),
{
    lemma_ticks_carry_entity(s, win, i, n);
    lemma_advanced_n(s[i].pos, s[i].motion->Some_0.velocity, n);
}

/// An entity gone from the world after `n` movement passes is gone after
/// every later pass too: it never reappears.
pub proof fn lemma_ticks_gone_stays_gone(s: Seq<Entity>, win: WinSize, id: u64, n: nat, m: nat)
    requires
        n <= m,
        !has_id(ticks(s, win, n), id),
    ensures
        !has_id(ticks(s, win, m), id),
    decreases m - n,
{
    if n < m {
        lemma_ticks_gone_stays_gone(s, win, id, n, (m - 1) as nat);
        lemma_update_all(ticks(s, win, (m - 1) as nat), movement(win));
    }
}

} // verus!
