use vstd::prelude::*;

use crate::geometry::{collide, overlaps, Position, SpriteSize};

verus! {

/// What the collision pass reads of a laser or an enemy: its id, where it is
/// and how large its box is.
#[derive(Clone, Copy, Debug, PartialEq, Eq, Structural)]
pub struct Collider {
    pub id: u64,
    pub pos: Position,
    pub size: SpriteSize,
}

pub open spec fn hit(l: Collider, e: Collider) -> bool {
    overlaps(l.pos, l.size, e.pos, e.size)
}

/// The bookkeeping of one collision pass: the despawn commands issued so far,
/// in order (the ids of the `destroyed` set), and the index of each enemy that
/// was destroyed and scored, in order.
pub struct CollisionOutcome {
    pub despawned: Vec<u64>,
    pub hits: Vec<usize>,
}

/// The abstract state of a pass: despawned ids and hit enemy indices.
pub type PassState = (Seq<u64>, Seq<usize>);

impl View for CollisionOutcome {
    type V = PassState;

    open spec fn view(&self) -> PassState {
        (self.despawned@, self.hits@)
    }
}

/// One laser/enemy pair: on overlap the enemy is destroyed and scored unless
/// it already was, then the laser is destroyed unless it already was.
pub open spec fn pair_step(st: PassState, l: Collider, e: Collider, j: usize) -> PassState {
    if !hit(l, e) {
        st
    } else {
        let after_enemy = if st.0.contains(e.id) {
            st
        } else {
            (st.0.push(e.id), st.1.push(j))
        };
        if after_enemy.0.contains(l.id) {
            after_enemy
        } else {
            (after_enemy.0.push(l.id), after_enemy.1)
        }
    }
}

/// One laser against the first `n` enemies, in order.
pub open spec fn laser_step(st: PassState, l: Collider, enemies: Seq<Collider>, n: int) -> PassState
    decreases n,
{
    if n <= 0 {
        st
    } else {
        pair_step(laser_step(st, l, enemies, n - 1), l, enemies[n - 1], (n - 1) as usize)
    }
}

/// The first `m` lasers, each against every enemy, starting from an empty pass.
pub open spec fn lasers_step(lasers: Seq<Collider>, enemies: Seq<Collider>, m: int) -> PassState
    decreases m,
{
    if m <= 0 {
        (Seq::empty(), Seq::empty())
    } else {
        laser_step(lasers_step(lasers, enemies, m - 1), lasers[m - 1], enemies, enemies.len() as int)
    }
}

/// The whole pass: every laser against every enemy, laser by laser.
pub open spec fn collision_pass(lasers: Seq<Collider>, enemies: Seq<Collider>) -> PassState {
    lasers_step(lasers, enemies, lasers.len() as int)
}

pub(crate) fn contains_id(ids: &Vec<u64>, id: u64) -> (r: bool)
    ensures
        r == ids@.contains(id),
{
    let mut i: usize = 0;
    while i < ids.len()
        invariant
            i <= ids.len(),
            forall|k: int| 0 <= k < i ==> ids@[k] != id,
        decreases ids.len() - i,
    {
        if ids[i] == id {
            return true;
        }
        i = i + 1;
    }
    false
}

/// Resolves one laser/enemy pair into the pass's bookkeeping.
pub fn handle_collide_laser_enemy(
    outcome: &mut CollisionOutcome,
    laser: &Collider,
    enemy: &Collider,
    enemy_index: usize,
)
    ensures
        final(outcome)@ == pair_step(old(outcome)@, *laser, *enemy, enemy_index),
{
    if collide(laser.pos, laser.size, enemy.pos, enemy.size) {
        if !contains_id(&outcome.despawned, enemy.id) {
            outcome.despawned.push(enemy.id);
            outcome.hits.push(enemy_index);
        }
        if !contains_id(&outcome.despawned, laser.id) {
            outcome.despawned.push(laser.id);
        }
    }
}

/// Resolves one laser against every enemy, in order.
pub fn handle_collide_laser_enemies(
    outcome: &mut CollisionOutcome,
    laser: &Collider,
    enemies: &Vec<Collider>,
)
    ensures
        final(outcome)@ == laser_step(old(outcome)@, *laser, enemies@, enemies@.len() as int),
{
    let ghost start = outcome@;
    let mut j: usize = 0;
    while j < enemies.len()
        invariant
            j <= enemies.len(),
            outcome@ == laser_step(start, *laser, enemies@, j as int),
        decreases enemies.len() - j,
    {
        handle_collide_laser_enemy(outcome, laser, &enemies[j], j);
        j = j + 1;
    }
}

/// One collision pass over a snapshot of the lasers and the enemies: which
/// entities are despawned, in command order, and which enemies are scored.
pub fn resolve_collisions(lasers: &Vec<Collider>, enemies: &Vec<Collider>) -> (r: CollisionOutcome)
    ensures
        r@ == collision_pass(lasers@, enemies@),
{
    let mut outcome = CollisionOutcome { despawned: Vec::new(), hits: Vec::new() };
    let mut i: usize = 0;
    while i < lasers.len()
        invariant
            i <= lasers.len(),
            outcome@ == lasers_step(lasers@, enemies@, i as int),
        decreases lasers.len() - i,
    {
        handle_collide_laser_enemies(&mut outcome, &lasers[i], enemies);
        i = i + 1;
    }
    outcome
}


/// Lasers and enemies are distinct entities: no id occurs twice among them.
pub open spec fn ids_distinct(lasers: Seq<Collider>, enemies: Seq<Collider>) -> bool {
    &&& forall|a: int, b: int|
        0 <= a < lasers.len() && 0 <= b < lasers.len() && a != b ==> lasers[a].id != lasers[b].id
    &&& forall|a: int, b: int|
        0 <= a < enemies.len() && 0 <= b < enemies.len() && a != b ==> enemies[a].id
            != enemies[b].id
    &&& forall|a: int, b: int|
        0 <= a < lasers.len() && 0 <= b < enemies.len() ==> lasers[a].id != enemies[b].id
}

/// Whether laser `a` against enemy `k` comes before position (`i`, `j`) of the pass.
pub open spec fn done(i: int, j: int, a: int, k: int) -> bool {
    a < i || (a == i && k < j)
}

pub open spec fn enemy_hit_before(
    lasers: Seq<Collider>,
    enemies: Seq<Collider>,
    i: int,
    j: int,
    k: int,
) -> bool {
    exists|a: int| 0 <= a < lasers.len() && done(i, j, a, k) && #[trigger] hit(lasers[a], enemies[k])
}

pub open spec fn laser_hit_before(
    lasers: Seq<Collider>,
    enemies: Seq<Collider>,
    i: int,
    j: int,
    a: int,
) -> bool {
    exists|k: int| 0 <= k < enemies.len() && done(i, j, a, k) && #[trigger] hit(lasers[a], enemies[k])
}

/// What the bookkeeping holds once every pair before (`i`, `j`) was resolved.
pub open spec fn pass_inv(
    st: PassState,
    lasers: Seq<Collider>,
    enemies: Seq<Collider>,
    i: int,
    j: int,
) -> bool {
    &&& st.0.no_duplicates()
    &&& st.1.no_duplicates()
    &&& forall|k: int|
        0 <= k < enemies.len() ==> (st.0.contains(#[trigger] enemies[k].id) <==> enemy_hit_before(
            lasers,
            enemies,
            i,
            j,
            k,
        ))
    &&& forall|x: usize|
        x < enemies.len() ==> (#[trigger] st.1.contains(x) <==> st.0.contains(enemies[x as int].id))
    &&& forall|x: usize| #[trigger] st.1.contains(x) ==> x < enemies.len()
    &&& forall|a: int|
        0 <= a < lasers.len() ==> (st.0.contains(#[trigger] lasers[a].id) <==> laser_hit_before(
            lasers,
            enemies,
            i,
            j,
            a,
        ))
    &&& forall|x: u64| #[trigger]
        st.0.contains(x) ==> (exists|a: int| 0 <= a < lasers.len() && lasers[a].id == x) || (exists|
            k: int,
        |
            0 <= k < enemies.len() && enemies[k].id == x)
}

proof fn lemma_pair_step(
    st: PassState,
    lasers: Seq<Collider>,
    enemies: Seq<Collider>,
    i: int,
    j: int,
)
    requires
        ids_distinct(lasers, enemies),
        enemies.len() <= usize::MAX,
        0 <= i < lasers.len(),
        0 <= j < enemies.len(),
        pass_inv(st, lasers, enemies, i, j),
    ensures
        pass_inv(pair_step(st, lasers[i], enemies[j], j as usize), lasers, enemies, i, j + 1),
{
    let l = lasers[i];
    let e = enemies[j];
    let r = pair_step(st, l, e, j as usize);
    assert forall|k: int| 0 <= k < enemies.len() implies (enemy_hit_before(lasers, enemies, i, j, k)
        <==> enemy_hit_before(lasers, enemies, i, j + 1, k)) || (k == j && hit(l, e)) by {
        if enemy_hit_before(lasers, enemies, i, j + 1, k) && !(k == j && hit(l, e)) {
            let a = choose|a: int|
                0 <= a < lasers.len() && done(i, j + 1, a, k) && #[trigger] hit(
                    lasers[a],
                    enemies[k],
                );
            assert(done(i, j, a, k));
        }
    }
    assert forall|a: int| 0 <= a < lasers.len() implies (laser_hit_before(lasers, enemies, i, j, a)
        <==> laser_hit_before(lasers, enemies, i, j + 1, a)) || (a == i && hit(l, e)) by {
        if laser_hit_before(lasers, enemies, i, j + 1, a) && !(a == i && hit(l, e)) {
            let k = choose|k: int|
                0 <= k < enemies.len() && done(i, j + 1, a, k) && #[trigger] hit(
                    lasers[a],
                    enemies[k],
                );
            assert(done(i, j, a, k));
        }
    }
    if hit(l, e) {
        assert(enemy_hit_before(lasers, enemies, i, j + 1, j)) by {
            assert(done(i, j + 1, i, j));
        }
        assert(laser_hit_before(lasers, enemies, i, j + 1, i)) by {
            assert(done(i, j + 1, i, j));
        }
        let mid = if st.0.contains(e.id) {
            st
        } else {
            (st.0.push(e.id), st.1.push(j as usize))
        };
        if !st.0.contains(e.id) {
            assert(!st.1.contains(j as usize));
            assert forall|x: u64| #[trigger] mid.0.contains(x) <==> (st.0.contains(x) || x == e.id) by {
                lemma_push_contains(st.0, e.id, x);
            }
            assert forall|x: usize| #[trigger] mid.1.contains(x) <==> (st.1.contains(x) || x == j) by {
                lemma_push_contains(st.1, j as usize, x);
            }
        }
        if !mid.0.contains(l.id) {
            assert forall|x: u64| #[trigger] r.0.contains(x) <==> (mid.0.contains(x) || x == l.id) by {
                lemma_push_contains(mid.0, l.id, x);
            }
        }
        assert(r.0.no_duplicates());
        assert(r.1.no_duplicates());
    }
}

proof fn lemma_push_contains<T>(s: Seq<T>, v: T, x: T)
    ensures
        s.push(v).contains(x) <==> (s.contains(x) || x == v),
{
    if s.contains(x) {
        let k = choose|k: int| 0 <= k < s.len() && s[k] == x;
        assert(s.push(v)[k] == x);
    }
    if x == v {
        assert(s.push(v)[s.len() as int] == x);
    }
    if s.push(v).contains(x) {
        let k = choose|k: int| 0 <= k < s.push(v).len() && s.push(v)[k] == x;
        if k < s.len() {
            assert(s[k] == x);
        }
    }
}

proof fn lemma_laser_step(
    st: PassState,
    lasers: Seq<Collider>,
    enemies: Seq<Collider>,
    i: int,
    n: int,
)
    requires
        ids_distinct(lasers, enemies),
        enemies.len() <= usize::MAX,
        0 <= i < lasers.len(),
        0 <= n <= enemies.len(),
        pass_inv(st, lasers, enemies, i, 0),
    ensures
        pass_inv(laser_step(st, lasers[i], enemies, n), lasers, enemies, i, n),
    decreases n,
{
    if n > 0 {
        lemma_laser_step(st, lasers, enemies, i, n - 1);
        lemma_pair_step(laser_step(st, lasers[i], enemies, n - 1), lasers, enemies, i, n - 1);
    }
}

proof fn lemma_row_boundary(
    st: PassState,
    lasers: Seq<Collider>,
    enemies: Seq<Collider>,
    i: int,
)
    requires
        0 <= i,
        enemies.len() <= usize::MAX,
        pass_inv(st, lasers, enemies, i, enemies.len() as int),
    ensures
        pass_inv(st, lasers, enemies, i + 1, 0),
{
    let n = enemies.len() as int;
    assert forall|k: int| 0 <= k < n implies enemy_hit_before(lasers, enemies, i, n, k)
        == enemy_hit_before(lasers, enemies, i + 1, 0, k) by {
        if enemy_hit_before(lasers, enemies, i + 1, 0, k) {
            let a = choose|a: int|
                0 <= a < lasers.len() && done(i + 1, 0, a, k) && #[trigger] hit(
                    lasers[a],
                    enemies[k],
                );
            assert(done(i, n, a, k));
        }
        if enemy_hit_before(lasers, enemies, i, n, k) {
            let a = choose|a: int|
                0 <= a < lasers.len() && done(i, n, a, k) && #[trigger] hit(lasers[a], enemies[k]);
            assert(done(i + 1, 0, a, k));
        }
    }
    assert forall|a: int| 0 <= a < lasers.len() implies laser_hit_before(lasers, enemies, i, n, a)
        == laser_hit_before(lasers, enemies, i + 1, 0, a) by {
        if laser_hit_before(lasers, enemies, i + 1, 0, a) {
            let k = choose|k: int|
                0 <= k < enemies.len() && done(i + 1, 0, a, k) && #[trigger] hit(
                    lasers[a],
                    enemies[k],
                );
            assert(done(i, n, a, k));
        }
        if laser_hit_before(lasers, enemies, i, n, a) {
            let k = choose|k: int|
                0 <= k < enemies.len() && done(i, n, a, k) && #[trigger] hit(lasers[a], enemies[k]);
            assert(done(i + 1, 0, a, k));
        }
    }
}

proof fn lemma_lasers_step(lasers: Seq<Collider>, enemies: Seq<Collider>, m: int)
    requires
        ids_distinct(lasers, enemies),
        enemies.len() <= usize::MAX,
        0 <= m <= lasers.len(),
    ensures
        pass_inv(lasers_step(lasers, enemies, m), lasers, enemies, m, 0),
    decreases m,
{
    if m > 0 {
        lemma_lasers_step(lasers, enemies, m - 1);
        let st = lasers_step(lasers, enemies, m - 1);
        lemma_laser_step(st, lasers, enemies, m - 1, enemies.len() as int);
        lemma_row_boundary(
            laser_step(st, lasers[m - 1], enemies, enemies.len() as int),
            lasers,
            enemies,
            m - 1,
        );
    } else {
        let st: PassState = (Seq::empty(), Seq::empty());
        assert forall|k: int| 0 <= k < enemies.len() implies !enemy_hit_before(
            lasers,
            enemies,
            0,
            0,
            k,
        ) by {}
        assert forall|a: int| 0 <= a < lasers.len() implies !laser_hit_before(
            lasers,
            enemies,
            0,
            0,
            a,
        ) by {}
    }
}


/// The enemies that some laser overlaps, by index.
pub open spec fn overlapped_enemies(lasers: Seq<Collider>, enemies: Seq<Collider>) -> Set<usize> {
    Set::new(
        |k: usize|
            k < enemies.len() && exists|a: int| 0 <= a < lasers.len() && #[trigger] hit(lasers[a], enemies[k as int]),
    )
}

/// A collision pass never despawns an entity twice nor scores an enemy twice.
/// With distinct ids, an enemy is despawned and scored exactly when some laser
/// overlaps it, a laser is despawned exactly when it overlaps some enemy,
/// nothing else is despawned, and the score gained is the number of enemies
/// overlapped, however many lasers overlap each of them.
pub proof fn lemma_collision_pass(lasers: Seq<Collider>, enemies: Seq<Collider>)
    requires
        ids_distinct(lasers, enemies),
        enemies.len() <= usize::MAX,
    ensures
        collision_pass(lasers, enemies).0.no_duplicates(),
        collision_pass(lasers, enemies).1.no_duplicates(),
        forall|k: int|
            0 <= k < enemies.len() ==> (collision_pass(lasers, enemies).0.contains(
                #[trigger] enemies[k].id,
            ) <==> exists|a: int| 0 <= a < lasers.len() && #[trigger] hit(lasers[a], enemies[k])),
        forall|a: int|
            0 <= a < lasers.len() ==> (collision_pass(lasers, enemies).0.contains(
                #[trigger] lasers[a].id,
            ) <==> exists|k: int| 0 <= k < enemies.len() && #[trigger] hit(lasers[a], enemies[k])),
        forall|x: u64| #[trigger]
            collision_pass(lasers, enemies).0.contains(x) ==> (exists|a: int|
                0 <= a < lasers.len() && lasers[a].id == x) || (exists|k: int|
                0 <= k < enemies.len() && enemies[k].id == x),
        collision_pass(lasers, enemies).1.to_set() == overlapped_enemies(lasers, enemies),
        collision_pass(lasers, enemies).1.len() == overlapped_enemies(lasers, enemies).len(),
{
    let m = lasers.len() as int;
    let n = enemies.len() as int;
    let r = collision_pass(lasers, enemies);
    lemma_lasers_step(lasers, enemies, m);
    assert forall|k: int| 0 <= k < n implies enemy_hit_before(lasers, enemies, m, 0, k) == (exists|
        a: int,
    | 0 <= a < m && #[trigger] hit(lasers[a], enemies[k])) by {
        if exists|a: int| 0 <= a < m && #[trigger] hit(lasers[a], enemies[k]) {
            let a = choose|a: int| 0 <= a < m && #[trigger] hit(lasers[a], enemies[k]);
            assert(done(m, 0, a, k));
        }
    }
    assert forall|a: int| 0 <= a < m implies laser_hit_before(lasers, enemies, m, 0, a) == (exists|
        k: int,
    | 0 <= k < n && #[trigger] hit(lasers[a], enemies[k])) by {
        if exists|k: int| 0 <= k < n && #[trigger] hit(lasers[a], enemies[k]) {
            let k = choose|k: int| 0 <= k < n && #[trigger] hit(lasers[a], enemies[k]);
            assert(done(m, 0, a, k));
        }
    }
    assert forall|x: usize| #[trigger] r.1.to_set().contains(x) <==> overlapped_enemies(
        lasers,
        enemies,
    ).contains(x) by {
        if x < n {
            assert(enemy_hit_before(lasers, enemies, m, 0, x as int) == (exists|a: int|
                0 <= a < m && #[trigger] hit(lasers[a], enemies[x as int])));
        }
    }
    assert(r.1.to_set() =~= overlapped_enemies(lasers, enemies));
    r.1.unique_seq_to_set();
}

/// One laser overlapping two enemies at once: both enemies are despawned and
/// scored, the laser is despawned once, in the order enemy, laser, enemy.
pub proof fn lemma_one_laser_two_enemies(l: Collider, e1: Collider, e2: Collider)
    requires
        hit(l, e1),
        hit(l, e2),
        l.id != e1.id,
        l.id != e2.id,
        e1.id != e2.id,
    ensures
        collision_pass(seq![l], seq![e1, e2]) == (seq![e1.id, l.id, e2.id], seq![0usize, 1usize]),
{
    let lasers = seq![l];
    let enemies = seq![e1, e2];
    let st0: PassState = (Seq::empty(), Seq::empty());
    let st1 = pair_step(st0, l, e1, 0);
    assert(st1.0 =~= seq![e1.id, l.id]);
    assert(st1.1 =~= seq![0usize]);
    let st2 = pair_step(st1, l, e2, 1);
    assert(!st1.0.contains(e2.id));
    assert(st1.0.push(e2.id).contains(l.id)) by {
        assert(st1.0.push(e2.id)[1] == l.id);
    }
    assert(st2.0 =~= seq![e1.id, l.id, e2.id]);
    assert(st2.1 =~= seq![0usize, 1usize]);
    assert(laser_step(st0, l, enemies, 0) == st0);
    assert(laser_step(st0, l, enemies, 1) == st1);
    assert(laser_step(st0, l, enemies, 2) == st2);
    assert(lasers_step(lasers, enemies, 0) == st0);
}

/// Two lasers overlapping one enemy at once: the enemy is despawned and scored
/// once, and both lasers are despawned.
pub proof fn lemma_two_lasers_one_enemy(l1: Collider, l2: Collider, e: Collider)
    requires
        hit(l1, e),
        hit(l2, e),
        l1.id != e.id,
        l2.id != e.id,
        l1.id != l2.id,
    ensures
        collision_pass(seq![l1, l2], seq![e]) == (seq![e.id, l1.id, l2.id], seq![0usize]),
{
    let lasers = seq![l1, l2];
    let enemies = seq![e];
    let st0: PassState = (Seq::empty(), Seq::empty());
    let st1 = pair_step(st0, l1, e, 0);
    assert(st1.0 =~= seq![e.id, l1.id]);
    assert(st1.1 =~= seq![0usize]);
    assert(st1.0.contains(e.id)) by {
        assert(st1.0[0] == e.id);
    }
    let st2 = pair_step(st1, l2, e, 0);
    assert(!st1.0.contains(l2.id));
    assert(st2.0 =~= seq![e.id, l1.id, l2.id]);
    assert(laser_step(st0, l1, enemies, 0) == st0);
    assert(laser_step(st0, l1, enemies, 1) == st1);
    assert(lasers_step(lasers, enemies, 0) == st0);
    assert(lasers_step(lasers, enemies, 1) == st1);
    assert(laser_step(st1, l2, enemies, 0) == st1);
    assert(laser_step(st1, l2, enemies, 1) == st2);
}


/// Each scored enemy index is in range, is scored once, and the enemy's id was despawned.
pub open spec fn hits_inv(st: PassState, enemies: Seq<Collider>) -> bool {
    &&& st.1.no_duplicates()
    &&& forall|x: usize| #[trigger]
        st.1.contains(x) ==> x < enemies.len() && st.0.contains(enemies[x as int].id)
}

proof fn lemma_hits_laser_step(st: PassState, l: Collider, enemies: Seq<Collider>, n: int)
    requires
        hits_inv(st, enemies),
        0 <= n <= enemies.len(),
        enemies.len() <= usize::MAX,
    ensures
        hits_inv(laser_step(st, l, enemies, n), enemies),
    decreases n,
{
    if n > 0 {
        lemma_hits_laser_step(st, l, enemies, n - 1);
        let s0 = laser_step(st, l, enemies, n - 1);
        let e = enemies[n - 1];
        let j = (n - 1) as usize;
        if hit(l, e) {
            let mid = if s0.0.contains(e.id) {
                s0
            } else {
                (s0.0.push(e.id), s0.1.push(j))
            };
            if !s0.0.contains(e.id) {
                assert(!s0.1.contains(j));
                assert forall|x: u64| s0.0.contains(x) implies #[trigger] mid.0.contains(x) by {
                    lemma_push_contains(s0.0, e.id, x);
                }
                assert(mid.0.contains(e.id)) by {
                    lemma_push_contains(s0.0, e.id, e.id);
                }
                assert forall|x: usize| #[trigger] mid.1.contains(x) implies s0.1.contains(x) || x == j by {
                    lemma_push_contains(s0.1, j, x);
                }
            }
            let r = laser_step(st, l, enemies, n);
            assert forall|x: u64| mid.0.contains(x) implies #[trigger] r.0.contains(x) by {
                lemma_push_contains(mid.0, l.id, x);
            }
        }
    }
}

/// A pass scores at most as many enemies as there are, each by its index.
pub proof fn lemma_hits_bounded(lasers: Seq<Collider>, enemies: Seq<Collider>)
    requires
        enemies.len() <= usize::MAX,
    ensures
        collision_pass(lasers, enemies).1.len() <= enemies.len(),
        forall|q: int|
            0 <= q < collision_pass(lasers, enemies).1.len() ==> #[trigger] collision_pass(
                lasers,
                enemies,
            ).1[q] < enemies.len(),
{
    let n = enemies.len() as int;
    lemma_hits_prefix(lasers, enemies, lasers.len() as int);
    let hits = collision_pass(lasers, enemies).1;
    let range = vstd::set_lib::set_int_range(0, n);
    let image = range.map(|i: int| i as usize);
    vstd::set_lib::lemma_int_range(0, n);
    vstd::set_lib::lemma_map_size_bound(range, image, |i: int| i as usize);
    assert forall|x: usize| hits.to_set().contains(x) implies image.contains(x) by {
        assert(range.contains(x as int));
        assert(x as int as usize == x);
    }
    vstd::set_lib::lemma_len_subset(hits.to_set(), image);
    hits.unique_seq_to_set();
    assert forall|q: int| 0 <= q < hits.len() implies #[trigger] hits[q] < n by {
        assert(hits.contains(hits[q]));
    }
}

proof fn lemma_hits_prefix(lasers: Seq<Collider>, enemies: Seq<Collider>, m: int)
    requires
        enemies.len() <= usize::MAX,
        0 <= m <= lasers.len(),
    ensures
        hits_inv(lasers_step(lasers, enemies, m), enemies),
    decreases m,
{
    if m > 0 {
        lemma_hits_prefix(lasers, enemies, m - 1);
        lemma_hits_laser_step(
            lasers_step(lasers, enemies, m - 1),
            lasers[m - 1],
            enemies,
            enemies.len() as int,
        );
    }
}

} // verus!
