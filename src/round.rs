use vstd::prelude::*;

use crate::resources::{Scoring, Timer, ROUND_MS};

verus! {

/// The phase of the game.
#[derive(Clone, Copy, Debug, PartialEq, Eq, Hash, Structural)]
pub enum AppState {
    MainMenu,
    InGame,
    EndGame,
}

/// The state of a session: its phase, the score of the round and its timer.
#[derive(Clone, Copy, Debug, PartialEq, Eq, Structural)]
pub struct Round {
    pub state: AppState,
    pub scoring: Scoring,
    pub timer: Timer,
}

/// One tick of the session. In the menu the start key begins a round with a
/// full timer; in game the timer counts down by the elapsed time and the
/// round ends once it is below zero; at the end the back key returns to the
/// menu with the score at zero and a full timer.
pub open spec fn round_step(r: Round, start: bool, back: bool, elapsed_ms: u32) -> Round {
    match r.state {
        AppState::MainMenu => if start {
            Round { state: AppState::InGame, scoring: r.scoring, timer: Timer(ROUND_MS) }
        } else {
            r
        },
        AppState::InGame => {
            let t = (r.timer.0 - elapsed_ms) as i64;
            Round {
                state: if t < 0 {
                    AppState::EndGame
                } else {
                    AppState::InGame
                },
                scoring: r.scoring,
                timer: Timer(t),
            }
        },
        AppState::EndGame => if back {
            Round { state: AppState::MainMenu, scoring: Scoring { bug_fix: 0 }, timer: Timer(ROUND_MS) }
        } else {
            r
        },
    }
}

/// The tick can be taken without the timer leaving `i64`.
pub open spec fn can_step(r: Round, elapsed_ms: u32) -> bool {
    r.state == AppState::InGame ==> r.timer.0 >= i64::MIN + elapsed_ms
}

impl Round {
    /// A session in the menu, with no score and a full timer.
    pub fn new() -> (r: Round)
        ensures
            r.state == AppState::MainMenu,
            r.scoring.bug_fix == 0,
            r.timer.0 == ROUND_MS,
    {
        Round { state: AppState::MainMenu, scoring: Scoring::default(), timer: Timer(ROUND_MS) }
    }

    /// Sets the timer to a full round.
    pub fn restart_timer_system(&mut self)
        ensures
            *final(self) == (Round { timer: Timer(ROUND_MS), ..*old(self) }),
    {
        self.timer = Timer(ROUND_MS);
    }

    /// Sets the score back to zero.
    pub fn restart_scoring_system(&mut self)
        ensures
            *final(self) == (Round { scoring: Scoring { bug_fix: 0 }, ..*old(self) }),
    {
        self.scoring = Scoring { bug_fix: 0 };
    }

    /// Counts the timer down by the real time elapsed.
    pub fn update_timer_system(&mut self, elapsed_ms: u32)
        requires
            old(self).timer.0 >= i64::MIN + elapsed_ms,
        ensures
            *final(self) == (Round { timer: Timer((old(self).timer.0 - elapsed_ms) as i64), ..*old(self) }),
    {
        self.timer.update(elapsed_ms);
    }

    /// From the menu, the start key begins a round.
    pub fn from_menu_to_game_system(&mut self, start: bool) -> (entered: bool)
        requires
            old(self).state == AppState::MainMenu,
        ensures
            entered == start,
            *final(self) == round_step(*old(self), start, false, 0),
    {
        if start {
            self.state = AppState::InGame;
            self.restart_timer_system();
        }
        start
    }

    /// In game, the round ends once the timer is below zero.
    pub fn from_game_to_endgame_system(&mut self) -> (ended: bool)
        requires
            old(self).state == AppState::InGame,
        ensures
            ended == old(self).timer.is_over_spec(),
            *final(self) == (Round {
                state: if ended {
                    AppState::EndGame
                } else {
                    AppState::InGame
                },
                ..*old(self)
            }),
    {
        let ended = self.timer.is_over();
        if ended {
            self.state = AppState::EndGame;
        }
        ended
    }

    /// At the end, the back key returns to the menu for a new round.
    pub fn from_endgame_to_menu_system(&mut self, back: bool) -> (left: bool)
        requires
            old(self).state == AppState::EndGame,
        ensures
            left == back,
            *final(self) == round_step(*old(self), false, back, 0),
    {
        if back {
            self.state = AppState::MainMenu;
            self.restart_scoring_system();
            self.restart_timer_system();
        }
        back
    }

    /// One tick of the session (see `round_step`); returns the phase entered,
    /// if it changed.
    pub fn update(&mut self, start: bool, back: bool, elapsed_ms: u32) -> (entered: Option<AppState>)
        requires
            can_step(*old(self), elapsed_ms),
        ensures
            *final(self) == round_step(*old(self), start, back, elapsed_ms),
            entered == if final(self).state != old(self).state {
                Some(final(self).state)
            } else {
                None
            },
    {
        match self.state {
            AppState::MainMenu => {
                if self.from_menu_to_game_system(start) {
                    Some(AppState::InGame)
                } else {
                    None
                }
            },
            AppState::InGame => {
                self.update_timer_system(elapsed_ms);
                if self.from_game_to_endgame_system() {
                    Some(AppState::EndGame)
                } else {
                    None
                }
            },
            AppState::EndGame => {
                if self.from_endgame_to_menu_system(back) {
                    Some(AppState::MainMenu)
                } else {
                    None
                }
            },
        }
    }
}

/// The real time elapsed over the first `n` ticks.
pub open spec fn elapsed_total(ds: Seq<u32>, n: nat) -> int
    decreases n,
{
    if n == 0 {
        0
    } else {
        elapsed_total(ds, (n - 1) as nat) + ds[n - 1]
    }
}

/// The first `n` ticks of the session with no key pressed, tick `k` lasting `ds[k]`.
pub open spec fn run_idle(r: Round, ds: Seq<u32>, n: nat) -> Round
    decreases n,
{
    if n == 0 {
        r
    } else {
        round_step(run_idle(r, ds, (n - 1) as nat), false, false, ds[n - 1])
    }
}

proof fn lemma_elapsed_monotone(ds: Seq<u32>, i: nat, j: nat)
    requires
        i <= j,
    ensures
        elapsed_total(ds, i) <= elapsed_total(ds, j),
    decreases j - i,
{
    if i < j {
        lemma_elapsed_monotone(ds, i, (j - 1) as nat);
    }
}

/// A round begun with `t` milliseconds on its timer, each tick counting down
/// by the real time it lasted, is in game exactly while the total time
/// elapsed is at most `t` and over once it exceeds `t`; the timer shows `t`
/// less the time elapsed while in game, and every tick on the way can be taken.
pub proof fn lemma_round_ends_after_its_time(r: Round, ds: Seq<u32>, n: nat)
    requires
        r.state == AppState::InGame,
        r.timer.0 >= 0,
        n <= ds.len(),
    ensures
        (run_idle(r, ds, n).state == AppState::InGame) == (elapsed_total(ds, n) <= r.timer.0),
        run_idle(r, ds, n).state == AppState::InGame || run_idle(r, ds, n).state == AppState::EndGame,
        elapsed_total(ds, n) <= r.timer.0 ==> run_idle(r, ds, n).timer.0 == r.timer.0 - elapsed_total(ds, n),
        n < ds.len() ==> can_step(run_idle(r, ds, n), ds[n as int]),
    decreases n,
{
    if n > 0 {
        let k = (n - 1) as nat;
        lemma_round_ends_after_its_time(r, ds, k);
        lemma_elapsed_monotone(ds, k, n);
    }
}

/// The phase of such a round changes on one tick at most, from in game to
/// the end of the round: ticks `i` and `j` that both change it are the same.
pub proof fn lemma_round_ends_once(r: Round, ds: Seq<u32>, i: nat, j: nat)
    requires
        r.state == AppState::InGame,
        r.timer.0 >= 0,
        i < ds.len(),
        j < ds.len(),
        run_idle(r, ds, i).state != run_idle(r, ds, i + 1).state,
        run_idle(r, ds, j).state != run_idle(r, ds, j + 1).state,
    ensures
        i == j,
        run_idle(r, ds, i).state == AppState::InGame,
        run_idle(r, ds, i + 1).state == AppState::EndGame,
{
    lemma_round_ends_after_its_time(r, ds, i);
    lemma_round_ends_after_its_time(r, ds, i + 1);
    lemma_round_ends_after_its_time(r, ds, j);
    lemma_round_ends_after_its_time(r, ds, j + 1);
    if i < j {
        lemma_elapsed_monotone(ds, i + 1, j);
    } else if j < i {
        lemma_elapsed_monotone(ds, j + 1, i);
    }
    lemma_elapsed_monotone(ds, i, i + 1);
}

} // verus!
