use mep_horror::hud::{endgame_text, get_position_score, score_text, text_menu, timer_text};
use mep_horror::geometry::{Position, SpriteSize};
use mep_horror::motion::WinSize;
use mep_horror::resources::{Scoring, Timer, ROUND_MS};
use mep_horror::round::{AppState, Round};

#[test]
fn round_goes_through_its_phases() {
    let mut r = Round::new();
    assert_eq!(r.state, AppState::MainMenu);
    assert_eq!(r.update(false, true, 16), None);
    assert_eq!(r.update(true, false, 16), Some(AppState::InGame));
    assert_eq!(r.timer, Timer(ROUND_MS));
    r.scoring.bug_fix = 5;
    assert_eq!(r.update(true, true, 16), None);
    assert_eq!(r.timer, Timer(ROUND_MS - 16));
    assert_eq!(r.update(false, false, 40_000), Some(AppState::EndGame));
    assert_eq!(r.scoring.bug_fix, 5);
    assert_eq!(r.update(true, false, 16), None);
    assert_eq!(r.update(false, true, 16), Some(AppState::MainMenu));
    assert_eq!(r.scoring.bug_fix, 0);
    assert_eq!(r.timer, Timer(ROUND_MS));
}

#[test]
fn round_ends_once_after_its_time() {
    let mut r = Round::new();
    r.update(true, false, 0);
    let dt: u32 = 16;
    let ticks = ROUND_MS as u32 / dt;
    let mut changes = 0;
    for _ in 0..ticks {
        if r.update(false, false, dt).is_some() {
            changes += 1;
        }
    }
    assert_eq!(r.state, AppState::InGame);
    assert_eq!(r.timer, Timer(0));
    assert_eq!(r.update(false, false, dt), Some(AppState::EndGame));
    for _ in 0..100 {
        if r.update(false, false, dt).is_some() {
            changes += 1;
        }
    }
    assert_eq!(changes, 0);
    assert_eq!(r.state, AppState::EndGame);
}

#[test]
fn timer_at_zero_is_not_over() {
    assert!(!Timer(0).is_over());
    assert!(Timer(-1).is_over());
    let mut t = Timer(10);
    t.update(11);
    assert_eq!(t, Timer(-1));
    assert_eq!(t.displayed_ms(), 0);
}

#[test]
fn phase_systems() {
    let mut r = Round::new();
    assert!(!r.from_menu_to_game_system(false));
    assert!(r.from_menu_to_game_system(true));
    assert_eq!(r.state, AppState::InGame);
    r.timer = Timer(5);
    assert!(!r.from_game_to_endgame_system());
    r.update_timer_system(6);
    assert!(r.from_game_to_endgame_system());
    assert_eq!(r.state, AppState::EndGame);
    r.scoring = Scoring { bug_fix: 3 };
    assert!(!r.from_endgame_to_menu_system(false));
    assert!(r.from_endgame_to_menu_system(true));
    assert_eq!(r.scoring, Scoring::default());
    r.timer = Timer(1);
    r.restart_timer_system();
    assert_eq!(r.timer, Timer(ROUND_MS));
    r.scoring.bug_fix = 9;
    r.restart_scoring_system();
    assert_eq!(r.scoring.bug_fix, 0);
}

#[test]
fn score_texts() {
    assert_eq!(score_text(0), "bug fix : 0");
    assert_eq!(score_text(7), "bug fix : 7");
    assert_eq!(score_text(1234), "bug fix : 1234");
    assert_eq!(score_text(u32::MAX), "bug fix : 4294967295");
    assert_eq!(endgame_text(0), "Score : 0");
    assert_eq!(endgame_text(42), "Score : 42");
}

#[test]
fn timer_texts() {
    assert_eq!(timer_text(&Timer(30_000)), "MEP in 30 seconds");
    assert_eq!(timer_text(&Timer(29_400)), "MEP in 29 seconds");
    assert_eq!(timer_text(&Timer(29_600)), "MEP in 30 seconds");
    assert_eq!(timer_text(&Timer(2_500)), "MEP in 2 seconds");
    assert_eq!(timer_text(&Timer(1_500)), "MEP in 2 seconds");
    assert_eq!(timer_text(&Timer(500)), "MEP in 0 seconds");
    assert_eq!(timer_text(&Timer(0)), "MEP in 0 seconds");
    assert_eq!(timer_text(&Timer(-2_000)), "MEP in 0 seconds");
    assert_eq!(timer_text(&Timer(30_000)), format!("MEP in {:.0} seconds", 30.0f32));
    assert_eq!(timer_text(&Timer(2_500)), format!("MEP in {:.0} seconds", 2.5f32));
}

#[test]
fn menu_text() {
    assert_eq!(
        text_menu(),
        "Foyer MEP horror\n\n\nfixer le plus de bugs avant la MEP\n\n\nappuyer [espace] pour jouer"
    );
}

#[test]
fn score_position_is_top_left() {
    let p = get_position_score(&WinSize { w: 600, h: 400 });
    assert_eq!(p, Position { x: -300, y: 200 });
}

#[test]
fn defaults_and_conversions() {
    assert_eq!(Scoring::default().bug_fix, 0);
    assert_eq!(SpriteSize::from((3, 4)), SpriteSize { w: 3, h: 4 });
}

#[test]
fn round_ends_once_with_uneven_ticks() {
    let mut r = Round::new();
    r.update(true, false, 0);
    let deltas: [u32; 8] = [7_000, 9_500, 0, 13_500, 1, 16, 5_000, 33];
    let mut total: i64 = 0;
    let mut changes = Vec::new();
    for (k, &d) in deltas.iter().enumerate() {
        total += d as i64;
        if let Some(s) = r.update(false, false, d) {
            changes.push((k, s));
        }
        let expected = if total <= ROUND_MS { AppState::InGame } else { AppState::EndGame };
        assert_eq!(r.state, expected);
    }
    // 7000 + 9500 + 0 + 13500 = 30000 is still in game; one more millisecond ends it
    assert_eq!(changes, vec![(4, AppState::EndGame)]);
    assert_eq!(r.timer, Timer(-1));
}
