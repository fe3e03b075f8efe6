use vstd::prelude::*;
use vstd::string::{StrSliceExecFns, StringExecFns};

use crate::geometry::Position;
use crate::motion::WinSize;
use crate::resources::Timer;

verus! {

/// The character of a decimal digit.
pub open spec fn digit(d: int) -> char {
    seq!['0', '1', '2', '3', '4', '5', '6', '7', '8', '9'][d]
}

/// The decimal notation of `n`, without leading zeros.
pub open spec fn decimal(n: nat) -> Seq<char>
    decreases n,
{
    if n < 10 {
        seq![digit(n as int)]
    } else {
        decimal(n / 10).push(digit((n % 10) as int))
    }
}

/// Appends the decimal notation of `n`.
pub fn push_decimal(s: &mut String, n: u64)
    ensures
        final(s)@ == old(s)@ + decimal(n as nat),
    decreases n,
{
    if n >= 10 {
        push_decimal(s, n / 10);
    }
    let d = (n % 10) as usize;
    proof {
        reveal_strlit("0123456789");
    }
    let c = "0123456789".substring_char(d, d + 1);
    proof {
        assert(c@ =~= seq![digit(d as int)]);
    }
    s.append(c);
    assert(s@ =~= old(s)@ + decimal(n as nat));
}

/// Whole seconds shown for a time in milliseconds: rounded to the nearest
/// second, halves to the even one.
pub open spec fn rounded_seconds(ms: nat) -> nat {
    let q = ms / 1000;
    let r = ms % 1000;
    if r > 500 || (r == 500 && q % 2 == 1) {
        q + 1
    } else {
        q
    }
}

/// The score display: `bug fix : {count}`.
pub fn score_text(count: u32) -> (r: String)
    ensures
        r@ == "bug fix : "@ + decimal(count as nat),
{
    let mut s = String::from_str("bug fix : ");
    push_decimal(&mut s, count as u64);
    s
}

/// The end-of-round display: `Score : {count}`.
pub fn endgame_text(count: u32) -> (r: String)
    ensures
        r@ == "Score : "@ + decimal(count as nat),
{
    let mut s = String::from_str("Score : ");
    push_decimal(&mut s, count as u64);
    s
}

/// The countdown display: `MEP in {seconds} seconds`, never below zero.
pub fn timer_text(timer: &Timer) -> (r: String)
    ensures
        r@ == "MEP in "@ + decimal(
            rounded_seconds(
                if timer.0 < 0 {
                    0
                } else {
                    timer.0 as nat
                },
            ),
        ) + " seconds"@,
{
    let ms = timer.displayed_ms() as u64;
    let q = ms / 1000;
    let rem = ms % 1000;
    let secs = if rem > 500 || (rem == 500 && q % 2 == 1) {
        q + 1
    } else {
        q
    };
    let mut s = String::from_str("MEP in ");
    push_decimal(&mut s, secs);
    s.append(" seconds");
    s
}

/// Where the score display stands: the top-left corner of the window.
pub fn get_position_score(win: &WinSize) -> (r: Position)
    requires
        win.wf(),
    ensures
        r == (Position { x: -(win.w / 2) as i64, y: (win.h / 2) as i64 }),
{
    Position { x: -(win.w / 2), y: win.h / 2 }
}

/// The lines of the menu's text, three blank lines apart.
pub fn text_menu() -> (r: String)
    ensures
        r@ == "Foyer MEP horror"@ + "\n\n\n"@ + "fixer le plus de bugs avant la MEP"@ + "\n\n\n"@
            + "appuyer [espace] pour jouer"@,
{
    let mut s = String::from_str("Foyer MEP horror");
    s.append("\n\n\n");
    s.append("fixer le plus de bugs avant la MEP");
    s.append("\n\n\n");
    s.append("appuyer [espace] pour jouer");
    s
}

} // verus!
