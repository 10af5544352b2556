//! The decisions of the engine that drives a solver on behalf of a user
//! interface.
use vstd::prelude::*;
use crate::parser::PuzzleListing;
use crate::solver::StepResult;
use vstd::string::*;

verus! {

/// What the user interface asks of the engine.
pub enum Command {
    /// Step until the puzzle is finished or solving stops.
    Run,
    /// Load this puzzle and make a solver for it.
    Load(PuzzleListing),
    /// Make one step.
    Step,
    /// Stop stepping.
    Stop,
}

impl Command {
    /// Whether the command asks for stepping.
    pub fn steps(&self) -> (r: bool)
        ensures
            r == (self is Run || self is Step),
    {
        match self {
            Command::Run | Command::Step => true,
            _ => false,
        }
    }
}

/// Whether the engine goes on stepping by itself after handling `command`;
/// `outcome` is what the step made for it gave, if it made one.
pub fn keeps_running(command: &Command, outcome: Option<&StepResult>) -> (r: bool)
    ensures
        r == (command is Run && match outcome {
            Some(s) => !(s is Finished || s is UnexpectedStop),
            None => true,
        }),
{
    match command {
        Command::Run => match outcome {
            Some(StepResult::Finished) | Some(StepResult::UnexpectedStop(_)) => false,
            _ => true,
        },
        _ => false,
    }
}

/// The character of the decimal digit `d`.
pub open spec fn digit_char(d: nat) -> char {
    if d == 0 {
        '0'
    } else if d == 1 {
        '1'
    } else if d == 2 {
        '2'
    } else if d == 3 {
        '3'
    } else if d == 4 {
        '4'
    } else if d == 5 {
        '5'
    } else if d == 6 {
        '6'
    } else if d == 7 {
        '7'
    } else if d == 8 {
        '8'
    } else {
        '9'
    }
}

/// `n` written in decimal, without leading zeros.
pub open spec fn decimal(n: nat) -> Seq<char>
    decreases n,
{
    if n < 10 {
        seq![digit_char(n)]
    } else {
        decimal(n / 10).push(digit_char(n % 10))
    }
}

/// How a number of squares is told to the user.
pub open spec fn count_text(n: nat) -> Seq<char> {
    if n == 1 {
        "1 square"@
    } else {
        decimal(n) + " squares"@
    }
}

fn digit_string(d: usize) -> (r: String)
    requires
        d < 10,
    ensures
        r@ == seq![digit_char(d as nat)],
{
    proof {
        reveal_strlit("0");
        reveal_strlit("1");
        reveal_strlit("2");
        reveal_strlit("3");
        reveal_strlit("4");
        reveal_strlit("5");
        reveal_strlit("6");
        reveal_strlit("7");
        reveal_strlit("8");
        reveal_strlit("9");
    }
    let r = if d == 0 {
        String::from_str("0")
    } else if d == 1 {
        String::from_str("1")
    } else if d == 2 {
        String::from_str("2")
    } else if d == 3 {
        String::from_str("3")
    } else if d == 4 {
        String::from_str("4")
    } else if d == 5 {
        String::from_str("5")
    } else if d == 6 {
        String::from_str("6")
    } else if d == 7 {
        String::from_str("7")
    } else if d == 8 {
        String::from_str("8")
    } else {
        String::from_str("9")
    };
    assert(r@ =~= seq![digit_char(d as nat)]);
    r
}

/// `n` written in decimal.
pub fn decimal_string(n: usize) -> (r: String)
    ensures
        r@ == decimal(n as nat),
    decreases n,
{
    if n < 10 {
        digit_string(n)
    } else {
        let mut r = decimal_string(n / 10);
        let last = digit_string(n % 10);
        r.append(last.as_str());
        assert(r@ =~= decimal((n / 10) as nat).push(digit_char((n % 10) as nat)));
        r
    }
}

/// "1 square", or the number followed by "squares".
pub fn format_text(count: usize) -> (r: String)
    ensures
        r@ == count_text(count as nat),
{
    if count != 1 {
        let mut r = decimal_string(count);
        r.append(" squares");
        r
    } else {
        String::from_str("1 square")
    }
}

} // verus!
