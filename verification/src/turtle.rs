//! Reading an L-system string as turtle commands. Each recognised symbol
//! becomes one turtle operation; a `]` that has no open `[` before it is
//! dropped, so every restore has a saved state to return to. Moving and
//! turning the turtle (floating point) is left to the caller.

use vstd::prelude::*;

verus! {

/// The local axis a turn is about: yaw about up (`+`/`-`), pitch about left
/// (`&`/`^`), roll about forward (`\`/`/`).
#[derive(Clone, Copy, Debug, PartialEq, Eq)]
pub enum TurnAxis {
    Yaw,
    Pitch,
    Roll,
}

/// One turtle operation.
#[derive(Clone, Copy, Debug, PartialEq, Eq)]
pub enum TurtleOp {
    /// Move forward one step, drawing a segment (`F`).
    Draw,
    /// Move forward one step without drawing (`f`).
    Move,
    /// Turn by the configured angle about `axis`, in the positive direction
    /// (`+`, `&`, `\`) or the negative one (`-`, `^`, `/`).
    Turn { axis: TurnAxis, positive: bool },
    /// Turn half a circle about up (`|`).
    TurnAround,
    /// Save the turtle's state (`[`).
    Push,
    /// Return to the most recently saved state (`]`).
    Pop,
}

/// The operation a symbol stands for, if any.
pub open spec fn op_of(c: char) -> Option<TurtleOp> {
    if c == 'F' {
        Some(TurtleOp::Draw)
    } else if c == 'f' {
        Some(TurtleOp::Move)
    } else if c == '+' {
        Some(TurtleOp::Turn { axis: TurnAxis::Yaw, positive: true })
    } else if c == '-' {
        Some(TurtleOp::Turn { axis: TurnAxis::Yaw, positive: false })
    } else if c == '&' {
        Some(TurtleOp::Turn { axis: TurnAxis::Pitch, positive: true })
    } else if c == '^' {
        Some(TurtleOp::Turn { axis: TurnAxis::Pitch, positive: false })
    } else if c == '\\' {
        Some(TurtleOp::Turn { axis: TurnAxis::Roll, positive: true })
    } else if c == '/' {
        Some(TurtleOp::Turn { axis: TurnAxis::Roll, positive: false })
    } else if c == '|' {
        Some(TurtleOp::TurnAround)
    } else if c == '[' {
        Some(TurtleOp::Push)
    } else if c == ']' {
        Some(TurtleOp::Pop)
    } else {
        None
    }
}

/// The number of saved states after the first `k` symbols.
pub open spec fn saved_after(cmds: Seq<char>, k: nat) -> nat
    decreases k,
{
    if k == 0 {
        0
    } else {
        let d = saved_after(cmds, (k - 1) as nat);
        let c = cmds[k - 1];
        if c == '[' {
            d + 1
        } else if c == ']' && d > 0 {
            (d - 1) as nat
        } else {
            d
        }
    }
}

/// The operations of symbol `c` read with `saved` states on the stack.
pub open spec fn ops_of_symbol(c: char, saved: nat) -> Seq<TurtleOp> {
    if c == ']' && saved == 0 {
        Seq::empty()
    } else {
        match op_of(c) {
            Some(op) => seq![op],
            None => Seq::empty(),
        }
    }
}

/// The operations of the first `k` symbols.
pub open spec fn program(cmds: Seq<char>, k: nat) -> Seq<TurtleOp>
    decreases k,
{
    if k == 0 {
        Seq::empty()
    } else {
        program(cmds, (k - 1) as nat) + ops_of_symbol(cmds[k - 1], saved_after(cmds, (k - 1) as nat))
    }
}

/// Saves minus restores among the first `k` operations.
pub open spec fn open_saves(ops: Seq<TurtleOp>, k: nat) -> int
    decreases k,
{
    if k == 0 {
        0
    } else {
        open_saves(ops, (k - 1) as nat) + if ops[k - 1] == TurtleOp::Push {
            1int
        } else if ops[k - 1] == TurtleOp::Pop {
            -1int
        } else {
            0int
        }
    }
}

fn op_for(c: char) -> (r: Option<TurtleOp>)
    ensures
        r == op_of(c),
{
    if c == 'F' {
        Some(TurtleOp::Draw)
    } else if c == 'f' {
        Some(TurtleOp::Move)
    } else if c == '+' {
        Some(TurtleOp::Turn { axis: TurnAxis::Yaw, positive: true })
    } else if c == '-' {
        Some(TurtleOp::Turn { axis: TurnAxis::Yaw, positive: false })
    } else if c == '&' {
        Some(TurtleOp::Turn { axis: TurnAxis::Pitch, positive: true })
    } else if c == '^' {
        Some(TurtleOp::Turn { axis: TurnAxis::Pitch, positive: false })
    } else if c == '\\' {
        Some(TurtleOp::Turn { axis: TurnAxis::Roll, positive: true })
    } else if c == '/' {
        Some(TurtleOp::Turn { axis: TurnAxis::Roll, positive: false })
    } else if c == '|' {
        Some(TurtleOp::TurnAround)
    } else if c == '[' {
        Some(TurtleOp::Push)
    } else if c == ']' {
        Some(TurtleOp::Pop)
    } else {
        None
    }
}

/// The turtle operations of `commands`, symbol by symbol: unrecognised
/// symbols (the L-system's variables) and unmatched `]` are skipped.
pub fn turtle_program(commands: &Vec<char>) -> (r: Vec<TurtleOp>)
    ensures
        r@ == program(commands@, commands@.len()),
{
    let mut r: Vec<TurtleOp> = Vec::new();
    let mut saved: usize = 0;
    let mut i: usize = 0;
    while i < commands.len()
        invariant
            0 <= i <= commands@.len(),
            saved <= i,
            saved == saved_after(commands@, i as nat),
            r@ == program(commands@, i as nat),
        decreases commands.len() - i,
    {
        let c = commands[i];
        let ghost before = r@;
        if c == ']' && saved == 0 {
        } else {
            match op_for(c) {
                Some(op) => r.push(op),
                None => {},
            }
        }
        if c == '[' {
            saved = saved + 1;
        } else if c == ']' && saved > 0 {
            saved = saved - 1;
        }
        assert(r@ =~= before + ops_of_symbol(c, saved_after(commands@, i as nat)));
        i = i + 1;
    }
    r
}

/// A restore always has a saved state to return to: at every point of the
/// program there have been at least as many saves as restores, and after
/// the first `k` symbols the surplus is the number of states then saved.
pub proof fn lemma_program_balanced(cmds: Seq<char>, k: nat)
    requires
        k <= cmds.len(),
    ensures
        open_saves(program(cmds, k), program(cmds, k).len()) == saved_after(cmds, k),
        forall|j: nat| j <= program(cmds, k).len() ==> #[trigger] open_saves(program(cmds, k), j) >= 0,
    decreases k,
{
    if k > 0 {
        let prev = program(cmds, (k - 1) as nat);
        let cur = program(cmds, k);
        let d = saved_after(cmds, (k - 1) as nat);
        lemma_program_balanced(cmds, (k - 1) as nat);
        assert(cur =~= prev + ops_of_symbol(cmds[k - 1], d));
        lemma_open_saves_prefix(prev, cur, prev.len());
        assert forall|j: nat| j <= cur.len() implies #[trigger] open_saves(cur, j) >= 0 by {
            if j <= prev.len() {
                lemma_open_saves_prefix(prev, cur, j);
            } else {
                assert(j == prev.len() + 1);
            }
        }
    }
}

/// `open_saves` of a prefix depends only on that prefix.
proof fn lemma_open_saves_prefix(a: Seq<TurtleOp>, b: Seq<TurtleOp>, j: nat)
    requires
        j <= a.len(),
        j <= b.len(),
        forall|i: int| 0 <= i < j ==> a[i] == b[i],
    ensures
        open_saves(a, j) == open_saves(b, j),
    decreases j,
{
    if j > 0 {
        lemma_open_saves_prefix(a, b, (j - 1) as nat);
    }
}

} // verus!
