//! What is written to a terminal, step by step.
use vstd::prelude::*;
use vstd::string::*;
use crate::screen::{controlled, printed, unmarked, ScreenText};
use crate::sgr::{as_params, move_text, sgr_args, sgr_text, Attr};

verus! {

/// One step of what is written to a terminal.
pub enum Step {
    /// The cursor goes to a row and a column.
    Move(int, int),
    /// What comes next looks so.
    Look(Attr),
    /// A character is written.
    Put(char),
    /// The cursor shows, or does not.
    Show(bool),
}

/// What writes a step.
pub open spec fn step_text(step: Step) -> Seq<char> {
    match step {
        Step::Move(row, col) => move_text(row, col),
        Step::Look(a) => sgr_text(a),
        Step::Put(c) => seq![c],
        Step::Show(on) => if on {
            "\x1b[?25h"@
        } else {
            "\x1b[?25l"@
        },
    }
}

/// What writes steps.
pub open spec fn steps_text(steps: Seq<Step>) -> Seq<char>
    decreases steps.len(),
{
    if steps.len() == 0 {
        seq![]
    } else {
        step_text(steps[0]) + steps_text(steps.skip(1))
    }
}

/// A terminal after a step.
pub open spec fn after_step(t: ScreenText, step: Step) -> ScreenText {
    match step {
        Step::Move(row, col) => unmarked(
            t,
            as_params(seq![(row + 1) as nat, (col + 1) as nat]),
            'H',
        ),
        Step::Look(a) => unmarked(t, as_params(sgr_args(a)), 'm'),
        Step::Put(c) => printed(t, c),
        Step::Show(on) => controlled(
            t,
            as_params(seq![25nat]),
            seq![0x3fu8],
            if on {
                'h'
            } else {
                'l'
            },
        ),
    }
}

/// A terminal after steps.
pub open spec fn after_steps(t: ScreenText, steps: Seq<Step>) -> ScreenText
    decreases steps.len(),
{
    if steps.len() == 0 {
        t
    } else {
        after_steps(after_step(t, steps[0]), steps.skip(1))
    }
}

pub proof fn lemma_text_joins(a: Seq<Step>, b: Seq<Step>)
    ensures
        steps_text(a + b) == steps_text(a) + steps_text(b),
    decreases a.len(),
{
    if a.len() == 0 {
        assert(a + b =~= b);
        assert(steps_text(a) + steps_text(b) =~= steps_text(b));
    } else {
        assert((a + b).skip(1) =~= a.skip(1) + b);
        assert((a + b)[0] == a[0]);
        lemma_text_joins(a.skip(1), b);
        assert(steps_text(a + b) =~= steps_text(a) + steps_text(b));
    }
}

pub proof fn lemma_steps_join(t: ScreenText, a: Seq<Step>, b: Seq<Step>)
    ensures
        after_steps(t, a + b) == after_steps(after_steps(t, a), b),
    decreases a.len(),
{
    if a.len() == 0 {
        assert(a + b =~= b);
    } else {
        assert((a + b).skip(1) =~= a.skip(1) + b);
        assert((a + b)[0] == a[0]);
        lemma_steps_join(after_step(t, a[0]), a.skip(1), b);
    }
}

pub proof fn lemma_one_step_text(step: Step)
    ensures
        steps_text(seq![step]) == step_text(step),
{
    let one = seq![step];
    assert(one.skip(1) =~= seq![]);
    assert(steps_text(one.skip(1)) =~= seq![]);
    assert(steps_text(one) =~= step_text(step));
}

pub proof fn lemma_one_step(t: ScreenText, step: Step)
    ensures
        after_steps(t, seq![step]) == after_step(t, step),
{
    let one = seq![step];
    assert(one.skip(1) =~= seq![]);
    assert(after_steps(after_step(t, step), one.skip(1)) == after_step(t, step));
}

pub proof fn lemma_three_steps_text(a: Step, b: Step, c: Step)
    ensures
        steps_text(seq![a, b, c]) == step_text(a) + step_text(b) + step_text(c),
{
    let two = seq![a] + seq![b];
    assert(seq![a, b, c] =~= two + seq![c]);
    lemma_text_joins(two, seq![c]);
    lemma_text_joins(seq![a], seq![b]);
    lemma_one_step_text(a);
    lemma_one_step_text(b);
    lemma_one_step_text(c);
}

/// No step is written as nothing.
pub proof fn lemma_steps_show(steps: Seq<Step>)
    ensures
        steps.len() > 0 <==> steps_text(steps).len() > 0,
{
    if steps.len() > 0 {
        reveal_strlit("\x1b[");
        reveal_strlit("\x1b[0");
        reveal_strlit("\x1b[?25h");
        reveal_strlit("\x1b[?25l");
        assert(step_text(steps[0]).len() > 0);
    }
}

} // verus!
