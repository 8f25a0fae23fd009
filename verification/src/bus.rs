//! The lines of the bus, the steps a driver takes on them, and the levels
//! those steps leave behind.
//!
//! The driver never touches a pin itself. It says what has to happen on the
//! bus as a sequence of [`Step`]s; whoever owns the pins carries them out.
//! The functions here give such a sequence its meaning: which lines it
//! drives, which it samples, and what level every line has afterwards.

use vstd::prelude::*;

verus! {

/// One of the four bidirectional data lines.
#[derive(Clone, Copy, PartialEq, Eq, Structural, Debug)]
pub enum DataLine {
    D0,
    D1,
    D2,
    D3,
}

/// One of the twelve lines between the driver and the chip.
#[derive(Clone, Copy, PartialEq, Eq, Structural, Debug)]
pub enum Line {
    /// Chip select 0, active low.
    Cs0,
    /// Chip select 1, active high.
    Cs1,
    /// Read strobe, active low.
    Rd,
    /// Write strobe; the chip latches data on its rising edge.
    Wr,
    /// Address line wired to the most significant address bit.
    A0,
    A1,
    A2,
    /// Address line wired to the least significant address bit.
    A3,
    /// A data line.
    Data(DataLine),
}

/// One thing to do on the bus.
#[derive(Clone, Copy, PartialEq, Eq, Structural, Debug)]
pub enum Step {
    /// Drive the line high (`true`) or low (`false`).
    Drive(Line, bool),
    /// Read the level of the data line and report it to the driver.
    Sample(DataLine),
    /// Let at least this many microseconds pass.
    Wait(u32),
}

/// The level of each line that has a known level: `true` is high.
pub type Levels = Map<Line, bool>;

impl DataLine {
    /// Position of the line within a nibble: `D0` is 0, `D3` is 3.
    pub open spec fn index(self) -> int {
        match self {
            DataLine::D0 => 0,
            DataLine::D1 => 1,
            DataLine::D2 => 2,
            DataLine::D3 => 3,
        }
    }

    /// The data line at position `i` of a nibble, for `i` from 0 to 3.
    pub open spec fn at(i: int) -> DataLine {
        if i == 0 {
            DataLine::D0
        } else if i == 1 {
            DataLine::D1
        } else if i == 2 {
            DataLine::D2
        } else {
            DataLine::D3
        }
    }

    /// Position of the line within a nibble.
    pub fn slot(self) -> (i: usize)
        ensures
            i == self.index(),
            i < 4,
    {
        match self {
            DataLine::D0 => 0,
            DataLine::D1 => 1,
            DataLine::D2 => 2,
            DataLine::D3 => 3,
        }
    }
}

/// The steps drive `line`, to whatever level.
pub open spec fn drives(steps: Seq<Step>, line: Line) -> bool {
    steps.contains(Step::Drive(line, false)) || steps.contains(Step::Drive(line, true))
}

/// The steps sample `line`.
pub open spec fn samples(steps: Seq<Step>, line: DataLine) -> bool {
    steps.contains(Step::Sample(line))
}

/// The levels once `step` is done.
pub open spec fn effect(levels: Levels, step: Step) -> Levels {
    match step {
        Step::Drive(line, high) => levels.insert(line, high),
        _ => levels,
    }
}

/// The levels once all of `steps` are done, in order.
pub open spec fn after(levels: Levels, steps: Seq<Step>) -> Levels
    decreases steps.len(),
{
    if steps.len() == 0 {
        levels
    } else {
        effect(after(levels, steps.drop_last()), steps.last())
    }
}

/// One more step at the end has its effect on what the others left.
pub proof fn lemma_after_push(levels: Levels, steps: Seq<Step>, step: Step)
    ensures
        after(levels, steps.push(step)) == effect(after(levels, steps), step),
{
    assert(steps.push(step).drop_last() =~= steps);
}

/// Steps done one sequence after the other leave what the second leaves
/// of what the first left.
pub proof fn lemma_after_concat(levels: Levels, a: Seq<Step>, b: Seq<Step>)
    ensures
        after(levels, a + b) == after(after(levels, a), b),
    decreases b.len(),
{
    if b.len() == 0 {
        assert(a + b =~= a);
    } else {
        lemma_after_concat(levels, a, b.drop_last());
        assert((a + b).drop_last() =~= a + b.drop_last());
    }
}

/// A sequence drives a line exactly if one of its two parts does.
pub proof fn lemma_drives_concat(a: Seq<Step>, b: Seq<Step>, line: Line)
    ensures
        drives(a + b, line) <==> drives(a, line) || drives(b, line),
{
    lemma_contains_concat(a, b, Step::Drive(line, false));
    lemma_contains_concat(a, b, Step::Drive(line, true));
}

/// A sequence samples a line exactly if one of its two parts does.
pub proof fn lemma_samples_concat(a: Seq<Step>, b: Seq<Step>, line: DataLine)
    ensures
        samples(a + b, line) <==> samples(a, line) || samples(b, line),
{
    lemma_contains_concat(a, b, Step::Sample(line));
}

/// A step occurs in a sequence exactly if it occurs in one of its two parts.
pub proof fn lemma_contains_concat(a: Seq<Step>, b: Seq<Step>, step: Step)
    ensures
        (a + b).contains(step) <==> a.contains(step) || b.contains(step),
{
    if a.contains(step) {
        let i = choose|i: int| 0 <= i < a.len() && a[i] == step;
        assert((a + b)[i] == step);
    }
    if b.contains(step) {
        let i = choose|i: int| 0 <= i < b.len() && b[i] == step;
        assert((a + b)[a.len() + i] == step);
    }
    if (a + b).contains(step) {
        let i = choose|i: int| 0 <= i < (a + b).len() && (a + b)[i] == step;
        if i < a.len() {
            assert(a[i] == step);
        } else {
            assert(b[i - a.len()] == step);
        }
    }
}

/// A line that no step drives keeps its level, known or not.
pub proof fn lemma_after_undriven(levels: Levels, steps: Seq<Step>, line: Line)
    requires
        !drives(steps, line),
    ensures
        after(levels, steps).contains_key(line) == levels.contains_key(line),
        after(levels, steps)[line] == levels[line],
    decreases steps.len(),
{
    if steps.len() > 0 {
        let front = steps.drop_last();
        assert forall|high: bool| !front.contains(Step::Drive(line, high)) by {
            if front.contains(Step::Drive(line, high)) {
                let i = choose|i: int| 0 <= i < front.len() && front[i] == Step::Drive(line, high);
                assert(steps[i] == Step::Drive(line, high));
            }
        }
        lemma_after_undriven(levels, front, line);
        assert(steps[steps.len() - 1] == steps.last());
    }
}

} // verus!
