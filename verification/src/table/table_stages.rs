use vstd::prelude::*;

verus! {

/// The stages of a hand at the table, in the order they come.
#[derive(Debug, Copy, Clone, PartialEq, Eq, Structural, PartialOrd, Ord)]
pub enum TableStage {
    PreFlop,
    Flop,
    Turn,
    River,
    Showdown,
}

impl TableStage {
    /// The position of the stage: 0 for the pre-flop up to 4 for the showdown.
    pub open spec fn index(self) -> nat {
        match self {
            TableStage::PreFlop => 0,
            TableStage::Flop => 1,
            TableStage::Turn => 2,
            TableStage::River => 3,
            TableStage::Showdown => 4,
        }
    }

    /// The stage that follows; the showdown is followed by itself.
    pub open spec fn next_stage(self) -> TableStage {
        match self {
            TableStage::PreFlop => TableStage::Flop,
            TableStage::Flop => TableStage::Turn,
            TableStage::Turn => TableStage::River,
            TableStage::River => TableStage::Showdown,
            TableStage::Showdown => TableStage::Showdown,
        }
    }

    pub fn get_next(self) -> (next: TableStage)
        ensures
            next == self.next_stage(),
    {
        match self {
            TableStage::PreFlop => TableStage::Flop,
            TableStage::Flop => TableStage::Turn,
            TableStage::Turn => TableStage::River,
            TableStage::River => TableStage::Showdown,
            TableStage::Showdown => TableStage::Showdown,
        }
    }
}

/// Each stage leads to the one after it, and the showdown to itself: four
/// steps from any stage reach the showdown.
pub proof fn lemma_stages_advance(s: TableStage)
    ensures
        s.next_stage().index() == if s.index() < 4 {
            s.index() + 1
        } else {
            4
        },
        s.next_stage().next_stage().next_stage().next_stage() == TableStage::Showdown,
{
}

} // verus!
