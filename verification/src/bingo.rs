use crate::error::BingoError;
use crate::generator::{board_rows, spec_generate};
use crate::template::Template;
use vstd::prelude::*;

verus! {

/// A difficulty-scaling mode. It has no effect other than rescaling the
/// per-cell difficulty tier.
#[derive(Copy, Clone, PartialEq, Eq, Structural)]
pub enum Mode {
    Short,
    Normal,
    Long,
    Special,
}

/// A finished board: a 5x5 grid of goal display names, row major.
#[derive(Debug, PartialEq, Eq)]
pub struct Bingo {
    pub cells: Vec<Vec<String>>,
}

impl View for Bingo {
    type V = Seq<Seq<Seq<char>>>;

    open spec fn view(&self) -> Seq<Seq<Seq<char>>> {
        self.cells.deep_view()
    }
}

impl Bingo {
    /// Generate the board for `seed` under `mode` from `template`:
    /// deterministic, bit for bit, in all three inputs.
    pub fn new(seed: u32, mode: Mode, template: &Template) -> (r: Result<Bingo, BingoError>)
        ensures
            match r {
                Ok(b) => {
                    &&& spec_generate(seed, mode, template@) matches Ok(placed) && b@
                        == board_rows(placed)
                    &&& b.wf()
                },
                Err(e) => spec_generate(seed, mode, template@) == Err::<
                    Seq<crate::template::GoalModel>,
                    BingoError,
                >(e),
            },
    {
        crate::generator::generate(seed, mode, template)
    }

    /// The board shape: five rows of five cells, every cell non-empty.
    pub open spec fn wf(&self) -> bool {
        &&& self.cells@.len() == 5
        &&& forall|r: int| 0 <= r < 5 ==> #[trigger] self.cells@[r]@.len() == 5
        &&& forall|r: int, c: int|
            0 <= r < 5 && 0 <= c < 5 ==> (#[trigger] self.cells@[r]@[c])@.len() > 0
    }
}

} // verus!
