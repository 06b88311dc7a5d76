//! Render-neutral review signals used before hunk melding and row presentation.

use vstd::prelude::*;

verus! {

/// Why one changed source region deserves review attention.
///
/// The variants also define buoyancy: payload edits rise above moves, source
/// wiring, and finally layout-only reflow.
#[derive(Clone, Copy, Debug, PartialEq, Eq, Structural)]
pub enum Signal {
    /// Source payload was edited in place.
    Edit,
    /// Existing source payload changed order.
    Move,
    /// Low-signal source wiring such as imports and bodyless module declarations.
    Wiring,
    /// Existing payload kept its meaning but changed physical layout.
    Reflow,
}

impl Signal {
    /// Height of the signal: edits above moves, wiring, and reflow.
    pub open spec fn height(self) -> u8 {
        match self {
            Signal::Edit => 3,
            Signal::Move => 2,
            Signal::Wiring => 1,
            Signal::Reflow => 0,
        }
    }

    pub fn buoyancy(self) -> (buoyancy: Buoyancy)
        ensures
            buoyancy.height == self.height(),
    {
        let height: u8 = match self {
            Signal::Edit => 3,
            Signal::Move => 2,
            Signal::Wiring => 1,
            Signal::Reflow => 0,
        };
        Buoyancy { height }
    }

    /// Every signal except a move grows a context halo.
    pub fn receives_context(self) -> (result: bool)
        ensures
            result == (self != Signal::Move),
    {
        !matches!(self, Signal::Move)
    }
}

/// Edits rise above moves, moves above wiring, and wiring above reflow.
pub proof fn law_signals_are_strictly_ordered()
    ensures
        Signal::Edit.height() > Signal::Move.height(),
        Signal::Move.height() > Signal::Wiring.height(),
        Signal::Wiring.height() > Signal::Reflow.height(),
{
}

/// How strongly a source signal rises toward the front of a review.
#[derive(Clone, Copy, Debug, PartialEq, Eq, PartialOrd, Ord, Structural)]
pub struct Buoyancy {
    pub height: u8,
}

impl Buoyancy {
    /// The stronger of two.
    pub fn stronger(self, other: Buoyancy) -> (buoyancy: Buoyancy)
        ensures
            buoyancy.height == if self.height >= other.height {
                self.height
            } else {
                other.height
            },
    {
        if self.height >= other.height {
            self
        } else {
            other
        }
    }
}

/// Zero-based current-world gap containing an event.
///
/// The value is the number of current lines preceding the event, so zero is before
/// the first line and the current line count is the gap at EOF.
#[derive(Clone, Copy, Debug, PartialEq, Eq, PartialOrd, Ord, Structural)]
pub struct AfterGap {
    pub lines: usize,
}

impl AfterGap {
    /// The gap before the first line.
    pub fn before_first() -> (gap: AfterGap)
        ensures
            gap.lines == 0,
    {
        AfterGap { lines: 0 }
    }

    /// Gap after `preceding_lines` current-world lines.
    pub fn new(preceding_lines: usize) -> (gap: AfterGap)
        ensures
            gap.lines == preceding_lines,
    {
        AfterGap { lines: preceding_lines }
    }

    /// Number of current-world lines preceding this gap.
    pub fn preceding_lines(self) -> (lines: usize)
        ensures
            lines == self.lines,
    {
        self.lines
    }
}

} // verus!
