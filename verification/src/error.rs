//! The failures that the engine reports.

use vstd::prelude::*;

verus! {

/// Why an operation was refused. Positions are ticks; `with` is the start
/// position of the existing instruction that stands in the way.
#[derive(Clone, Copy, Debug, PartialEq, Eq, Structural)]
pub enum Error {
    /// A device or channel of that name is already registered.
    DuplicateName,
    /// No device or channel of that name is registered.
    UnknownName,
    /// The pulse is shorter than one tick.
    ShortPulse,
    /// The new instruction starts two or more ticks before an earlier one ends.
    CollisionLeft { with: u64 },
    /// The new instruction ends two or more ticks behind the start of a later one.
    CollisionRight { with: u64 },
    /// A one-tick overlap that cannot be trimmed away: the pulse is one tick long.
    Unrepairable1Tick { with: u64 },
    /// A go-this instruction placed right on the start of an existing one.
    GoThisBeforeInstr { with: u64 },
    /// The operation needs at least one instruction.
    NoInstructions,
    /// The requested position lies before the end of the last instruction.
    StopBeforeLast { last_end: u64 },
    /// The sample window is empty, reversed, or reaches past the compiled stop.
    WindowOutOfRange,
    /// The sample buffer holds fewer samples than the window needs.
    BufferTooSmall,
    /// The edit cache changed after the last compilation.
    StaleCompile,
    /// Active channels of one device stop at different positions.
    Inconsistent,
    /// One position is needed for each registered device.
    WrongCount,
}

} // verus!
