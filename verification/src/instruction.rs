//! Instruction intervals: the elements of a channel's edit cache.
//!
//! Positions are ticks of the sample clock. The start of an interval is
//! inclusive and its end is exclusive, so the shortest interval is one tick long.

use vstd::prelude::*;

verus! {

/// One timed instruction: a waveform generator `func` that starts at tick
/// `start_pos` and either ends at an explicit tick or runs until the next edge.
///
/// `end_spec` is `Some((end_pos, keep_val))` for an instruction with an explicit
/// exclusive end; if a gap follows, it is padded with the last value of the
/// instruction where `keep_val` is set and with the channel default otherwise.
/// `None` marks a "go-this" instruction, which spans until the next instruction
/// starts or the channel stops.
pub struct Instr<F> {
    pub start_pos: u64,
    pub end_spec: Option<(u64, bool)>,
    pub func: F,
}

impl<F> Instr<F> {
    /// The interval holds at least one tick, and the tick behind a go-this
    /// instruction is representable.
    pub open spec fn wf(&self) -> bool {
        match self.end_spec {
            Some((end_pos, _)) => self.start_pos + 1 <= end_pos,
            None => self.start_pos < u64::MAX,
        }
    }

    /// The explicit end, if there is one.
    pub open spec fn end(&self) -> Option<u64> {
        match self.end_spec {
            Some((end_pos, _)) => Some(end_pos),
            None => None,
        }
    }

    /// The effective end: the explicit end, or one tick behind the start of a
    /// go-this instruction. No later instruction may start before it.
    pub open spec fn eff_end(&self) -> int {
        match self.end_spec {
            Some((end_pos, _)) => end_pos as int,
            None => self.start_pos + 1,
        }
    }

    /// Builds an instruction. An explicit end must lie behind the start.
    pub fn new(start_pos: u64, end_spec: Option<(u64, bool)>, func: F) -> (instr: Self)
        requires
            match end_spec {
                Some((end_pos, _)) => start_pos + 1 <= end_pos,
                None => start_pos < u64::MAX,
            },
        ensures
            instr.start_pos == start_pos,
            instr.end_spec == end_spec,
            instr.func == func,
            instr.wf(),
    {
        Instr { start_pos, end_spec, func }
    }

    pub fn start_pos(&self) -> (pos: u64)
        ensures
            pos == self.start_pos,
    {
        self.start_pos
    }

    pub fn end_spec(&self) -> (spec: Option<(u64, bool)>)
        ensures
            spec == self.end_spec,
    {
        self.end_spec
    }

    pub fn func(&self) -> (func: &F)
        ensures
            *func == self.func,
    {
        &self.func
    }

    /// The explicit end position, or `None` for a go-this instruction.
    pub fn end_pos(&self) -> (pos: Option<u64>)
        ensures
            pos == self.end(),
    {
        match self.end_spec {
            Some((end_pos, _keep_val)) => Some(end_pos),
            None => None,
        }
    }

    /// The effective end position.
    pub fn eff_end_pos(&self) -> (pos: u64)
        requires
            self.wf(),
        ensures
            pos == self.eff_end(),
    {
        match self.end_spec {
            Some((end_pos, _keep_val)) => end_pos,
            None => self.start_pos + 1,
        }
    }

    /// The length in ticks, or `None` for a go-this instruction.
    pub fn dur(&self) -> (len: Option<u64>)
        requires
            self.wf(),
        ensures
            match self.end_spec {
                Some((end_pos, _)) => len == Some((end_pos - self.start_pos) as u64),
                None => len is None,
            },
            len matches Some(n) ==> n >= 1,
    {
        match self.end_spec {
            Some((end_pos, _keep_val)) => Some(end_pos - self.start_pos),
            None => None,
        }
    }
}

} // verus!
