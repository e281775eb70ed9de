//! Core of a waveform-compilation engine for hardware-synchronised signal
//! generation, on the sample-clock grid.
//!
//! Pulses are added to channels as instruction intervals in ticks. Compiling a
//! channel turns its sparse, overlap-free edit cache into a dense compile cache
//! that covers every tick from zero to the stop position. A device compiles its
//! channels to one common stop position, and a streamer drives all devices.
//! Sample windows are handed out as plans: which compiled function fills which
//! slice of the caller's buffer.

pub mod compile_cache;
pub mod device;
pub mod edit_cache;
pub mod error;
pub mod instr_order;
pub mod instruction;
pub mod laws;
pub mod streamer;
pub mod channel;
