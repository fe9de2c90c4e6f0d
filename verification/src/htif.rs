//! The host-target interface of simulators: the words exchanged through `tohost` and
//! `fromhost`.
use vstd::prelude::*;

verus! {

/// What a word in `fromhost` tells the target.
#[derive(Copy, Clone, Debug, PartialEq, Eq, Structural)]
pub enum FromHost {
    /// No word is there.
    Nothing,
    /// A console byte (the low 48 bits) arrived.
    Console(u64),
    /// A command was acknowledged.
    Ack,
    /// An unknown command: the target stops.
    Halt,
}

/// The device, command and payload of a host-target word: its top byte, its next byte, and its
/// low 48 bits.
pub open spec fn spec_fields(w: u64) -> (u64, u64, u64) {
    (w >> 56u64, (w << 8u64) >> 56u64, (w << 16u64) >> 16u64)
}

/// The device, command and payload of a host-target word.
pub fn fields(w: u64) -> (r: (u64, u64, u64))
    ensures
        r == spec_fields(w),
{
    (w >> 56u64, (w << 8u64) >> 56u64, (w << 16u64) >> 16u64)
}

/// What the word `fh` found in `fromhost` tells the target.
pub fn from_host(fh: u64) -> (r: FromHost)
    ensures
        r == (if fh == 0 {
            FromHost::Nothing
        } else if spec_fields(fh).1 == 0 {
            FromHost::Console(spec_fields(fh).2)
        } else if spec_fields(fh).1 == 1 {
            FromHost::Ack
        } else {
            FromHost::Halt
        }),
{
    if fh == 0 {
        return FromHost::Nothing;
    }
    let (_dev, cmd, data) = fields(fh);
    if cmd == 0 {
        FromHost::Console(data)
    } else if cmd == 1 {
        FromHost::Ack
    } else {
        FromHost::Halt
    }
}

/// Printing byte `ch` on the console: the word to write to `tohost`, device 1 and command 1,
/// once `tohost` reads zero again.
pub fn putchar(ch: u8) -> (r: u64)
    ensures
        r == (1u64 << 56u64) | (1u64 << 48u64) | ch as u64,
{
    (1u64 << 56u64) | (1u64 << 48u64) | ch as u64
}

} // verus!
