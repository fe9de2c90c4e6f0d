//! Calls from the hypervisor into the machine-mode firmware, in the legacy SBI convention: the
//! argument goes in `a0` and the function number in `a7`.
use vstd::prelude::*;

verus! {

/// The function numbers of the firmware calls the hypervisor makes.
pub const SBI_SET_TIMER: u64 = 0;
pub const SBI_CLEAR_IPI: u64 = 3;
pub const SBI_SEND_IPI: u64 = 4;
pub const SBI_SHUTDOWN: u64 = 8;

/// The registers of a firmware call: its argument (`a0`) and function number (`a7`); the other
/// argument registers are zero.
#[derive(Copy, Clone, Debug, PartialEq, Eq, Structural)]
pub struct SbiCall {
    pub a0: u64,
    pub a7: u64,
}

/// The call that sets the timer to fire at `stime_value`.
pub fn set_timer(stime_value: u64) -> (r: SbiCall)
    ensures
        r == (SbiCall { a0: stime_value, a7: SBI_SET_TIMER }),
{
    SbiCall { a0: stime_value, a7: SBI_SET_TIMER }
}

/// The call that clears this hart's pending inter-processor interrupt.
pub fn clear_ipi() -> (r: SbiCall)
    ensures
        r == (SbiCall { a0: 0, a7: SBI_CLEAR_IPI }),
{
    SbiCall { a0: 0, a7: SBI_CLEAR_IPI }
}

/// The call that interrupts the harts named by the mask stored at `hart_mask_pointer`.
pub fn send_ipi(hart_mask_pointer: u64) -> (r: SbiCall)
    ensures
        r == (SbiCall { a0: hart_mask_pointer, a7: SBI_SEND_IPI }),
{
    SbiCall { a0: hart_mask_pointer, a7: SBI_SEND_IPI }
}

/// The call that powers the machine off.
pub fn shutdown() -> (r: SbiCall)
    ensures
        r == (SbiCall { a0: 0, a7: SBI_SHUTDOWN }),
{
    SbiCall { a0: 0, a7: SBI_SHUTDOWN }
}

/// The hart mask whose address `send_ipi` is handed to interrupt hart `hart` alone; `None`
/// where the hart number is 64 or more, for which the mask has no bit.
pub fn send_ipi_to_hart(hart: u64) -> (r: Option<u64>)
    ensures
        r == (if hart < 64 { Some(1u64 << hart) } else { None::<u64> }),
{
    if hart < 64 {
        Some(1u64 << hart)
    } else {
        None
    }
}

} // verus!
