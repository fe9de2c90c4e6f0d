//! Walking up a guest's chain of stack frames, as a debugger does: each frame keeps its return
//! address 8 bytes below its frame pointer and the caller's frame pointer 16 bytes below.
use vstd::prelude::*;
use crate::bits::SATP_PPN;
use crate::context::Context;
use crate::memory_region::MemoryRegion;
use crate::pmap::{read64, spec_read64};

verus! {

/// Where the walk starts in the guest whose state is `state`: its return address (`x1`), its
/// frame pointer (`x8`), and the page number of its page tables' root.
pub fn backtrace_start(state: &Context) -> (r: (u64, u64, u64))
    requires
        state.saved_registers.wf(),
    ensures
        r == (state.saved_registers.reg(1), state.saved_registers.reg(8), state.csrs.satp & SATP_PPN),
{
    (state.saved_registers.get(1), state.saved_registers.get(8), state.csrs.satp & SATP_PPN)
}

/// One step up from the frame whose frame pointer is `fp`: the return address and the caller's
/// frame pointer that the frame keeps, read through the guest page tables whose root has page
/// number `page_table_ppn`. `None`, where the walk ends, when either word cannot be read.
pub fn backtrace_step(guest_memory: &MemoryRegion, page_table_ppn: u64, fp: u64) -> (r: Option<(u64, u64)>)
    requires
        guest_memory.wf(),
    ensures
        r == (if fp < 16 {
            None
        } else {
            match (
                spec_read64(*guest_memory, page_table_ppn, (fp - 8) as u64),
                spec_read64(*guest_memory, page_table_ppn, (fp - 16) as u64),
            ) {
                (Some(ra), Some(caller_fp)) => Some((ra, caller_fp)),
                _ => None,
            }
        }),
{
    if fp < 16 {
        return None;
    }
    let ra = match read64(guest_memory, page_table_ppn, fp - 8) {
        Some(v) => v,
        None => {
            return None;
        },
    };
    match read64(guest_memory, page_table_ppn, fp - 16) {
        Some(caller_fp) => Some((ra, caller_fp)),
        None => None,
    }
}

} // verus!
