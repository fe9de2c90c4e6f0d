//! The guest's emulated platform-level interrupt controller (PLIC).
use vstd::prelude::*;

verus! {

pub const MAX_GUEST_HARTS: usize = 8;

/// Number of PLIC contexts: one M-mode and one S-mode context per hart.
pub const MAX_CONTEXTS: usize = 16;

/// Number of interrupt sources.
pub const NUM_SOURCES: usize = 512;

/// The register file of an emulated PLIC.
pub struct PlicState {
    base: u64,
    source_priority: [u32; 512],
    pending: [u32; 16],
    enable: [[u32; 32]; 16],
    thresholds: [u32; 16],
    claim_complete: [u32; 16],
}

/// The bit for interrupt source `irq` inside its pending word.
pub open spec fn pending_mask(irq: int) -> u32 {
    (1u32 << ((irq % 32) as u32)) as u32
}

/// The byte offset of `addr` from the PLIC's base, as the hardware computes it (modulo 2^64).
pub open spec fn plic_offset(base: u64, addr: u64) -> u64 {
    addr.wrapping_sub(base)
}

/// Whether an access at `offset` reaches one of the registers the emulation can index: the
/// last priority slot (offset 0x800) and the pending words (0x1000..=0x1014) lie outside the
/// emulated arrays.
pub open spec fn offset_supported(offset: u64) -> bool {
    offset != 0x800 && !(0x1000 <= offset <= 0x1014)
}

/// Context number addressed by an enable-block offset.
pub open spec fn enable_context(offset: u64) -> int {
    (offset - 0x2000) / 0x80
}

/// Word addressed by an enable-block offset.
pub open spec fn enable_word(offset: u64) -> int {
    ((((offset - 0x2000) as u64) & 0x7f) / 4) as int
}

/// Context number addressed by a threshold/claim-block offset.
pub open spec fn context_of(offset: u64) -> int {
    (offset - 0x20_0000) / 0x1000
}

/// Register addressed inside a context's threshold/claim block: 0 is the threshold, 1 the
/// claim/complete register.
pub open spec fn context_register(offset: u64) -> int {
    ((((offset - 0x20_0000) as u64) & 0xfff) / 4) as int
}

pub open spec fn in_priority_block(offset: u64) -> bool {
    offset <= 0x800
}

pub open spec fn in_enable_block(offset: u64) -> bool {
    0x2000 <= offset < 0x2800
}

pub open spec fn in_context_block(offset: u64) -> bool {
    0x20_0000 <= offset < 0x21_0000
}

impl PlicState {
    /// Claims are always valid source numbers, and the controller is at its fixed address.
    pub closed spec fn wf(&self) -> bool {
        &&& forall|h: int| 0 <= h < 16 ==> (#[trigger] self.claim_complete@[h]) < 512
        &&& self.base == 0x0c00_0000
    }

    /// The controller sits at physical address 0x0c000000.
    pub proof fn lemma_fixed_base(&self)
        requires
            self.wf(),
        ensures
            self.spec_base() == 0x0c00_0000,
    {
    }

    pub closed spec fn spec_base(&self) -> u64 {
        self.base
    }

    /// Priority of each interrupt source.
    pub closed spec fn priorities(&self) -> Seq<u32> {
        self.source_priority@
    }

    /// The pending bits, 32 sources per word.
    pub closed spec fn pending_words(&self) -> Seq<u32> {
        self.pending@
    }

    /// Enable bits of each context, 32 sources per word.
    pub closed spec fn enables(&self) -> Seq<Seq<u32>> {
        self.enable@.map_values(|row: [u32; 32]| row@)
    }

    /// Priority threshold of each context.
    pub closed spec fn thresholds(&self) -> Seq<u32> {
        self.thresholds@
    }

    /// The interrupt currently claimed by each context (0: none).
    pub closed spec fn claims(&self) -> Seq<u32> {
        self.claim_complete@
    }

    pub proof fn lemma_lengths(&self)
        ensures
            self.priorities().len() == 512,
            self.pending_words().len() == 16,
            self.enables().len() == 16,
            forall|h: int| 0 <= h < 16 ==> (#[trigger] self.enables()[h]).len() == 32,
            self.thresholds().len() == 16,
            self.claims().len() == 16,
    {
    }

    /// Whether source `irq` is pending.
    pub open spec fn is_pending(&self, irq: int) -> bool {
        self.pending_words()[irq / 32] & pending_mask(irq) != 0
    }

    /// Whether some pending source has a priority above `threshold`.
    pub open spec fn has_candidate(&self, threshold: u32) -> bool {
        exists|k: int| 0 <= k < 512 && #[trigger] self.is_pending(k) && self.priorities()[k] > threshold
    }

    /// Source `c` is the one a claim against `threshold` selects: it is pending above the
    /// threshold, no pending source has a higher priority, and no pending source with a smaller
    /// number has the same priority.
    pub open spec fn is_best_candidate(&self, threshold: u32, c: int) -> bool {
        &&& 0 <= c < 512
        &&& self.is_pending(c)
        &&& self.priorities()[c] > threshold
        &&& forall|k: int|
            0 <= k < 512 && #[trigger] self.is_pending(k) ==> self.priorities()[k] <= self.priorities()[c]
        &&& forall|k: int|
            0 <= k < c && #[trigger] self.is_pending(k) ==> self.priorities()[k] < self.priorities()[c]
    }

    /// The same pending bits as `old`, except that source `irq` now reads `value`.
    pub open spec fn pending_updated(&self, old: &PlicState, irq: int, value: bool) -> bool {
        &&& self.pending_words().len() == 16
        &&& forall|k: int| 0 <= k < 512 ==> #[trigger] self.is_pending(k) == (if k == irq {
            value
        } else {
            old.is_pending(k)
        })
    }

    /// `self` and `old` agree on everything but the pending bits.
    pub open spec fn same_except_pending(&self, old: &PlicState) -> bool {
        &&& self.spec_base() == old.spec_base()
        &&& self.priorities() == old.priorities()
        &&& self.enables() == old.enables()
        &&& self.thresholds() == old.thresholds()
        &&& self.claims() == old.claims()
    }

    /// Whether a guest access at `addr` reaches a register the emulation implements.
    pub fn access_supported(&self, addr: u64) -> (r: bool)
        ensures
            r == offset_supported(plic_offset(self.spec_base(), addr)),
    {
        let offset = addr.wrapping_sub(self.base);
        offset != 0x800 && !(offset >= 0x1000 && offset <= 0x1014)
    }

    /// A controller with base address 0x0c000000, all registers zero.
    pub fn new() -> (r: Self)
        ensures
            r.wf(),
            r.spec_base() == 0x0c00_0000,
            r.priorities() == Seq::new(512, |i: int| 0u32),
            r.pending_words() == Seq::new(16, |i: int| 0u32),
            r.enables() == Seq::new(16, |i: int| Seq::new(32, |j: int| 0u32)),
            r.thresholds() == Seq::new(16, |i: int| 0u32),
            r.claims() == Seq::new(16, |i: int| 0u32),
    {
        let r = Self {
            base: 0x0c00_0000,
            source_priority: [0u32; 512],
            pending: [0u32; 16],
            enable: [[0u32; 32]; 16],
            thresholds: [0u32; 16],
            claim_complete: [0u32; 16],
        };
        assert(r.priorities() =~= Seq::new(512, |i: int| 0u32));
        assert(r.pending_words() =~= Seq::new(16, |i: int| 0u32));
        assert(r.thresholds() =~= Seq::new(16, |i: int| 0u32));
        assert(r.claims() =~= Seq::new(16, |i: int| 0u32));
        assert forall|i: int| 0 <= i < 16 implies #[trigger] r.enables()[i] =~= Seq::new(32, |j: int| 0u32) by {
        }
        assert(r.enables() =~= Seq::new(16, |i: int| Seq::new(32, |j: int| 0u32)));
        r
    }

    /// Marks source `interrupt` pending (`value`) or not pending (`!value`).
    pub fn set_pending(&mut self, interrupt: u32, value: bool)
        requires
            interrupt < 512,
        ensures
            old(self).wf() ==> final(self).wf(),
            final(self).spec_base() == old(self).spec_base(),
            final(self).priorities() == old(self).priorities(),
            final(self).enables() == old(self).enables(),
            final(self).thresholds() == old(self).thresholds(),
            final(self).claims() == old(self).claims(),
            final(self).pending_updated(&*old(self), interrupt as int, value),
    {
        let index = (interrupt / 32) as usize;
        let mask: u32 = 1u32 << (interrupt % 32);
        let ghost old_self = *self;
        if value {
            self.pending[index] = self.pending[index] | mask;
        } else {
            self.pending[index] = self.pending[index] & !mask;
        }
        proof {
            assert forall|k: int| 0 <= k < 512 implies #[trigger] self.is_pending(k) == (if k
                == interrupt as int {
                value
            } else {
                old_self.is_pending(k)
            }) by {
                lemma_pending_bit(old_self.pending@[k / 32], interrupt % 32, (k % 32) as u32);
                if k / 32 != index as int {
                    assert(self.pending@[k / 32] == old_self.pending@[k / 32]);
                } else if k != interrupt as int {
                    assert(k % 32 != interrupt % 32);
                }
            }
        }
    }

    /// Whether a pending source has a priority above the threshold of the guest's supervisor
    /// context (context 1).
    pub fn interrupt_pending(&self) -> (r: bool)
        ensures
            r == self.has_candidate(self.thresholds()[1]),
    {
        let threshold = self.thresholds[1];
        let mut i: usize = 0;
        while i < 16
            invariant
                i <= 16,
                threshold == self.thresholds()[1],
                forall|k: int|
                    0 <= k < 32 * i ==> !(#[trigger] self.is_pending(k) && self.priorities()[k]
                        > threshold),
            decreases 16 - i,
        {
            if self.pending[i] == 0 {
                proof {
                    assert forall|k: int| 0 <= k < 32 * (i + 1) implies !(#[trigger] self.is_pending(k)
                        && self.priorities()[k] > threshold) by {
                        if k >= 32 * i {
                            lemma_zero_word_has_no_bit((k % 32) as u32);
                        }
                    }
                }
                i = i + 1;
                continue;
            }
            let mut j: usize = 0;
            while j < 32
                invariant
                    i < 16,
                    j <= 32,
                    threshold == self.thresholds()[1],
                    forall|k: int|
                        0 <= k < 32 * i + j ==> !(#[trigger] self.is_pending(k)
                            && self.priorities()[k] > threshold),
                decreases 32 - j,
            {
                let ghost k = 32 * i + j;
                assert(k / 32 == i && k % 32 == j);
                if self.pending[i] & (1u32 << (j as u32)) != 0 {
                    if self.source_priority[i * 32 + j] > threshold {
                        assert(self.is_pending(k));
                        return true;
                    }
                }
                j = j + 1;
            }
            i = i + 1;
        }
        proof {
            if self.has_candidate(threshold) {
                let k = choose|k: int| 0 <= k < 512 && #[trigger] self.is_pending(k) && self.priorities()[k] > threshold;
                assert(!(self.is_pending(k) && self.priorities()[k] > threshold));
            }
        }
        false
    }

    /// The source that a claim against `threshold` selects: the best candidate, or 0 where no
    /// pending source is above the threshold.
    pub open spec fn claimed_source(&self, threshold: u32) -> int {
        if self.has_candidate(threshold) {
            choose|c: int| self.is_best_candidate(threshold, c)
        } else {
            0
        }
    }

    /// At most one source is the best candidate.
    pub proof fn lemma_best_candidate_unique(&self, threshold: u32, c1: int, c2: int)
        requires
            self.is_best_candidate(threshold, c1),
            self.is_best_candidate(threshold, c2),
        ensures
            c1 == c2,
    {
        if c1 < c2 {
            assert(self.priorities()[c1] < self.priorities()[c2]);
            assert(self.priorities()[c2] <= self.priorities()[c1]);
        } else if c2 < c1 {
            assert(self.priorities()[c2] < self.priorities()[c1]);
            assert(self.priorities()[c1] <= self.priorities()[c2]);
        }
    }

    /// The value a read of the claim register of context `ctx` returns: the claim already held,
    /// or else the source selected against the context's threshold.
    pub open spec fn claim_read_value(&self, ctx: int) -> u32 {
        if self.claims()[ctx] != 0 {
            self.claims()[ctx]
        } else {
            self.claimed_source(self.thresholds()[ctx]) as u32
        }
    }

    /// `new` is the controller `old` after a guest load from address `addr` that returned `r`.
    pub open spec fn read_done(old: &PlicState, new: &PlicState, addr: u64, r: u32) -> bool {
        let o = plic_offset(old.spec_base(), addr);
        let claim_read = in_context_block(o) && context_register(o) == 1;
        &&& new.wf()
        &&& new.spec_base() == old.spec_base()
        &&& new.priorities() == old.priorities()
        &&& new.enables() == old.enables()
        &&& new.thresholds() == old.thresholds()
        &&& !claim_read ==> new.pending_words() == old.pending_words()
            && new.claims() == old.claims()
        &&& in_priority_block(o) ==> r == old.priorities()[(o / 4) as int]
        &&& in_enable_block(o) ==> r == old.enables()[enable_context(o)][enable_word(o)]
        &&& in_context_block(o) && context_register(o) == 0 ==> r == old.thresholds()[context_of(o)]
        &&& claim_read ==> {
            &&& r == old.claim_read_value(context_of(o))
            &&& new.claims() == old.claims().update(context_of(o), r)
            &&& new.pending_updated(old, r as int, false)
        }
        &&& in_context_block(o) && context_register(o) > 1 ==> r == 0
        &&& !in_priority_block(o) && !in_enable_block(o) && !in_context_block(o) ==> r == 0
    }

    /// Emulates a 32-bit load from guest physical address `addr`. Reading a context's claim
    /// register claims the selected source: it becomes the context's claim and stops being
    /// pending.
    pub fn read_u32(&mut self, addr: u64) -> (r: u32)
        requires
            old(self).wf(),
            offset_supported(plic_offset(old(self).spec_base(), addr)),
        ensures
            Self::read_done(&*old(self), &*final(self), addr, r),
    {
        let offset = addr.wrapping_sub(self.base);
        if offset <= 0x800 {
            proof {
                lemma_shift_is_div(offset);
            }
            self.source_priority[(offset >> 2) as usize]
        } else if offset >= 0x1000 && offset <= 0x1014 {
            proof {
                assert(false);
            }
            0
        } else if offset >= 0x2000 && offset < 0x2000 + 0x80 * (MAX_CONTEXTS as u64) {
            let hart = (offset - 0x2000) / 0x80;
            let index = ((offset - 0x2000) & 0x7f) >> 2;
            proof {
                lemma_masked_index((offset - 0x2000) as u64, 0x7f);
            }
            if index <= 32 {
                self.enable[hart as usize][index as usize]
            } else {
                0
            }
        } else if offset >= 0x20_0000 && offset < 0x20_0000 + 0x1000 * (MAX_CONTEXTS as u64) {
            let hart = ((offset - 0x20_0000) / 0x1000) as usize;
            let index = ((offset - 0x20_0000) & 0xfff) >> 2;
            proof {
                lemma_masked_index((offset - 0x20_0000) as u64, 0xfff);
            }
            if index == 0 {
                self.thresholds[hart]
            } else if index == 1 {
                let ghost old_self = *self;
                if self.claim_complete[hart] == 0 {
                    let threshold = self.thresholds[hart];
                    let best = self.best_pending(threshold);
                    self.claim_complete[hart] = best;
                    proof {
                        if old_self.has_candidate(threshold) {
                            let c = choose|c: int| old_self.is_best_candidate(threshold, c);
                            old_self.lemma_best_candidate_unique(threshold, c, best as int);
                        }
                    }
                }
                let claim = self.claim_complete[hart];
                let ghost mid = *self;
                self.set_pending(claim, false);
                proof {
                    assert(self.claims() == mid.claims());
                    assert forall|k: int| 0 <= k < 512 implies #[trigger] self.is_pending(k) == (if k == claim as int {
                        false
                    } else {
                        old_self.is_pending(k)
                    }) by {
                        assert(mid.is_pending(k) == old_self.is_pending(k));
                    }
                    assert(self.claims() =~= old_self.claims().update(hart as int, claim));
                }
                claim
            } else {
                0
            }
        } else {
            0
        }
    }

    /// `new` is the controller `old` after a guest store of `value` to address `addr`;
    /// `clear_after` says whether SEIP must then be cleared (`clear_before` where not).
    pub open spec fn write_done(old: &PlicState, new: &PlicState, addr: u64, value: u32, clear_before: bool, clear_after: bool) -> bool {
        let o = plic_offset(old.spec_base(), addr);
        let ctx = context_of(o);
        let completes = in_context_block(o) && context_register(o) == 1
            && old.claims()[ctx] == value;
        &&& new.wf()
        &&& new.spec_base() == old.spec_base()
        &&& new.priorities() == (if in_priority_block(o) {
            old.priorities().update((o / 4) as int, value)
        } else {
            old.priorities()
        })
        &&& new.enables() == (if in_enable_block(o) {
            old.enables().update(
                enable_context(o),
                old.enables()[enable_context(o)].update(enable_word(o), value),
            )
        } else {
            old.enables()
        })
        &&& new.thresholds() == (if in_context_block(o) && context_register(o) == 0 {
            old.thresholds().update(ctx, value)
        } else {
            old.thresholds()
        })
        &&& completes ==> {
            &&& new.claims() == old.claims().update(ctx, 0)
            &&& new.pending_updated(old, value as int, false)
            &&& clear_after
        }
        &&& !completes ==> {
            &&& new.claims() == old.claims()
            &&& new.pending_words() == old.pending_words()
            &&& clear_after == clear_before
        }
    }

    /// Emulates a 32-bit store of `value` to guest physical address `addr`. Writing a context's
    /// claim register with the source it has claimed completes the claim: the claim is released,
    /// the source stops being pending, and `clear_seip` is set.
    pub fn write_u32(&mut self, addr: u64, value: u32, clear_seip: &mut bool)
        requires
            old(self).wf(),
            offset_supported(plic_offset(old(self).spec_base(), addr)),
        ensures
            Self::write_done(&*old(self), &*final(self), addr, value, *old(clear_seip), *final(clear_seip)),
    {
        let offset = addr.wrapping_sub(self.base);
        let ghost old_self = *self;
        if offset <= 0x800 {
            proof {
                lemma_shift_is_div(offset);
            }
            self.source_priority[(offset >> 2) as usize] = value;
            assert(self.priorities() =~= old_self.priorities().update((offset / 4) as int, value));
        } else if offset >= 0x1000 && offset <= 0x1014 {
            proof {
                assert(false);
            }
        } else if offset >= 0x2000 && offset < 0x2000 + 0x80 * (MAX_CONTEXTS as u64) {
            let hart = (offset - 0x2000) / 0x80;
            let index = ((offset - 0x2000) & 0x7f) >> 2;
            proof {
                lemma_masked_index((offset - 0x2000) as u64, 0x7f);
            }
            if index <= 32 {
                let mut row = self.enable[hart as usize];
                row[index as usize] = value;
                self.enable[hart as usize] = row;
                assert(self.enables() =~= old_self.enables().update(
                    hart as int,
                    old_self.enables()[hart as int].update(index as int, value),
                ));
            }
        } else if offset >= 0x20_0000 && offset < 0x20_0000 + 0x1000 * (MAX_CONTEXTS as u64) {
            let hart = (offset - 0x20_0000) / 0x1000;
            let index = ((offset - 0x20_0000) & 0xfff) >> 2;
            proof {
                lemma_masked_index((offset - 0x20_0000) as u64, 0xfff);
            }
            if index == 0 {
                self.thresholds[hart as usize] = value;
                assert(self.thresholds() =~= old_self.thresholds().update(hart as int, value));
            } else if index == 1 {
                if self.claim_complete[hart as usize] == value {
                    self.set_pending(value, false);
                    let ghost mid = *self;
                    self.claim_complete[hart as usize] = 0;
                    *clear_seip = true;
                    assert(self.claims() =~= old_self.claims().update(hart as int, 0));
                    assert forall|k: int| 0 <= k < 512 implies #[trigger] self.is_pending(k) == (if k == value as int {
                        false
                    } else {
                        old_self.is_pending(k)
                    }) by {
                        assert(mid.is_pending(k) == (if k == value as int {
                            false
                        } else {
                            old_self.is_pending(k)
                        }));
                        assert(self.pending_words() == mid.pending_words());
                    }
                }
            }
        }
    }

    /// Source `c` is the best pending source above `threshold` among sources below `n`.
    spec fn best_below(&self, threshold: u32, c: int, n: int) -> bool {
        &&& 0 <= c < n
        &&& self.is_pending(c)
        &&& self.priorities()[c] > threshold
        &&& forall|k: int| 0 <= k < n && #[trigger] self.is_pending(k) ==> self.priorities()[k] <= self.priorities()[c]
        &&& forall|k: int| 0 <= k < c && #[trigger] self.is_pending(k) ==> self.priorities()[k] < self.priorities()[c]
    }

    /// The source that a claim against `threshold` selects, or 0 where none qualifies.
    fn best_pending(&self, threshold: u32) -> (r: u32)
        ensures
            self.has_candidate(threshold) ==> self.is_best_candidate(threshold, r as int),
            !self.has_candidate(threshold) ==> r == 0,
            r < 512,
    {
        let mut max_priority = threshold;
        let mut claim: u32 = 0;
        let ghost mut found = false;
        let mut i: usize = 0;
        while i < 16
            invariant
                i <= 16,
                claim < 512,
                found ==> self.best_below(threshold, claim as int, 32 * i) && max_priority
                    == self.priorities()[claim as int],
                !found ==> claim == 0 && max_priority == threshold && forall|k: int|
                    0 <= k < 32 * i ==> !(#[trigger] self.is_pending(k) && self.priorities()[k]
                        > threshold),
            decreases 16 - i,
        {
            if self.pending[i] == 0 {
                proof {
                    assert forall|k: int| 32 * i <= k < 32 * (i + 1) implies !#[trigger] self.is_pending(k) by {
                        lemma_zero_word_has_no_bit((k % 32) as u32);
                    }
                }
                i = i + 1;
                continue;
            }
            let mut j: usize = 0;
            while j < 32
                invariant
                    i < 16,
                    j <= 32,
                    claim < 512,
                    found ==> self.best_below(threshold, claim as int, 32 * i + j) && max_priority
                        == self.priorities()[claim as int],
                    !found ==> claim == 0 && max_priority == threshold && forall|k: int|
                        0 <= k < 32 * i + j ==> !(#[trigger] self.is_pending(k)
                            && self.priorities()[k] > threshold),
                decreases 32 - j,
            {
                let ghost k = 32 * i + j;
                assert(k / 32 == i && k % 32 == j);
                if self.pending[i] & (1u32 << (j as u32)) != 0 {
                    let interrupt = i * 32 + j;
                    if self.source_priority[interrupt] > max_priority {
                        max_priority = self.source_priority[interrupt];
                        claim = interrupt as u32;
                        proof {
                            found = true;
                        }
                    }
                }
                j = j + 1;
            }
            i = i + 1;
        }
        proof {
            if !found && self.has_candidate(threshold) {
                let k = choose|k: int| 0 <= k < 512 && #[trigger] self.is_pending(k) && self.priorities()[k] > threshold;
                assert(!(self.is_pending(k) && self.priorities()[k] > threshold));
            }
        }
        claim
    }
}

/// A source priority, enable word or priority threshold reads back what was last written to
/// it: a 32-bit store of `value` to `addr` followed by a load from `addr` gives `value`.
pub proof fn lemma_write_then_read(p0: PlicState, p1: PlicState, p2: PlicState, addr: u64, value: u32, c0: bool, c1: bool, r: u32)
    requires
        offset_supported(plic_offset(p0.spec_base(), addr)),
        PlicState::write_done(&p0, &p1, addr, value, c0, c1),
        PlicState::read_done(&p1, &p2, addr, r),
        ({
            let o = plic_offset(p0.spec_base(), addr);
            in_priority_block(o) || in_enable_block(o) || (in_context_block(o) && context_register(o) == 0)
        }),
    ensures
        r == value,
{
    let o = plic_offset(p0.spec_base(), addr);
    p0.lemma_lengths();
    p1.lemma_lengths();
    if in_enable_block(o) {
        assert(0 <= enable_context(o) < 16);
        lemma_masked_index((o - 0x2000) as u64, 0x7f);
    }
    if in_context_block(o) {
        assert(0 <= context_of(o) < 16);
    }
}

/// The same law at the controller's own addresses: the priority of source `i` at
/// 0x0c000000 + 4i, enable word `k` of context `ctx` at 0x0c002000 + 0x80 ctx + 4k, and the
/// threshold of context `ctx` at 0x0c200000 + 0x1000 ctx read back what was stored there.
pub proof fn lemma_register_read_back(p0: PlicState, p1: PlicState, p2: PlicState, addr: u64, value: u32,
    c0: bool, c1: bool, r: u32, i: u64, ctx: u64, k: u64)
    requires
        p0.wf(),
        (addr == 0x0c00_0000 + 4 * i && i < 512) || (addr == 0x0c00_2000 + 0x80 * ctx + 4 * k && ctx < 16 && k < 32)
            || (addr == 0x0c20_0000 + 0x1000 * ctx && ctx < 16),
        PlicState::write_done(&p0, &p1, addr, value, c0, c1),
        PlicState::read_done(&p1, &p2, addr, r),
    ensures
        r == value,
{
    p0.lemma_fixed_base();
    let o = plic_offset(p0.spec_base(), addr);
    assert(o == addr - 0x0c00_0000);
    if addr == 0x0c20_0000 + 0x1000 * ctx && ctx < 16 {
        lemma_masked_index((o - 0x20_0000) as u64, 0xfff);
        assert(((o - 0x20_0000) as u64) % 4096 == 0);
    }
    lemma_write_then_read(p0, p1, p2, addr, value, c0, c1, r);
}

/// Setting or clearing one bit of a word leaves the other bits alone.
pub proof fn lemma_pending_bit(w: u32, a: u32, b: u32)
    requires
        a < 32,
        b < 32,
    ensures
        ((w | (1u32 << a)) & (1u32 << b) != 0) == (if a == b { true } else { w & (1u32 << b) != 0 }),
        ((w & !(1u32 << a)) & (1u32 << b) != 0) == (if a == b { false } else { w & (1u32 << b) != 0 }),
{
    assert(((w | (1u32 << a)) & (1u32 << b) != 0) == (if a == b { true } else { w & (1u32 << b) != 0 })) by (bit_vector)
        requires
            a < 32,
            b < 32,
    ;
    assert(((w & !(1u32 << a)) & (1u32 << b) != 0) == (if a == b { false } else { w & (1u32 << b) != 0 })) by (bit_vector)
        requires
            a < 32,
            b < 32,
    ;
}

proof fn lemma_shift_is_div(x: u64)
    ensures
        x >> 2 == x / 4,
{
    assert(x >> 2 == x / 4) by (bit_vector);
}

proof fn lemma_masked_index(x: u64, m: u64)
    requires
        m == 0x7f || m == 0xfff,
    ensures
        (x & m) >> 2 == (x & m) / 4,
        m == 0x7f ==> (x & m) / 4 < 32,
        m == 0xfff ==> (x & m) / 4 < 1024,
        m == 0xfff ==> x & m == x % 4096,
{
    assert((x & m) >> 2 == (x & m) / 4 && (m == 0xfff ==> x & m == x % 4096)) by (bit_vector)
        requires
            m == 0x7f || m == 0xfff,
    ;
    assert((x & m) <= m) by (bit_vector);
}

proof fn lemma_zero_word_has_no_bit(b: u32)
    requires
        b < 32,
    ensures
        0u32 & (1u32 << b) == 0,
{
    assert(0u32 & (1u32 << b) == 0) by (bit_vector);
}

} // verus!
