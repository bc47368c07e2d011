//! Signals: per-process pending masks and per-signal actions.

use vstd::prelude::*;

use crate::config::MAX_SIG;

verus! {

/// A set of pending or masked signals, one bit per signal number.
#[derive(Clone, Copy, PartialEq, Eq, Structural, Debug)]
pub struct SignalFlags {
    pub bits: u32,
}

/// Signal numbers handled as fatal errors, with their conventional
/// exit codes.
pub const SIGINT: u32 = 2;
/// Illegal instruction.
pub const SIGILL: u32 = 4;
/// Abort.
pub const SIGABRT: u32 = 6;
/// Arithmetic fault.
pub const SIGFPE: u32 = 8;
/// Kill.
pub const SIGKILL: u32 = 9;
/// Bad memory access.
pub const SIGSEGV: u32 = 11;

impl SignalFlags {
    /// Whether signal number `n` is in the set.
    pub open spec fn spec_has(self, n: u32) -> bool {
        self.bits >> n & 1 == 1
    }

    /// The empty set.
    pub fn empty() -> (r: SignalFlags)
        ensures
            r.bits == 0,
    {
        SignalFlags { bits: 0 }
    }

    /// The set holding exactly signal `n`.
    pub fn single(n: u32) -> (r: SignalFlags)
        requires
            n <= MAX_SIG,
        ensures
            r.bits == 1u32 << n,
            r.spec_has(n),
    {
        let r = SignalFlags { bits: 1u32 << n };
        proof {
            assert(1u32 << n >> n & 1 == 1) by (bit_vector)
                requires
                    n < 32,
            ;
        }
        r
    }

    /// Whether signal number `n` is in the set.
    pub fn contains(&self, n: u32) -> (r: bool)
        requires
            n <= MAX_SIG,
        ensures
            r == self.spec_has(n),
    {
        (self.bits >> n) & 1 == 1
    }

    /// Add every signal of `other` to the set.
    pub fn insert(&mut self, other: SignalFlags)
        ensures
            final(self).bits == old(self).bits | other.bits,
    {
        self.bits = self.bits | other.bits;
    }

    /// The fatal pending signal with the smallest conventional number,
    /// as the pair of its exit code and its name; `None` when no fatal
    /// signal is pending.
    pub fn check_error(&self) -> (r: Option<(i32, &'static str)>)
        ensures
            r is Some <==> (self.spec_has(SIGINT) || self.spec_has(SIGILL) || self.spec_has(
                SIGABRT,
            ) || self.spec_has(SIGFPE) || self.spec_has(SIGKILL) || self.spec_has(SIGSEGV)),
            r matches Some(p) ==> p.0 < 0,
    {
        if self.contains(SIGINT) {
            Some((-2, "Killed, SIGINT=2"))
        } else if self.contains(SIGILL) {
            Some((-4, "Illegal Instruction, SIGILL=4"))
        } else if self.contains(SIGABRT) {
            Some((-6, "Aborted, SIGABRT=6"))
        } else if self.contains(SIGFPE) {
            Some((-8, "Erroneous Arithmetic Operation, SIGFPE=8"))
        } else if self.contains(SIGKILL) {
            Some((-9, "Killed, SIGKILL=9"))
        } else if self.contains(SIGSEGV) {
            Some((-11, "Segmentation Fault, SIGSEGV=11"))
        } else {
            None
        }
    }
}

/// What to do on one signal: a handler address and the mask held while
/// it runs.
#[derive(Clone, Copy, PartialEq, Eq, Structural, Debug)]
pub struct SignalAction {
    pub handler: usize,
    pub mask: SignalFlags,
}

impl SignalAction {
    /// No handler, empty mask.
    pub fn new_default() -> (r: SignalAction)
        ensures
            r.handler == 0,
            r.mask.bits == 0,
    {
        SignalAction { handler: 0, mask: SignalFlags { bits: 0 } }
    }
}

/// The per-process action table, one action per signal number.
pub struct SignalActions {
    pub table: Vec<SignalAction>,
}

impl SignalActions {
    /// One default action for every signal number.
    pub fn new_default() -> (r: SignalActions)
        ensures
            r.table@.len() == MAX_SIG + 1,
            forall|i: int|
                0 <= i <= MAX_SIG ==> (#[trigger] r.table@[i]).handler == 0
                    && r.table@[i].mask.bits == 0,
    {
        let mut table: Vec<SignalAction> = Vec::new();
        let mut i: usize = 0;
        while i < MAX_SIG + 1
            invariant
                i <= MAX_SIG + 1,
                table@.len() == i,
                forall|k: int|
                    0 <= k < i ==> (#[trigger] table@[k]).handler == 0 && table@[k].mask.bits == 0,
            decreases MAX_SIG + 1 - i,
        {
            table.push(SignalAction::new_default());
            i = i + 1;
        }
        SignalActions { table }
    }
}

} // verus!
