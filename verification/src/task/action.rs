//! What a task does on a signal.
use crate::task::signal::SignalFlags;
use vstd::prelude::*;

verus! {

/// The handler of a signal and the signals that are held back while it
/// runs.
#[derive(Copy, Clone, Debug)]
pub struct SignalAction {
    /// Address of the handler.
    pub handler: u64,
    /// Signals held back while the handler runs.
    pub mask: SignalFlags,
}

impl Default for SignalAction {
    /// No handler; quit and trap are held back.
    fn default() -> (r: Self)
        ensures
            r.handler == 0,
            r.mask.bits == 40,
    {
        Self { handler: 0, mask: SignalFlags { bits: 40 } }
    }
}

/// The actions of a task, one for each signal number.
#[derive(Copy, Clone, Debug)]
pub struct SignalActions {
    /// The action for each signal number.
    pub table: [SignalAction; 32],
}

impl Default for SignalActions {
    /// The default action for every signal.
    fn default() -> (r: Self)
        ensures
            forall|i: int| 0 <= i < 32 ==> r.table@[i].handler == 0 && r.table@[i].mask.bits == 40,
    {
        Self { table: [SignalAction { handler: 0, mask: SignalFlags { bits: 40 } };32] }
    }
}

} // verus!
