//! Cooperative cancellation: a shared boolean flag, set once by the
//! canceller and polled by the generation worker between rows and
//! between cells.

use vstd::prelude::*;
use std::sync::Arc;
use std::sync::atomic::{AtomicBool, Ordering};

verus! {

/// A shared cancellation flag.  Clones observe the same flag.
#[derive(Clone)]
pub struct CancelFlag {
    flag: Arc<AtomicBool>,
}

impl CancelFlag {
    /// A fresh, unset flag.
    pub fn new() -> (r: CancelFlag) {
        CancelFlag { flag: Arc::new(AtomicBool::new(false)) }
    }

    /// Request cancellation.  Setting the flag again is harmless.
    pub fn cancel(&self) {
        self.flag.store(true, Ordering::SeqCst);
    }

    /// Has cancellation been requested?  Another thread owns the other
    /// end, so either answer can come back; the engine merely promises
    /// what it does with each.
    pub fn is_cancelled(&self) -> bool {
        self.flag.load(Ordering::SeqCst)
    }
}

} // verus!
