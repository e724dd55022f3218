//! Cancellation tokens for search and indexing operations.
//!
//! A token remembers the version that was active when it was made; it is
//! cancelled once the shared active version moves on. The no-op token is
//! never cancelled. Tight loops check only every `CANCEL_CHECK_INTERVAL`
//! iterations.

use vstd::prelude::*;

verus! {

/// How often long-running loops check whether execution was cancelled.
pub const CANCEL_CHECK_INTERVAL: usize = 0x10000usize;

/// A cancellation token.
#[derive(Clone, Copy, Debug)]
pub struct CancellationToken {
    /// The shared active version; none for the no-op token.
    active_version: Option<&'static std::sync::atomic::AtomicU64>,
    /// The version this token was created with.
    version: u64,
}

impl CancellationToken {
    /// Whether this is the no-op token.
    pub closed spec fn is_noop(&self) -> bool {
        self.active_version is None
    }

    /// The version this token was created with.
    pub closed spec fn token_version(&self) -> u64 {
        self.version
    }

    /// Creates a token that is never cancelled.
    pub fn noop() -> (r: Self)
        ensures
            r.is_noop(),
    {
        CancellationToken { active_version: None, version: 0 }
    }

    /// Creates a token for `version`, cancelled once `active` holds another
    /// version.
    pub fn new(active: &'static std::sync::atomic::AtomicU64, version: u64) -> (r: Self)
        ensures
            !r.is_noop(),
            r.token_version() == version,
    {
        CancellationToken { active_version: Some(active), version }
    }

    /// `Some(())` while the token is active, `None` once cancelled; the
    /// no-op token is always active. Whether another token is still active
    /// depends on the shared version at the time of the call.
    pub fn is_cancelled(&self) -> (r: Option<()>)
        ensures
            self.is_noop() ==> r is Some,
    {
        match self.active_version {
            None => Some(()),
            Some(active) => {
                let current = active.load(std::sync::atomic::Ordering::Relaxed);
                if current != self.version {
                    None
                } else {
                    Some(())
                }
            },
        }
    }

    /// Checks only when `counter` is a multiple of `CANCEL_CHECK_INTERVAL`;
    /// otherwise reports the token active.
    pub fn is_cancelled_sparse(&self, counter: usize) -> (r: Option<()>)
        ensures
            counter % 0x10000 != 0 ==> r is Some,
            self.is_noop() ==> r is Some,
    {
        let low: usize = counter & 0xffffusize;
        assert(low == counter % 0x10000) by (bit_vector)
            requires
                low == counter & 0xffffusize,
        ;
        if low == 0 {
            self.is_cancelled()
        } else {
            Some(())
        }
    }
}

impl Default for CancellationToken {
    /// The no-op token.
    fn default() -> (r: Self)
        ensures
            r.is_noop(),
    {
        Self::noop()
    }
}

} // verus!
