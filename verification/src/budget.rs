//! How much memory may be used, and whether a request fits.

use vstd::prelude::*;
use sysinfo::SystemExt;
use crate::error::{GlydeError, Result};

verus! {

/// The budget never exceeds four gibibytes.
pub const MAX_CAP_BYTES: u64 = 4_294_967_296;

/// The budget is at most one part in this many of the machine's memory.
pub const RAM_FRACTION: u64 = 4;

/// The most memory that may be used.
#[derive(Debug, Clone, Copy, PartialEq, Eq, Structural)]
pub struct RamBudget {
    cap_bytes: u64,
}

/// A quarter of the machine's memory, and no more than four gibibytes.
pub open spec fn cap_of(total_ram_bytes: u64) -> u64 {
    if total_ram_bytes / RAM_FRACTION < MAX_CAP_BYTES {
        total_ram_bytes / RAM_FRACTION
    } else {
        MAX_CAP_BYTES
    }
}

/// How much memory the machine has, by `sysinfo::System::total_memory` after
/// `refresh_memory`. That is up to the machine, so nothing is claimed of it.
#[verifier::external_body]
fn total_ram_bytes() -> (total: u64) {
    let mut system = sysinfo::System::new();
    system.refresh_memory();
    system.total_memory()
}

impl RamBudget {
    /// The most memory that may be used, in bytes.
    pub closed spec fn cap(self) -> u64 {
        self.cap_bytes
    }

    /// The budget of this machine, whatever memory it has.
    pub fn from_system() -> (budget: RamBudget)
        ensures
            exists|total: u64| budget.cap() == #[trigger] cap_of(total),
    {
        RamBudget::from_total_ram_bytes(total_ram_bytes())
    }

    /// The budget of a machine with so much memory.
    pub fn from_total_ram_bytes(total_ram_bytes: u64) -> (budget: RamBudget)
        ensures
            budget.cap() == cap_of(total_ram_bytes),
    {
        let share: u64 = total_ram_bytes / RAM_FRACTION;
        RamBudget {
            cap_bytes: if share < MAX_CAP_BYTES {
                share
            } else {
                MAX_CAP_BYTES
            },
        }
    }

    /// The most memory that may be used, in bytes.
    pub fn cap_bytes(&self) -> (cap_bytes: u64)
        ensures
            cap_bytes == self.cap(),
    {
        self.cap_bytes
    }

    /// Whether a request fits.
    pub fn affords(&self, requested_bytes: u64) -> (affordable: bool)
        ensures
            affordable == (requested_bytes <= self.cap()),
    {
        requested_bytes <= self.cap_bytes
    }

    /// Refuses a request that does not fit.
    pub fn check_affordable(&self, requested_bytes: u64) -> (checked: Result<()>)
        ensures
            match checked {
                Ok(_) => requested_bytes <= self.cap(),
                Err(error) => requested_bytes > self.cap() && error == (
                GlydeError::BudgetExceeded { requested_bytes, cap_bytes: self.cap() }),
            },
    {
        if requested_bytes <= self.cap_bytes {
            return Ok(());
        }
        Err(GlydeError::BudgetExceeded { requested_bytes, cap_bytes: self.cap_bytes })
    }
}

/// The cap is a quarter of the memory, rounded down, and no more than four
/// gibibytes.
pub proof fn law_cap_is_a_quarter(total_ram_bytes: u64)
    ensures
        4 * cap_of(total_ram_bytes) <= total_ram_bytes,
        cap_of(total_ram_bytes) <= 4 * 1024 * 1024 * 1024,
        cap_of(total_ram_bytes) == 4 * 1024 * 1024 * 1024 || total_ram_bytes < 4 * (cap_of(
            total_ram_bytes,
        ) + 1),
{
}

} // verus!
