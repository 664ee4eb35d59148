//! What the application needs to know of the machine it runs on.
use vstd::prelude::*;

verus! {

/// The operating system the application runs on.
#[derive(Debug, Clone, Copy, PartialEq, Eq, Structural)]
pub enum OperatingSystem {
    Windows,
    Linux,
    Macos,
    Unknown,
}

/// Memory use of the machine at one moment.
#[derive(Debug, Clone, Copy)]
pub struct SystemSnapshot {
    pub used_memory_bytes: u64,
    pub total_memory_bytes: u64,
}

/// The machine as the application sees it.
pub trait Platform {
    /// The operating system.
    fn operating_system(&self) -> OperatingSystem;

    /// The home folder of the user, as text.
    fn home_directory(&self) -> Option<String>;

    /// The current memory use.
    fn snapshot(&mut self) -> SystemSnapshot;
}

} // verus!
