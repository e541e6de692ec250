//! What the command line asks of the linker.
use vstd::prelude::*;

verus! {

/// Processor that the image is for.
#[derive(Clone, Copy, PartialEq, Eq, Debug, Structural)]
pub enum Architecture {
    X86_64,
    AArch64,
    RiscV64,
    LoongArch64,
}

/// Environment that the image runs in.
#[derive(Clone, Copy, PartialEq, Eq, Debug, Structural)]
pub enum WindowsSubsystem {
    Console,
    Windows,
    Native,
    Posix,
    BootApplication,
    EfiApplication,
    EfiBootServiceDriver,
    EfiRom,
    EfiRuntimeDriver,
}

/// How an input was named.
#[derive(PartialEq, Eq, Debug)]
pub enum InputSpec {
    /// A path, which is tried as it is before the search directories.
    File(String),
    /// A file name, which is only looked for in the search directories.
    Search(String),
    /// A library name, which is looked for with the extension `lib`.
    Lib(String),
}

/// One input of the command line.
#[derive(PartialEq, Eq, Debug)]
pub struct Input {
    pub spec: InputSpec,
    /// Whether a directory is searched before all others.
    pub has_search_first: bool,
}

/// Options of a PE link.
#[derive(Debug)]
pub struct PeArgs {
    pub arch: Architecture,
    /// Name of the entry point.
    pub entry: Option<String>,
    pub is_dll: bool,
    pub base_address: Option<u64>,
    pub subsystem: Option<WindowsSubsystem>,
    pub large_address_aware: bool,
    pub high_entropy_va: bool,
    pub dynamic_base: bool,
    pub nx_compat: bool,
    pub terminal_server_aware: bool,
    pub stack_size: Option<u64>,
    pub heap_size: Option<u64>,
}

} // verus!
