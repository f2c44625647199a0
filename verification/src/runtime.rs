//! Plain values of the runtime that hosts a file system: why a thread
//! could not be started, and the state of a terminal.

use vstd::prelude::*;

verus! {

/// Why the runtime could not start a thread.
#[derive(Debug, Clone, Copy, PartialEq, Eq, Structural)]
pub enum WasiThreadError {
    /// The runtime has no threads.
    Unsupported,
    /// The named method is not an exported function.
    MethodNotFound,
    /// The memory that was asked for could not be created.
    MemoryCreateFailed,
    /// The code runs in a thread that the runtime did not start.
    InvalidWasmContext,
}

/// The error numbers, by name, that a thread error is reported as.
#[derive(Debug, Clone, Copy, PartialEq, Eq, Structural)]
pub enum WasiErrno {
    /// Not supported.
    Notsup,
    /// Invalid argument.
    Inval,
    /// Bad address.
    Fault,
    /// Executable file format error.
    Noexec,
}

impl WasiThreadError {
    /// The error number that this error is reported as.
    pub open spec fn errno(self) -> WasiErrno {
        match self {
            WasiThreadError::Unsupported => WasiErrno::Notsup,
            WasiThreadError::MethodNotFound => WasiErrno::Inval,
            WasiThreadError::MemoryCreateFailed => WasiErrno::Fault,
            WasiThreadError::InvalidWasmContext => WasiErrno::Noexec,
        }
    }

    /// The text that describes this error.
    pub open spec fn text(self) -> Seq<char> {
        match self {
            WasiThreadError::Unsupported => "Multithreading is not supported"@,
            WasiThreadError::MethodNotFound => "The method named is not an exported function"@,
            WasiThreadError::MemoryCreateFailed => "Failed to create the requested memory"@,
            WasiThreadError::InvalidWasmContext => "WASM context is invalid"@,
        }
    }

    /// The text that describes this error.
    pub fn message(&self) -> (r: &'static str)
        ensures
            r@ == self.text(),
    {
        match self {
            WasiThreadError::Unsupported => "Multithreading is not supported",
            WasiThreadError::MethodNotFound => "The method named is not an exported function",
            WasiThreadError::MemoryCreateFailed => "Failed to create the requested memory",
            WasiThreadError::InvalidWasmContext => "WASM context is invalid",
        }
    }

    /// The text that describes this error, as an owned string.
    pub fn to_string(&self) -> (r: String)
        ensures
            r@ == self.text(),
    {
        self.message().to_owned()
    }
}

impl From<WasiThreadError> for WasiErrno {
    fn from(a: WasiThreadError) -> (r: WasiErrno)
    {
        match a {
            WasiThreadError::Unsupported => WasiErrno::Notsup,
            WasiThreadError::MethodNotFound => WasiErrno::Inval,
            WasiThreadError::MemoryCreateFailed => WasiErrno::Fault,
            WasiThreadError::InvalidWasmContext => WasiErrno::Noexec,
        }
    }
}

impl vstd::std_specs::convert::FromSpecImpl<WasiThreadError> for WasiErrno {
    open spec fn obeys_from_spec() -> bool {
        true
    }

    open spec fn from_spec(a: WasiThreadError) -> WasiErrno {
        a.errno()
    }
}

/// The state of a terminal.
#[derive(Debug, Clone, Copy, PartialEq, Eq, PartialOrd, Ord)]
pub struct WasiTtyState {
    pub cols: u32,
    pub rows: u32,
    pub width: u32,
    pub height: u32,
    pub stdin_tty: bool,
    pub stdout_tty: bool,
    pub stderr_tty: bool,
    pub echo: bool,
    pub line_buffered: bool,
}

impl Default for WasiTtyState {
    /// The state that a runtime reports which knows of no terminal: 80
    /// columns by 25 rows on 800 by 600 pixels, no stream a terminal, echo
    /// and line buffering on.
    fn default() -> (r: WasiTtyState)
        ensures
            r == (WasiTtyState {
                cols: 80,
                rows: 25,
                width: 800,
                height: 600,
                stdin_tty: false,
                stdout_tty: false,
                stderr_tty: false,
                echo: true,
                line_buffered: true,
            }),
    {
        WasiTtyState {
            rows: 25,
            cols: 80,
            width: 800,
            height: 600,
            stdin_tty: false,
            stdout_tty: false,
            stderr_tty: false,
            echo: true,
            line_buffered: true,
        }
    }
}

} // verus!
