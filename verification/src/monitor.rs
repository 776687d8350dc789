//! The monitor framework: observer capabilities invoked at the emulation
//! driver's lifecycle points (pre-instruction, post-instruction, API call,
//! anomaly), and driver superclasses. A monitor can only observe or raise a
//! cooperative cancellation signal; it cannot veto an instruction, and it
//! must never abort the process.

use vstd::prelude::*;

verus! {

/// Observer capability invoked at the driver's lifecycle points. Multiple
/// monitors may be registered; all are invoked in registration order at
/// each point, and none may assume it is the only receiver of an event.
pub trait EmulationMonitor {
    /// Invoked before the instruction at `va` is emulated; returning true
    /// raises the driver's cancellation signal.
    fn pre_instruction(&self, va: i32) -> bool;

    /// Invoked after the instruction at `va` has been emulated.
    fn post_instruction(&self, va: i32);

    /// Invoked when emulation reaches a call to the external API at `va`
    /// for which no hook is registered.
    fn api_call(&self, va: i32);

    /// Invoked when the instruction at `va` cannot be decoded; the driver
    /// then treats `va` as having no outgoing edges.
    fn anomaly(&self, va: i32);
}

/// The base observer: it handles nothing itself.
pub struct Monitor {}

impl Monitor {
    /// Whether this observer substitutes its own behaviour for an API
    /// call: the base observer never does.
    pub fn api_call(&self) -> (r: bool)
        ensures
            r == false,
    {
        false
    }

    /// Free-form diagnostic channel. The base observer discards the
    /// diagnostic; the driver records anomalies in its run trace.
    pub fn log_anomaly(&self, _e: &str) {
    }
}

impl EmulationMonitor for Monitor {
    fn pre_instruction(&self, _va: i32) -> bool {
        false
    }

    fn post_instruction(&self, _va: i32) {
    }

    fn api_call(&self, _va: i32) {
    }

    fn anomaly(&self, _va: i32) {
    }
}

/// A breakpoint-style monitor: it raises the driver's cancellation signal
/// when the program counter reaches the configured address, instead of
/// aborting the process.
pub struct UntilAvMonitor {
    pub va: i32,
}

impl UntilAvMonitor {
    /// A breakpoint at `va`.
    pub fn new(va: i32) -> (r: UntilAvMonitor)
        ensures
            r.va == va,
    {
        UntilAvMonitor { va }
    }

    /// Pre-instruction callback: request cancellation exactly when the
    /// program counter has reached the configured address.
    pub fn pre_hook(&self, _op: i32, pc: i32) -> (cancel: bool)
        ensures
            cancel == (pc == self.va),
    {
        pc == self.va
    }
}

impl EmulationMonitor for UntilAvMonitor {
    fn pre_instruction(&self, va: i32) -> bool {
        self.pre_hook(0, va)
    }

    fn post_instruction(&self, _va: i32) {
    }

    fn api_call(&self, _va: i32) {
    }

    fn anomaly(&self, _va: i32) {
    }
}

/// Convenience routines an emulator abstraction may offer for reading
/// strings and stack memory.
pub trait EmuHelperMixin {
    /// Naively read an ascii string at `va`.
    fn read_string(&self, va: i32, max_length: i32);

    fn get_stack_value(&self, va: i32, max_length: i32);

    fn read_stack_memory(&self, va: i32, max_length: i32);

    fn read_stack_string(&self, va: i32, max_length: i32);
}

/// Superclass for strategies that control an emulator instance: it owns
/// the emulator together with registered monitors and hooks.
pub struct EmulatorDriver<T> {
    pub emu: T,
    pub monitors: Vec<Monitor>,
    pub hooks: Vec<i32>,
}

impl<T> EmulatorDriver<T> {
    /// A driver over `emu` with no monitors and no hooks yet.
    pub fn new(emu: T) -> (r: EmulatorDriver<T>)
        ensures
            r.emu == emu,
            r.monitors@.len() == 0,
            r.hooks@.len() == 0,
    {
        EmulatorDriver { emu, monitors: Vec::new(), hooks: Vec::new() }
    }
}

} // verus!
