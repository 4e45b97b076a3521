//! Timing of operations.
//!
//! Whether operations are timed is decided once.  A timer remembers what it times; the
//! clock and the output belong to the caller.

use vstd::prelude::*;
use vstd::string::*;

verus! {

/// Whether operations are timed.
#[derive(Debug, Clone, Copy, PartialEq, Eq, Structural)]
pub struct Profiling {
    pub enabled: bool,
}

impl Profiling {
    /// Timing is off at first.
    pub fn new() -> (r: Profiling)
        ensures
            !r.enabled,
    {
        Profiling { enabled: false }
    }
}

/// Turns timing on where the environment asks for it, and gives the line to print.
pub fn init_profiling(profiling: &mut Profiling, requested: bool) -> (r: Option<&'static str>)
    ensures
        final(profiling).enabled == (old(profiling).enabled || requested),
        r is Some <==> requested,
        r is Some ==> r->0@ == "[METAL] Profiling enabled"@,
{
    if requested {
        profiling.enabled = true;
        Some("[METAL] Profiling enabled")
    } else {
        None
    }
}

/// Whether operations are timed.
pub fn is_profiling_enabled(profiling: &Profiling) -> (r: bool)
    ensures
        r == profiling.enabled,
{
    profiling.enabled
}

/// A timer of one operation.
#[derive(Debug)]
pub struct ScopedTimer {
    /// The operation.
    pub name: &'static str,
    /// When it started, in nanoseconds of the caller's clock.
    pub start: u64,
    /// What the operation works on.
    pub metadata: String,
    /// What it runs on.
    pub backend: &'static str,
}

impl ScopedTimer {
    /// A timer that starts at the given time.
    pub fn new(name: &'static str, metadata: String, backend: &'static str, start: u64) -> (r:
        ScopedTimer)
        ensures
            r.name@ == name@,
            r.metadata@ == metadata@,
            r.backend@ == backend@,
            r.start == start,
    {
        ScopedTimer { name, start, metadata, backend }
    }

    /// A timer, where operations are timed.
    pub fn start_if_enabled(
        profiling: &Profiling,
        name: &'static str,
        metadata: String,
        backend: &'static str,
        start: u64,
    ) -> (r: Option<ScopedTimer>)
        ensures
            r is Some <==> profiling.enabled,
            r is Some ==> {
                &&& r->0.name@ == name@
                &&& r->0.metadata@ == metadata@
                &&& r->0.backend@ == backend@
                &&& r->0.start == start
            },
    {
        if is_profiling_enabled(profiling) {
            Some(ScopedTimer::new(name, metadata, backend, start))
        } else {
            None
        }
    }

    /// The line that reports the operation, given its duration in milliseconds.
    pub fn report(&self, milliseconds: &str) -> (r: String)
        ensures
            r@ == "[METAL_PROFILE] "@ + self.name@ + " | backend="@ + self.backend@ + " | "@
                + self.metadata@ + " | time="@ + milliseconds@ + "ms"@,
    {
        let mut line = String::new();
        line.append("[METAL_PROFILE] ");
        line.append(self.name);
        line.append(" | backend=");
        line.append(self.backend);
        line.append(" | ");
        line.append(self.metadata.as_str());
        line.append(" | time=");
        line.append(milliseconds);
        line.append("ms");
        assert(Seq::<char>::empty() + "[METAL_PROFILE] "@ =~= "[METAL_PROFILE] "@);
        line
    }
}

} // verus!
