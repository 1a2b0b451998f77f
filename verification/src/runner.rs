//! The runner's output: the encoded artifacts of one VM execution,
//! produced once per run and immutable afterwards.

use vstd::prelude::*;
use crate::codec::{encode_memory, encode_trace, memory_bytes, trace_bytes, TraceEntry};
use cairo_vm::Felt252;

verus! {

/// Aggregate of one execution: encoded trace bytes, encoded memory
/// bytes, and the program's textual output.
#[derive(Debug)]
pub struct CairoRunOutput {
    pub trace: Vec<u8>,
    pub memory: Vec<u8>,
    pub output: String,
}

/// The runner's error: a message carried up to the front end.
#[derive(Clone, Debug)]
pub enum RunnerError {
    GenericError(String),
}

impl RunnerError {
    /// Wraps any failure message from a collaborator.
    pub fn generic(message: String) -> (r: RunnerError)
        ensures
            r matches RunnerError::GenericError(m) && m@ == message@,
    {
        RunnerError::GenericError(message)
    }
}

/// Finishes a run whose trace may not have been relocated: a missing
/// relocated trace is the runner's error, never a panic.
pub fn run_output_from_parts(
    relocated_trace: Option<Vec<TraceEntry>>,
    relocated_memory: &[Option<Felt252>],
    output: String,
) -> (r: Result<CairoRunOutput, RunnerError>)
    ensures
        relocated_trace matches Some(t) ==> (r matches Ok(o) && o.trace@ == trace_bytes(t@)
            && o.memory@ == memory_bytes(relocated_memory@) && o.output@ == output@),
        relocated_trace is None <==> r is Err,
{
    match relocated_trace {
        Some(t) => Ok(build_run_output(t.as_slice(), relocated_memory, output)),
        None => Err(RunnerError::GenericError("trace not relocated".to_string())),
    }
}

/// Packages the relocated trace and memory of a finished execution,
/// together with its serialized output, into the transportable form.
pub fn build_run_output(
    relocated_trace: &[TraceEntry],
    relocated_memory: &[Option<Felt252>],
    output: String,
) -> (r: CairoRunOutput)
    ensures
        r.trace@ == trace_bytes(relocated_trace@),
        r.memory@ == memory_bytes(relocated_memory@),
        r.output@ == output@,
{
    CairoRunOutput {
        trace: encode_trace(relocated_trace),
        memory: encode_memory(relocated_memory),
        output,
    }
}

} // verus!
