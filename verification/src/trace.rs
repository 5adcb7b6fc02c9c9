//! The record tables of one loaded profile.
//!
//! Indices into the tables count from 1; index 0 stands for "none".

use vstd::prelude::*;

verus! {

/// One function-call level at a resolved address.
#[derive(Clone, Copy, Debug, PartialEq, Eq, Structural)]
pub enum Frame {
    /// A frame without source location.
    Single { function_idx: usize },
    /// A frame with source file and line; `file_idx == 0` means "no file".
    Multiple { function_idx: usize, file_idx: usize, line_number: u32 },
}

impl Frame {
    /// The index of the function's name in the string table.
    pub open spec fn spec_function_idx(self) -> usize {
        match self {
            Frame::Single { function_idx } => function_idx,
            Frame::Multiple { function_idx, .. } => function_idx,
        }
    }

    /// The index of the source file in the string table, 0 where there is none.
    pub open spec fn spec_file_idx(self) -> usize {
        match self {
            Frame::Single { .. } => 0,
            Frame::Multiple { file_idx, .. } => file_idx,
        }
    }

    /// The source line, 0 where there is none.
    pub open spec fn spec_line_number(self) -> u32 {
        match self {
            Frame::Single { .. } => 0,
            Frame::Multiple { line_number, .. } => line_number,
        }
    }

    #[verifier::when_used_as_spec(spec_function_idx)]
    pub fn function_idx(self) -> (r: usize)
        ensures
            r == self.spec_function_idx(),
    {
        match self {
            Frame::Single { function_idx } => function_idx,
            Frame::Multiple { function_idx, .. } => function_idx,
        }
    }

    #[verifier::when_used_as_spec(spec_file_idx)]
    pub fn file_idx(self) -> (r: usize)
        ensures
            r == self.spec_file_idx(),
    {
        match self {
            Frame::Single { .. } => 0,
            Frame::Multiple { file_idx, .. } => file_idx,
        }
    }

    #[verifier::when_used_as_spec(spec_line_number)]
    pub fn line_number(self) -> (r: u32)
        ensures
            r == self.spec_line_number(),
    {
        match self {
            Frame::Single { .. } => 0,
            Frame::Multiple { line_number, .. } => line_number,
        }
    }
}

/// One resolved address: its own frame, then the frames inlined into it,
/// outermost first.
#[derive(Clone, Debug)]
pub struct InstructionPointer {
    pub frame: Frame,
    pub inlined: Vec<Frame>,
}

/// One level of a call stack: the address it resolves to and the caller's
/// level (0 at the outermost level).
#[derive(Clone, Copy, Debug, PartialEq, Eq, Structural)]
pub struct Trace {
    pub ip_idx: u64,
    pub parent_idx: u64,
}

/// The four metrics kept for a call stack.
#[derive(Clone, Copy, Debug, PartialEq, Eq, Structural)]
pub struct AllocationData {
    pub allocations: u64,
    pub temporary: u64,
    pub leaked: u64,
    pub peak: u64,
}

/// Which of the four metrics is meant.
#[derive(Clone, Copy, Debug, PartialEq, Eq, Structural)]
pub enum MemoryKind {
    Peak,
    Allocations,
    Temporary,
    Leaked,
}

impl AllocationData {
    /// The metric of the given kind.
    pub open spec fn spec_metric(self, kind: MemoryKind) -> u64 {
        match kind {
            MemoryKind::Peak => self.peak,
            MemoryKind::Allocations => self.allocations,
            MemoryKind::Temporary => self.temporary,
            MemoryKind::Leaked => self.leaked,
        }
    }

    #[verifier::when_used_as_spec(spec_metric)]
    pub fn metric(self, kind: MemoryKind) -> (r: u64)
        ensures
            r == self.spec_metric(kind),
    {
        match kind {
            MemoryKind::Peak => self.peak,
            MemoryKind::Allocations => self.allocations,
            MemoryKind::Temporary => self.temporary,
            MemoryKind::Leaked => self.leaked,
        }
    }
}

/// The metrics of all sampled events that share one call stack.
#[derive(Clone, Copy, Debug, PartialEq, Eq, Structural)]
pub struct Allocation {
    pub trace_idx: u64,
    pub data: AllocationData,
}

/// One sampled event: the allocation it belongs to and its own size.
#[derive(Clone, Copy, Debug, PartialEq, Eq, Structural)]
pub struct AllocationInfo {
    pub allocation_idx: u64,
    pub size: u64,
}

/// The tables of one profile.
#[derive(Clone, Debug)]
pub struct TraceGraph {
    pub strings: Vec<String>,
    pub traces: Vec<Trace>,
    pub instruction_pointers: Vec<InstructionPointer>,
    pub allocations: Vec<Allocation>,
    pub allocation_infos: Vec<AllocationInfo>,
}

/// A profile under the name of the traced program.
#[derive(Clone, Debug)]
pub struct MemInfo {
    pub app_name: String,
    pub data: TraceGraph,
}

/// What is wrong with a record table. Each variant but the last two carries
/// the index that does not resolve.
#[derive(Clone, Copy, Debug, PartialEq, Eq, Structural)]
pub enum TraceError {
    /// An allocation index that is 0 or beyond the allocation table.
    AllocationIndex(u64),
    /// A trace index beyond the trace table.
    TraceIndex(u64),
    /// An instruction-pointer index that is 0 or beyond its table.
    IpIndex(u64),
    /// A function index that is 0 or beyond the string table.
    FunctionIndex(usize),
    /// A file index beyond the string table.
    FileIndex(usize),
    /// A chain of parents that does not end.
    ParentCycle,
    /// A metric whose sum over the records does not fit in 64 bits.
    MetricOverflow,
}

} // verus!
