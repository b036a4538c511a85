//! The failures a run can end in.

use crate::naming::part_name;
use crate::naming::part_name_of;
use crate::rotator::RotationStep;
use vstd::prelude::*;
use vstd::string::*;

verus! {

/// Why a run failed: the stage, and the chunk where one is concerned.
#[derive(Debug, Clone, Copy, PartialEq, Eq, Structural)]
pub enum PipelineError {
    /// The source cannot be read, or is absent.
    Source,
    /// A chunk could not be written or read back.
    ChunkIo { index: usize },
    /// The pool of workers could not be set up.
    WorkerPool,
    /// The chunk at `index` has no single successful compression report.
    Compression { index: usize },
    /// The compressed chunks could not be joined into the assembly.
    Reassembly,
    /// The swap at the destination stopped at `step`.
    Rotation { step: RotationStep },
}

/// The stages of a run, in the order they are gone through.
#[derive(Debug, Clone, Copy, PartialEq, Eq, Structural)]
pub enum Stage {
    Source,
    Chunker,
    ParallelCompressor,
    Reassembler,
    OutputRotator,
}

/// The name of a rotation step, as failures report it.
pub open spec fn step_name(step: RotationStep) -> Seq<char> {
    match step {
        RotationStep::Backup => "backup"@,
        RotationStep::Promote => "promote"@,
        RotationStep::RemoveAssembly => "remove-assembly"@,
        RotationStep::RemoveBackup => "remove-backup"@,
    }
}

/// What a failure reports: the stage, then what it concerns, the file name
/// of the chunk or the step of the rotation.
pub open spec fn description(e: PipelineError) -> Seq<char> {
    match e {
        PipelineError::Source => "source"@,
        PipelineError::ChunkIo { index } => "chunker: "@ + part_name_of(index as nat),
        PipelineError::WorkerPool => "compressor: worker pool"@,
        PipelineError::Compression { index } => "compressor: "@ + part_name_of(index as nat),
        PipelineError::Reassembly => "reassembler"@,
        PipelineError::Rotation { step } => "rotator: "@ + step_name(step),
    }
}

impl PipelineError {
    /// The stage in which the run failed.
    pub fn stage(&self) -> (stage: Stage)
        ensures
            stage == match *self {
                PipelineError::Source => Stage::Source,
                PipelineError::ChunkIo { .. } => Stage::Chunker,
                PipelineError::WorkerPool => Stage::ParallelCompressor,
                PipelineError::Compression { .. } => Stage::ParallelCompressor,
                PipelineError::Reassembly => Stage::Reassembler,
                PipelineError::Rotation { .. } => Stage::OutputRotator,
            },
    {
        match self {
            PipelineError::Source => Stage::Source,
            PipelineError::ChunkIo { .. } => Stage::Chunker,
            PipelineError::WorkerPool => Stage::ParallelCompressor,
            PipelineError::Compression { .. } => Stage::ParallelCompressor,
            PipelineError::Reassembly => Stage::Reassembler,
            PipelineError::Rotation { .. } => Stage::OutputRotator,
        }
    }

    /// The failure in words: the stage and the chunk or step concerned.
    pub fn describe(&self) -> (text: String)
        ensures
            text@ == description(*self),
    {
        match self {
            PipelineError::Source => String::from_str("source"),
            PipelineError::ChunkIo { index } => {
                let name = part_name(*index);
                String::from_str("chunker: ").concat(name.as_str())
            },
            PipelineError::WorkerPool => String::from_str("compressor: worker pool"),
            PipelineError::Compression { index } => {
                let name = part_name(*index);
                String::from_str("compressor: ").concat(name.as_str())
            },
            PipelineError::Reassembly => String::from_str("reassembler"),
            PipelineError::Rotation { step } => {
                let name = match step {
                    RotationStep::Backup => "backup",
                    RotationStep::Promote => "promote",
                    RotationStep::RemoveAssembly => "remove-assembly",
                    RotationStep::RemoveBackup => "remove-backup",
                };
                String::from_str("rotator: ").concat(name)
            },
        }
    }
}

} // verus!
