//! Errors of the compiler and of the recognizers.

use vstd::prelude::*;

use crate::schema::{DiagnosticLocation, SchemaPointer};

verus! {

/// The compilation stage at which an error arose.
#[derive(Clone, Copy, Debug, PartialEq, Eq, Structural)]
pub enum CompileStage {
    Parse,
    SchemaIndex,
    ReferenceResolution,
    Normalization,
    Lowering,
    GrammarReduction,
    SccAnalysis,
    RegularCertification,
    NfaConstruction,
    DfaDeterminization,
    VocabularyProjection,
    ResidualGrammar,
    TerminalCompilation,
    LrConstruction,
    LalrMerge,
    LalrTable,
    EarleyPreparation,
    LeoPreparation,
}

/// A bounded resource of a running recognizer or guide.
#[derive(Clone, Copy, Debug, PartialEq, Eq, Structural)]
pub enum RuntimeResource {
    InputBytes,
    ParseStack,
    ChartColumns,
    ItemsPerColumn,
    TotalItems,
    ActiveScans,
    LeoItems,
    CheckpointHistory,
    MaskTraversal,
    CommittedTokens,
}

/// Errors of recognizers and guides.
#[derive(Clone, Debug, PartialEq, Eq)]
pub enum RuntimeError {
    RejectedByte { position: u32, byte: u8 },
    ResourceLimitExceeded { resource: RuntimeResource, observed: usize, limit: usize },
    InvalidCheckpoint { expected_generation: u64, found_generation: u64 },
    InternalInvariant { message: &'static str },
    GuideFinished,
    EosNotAccepting,
    UnknownTokenId { token_id: u32 },
    TokenNotAllowed { token_id: u32 },
    RollbackUnavailable { requested: usize, available: usize },
    StateIdUnavailable,
    AllocationFailed { resource: RuntimeResource },
}

/// Errors of the schema compiler.
#[derive(Debug)]
pub enum CompileError {
    InvalidJson { message: String },
    DuplicateSchemaKey { location: DiagnosticLocation, key: String },
    UnsupportedDialect { found: String },
    InvalidKeywordValue { location: DiagnosticLocation, keyword: String, reason: String },
    UnsupportedKeyword { location: DiagnosticLocation, keyword: String },
    UnsupportedCombination { location: DiagnosticLocation, reason: String },
    RemoteReferenceUnsupported { location: DiagnosticLocation, reference: String },
    ReferenceNotFound { location: DiagnosticLocation, reference: String },
    InvalidJsonPointer { location: DiagnosticLocation, pointer: String, reason: String },
    ResourceLimitExceeded { stage: CompileStage, observed: usize, limit: usize },
    StructuralBackendRequired { location: DiagnosticLocation },
    BackendUnavailable { backend: &'static str, location: DiagnosticLocation, reason: String },
    IncompatibleCompiledFormat { found: u32, expected: u32 },
    AutomatonBuild { pointer: SchemaPointer, message: String },
    InternalInvariant { message: &'static str },
}

/// Errors of the library.
#[derive(Debug)]
pub enum Error {
    Compile(CompileError),
    IndexDfaError { message: String },
    DfaHasNoStartState,
    EOSTokenDisallowed,
    EmptyTokenDisallowed,
    AmbiguousTokenId { token_id: u32 },
    UnsupportedTokenizer { model: String, reason: String },
    UnableToLocateEosTokenId { model: String },
    UnsupportedByTokenProcessor,
    DecoderUnpackingFailed,
    ByteProcessorFailed,
    ByteFallbackProcessorFailed,
    RefRecursionLimitReached(usize),
    IncompatibleVocabulary { regex: String, error_state: u32, missing_tokens: Vec<String> },
}

impl Error {
    /// Whether references nested too deeply.
    pub fn is_recursion_limit(&self) -> (limited: bool)
        ensures
            limited == (self is RefRecursionLimitReached),
    {
        matches!(self, Error::RefRecursionLimitReached(_))
    }
}

/// Refuses an observed quantity above its limit.
pub fn enforce_compile_limit(stage: CompileStage, observed: usize, limit: usize) -> (result: Result<
    (),
    CompileError,
>)
    ensures
        result is Ok <==> observed <= limit,
        result matches Err(e) ==> e == (CompileError::ResourceLimitExceeded { stage, observed, limit }),
{
    if observed > limit {
        Err(CompileError::ResourceLimitExceeded { stage, observed, limit })
    } else {
        Ok(())
    }
}

/// Refuses an observed quantity above its limit.
pub fn enforce_runtime_limit(
    resource: RuntimeResource,
    observed: usize,
    limit: usize,
) -> (result: Result<(), RuntimeError>)
    ensures
        result is Ok <==> observed <= limit,
        result matches Err(e) ==> e == (RuntimeError::ResourceLimitExceeded {
            resource,
            observed,
            limit,
        }),
{
    if observed > limit {
        Err(RuntimeError::ResourceLimitExceeded { resource, observed, limit })
    } else {
        Ok(())
    }
}

/// Widens a count.
pub fn usize_to_u64(value: usize) -> (result: u64)
    ensures
        result == value,
{
    value as u64
}

/// Narrows a count to the width of an identifier.
pub fn to_u32(value: usize, stage: CompileStage) -> (result: Result<u32, CompileError>)
    ensures
        result is Ok <==> value <= u32::MAX,
        result matches Ok(id) ==> id == value,
        result matches Err(e) ==> e == (CompileError::ResourceLimitExceeded {
            stage,
            observed: value,
            limit: u32::MAX as usize,
        }),
{
    if value > u32::MAX as usize {
        Err(resource_error(stage, value, u32::MAX as usize))
    } else {
        Ok(value as u32)
    }
}

/// The error of a compilation resource above its limit.
pub fn resource_error(stage: CompileStage, observed: usize, limit: usize) -> (result: CompileError)
    ensures
        result == (CompileError::ResourceLimitExceeded { stage, observed, limit }),
{
    CompileError::ResourceLimitExceeded { stage, observed, limit }
}

} // verus!
