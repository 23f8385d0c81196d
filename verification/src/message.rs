//! The texts of errors.

use vstd::prelude::*;

use crate::error::{CompileError, CompileStage, Error, RuntimeError, RuntimeResource};
use crate::schema::{DiagnosticLocation, SchemaPointer};
use crate::text;

verus! {

/// A pointer as a fragment.
pub open spec fn pointer_text(pointer: SchemaPointer) -> Seq<char> {
    "#"@ + pointer.0@
}

/// A location as a fragment, with its keyword.
pub open spec fn location_text(location: DiagnosticLocation) -> Seq<char> {
    match location.keyword {
        Some(keyword) => pointer_text(location.pointer) + " keyword `"@ + keyword@ + "`"@,
        None => pointer_text(location.pointer),
    }
}

/// The name of a stage.
pub open spec fn stage_text(stage: CompileStage) -> Seq<char> {
    match stage {
        CompileStage::Parse => "Parse"@,
        CompileStage::SchemaIndex => "SchemaIndex"@,
        CompileStage::ReferenceResolution => "ReferenceResolution"@,
        CompileStage::Normalization => "Normalization"@,
        CompileStage::Lowering => "Lowering"@,
        CompileStage::GrammarReduction => "GrammarReduction"@,
        CompileStage::SccAnalysis => "SccAnalysis"@,
        CompileStage::RegularCertification => "RegularCertification"@,
        CompileStage::NfaConstruction => "NfaConstruction"@,
        CompileStage::DfaDeterminization => "DfaDeterminization"@,
        CompileStage::VocabularyProjection => "VocabularyProjection"@,
        CompileStage::ResidualGrammar => "ResidualGrammar"@,
        CompileStage::TerminalCompilation => "TerminalCompilation"@,
        CompileStage::LrConstruction => "LrConstruction"@,
        CompileStage::LalrMerge => "LalrMerge"@,
        CompileStage::LalrTable => "LalrTable"@,
        CompileStage::EarleyPreparation => "EarleyPreparation"@,
        CompileStage::LeoPreparation => "LeoPreparation"@,
    }
}

/// The name of a resource.
pub open spec fn resource_text(resource: RuntimeResource) -> Seq<char> {
    match resource {
        RuntimeResource::InputBytes => "InputBytes"@,
        RuntimeResource::ParseStack => "ParseStack"@,
        RuntimeResource::ChartColumns => "ChartColumns"@,
        RuntimeResource::ItemsPerColumn => "ItemsPerColumn"@,
        RuntimeResource::TotalItems => "TotalItems"@,
        RuntimeResource::ActiveScans => "ActiveScans"@,
        RuntimeResource::LeoItems => "LeoItems"@,
        RuntimeResource::CheckpointHistory => "CheckpointHistory"@,
        RuntimeResource::MaskTraversal => "MaskTraversal"@,
        RuntimeResource::CommittedTokens => "CommittedTokens"@,
    }
}

impl SchemaPointer {
    /// The pointer as a fragment.
    pub fn text(&self) -> (form: String)
        ensures
            form@ == pointer_text(*self),
    {
        let mut form = "#".to_owned();
        form.append(self.0.as_str());
        form
    }
}

impl DiagnosticLocation {
    /// The location as a fragment, with its keyword.
    pub fn text(&self) -> (form: String)
        ensures
            form@ == location_text(*self),
    {
        let mut form = self.pointer.text();
        if let Some(keyword) = &self.keyword {
            form.append(" keyword `");
            form.append(keyword.as_str());
            form.append("`");
        }
        form
    }
}

impl CompileStage {
    /// The name of the stage.
    pub fn name(&self) -> (name: &'static str)
        ensures
            name@ == stage_text(*self),
    {
        match self {
            CompileStage::Parse => "Parse",
            CompileStage::SchemaIndex => "SchemaIndex",
            CompileStage::ReferenceResolution => "ReferenceResolution",
            CompileStage::Normalization => "Normalization",
            CompileStage::Lowering => "Lowering",
            CompileStage::GrammarReduction => "GrammarReduction",
            CompileStage::SccAnalysis => "SccAnalysis",
            CompileStage::RegularCertification => "RegularCertification",
            CompileStage::NfaConstruction => "NfaConstruction",
            CompileStage::DfaDeterminization => "DfaDeterminization",
            CompileStage::VocabularyProjection => "VocabularyProjection",
            CompileStage::ResidualGrammar => "ResidualGrammar",
            CompileStage::TerminalCompilation => "TerminalCompilation",
            CompileStage::LrConstruction => "LrConstruction",
            CompileStage::LalrMerge => "LalrMerge",
            CompileStage::LalrTable => "LalrTable",
            CompileStage::EarleyPreparation => "EarleyPreparation",
            CompileStage::LeoPreparation => "LeoPreparation",
        }
    }
}

impl RuntimeResource {
    /// The name of the resource.
    pub fn name(&self) -> (name: &'static str)
        ensures
            name@ == resource_text(*self),
    {
        match self {
            RuntimeResource::InputBytes => "InputBytes",
            RuntimeResource::ParseStack => "ParseStack",
            RuntimeResource::ChartColumns => "ChartColumns",
            RuntimeResource::ItemsPerColumn => "ItemsPerColumn",
            RuntimeResource::TotalItems => "TotalItems",
            RuntimeResource::ActiveScans => "ActiveScans",
            RuntimeResource::LeoItems => "LeoItems",
            RuntimeResource::CheckpointHistory => "CheckpointHistory",
            RuntimeResource::MaskTraversal => "MaskTraversal",
            RuntimeResource::CommittedTokens => "CommittedTokens",
        }
    }
}

/// The text of an error of the compiler.
pub open spec fn compile_text(error: CompileError) -> Seq<char> {
    match error {
        CompileError::InvalidJson { message } => "invalid JSON: "@ + message@,
        CompileError::DuplicateSchemaKey { location, key } => "duplicate schema key `"@ + key@
            + "` at "@ + location_text(location),
        CompileError::UnsupportedDialect { found } => "unsupported dialect `"@ + found@ + "`"@,
        CompileError::InvalidKeywordValue { location, keyword, reason } => "invalid value for `"@
            + keyword@ + "` at "@ + location_text(location) + ": "@ + reason@,
        CompileError::UnsupportedKeyword { location, keyword } => "unsupported keyword `"@
            + keyword@ + "` at "@ + location_text(location),
        CompileError::UnsupportedCombination {
            location,
            reason,
        } => "unsupported keyword combination at "@ + location_text(location) + ": "@ + reason@,
        CompileError::RemoteReferenceUnsupported {
            location,
            reference,
        } => "remote reference is unsupported at "@ + location_text(location) + ": "@ + reference@,
        CompileError::ReferenceNotFound {
            location,
            reference,
        } => "reference target not found at "@ + location_text(location) + ": "@ + reference@,
        CompileError::InvalidJsonPointer {
            location,
            pointer,
            reason,
        } => "invalid JSON Pointer `"@ + pointer@ + "` at "@ + location_text(location) + ": "@
            + reason@,
        CompileError::ResourceLimitExceeded {
            stage,
            observed,
            limit,
        } => "resource limit exceeded during "@ + stage_text(stage) + ": "@ + text::digits(
            observed as nat,
        ) + " > "@ + text::digits(limit as nat),
        CompileError::StructuralBackendRequired {
            location,
        } => "a structural backend is required at "@ + location_text(location),
        CompileError::BackendUnavailable { backend, location, reason } => "backend `"@ + backend@
            + "` is unavailable at "@ + location_text(location) + ": "@ + reason@,
        CompileError::IncompatibleCompiledFormat {
            found,
            expected,
        } => "compiled format version "@ + text::digits(found as nat)
            + " is unsupported; expected "@ + text::digits(expected as nat),
        CompileError::AutomatonBuild {
            pointer,
            message,
        } => "regular automaton construction failed at "@ + pointer_text(pointer) + ": "@
            + message@,
        CompileError::InternalInvariant { message } => "internal invariant failed: "@ + message@,
    }
}

impl CompileError {
    /// The text of the error.
    pub fn message(&self) -> (message: String)
        ensures
            message@ == compile_text(*self),
    {
        let mut out = String::new();
        match self {
            CompileError::InvalidJson { message } => {
                out.append("invalid JSON: ");
                out.append(message.as_str());
            },
            CompileError::DuplicateSchemaKey { location, key } => {
                out.append("duplicate schema key `");
                out.append(key.as_str());
                out.append("` at ");
                out.append(location.text().as_str());
            },
            CompileError::UnsupportedDialect { found } => {
                out.append("unsupported dialect `");
                out.append(found.as_str());
                out.append("`");
            },
            CompileError::InvalidKeywordValue { location, keyword, reason } => {
                out.append("invalid value for `");
                out.append(keyword.as_str());
                out.append("` at ");
                out.append(location.text().as_str());
                out.append(": ");
                out.append(reason.as_str());
            },
            CompileError::UnsupportedKeyword { location, keyword } => {
                out.append("unsupported keyword `");
                out.append(keyword.as_str());
                out.append("` at ");
                out.append(location.text().as_str());
            },
            CompileError::UnsupportedCombination { location, reason } => {
                out.append("unsupported keyword combination at ");
                out.append(location.text().as_str());
                out.append(": ");
                out.append(reason.as_str());
            },
            CompileError::RemoteReferenceUnsupported { location, reference } => {
                out.append("remote reference is unsupported at ");
                out.append(location.text().as_str());
                out.append(": ");
                out.append(reference.as_str());
            },
            CompileError::ReferenceNotFound { location, reference } => {
                out.append("reference target not found at ");
                out.append(location.text().as_str());
                out.append(": ");
                out.append(reference.as_str());
            },
            CompileError::InvalidJsonPointer { location, pointer, reason } => {
                out.append("invalid JSON Pointer `");
                out.append(pointer.as_str());
                out.append("` at ");
                out.append(location.text().as_str());
                out.append(": ");
                out.append(reason.as_str());
            },
            CompileError::ResourceLimitExceeded { stage, observed, limit } => {
                out.append("resource limit exceeded during ");
                out.append(stage.name());
                out.append(": ");
                out.append(text::decimal(*observed).as_str());
                out.append(" > ");
                out.append(text::decimal(*limit).as_str());
            },
            CompileError::StructuralBackendRequired { location } => {
                out.append("a structural backend is required at ");
                out.append(location.text().as_str());
            },
            CompileError::BackendUnavailable { backend, location, reason } => {
                out.append("backend `");
                out.append(backend);
                out.append("` is unavailable at ");
                out.append(location.text().as_str());
                out.append(": ");
                out.append(reason.as_str());
            },
            CompileError::IncompatibleCompiledFormat { found, expected } => {
                out.append("compiled format version ");
                out.append(text::decimal(*found as usize).as_str());
                out.append(" is unsupported; expected ");
                out.append(text::decimal(*expected as usize).as_str());
            },
            CompileError::AutomatonBuild { pointer, message } => {
                out.append("regular automaton construction failed at ");
                out.append(pointer.text().as_str());
                out.append(": ");
                out.append(message.as_str());
            },
            CompileError::InternalInvariant { message } => {
                out.append("internal invariant failed: ");
                out.append(message);
            },
        }
        assert(out@ =~= compile_text(*self));
        out
    }
}

/// The text of an error of a recognizer or a guide.
pub open spec fn runtime_text(error: RuntimeError) -> Seq<char> {
    match error {
        RuntimeError::RejectedByte { position, byte } => "byte 0x"@.push(
            text::hex_digit(byte as int / 16),
        ).push(text::hex_digit(byte as int % 16)) + " is rejected at position "@ + text::digits(
            position as nat,
        ),
        RuntimeError::ResourceLimitExceeded {
            resource,
            observed,
            limit,
        } => "runtime limit exceeded for "@ + resource_text(resource) + ": "@ + text::digits(
            observed as nat,
        ) + " > "@ + text::digits(limit as nat),
        RuntimeError::InvalidCheckpoint {
            expected_generation,
            found_generation,
        } => "checkpoint generation "@ + text::digits(found_generation as nat)
            + " does not match "@ + text::digits(expected_generation as nat),
        RuntimeError::InternalInvariant { message } => "runtime invariant failed: "@ + message@,
        RuntimeError::GuideFinished => "the guide is finished"@,
        RuntimeError::EosNotAccepting => "the end of the text is not accepted here"@,
        RuntimeError::UnknownTokenId { token_id } => "token ID "@ + text::digits(token_id as nat)
            + " is unknown"@,
        RuntimeError::TokenNotAllowed { token_id } => "token ID "@ + text::digits(token_id as nat)
            + " is not allowed"@,
        RuntimeError::RollbackUnavailable {
            requested,
            available,
        } => "cannot roll back "@ + text::digits(requested as nat) + " of "@ + text::digits(
            available as nat,
        ) + " tokens"@,
        RuntimeError::StateIdUnavailable => "the backend has no state IDs"@,
        RuntimeError::AllocationFailed { resource } => "allocation failed for "@ + resource_text(
            resource,
        ),
    }
}

impl RuntimeError {
    /// The text of the error.
    pub fn message(&self) -> (message: String)
        ensures
            message@ == runtime_text(*self),
    {
        let mut out = String::new();
        match self {
            RuntimeError::RejectedByte { position, byte } => {
                out.append("byte 0x");
                text::push_hex(&mut out, *byte);
                out.append(" is rejected at position ");
                out.append(text::decimal(*position as usize).as_str());
            },
            RuntimeError::ResourceLimitExceeded { resource, observed, limit } => {
                out.append("runtime limit exceeded for ");
                out.append(resource.name());
                out.append(": ");
                out.append(text::decimal(*observed).as_str());
                out.append(" > ");
                out.append(text::decimal(*limit).as_str());
            },
            RuntimeError::InvalidCheckpoint { expected_generation, found_generation } => {
                out.append("checkpoint generation ");
                out.append(text::long_decimal(*found_generation).as_str());
                out.append(" does not match ");
                out.append(text::long_decimal(*expected_generation).as_str());
            },
            RuntimeError::InternalInvariant { message } => {
                out.append("runtime invariant failed: ");
                out.append(message);
            },
            RuntimeError::GuideFinished => {
                out.append("the guide is finished");
            },
            RuntimeError::EosNotAccepting => {
                out.append("the end of the text is not accepted here");
            },
            RuntimeError::UnknownTokenId { token_id } => {
                out.append("token ID ");
                out.append(text::decimal(*token_id as usize).as_str());
                out.append(" is unknown");
            },
            RuntimeError::TokenNotAllowed { token_id } => {
                out.append("token ID ");
                out.append(text::decimal(*token_id as usize).as_str());
                out.append(" is not allowed");
            },
            RuntimeError::RollbackUnavailable { requested, available } => {
                out.append("cannot roll back ");
                out.append(text::decimal(*requested).as_str());
                out.append(" of ");
                out.append(text::decimal(*available).as_str());
                out.append(" tokens");
            },
            RuntimeError::StateIdUnavailable => {
                out.append("the backend has no state IDs");
            },
            RuntimeError::AllocationFailed { resource } => {
                out.append("allocation failed for ");
                out.append(resource.name());
            },
        }
        assert(out@ =~= runtime_text(*self));
        out
    }
}

/// Quoted texts with commas between them: those of the first `n`.
pub open spec fn quoted_list(list: Seq<String>, n: nat) -> Seq<char>
    decreases n,
{
    if n == 0 || n > list.len() {
        Seq::empty()
    } else {
        quoted_list(list, (n - 1) as nat) + (if n == 1 {
            Seq::empty()
        } else {
            ", "@
        }) + text::quoted(list[n - 1]@)
    }
}

/// The text of an error.
pub open spec fn error_text(error: Error) -> Seq<char> {
    match error {
        Error::Compile(cause) => compile_text(cause),
        Error::IndexDfaError { message } => "Failed to build DFA "@ + message@,
        Error::DfaHasNoStartState =>
            "Index failed since anchored universal start state doesn't exist"@,
        Error::EOSTokenDisallowed => "EOS token should not be inserted into Vocabulary"@,
        Error::EmptyTokenDisallowed => "empty tokens are not allowed in Vocabulary"@,
        Error::AmbiguousTokenId { token_id } => "token ID "@ + text::digits(token_id as nat)
            + " maps to byte strings that reach different DFA states"@,
        Error::UnsupportedTokenizer { model, reason } => "Unsupported tokenizer for "@ + model@
            + ": "@ + reason@
            + ", please open an issue with the full error message: https://github.com/dhanavanthesh/oc-earley/issues"@,
        Error::UnableToLocateEosTokenId { model } => "Unable to locate EOS token for "@ + model@,
        Error::UnsupportedByTokenProcessor => "Tokenizer is not supported by token processor"@,
        Error::DecoderUnpackingFailed => "Decoder unpacking failed for token processor"@,
        Error::ByteProcessorFailed => "Token processing failed for byte level processor"@,
        Error::ByteFallbackProcessorFailed =>
            "Token processing failed for byte fallback level processor"@,
        Error::RefRecursionLimitReached(limit) => "Ref recusion limit reached: "@ + text::digits(
            limit as nat,
        ),
        Error::IncompatibleVocabulary {
            regex,
            error_state,
            missing_tokens,
        } => "The vocabulary provided is incompatible with the regex '"@ + regex@
            + "'. Found no transitions from state "@ + text::digits(error_state as nat)
            + ", missing tokens corresponding to at least one of the following characters: ["@
            + quoted_list(missing_tokens@, missing_tokens@.len())
            + "]. This may be due to an encoding issue in your vocabulary."@,
    }
}

/// Quotes texts, with commas between them.
fn quote_list(list: &Vec<String>) -> (form: String)
    ensures
        form@ == quoted_list(list@, list@.len()),
{
    let mut form = String::new();
    let mut index: usize = 0;
    assert(form@ =~= Seq::<char>::empty());
    while index < list.len()
        invariant
            index <= list@.len(),
            form@ == quoted_list(list@, index as nat),
        decreases list@.len() - index,
    {
        let ghost before = form@;
        if index != 0 {
            form.append(", ");
        }
        form.append(text::quote(list[index].as_str()).as_str());
        assert(form@ =~= quoted_list(list@, (index + 1) as nat));
        index += 1;
    }
    form
}

impl Error {
    /// The text of the error.
    pub fn message(&self) -> (message: String)
        ensures
            message@ == error_text(*self),
    {
        let mut out = String::new();
        match self {
            Error::Compile(cause) => {
                return cause.message();
            },
            Error::IndexDfaError { message } => {
                out.append("Failed to build DFA ");
                out.append(message.as_str());
            },
            Error::DfaHasNoStartState => {
                out.append("Index failed since anchored universal start state doesn't exist");
            },
            Error::EOSTokenDisallowed => {
                out.append("EOS token should not be inserted into Vocabulary");
            },
            Error::EmptyTokenDisallowed => {
                out.append("empty tokens are not allowed in Vocabulary");
            },
            Error::AmbiguousTokenId { token_id } => {
                out.append("token ID ");
                out.append(text::decimal(*token_id as usize).as_str());
                out.append(" maps to byte strings that reach different DFA states");
            },
            Error::UnsupportedTokenizer { model, reason } => {
                out.append("Unsupported tokenizer for ");
                out.append(model.as_str());
                out.append(": ");
                out.append(reason.as_str());
                out.append(
                    ", please open an issue with the full error message: https://github.com/dhanavanthesh/oc-earley/issues",
                );
            },
            Error::UnableToLocateEosTokenId { model } => {
                out.append("Unable to locate EOS token for ");
                out.append(model.as_str());
            },
            Error::UnsupportedByTokenProcessor => {
                out.append("Tokenizer is not supported by token processor");
            },
            Error::DecoderUnpackingFailed => {
                out.append("Decoder unpacking failed for token processor");
            },
            Error::ByteProcessorFailed => {
                out.append("Token processing failed for byte level processor");
            },
            Error::ByteFallbackProcessorFailed => {
                out.append("Token processing failed for byte fallback level processor");
            },
            Error::RefRecursionLimitReached(limit) => {
                out.append("Ref recusion limit reached: ");
                out.append(text::decimal(*limit).as_str());
            },
            Error::IncompatibleVocabulary { regex, error_state, missing_tokens } => {
                out.append("The vocabulary provided is incompatible with the regex '");
                out.append(regex.as_str());
                out.append("'. Found no transitions from state ");
                out.append(text::decimal(*error_state as usize).as_str());
                out.append(
                    ", missing tokens corresponding to at least one of the following characters: [",
                );
                out.append(quote_list(missing_tokens).as_str());
                out.append("]. This may be due to an encoding issue in your vocabulary.");
            },
        }
        assert(out@ =~= error_text(*self));
        out
    }
}

} // verus!
