//! What the errors of schemas say, as mathematical values.

use vstd::prelude::*;

use crate::error::{CompileError, CompileStage};
use crate::grammar;
use crate::schema::DiagnosticLocation;

verus! {

/// What an error about a schema says. A pointer names the place.
pub enum Fault {
    Value { pointer: Seq<char>, keyword: Seq<char>, reason: Seq<char> },
    Keyword { pointer: Seq<char>, keyword: Seq<char> },
    Combination { pointer: Seq<char>, reason: Seq<char> },
    Dialect { found: Seq<char> },
    Remote { pointer: Seq<char>, reference: Seq<char> },
    Missing { pointer: Seq<char>, reference: Seq<char> },
    Fragment { pointer: Seq<char>, reference: Seq<char>, reason: Seq<char> },
    Limit { stage: CompileStage, observed: nat, limit: nat },
    Internal { message: Seq<char> },
}

/// Whether a location is a pointer, with or without a keyword.
pub open spec fn stands(
    location: DiagnosticLocation,
    pointer: Seq<char>,
    keyword: Option<Seq<char>>,
) -> bool {
    &&& location.resource.0 == 0
    &&& location.pointer.0@ == pointer
    &&& grammar::optional_view(location.keyword) == keyword
}

/// Whether an error says a fault.
pub open spec fn says(error: CompileError, fault: Fault) -> bool {
    match fault {
        Fault::Value { pointer, keyword, reason } => error matches CompileError::InvalidKeywordValue {
            location,
            keyword: found,
            reason: why,
        } && stands(location, pointer, Some(keyword)) && found@ == keyword && why@ == reason,
        Fault::Keyword { pointer, keyword } => error matches CompileError::UnsupportedKeyword {
            location,
            keyword: found,
        } && stands(location, pointer, Some(keyword)) && found@ == keyword,
        Fault::Combination { pointer, reason } => error matches CompileError::UnsupportedCombination {
            location,
            reason: why,
        } && stands(location, pointer, None) && why@ == reason,
        Fault::Dialect { found } => error matches CompileError::UnsupportedDialect { found: dialect }
            && dialect@ == found,
        Fault::Remote { pointer, reference } => error matches CompileError::RemoteReferenceUnsupported {
            location,
            reference: text,
        } && stands(location, pointer, Some("$ref"@)) && text@ == reference,
        Fault::Missing { pointer, reference } => error matches CompileError::ReferenceNotFound {
            location,
            reference: text,
        } && stands(location, pointer, Some("$ref"@)) && text@ == reference,
        Fault::Fragment {
            pointer,
            reference,
            reason,
        } => error matches CompileError::InvalidJsonPointer {
            location,
            pointer: text,
            reason: why,
        } && stands(location, pointer, Some("$ref"@)) && text@ == reference && why@ == reason,
        Fault::Limit { stage, observed, limit } => error matches CompileError::ResourceLimitExceeded {
            stage: at,
            observed: seen,
            limit: most,
        } && at == stage && seen == observed && most == limit,
        Fault::Internal { message } => error matches CompileError::InternalInvariant { message: text }
            && text@ == message,
    }
}

} // verus!
