//! Brings schemas into their normal form.

use vstd::prelude::*;

use crate::count;
use crate::error::{enforce_compile_limit, CompileError, CompileStage};
use crate::fault;
use crate::fault::Fault;
use crate::grammar;
use crate::json;
use crate::json::{canonical_value, JsonMember, JsonValue};
use crate::order;
use crate::places;
use crate::places::{index_schema_locations, Place, SchemaPlaces};
use crate::pointer;
use crate::pointer::{keyword_location, pointer_join, resolve_local_pointer};
use crate::schema;
use crate::schema::{
    AdditionalProperties,
    ArrayConstraints,
    CanonicalValue,
    CompileLimits,
    CompileOptions,
    DiagnosticLocation,
    JsonType,
    NormalizedSchema,
    ObjectConstraints,
    Property,
    Provenance,
    ReferenceEdge,
    ResourceId,
    SchemaArena,
    SchemaId,
    SchemaNode,
    SchemaPointer,
    StringConstraints,
};
use crate::text;

verus! {

/// What is asked of the properties that are not named.
pub enum Additional {
    Forbidden,
    Unconstrained,
    Schema(int),
}

/// A schema in its normal form, as a mathematical value.
pub enum Shape {
    Any,
    Never,
    Null,
    Boolean,
    Text { least: nat, most: Option<nat> },
    Number,
    Integer,
    Const(Seq<char>),
    Enum(Set<Seq<char>>),
    Array { prefix: Seq<int>, items: Option<int>, least: nat, most: Option<nat> },
    Object {
        properties: Seq<(Seq<char>, int)>,
        required: Set<Seq<char>>,
        additional: Additional,
    },
    Union(Seq<int>),
    Ref(int),
}

/// The numbers of identifiers.
pub open spec fn numbers(ids: Seq<SchemaId>) -> Seq<int> {
    ids.map_values(|id: SchemaId| id.0 as int)
}

/// The number of an optional identifier.
pub open spec fn optional_number(id: Option<SchemaId>) -> Option<int> {
    match id {
        Some(id) => Some(id.0 as int),
        None => None,
    }
}

/// The value of an optional count.
pub open spec fn optional_count(count: Option<usize>) -> Option<nat> {
    match count {
        Some(count) => Some(count as nat),
        None => None,
    }
}

/// The names and schemas of properties.
pub open spec fn entries(properties: Seq<Property>) -> Seq<(Seq<char>, int)> {
    properties.map_values(|property: Property| (property.name@, property.schema.0 as int))
}

/// The texts of canonical values.
pub open spec fn forms(values: Seq<CanonicalValue>) -> Seq<Seq<char>> {
    values.map_values(|value: CanonicalValue| value.json@)
}

/// What is asked of other properties.
pub open spec fn additional_view(additional: AdditionalProperties) -> Additional {
    match additional {
        AdditionalProperties::Forbidden => Additional::Forbidden,
        AdditionalProperties::Unconstrained => Additional::Unconstrained,
        AdditionalProperties::Schema(id) => Additional::Schema(id.0 as int),
    }
}

/// Whether a normal form is a shape. Values and required names come in ascending order.
pub open spec fn shows(kind: NormalizedSchema, shape: Shape) -> bool {
    match shape {
        Shape::Any => kind is Any,
        Shape::Never => kind is Never,
        Shape::Null => kind is Null,
        Shape::Boolean => kind is Boolean,
        Shape::Text { least, most } => kind matches NormalizedSchema::String(string)
            && string.min_length == least && optional_count(string.max_length) == most,
        Shape::Number => kind is Number,
        Shape::Integer => kind is Integer,
        Shape::Const(form) => kind matches NormalizedSchema::Const(value) && value.json@ == form,
        Shape::Enum(set) => kind matches NormalizedSchema::Enum(values) && text::ascending(
            forms(values@),
        ) && forms(values@).to_set() == set,
        Shape::Array { prefix, items, least, most } => kind matches NormalizedSchema::Array(array)
            && numbers(array.prefix_items@) == prefix && optional_number(array.items) == items
            && array.min_items == least && optional_count(array.max_items) == most,
        Shape::Object {
            properties,
            required,
            additional,
        } => kind matches NormalizedSchema::Object(object) && entries(object.properties@)
            == properties && text::ascending(text::texts(object.required@)) && text::texts(
            object.required@,
        ).to_set() == required && additional_view(object.additional_properties) == additional,
        Shape::Union(branches) => kind matches NormalizedSchema::Union(ids) && numbers(ids@)
            == branches,
        Shape::Ref(target) => kind matches NormalizedSchema::Ref(id) && id.0 == target,
    }
}

/// Whether a result is as stated.
pub open spec fn yields(
    result: Result<NormalizedSchema, CompileError>,
    expected: Result<Shape, Fault>,
) -> bool {
    match expected {
        Ok(shape) => result matches Ok(kind) && shows(kind, shape),
        Err(fault) => result matches Err(error) && fault::says(error, fault),
    }
}

/// Whether a check ended as stated.
pub open spec fn checked(result: Result<(), CompileError>, expected: Option<Fault>) -> bool {
    match expected {
        None => result is Ok,
        Some(fault) => result matches Err(error) && fault::says(error, fault),
    }
}

/// The first of two faults.
pub open spec fn first_of(first: Option<Fault>, second: Option<Fault>) -> Option<Fault> {
    match first {
        Some(fault) => Some(fault),
        None => second,
    }
}

/// Whether a keyword is an annotation.
pub open spec fn spec_annotation(keyword: Seq<char>) -> bool {
    ||| keyword == "$schema"@
    ||| keyword == "$id"@
    ||| keyword == "$defs"@
    ||| keyword == "$comment"@
    ||| keyword == "title"@
    ||| keyword == "description"@
    ||| keyword == "default"@
    ||| keyword == "examples"@
    ||| keyword == "deprecated"@
    ||| keyword == "readOnly"@
    ||| keyword == "writeOnly"@
}

/// Whether a keyword is known.
pub open spec fn spec_supported(keyword: Seq<char>) -> bool {
    ||| spec_annotation(keyword)
    ||| keyword == "$ref"@
    ||| keyword == "type"@
    ||| keyword == "const"@
    ||| keyword == "enum"@
    ||| keyword == "properties"@
    ||| keyword == "required"@
    ||| keyword == "additionalProperties"@
    ||| keyword == "items"@
    ||| keyword == "prefixItems"@
    ||| keyword == "minItems"@
    ||| keyword == "maxItems"@
    ||| keyword == "minLength"@
    ||| keyword == "maxLength"@
    ||| keyword == "allOf"@
    ||| keyword == "anyOf"@
    ||| keyword == "oneOf"@
}

/// Whether there is a keyword about objects.
pub open spec fn object_keywords(members: Seq<JsonMember>) -> bool {
    ||| json::has(members, "properties"@)
    ||| json::has(members, "required"@)
    ||| json::has(members, "additionalProperties"@)
}

/// Whether there is a keyword about arrays.
pub open spec fn array_keywords(members: Seq<JsonMember>) -> bool {
    ||| json::has(members, "items"@)
    ||| json::has(members, "prefixItems"@)
    ||| json::has(members, "minItems"@)
    ||| json::has(members, "maxItems"@)
}

/// Whether there is a keyword about the length of strings.
pub open spec fn string_keywords(members: Seq<JsonMember>) -> bool {
    json::has(members, "minLength"@) || json::has(members, "maxLength"@)
}

/// Whether there is a keyword about objects, arrays or the length of strings.
pub open spec fn structural_keywords(members: Seq<JsonMember>) -> bool {
    object_keywords(members) || array_keywords(members) || string_keywords(members)
}

/// One where a keyword is there.
pub open spec fn presence(members: Seq<JsonMember>, keyword: Seq<char>) -> int {
    if json::has(members, keyword) {
        1
    } else {
        0
    }
}

/// The number of keywords that say which values conform.
pub open spec fn semantic_count(members: Seq<JsonMember>) -> int {
    presence(members, "$ref"@) + presence(members, "const"@) + presence(members, "enum"@)
        + presence(members, "type"@) + presence(members, "allOf"@) + presence(members, "anyOf"@)
        + presence(members, "oneOf"@)
}

/// The fault of a keyword that is not known: that of the first.
pub open spec fn keyword_fault(at: Seq<char>, members: Seq<JsonMember>) -> Option<Fault>
    decreases members.len(),
{
    if members.len() == 0 {
        None
    } else if !spec_supported(members[0].key@) {
        Some(Fault::Keyword { pointer: at, keyword: members[0].key@ })
    } else {
        keyword_fault(at, members.skip(1))
    }
}

/// The fault of an entry that is no schema: that of the first.
pub open spec fn entry_fault(
    below: Seq<char>,
    keyword: Seq<char>,
    reason: Seq<char>,
    members: Seq<JsonMember>,
) -> Option<Fault>
    decreases members.len(),
{
    if members.len() == 0 {
        None
    } else if !json::spec_is_schema(members[0].value) {
        Some(
            Fault::Value {
                pointer: pointer::joined(below, members[0].key@),
                keyword,
                reason,
            },
        )
    } else {
        entry_fault(below, keyword, reason, members.skip(1))
    }
}

/// The fault of a keyword that has to be an object of schemas.
pub open spec fn named_fault(
    at: Seq<char>,
    members: Seq<JsonMember>,
    keyword: Seq<char>,
    no_object: Seq<char>,
    no_schema: Seq<char>,
) -> Option<Fault> {
    match json::find(members, keyword) {
        None => None,
        Some(JsonValue::Object(list)) => entry_fault(
            pointer::joined(at, keyword),
            keyword,
            no_schema,
            list@,
        ),
        Some(_) => Some(Fault::Value { pointer: at, keyword, reason: no_object }),
    }
}

/// The fault of a keyword that has to be a schema.
pub open spec fn single_fault(
    at: Seq<char>,
    members: Seq<JsonMember>,
    keyword: Seq<char>,
) -> Option<Fault> {
    match json::find(members, keyword) {
        Some(value) => if json::spec_is_schema(value) {
            None
        } else {
            Some(
                Fault::Value {
                    pointer: at,
                    keyword,
                    reason: "value must be a boolean or object schema"@,
                },
            )
        },
        None => None,
    }
}

/// Whether all items are schemas.
pub open spec fn all_schemas(values: Seq<JsonValue>) -> bool {
    forall|i: int| 0 <= i < values.len() ==> json::spec_is_schema(#[trigger] values[i])
}

/// The fault of a keyword that has to be an array of schemas.
pub open spec fn list_fault(
    at: Seq<char>,
    members: Seq<JsonMember>,
    keyword: Seq<char>,
    filled: bool,
) -> Option<Fault> {
    match json::find(members, keyword) {
        None => None,
        Some(JsonValue::Array(values)) => if values@.len() == 0 && filled {
            Some(Fault::Value { pointer: at, keyword, reason: "array must not be empty"@ })
        } else if !all_schemas(values@) {
            Some(
                Fault::Value {
                    pointer: at,
                    keyword,
                    reason: "every entry must be a boolean or object schema"@,
                },
            )
        } else {
            None
        },
        Some(_) => Some(Fault::Value { pointer: at, keyword, reason: "value must be an array"@ }),
    }
}

/// The fault of a keyword that has to hold schemas.
pub open spec fn container_fault(at: Seq<char>, members: Seq<JsonMember>) -> Option<Fault> {
    first_of(
        named_fault(
            at,
            members,
            "$defs"@,
            "$defs must be an object"@,
            "definition must be a boolean or object schema"@,
        ),
        first_of(
            named_fault(
                at,
                members,
                "properties"@,
                "properties must be an object"@,
                "property value must be a boolean or object schema"@,
            ),
            first_of(
                single_fault(at, members, "additionalProperties"@),
                first_of(
                    single_fault(at, members, "items"@),
                    first_of(
                        list_fault(at, members, "prefixItems"@, false),
                        first_of(
                            list_fault(at, members, "allOf"@, true),
                            first_of(
                                list_fault(at, members, "anyOf"@, true),
                                list_fault(at, members, "oneOf"@, true),
                            ),
                        ),
                    ),
                ),
            ),
        ),
    )
}

/// The error of a keyword's value.
fn invalid_value(at: &SchemaPointer, keyword: &str, reason: &str) -> (error: CompileError)
    ensures
        fault::says(
            error,
            Fault::Value { pointer: at.0@, keyword: keyword@, reason: reason@ },
        ),
{
    CompileError::InvalidKeywordValue {
        location: keyword_location(at, keyword),
        keyword: keyword.to_owned(),
        reason: reason.to_owned(),
    }
}

/// The error of keywords that do not go together.
fn unsupported_combination(at: &SchemaPointer, reason: &str) -> (error: CompileError)
    ensures
        fault::says(error, Fault::Combination { pointer: at.0@, reason: reason@ }),
{
    CompileError::UnsupportedCombination {
        location: DiagnosticLocation { resource: ResourceId(0), pointer: at.clone(), keyword: None },
        reason: reason.to_owned(),
    }
}

/// Whether a keyword is an annotation.
fn is_annotation(keyword: &str) -> (annotation: bool)
    ensures
        annotation == spec_annotation(keyword@),
{
    text::same_text(keyword, "$schema") || text::same_text(keyword, "$id") || text::same_text(
        keyword,
        "$defs",
    ) || text::same_text(keyword, "$comment") || text::same_text(keyword, "title")
        || text::same_text(keyword, "description") || text::same_text(keyword, "default")
        || text::same_text(keyword, "examples") || text::same_text(keyword, "deprecated")
        || text::same_text(keyword, "readOnly") || text::same_text(keyword, "writeOnly")
}

/// Whether a keyword is known.
fn is_supported(keyword: &str) -> (supported: bool)
    ensures
        supported == spec_supported(keyword@),
{
    is_annotation(keyword) || text::same_text(keyword, "$ref") || text::same_text(keyword, "type")
        || text::same_text(keyword, "const") || text::same_text(keyword, "enum")
        || text::same_text(keyword, "properties") || text::same_text(keyword, "required")
        || text::same_text(keyword, "additionalProperties") || text::same_text(keyword, "items")
        || text::same_text(keyword, "prefixItems") || text::same_text(keyword, "minItems")
        || text::same_text(keyword, "maxItems") || text::same_text(keyword, "minLength")
        || text::same_text(keyword, "maxLength") || text::same_text(keyword, "allOf")
        || text::same_text(keyword, "anyOf") || text::same_text(keyword, "oneOf")
}

/// Whether there is a keyword about objects.
fn has_object_keywords(members: &Vec<JsonMember>) -> (found: bool)
    ensures
        found == object_keywords(members@),
{
    json::contains(members, "properties") || json::contains(members, "required") || json::contains(
        members,
        "additionalProperties",
    )
}

/// Whether there is a keyword about arrays.
fn has_array_keywords(members: &Vec<JsonMember>) -> (found: bool)
    ensures
        found == array_keywords(members@),
{
    json::contains(members, "items") || json::contains(members, "prefixItems") || json::contains(
        members,
        "minItems",
    ) || json::contains(members, "maxItems")
}

/// Whether there is a keyword about objects or arrays.
fn has_structural_keywords(members: &Vec<JsonMember>) -> (found: bool)
    ensures
        found == structural_keywords(members@),
{
    has_object_keywords(members) || has_array_keywords(members) || json::contains(
        members,
        "minLength",
    ) || json::contains(members, "maxLength")
}

/// One where a keyword is there.
fn count_keyword(members: &Vec<JsonMember>, keyword: &str) -> (count: usize)
    ensures
        count == presence(members@, keyword@),
        count <= 1,
{
    if json::contains(members, keyword) {
        1
    } else {
        0
    }
}

/// The number of keywords that say which values conform.
fn count_semantic(members: &Vec<JsonMember>) -> (count: usize)
    ensures
        count == semantic_count(members@),
{
    count_keyword(members, "$ref") + count_keyword(members, "const") + count_keyword(
        members,
        "enum",
    ) + count_keyword(members, "type") + count_keyword(members, "allOf") + count_keyword(
        members,
        "anyOf",
    ) + count_keyword(members, "oneOf")
}

/// Refuses keywords that are not known.
fn validate_keywords(at: &SchemaPointer, members: &Vec<JsonMember>) -> (result: Result<
    (),
    CompileError,
>)
    ensures
        checked(result, keyword_fault(at.0@, members@)),
{
    let mut index: usize = 0;
    assert(members@.skip(0) =~= members@);
    while index < members.len()
        invariant
            index <= members@.len(),
            keyword_fault(at.0@, members@) == keyword_fault(at.0@, members@.skip(index as int)),
        decreases members@.len() - index,
    {
        let ghost rest = members@.skip(index as int);
        assert(rest[0] == members@[index as int]);
        assert(rest.skip(1) =~= members@.skip(index + 1));
        let keyword = &members[index].key;
        if !is_supported(keyword.as_str()) {
            return Err(
                CompileError::UnsupportedKeyword {
                    location: keyword_location(at, keyword.as_str()),
                    keyword: keyword.clone(),
                },
            );
        }
        index += 1;
    }
    Ok(())
}

/// Checks a keyword that has to be an object of schemas.
fn check_named(
    at: &SchemaPointer,
    members: &Vec<JsonMember>,
    keyword: &str,
    no_object: &str,
    no_schema: &str,
) -> (result: Result<(), CompileError>)
    ensures
        checked(result, named_fault(at.0@, members@, keyword@, no_object@, no_schema@)),
{
    match json::get(members, keyword) {
        None => Ok(()),
        Some(JsonValue::Object(list)) => {
            let below = pointer_join(at, keyword);
            let mut index: usize = 0;
            assert(list@.skip(0) =~= list@);
            while index < list.len()
                invariant
                    index <= list@.len(),
                    entry_fault(below.0@, keyword@, no_schema@, list@) == entry_fault(
                        below.0@,
                        keyword@,
                        no_schema@,
                        list@.skip(index as int),
                    ),
                    named_fault(at.0@, members@, keyword@, no_object@, no_schema@) == entry_fault(
                        below.0@,
                        keyword@,
                        no_schema@,
                        list@,
                    ),
                decreases list@.len() - index,
            {
                let ghost rest = list@.skip(index as int);
                assert(rest[0] == list@[index as int]);
                assert(rest.skip(1) =~= list@.skip(index + 1));
                if !json::is_schema(&list[index].value) {
                    return Err(
                        invalid_value(
                            &pointer_join(&below, list[index].key.as_str()),
                            keyword,
                            no_schema,
                        ),
                    );
                }
                index += 1;
            }
            Ok(())
        },
        Some(_) => Err(invalid_value(at, keyword, no_object)),
    }
}

/// Checks a keyword that has to be a schema.
fn check_single(at: &SchemaPointer, members: &Vec<JsonMember>, keyword: &str) -> (result: Result<
    (),
    CompileError,
>)
    ensures
        checked(result, single_fault(at.0@, members@, keyword@)),
{
    match json::get(members, keyword) {
        Some(value) => if json::is_schema(value) {
            Ok(())
        } else {
            Err(invalid_value(at, keyword, "value must be a boolean or object schema"))
        },
        None => Ok(()),
    }
}

/// Checks a keyword that has to be an array of schemas.
fn check_list(
    at: &SchemaPointer,
    members: &Vec<JsonMember>,
    keyword: &str,
    filled: bool,
) -> (result: Result<(), CompileError>)
    ensures
        checked(result, list_fault(at.0@, members@, keyword@, filled)),
{
    match json::get(members, keyword) {
        None => Ok(()),
        Some(JsonValue::Array(values)) => {
            if values.len() == 0 && filled {
                return Err(invalid_value(at, keyword, "array must not be empty"));
            }
            let mut index: usize = 0;
            while index < values.len()
                invariant
                    index <= values@.len(),
                    values@.len() == 0 ==> !filled,
                    json::find(members@, keyword@) == Some(JsonValue::Array(*values)),
                    forall|i: int| 0 <= i < index ==> json::spec_is_schema(#[trigger] values@[i]),
                decreases values@.len() - index,
            {
                if !json::is_schema(&values[index]) {
                    assert(!all_schemas(values@));
                    return Err(
                        invalid_value(
                            at,
                            keyword,
                            "every entry must be a boolean or object schema",
                        ),
                    );
                }
                index += 1;
            }
            Ok(())
        },
        Some(_) => Err(invalid_value(at, keyword, "value must be an array")),
    }
}

/// Checks the keywords that have to hold schemas.
fn validate_containers(at: &SchemaPointer, members: &Vec<JsonMember>) -> (result: Result<
    (),
    CompileError,
>)
    ensures
        checked(result, container_fault(at.0@, members@)),
{
    match check_named(
        at,
        members,
        "$defs",
        "$defs must be an object",
        "definition must be a boolean or object schema",
    ) {
        Ok(()) => {},
        Err(error) => {
            return Err(error);
        },
    }
    match check_named(
        at,
        members,
        "properties",
        "properties must be an object",
        "property value must be a boolean or object schema",
    ) {
        Ok(()) => {},
        Err(error) => {
            return Err(error);
        },
    }
    match check_single(at, members, "additionalProperties") {
        Ok(()) => {},
        Err(error) => {
            return Err(error);
        },
    }
    match check_single(at, members, "items") {
        Ok(()) => {},
        Err(error) => {
            return Err(error);
        },
    }
    match check_list(at, members, "prefixItems", false) {
        Ok(()) => {},
        Err(error) => {
            return Err(error);
        },
    }
    match check_list(at, members, "allOf", true) {
        Ok(()) => {},
        Err(error) => {
            return Err(error);
        },
    }
    match check_list(at, members, "anyOf", true) {
        Ok(()) => {},
        Err(error) => {
            return Err(error);
        },
    }
    check_list(at, members, "oneOf", true)
}

/// The type of a name.
pub open spec fn named_type(name: Seq<char>) -> Option<JsonType> {
    if name == "null"@ {
        Some(JsonType::Null)
    } else if name == "boolean"@ {
        Some(JsonType::Boolean)
    } else if name == "string"@ {
        Some(JsonType::String)
    } else if name == "number"@ {
        Some(JsonType::Number)
    } else if name == "integer"@ {
        Some(JsonType::Integer)
    } else if name == "array"@ {
        Some(JsonType::Array)
    } else if name == "object"@ {
        Some(JsonType::Object)
    } else {
        None
    }
}

/// The type that a schema declares.
pub open spec fn declared_type(at: Seq<char>, members: Seq<JsonMember>) -> Result<
    Option<JsonType>,
    Fault,
> {
    match json::find(members, "type"@) {
        None => Ok(None),
        Some(JsonValue::String(name)) => match named_type(name@) {
            Some(kind) => Ok(Some(kind)),
            None => Err(
                Fault::Value {
                    pointer: at,
                    keyword: "type"@,
                    reason: "unknown JSON Schema type"@,
                },
            ),
        },
        Some(_) => Err(
            Fault::Value {
                pointer: at,
                keyword: "type"@,
                reason: "K1 requires type to be a single string"@,
            },
        ),
    }
}

/// Whether a value is of a type.
pub open spec fn of_type(value: JsonValue, kind: JsonType) -> bool {
    match kind {
        JsonType::Null => value is Null,
        JsonType::Boolean => value is Bool,
        JsonType::String => value is String,
        JsonType::Number => value is Number,
        JsonType::Integer => value matches JsonValue::Number(number) && (number.signed is Some
            || number.unsigned is Some),
        JsonType::Array => value is Array,
        JsonType::Object => value is Object,
    }
}

/// Whether a value is of a type, if there is one.
pub open spec fn of_optional_type(value: JsonValue, kind: Option<JsonType>) -> bool {
    match kind {
        Some(kind) => of_type(value, kind),
        None => true,
    }
}

/// The count of a keyword, if there is one.
pub open spec fn counted(
    at: Seq<char>,
    members: Seq<JsonMember>,
    keyword: Seq<char>,
) -> Result<Option<nat>, Fault> {
    match json::find(members, keyword) {
        None => Ok(None),
        Some(JsonValue::Number(number)) => match number.unsigned {
            Some(value) => if value <= usize::MAX {
                Ok(Some(value as nat))
            } else {
                Err(
                    Fault::Value {
                        pointer: at,
                        keyword,
                        reason: "value is too large for this platform"@,
                    },
                )
            },
            None => Err(
                Fault::Value {
                    pointer: at,
                    keyword,
                    reason: "value must be a non-negative integer"@,
                },
            ),
        },
        Some(_) => Err(
            Fault::Value { pointer: at, keyword, reason: "value must be a non-negative integer"@ },
        ),
    }
}

/// Reads the name of a type.
fn read_type(name: &str) -> (kind: Option<JsonType>)
    ensures
        kind == named_type(name@),
{
    if text::same_text(name, "null") {
        Some(JsonType::Null)
    } else if text::same_text(name, "boolean") {
        Some(JsonType::Boolean)
    } else if text::same_text(name, "string") {
        Some(JsonType::String)
    } else if text::same_text(name, "number") {
        Some(JsonType::Number)
    } else if text::same_text(name, "integer") {
        Some(JsonType::Integer)
    } else if text::same_text(name, "array") {
        Some(JsonType::Array)
    } else if text::same_text(name, "object") {
        Some(JsonType::Object)
    } else {
        None
    }
}

/// Reads the type that a schema declares.
fn parse_declared_type(at: &SchemaPointer, members: &Vec<JsonMember>) -> (result: Result<
    Option<JsonType>,
    CompileError,
>)
    ensures
        match declared_type(at.0@, members@) {
            Ok(kind) => result == Ok::<Option<JsonType>, CompileError>(kind),
            Err(fault) => result matches Err(error) && fault::says(error, fault),
        },
{
    match json::get(members, "type") {
        None => Ok(None),
        Some(JsonValue::String(name)) => match read_type(name.as_str()) {
            Some(kind) => Ok(Some(kind)),
            None => Err(invalid_value(at, "type", "unknown JSON Schema type")),
        },
        Some(_) => Err(invalid_value(at, "type", "K1 requires type to be a single string")),
    }
}

/// Whether a value is of a type.
fn value_matches_type(value: &JsonValue, kind: JsonType) -> (matched: bool)
    ensures
        matched == of_type(*value, kind),
{
    match kind {
        JsonType::Null => matches!(value, JsonValue::Null),
        JsonType::Boolean => matches!(value, JsonValue::Bool(_)),
        JsonType::String => matches!(value, JsonValue::String(_)),
        JsonType::Number => matches!(value, JsonValue::Number(_)),
        JsonType::Integer => match value {
            JsonValue::Number(number) => number.signed.is_some() || number.unsigned.is_some(),
            _ => false,
        },
        JsonType::Array => matches!(value, JsonValue::Array(_)),
        JsonType::Object => matches!(value, JsonValue::Object(_)),
    }
}

/// Whether a value is of a type, if there is one.
fn matches_optional(value: &JsonValue, kind: Option<JsonType>) -> (matched: bool)
    ensures
        matched == of_optional_type(*value, kind),
{
    match kind {
        Some(kind) => value_matches_type(value, kind),
        None => true,
    }
}

/// Reads the count of a keyword.
fn optional_usize(at: &SchemaPointer, members: &Vec<JsonMember>, keyword: &str) -> (result: Result<
    Option<usize>,
    CompileError,
>)
    ensures
        match counted(at.0@, members@, keyword@) {
            Ok(count) => result matches Ok(found) && optional_count(found) == count,
            Err(fault) => result matches Err(error) && fault::says(error, fault),
        },
{
    match json::get(members, keyword) {
        None => Ok(None),
        Some(JsonValue::Number(number)) => match number.unsigned {
            Some(value) => if value <= usize::MAX as u64 {
                Ok(Some(value as usize))
            } else {
                Err(invalid_value(at, keyword, "value is too large for this platform"))
            },
            None => Err(invalid_value(at, keyword, "value must be a non-negative integer")),
        },
        Some(_) => Err(invalid_value(at, keyword, "value must be a non-negative integer")),
    }
}

/// The count of a keyword, or nothing.
pub open spec fn or_zero(count: Option<nat>) -> nat {
    match count {
        Some(count) => count,
        None => 0,
    }
}

/// Whether a largest number is below a smallest.
pub open spec fn crossed(least: nat, most: Option<nat>) -> bool {
    most matches Some(most) && most < least
}

/// The normal form of a string.
pub open spec fn string_shape(at: Seq<char>, members: Seq<JsonMember>) -> Result<Shape, Fault> {
    match counted(at, members, "minLength"@) {
        Err(fault) => Err(fault),
        Ok(least) => match counted(at, members, "maxLength"@) {
            Err(fault) => Err(fault),
            Ok(most) => if crossed(or_zero(least), most) {
                Ok(Shape::Never)
            } else {
                Ok(Shape::Text { least: or_zero(least), most })
            },
        },
    }
}

/// Normalizes a string.
fn normalize_string(at: &SchemaPointer, members: &Vec<JsonMember>) -> (result: Result<
    NormalizedSchema,
    CompileError,
>)
    ensures
        yields(result, string_shape(at.0@, members@)),
{
    let least = match optional_usize(at, members, "minLength") {
        Ok(least) => least,
        Err(error) => {
            return Err(error);
        },
    };
    let min_length: usize = match least {
        Some(least) => least,
        None => 0,
    };
    let max_length = match optional_usize(at, members, "maxLength") {
        Ok(most) => most,
        Err(error) => {
            return Err(error);
        },
    };
    let empty = match max_length {
        Some(most) => most < min_length,
        None => false,
    };
    if empty {
        return Ok(NormalizedSchema::Never);
    }
    Ok(NormalizedSchema::String(StringConstraints { min_length, max_length }))
}

/// The places of the first `n` items below a pointer, if all are there.
pub open spec fn item_positions(list: Seq<Seq<char>>, below: Seq<char>, n: nat) -> Option<Seq<int>>
    decreases n,
{
    if n == 0 {
        Some(Seq::empty())
    } else {
        match (
            item_positions(list, below, (n - 1) as nat),
            places::located(list, pointer::joined(below, text::digits((n - 1) as nat))),
        ) {
            (Some(before), Some(position)) => Some(before.push(position)),
            _ => None,
        }
    }
}

/// The schemas in the array of a keyword.
pub open spec fn list_positions(
    at: Seq<char>,
    keyword: Seq<char>,
    value: JsonValue,
    list: Seq<Seq<char>>,
) -> Result<Seq<int>, Fault> {
    match value {
        JsonValue::Array(values) => match item_positions(
            list,
            pointer::joined(at, keyword),
            values@.len(),
        ) {
            Some(positions) => Ok(positions),
            None => Err(Fault::Internal { message: "indexed applicator schema is missing"@ }),
        },
        _ => Err(Fault::Value { pointer: at, keyword, reason: "value must be an array"@ }),
    }
}

/// A failed position makes all longer lists fail.
proof fn lemma_positions(list: Seq<Seq<char>>, below: Seq<char>, n: nat, m: nat)
    requires
        n <= m,
        item_positions(list, below, n) is None,
    ensures
        item_positions(list, below, m) is None,
    decreases m,
{
    if n < m {
        lemma_positions(list, below, n, (m - 1) as nat);
    }
}

/// Finds the schemas in the array of a keyword.
fn child_ids(
    at: &SchemaPointer,
    keyword: &str,
    value: &JsonValue,
    all: &SchemaPlaces,
) -> (result: Result<Vec<SchemaId>, CompileError>)
    requires
        all.wf(),
        all.nodes@.len() <= u32::MAX + 1,
    ensures
        match list_positions(
            at.0@,
            keyword@,
            *value,
            places::pointers(places::places(all.nodes@)),
        ) {
            Ok(positions) => result matches Ok(ids) && numbers(ids@) == positions && forall|i: int|
                0 <= i < ids@.len() ==> (#[trigger] ids@[i]).0 < all.nodes@.len(),
            Err(fault) => result matches Err(error) && fault::says(error, fault),
        },
{
    let ghost list = places::pointers(places::places(all.nodes@));
    match value {
        JsonValue::Array(values) => {
            let below = pointer_join(at, keyword);
            let mut ids: Vec<SchemaId> = Vec::new();
            let mut index: usize = 0;
            assert(numbers(ids@) =~= Seq::<int>::empty());
            while index < values.len()
                invariant
                    all.wf(),
                    all.nodes@.len() <= u32::MAX + 1,
                    list == places::pointers(places::places(all.nodes@)),
                    *value == JsonValue::Array(*values),
                    below.0@ == pointer::joined(at.0@, keyword@),
                    index <= values@.len(),
                    item_positions(list, below.0@, index as nat) == Some(numbers(ids@)),
                    forall|i: int| 0 <= i < ids@.len() ==> (#[trigger] ids@[i]).0 < all.nodes@.len(),
                decreases values@.len() - index,
            {
                let child = pointer_join(&below, text::decimal(index).as_str());
                match all.index.find(child.0.as_str(), Ghost(list)) {
                    Some(position) => {
                        let ghost before = ids@;
                        ids.push(SchemaId(position as u32));
                        assert(numbers(ids@) =~= numbers(before).push(position as int));
                    },
                    None => {
                        proof {
                            lemma_positions(list, below.0@, (index + 1) as nat, values@.len());
                        }
                        return Err(
                            CompileError::InternalInvariant {
                                message: "indexed applicator schema is missing",
                            },
                        );
                    },
                }
                index += 1;
            }
            Ok(ids)
        },
        _ => Err(invalid_value(at, keyword, "value must be an array")),
    }
}

/// Whether a normal form names only schemas that are there.
spec fn bound_within(result: Result<NormalizedSchema, CompileError>, count: nat) -> bool {
    result matches Ok(kind) ==> schema::kind_within(kind, count)
}

/// The schema of the items of an array, if it is there.
pub open spec fn items_position(
    at: Seq<char>,
    members: Seq<JsonMember>,
    list: Seq<Seq<char>>,
) -> Result<Option<int>, Fault> {
    if json::has(members, "items"@) {
        match places::located(list, pointer::joined(at, "items"@)) {
            Some(position) => Ok(Some(position)),
            None => Err(Fault::Internal { message: "indexed items schema is missing"@ }),
        }
    } else {
        Ok(None)
    }
}

/// The schemas of the first items of an array.
pub open spec fn prefix_positions(
    at: Seq<char>,
    members: Seq<JsonMember>,
    list: Seq<Seq<char>>,
) -> Result<Seq<int>, Fault> {
    match json::find(members, "prefixItems"@) {
        Some(value) => list_positions(at, "prefixItems"@, value, list),
        None => Ok(Seq::empty()),
    }
}

/// The normal form of an array.
pub open spec fn array_shape(
    at: Seq<char>,
    members: Seq<JsonMember>,
    list: Seq<Seq<char>>,
) -> Result<Shape, Fault> {
    match counted(at, members, "minItems"@) {
        Err(fault) => Err(fault),
        Ok(least) => match counted(at, members, "maxItems"@) {
            Err(fault) => Err(fault),
            Ok(most) => if crossed(or_zero(least), most) {
                Ok(Shape::Never)
            } else {
                match prefix_positions(at, members, list) {
                    Err(fault) => Err(fault),
                    Ok(prefix) => match items_position(at, members, list) {
                        Err(fault) => Err(fault),
                        Ok(items) => Ok(
                            Shape::Array { prefix, items, least: or_zero(least), most },
                        ),
                    },
                }
            },
        },
    }
}

/// Normalizes an array.
fn normalize_array(
    at: &SchemaPointer,
    members: &Vec<JsonMember>,
    all: &SchemaPlaces,
) -> (result: Result<NormalizedSchema, CompileError>)
    requires
        all.wf(),
        all.nodes@.len() <= u32::MAX + 1,
    ensures
        yields(
            result,
            array_shape(at.0@, members@, places::pointers(places::places(all.nodes@))),
        ),
        bound_within(result, all.nodes@.len()),
{
    let ghost list = places::pointers(places::places(all.nodes@));
    let least = match optional_usize(at, members, "minItems") {
        Ok(least) => least,
        Err(error) => {
            return Err(error);
        },
    };
    let min_items: usize = match least {
        Some(least) => least,
        None => 0,
    };
    let max_items = match optional_usize(at, members, "maxItems") {
        Ok(most) => most,
        Err(error) => {
            return Err(error);
        },
    };
    let empty = match max_items {
        Some(most) => most < min_items,
        None => false,
    };
    if empty {
        return Ok(NormalizedSchema::Never);
    }
    let prefix_items = match json::get(members, "prefixItems") {
        Some(value) => match child_ids(at, "prefixItems", value, all) {
            Ok(ids) => ids,
            Err(error) => {
                return Err(error);
            },
        },
        None => {
            let none: Vec<SchemaId> = Vec::new();
            assert(numbers(none@) =~= Seq::<int>::empty());
            none
        },
    };
    let items = if json::contains(members, "items") {
        let child = pointer_join(at, "items");
        match all.index.find(child.0.as_str(), Ghost(list)) {
            Some(position) => Some(SchemaId(position as u32)),
            None => {
                return Err(
                    CompileError::InternalInvariant { message: "indexed items schema is missing" },
                );
            },
        }
    } else {
        None
    };
    Ok(NormalizedSchema::Array(ArrayConstraints { prefix_items, items, min_items, max_items }))
}

/// The schemas of the first `n` properties, if all are there.
pub open spec fn property_positions(
    list: Seq<Seq<char>>,
    below: Seq<char>,
    members: Seq<JsonMember>,
    n: nat,
) -> Option<Seq<(Seq<char>, int)>>
    decreases n,
{
    if n == 0 || n > members.len() {
        Some(Seq::empty())
    } else {
        let name = members[n - 1].key@;
        match (
            property_positions(list, below, members, (n - 1) as nat),
            places::located(list, pointer::joined(below, name)),
        ) {
            (Some(before), Some(position)) => Some(before.push((name, position))),
            _ => None,
        }
    }
}

/// The properties of an object.
pub open spec fn properties_of(
    at: Seq<char>,
    members: Seq<JsonMember>,
    list: Seq<Seq<char>>,
) -> Result<Seq<(Seq<char>, int)>, Fault> {
    match json::find(members, "properties"@) {
        Some(JsonValue::Object(named)) => match property_positions(
            list,
            pointer::joined(at, "properties"@),
            named@,
            named@.len(),
        ) {
            Some(found) => Ok(found),
            None => Err(Fault::Internal { message: "indexed property schema is missing"@ }),
        },
        _ => Ok(Seq::empty()),
    }
}

/// The first `n` required names, or why they are none.
pub open spec fn required_names(at: Seq<char>, values: Seq<JsonValue>, n: nat) -> Result<
    Seq<Seq<char>>,
    Fault,
>
    decreases n,
{
    if n == 0 || n > values.len() {
        Ok(Seq::empty())
    } else {
        match required_names(at, values, (n - 1) as nat) {
            Err(fault) => Err(fault),
            Ok(before) => match values[n - 1] {
                JsonValue::String(name) => if before.contains(name@) {
                    Err(
                        Fault::Value {
                            pointer: at,
                            keyword: "required"@,
                            reason: "required entries must be unique"@,
                        },
                    )
                } else {
                    Ok(before.push(name@))
                },
                _ => Err(
                    Fault::Value {
                        pointer: at,
                        keyword: "required"@,
                        reason: "required entries must be strings"@,
                    },
                ),
            },
        }
    }
}

/// The required names of an object.
pub open spec fn required_of(at: Seq<char>, members: Seq<JsonMember>) -> Result<
    Set<Seq<char>>,
    Fault,
> {
    match json::find(members, "required"@) {
        None => Ok(Set::empty()),
        Some(JsonValue::Array(values)) => match required_names(at, values@, values@.len()) {
            Ok(names) => Ok(names.to_set()),
            Err(fault) => Err(fault),
        },
        Some(_) => Err(
            Fault::Value {
                pointer: at,
                keyword: "required"@,
                reason: "required must be an array"@,
            },
        ),
    }
}

/// What is asked of the properties that are not named.
pub open spec fn additional_of(
    at: Seq<char>,
    members: Seq<JsonMember>,
    list: Seq<Seq<char>>,
) -> Result<Additional, Fault> {
    match json::find(members, "additionalProperties"@) {
        None => Ok(Additional::Unconstrained),
        Some(JsonValue::Bool(allowed)) => if allowed {
            Ok(Additional::Unconstrained)
        } else {
            Ok(Additional::Forbidden)
        },
        Some(_) => match places::located(list, pointer::joined(at, "additionalProperties"@)) {
            Some(position) => Ok(Additional::Schema(position)),
            None => Err(
                Fault::Internal { message: "indexed additionalProperties schema is missing"@ },
            ),
        },
    }
}

/// The normal form of an object.
pub open spec fn object_shape(
    at: Seq<char>,
    members: Seq<JsonMember>,
    list: Seq<Seq<char>>,
) -> Result<Shape, Fault> {
    match properties_of(at, members, list) {
        Err(fault) => Err(fault),
        Ok(properties) => match required_of(at, members) {
            Err(fault) => Err(fault),
            Ok(required) => match additional_of(at, members, list) {
                Err(fault) => Err(fault),
                Ok(additional) => Ok(Shape::Object { properties, required, additional }),
            },
        },
    }
}

proof fn lemma_property_positions(
    list: Seq<Seq<char>>,
    below: Seq<char>,
    members: Seq<JsonMember>,
    n: nat,
    m: nat,
)
    requires
        0 < n <= m <= members.len(),
        property_positions(list, below, members, n) is None,
    ensures
        property_positions(list, below, members, m) is None,
    decreases m,
{
    if n < m {
        lemma_property_positions(list, below, members, n, (m - 1) as nat);
    }
}

/// Finds the properties of an object.
fn find_properties(
    at: &SchemaPointer,
    members: &Vec<JsonMember>,
    all: &SchemaPlaces,
) -> (result: Result<Vec<Property>, CompileError>)
    requires
        all.wf(),
        all.nodes@.len() <= u32::MAX + 1,
    ensures
        match properties_of(at.0@, members@, places::pointers(places::places(all.nodes@))) {
            Ok(found) => result matches Ok(properties) && entries(properties@) == found && forall|
                i: int,
            |
                0 <= i < properties@.len() ==> (#[trigger] properties@[i]).schema.0
                    < all.nodes@.len(),
            Err(fault) => result matches Err(error) && fault::says(error, fault),
        },
{
    let ghost list = places::pointers(places::places(all.nodes@));
    let mut properties: Vec<Property> = Vec::new();
    assert(entries(properties@) =~= Seq::<(Seq<char>, int)>::empty());
    match json::get(members, "properties") {
        Some(JsonValue::Object(named)) => {
            let below = pointer_join(at, "properties");
            let mut index: usize = 0;
            while index < named.len()
                invariant
                    all.wf(),
                    all.nodes@.len() <= u32::MAX + 1,
                    list == places::pointers(places::places(all.nodes@)),
                    json::find(members@, "properties"@) == Some(JsonValue::Object(*named)),
                    below.0@ == pointer::joined(at.0@, "properties"@),
                    index <= named@.len(),
                    property_positions(list, below.0@, named@, index as nat) == Some(
                        entries(properties@),
                    ),
                    forall|i: int|
                        0 <= i < properties@.len() ==> (#[trigger] properties@[i]).schema.0
                            < all.nodes@.len(),
                decreases named@.len() - index,
            {
                let name = &named[index].key;
                let child = pointer_join(&below, name.as_str());
                match all.index.find(child.0.as_str(), Ghost(list)) {
                    Some(position) => {
                        let ghost before = properties@;
                        properties.push(
                            Property { name: name.clone(), schema: SchemaId(position as u32) },
                        );
                        assert(entries(properties@) =~= entries(before).push(
                            (name@, position as int),
                        ));
                    },
                    None => {
                        proof {
                            lemma_property_positions(
                                list,
                                below.0@,
                                named@,
                                (index + 1) as nat,
                                named@.len(),
                            );
                        }
                        return Err(
                            CompileError::InternalInvariant {
                                message: "indexed property schema is missing",
                            },
                        );
                    },
                }
                index += 1;
            }
        },
        _ => {},
    }
    Ok(properties)
}

proof fn lemma_required_names(at: Seq<char>, values: Seq<JsonValue>, n: nat, m: nat)
    requires
        0 < n <= m <= values.len(),
        required_names(at, values, n) is Err,
    ensures
        required_names(at, values, m) == required_names(at, values, n),
    decreases m,
{
    if n < m {
        lemma_required_names(at, values, n, (m - 1) as nat);
    }
}

/// Reads the required names of an object.
fn read_required(at: &SchemaPointer, members: &Vec<JsonMember>) -> (result: Result<
    Vec<String>,
    CompileError,
>)
    ensures
        match required_of(at.0@, members@) {
            Ok(names) => result matches Ok(required) && text::ascending(text::texts(required@))
                && text::texts(required@).to_set() == names,
            Err(fault) => result matches Err(error) && fault::says(error, fault),
        },
{
    let mut required: Vec<String> = Vec::new();
    proof {
        assert(text::texts(required@) =~= Seq::<Seq<char>>::empty());
        assert(text::texts(required@).to_set() =~= Set::<Seq<char>>::empty());
    }
    match json::get(members, "required") {
        None => {},
        Some(JsonValue::Array(values)) => {
            let mut index: usize = 0;
            let ghost mut names = Seq::<Seq<char>>::empty();
            while index < values.len()
                invariant
                    json::find(members@, "required"@) == Some(JsonValue::Array(*values)),
                    index <= values@.len(),
                    required_names(at.0@, values@, index as nat) == Ok::<Seq<Seq<char>>, Fault>(
                        names,
                    ),
                    text::ascending(text::texts(required@)),
                    text::texts(required@).to_set() == names.to_set(),
                decreases values@.len() - index,
            {
                proof {
                    let next = (index + 1) as nat;
                    if required_names(at.0@, values@, next) is Err {
                        lemma_required_names(at.0@, values@, next, values@.len());
                    }
                }
                let name = match &values[index] {
                    JsonValue::String(name) => name,
                    _ => {
                        return Err(
                            invalid_value(at, "required", "required entries must be strings"),
                        );
                    },
                };
                proof {
                    assert(names.contains(name@) == names.to_set().contains(name@));
                    assert(text::texts(required@).contains(name@) == text::texts(
                        required@,
                    ).to_set().contains(name@));
                }
                if !text::insert_text(&mut required, name.clone()) {
                    return Err(invalid_value(at, "required", "required entries must be unique"));
                }
                proof {
                    let more = names.push(name@);
                    assert(more.to_set() =~= names.to_set().insert(name@)) by {
                        assert forall|t: Seq<char>| more.contains(t) == (names.contains(t) || t
                            == name@) by {
                            if names.contains(t) {
                                let i = choose|i: int| 0 <= i < names.len() && names[i] == t;
                                assert(more[i] == t);
                            }
                            assert(more[names.len() as int] == name@);
                        }
                    }
                    names = more;
                }
                index += 1;
            }
        },
        Some(_) => {
            return Err(invalid_value(at, "required", "required must be an array"));
        },
    }
    Ok(required)
}

/// Normalizes an object.
fn normalize_object(
    at: &SchemaPointer,
    members: &Vec<JsonMember>,
    all: &SchemaPlaces,
) -> (result: Result<NormalizedSchema, CompileError>)
    requires
        all.wf(),
        all.nodes@.len() <= u32::MAX + 1,
    ensures
        yields(
            result,
            object_shape(at.0@, members@, places::pointers(places::places(all.nodes@))),
        ),
        bound_within(result, all.nodes@.len()),
{
    let ghost list = places::pointers(places::places(all.nodes@));
    let properties = match find_properties(at, members, all) {
        Ok(properties) => properties,
        Err(error) => {
            return Err(error);
        },
    };
    let required = match read_required(at, members) {
        Ok(required) => required,
        Err(error) => {
            return Err(error);
        },
    };
    let additional_properties = match json::get(members, "additionalProperties") {
        None => AdditionalProperties::Unconstrained,
        Some(JsonValue::Bool(allowed)) => if *allowed {
            AdditionalProperties::Unconstrained
        } else {
            AdditionalProperties::Forbidden
        },
        Some(_) => {
            let child = pointer_join(at, "additionalProperties");
            match all.index.find(child.0.as_str(), Ghost(list)) {
                Some(position) => AdditionalProperties::Schema(SchemaId(position as u32)),
                None => {
                    return Err(
                        CompileError::InternalInvariant {
                            message: "indexed additionalProperties schema is missing",
                        },
                    );
                },
            }
        },
    };
    Ok(
        NormalizedSchema::Object(
            ObjectConstraints { properties, required, additional_properties },
        ),
    )
}

/// Whether all members but annotations have one key.
pub open spec fn only_with(members: Seq<JsonMember>, keyword: Seq<char>) -> bool {
    forall|i: int|
        0 <= i < members.len() ==> spec_annotation((#[trigger] members[i]).key@) || members[i].key@
            == keyword
}

/// Whether all members but annotations have one key.
fn has_only(members: &Vec<JsonMember>, keyword: &str) -> (only: bool)
    ensures
        only == only_with(members@, keyword@),
{
    let mut index: usize = 0;
    while index < members.len()
        invariant
            index <= members@.len(),
            forall|i: int|
                0 <= i < index ==> spec_annotation((#[trigger] members@[i]).key@)
                    || members@[i].key@ == keyword@,
        decreases members@.len() - index,
    {
        let key = members[index].key.as_str();
        if !is_annotation(key) && !text::same_text(key, keyword) {
            assert(!spec_annotation(members@[index as int].key@));
            return false;
        }
        index += 1;
    }
    true
}

/// The type of what is of two types: a whole number is a number. `None` where nothing is of both.
pub open spec fn meet(kind: Option<JsonType>, found: JsonType) -> Option<JsonType> {
    match kind {
        None => Some(found),
        Some(other) => if other == found {
            Some(found)
        } else if (other is Integer && found is Number) || (other is Number && found is Integer) {
            Some(JsonType::Integer)
        } else {
            None
        },
    }
}

/// The type of what is of two types.
fn meet_types(kind: Option<JsonType>, found: JsonType) -> (both: Option<JsonType>)
    ensures
        both == meet(kind, found),
{
    match kind {
        None => Some(found),
        Some(other) => if other == found {
            Some(found)
        } else {
            match (other, found) {
                (JsonType::Integer, JsonType::Number) => Some(JsonType::Integer),
                (JsonType::Number, JsonType::Integer) => Some(JsonType::Integer),
                _ => None,
            }
        },
    }
}

/// The intersection of the branches from the `k`th on with a constant and a type.
pub open spec fn intersection(
    at: Seq<char>,
    list: Seq<Place>,
    ids: Seq<int>,
    k: nat,
    constant: Option<JsonValue>,
    kind: Option<JsonType>,
) -> Result<Shape, Fault>
    decreases ids.len() - k,
{
    if k >= ids.len() {
        match constant {
            None => Err(
                Fault::Combination {
                    pointer: at,
                    reason: "allOf without a finite const branch requires DFA intersection"@,
                },
            ),
            Some(value) => if of_optional_type(value, kind) {
                Ok(Shape::Const(json::canonical(value)))
            } else {
                Ok(Shape::Never)
            },
        }
    } else {
        match list[ids[k as int]].value {
            JsonValue::Object(branch) => match json::find(branch@, "const"@) {
                Some(value) => if !only_with(branch@, "const"@) || constant is Some {
                    Err(
                        Fault::Combination {
                            pointer: at,
                            reason:
                                "allOf is supported only for one const intersected with simple types"@,
                        },
                    )
                } else {
                    intersection(at, list, ids, k + 1, Some(value), kind)
                },
                None => match declared_type(list[ids[k as int]].pointer, branch@) {
                    Err(fault) => Err(fault),
                    Ok(None) => Err(
                        Fault::Combination {
                            pointer: at,
                            reason:
                                "allOf requires exact intersection not available for these branches"@,
                        },
                    ),
                    Ok(Some(found)) => if !only_with(branch@, "type"@) {
                        Err(
                            Fault::Combination {
                                pointer: at,
                                reason: "allOf simple type branches cannot contain other assertions"@,
                            },
                        )
                    } else {
                        match meet(kind, found) {
                            None => Ok(Shape::Never),
                            Some(both) => intersection(
                                at,
                                list,
                                ids,
                                k + 1,
                                constant,
                                Some(both),
                            ),
                        }
                    },
                },
            },
            _ => Err(
                Fault::Combination {
                    pointer: at,
                    reason: "boolean allOf branches require Boolean operations"@,
                },
            ),
        }
    }
}

/// The normal form of an intersection.
pub open spec fn all_of_shape(at: Seq<char>, members: Seq<JsonMember>, list: Seq<Place>) -> Result<
    Shape,
    Fault,
> {
    match list_positions(
        at,
        "allOf"@,
        json::find(members, "allOf"@)->0,
        places::pointers(list),
    ) {
        Err(fault) => Err(fault),
        Ok(ids) => intersection(at, list, ids, 0, None, None),
    }
}

/// Normalizes an intersection of one constant with simple types.
fn normalize_simple_all_of(
    at: &SchemaPointer,
    members: &Vec<JsonMember>,
    all: &SchemaPlaces,
) -> (result: Result<NormalizedSchema, CompileError>)
    requires
        all.wf(),
        all.nodes@.len() <= u32::MAX + 1,
        json::has(members@, "allOf"@),
    ensures
        yields(result, all_of_shape(at.0@, members@, places::places(all.nodes@))),
        bound_within(result, all.nodes@.len()),
{
    let ghost list = places::places(all.nodes@);
    let value = json::get(members, "allOf").unwrap();
    let ids = match child_ids(at, "allOf", value, all) {
        Ok(ids) => ids,
        Err(error) => {
            return Err(error);
        },
    };
    let ghost positions = numbers(ids@);
    let mut constant: Option<&JsonValue> = None;
    let mut required: Option<JsonType> = None;
    let mut index: usize = 0;
    while index < ids.len()
        invariant
            all_of_shape(at.0@, members@, list) == intersection(
                at.0@,
                list,
                positions,
                0,
                None,
                None,
            ),
            list == places::places(all.nodes@),
            positions == numbers(ids@),
            forall|i: int| 0 <= i < ids@.len() ==> (#[trigger] ids@[i]).0 < all.nodes@.len(),
            index <= ids@.len(),
            intersection(at.0@, list, positions, 0, None, None) == intersection(
                at.0@,
                list,
                positions,
                index as nat,
                optional_value(constant),
                required,
            ),
        decreases ids@.len() - index,
    {
        let node = &all.nodes[ids[index].0 as usize];
        assert(list[positions[index as int]] == node@);
        let branch = match node.value {
            JsonValue::Object(branch) => branch,
            _ => {
                return Err(
                    unsupported_combination(
                        at,
                        "boolean allOf branches require Boolean operations",
                    ),
                );
            },
        };
        match json::get(branch, "const") {
            Some(value) => {
                if !has_only(branch, "const") || constant.is_some() {
                    return Err(
                        unsupported_combination(
                            at,
                            "allOf is supported only for one const intersected with simple types",
                        ),
                    );
                }
                constant = Some(value);
            },
            None => match parse_declared_type(&node.pointer, branch) {
                Err(error) => {
                    return Err(error);
                },
                Ok(None) => {
                    return Err(
                        unsupported_combination(
                            at,
                            "allOf requires exact intersection not available for these branches",
                        ),
                    );
                },
                Ok(Some(found)) => {
                    if !has_only(branch, "type") {
                        return Err(
                            unsupported_combination(
                                at,
                                "allOf simple type branches cannot contain other assertions",
                            ),
                        );
                    }
                    match meet_types(required, found) {
                        Some(both) => {
                            required = Some(both);
                        },
                        None => {
                            return Ok(NormalizedSchema::Never);
                        },
                    }
                },
            },
        }
        index += 1;
    }
    match constant {
        None => Err(
            unsupported_combination(
                at,
                "allOf without a finite const branch requires DFA intersection",
            ),
        ),
        Some(value) => if matches_optional(value, required) {
            match canonical_value(value) {
                Ok(form) => Ok(NormalizedSchema::Const(form)),
                Err(error) => Err(error),
            }
        } else {
            Ok(NormalizedSchema::Never)
        },
    }
}

/// The value behind an optional reference.
pub open spec fn optional_value(value: Option<&JsonValue>) -> Option<JsonValue> {
    match value {
        Some(value) => Some(*value),
        None => None,
    }
}

/// The canonical texts of those of the first `n` values that are of a type.
pub open spec fn enum_forms(values: Seq<JsonValue>, kind: Option<JsonType>, n: nat) -> Set<Seq<char>>
    decreases n,
{
    if n == 0 || n > values.len() {
        Set::empty()
    } else if of_optional_type(values[n - 1], kind) {
        enum_forms(values, kind, (n - 1) as nat).insert(json::canonical(values[n - 1]))
    } else {
        enum_forms(values, kind, (n - 1) as nat)
    }
}

/// The normal form of an enumeration.
pub open spec fn enum_shape(at: Seq<char>, value: JsonValue, kind: Option<JsonType>) -> Result<
    Shape,
    Fault,
> {
    match value {
        JsonValue::Array(values) => if values@.len() == 0 {
            Err(
                Fault::Value {
                    pointer: at,
                    keyword: "enum"@,
                    reason: "enum must not be empty"@,
                },
            )
        } else if enum_forms(values@, kind, values@.len()) == Set::<Seq<char>>::empty() {
            Ok(Shape::Never)
        } else {
            Ok(Shape::Enum(enum_forms(values@, kind, values@.len())))
        },
        _ => Err(
            Fault::Value { pointer: at, keyword: "enum"@, reason: "enum must be an array"@ },
        ),
    }
}

/// Turns texts into canonical values.
fn wrap_texts(list: Vec<String>) -> (values: Vec<CanonicalValue>)
    ensures
        forms(values@) == text::texts(list@),
{
    let mut values: Vec<CanonicalValue> = Vec::new();
    let mut index: usize = 0;
    while index < list.len()
        invariant
            index <= list@.len(),
            forms(values@) =~= text::texts(list@).take(index as int),
        decreases list@.len() - index,
    {
        let ghost before = values@;
        values.push(CanonicalValue { json: list[index].clone() });
        assert(forms(values@) =~= forms(before).push(list@[index as int]@));
        index += 1;
    }
    values
}

/// Normalizes an enumeration.
fn normalize_enum(at: &SchemaPointer, value: &JsonValue, kind: Option<JsonType>) -> (result: Result<
    NormalizedSchema,
    CompileError,
>)
    ensures
        yields(result, enum_shape(at.0@, *value, kind)),
        forall|count: nat| #[trigger] bound_within(result, count),
{
    let values = match value {
        JsonValue::Array(values) => values,
        _ => {
            return Err(invalid_value(at, "enum", "enum must be an array"));
        },
    };
    if values.len() == 0 {
        return Err(invalid_value(at, "enum", "enum must not be empty"));
    }
    let mut list: Vec<String> = Vec::new();
    let mut index: usize = 0;
    proof {
        assert(text::texts(list@) =~= Seq::<Seq<char>>::empty());
        assert(text::texts(list@).to_set() =~= Set::<Seq<char>>::empty());
    }
    while index < values.len()
        invariant
            *value == JsonValue::Array(*values),
            values@.len() > 0,
            index <= values@.len(),
            text::ascending(text::texts(list@)),
            text::texts(list@).to_set() == enum_forms(values@, kind, index as nat),
        decreases values@.len() - index,
    {
        if matches_optional(&values[index], kind) {
            match canonical_value(&values[index]) {
                Ok(form) => {
                    text::insert_text(&mut list, form.json);
                },
                Err(error) => {
                    return Err(error);
                },
            }
        }
        index += 1;
    }
    let ghost set = text::texts(list@).to_set();
    if list.len() == 0 {
        assert(set =~= Set::<Seq<char>>::empty()) by {
            assert(text::texts(list@) =~= Seq::<Seq<char>>::empty());
        }
        return Ok(NormalizedSchema::Never);
    }
    proof {
        assert(text::texts(list@)[0] == list@[0]@);
        assert(set.contains(list@[0]@));
    }
    Ok(NormalizedSchema::Enum(wrap_texts(list)))
}

/// The fault of a dialect that is not read.
pub open spec fn dialect_fault(at: Seq<char>, members: Seq<JsonMember>) -> Option<Fault> {
    match json::find(members, "$schema"@) {
        None => None,
        Some(JsonValue::String(found)) => if found@ == schema::DRAFT_2020_12@ || found@
            == schema::DRAFT_2020_12@ + "#"@ {
            None
        } else {
            Some(Fault::Dialect { found: found@ })
        },
        Some(_) => Some(
            Fault::Value {
                pointer: at,
                keyword: "$schema"@,
                reason: "the dialect identifier must be a string"@,
            },
        ),
    }
}

/// Checks the dialect of a schema.
fn validate_dialect(at: &SchemaPointer, members: &Vec<JsonMember>) -> (result: Result<
    (),
    CompileError,
>)
    ensures
        checked(result, dialect_fault(at.0@, members@)),
{
    match json::get(members, "$schema") {
        None => Ok(()),
        Some(JsonValue::String(found)) => {
            let mut closed = schema::DRAFT_2020_12.to_owned();
            closed.append("#");
            if text::same_text(found.as_str(), schema::DRAFT_2020_12) || text::same_text(
                found.as_str(),
                closed.as_str(),
            ) {
                Ok(())
            } else {
                Err(CompileError::UnsupportedDialect { found: found.clone() })
            }
        },
        Some(_) => Err(
            invalid_value(at, "$schema", "the dialect identifier must be a string"),
        ),
    }
}

/// The normal form of a reference, where there are `edges` references before it.
pub open spec fn ref_shape(
    at: Seq<char>,
    value: JsonValue,
    list: Seq<Seq<char>>,
    edges: nat,
    limits: CompileLimits,
) -> Result<Shape, Fault> {
    match value {
        JsonValue::String(reference) => match pointer::resolved(at, reference@) {
            Err(fault) => Err(fault),
            Ok(target) => match places::located(list, target) {
                None => Err(Fault::Missing { pointer: at, reference: reference@ }),
                Some(position) => if count::saturated(edges + 1) > limits.max_ref_edges {
                    Err(
                        Fault::Limit {
                            stage: CompileStage::ReferenceResolution,
                            observed: count::saturated(edges + 1),
                            limit: limits.max_ref_edges as nat,
                        },
                    )
                } else {
                    Ok(Shape::Ref(position))
                },
            },
        },
        _ => Err(
            Fault::Value {
                pointer: at,
                keyword: "$ref"@,
                reason: "a reference must be a string"@,
            },
        ),
    }
}

/// Finds the target of a reference.
fn normalize_ref(
    at: &SchemaPointer,
    value: &JsonValue,
    all: &SchemaPlaces,
    edges: usize,
    limits: &CompileLimits,
) -> (result: Result<NormalizedSchema, CompileError>)
    requires
        all.wf(),
        all.nodes@.len() <= u32::MAX + 1,
    ensures
        yields(
            result,
            ref_shape(
                at.0@,
                *value,
                places::pointers(places::places(all.nodes@)),
                edges as nat,
                *limits,
            ),
        ),
        bound_within(result, all.nodes@.len()),
{
    let ghost list = places::pointers(places::places(all.nodes@));
    let reference = match value {
        JsonValue::String(reference) => reference,
        _ => {
            return Err(invalid_value(at, "$ref", "a reference must be a string"));
        },
    };
    let target = match resolve_local_pointer(at, reference.as_str()) {
        Ok(target) => target,
        Err(error) => {
            return Err(error);
        },
    };
    let position = match all.index.find(target.0.as_str(), Ghost(list)) {
        Some(position) => position,
        None => {
            return Err(
                CompileError::ReferenceNotFound {
                    location: keyword_location(at, "$ref"),
                    reference: reference.clone(),
                },
            );
        },
    };
    match enforce_compile_limit(
        CompileStage::ReferenceResolution,
        edges.saturating_add(1),
        limits.max_ref_edges,
    ) {
        Ok(()) => {},
        Err(error) => {
            return Err(error);
        },
    }
    Ok(NormalizedSchema::Ref(SchemaId(position as u32)))
}

/// The normal form of a schema with keywords that go by its type.
pub open spec fn typed_shape(
    at: Seq<char>,
    members: Seq<JsonMember>,
    list: Seq<Seq<char>>,
    kind: Option<JsonType>,
) -> Result<Shape, Fault> {
    if object_keywords(members) {
        if kind != Some(JsonType::Object) {
            Err(
                Fault::Combination {
                    pointer: at,
                    reason: "object keywords require an explicit object type in K1"@,
                },
            )
        } else {
            object_shape(at, members, list)
        }
    } else if array_keywords(members) {
        if kind != Some(JsonType::Array) {
            Err(
                Fault::Combination {
                    pointer: at,
                    reason: "array keywords require an explicit array type in K1"@,
                },
            )
        } else {
            array_shape(at, members, list)
        }
    } else {
        match kind {
            None => Ok(Shape::Any),
            Some(JsonType::Null) => Ok(Shape::Null),
            Some(JsonType::Boolean) => Ok(Shape::Boolean),
            Some(JsonType::String) => string_shape(at, members),
            Some(JsonType::Number) => Ok(Shape::Number),
            Some(JsonType::Integer) => Ok(Shape::Integer),
            Some(JsonType::Array) => array_shape(at, members, list),
            Some(JsonType::Object) => object_shape(at, members, list),
        }
    }
}

/// The normal form of a schema with values or a type.
pub open spec fn value_shape(
    at: Seq<char>,
    members: Seq<JsonMember>,
    list: Seq<Seq<char>>,
) -> Result<Shape, Fault> {
    match declared_type(at, members) {
        Err(fault) => Err(fault),
        Ok(kind) => match json::find(members, "const"@) {
            Some(constant) => if json::has(members, "enum"@) || structural_keywords(members) {
                Err(
                    Fault::Combination {
                        pointer: at,
                        reason: "const cannot be combined with other value assertions in K1"@,
                    },
                )
            } else if !of_optional_type(constant, kind) {
                Ok(Shape::Never)
            } else {
                Ok(Shape::Const(json::canonical(constant)))
            },
            None => match json::find(members, "enum"@) {
                Some(values) => if structural_keywords(members) {
                    Err(
                        Fault::Combination {
                            pointer: at,
                            reason: "enum cannot be combined with structural assertions in K1"@,
                        },
                    )
                } else {
                    enum_shape(at, values, kind)
                },
                None => typed_shape(at, members, list, kind),
            },
        },
    }
}

/// The normal form of a schema that is an object, once its keywords are known to be in order.
pub open spec fn keyword_shape(
    at: Seq<char>,
    members: Seq<JsonMember>,
    list: Seq<Place>,
    edges: nat,
    limits: CompileLimits,
) -> Result<Shape, Fault> {
    let crowded = semantic_count(members) != 1 || structural_keywords(members);
    if json::has(members, "allOf"@) {
        if crowded {
            Err(
                Fault::Combination {
                    pointer: at,
                    reason: "allOf with adjacent assertions is not implemented exactly"@,
                },
            )
        } else {
            all_of_shape(at, members, list)
        }
    } else if json::has(members, "oneOf"@) {
        Err(
            Fault::Combination {
                pointer: at,
                reason: "exclusive oneOf requires exact Boolean automaton construction"@,
            },
        )
    } else if json::has(members, "anyOf"@) {
        if crowded {
            Err(
                Fault::Combination {
                    pointer: at,
                    reason: "anyOf with adjacent assertions is not implemented exactly"@,
                },
            )
        } else {
            match list_positions(
                at,
                "anyOf"@,
                json::find(members, "anyOf"@)->0,
                places::pointers(list),
            ) {
                Ok(branches) => Ok(Shape::Union(branches)),
                Err(fault) => Err(fault),
            }
        }
    } else if json::has(members, "$ref"@) {
        if crowded {
            Err(
                Fault::Combination {
                    pointer: at,
                    reason: "$ref siblings with assertions require exact intersection"@,
                },
            )
        } else {
            ref_shape(
                at,
                json::find(members, "$ref"@)->0,
                places::pointers(list),
                edges,
                limits,
            )
        }
    } else {
        value_shape(at, members, places::pointers(list))
    }
}

/// The normal form of the schema at a place.
pub open spec fn node_shape(
    place: Place,
    list: Seq<Place>,
    edges: nat,
    limits: CompileLimits,
) -> Result<Shape, Fault> {
    let at = place.pointer;
    match place.value {
        JsonValue::Bool(allowed) => if allowed {
            Ok(Shape::Any)
        } else {
            Ok(Shape::Never)
        },
        JsonValue::Object(members) => match first_of(
            keyword_fault(at, members@),
            first_of(container_fault(at, members@), dialect_fault(at, members@)),
        ) {
            Some(fault) => Err(fault),
            None => keyword_shape(at, members@, list, edges, limits),
        },
        _ => Err(
            Fault::Value {
                pointer: at,
                keyword: "schema"@,
                reason: "a schema must be a boolean or object"@,
            },
        ),
    }
}

/// Normalizes a schema with keywords that go by its type.
fn normalize_typed(
    at: &SchemaPointer,
    members: &Vec<JsonMember>,
    all: &SchemaPlaces,
    kind: Option<JsonType>,
) -> (result: Result<NormalizedSchema, CompileError>)
    requires
        all.wf(),
        all.nodes@.len() <= u32::MAX + 1,
    ensures
        yields(
            result,
            typed_shape(at.0@, members@, places::pointers(places::places(all.nodes@)), kind),
        ),
        bound_within(result, all.nodes@.len()),
{
    if has_object_keywords(members) {
        return match kind {
            Some(JsonType::Object) => normalize_object(at, members, all),
            _ => Err(
                unsupported_combination(
                    at,
                    "object keywords require an explicit object type in K1",
                ),
            ),
        };
    }
    if has_array_keywords(members) {
        return match kind {
            Some(JsonType::Array) => normalize_array(at, members, all),
            _ => Err(
                unsupported_combination(at, "array keywords require an explicit array type in K1"),
            ),
        };
    }
    match kind {
        None => Ok(NormalizedSchema::Any),
        Some(JsonType::Null) => Ok(NormalizedSchema::Null),
        Some(JsonType::Boolean) => Ok(NormalizedSchema::Boolean),
        Some(JsonType::String) => normalize_string(at, members),
        Some(JsonType::Number) => Ok(NormalizedSchema::Number),
        Some(JsonType::Integer) => Ok(NormalizedSchema::Integer),
        Some(JsonType::Array) => normalize_array(at, members, all),
        Some(JsonType::Object) => normalize_object(at, members, all),
    }
}

/// Normalizes a schema with values or a type.
fn normalize_value(
    at: &SchemaPointer,
    members: &Vec<JsonMember>,
    all: &SchemaPlaces,
) -> (result: Result<NormalizedSchema, CompileError>)
    requires
        all.wf(),
        all.nodes@.len() <= u32::MAX + 1,
    ensures
        yields(
            result,
            value_shape(at.0@, members@, places::pointers(places::places(all.nodes@))),
        ),
        bound_within(result, all.nodes@.len()),
{
    let kind = match parse_declared_type(at, members) {
        Ok(kind) => kind,
        Err(error) => {
            return Err(error);
        },
    };
    match json::get(members, "const") {
        Some(constant) => {
            if json::contains(members, "enum") || has_structural_keywords(members) {
                return Err(
                    unsupported_combination(
                        at,
                        "const cannot be combined with other value assertions in K1",
                    ),
                );
            }
            if !matches_optional(constant, kind) {
                return Ok(NormalizedSchema::Never);
            }
            return match canonical_value(constant) {
                Ok(form) => Ok(NormalizedSchema::Const(form)),
                Err(error) => Err(error),
            };
        },
        None => {},
    }
    match json::get(members, "enum") {
        Some(values) => {
            if has_structural_keywords(members) {
                return Err(
                    unsupported_combination(
                        at,
                        "enum cannot be combined with structural assertions in K1",
                    ),
                );
            }
            let result = normalize_enum(at, values, kind);
            assert(bound_within(result, all.nodes@.len()));
            return result;
        },
        None => {},
    }
    normalize_typed(at, members, all, kind)
}

/// Normalizes a schema that is an object, once its keywords are known to be in order.
fn normalize_keywords(
    at: &SchemaPointer,
    members: &Vec<JsonMember>,
    all: &SchemaPlaces,
    edges: usize,
    limits: &CompileLimits,
) -> (result: Result<NormalizedSchema, CompileError>)
    requires
        all.wf(),
        all.nodes@.len() <= u32::MAX + 1,
    ensures
        yields(
            result,
            keyword_shape(
                at.0@,
                members@,
                places::places(all.nodes@),
                edges as nat,
                *limits,
            ),
        ),
        bound_within(result, all.nodes@.len()),
{
    let crowded = count_semantic(members) != 1 || has_structural_keywords(members);
    if json::contains(members, "allOf") {
        if crowded {
            return Err(
                unsupported_combination(
                    at,
                    "allOf with adjacent assertions is not implemented exactly",
                ),
            );
        }
        return normalize_simple_all_of(at, members, all);
    }
    if json::contains(members, "oneOf") {
        return Err(
            unsupported_combination(
                at,
                "exclusive oneOf requires exact Boolean automaton construction",
            ),
        );
    }
    match json::get(members, "anyOf") {
        Some(branches) => {
            if crowded {
                return Err(
                    unsupported_combination(
                        at,
                        "anyOf with adjacent assertions is not implemented exactly",
                    ),
                );
            }
            return match child_ids(at, "anyOf", branches, all) {
                Ok(ids) => Ok(NormalizedSchema::Union(ids)),
                Err(error) => Err(error),
            };
        },
        None => {},
    }
    match json::get(members, "$ref") {
        Some(reference) => {
            if crowded {
                return Err(
                    unsupported_combination(
                        at,
                        "$ref siblings with assertions require exact intersection",
                    ),
                );
            }
            return normalize_ref(at, reference, all, edges, limits);
        },
        None => {},
    }
    normalize_value(at, members, all)
}

/// Normalizes the schema at a place.
fn normalize_node(
    position: usize,
    all: &SchemaPlaces,
    edges: usize,
    limits: &CompileLimits,
) -> (result: Result<NormalizedSchema, CompileError>)
    requires
        all.wf(),
        all.nodes@.len() <= u32::MAX + 1,
        position < all.nodes@.len(),
    ensures
        yields(
            result,
            node_shape(
                all.nodes@[position as int]@,
                places::places(all.nodes@),
                edges as nat,
                *limits,
            ),
        ),
        bound_within(result, all.nodes@.len()),
{
    let node = &all.nodes[position];
    let at = &node.pointer;
    let members = match node.value {
        JsonValue::Bool(allowed) => {
            return if *allowed {
                Ok(NormalizedSchema::Any)
            } else {
                Ok(NormalizedSchema::Never)
            };
        },
        JsonValue::Object(members) => members,
        _ => {
            return Err(invalid_value(at, "schema", "a schema must be a boolean or object"));
        },
    };
    match validate_keywords(at, members) {
        Ok(()) => {},
        Err(error) => {
            return Err(error);
        },
    }
    match validate_containers(at, members) {
        Ok(()) => {},
        Err(error) => {
            return Err(error);
        },
    }
    match validate_dialect(at, members) {
        Ok(()) => {},
        Err(error) => {
            return Err(error);
        },
    }
    normalize_keywords(at, members, all, edges, limits)
}

/// The number of references among shapes.
pub open spec fn ref_count(shapes: Seq<Shape>) -> nat
    decreases shapes.len(),
{
    if shapes.len() == 0 {
        0
    } else {
        ref_count(shapes.drop_last()) + if shapes.last() is Ref {
            1nat
        } else {
            0nat
        }
    }
}

/// The references among shapes: from which schema, to which.
pub open spec fn references(shapes: Seq<Shape>) -> Seq<(int, int)>
    decreases shapes.len(),
{
    if shapes.len() == 0 {
        Seq::empty()
    } else {
        let before = references(shapes.drop_last());
        match shapes.last() {
            Shape::Ref(target) => before.push((shapes.len() - 1, target)),
            _ => before,
        }
    }
}

/// The normal forms of the first `n` schemas, or the fault of the first that has one.
pub open spec fn shapes_of(list: Seq<Place>, n: nat, limits: CompileLimits) -> Result<
    Seq<Shape>,
    Fault,
>
    decreases n,
{
    if n == 0 || n > list.len() {
        Ok(Seq::empty())
    } else {
        match shapes_of(list, (n - 1) as nat, limits) {
            Err(fault) => Err(fault),
            Ok(before) => match node_shape(list[n - 1], list, ref_count(before), limits) {
                Err(fault) => Err(fault),
                Ok(shape) => Ok(before.push(shape)),
            },
        }
    }
}

/// The places and normal forms of the schemas of a document, or why there are none.
pub open spec fn normal_form(root: JsonValue, limits: CompileLimits) -> Result<
    (Seq<Place>, Seq<Shape>),
    Fault,
> {
    if !json::spec_is_schema(root) {
        Err(
            Fault::Value {
                pointer: Seq::empty(),
                keyword: "schema"@,
                reason: "a schema must be a boolean or object"@,
            },
        )
    } else {
        match places::schema_places(root, limits.max_schema_nodes as nat) {
            Err(fault) => Err(fault),
            Ok(list) => if list.len() > u32::MAX + 1 {
                Err(
                    Fault::Limit {
                        stage: CompileStage::SchemaIndex,
                        observed: (u32::MAX + 1) as nat,
                        limit: u32::MAX as nat,
                    },
                )
            } else {
                match shapes_of(list, list.len(), limits) {
                    Err(fault) => Err(fault),
                    Ok(shapes) => Ok((list, shapes)),
                }
            },
        }
    }
}

/// Whether a provenance is a pointer, with or without a keyword.
pub open spec fn comes_from(
    provenance: Provenance,
    at: Seq<char>,
    keyword: Option<Seq<char>>,
) -> bool {
    &&& provenance.resource.0 == 0
    &&& provenance.pointer.0@ == at
    &&& grammar::optional_view(provenance.keyword) == keyword
}

/// Whether a node is the normal form of a place.
pub open spec fn node_shows(node: SchemaNode, id: int, place: Place, shape: Shape) -> bool {
    &&& node.id.0 == id
    &&& comes_from(node.provenance, place.pointer, None)
    &&& shows(node.kind, shape)
}

/// Whether an edge is a reference.
pub open spec fn edge_shows(edge: ReferenceEdge, ends: (int, int), list: Seq<Place>) -> bool {
    &&& edge.from.0 == ends.0
    &&& edge.to.0 == ends.1
    &&& comes_from(edge.provenance, list[ends.0].pointer, Some("$ref"@))
}

/// Whether nodes are the normal forms of places.
pub open spec fn nodes_show(
    nodes: Seq<SchemaNode>,
    list: Seq<Place>,
    shapes: Seq<Shape>,
) -> bool {
    &&& nodes.len() == shapes.len()
    &&& forall|i: int|
        0 <= i < nodes.len() ==> node_shows(#[trigger] nodes[i], i, list[i], shapes[i])
}

/// Whether edges are the references among normal forms.
pub open spec fn edges_show(
    edges: Seq<ReferenceEdge>,
    list: Seq<Place>,
    shapes: Seq<Shape>,
) -> bool {
    &&& edges.len() == references(shapes).len()
    &&& forall|i: int|
        0 <= i < edges.len() ==> edge_shows(#[trigger] edges[i], references(shapes)[i], list)
}

/// Whether an arena holds the normal forms of a document's schemas.
pub open spec fn arena_shows(
    arena: SchemaArena,
    list: Seq<Place>,
    shapes: Seq<Shape>,
) -> bool {
    &&& arena.root.0 == 0
    &&& nodes_show(arena.nodes@, list, shapes)
    &&& edges_show(arena.reference_edges@, list, shapes)
    &&& list.len() == shapes.len()
}

proof fn lemma_ref_count(shapes: Seq<Shape>)
    ensures
        references(shapes).len() == ref_count(shapes),
    decreases shapes.len(),
{
    if shapes.len() > 0 {
        lemma_ref_count(shapes.drop_last());
    }
}

proof fn lemma_shapes(list: Seq<Place>, n: nat, m: nat, limits: CompileLimits)
    requires
        0 < n <= m <= list.len(),
        shapes_of(list, n, limits) is Err,
    ensures
        shapes_of(list, m, limits) == shapes_of(list, n, limits),
    decreases m,
{
    if n < m {
        lemma_shapes(list, n, (m - 1) as nat, limits);
    }
}

proof fn lemma_walk_keeps(work: Seq<Place>, found: Seq<Place>, limit: nat)
    requires
        found.len() <= limit,
    ensures
        places::walk(work, found, limit) matches Ok(list) ==> found.len() <= list.len() && (
        found.len() == 0 && work.len() > 0 ==> list.len() > 0),
    decreases limit - found.len(), work.len(),
{
    if work.len() > 0 {
        if places::pointers(found).contains(work.last().pointer) {
            lemma_walk_keeps(work.drop_last(), found, limit);
        } else if found.len() < limit {
            lemma_walk_keeps(
                work.drop_last() + places::ordered(places::children(work.last())).reverse(),
                found.push(work.last()),
                limit,
            );
        }
    }
}

/// Brings the schemas of a document into their normal form.
pub fn normalize_schema(root: &JsonValue, options: &CompileOptions) -> (result: Result<
    SchemaArena,
    CompileError,
>)
    requires
        json::sorted(*root),
    ensures
        match normal_form(*root, options.limits) {
            Ok((list, shapes)) => result matches Ok(arena) && arena.wf() && arena.ascends()
                && arena_shows(
                arena,
                list,
                shapes,
            ),
            Err(fault) => result matches Err(error) && fault::says(error, fault),
        },
{
    let limits = &options.limits;
    if !json::is_schema(root) {
        let top = SchemaPointer(String::new());
        assert(top.0@ =~= Seq::<char>::empty());
        return Err(invalid_value(&top, "schema", "a schema must be a boolean or object"));
    }
    let all = match index_schema_locations(root, limits.max_schema_nodes) {
        Ok(all) => all,
        Err(error) => {
            return Err(error);
        },
    };
    let ghost list = places::places(all.nodes@);
    proof {
        lemma_walk_keeps(
            seq![Place { pointer: Seq::empty(), value: *root }],
            Seq::empty(),
            limits.max_schema_nodes as nat,
        );
    }
    let most: usize = (u32::MAX as usize).saturating_add(1);
    if all.nodes.len() > most {
        return Err(
            CompileError::ResourceLimitExceeded {
                stage: CompileStage::SchemaIndex,
                observed: most,
                limit: u32::MAX as usize,
            },
        );
    }
    let mut nodes: Vec<SchemaNode> = Vec::new();
    let mut edges: Vec<ReferenceEdge> = Vec::new();
    let ghost mut shapes = Seq::<Shape>::empty();
    while nodes.len() < all.nodes.len()
        invariant
            all.wf(),
            all.nodes@.len() <= u32::MAX + 1,
            list == places::places(all.nodes@),
            limits == &options.limits,
            normal_form(*root, *limits) == (match shapes_of(list, list.len(), *limits) {
                Err(fault) => Err::<(Seq<Place>, Seq<Shape>), Fault>(fault),
                Ok(shapes) => Ok((list, shapes)),
            }),
            nodes@.len() <= all.nodes@.len(),
            shapes_of(list, nodes@.len(), *limits) == Ok::<Seq<Shape>, Fault>(shapes),
            nodes_show(nodes@, list, shapes),
            edges_show(edges@, list, shapes),
            forall|i: int|
                0 <= i < nodes@.len() ==> schema::kind_within(
                    (#[trigger] nodes@[i]).kind,
                    all.nodes@.len(),
                ),
        decreases all.nodes@.len() - nodes@.len(),
    {
        let position: usize = nodes.len();
        let ghost next = (position + 1) as nat;
        proof {
            lemma_ref_count(shapes);
            if shapes_of(list, next, *limits) is Err {
                lemma_shapes(list, next, list.len(), *limits);
            }
            assert(list[position as int] == all.nodes@[position as int]@);
        }
        let kind = match normalize_node(position, &all, edges.len(), limits) {
            Ok(kind) => kind,
            Err(error) => {
                return Err(error);
            },
        };
        let id = SchemaId(position as u32);
        let at = &all.nodes[position].pointer;
        let ghost before = edges@;
        match &kind {
            NormalizedSchema::Ref(target) => {
                edges.push(
                    ReferenceEdge {
                        from: id,
                        to: *target,
                        provenance: Provenance {
                            resource: ResourceId(0),
                            pointer: at.clone(),
                            keyword: Some("$ref".to_owned()),
                        },
                    },
                );
            },
            _ => {},
        }
        let ghost earlier = nodes@;
        let ghost found = kind;
        nodes.push(
            SchemaNode {
                id,
                provenance: Provenance {
                    resource: ResourceId(0),
                    pointer: at.clone(),
                    keyword: None,
                },
                kind,
            },
        );
        proof {
            let shape = node_shape(
                list[position as int],
                list,
                ref_count(shapes),
                *limits,
            )->Ok_0;
            let more = shapes.push(shape);
            assert(more.drop_last() =~= shapes);
            assert(found is Ref <==> shape is Ref);
            assert(edges_show(edges@, list, more)) by {
                assert forall|i: int| 0 <= i < edges@.len() implies edge_shows(
                    #[trigger] edges@[i],
                    references(more)[i],
                    list,
                ) by {
                    if i < before.len() {
                        assert(edges@[i] == before[i]);
                    }
                }
            }
            assert(nodes_show(nodes@, list, more)) by {
                assert forall|i: int| 0 <= i < nodes@.len() implies node_shows(
                    #[trigger] nodes@[i],
                    i,
                    list[i],
                    more[i],
                ) by {
                    if i < position {
                        assert(nodes@[i] == earlier[i]);
                    }
                }
            }
            shapes = more;
        }
    }
    let arena = SchemaArena { root: SchemaId(0), nodes, reference_edges: edges };
    proof {
        order::law_properties_ascend(*root, options.limits, arena);
    }
    Ok(arena)
}

/// Refuses a document with more bytes than the limit.
pub fn check_schema_size(bytes: usize, options: &CompileOptions) -> (result: Result<
    (),
    CompileError,
>)
    ensures
        result is Ok <==> bytes <= options.limits.max_schema_bytes,
        result matches Err(error) ==> fault::says(
            error,
            Fault::Limit {
                stage: CompileStage::Parse,
                observed: bytes as nat,
                limit: options.limits.max_schema_bytes as nat,
            },
        ),
{
    enforce_compile_limit(CompileStage::Parse, bytes, options.limits.max_schema_bytes)
}

/// The error of a key that comes twice.
pub fn duplicate_key(key: String) -> (error: CompileError)
    ensures
        error matches CompileError::DuplicateSchemaKey { location, key: found } && fault::stands(
            location,
            Seq::empty(),
            None,
        ) && found == key,
{
    let top = String::new();
    assert(top@ =~= Seq::<char>::empty());
    CompileError::DuplicateSchemaKey {
        location: DiagnosticLocation {
            resource: ResourceId(0),
            pointer: SchemaPointer(top),
            keyword: None,
        },
        key,
    }
}

} // verus!
