//! Normalized schemas, their provenance, and the limits of compilation and recognition.

use vstd::prelude::*;

use crate::text;

verus! {

/// Identifies a node of a schema arena.
#[derive(Clone, Copy, Debug, PartialEq, Eq, Structural, Hash, PartialOrd, Ord)]
pub struct SchemaId(pub u32);

/// Identifies a schema resource.
#[derive(Clone, Copy, Debug, PartialEq, Eq, Structural, Hash, PartialOrd, Ord)]
pub struct ResourceId(pub u32);

/// A canonical JSON Pointer into the schema document.
#[derive(Debug, PartialEq, Eq, Hash, PartialOrd, Ord)]
pub struct SchemaPointer(pub String);

impl Clone for SchemaPointer {
    fn clone(&self) -> (copy: Self)
        ensures
            copy == *self,
    {
        SchemaPointer(self.0.clone())
    }
}

/// Copies an optional string.
pub fn clone_optional(value: &Option<String>) -> (copy: Option<String>)
    ensures
        copy == *value,
{
    match value {
        Some(text) => Some(text.clone()),
        None => None,
    }
}

/// Where in the schema an item of the grammar comes from.
#[derive(Debug, PartialEq, Eq)]
pub struct Provenance {
    pub resource: ResourceId,
    pub pointer: SchemaPointer,
    pub keyword: Option<String>,
}

impl Clone for Provenance {
    fn clone(&self) -> (copy: Self)
        ensures
            copy == *self,
    {
        Provenance {
            resource: self.resource,
            pointer: self.pointer.clone(),
            keyword: clone_optional(&self.keyword),
        }
    }
}

/// Where in the schema a diagnostic points.
#[derive(Debug, PartialEq, Eq)]
pub struct DiagnosticLocation {
    pub resource: ResourceId,
    pub pointer: SchemaPointer,
    pub keyword: Option<String>,
}

impl Clone for DiagnosticLocation {
    fn clone(&self) -> (copy: Self)
        ensures
            copy == *self,
    {
        DiagnosticLocation {
            resource: self.resource,
            pointer: self.pointer.clone(),
            keyword: clone_optional(&self.keyword),
        }
    }
}

impl Provenance {
    /// The location that a provenance stands for.
    pub open spec fn spec_location(self) -> DiagnosticLocation {
        DiagnosticLocation {
            resource: self.resource,
            pointer: self.pointer,
            keyword: self.keyword,
        }
    }

    /// The same place as a diagnostic location.
    pub fn location(&self) -> (location: DiagnosticLocation)
        ensures
            location == self.spec_location(),
    {
        DiagnosticLocation {
            resource: self.resource,
            pointer: self.pointer.clone(),
            keyword: clone_optional(&self.keyword),
        }
    }
}

/// Limits of every compilation stage.
#[derive(Clone, Copy, Debug)]
pub struct CompileLimits {
    pub max_schema_bytes: usize,
    pub max_schema_nodes: usize,
    pub max_ref_edges: usize,
    pub max_symbols: usize,
    pub max_productions: usize,
    pub max_rhs_symbols: usize,
    pub max_nfa_states: usize,
    pub max_nfa_transitions: usize,
    pub max_dfa_states: usize,
    pub max_dfa_bytes: usize,
    pub max_lr_states: usize,
    pub max_lr_items: usize,
    pub max_action_entries: usize,
    pub max_goto_entries: usize,
    pub max_reported_conflicts: usize,
    pub max_trie_nodes: usize,
    pub max_trie_edges: usize,
    pub max_trie_terminal_ids: usize,
    pub max_token_bytes: usize,
    pub max_total_token_bytes: usize,
    pub max_vocabulary_slots: usize,
}

impl Default for CompileLimits {
    fn default() -> (limits: Self)
        ensures
            limits == (CompileLimits {
                max_schema_bytes: 8_388_608,
                max_schema_nodes: 100_000,
                max_ref_edges: 200_000,
                max_symbols: 500_000,
                max_productions: 1_000_000,
                max_rhs_symbols: 4_000_000,
                max_nfa_states: 1_000_000,
                max_nfa_transitions: 4_000_000,
                max_dfa_states: 200_000,
                max_dfa_bytes: 536_870_912,
                max_lr_states: 100_000,
                max_lr_items: 2_000_000,
                max_action_entries: 2_000_000,
                max_goto_entries: 2_000_000,
                max_reported_conflicts: 10_000,
                max_trie_nodes: 16_000_000,
                max_trie_edges: 16_000_000,
                max_trie_terminal_ids: 4_000_000,
                max_token_bytes: 1_048_576,
                max_total_token_bytes: 268_435_456,
                max_vocabulary_slots: 16_777_216,
            }),
    {
        CompileLimits {
            max_schema_bytes: 8 * 1024 * 1024,
            max_schema_nodes: 100_000,
            max_ref_edges: 200_000,
            max_symbols: 500_000,
            max_productions: 1_000_000,
            max_rhs_symbols: 4_000_000,
            max_nfa_states: 1_000_000,
            max_nfa_transitions: 4_000_000,
            max_dfa_states: 200_000,
            max_dfa_bytes: 512 * 1024 * 1024,
            max_lr_states: 100_000,
            max_lr_items: 2_000_000,
            max_action_entries: 2_000_000,
            max_goto_entries: 2_000_000,
            max_reported_conflicts: 10_000,
            max_trie_nodes: 16_000_000,
            max_trie_edges: 16_000_000,
            max_trie_terminal_ids: 4_000_000,
            max_token_bytes: 1_048_576,
            max_total_token_bytes: 256 * 1024 * 1024,
            max_vocabulary_slots: 16_777_216,
        }
    }
}

/// Options of a compilation.
#[derive(Clone, Copy, Debug)]
pub struct CompileOptions {
    pub limits: CompileLimits,
}

impl Default for CompileOptions {
    fn default() -> (options: Self)
        ensures
            call_ensures(CompileLimits::default, (), options.limits),
    {
        CompileOptions { limits: CompileLimits::default() }
    }
}

/// Limits of a running recognizer or guide.
#[derive(Clone, Copy, Debug, PartialEq, Eq)]
pub struct RuntimeLimits {
    pub max_input_bytes: usize,
    pub max_parse_stack: usize,
    pub max_chart_columns: usize,
    pub max_items_per_column: usize,
    pub max_total_items: usize,
    pub max_active_scans: usize,
    pub max_leo_items: usize,
    pub max_checkpoint_history: usize,
    pub max_mask_trie_edges: usize,
    pub max_committed_tokens: usize,
}

impl Default for RuntimeLimits {
    fn default() -> (limits: Self)
        ensures
            limits == (RuntimeLimits {
                max_input_bytes: 16_777_216,
                max_parse_stack: 1_000_000,
                max_chart_columns: 16_777_217,
                max_items_per_column: 1_000_000,
                max_total_items: 50_000_000,
                max_active_scans: 1_000_000,
                max_leo_items: 50_000_000,
                max_checkpoint_history: 65_536,
                max_mask_trie_edges: 50_000_000,
                max_committed_tokens: 16_000_000,
            }),
    {
        RuntimeLimits {
            max_input_bytes: 16 * 1024 * 1024,
            max_parse_stack: 1_000_000,
            max_chart_columns: 16 * 1024 * 1024 + 1,
            max_items_per_column: 1_000_000,
            max_total_items: 50_000_000,
            max_active_scans: 1_000_000,
            max_leo_items: 50_000_000,
            max_checkpoint_history: 65_536,
            max_mask_trie_edges: 50_000_000,
            max_committed_tokens: 16_000_000,
        }
    }
}

/// The version of the compiled format.
pub const COMPILED_FORMAT_VERSION: u32 = 1;

/// The profile of schemas that is compiled.
pub const PROFILE_ID: &'static str = "K1";

/// The canonical form of JSON that is recognized.
pub const CANONICAL_POLICY_ID: &'static str = "oc-earley-json-compact-v1";

/// The dialect of schemas that is read.
pub const DRAFT_2020_12: &'static str = "https://json-schema.org/draft/2020-12/schema";

/// A JSON value in its canonical form.
#[derive(Debug, PartialEq, Eq)]
pub struct CanonicalValue {
    pub json: String,
}

/// The types of JSON values.
#[derive(Clone, Copy, Debug, PartialEq, Eq, Structural)]
pub enum JsonType {
    Null,
    Boolean,
    String,
    Number,
    Integer,
    Array,
    Object,
}

/// What is asked of a string.
#[derive(Clone, Copy, Debug, PartialEq, Eq)]
pub struct StringConstraints {
    pub min_length: usize,
    pub max_length: Option<usize>,
}

/// What is asked of an array.
#[derive(Debug, PartialEq, Eq)]
pub struct ArrayConstraints {
    pub prefix_items: Vec<SchemaId>,
    pub items: Option<SchemaId>,
    pub min_items: usize,
    pub max_items: Option<usize>,
}

/// What is asked of the properties that are not named.
#[derive(Clone, Copy, Debug, PartialEq, Eq, Structural)]
pub enum AdditionalProperties {
    Forbidden,
    Unconstrained,
    Schema(SchemaId),
}

/// A property and its schema.
#[derive(Debug, PartialEq, Eq)]
pub struct Property {
    pub name: String,
    pub schema: SchemaId,
}

/// What is asked of an object.
#[derive(Debug, PartialEq, Eq)]
pub struct ObjectConstraints {
    pub properties: Vec<Property>,
    pub required: Vec<String>,
    pub additional_properties: AdditionalProperties,
}

/// A schema in its normal form.
#[derive(Debug, PartialEq, Eq)]
pub enum NormalizedSchema {
    Any,
    Never,
    Null,
    Boolean,
    String(StringConstraints),
    Number,
    Integer,
    Const(CanonicalValue),
    Enum(Vec<CanonicalValue>),
    Array(ArrayConstraints),
    Object(ObjectConstraints),
    Union(Vec<SchemaId>),
    Ref(SchemaId),
}

/// A node of a schema arena.
#[derive(Debug, PartialEq, Eq)]
pub struct SchemaNode {
    pub id: SchemaId,
    pub provenance: Provenance,
    pub kind: NormalizedSchema,
}

/// A reference from one node to another.
#[derive(Debug, PartialEq, Eq)]
pub struct ReferenceEdge {
    pub from: SchemaId,
    pub to: SchemaId,
    pub provenance: Provenance,
}

/// The nodes of a schema.
#[derive(Debug, PartialEq, Eq)]
pub struct SchemaArena {
    pub root: SchemaId,
    pub nodes: Vec<SchemaNode>,
    pub reference_edges: Vec<ReferenceEdge>,
}

/// Whether a schema names only nodes below `count`.
pub open spec fn kind_within(kind: NormalizedSchema, count: nat) -> bool {
    match kind {
        NormalizedSchema::Array(array) => {
            &&& forall|i: int|
                0 <= i < array.prefix_items@.len() ==> (#[trigger] array.prefix_items@[i]).0 < count
            &&& array.items matches Some(id) ==> id.0 < count
        },
        NormalizedSchema::Object(object) => {
            &&& forall|i: int|
                0 <= i < object.properties@.len() ==> (#[trigger] object.properties@[i]).schema.0
                    < count
            &&& object.additional_properties matches AdditionalProperties::Schema(id) ==> id.0 < count
        },
        NormalizedSchema::Union(branches) => forall|i: int|
            0 <= i < branches@.len() ==> (#[trigger] branches@[i]).0 < count,
        NormalizedSchema::Ref(id) => id.0 < count,
        _ => true,
    }
}

impl ObjectConstraints {
    /// The names of the properties.
    pub open spec fn names(&self) -> Seq<Seq<char>> {
        self.properties@.map_values(|property: Property| property.name@)
    }

    /// Whether properties and required names come in ascending order.
    pub open spec fn ascends(&self) -> bool {
        text::ascending(self.names()) && text::ascending(text::texts(self.required@))
    }
}

impl SchemaArena {
    /// Whether the properties and the required names of every object come in ascending order.
    pub open spec fn ascends(&self) -> bool {
        forall|i: int|
            0 <= i < self.nodes@.len() ==> (
            #[trigger] self.nodes@[i].kind matches NormalizedSchema::Object(object)
                ==> object.ascends())
    }

    /// Whether nodes stand at their identifiers, and every identifier names a node.
    pub open spec fn wf(&self) -> bool {
        &&& self.root.0 < self.nodes@.len() <= u32::MAX + 1
        &&& forall|i: int|
            0 <= i < self.nodes@.len() ==> (#[trigger] self.nodes@[i]).id.0 == i && kind_within(
                self.nodes@[i].kind,
                self.nodes@.len(),
            )
    }

    /// The node of an identifier.
    pub fn node(&self, id: SchemaId) -> (node: Option<&SchemaNode>)
        ensures
            node is Some <==> id.0 < self.nodes@.len(),
            node matches Some(found) ==> *found == self.nodes@[id.0 as int],
    {
        if (id.0 as usize) < self.nodes.len() {
            Some(&self.nodes[id.0 as usize])
        } else {
            None
        }
    }
}

} // verus!
