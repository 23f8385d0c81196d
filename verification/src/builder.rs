//! Builds a grammar symbol by symbol, within limits.

use vstd::prelude::*;
use vstd::utf8;

use crate::count;
use crate::dense;
use crate::derivation::Rule;
use crate::error::{enforce_compile_limit, resource_error, to_u32, CompileError, CompileStage};
use crate::grammar;
use crate::grammar::{Nonterminal, Production, RegularTerminal, RegularTerminalKind};
use crate::language::Role;
use crate::lowering;
use crate::residual;
use crate::schema::{clone_optional, CompileLimits, NormalizedSchema, Provenance, SchemaNode};
use crate::symbol::{NonterminalId, Symbol, TerminalId};
use crate::text;

verus! {

/// A literal of one place of the schema, and its terminal.
pub struct CachedLiteral {
    pub bytes: Vec<u8>,
    pub pointer: String,
    pub keyword: Option<String>,
    pub terminal: TerminalId,
}

/// By what literals are told apart: the bytes, the pointer of the place and its keyword.
pub struct LiteralKey {
    pub bytes: Seq<u8>,
    pub pointer: Seq<char>,
    pub keyword: Option<Seq<char>>,
}

/// The key of a literal of a place.
pub open spec fn literal_key(bytes: Seq<u8>, provenance: Provenance) -> LiteralKey {
    LiteralKey {
        bytes,
        pointer: provenance.pointer.0@,
        keyword: grammar::optional_view(provenance.keyword),
    }
}

impl CachedLiteral {
    /// The key of a cached literal.
    pub open spec fn key(self) -> LiteralKey {
        LiteralKey {
            bytes: self.bytes@,
            pointer: self.pointer@,
            keyword: grammar::optional_view(self.keyword),
        }
    }
}

/// Whether one keyword comes before another. None comes before all.
pub open spec fn keyword_before(left: Option<Seq<char>>, right: Option<Seq<char>>) -> bool {
    match (left, right) {
        (Some(left), Some(right)) => text::text_before(left, right),
        (None, Some(_)) => true,
        _ => false,
    }
}

/// Whether one key comes before another: by its bytes, then by its pointer, then by its keyword.
pub open spec fn key_before(left: LiteralKey, right: LiteralKey) -> bool {
    if left.bytes != right.bytes {
        text::bytes_before(left.bytes, right.bytes)
    } else if left.pointer != right.pointer {
        text::text_before(left.pointer, right.pointer)
    } else {
        keyword_before(left.keyword, right.keyword)
    }
}

/// Whether literals come in strictly ascending order of their keys.
pub open spec fn ordered(cache: Seq<CachedLiteral>) -> bool {
    forall|i: int, j: int|
        0 <= i < j < cache.len() ==> key_before(
            (#[trigger] cache[i]).key(),
            (#[trigger] cache[j]).key(),
        )
}

/// Of two different keys exactly one comes before the other, and none before itself.
proof fn lemma_key_total(left: LiteralKey, right: LiteralKey)
    ensures
        key_before(left, right) || key_before(right, left) || left == right,
        !(key_before(left, right) && key_before(right, left)),
        !key_before(left, left),
{
    text::lemma_before_total(left.bytes, right.bytes);
    text::lemma_text_total(left.pointer, right.pointer);
    if let Some(l) = left.keyword {
        text::lemma_text_total(l, l);
        if let Some(r) = right.keyword {
            text::lemma_text_total(l, r);
        }
    }
}

/// What comes before a key comes before all that follow it.
proof fn lemma_key_transitive(first: LiteralKey, second: LiteralKey, third: LiteralKey)
    requires
        key_before(first, second),
        key_before(second, third),
    ensures
        key_before(first, third),
{
    text::lemma_before_total(first.bytes, second.bytes);
    text::lemma_text_total(first.pointer, second.pointer);
    if first.bytes != second.bytes && second.bytes != third.bytes {
        text::lemma_before_transitive(first.bytes, second.bytes, third.bytes);
    }
    if first.pointer != second.pointer && second.pointer != third.pointer && text::text_before(
        first.pointer,
        second.pointer,
    ) && text::text_before(second.pointer, third.pointer) {
        text::lemma_text_transitive(first.pointer, second.pointer, third.pointer);
    }
    if let (Some(a), Some(b), Some(c)) = (first.keyword, second.keyword, third.keyword) {
        if text::text_before(a, b) && text::text_before(b, c) {
            text::lemma_text_transitive(a, b, c);
        }
    }
}

/// A grammar that is being built. Each nonterminal has a role.
pub struct GrammarBuilder<'a> {
    pub limits: &'a CompileLimits,
    pub nonterminals: Vec<Nonterminal>,
    pub terminals: Vec<RegularTerminal>,
    pub productions: Vec<Production>,
    pub rhs_symbols: usize,
    pub literal_cache: Vec<CachedLiteral>,
    pub roles: Ghost<Seq<Role>>,
}

/// Whether an error says that what was built is full: with one symbol or production more, or with the
/// right-hand side that is to come, it is over a limit, and so much is observed.
pub open spec fn full(built: GrammarBuilder, nodes: Seq<SchemaNode>, error: CompileError) -> bool {
    error matches CompileError::ResourceLimitExceeded { stage, observed, limit } && stage
        == CompileStage::Lowering && {
        ||| limit == built.limits.max_symbols && observed == count::saturated(built.symbols() + 1)
            && (observed > limit || built.symbols() >= usize::MAX)
        ||| limit == built.limits.max_productions && observed == built.productions@.len() + 1
            && observed > limit
        ||| limit == built.limits.max_rhs_symbols && exists|lhs: u32, rhs: Seq<Symbol>|
            lhs < built.roles@.len() && #[trigger] lowering::form(
                nodes,
                built.roles@,
                built.terminals@,
                built.roles@[lhs as int],
                rhs,
            ) && observed == count::saturated(built.rhs_symbols as nat + rhs.len())
                && built.rhs_symbols + rhs.len() > limit
        ||| limit == u32::MAX && observed == limit + 1 && (built.nonterminals@.len() == observed
            || built.terminals@.len() == observed || built.productions@.len() == observed)
    }
}

/// Whether an error says that a grammar of some of the schemas, as far as it was built, is full.
pub open spec fn brims(limits: CompileLimits, nodes: Seq<SchemaNode>, error: CompileError) -> bool {
    exists|built: GrammarBuilder| #[trigger]
        built.wf(nodes) && *built.limits == limits && full(built, nodes, error)
}

/// Whether an error says that a schema needs more symbols than can be counted, and it may.
pub open spec fn uncounted(
    limits: CompileLimits,
    nodes: Seq<SchemaNode>,
    error: CompileError,
) -> bool {
    &&& error == (CompileError::ResourceLimitExceeded {
        stage: CompileStage::Lowering,
        observed: usize::MAX,
        limit: limits.max_symbols,
    })
    &&& exists|k: int|
        0 <= k < nodes.len() && lowering::node_cost(nodes, (#[trigger] nodes[k]).kind) > usize::MAX
}

/// Whether an error says which limit is below a bound of what a grammar needs, and it is, and what
/// was built is full, or cannot even be counted. The first symbol or production too many is observed, or the length of the
/// right-hand sides with the first too many. A sum that does not fit is observed as the largest
/// number.
pub open spec fn exceeded(
    limits: CompileLimits,
    nodes: Seq<SchemaNode>,
    error: CompileError,
    bound: int,
) -> bool {
    &&& brims(limits, nodes, error) || uncounted(limits, nodes, error)
    &&& error matches CompileError::ResourceLimitExceeded { stage, observed, limit } && stage
        == CompileStage::Lowering && limit < bound && {
        ||| limit == limits.max_symbols && (observed == limit + 1 || (observed == usize::MAX
            && usize::MAX < bound))
        ||| limit == limits.max_productions && observed == limit + 1
        ||| limit == limits.max_rhs_symbols && observed <= bound && (observed > limit || observed
            == usize::MAX)
        ||| limit == u32::MAX && observed == limit + 1
    }
}

/// How many symbols are on the right-hand sides of productions.
pub open spec fn rhs_total(productions: Seq<Production>) -> nat
    decreases productions.len(),
{
    if productions.len() == 0 {
        0
    } else {
        rhs_total(productions.drop_last()) + productions.last().rhs@.len()
    }
}

/// Whether a grammar keeps within the limits.
pub open spec fn keeps(
    limits: CompileLimits,
    nonterminals: nat,
    terminals: nat,
    productions: Seq<Production>,
) -> bool {
    &&& count::saturated(nonterminals + terminals) <= limits.max_symbols
    &&& productions.len() <= limits.max_productions
    &&& rhs_total(productions) <= limits.max_rhs_symbols
}

/// Whether a place is that of a node.
pub open spec fn placed(nodes: Seq<SchemaNode>, provenance: Provenance) -> bool {
    exists|n: int|
        0 <= n < nodes.len() && provenance.pointer == (#[trigger] nodes[n]).provenance.pointer
}

/// Whether a terminal is a text, or one of the patterns of the JSON scalars.
pub open spec fn plain_kind(kind: grammar::TerminalKind) -> bool {
    match kind {
        grammar::TerminalKind::Literal(bytes) => utf8::valid_utf8(bytes),
        grammar::TerminalKind::Pattern { forward, reverse } => dense::plain_pattern(forward) && (
        reverse matches Some(backward) ==> dense::plain_pattern(backward)),
    }
}

/// Whether each of a list stands at the same place in another.
pub open spec fn starts_with<T>(longer: Seq<T>, shorter: Seq<T>) -> bool {
    &&& shorter.len() <= longer.len()
    &&& forall|k: int| 0 <= k < shorter.len() ==> #[trigger] longer[k] == shorter[k]
}

/// A right-hand side stays one of a role as roles and terminals are added.
pub proof fn lemma_form_grows(
    nodes: Seq<SchemaNode>,
    roles: Seq<Role>,
    more_roles: Seq<Role>,
    terminals: Seq<RegularTerminal>,
    more_terminals: Seq<RegularTerminal>,
    role: Role,
    rhs: Seq<Symbol>,
)
    requires
        starts_with(more_roles, roles),
        starts_with(more_terminals, terminals),
        lowering::form(nodes, roles, terminals, role, rhs),
    ensures
        lowering::form(nodes, more_roles, more_terminals, role, rhs),
{
    assert forall|symbol: Symbol, bytes: Seq<u8>|
        lowering::literal(terminals, symbol, bytes) implies #[trigger] lowering::literal(
        more_terminals,
        symbol,
        bytes,
    ) by {}
    assert forall|symbol: Symbol, part: Role|
        lowering::plays(roles, symbol, part) implies #[trigger] lowering::plays(
        more_roles,
        symbol,
        part,
    ) by {}
    match role {
        Role::Schema(id) => match nodes[id].kind {
            NormalizedSchema::Enum(values) => {
                let v = choose|v: int|
                    0 <= v < values@.len() && lowering::literal(
                        terminals,
                        rhs[0],
                        utf8::encode_utf8((#[trigger] values@[v]).json@),
                    );
                assert(lowering::literal(
                    more_terminals,
                    rhs[0],
                    utf8::encode_utf8(values@[v].json@),
                ));
            },
            NormalizedSchema::Union(branches) => {
                let b = choose|b: int|
                    0 <= b < branches@.len() && lowering::plays(
                        roles,
                        rhs[0],
                        Role::Schema((#[trigger] branches@[b]).0 as int),
                    );
                assert(lowering::plays(more_roles, rhs[0], Role::Schema(branches@[b].0 as int)));
            },
            _ => {},
        },
        _ => {},
    }
}

/// The symbols of a right-hand side of a role are there.
pub proof fn lemma_form_within(
    nodes: Seq<SchemaNode>,
    roles: Seq<Role>,
    terminals: Seq<RegularTerminal>,
    role: Role,
    rhs: Seq<Symbol>,
)
    requires
        lowering::form(nodes, roles, terminals, role, rhs),
    ensures
        residual::symbols_in(rhs, roles.len(), terminals.len()),
{
    assert forall|i: int| 0 <= i < rhs.len() implies residual::symbol_in(
        #[trigger] rhs[i],
        roles.len(),
        terminals.len(),
    ) by {
        match role {
            Role::Schema(id) => match nodes[id].kind {
                NormalizedSchema::Enum(values) => {
                    let v = choose|v: int|
                        0 <= v < values@.len() && lowering::literal(
                            terminals,
                            rhs[0],
                            utf8::encode_utf8((#[trigger] values@[v]).json@),
                        );
                },
                NormalizedSchema::Union(branches) => {
                    let b = choose|b: int|
                        0 <= b < branches@.len() && lowering::plays(
                            roles,
                            rhs[0],
                            Role::Schema((#[trigger] branches@[b]).0 as int),
                        );
                },
                _ => {},
            },
            _ => {},
        }
    }
}

/// A nonterminal keeps its rules as roles, terminals and rules are added.
pub proof fn lemma_complete_grows(
    nodes: Seq<SchemaNode>,
    roles: Seq<Role>,
    more_roles: Seq<Role>,
    terminals: Seq<RegularTerminal>,
    more_terminals: Seq<RegularTerminal>,
    rules: Seq<Rule>,
    more_rules: Seq<Rule>,
    s: u32,
)
    requires
        s < roles.len(),
        starts_with(more_roles, roles),
        starts_with(more_terminals, terminals),
        starts_with(more_rules, rules),
        lowering::complete(nodes, roles, terminals, rules, s),
    ensures
        lowering::complete(nodes, more_roles, more_terminals, more_rules, s),
{
    lemma_rules_grow(roles, more_roles, terminals, more_terminals, rules, more_rules);
}

/// Rules stay as roles, terminals and rules are added.
pub proof fn lemma_rules_grow(
    roles: Seq<Role>,
    more_roles: Seq<Role>,
    terminals: Seq<RegularTerminal>,
    more_terminals: Seq<RegularTerminal>,
    rules: Seq<Rule>,
    more_rules: Seq<Rule>,
)
    requires
        starts_with(more_roles, roles),
        starts_with(more_terminals, terminals),
        starts_with(more_rules, rules),
    ensures
        forall|s: u32, least: int, most: int|
            lowering::has_rule(rules, s, least, most) ==> #[trigger] lowering::has_rule(
                more_rules,
                s,
                least,
                most,
            ),
        forall|s: u32, bytes: Seq<u8>|
            lowering::has_literal(terminals, rules, s, bytes) ==> #[trigger] lowering::has_literal(
                more_terminals,
                more_rules,
                s,
                bytes,
            ),
        forall|s: u32, role: Role|
            lowering::has_unit(roles, rules, s, role) ==> #[trigger] lowering::has_unit(
                more_roles,
                more_rules,
                s,
                role,
            ),
{
    assert forall|s: u32, least: int, most: int|
        lowering::has_rule(rules, s, least, most) implies #[trigger] lowering::has_rule(
        more_rules,
        s,
        least,
        most,
    ) by {
        let p = choose|p: int|
            0 <= p < rules.len() && (#[trigger] rules[p]).lhs == s && least <= rules[p].rhs.len()
                <= most;
        assert(more_rules[p] == rules[p]);
    }
    assert forall|s: u32, bytes: Seq<u8>|
        lowering::has_literal(terminals, rules, s, bytes) implies #[trigger] lowering::has_literal(
        more_terminals,
        more_rules,
        s,
        bytes,
    ) by {
        let p = choose|p: int|
            0 <= p < rules.len() && (#[trigger] rules[p]).lhs == s && rules[p].rhs.len() == 1
                && lowering::literal(terminals, rules[p].rhs[0], bytes);
        assert(more_rules[p] == rules[p]);
        assert(lowering::literal(more_terminals, rules[p].rhs[0], bytes));
    }
    assert forall|s: u32, role: Role|
        lowering::has_unit(roles, rules, s, role) implies #[trigger] lowering::has_unit(
        more_roles,
        more_rules,
        s,
        role,
    ) by {
        let p = choose|p: int|
            0 <= p < rules.len() && (#[trigger] rules[p]).lhs == s && rules[p].rhs.len() == 1
                && lowering::plays(roles, rules[p].rhs[0], role);
        assert(more_rules[p] == rules[p]);
        assert(lowering::plays(more_roles, rules[p].rhs[0], role));
    }
}

/// The productions, as rules.
pub open spec fn rules_of(productions: Seq<Production>) -> Seq<Rule> {
    productions.map_values(|production: Production| grammar::production_rule(production))
}

impl<'a> GrammarBuilder<'a> {
    /// The rules so far.
    pub open spec fn rules(self) -> Seq<Rule> {
        rules_of(self.productions@)
    }

    /// The number of symbols so far.
    pub open spec fn symbols(self) -> nat {
        self.nonterminals@.len() + self.terminals@.len()
    }

    /// Whether a nonterminal has every rule of its role.
    pub open spec fn done(self, nodes: Seq<SchemaNode>, s: u32) -> bool {
        s < self.roles@.len() && lowering::complete(
            nodes,
            self.roles@,
            self.terminals@,
            self.rules(),
            s,
        )
    }

    /// Whether identifiers are positions, terminals are plain, and every rule is one of the role of
    /// its nonterminal.
    pub open spec fn wf(self, nodes: Seq<SchemaNode>) -> bool {
        &&& self.roles@.len() == self.nonterminals@.len() <= u32::MAX + 1
        &&& forall|a: int|
            0 <= a < self.nonterminals@.len() ==> (#[trigger] self.nonterminals@[a]).id == a
        &&& forall|a: int|
            0 <= a < self.nonterminals@.len() ==> lowering::labelled(
                nodes,
                #[trigger] self.nonterminals@[a],
                self.roles@[a],
            )
        &&& forall|t: int|
            0 <= t < self.terminals@.len() ==> (#[trigger] self.terminals@[t]).id == t && plain_kind(
                self.terminals@[t].kind@,
            )
        &&& forall|p: int|
            0 <= p < self.productions@.len() ==> (#[trigger] self.productions@[p]).id == p
                && self.productions@[p].lhs < self.roles@.len() && lowering::form(
                nodes,
                self.roles@,
                self.terminals@,
                self.roles@[self.productions@[p].lhs as int],
                self.productions@[p].rhs@,
            )
        &&& forall|c: int|
            0 <= c < self.literal_cache@.len() ==> lowering::is_literal(
                self.terminals@,
                (#[trigger] self.literal_cache@[c]).terminal,
                self.literal_cache@[c].bytes@,
            )
        &&& ordered(self.literal_cache@)
        &&& self.rhs_symbols == rhs_total(self.productions@)
        &&& keeps(
            *self.limits,
            self.nonterminals@.len(),
            self.terminals@.len(),
            self.productions@,
        )
        &&& forall|t: int|
            0 <= t < self.terminals@.len() ==> placed(
                nodes,
                (#[trigger] self.terminals@[t]).provenance,
            )
        &&& forall|p: int|
            0 <= p < self.productions@.len() ==> (#[trigger] self.productions@[p]).provenance.pointer
                == nodes[lowering::role_node(
                self.roles@[self.productions@[p].lhs as int],
            )].provenance.pointer
    }

    /// Whether the cache has a terminal for a key.
    pub open spec fn caches(self, key: LiteralKey, terminal: TerminalId) -> bool {
        exists|c: int|
            0 <= c < self.literal_cache@.len() && (#[trigger] self.literal_cache@[c]).key() == key
                && self.literal_cache@[c].terminal == terminal
    }

    /// Whether everything that was built before is still there.
    pub open spec fn follows(self, nodes: Seq<SchemaNode>, before: GrammarBuilder<'a>) -> bool {
        &&& self.limits == before.limits
        &&& starts_with(self.roles@, before.roles@)
        &&& starts_with(self.terminals@, before.terminals@)
        &&& starts_with(self.rules(), before.rules())
        &&& forall|s: u32| before.done(nodes, s) ==> #[trigger] self.done(nodes, s)
        &&& forall|s: u32, least: int, most: int|
            lowering::has_rule(before.rules(), s, least, most) ==> #[trigger] lowering::has_rule(
                self.rules(),
                s,
                least,
                most,
            )
    }

    /// An empty grammar.
    pub fn new(limits: &'a CompileLimits) -> (builder: Self)
        ensures
            forall|nodes: Seq<SchemaNode>| #[trigger] builder.wf(nodes),
            builder.limits == limits,
            builder.roles@.len() == 0,
            builder.symbols() == 0,
            builder.productions@.len() == 0,
            builder.rhs_symbols == 0,
    {
        GrammarBuilder {
            limits,
            nonterminals: Vec::new(),
            terminals: Vec::new(),
            productions: Vec::new(),
            rhs_symbols: 0,
            literal_cache: Vec::new(),
            roles: Ghost(Seq::empty()),
        }
    }

    /// A key that stands at a position stands nowhere else.
    proof fn lemma_at(self, position: int, key: LiteralKey)
        requires
            ordered(self.literal_cache@),
            0 <= position < self.literal_cache@.len(),
            self.literal_cache@[position].key() == key,
        ensures
            forall|terminal: TerminalId| #[trigger]
                self.caches(key, terminal) <==> terminal == self.literal_cache@[position].terminal,
    {
        assert forall|terminal: TerminalId| #[trigger] self.caches(key, terminal) implies terminal
            == self.literal_cache@[position].terminal by {
            let c = choose|c: int|
                0 <= c < self.literal_cache@.len() && (#[trigger] self.literal_cache@[c]).key()
                    == key && self.literal_cache@[c].terminal == terminal;
            lemma_key_total(key, key);
        }
    }

    /// A key that does not stand where it would stand is not in the cache.
    proof fn lemma_missing(self, position: int, key: LiteralKey)
        requires
            ordered(self.literal_cache@),
            0 <= position <= self.literal_cache@.len(),
            forall|i: int|
                0 <= i < self.literal_cache@.len() ==> (i < position <==> key_before(
                    (#[trigger] self.literal_cache@[i]).key(),
                    key,
                )),
            position < self.literal_cache@.len() ==> self.literal_cache@[position].key() != key,
        ensures
            forall|terminal: TerminalId| !#[trigger] self.caches(key, terminal),
            forall|i: int|
                position <= i < self.literal_cache@.len() ==> key_before(
                    key,
                    (#[trigger] self.literal_cache@[i]).key(),
                ),
    {
        assert forall|i: int| position <= i < self.literal_cache@.len() implies key_before(
            key,
            (#[trigger] self.literal_cache@[i]).key(),
        ) by {
            lemma_key_total(key, self.literal_cache@[position].key());
            if i > position {
                lemma_key_transitive(
                    key,
                    self.literal_cache@[position].key(),
                    self.literal_cache@[i].key(),
                );
            }
        }
        assert forall|terminal: TerminalId| !#[trigger] self.caches(key, terminal) by {
            lemma_key_total(key, key);
        }
    }

    proof fn lemma_follows(self, nodes: Seq<SchemaNode>, before: GrammarBuilder<'a>)
        requires
            before.wf(nodes),
            self.limits == before.limits,
            starts_with(self.roles@, before.roles@),
            starts_with(self.terminals@, before.terminals@),
            starts_with(self.rules(), before.rules()),
        ensures
            self.follows(nodes, before),
            forall|p: int|
                0 <= p < before.productions@.len() ==> lowering::form(
                    nodes,
                    self.roles@,
                    self.terminals@,
                    self.roles@[(#[trigger] before.productions@[p]).lhs as int],
                    before.productions@[p].rhs@,
                ),
    {
        assert forall|s: u32| before.done(nodes, s) implies #[trigger] self.done(nodes, s) by {
            lemma_complete_grows(
                nodes,
                before.roles@,
                self.roles@,
                before.terminals@,
                self.terminals@,
                before.rules(),
                self.rules(),
                s,
            );
        }
        lemma_rules_grow(
            before.roles@,
            self.roles@,
            before.terminals@,
            self.terminals@,
            before.rules(),
            self.rules(),
        );
        assert forall|p: int| 0 <= p < before.productions@.len() implies lowering::form(
            nodes,
            self.roles@,
            self.terminals@,
            self.roles@[(#[trigger] before.productions@[p]).lhs as int],
            before.productions@[p].rhs@,
        ) by {
            let lhs = before.productions@[p].lhs;
            assert(self.roles@[lhs as int] == before.roles@[lhs as int]);
            lemma_form_grows(
                nodes,
                before.roles@,
                self.roles@,
                before.terminals@,
                self.terminals@,
                before.roles@[lhs as int],
                before.productions@[p].rhs@,
            );
        }
    }

    /// Adds a nonterminal.
    pub(crate) fn add_nonterminal(
        &mut self,
        name: String,
        provenance: Provenance,
        Ghost(nodes): Ghost<Seq<SchemaNode>>,
        Ghost(role): Ghost<Role>,
    ) -> (result: Result<NonterminalId, CompileError>)
        requires
            old(self).wf(nodes),
            name@ == lowering::role_name(role),
            lowering::role_within(nodes, role),
            provenance.pointer == nodes[lowering::role_node(role)].provenance.pointer,
        ensures
            final(self).wf(nodes),
            final(self).follows(nodes, *old(self)),
            result matches Ok(id) ==> {
                &&& id == old(self).roles@.len()
                &&& final(self).roles@ == old(self).roles@.push(role)
                &&& final(self).terminals@ == old(self).terminals@
                &&& final(self).productions@ == old(self).productions@
                &&& final(self).rhs_symbols == old(self).rhs_symbols
            },
            result matches Err(error) ==> forall|bound: int|
                bound > old(self).symbols() ==> #[trigger] exceeded(
                    *old(self).limits,
                    nodes,
                    error,
                    bound,
                ),
    {
        let ghost before = *self;
        let count: usize = self.nonterminals.len().saturating_add(self.terminals.len());
        match enforce_compile_limit(
            CompileStage::Lowering,
            count.saturating_add(1),
            self.limits.max_symbols,
        ) {
            Ok(()) => {},
            Err(error) => {
                proof {
                    self.lemma_follows(nodes, before);
                    assert(full(*self, nodes, error));
                }
                return Err(error);
            },
        }
        let id = match to_u32(self.nonterminals.len(), CompileStage::Lowering) {
            Ok(id) => id,
            Err(error) => {
                proof {
                    self.lemma_follows(nodes, before);
                    assert(full(*self, nodes, error));
                }
                return Err(error);
            },
        };
        self.nonterminals.push(Nonterminal { id, name, provenance });
        self.roles = Ghost(self.roles@.push(role));
        proof {
            self.lemma_follows(nodes, before);
        }
        Ok(id)
    }

    /// Adds a terminal.
    fn add_terminal(
        &mut self,
        kind: RegularTerminalKind,
        provenance: Provenance,
        Ghost(nodes): Ghost<Seq<SchemaNode>>,
    ) -> (result: Result<TerminalId, CompileError>)
        requires
            old(self).wf(nodes),
            plain_kind(kind@),
            placed(nodes, provenance),
        ensures
            final(self).wf(nodes),
            final(self).follows(nodes, *old(self)),
            final(self).roles@ == old(self).roles@,
            final(self).productions@ == old(self).productions@,
            final(self).rhs_symbols == old(self).rhs_symbols,
            final(self).literal_cache == old(self).literal_cache,
            result matches Ok(id) ==> {
                &&& id == old(self).terminals@.len()
                &&& final(self).terminals@.len() == old(self).terminals@.len() + 1
                &&& final(self).terminals@[id as int].kind@ == kind@
            },
            result matches Err(error) ==> forall|bound: int|
                bound > old(self).symbols() ==> #[trigger] exceeded(
                    *old(self).limits,
                    nodes,
                    error,
                    bound,
                ),
    {
        let ghost before = *self;
        let count: usize = self.nonterminals.len().saturating_add(self.terminals.len());
        match enforce_compile_limit(
            CompileStage::Lowering,
            count.saturating_add(1),
            self.limits.max_symbols,
        ) {
            Ok(()) => {},
            Err(error) => {
                proof {
                    self.lemma_follows(nodes, before);
                    assert(full(*self, nodes, error));
                }
                return Err(error);
            },
        }
        let id = match to_u32(self.terminals.len(), CompileStage::Lowering) {
            Ok(id) => id,
            Err(error) => {
                proof {
                    assert(self.terminals@[self.terminals@.len() - 1].id == self.terminals@.len() - 1);
                    self.lemma_follows(nodes, before);
                    assert(full(*self, nodes, error));
                }
                return Err(error);
            },
        };
        self.terminals.push(RegularTerminal { id, kind, provenance });
        proof {
            self.lemma_follows(nodes, before);
        }
        Ok(id)
    }

    /// Adds a pattern.
    pub(crate) fn add_pattern(
        &mut self,
        forward: &str,
        reverse: Option<&str>,
        provenance: Provenance,
        Ghost(nodes): Ghost<Seq<SchemaNode>>,
    ) -> (result: Result<TerminalId, CompileError>)
        requires
            old(self).wf(nodes),
            placed(nodes, provenance),
            dense::plain_pattern(forward@),
            reverse matches Some(backward) ==> dense::plain_pattern(backward@),
        ensures
            final(self).wf(nodes),
            final(self).follows(nodes, *old(self)),
            final(self).roles@ == old(self).roles@,
            final(self).productions@ == old(self).productions@,
            final(self).rhs_symbols == old(self).rhs_symbols,
            result matches Ok(id) ==> {
                &&& final(self).terminals@.len() == old(self).terminals@.len() + 1
                &&& lowering::pattern(final(self).terminals@, Symbol::Terminal(id), forward@)
            },
            result matches Err(error) ==> forall|bound: int|
                bound > old(self).symbols() ==> #[trigger] exceeded(
                    *old(self).limits,
                    nodes,
                    error,
                    bound,
                ),
    {
        let reverse = match reverse {
            Some(text) => Some(text.to_owned()),
            None => None,
        };
        self.add_terminal(
            RegularTerminalKind::Pattern { forward: forward.to_owned(), reverse },
            provenance,
            Ghost(nodes),
        )
    }

    /// Finds where a literal of a place stands in the cache, or would stand.
    fn locate(&self, bytes: &[u8], provenance: &Provenance) -> (position: usize)
        ensures
            position <= self.literal_cache@.len(),
            position > 0 ==> key_before(
                self.literal_cache@[position - 1].key(),
                literal_key(bytes@, *provenance),
            ),
            position < self.literal_cache@.len() ==> !key_before(
                self.literal_cache@[position as int].key(),
                literal_key(bytes@, *provenance),
            ),
            ordered(self.literal_cache@) ==> forall|i: int|
                0 <= i < self.literal_cache@.len() ==> (i < position <==> key_before(
                    (#[trigger] self.literal_cache@[i]).key(),
                    literal_key(bytes@, *provenance),
                )),
    {
        let ghost key = literal_key(bytes@, *provenance);
        let mut low: usize = 0;
        let mut high: usize = self.literal_cache.len();
        while low < high
            invariant
                low <= high <= self.literal_cache@.len(),
                key == literal_key(bytes@, *provenance),
                low > 0 ==> key_before(self.literal_cache@[low - 1].key(), key),
                high < self.literal_cache@.len() ==> !key_before(
                    self.literal_cache@[high as int].key(),
                    key,
                ),
            decreases high - low,
        {
            let middle: usize = low + (high - low) / 2;
            if literal_before(&self.literal_cache[middle], bytes, provenance) {
                low = middle + 1;
            } else {
                high = middle;
            }
        }
        proof {
            if ordered(self.literal_cache@) {
                assert forall|i: int| 0 <= i < self.literal_cache@.len() implies (i < low
                    <==> key_before((#[trigger] self.literal_cache@[i]).key(), key)) by {
                    if i < low - 1 {
                        assert(key_before(
                            self.literal_cache@[i].key(),
                            self.literal_cache@[low - 1].key(),
                        ));
                        lemma_key_transitive(
                            self.literal_cache@[i].key(),
                            self.literal_cache@[low - 1].key(),
                            key,
                        );
                    }
                    if i > low && key_before(self.literal_cache@[i].key(), key) {
                        assert(key_before(
                            self.literal_cache@[low as int].key(),
                            self.literal_cache@[i].key(),
                        ));
                        lemma_key_transitive(
                            self.literal_cache@[low as int].key(),
                            self.literal_cache@[i].key(),
                            key,
                        );
                    }
                }
            }
        }
        low
    }

    /// Adds a literal, unless its place has it already.
    pub(crate) fn add_literal(
        &mut self,
        bytes: &[u8],
        provenance: Provenance,
        Ghost(nodes): Ghost<Seq<SchemaNode>>,
    ) -> (result: Result<TerminalId, CompileError>)
        requires
            old(self).wf(nodes),
            placed(nodes, provenance),
            utf8::valid_utf8(bytes@),
        ensures
            final(self).wf(nodes),
            final(self).follows(nodes, *old(self)),
            final(self).roles@ == old(self).roles@,
            final(self).productions@ == old(self).productions@,
            final(self).rhs_symbols == old(self).rhs_symbols,
            result matches Ok(id) ==> {
                &&& final(self).terminals@.len() <= old(self).terminals@.len() + 1
                &&& lowering::literal(final(self).terminals@, Symbol::Terminal(id), bytes@)
                &&& forall|key: LiteralKey, terminal: TerminalId| #[trigger]
                    final(self).caches(key, terminal) <==> old(self).caches(key, terminal) || (key
                        == literal_key(bytes@, provenance) && terminal == id)
                &&& old(self).caches(literal_key(bytes@, provenance), id) || (id
                    == old(self).terminals@.len() && final(self).terminals@.len()
                    == old(self).terminals@.len() + 1)
            },
            forall|id: TerminalId| #[trigger]
                old(self).caches(literal_key(bytes@, provenance), id) ==> result == Ok::<
                    _,
                    CompileError,
                >(id) && *final(self) == *old(self),
            result matches Err(error) ==> forall|bound: int|
                bound > old(self).symbols() ==> #[trigger] exceeded(
                    *old(self).limits,
                    nodes,
                    error,
                    bound,
                ),
    {
        let ghost before = *self;
        let ghost key = literal_key(bytes@, provenance);
        let position: usize = self.locate(bytes, &provenance);
        if position < self.literal_cache.len() {
            let found = &self.literal_cache[position];
            if text::same_bytes(found.bytes.as_slice(), bytes) && text::same_text(
                found.pointer.as_str(),
                provenance.pointer.0.as_str(),
            ) && same_keyword(&found.keyword, &provenance.keyword) {
                proof {
                    self.lemma_follows(nodes, before);
                    self.lemma_at(position as int, key);
                    assert(self.literal_cache@[position as int].key() == key);
                }
                return Ok(found.terminal);
            }
        }
        proof {
            assert(position < self.literal_cache@.len() ==> self.literal_cache@[position as int].key()
                != key);
            self.lemma_missing(position as int, key);
        }
        let pointer = provenance.pointer.0.clone();
        let keyword = clone_optional(&provenance.keyword);
        let literal = copy_bytes(bytes);
        let kind = RegularTerminalKind::Literal(copy_bytes(bytes));
        let id = match self.add_terminal(kind, provenance, Ghost(nodes)) {
            Ok(id) => id,
            Err(error) => {
                return Err(error);
            },
        };
        let ghost between = *self;
        self.literal_cache.insert(
            position,
            CachedLiteral { bytes: literal, pointer, keyword, terminal: id },
        );
        proof {
            self.lemma_follows(nodes, before);
            assert(self.literal_cache@ == between.literal_cache@.insert(
                position as int,
                self.literal_cache@[position as int],
            ));
            assert forall|c: int| 0 <= c < self.literal_cache@.len() implies lowering::is_literal(
                self.terminals@,
                (#[trigger] self.literal_cache@[c]).terminal,
                self.literal_cache@[c].bytes@,
            ) by {
                if c < position {
                    assert(self.literal_cache@[c] == between.literal_cache@[c]);
                } else if c > position {
                    assert(self.literal_cache@[c] == between.literal_cache@[c - 1]);
                }
            }
            lemma_cached(between.literal_cache@, position as int, self.literal_cache@[position as int]);
            assert(self.literal_cache@[position as int].key() == key);
            assert forall|other: LiteralKey, terminal: TerminalId| #[trigger]
                self.caches(other, terminal) <==> before.caches(other, terminal) || (other == key
                    && terminal == id) by {
                if self.caches(other, terminal) {
                    let c = choose|c: int|
                        0 <= c < self.literal_cache@.len() && (
                        #[trigger] self.literal_cache@[c]).key() == other
                            && self.literal_cache@[c].terminal == terminal;
                    if c < position {
                        assert(before.literal_cache@[c] == self.literal_cache@[c]);
                    } else if c > position {
                        assert(before.literal_cache@[c - 1] == self.literal_cache@[c]);
                    }
                }
                if before.caches(other, terminal) {
                    let c = choose|c: int|
                        0 <= c < before.literal_cache@.len() && (
                        #[trigger] before.literal_cache@[c]).key() == other
                            && before.literal_cache@[c].terminal == terminal;
                    if c < position {
                        assert(self.literal_cache@[c] == before.literal_cache@[c]);
                    } else {
                        assert(self.literal_cache@[c + 1] == before.literal_cache@[c]);
                    }
                }
            }
        }
        Ok(id)
    }

    /// Adds a production.
    pub(crate) fn add_production(
        &mut self,
        lhs: NonterminalId,
        rhs: Vec<Symbol>,
        provenance: Provenance,
        Ghost(nodes): Ghost<Seq<SchemaNode>>,
    ) -> (result: Result<u32, CompileError>)
        requires
            old(self).wf(nodes),
            lhs < old(self).roles@.len(),
            provenance.pointer == nodes[lowering::role_node(
                old(self).roles@[lhs as int],
            )].provenance.pointer,
            lowering::form(
                nodes,
                old(self).roles@,
                old(self).terminals@,
                old(self).roles@[lhs as int],
                rhs@,
            ),
        ensures
            final(self).wf(nodes),
            final(self).follows(nodes, *old(self)),
            final(self).roles@ == old(self).roles@,
            final(self).terminals@ == old(self).terminals@,
            result is Ok ==> {
                &&& final(self).productions@.len() == old(self).productions@.len() + 1
                &&& final(self).rhs_symbols == old(self).rhs_symbols + rhs@.len()
                &&& final(self).rules() == old(self).rules().push(Rule { lhs, rhs: rhs@ })
                &&& lowering::has_rule(
                    final(self).rules(),
                    lhs,
                    rhs@.len() as int,
                    rhs@.len() as int,
                )
            },
            result matches Err(error) ==> forall|bound: int|
                bound > old(self).productions@.len() && bound >= old(self).rhs_symbols + rhs@.len()
                    ==> #[trigger] exceeded(
                    *old(self).limits,
                    nodes,
                    error,
                    bound,
                ),
    {
        let ghost before = *self;
        match enforce_compile_limit(
            CompileStage::Lowering,
            self.productions.len().saturating_add(1),
            self.limits.max_productions,
        ) {
            Ok(()) => {},
            Err(error) => {
                proof {
                    self.lemma_follows(nodes, before);
                    assert(full(*self, nodes, error));
                }
                return Err(error);
            },
        }
        let (next_rhs, fits) = match self.rhs_symbols.checked_add(rhs.len()) {
            Some(sum) => (sum, sum <= self.limits.max_rhs_symbols),
            None => (usize::MAX, false),
        };
        if !fits {
            let error = resource_error(
                CompileStage::Lowering,
                next_rhs,
                self.limits.max_rhs_symbols,
            );
            proof {
                self.lemma_follows(nodes, before);
                assert(full(*self, nodes, error));
            }
            return Err(error);
        }
        let id = match to_u32(self.productions.len(), CompileStage::Lowering) {
            Ok(id) => id,
            Err(error) => {
                proof {
                    assert(self.productions@[self.productions@.len() - 1].id
                        == self.productions@.len() - 1);
                    self.lemma_follows(nodes, before);
                    assert(full(*self, nodes, error));
                }
                return Err(error);
            },
        };
        self.rhs_symbols = next_rhs;
        let ghost rule = Rule { lhs, rhs: rhs@ };
        self.productions.push(Production { id, lhs, rhs, provenance });
        proof {
            assert(self.rules() =~= before.rules().push(rule));
            assert(self.productions@.drop_last() =~= before.productions@);
            assert(self.productions@.len() == self.productions.len());
            self.lemma_follows(nodes, before);
            assert(self.rules()[before.rules().len() as int] == rule);
        }
        Ok(id)
    }
}

/// Literals stay ordered where a new one is put in its place.
proof fn lemma_cached(cache: Seq<CachedLiteral>, position: int, literal: CachedLiteral)
    requires
        ordered(cache),
        0 <= position <= cache.len(),
        forall|i: int|
            0 <= i < position ==> key_before((#[trigger] cache[i]).key(), literal.key()),
        forall|i: int|
            position <= i < cache.len() ==> key_before(literal.key(), (#[trigger] cache[i]).key()),
    ensures
        ordered(cache.insert(position, literal)),
{
    let after = cache.insert(position, literal);
    assert forall|i: int, j: int| 0 <= i < j < after.len() implies key_before(
        (#[trigger] after[i]).key(),
        (#[trigger] after[j]).key(),
    ) by {
        let a = if i < position {
            i
        } else {
            i - 1
        };
        let b = if j < position {
            j
        } else {
            j - 1
        };
        if i != position {
            assert(after[i] == cache[a]);
        }
        if j != position {
            assert(after[j] == cache[b]);
        }
    }
}

/// Copies bytes.
fn copy_bytes(bytes: &[u8]) -> (copy: Vec<u8>)
    ensures
        copy@ == bytes@,
{
    let mut copy: Vec<u8> = Vec::new();
    while copy.len() < bytes.len()
        invariant
            copy@ == bytes@.take(copy@.len() as int),
            copy@.len() <= bytes@.len(),
        decreases bytes@.len() - copy@.len(),
    {
        let ghost so_far = copy@;
        copy.push(bytes[copy.len()]);
        assert(copy@ =~= bytes@.take(so_far.len() as int + 1));
    }
    assert(copy@ =~= bytes@);
    copy
}

/// Whether two keywords are the same.
fn same_keyword(left: &Option<String>, right: &Option<String>) -> (same: bool)
    ensures
        same == (grammar::optional_view(*left) == grammar::optional_view(*right)),
{
    match (left, right) {
        (Some(left), Some(right)) => text::same_text(left.as_str(), right.as_str()),
        (None, None) => true,
        _ => false,
    }
}

/// Whether a cached literal comes before a literal of a place: by its bytes, then by its pointer,
/// then by its keyword.
fn literal_before(cached: &CachedLiteral, bytes: &[u8], provenance: &Provenance) -> (before: bool)
    ensures
        before == key_before(cached.key(), literal_key(bytes@, *provenance)),
{
    proof {
        text::lemma_before_total(cached.bytes@, bytes@);
        text::lemma_text_total(cached.pointer@, provenance.pointer.0@);
    }
    if text::is_before(cached.bytes.as_slice(), bytes) {
        return true;
    }
    if text::is_before(bytes, cached.bytes.as_slice()) {
        return false;
    }
    let left = cached.pointer.as_str().as_bytes();
    let right = provenance.pointer.0.as_str().as_bytes();
    if text::is_before(left, right) {
        return true;
    }
    if text::is_before(right, left) {
        return false;
    }
    match (&cached.keyword, &provenance.keyword) {
        (Some(left), Some(right)) => text::is_before(
            left.as_str().as_bytes(),
            right.as_str().as_bytes(),
        ),
        (None, Some(_)) => true,
        _ => false,
    }
}

/// The provenance of a keyword of a schema.
pub(crate) fn keyword_provenance(provenance: &Provenance, keyword: &str) -> (copy: Provenance)
    ensures
        copy.resource == provenance.resource,
        copy.pointer == provenance.pointer,
        grammar::optional_view(copy.keyword) == Some(keyword@),
{
    Provenance {
        resource: provenance.resource,
        pointer: provenance.pointer.clone(),
        keyword: Some(keyword.to_owned()),
    }
}

} // verus!
