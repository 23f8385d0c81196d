//! Grammars from normalized schemas.

use vstd::prelude::*;
use vstd::utf8;

use crate::builder;
use crate::builder::{keyword_provenance, GrammarBuilder};
use crate::certificate;
use crate::dense;
use crate::derivation;
use crate::derivation::{Lex, Rule};
use crate::error::{resource_error, CompileError, CompileStage};
use crate::grammar;
use crate::grammar::{Grammar, Nonterminal, RegularTerminal};
use crate::json_schema;
use crate::language;
use crate::language::Role;
use crate::residual;
use crate::residual_build;
use crate::schema;
use crate::schema::{
    AdditionalProperties,
    ArrayConstraints,
    CanonicalValue,
    CompileLimits,
    NormalizedSchema,
    ObjectConstraints,
    Provenance,
    SchemaArena,
    SchemaId,
    SchemaNode,
};
use crate::symbol::{Symbol, TerminalId};
use crate::text;

verus! {

/// Whether a terminal is a byte string.
pub open spec fn is_literal(terminals: Seq<RegularTerminal>, t: u32, bytes: Seq<u8>) -> bool {
    t < terminals.len() && terminals[t as int].kind@ == grammar::TerminalKind::Literal(bytes)
}

/// Whether a terminal is a pattern.
pub open spec fn is_pattern(terminals: Seq<RegularTerminal>, t: u32, pattern: Seq<char>) -> bool {
    t < terminals.len() && (terminals[t as int].kind@ matches grammar::TerminalKind::Pattern {
        forward,
        ..
    } && forward == pattern)
}

/// Whether a symbol is a byte string.
pub open spec fn literal(terminals: Seq<RegularTerminal>, symbol: Symbol, bytes: Seq<u8>) -> bool {
    symbol matches Symbol::Terminal(t) && is_literal(terminals, t, bytes)
}

/// Whether a symbol is a pattern.
pub open spec fn pattern(terminals: Seq<RegularTerminal>, symbol: Symbol, text: Seq<char>) -> bool {
    symbol matches Symbol::Terminal(t) && is_pattern(terminals, t, text)
}

/// Whether a symbol is a nonterminal of a role.
pub open spec fn plays(roles: Seq<Role>, symbol: Symbol, role: Role) -> bool {
    symbol matches Symbol::Nonterminal(s) && s < roles.len() && roles[s as int] == role
}

/// Whether a right-hand side reads a bracket, a part, and a bracket.
pub open spec fn bracketed(
    roles: Seq<Role>,
    terminals: Seq<RegularTerminal>,
    rhs: Seq<Symbol>,
    open: u8,
    role: Role,
    close: u8,
) -> bool {
    &&& rhs.len() == 3
    &&& literal(terminals, rhs[0], language::one(open))
    &&& plays(roles, rhs[1], role)
    &&& literal(terminals, rhs[2], language::one(close))
}

/// Whether a right-hand side reads a member and what follows it.
pub open spec fn takes_member(
    roles: Seq<Role>,
    terminals: Seq<RegularTerminal>,
    object: ObjectConstraints,
    id: int,
    index: int,
    emitted: bool,
    rhs: Seq<Symbol>,
) -> bool {
    let at = if emitted {
        1int
    } else {
        0int
    };
    let property = object.properties@[index];
    &&& rhs.len() == at + 4
    &&& emitted ==> literal(terminals, rhs[0], language::one(44))
    &&& literal(terminals, rhs[at], utf8::encode_utf8(text::json_text(property.name@)))
    &&& literal(terminals, rhs[at + 1], language::one(58))
    &&& plays(roles, rhs[at + 2], Role::Schema(property.schema.0 as int))
    &&& plays(roles, rhs[at + 3], Role::Member { id, index: index + 1, emitted: true })
}

/// Whether a right-hand side reads an item and what follows it.
pub open spec fn takes_item(
    roles: Seq<Role>,
    terminals: Seq<RegularTerminal>,
    id: int,
    index: int,
    item: int,
    next: int,
    rhs: Seq<Symbol>,
) -> bool {
    let at = if index != 0 {
        1int
    } else {
        0int
    };
    &&& rhs.len() == at + 2
    &&& index != 0 ==> literal(terminals, rhs[0], language::one(44))
    &&& plays(roles, rhs[at], Role::Schema(item))
    &&& plays(roles, rhs[at + 1], Role::Position { id, index: next })
}

/// Whether a right-hand side is one of those of a role.
pub open spec fn form(
    nodes: Seq<SchemaNode>,
    roles: Seq<Role>,
    terminals: Seq<RegularTerminal>,
    role: Role,
    rhs: Seq<Symbol>,
) -> bool {
    match role {
        Role::Schema(id) => 0 <= id < nodes.len() && match nodes[id].kind {
            NormalizedSchema::Any => false,
            NormalizedSchema::Never => false,
            NormalizedSchema::Null => rhs.len() == 1 && pattern(
                terminals,
                rhs[0],
                json_schema::NULL@,
            ),
            NormalizedSchema::Boolean => rhs.len() == 1 && pattern(
                terminals,
                rhs[0],
                json_schema::BOOLEAN@,
            ),
            NormalizedSchema::String(_) => rhs.len() == 1 && pattern(
                terminals,
                rhs[0],
                json_schema::STRING@,
            ),
            NormalizedSchema::Number => rhs.len() == 1 && pattern(
                terminals,
                rhs[0],
                json_schema::NUMBER@,
            ),
            NormalizedSchema::Integer => rhs.len() == 1 && pattern(
                terminals,
                rhs[0],
                json_schema::INTEGER@,
            ),
            NormalizedSchema::Const(value) => rhs.len() == 1 && literal(
                terminals,
                rhs[0],
                utf8::encode_utf8(value.json@),
            ),
            NormalizedSchema::Enum(values) => rhs.len() == 1 && exists|v: int|
                0 <= v < values@.len() && literal(
                    terminals,
                    rhs[0],
                    utf8::encode_utf8((#[trigger] values@[v]).json@),
                ),
            NormalizedSchema::Union(branches) => rhs.len() == 1 && exists|b: int|
                0 <= b < branches@.len() && plays(
                    roles,
                    rhs[0],
                    Role::Schema((#[trigger] branches@[b]).0 as int),
                ),
            NormalizedSchema::Ref(target) => rhs.len() == 1 && plays(
                roles,
                rhs[0],
                Role::Schema(target.0 as int),
            ),
            NormalizedSchema::Array(array) => !language::doomed(nodes, array) && bracketed(
                roles,
                terminals,
                rhs,
                91,
                Role::Position { id, index: 0 },
                93,
            ),
            NormalizedSchema::Object(object) => language::all_known(object) && bracketed(
                roles,
                terminals,
                rhs,
                123,
                Role::Member { id, index: 0, emitted: false },
                125,
            ),
        },
        Role::Member { id, index, emitted } => 0 <= id < nodes.len() && match nodes[id].kind {
            NormalizedSchema::Object(object) => 0 <= index <= object.properties@.len() && if index
                == object.properties@.len() {
                rhs.len() == 0
            } else {
                ||| rhs.len() == 1 && !language::is_required(object, index) && plays(
                    roles,
                    rhs[0],
                    Role::Member { id, index: index + 1, emitted },
                )
                ||| takes_member(roles, terminals, object, id, index, emitted, rhs)
            },
            _ => false,
        },
        Role::Position { id, index } => 0 <= id < nodes.len() && match nodes[id].kind {
            NormalizedSchema::Array(array) => {
                ||| rhs.len() == 0 && index >= array.min_items
                ||| (language::item_at(nodes, array, index) matches Some(item) && takes_item(
                    roles,
                    terminals,
                    id,
                    index,
                    item,
                    language::next_position(nodes, array, index),
                    rhs,
                ))
            },
            _ => false,
        },
    }
}

/// Whether some rule of a nonterminal has a right-hand side of a length.
pub open spec fn has_rule(rules: Seq<Rule>, s: u32, least: int, most: int) -> bool {
    exists|p: int|
        0 <= p < rules.len() && (#[trigger] rules[p]).lhs == s && least <= rules[p].rhs.len() <= most
}

/// Whether some rule of a nonterminal is one byte string.
pub open spec fn has_literal(
    terminals: Seq<RegularTerminal>,
    rules: Seq<Rule>,
    s: u32,
    bytes: Seq<u8>,
) -> bool {
    exists|p: int|
        0 <= p < rules.len() && (#[trigger] rules[p]).lhs == s && rules[p].rhs.len() == 1 && literal(
            terminals,
            rules[p].rhs[0],
            bytes,
        )
}

/// Whether some rule of a nonterminal is one nonterminal.
pub open spec fn has_unit(roles: Seq<Role>, rules: Seq<Rule>, s: u32, role: Role) -> bool {
    exists|p: int|
        0 <= p < rules.len() && (#[trigger] rules[p]).lhs == s && rules[p].rhs.len() == 1 && plays(
            roles,
            rules[p].rhs[0],
            role,
        )
}

/// Whether a nonterminal has every rule of its role.
pub open spec fn complete(
    nodes: Seq<SchemaNode>,
    roles: Seq<Role>,
    terminals: Seq<RegularTerminal>,
    rules: Seq<Rule>,
    s: u32,
) -> bool {
    match roles[s as int] {
        Role::Schema(id) => match nodes[id].kind {
            NormalizedSchema::Any => true,
            NormalizedSchema::Never => true,
            NormalizedSchema::Enum(values) => forall|v: int|
                0 <= v < values@.len() ==> has_literal(
                    terminals,
                    rules,
                    s,
                    utf8::encode_utf8((#[trigger] values@[v]).json@),
                ),
            NormalizedSchema::Union(branches) => forall|b: int|
                0 <= b < branches@.len() ==> has_unit(
                    roles,
                    rules,
                    s,
                    Role::Schema((#[trigger] branches@[b]).0 as int),
                ),
            NormalizedSchema::Array(array) => !language::doomed(nodes, array) ==> has_rule(
                rules,
                s,
                3,
                3,
            ),
            NormalizedSchema::Object(object) => language::all_known(object) ==> has_rule(
                rules,
                s,
                3,
                3,
            ),
            _ => has_rule(rules, s, 1, 1),
        },
        Role::Member { id, index, emitted } => match nodes[id].kind {
            NormalizedSchema::Object(object) => if index == object.properties@.len() {
                has_rule(rules, s, 0, 0)
            } else {
                &&& !language::is_required(object, index) ==> has_rule(rules, s, 1, 1)
                &&& has_rule(rules, s, 4, 5)
            },
            _ => true,
        },
        Role::Position { id, index } => match nodes[id].kind {
            NormalizedSchema::Array(array) => {
                &&& index >= array.min_items ==> has_rule(rules, s, 0, 0)
                &&& language::item_at(nodes, array, index) is Some ==> has_rule(rules, s, 2, 3)
            },
            _ => true,
        },
    }
}

/// Whether rules are exactly those of the roles of their nonterminals.
pub open spec fn lowered(
    nodes: Seq<SchemaNode>,
    roles: Seq<Role>,
    terminals: Seq<RegularTerminal>,
    rules: Seq<Rule>,
) -> bool {
    &&& forall|p: int|
        0 <= p < rules.len() ==> (#[trigger] rules[p]).lhs < roles.len() && form(
            nodes,
            roles,
            terminals,
            roles[rules[p].lhs as int],
            rules[p].rhs,
        )
    &&& forall|s: u32| s < roles.len() ==> #[trigger] complete(nodes, roles, terminals, rules, s)
}

/// The languages of terminals.
spec fn lex_of(terminals: Seq<RegularTerminal>) -> Lex {
    grammar::kinds_lex(terminals, grammar::terminal_kinds())
}

/// A byte string derives itself.
proof fn lemma_literal(
    terminals: Seq<RegularTerminal>,
    rules: Seq<Rule>,
    n: nat,
    symbol: Symbol,
    bytes: Seq<u8>,
    w: Seq<u8>,
    i: int,
    j: int,
)
    requires
        literal(terminals, symbol, bytes),
    ensures
        derivation::derives(rules, lex_of(terminals), n, symbol, w, i, j)
            == (language::stands_at(w, i, bytes) && j == i + bytes.len()),
{
    if 0 <= i <= j <= w.len() && w.subrange(i, j) == bytes {
        assert(w.subrange(i, j).len() == j - i);
    }
}

/// A symbol before others derives a part of what they derive together.
proof fn lemma_cons(
    rules: Seq<Rule>,
    lex: Lex,
    n: nat,
    symbols: Seq<Symbol>,
    w: Seq<u8>,
    i: int,
    k: int,
    j: int,
)
    requires
        symbols.len() > 0,
        derivation::derives(rules, lex, n, symbols[0], w, i, k),
        derivation::derives_seq(rules, lex, n, symbols.skip(1), w, k, j),
    ensures
        derivation::derives_seq(rules, lex, n, symbols, w, i, j),
    decreases symbols.len(),
{
    let rest = symbols.skip(1);
    if rest.len() == 0 {
        derivation::lemma_derives_bounds(rules, lex, n, symbols[0], w, i, k);
        assert(symbols.drop_last() =~= Seq::<Symbol>::empty());
        assert(derivation::at(i));
        assert(derivation::derives_seq(rules, lex, n, symbols.drop_last(), w, i, i));
        assert(symbols.last() == symbols[0]);
    } else {
        let x = choose|x: int| #[trigger]
            derivation::at(x) && derivation::derives_seq(rules, lex, n, rest.drop_last(), w, k, x)
                && derivation::derives(rules, lex, n, rest.last(), w, x, j);
        assert(symbols.drop_last().skip(1) =~= rest.drop_last());
        lemma_cons(rules, lex, n, symbols.drop_last(), w, i, k, x);
        assert(symbols.last() == rest.last());
    }
}

/// A byte string before other symbols stands where they start.
proof fn lemma_after(
    terminals: Seq<RegularTerminal>,
    rules: Seq<Rule>,
    n: nat,
    symbols: Seq<Symbol>,
    bytes: Seq<u8>,
    w: Seq<u8>,
    i: int,
    j: int,
)
    requires
        symbols.len() > 0,
        literal(terminals, symbols[0], bytes),
    ensures
        derivation::derives_seq(rules, lex_of(terminals), n, symbols, w, i, j) == (
        language::stands_at(w, i, bytes) && derivation::derives_seq(
            rules,
            lex_of(terminals),
            n,
            symbols.skip(1),
            w,
            i + bytes.len(),
            j,
        )),
{
    let lex = lex_of(terminals);
    if derivation::derives_seq(rules, lex, n, symbols, w, i, j) {
        let k = derivation::lemma_derives_seq_first(rules, lex, n, symbols, w, i, j);
        lemma_literal(terminals, rules, n, symbols[0], bytes, w, i, k);
    }
    let k = i + bytes.len();
    if language::stands_at(w, i, bytes) && derivation::derives_seq(
        rules,
        lex,
        n,
        symbols.skip(1),
        w,
        k,
        j,
    ) {
        lemma_literal(terminals, rules, n, symbols[0], bytes, w, i, k);
        lemma_cons(rules, lex, n, symbols, w, i, k, j);
    }
}

/// One symbol derives what it derives.
proof fn lemma_one(
    rules: Seq<Rule>,
    lex: Lex,
    n: nat,
    symbols: Seq<Symbol>,
    w: Seq<u8>,
    i: int,
    j: int,
)
    requires
        symbols.len() == 1,
    ensures
        derivation::derives_seq(rules, lex, n, symbols, w, i, j) == derivation::derives(
            rules,
            lex,
            n,
            symbols[0],
            w,
            i,
            j,
        ),
{
    if derivation::derives_seq(rules, lex, n, symbols, w, i, j) {
        let k = derivation::lemma_derives_seq_first(rules, lex, n, symbols, w, i, j);
        assert(symbols.skip(1).len() == 0);
    }
    if derivation::derives(rules, lex, n, symbols[0], w, i, j) {
        derivation::lemma_derives_bounds(rules, lex, n, symbols[0], w, i, j);
        assert(derivation::derives_seq(rules, lex, n, symbols.skip(1), w, j, j));
        lemma_cons(rules, lex, n, symbols, w, i, j, j);
    }
}

/// Two symbols derive one part after the other.
proof fn lemma_two(
    rules: Seq<Rule>,
    lex: Lex,
    n: nat,
    symbols: Seq<Symbol>,
    w: Seq<u8>,
    i: int,
    j: int,
)
    requires
        symbols.len() == 2,
    ensures
        derivation::derives_seq(rules, lex, n, symbols, w, i, j) == (exists|k: int| #[trigger]
            language::place(k) && derivation::derives(rules, lex, n, symbols[0], w, i, k)
                && derivation::derives(rules, lex, n, symbols[1], w, k, j)),
{
    assert(symbols.skip(1)[0] == symbols[1]);
    if derivation::derives_seq(rules, lex, n, symbols, w, i, j) {
        let k = derivation::lemma_derives_seq_first(rules, lex, n, symbols, w, i, j);
        lemma_one(rules, lex, n, symbols.skip(1), w, k, j);
        assert(language::place(k));
    }
    if exists|k: int| #[trigger]
        language::place(k) && derivation::derives(rules, lex, n, symbols[0], w, i, k)
            && derivation::derives(rules, lex, n, symbols[1], w, k, j) {
        let k = choose|k: int| #[trigger]
            language::place(k) && derivation::derives(rules, lex, n, symbols[0], w, i, k)
                && derivation::derives(rules, lex, n, symbols[1], w, k, j);
        lemma_one(rules, lex, n, symbols.skip(1), w, k, j);
        lemma_cons(rules, lex, n, symbols, w, i, k, j);
    }
}

/// Two texts stand one after the other where their concatenation stands.
proof fn lemma_stands(w: Seq<u8>, i: int, a: Seq<u8>, b: Seq<u8>)
    ensures
        language::stands_at(w, i, a + b) == (language::stands_at(w, i, a) && language::stands_at(
            w,
            i + a.len(),
            b,
        )),
{
    let end = i + a.len() + b.len();
    if language::stands_at(w, i, a + b) {
        assert(w.subrange(i, i + a.len()) =~= (a + b).subrange(0, a.len() as int));
        assert((a + b).subrange(0, a.len() as int) =~= a);
        assert(w.subrange(i + a.len(), end) =~= (a + b).subrange(a.len() as int, (a + b).len() as int));
        assert((a + b).subrange(a.len() as int, (a + b).len() as int) =~= b);
    }
    if language::stands_at(w, i, a) && language::stands_at(w, i + a.len(), b) {
        assert(w.subrange(i, end) =~= w.subrange(i, i + a.len()) + w.subrange(i + a.len(), end));
    }
}

/// Whether nonterminals derive by `m` steps exactly what their roles speak.
spec fn exact_at(
    nodes: Seq<SchemaNode>,
    roles: Seq<Role>,
    terminals: Seq<RegularTerminal>,
    rules: Seq<Rule>,
    m: nat,
) -> bool {
    forall|s: u32, w: Seq<u8>, i: int, j: int|
        s < roles.len() ==> (#[trigger] derivation::derives(
            rules,
            lex_of(terminals),
            m,
            Symbol::Nonterminal(s),
            w,
            i,
            j,
        ) == language::speaks(nodes, m, roles[s as int], w, i, j))
}

/// What a bracketed right-hand side derives.
proof fn lemma_bracketed(
    nodes: Seq<SchemaNode>,
    roles: Seq<Role>,
    terminals: Seq<RegularTerminal>,
    rules: Seq<Rule>,
    m: nat,
    rhs: Seq<Symbol>,
    open: u8,
    role: Role,
    close: u8,
    w: Seq<u8>,
    i: int,
    j: int,
)
    requires
        exact_at(nodes, roles, terminals, rules, m),
        bracketed(roles, terminals, rhs, open, role, close),
    ensures
        derivation::derives_seq(rules, lex_of(terminals), m, rhs, w, i, j) == (0 <= i && i + 2 <= j
            <= w.len() && language::stands_at(w, i, language::one(open)) && language::stands_at(
            w,
            j - 1,
            language::one(close),
        ) && language::speaks(nodes, m, role, w, i + 1, j - 1)),
{
    let lex = lex_of(terminals);
    lemma_after(terminals, rules, m, rhs, language::one(open), w, i, j);
    let rest = rhs.skip(1);
    lemma_two(rules, lex, m, rest, w, i + 1, j);
    assert(rest[0] == rhs[1] && rest[1] == rhs[2]);
    if derivation::derives_seq(rules, lex, m, rest, w, i + 1, j) {
        let k = choose|k: int| #[trigger]
            language::place(k) && derivation::derives(rules, lex, m, rest[0], w, i + 1, k)
                && derivation::derives(rules, lex, m, rest[1], w, k, j);
        lemma_literal(terminals, rules, m, rest[1], language::one(close), w, k, j);
        derivation::lemma_derives_bounds(rules, lex, m, rest[0], w, i + 1, k);
    }
    if 0 <= i && i + 2 <= j <= w.len() && language::stands_at(w, j - 1, language::one(close))
        && language::speaks(nodes, m, role, w, i + 1, j - 1) {
        lemma_literal(terminals, rules, m, rest[1], language::one(close), w, j - 1, j);
        assert(language::place(j - 1));
    }
}

/// What a right-hand side of two parts behind a text derives.
proof fn lemma_headed(
    nodes: Seq<SchemaNode>,
    roles: Seq<Role>,
    terminals: Seq<RegularTerminal>,
    rules: Seq<Rule>,
    m: nat,
    rest: Seq<Symbol>,
    first: Role,
    second: Role,
    w: Seq<u8>,
    i: int,
    j: int,
)
    requires
        exact_at(nodes, roles, terminals, rules, m),
        rest.len() == 2,
        plays(roles, rest[0], first),
        plays(roles, rest[1], second),
    ensures
        derivation::derives_seq(rules, lex_of(terminals), m, rest, w, i, j) == (exists|k: int|
            #[trigger] language::place(k) && language::speaks(nodes, m, first, w, i, k)
                && language::speaks(nodes, m, second, w, k, j)),
{
    let lex = lex_of(terminals);
    lemma_two(rules, lex, m, rest, w, i, j);
    if derivation::derives_seq(rules, lex, m, rest, w, i, j) {
        let k = choose|k: int| #[trigger]
            language::place(k) && derivation::derives(rules, lex, m, rest[0], w, i, k)
                && derivation::derives(rules, lex, m, rest[1], w, k, j);
        assert(language::place(k) && language::speaks(nodes, m, first, w, i, k)
            && language::speaks(nodes, m, second, w, k, j));
    }
    if exists|k: int| #[trigger]
        language::place(k) && language::speaks(nodes, m, first, w, i, k) && language::speaks(
            nodes,
            m,
            second,
            w,
            k,
            j,
        ) {
        let k = choose|k: int| #[trigger]
            language::place(k) && language::speaks(nodes, m, first, w, i, k) && language::speaks(
                nodes,
                m,
                second,
                w,
                k,
                j,
            );
        assert(derivation::derives(rules, lex, m, rest[0], w, i, k));
        assert(derivation::derives(rules, lex, m, rest[1], w, k, j));
        assert(language::place(k));
    }
}

/// What a right-hand side that reads a member derives.
proof fn lemma_member(
    nodes: Seq<SchemaNode>,
    roles: Seq<Role>,
    terminals: Seq<RegularTerminal>,
    rules: Seq<Rule>,
    m: nat,
    object: ObjectConstraints,
    id: int,
    index: int,
    emitted: bool,
    rhs: Seq<Symbol>,
    w: Seq<u8>,
    i: int,
    j: int,
)
    requires
        exact_at(nodes, roles, terminals, rules, m),
        takes_member(roles, terminals, object, id, index, emitted, rhs),
        0 <= i <= j <= w.len(),
    ensures
        derivation::derives_seq(rules, lex_of(terminals), m, rhs, w, i, j) == (language::stands_at(
            w,
            i,
            language::member_head(object, index, emitted),
        ) && exists|k: int| #[trigger]
            language::place(k) && language::speaks(
                nodes,
                m,
                Role::Schema(object.properties@[index].schema.0 as int),
                w,
                i + language::member_head(object, index, emitted).len(),
                k,
            ) && language::speaks(
                nodes,
                m,
                Role::Member { id, index: index + 1, emitted: true },
                w,
                k,
                j,
            )),
{
    let name = utf8::encode_utf8(text::json_text(object.properties@[index].name@));
    let comma = if emitted {
        language::one(44)
    } else {
        Seq::empty()
    };
    let head = language::member_head(object, index, emitted);
    let schema = Role::Schema(object.properties@[index].schema.0 as int);
    let next = Role::Member { id, index: index + 1, emitted: true };
    assert(head == comma + name + language::one(58));
    lemma_stands(w, i, comma + name, language::one(58));
    lemma_stands(w, i, comma, name);
    let at = comma.len() as int;
    let named = if emitted {
        rhs.skip(1)
    } else {
        rhs
    };
    if emitted {
        lemma_after(terminals, rules, m, rhs, comma, w, i, j);
    } else {
        assert(w.subrange(i, i) =~= Seq::<u8>::empty());
    }
    lemma_after(terminals, rules, m, named, name, w, i + at, j);
    let colon = named.skip(1);
    lemma_after(terminals, rules, m, colon, language::one(58), w, i + at + name.len(), j);
    let rest = colon.skip(1);
    assert(rest[0] == rhs[at + 2] && rest[1] == rhs[at + 3]);
    lemma_headed(nodes, roles, terminals, rules, m, rest, schema, next, w, i + head.len(), j);
}

/// What a right-hand side that reads an item derives.
proof fn lemma_item(
    nodes: Seq<SchemaNode>,
    roles: Seq<Role>,
    terminals: Seq<RegularTerminal>,
    rules: Seq<Rule>,
    m: nat,
    id: int,
    index: int,
    item: int,
    next: int,
    rhs: Seq<Symbol>,
    w: Seq<u8>,
    i: int,
    j: int,
)
    requires
        exact_at(nodes, roles, terminals, rules, m),
        takes_item(roles, terminals, id, index, item, next, rhs),
        0 <= i <= j <= w.len(),
    ensures
        derivation::derives_seq(rules, lex_of(terminals), m, rhs, w, i, j) == (language::stands_at(
            w,
            i,
            language::item_head(index),
        ) && exists|k: int| #[trigger]
            language::place(k) && language::speaks(
                nodes,
                m,
                Role::Schema(item),
                w,
                i + language::item_head(index).len(),
                k,
            ) && language::speaks(nodes, m, Role::Position { id, index: next }, w, k, j)),
{
    let head = language::item_head(index);
    let at = head.len() as int;
    let rest = if index != 0 {
        rhs.skip(1)
    } else {
        rhs
    };
    if index != 0 {
        lemma_after(terminals, rules, m, rhs, head, w, i, j);
    } else {
        assert(w.subrange(i, i) =~= Seq::<u8>::empty());
    }
    assert(rest[0] == rhs[at] && rest[1] == rhs[at + 1]);
    lemma_headed(
        nodes,
        roles,
        terminals,
        rules,
        m,
        rest,
        Role::Schema(item),
        Role::Position { id, index: next },
        w,
        i + at,
        j,
    );
}

/// What a right-hand side of a role derives, the role speaks.
proof fn lemma_rule(
    nodes: Seq<SchemaNode>,
    roles: Seq<Role>,
    terminals: Seq<RegularTerminal>,
    rules: Seq<Rule>,
    m: nat,
    role: Role,
    rhs: Seq<Symbol>,
    w: Seq<u8>,
    i: int,
    j: int,
)
    requires
        exact_at(nodes, roles, terminals, rules, m),
        form(nodes, roles, terminals, role, rhs),
        derivation::derives_seq(rules, lex_of(terminals), m, rhs, w, i, j),
    ensures
        language::speaks(nodes, m + 1, role, w, i, j),
{
    let lex = lex_of(terminals);
    derivation::lemma_derives_seq_bounds(rules, lex, m, rhs, w, i, j);
    if rhs.len() == 1 {
        lemma_one(rules, lex, m, rhs, w, i, j);
    }
    match role {
        Role::Schema(id) => match nodes[id].kind {
            NormalizedSchema::Array(array) => {
                let inner = Role::Position { id, index: 0 };
                lemma_bracketed(nodes, roles, terminals, rules, m, rhs, 91, inner, 93, w, i, j);
            },
            NormalizedSchema::Object(object) => {
                let inner = Role::Member { id, index: 0, emitted: false };
                lemma_bracketed(nodes, roles, terminals, rules, m, rhs, 123, inner, 125, w, i, j);
            },
            NormalizedSchema::Enum(values) => {
                let v = choose|v: int|
                    0 <= v < values@.len() && literal(
                        terminals,
                        rhs[0],
                        utf8::encode_utf8((#[trigger] values@[v]).json@),
                    );
                assert(w.subrange(i, j) == utf8::encode_utf8(values@[v].json@));
            },
            NormalizedSchema::Union(branches) => {
                let b = choose|b: int|
                    0 <= b < branches@.len() && plays(
                        roles,
                        rhs[0],
                        Role::Schema((#[trigger] branches@[b]).0 as int),
                    );
                assert(language::speaks(
                    nodes,
                    m,
                    Role::Schema(branches@[b].0 as int),
                    w,
                    i,
                    j,
                ));
            },
            _ => {},
        },
        Role::Member { id, index, emitted } => match nodes[id].kind {
            NormalizedSchema::Object(object) => {
                if takes_member(roles, terminals, object, id, index, emitted, rhs) {
                    lemma_member(
                        nodes,
                        roles,
                        terminals,
                        rules,
                        m,
                        object,
                        id,
                        index,
                        emitted,
                        rhs,
                        w,
                        i,
                        j,
                    );
                }
            },
            _ => {},
        },
        Role::Position { id, index } => match nodes[id].kind {
            NormalizedSchema::Array(array) => {
                if rhs.len() != 0 {
                    lemma_item(
                        nodes,
                        roles,
                        terminals,
                        rules,
                        m,
                        id,
                        index,
                        language::item_at(nodes, array, index)->0,
                        language::next_position(nodes, array, index),
                        rhs,
                        w,
                        i,
                        j,
                    );
                }
            },
            _ => {},
        },
    }
}

/// What the role of a nonterminal speaks, one of its rules derives.
#[verifier::rlimit(40)]
proof fn lemma_found(
    nodes: Seq<SchemaNode>,
    roles: Seq<Role>,
    terminals: Seq<RegularTerminal>,
    rules: Seq<Rule>,
    m: nat,
    s: u32,
    w: Seq<u8>,
    i: int,
    j: int,
) -> (p: int)
    requires
        exact_at(nodes, roles, terminals, rules, m),
        lowered(nodes, roles, terminals, rules),
        s < roles.len(),
        language::speaks(nodes, m + 1, roles[s as int], w, i, j),
    ensures
        0 <= p < rules.len(),
        rules[p].lhs == s,
        derivation::derives_seq(rules, lex_of(terminals), m, rules[p].rhs, w, i, j),
{
    let lex = lex_of(terminals);
    let role = roles[s as int];
    assert(complete(nodes, roles, terminals, rules, s));
    match role {
        Role::Schema(id) => match nodes[id].kind {
            NormalizedSchema::Array(array) => {
                let p = choose|p: int|
                    0 <= p < rules.len() && (#[trigger] rules[p]).lhs == s && 3
                        <= rules[p].rhs.len() <= 3;
                let inner = Role::Position { id, index: 0 };
                let rhs = rules[p].rhs;
                lemma_bracketed(nodes, roles, terminals, rules, m, rhs, 91, inner, 93, w, i, j);
                p
            },
            NormalizedSchema::Object(object) => {
                let p = choose|p: int|
                    0 <= p < rules.len() && (#[trigger] rules[p]).lhs == s && 3
                        <= rules[p].rhs.len() <= 3;
                let inner = Role::Member { id, index: 0, emitted: false };
                let rhs = rules[p].rhs;
                lemma_bracketed(nodes, roles, terminals, rules, m, rhs, 123, inner, 125, w, i, j);
                p
            },
            NormalizedSchema::Enum(values) => {
                let v = choose|v: int|
                    0 <= v < values@.len() && w.subrange(i, j) == utf8::encode_utf8(
                        (#[trigger] values@[v]).json@,
                    );
                let bytes = utf8::encode_utf8(values@[v].json@);
                assert(has_literal(terminals, rules, s, bytes));
                let p = choose|p: int|
                    0 <= p < rules.len() && (#[trigger] rules[p]).lhs == s && rules[p].rhs.len()
                        == 1 && literal(terminals, rules[p].rhs[0], bytes);
                lemma_one(rules, lex, m, rules[p].rhs, w, i, j);
                p
            },
            NormalizedSchema::Union(branches) => {
                let b = choose|b: int|
                    #![trigger branches@[b]]
                    0 <= b < branches@.len() && language::speaks(
                        nodes,
                        m,
                        Role::Schema(branches@[b].0 as int),
                        w,
                        i,
                        j,
                    );
                let part = Role::Schema(branches@[b].0 as int);
                assert(has_unit(roles, rules, s, part));
                let p = choose|p: int|
                    0 <= p < rules.len() && (#[trigger] rules[p]).lhs == s && rules[p].rhs.len()
                        == 1 && plays(roles, rules[p].rhs[0], part);
                lemma_one(rules, lex, m, rules[p].rhs, w, i, j);
                p
            },
            _ => {
                let p = choose|p: int|
                    0 <= p < rules.len() && (#[trigger] rules[p]).lhs == s && 1
                        <= rules[p].rhs.len() <= 1;
                lemma_one(rules, lex, m, rules[p].rhs, w, i, j);
                p
            },
        },
        Role::Member { id, index, emitted } => {
            let object = nodes[id].kind->Object_0;
            if index == object.properties@.len() {
                choose|p: int|
                    0 <= p < rules.len() && (#[trigger] rules[p]).lhs == s && 0
                        <= rules[p].rhs.len() <= 0
            } else if !language::is_required(object, index) && language::speaks(
                nodes,
                m,
                Role::Member { id, index: index + 1, emitted },
                w,
                i,
                j,
            ) {
                let p = choose|p: int|
                    0 <= p < rules.len() && (#[trigger] rules[p]).lhs == s && 1
                        <= rules[p].rhs.len() <= 1;
                lemma_one(rules, lex, m, rules[p].rhs, w, i, j);
                p
            } else {
                let p = choose|p: int|
                    0 <= p < rules.len() && (#[trigger] rules[p]).lhs == s && 4
                        <= rules[p].rhs.len() <= 5;
                let rhs = rules[p].rhs;
                lemma_member(
                    nodes,
                    roles,
                    terminals,
                    rules,
                    m,
                    object,
                    id,
                    index,
                    emitted,
                    rhs,
                    w,
                    i,
                    j,
                );
                p
            }
        },
        Role::Position { id, index } => {
            let array = nodes[id].kind->Array_0;
            if index >= array.min_items && i == j {
                choose|p: int|
                    0 <= p < rules.len() && (#[trigger] rules[p]).lhs == s && 0
                        <= rules[p].rhs.len() <= 0
            } else {
                let p = choose|p: int|
                    0 <= p < rules.len() && (#[trigger] rules[p]).lhs == s && 2
                        <= rules[p].rhs.len() <= 3;
                lemma_item(
                    nodes,
                    roles,
                    terminals,
                    rules,
                    m,
                    id,
                    index,
                    language::item_at(nodes, array, index)->0,
                    language::next_position(nodes, array, index),
                    rules[p].rhs,
                    w,
                    i,
                    j,
                );
                p
            }
        },
    }
}

/// A nonterminal derives exactly what its role speaks.
proof fn lemma_exact(
    nodes: Seq<SchemaNode>,
    roles: Seq<Role>,
    terminals: Seq<RegularTerminal>,
    rules: Seq<Rule>,
    n: nat,
)
    requires
        lowered(nodes, roles, terminals, rules),
    ensures
        exact_at(nodes, roles, terminals, rules, n),
    decreases n,
{
    let lex = lex_of(terminals);
    if n > 0 {
        lemma_exact(nodes, roles, terminals, rules, (n - 1) as nat);
    }
    assert forall|s: u32, w: Seq<u8>, i: int, j: int| s < roles.len() implies (
    #[trigger] derivation::derives(rules, lex, n, Symbol::Nonterminal(s), w, i, j)
        == language::speaks(nodes, n, roles[s as int], w, i, j)) by {
        if n > 0 {
            let m = (n - 1) as nat;
            if derivation::derives(rules, lex, n, Symbol::Nonterminal(s), w, i, j) {
                let p = choose|p: int|
                    #![trigger rules[p]]
                    0 <= p < rules.len() && rules[p].lhs == s && derivation::derives_seq(
                        rules,
                        lex,
                        m,
                        rules[p].rhs,
                        w,
                        i,
                        j,
                    );
                lemma_rule(
                    nodes,
                    roles,
                    terminals,
                    rules,
                    m,
                    roles[s as int],
                    rules[p].rhs,
                    w,
                    i,
                    j,
                );
            }
            if language::speaks(nodes, n, roles[s as int], w, i, j) {
                let p = lemma_found(nodes, roles, terminals, rules, m, s, w, i, j);
                assert(rules[p].lhs == s);
            }
        }
    }
}

/// A bound of the symbols, the productions and the right-hand sides that a schema needs.
pub open spec fn node_cost(nodes: Seq<SchemaNode>, kind: NormalizedSchema) -> nat {
    match kind {
        NormalizedSchema::Enum(values) => values@.len() + 1,
        NormalizedSchema::Union(branches) => branches@.len() + 1,
        NormalizedSchema::Array(array) => 3 * language::position_count(nodes, array) + 5,
        NormalizedSchema::Object(object) => 12 * object.properties@.len() + 8,
        _ => 2,
    }
}

/// A bound of what the first `k` schemas need.
pub open spec fn total_cost(nodes: Seq<SchemaNode>, k: nat) -> nat
    decreases k,
{
    if k == 0 {
        0
    } else {
        total_cost(nodes, (k - 1) as nat) + node_cost(nodes, nodes[k - 1].kind)
    }
}

proof fn lemma_cost_grows(nodes: Seq<SchemaNode>, k: nat, n: nat)
    requires
        k <= n,
    ensures
        total_cost(nodes, k) <= total_cost(nodes, n),
    decreases n,
{
    if k < n {
        lemma_cost_grows(nodes, k, (n - 1) as nat);
    }
}

/// Whether what was built stays within a bound.
spec fn within(builder: GrammarBuilder, bound: int) -> bool {
    &&& builder.symbols() <= bound
    &&& builder.productions@.len() <= bound
    &&& builder.rhs_symbols <= bound
}

/// Whether the nonterminals of the schemas come first, in order.
spec fn seeded(builder: GrammarBuilder, nodes: Seq<SchemaNode>) -> bool {
    &&& nodes.len() <= builder.roles@.len()
    &&& forall|k: int| 0 <= k < nodes.len() ==> #[trigger] builder.roles@[k] == Role::Schema(k)
    &&& forall|k: int|
        nodes.len() <= k < builder.roles@.len() ==> !(#[trigger] builder.roles@[k] is Schema)
}

/// Whether all nonterminals have their rules, but those of the schemas from `k` on.
spec fn settled(builder: GrammarBuilder, nodes: Seq<SchemaNode>, k: int) -> bool {
    forall|s: u32|
        s < builder.roles@.len() && !(k <= s < nodes.len()) ==> #[trigger] builder.done(nodes, s)
}

/// The name of the nonterminal of a role.
pub open spec fn role_name(role: Role) -> Seq<char> {
    match role {
        Role::Schema(id) => "schema_"@ + text::digits(id as nat),
        Role::Member { id, index, emitted } => "object_"@ + text::digits(id as nat) + "_members_"@
            + text::digits(index as nat) + (if emitted {
            "_present"@
        } else {
            "_empty"@
        }),
        Role::Position { id, index } => "array_"@ + text::digits(id as nat) + "_position_"@
            + text::digits(index as nat),
    }
}

/// The node of a role.
pub open spec fn role_node(role: Role) -> int {
    match role {
        Role::Schema(id) => id,
        Role::Member { id, .. } => id,
        Role::Position { id, .. } => id,
    }
}

/// Whether a role is of a node that is there.
pub open spec fn role_within(nodes: Seq<SchemaNode>, role: Role) -> bool {
    0 <= role_node(role) < nodes.len()
}

/// Whether a nonterminal has the name of its role, and points to the schema of its node.
pub open spec fn labelled(nodes: Seq<SchemaNode>, nonterminal: Nonterminal, role: Role) -> bool {
    &&& nonterminal.name@ == role_name(role)
    &&& role_within(nodes, role)
    &&& nonterminal.provenance.pointer == nodes[role_node(role)].provenance.pointer
}

/// Whether a nonterminal is that of a role: the first ones are those of the nodes.
pub open spec fn has_role(nodes: Seq<SchemaNode>, nonterminal: Nonterminal, a: int) -> bool {
    exists|role: Role| #[trigger]
        labelled(nodes, nonterminal, role) && (if a < nodes.len() {
            role == Role::Schema(a)
        } else {
            !(role is Schema)
        })
}

/// What is known of a builder before the schema of a node is lowered.
spec fn ready(builder: GrammarBuilder, nodes: Seq<SchemaNode>, k: int) -> bool {
    &&& builder.wf(nodes)
    &&& seeded(builder, nodes)
    &&& settled(builder, nodes, k)
}

/// The pattern of a scalar.
spec fn scalar_pattern(kind: NormalizedSchema) -> Option<Seq<char>> {
    match kind {
        NormalizedSchema::Null => Some(json_schema::NULL@),
        NormalizedSchema::Boolean => Some(json_schema::BOOLEAN@),
        NormalizedSchema::String(_) => Some(json_schema::STRING@),
        NormalizedSchema::Number => Some(json_schema::NUMBER@),
        NormalizedSchema::Integer => Some(json_schema::INTEGER@),
        _ => None,
    }
}

/// Whether an error says why the schema of a node has no grammar.
pub open spec fn refuses(nodes: Seq<SchemaNode>, id: int, error: CompileError) -> bool {
    error matches CompileError::UnsupportedCombination { location, reason } && location
        == nodes[id].provenance.spec_location() && language::unsupported(nodes, id) == Some(reason@)
}

/// The outcome of a step that lowers a schema.
spec fn stepped(
    before: GrammarBuilder,
    after: GrammarBuilder,
    nodes: Seq<SchemaNode>,
    k: int,
    base: int,
    result: Result<(), CompileError>,
) -> bool {
    let bound = base + node_cost(nodes, nodes[k].kind);
    match result {
        Ok(_) => {
            &&& ready(after, nodes, k + 1)
            &&& within(after, bound)
            &&& after.limits == before.limits
            &&& language::unsupported(nodes, k) is None
        },
        Err(error) => refuses(nodes, k, error) || builder::exceeded(*before.limits, nodes, error, bound),
    }
}

proof fn lemma_chain<'a>(
    nodes: Seq<SchemaNode>,
    first: GrammarBuilder<'a>,
    second: GrammarBuilder<'a>,
    third: GrammarBuilder<'a>,
)
    requires
        second.follows(nodes, first),
        third.follows(nodes, second),
    ensures
        third.follows(nodes, first),
{
    assert forall|s: u32| first.done(nodes, s) implies #[trigger] third.done(nodes, s) by {
        assert(second.done(nodes, s));
    }
    assert forall|s: u32, least: int, most: int|
        has_rule(first.rules(), s, least, most) implies #[trigger] has_rule(
        third.rules(),
        s,
        least,
        most,
    ) by {
        assert(has_rule(second.rules(), s, least, most));
    }
}

/// With its last rule a schema is settled.
proof fn lemma_settled<'a>(
    nodes: Seq<SchemaNode>,
    before: GrammarBuilder<'a>,
    after: GrammarBuilder<'a>,
    k: int,
)
    requires
        ready(before, nodes, k),
        after.wf(nodes),
        after.follows(nodes, before),
        0 <= k < nodes.len(),
        k <= u32::MAX,
        after.done(nodes, k as u32),
        forall|s: u32|
            before.roles@.len() <= s < after.roles@.len() ==> #[trigger] after.done(nodes, s)
                && !(after.roles@[s as int] is Schema),
    ensures
        ready(after, nodes, k + 1),
{
    assert forall|s: u32|
        s < after.roles@.len() && !(k + 1 <= s < nodes.len()) implies #[trigger] after.done(
        nodes,
        s,
    ) by {
        if s < before.roles@.len() && s != k {
            assert(before.done(nodes, s));
        }
    }
    assert forall|i: int| nodes.len() <= i < after.roles@.len() implies !(
    #[trigger] after.roles@[i] is Schema) by {
        if i >= before.roles@.len() {
            assert(after.done(nodes, i as u32));
        } else {
            assert(after.roles@[i] == before.roles@[i]);
        }
    }
}

/// Lowers a scalar to its pattern.
fn lower_scalar(
    arena: &SchemaArena,
    builder: &mut GrammarBuilder,
    id: u32,
    forward: &str,
    reverse: Option<&str>,
    Ghost(base): Ghost<int>,
) -> (result: Result<(), CompileError>)
    requires
        arena.wf(),
        id < arena.nodes@.len(),
        ready(*old(builder), arena.nodes@, id as int),
        within(*old(builder), base),
        scalar_pattern(arena.nodes@[id as int].kind) == Some(forward@),
        language::unsupported(arena.nodes@, id as int) is None,
        reverse matches Some(backward) ==> dense::plain_pattern(backward@),
    ensures
        stepped(*old(builder), *final(builder), arena.nodes@, id as int, base, result),
{
    let ghost before = *builder;
    let ghost nodes = arena.nodes@;
    let provenance = &arena.nodes[id as usize].provenance;
    let terminal = match builder.add_pattern(forward, reverse, provenance.clone(), Ghost(nodes)) {
        Ok(terminal) => terminal,
        Err(error) => {
            assert(builder::exceeded(*before.limits, nodes, error, base + 2));
            return Err(error);
        },
    };
    let ghost between = *builder;
    let rhs = vec![Symbol::Terminal(terminal)];
    assert(rhs@.len() == 1 && rhs@[0] == Symbol::Terminal(terminal));
    match builder.add_production(id, rhs, provenance.clone(), Ghost(nodes)) {
        Ok(_) => {},
        Err(error) => {
            assert(builder::exceeded(*before.limits, nodes, error, base + 2));
            return Err(error);
        },
    }
    proof {
        lemma_chain(nodes, before, between, *builder);
        lemma_settled(nodes, before, *builder, id as int);
    }
    Ok(())
}

/// Lowers a constant to its text.
fn lower_constant(
    arena: &SchemaArena,
    builder: &mut GrammarBuilder,
    id: u32,
    value: &CanonicalValue,
    Ghost(base): Ghost<int>,
) -> (result: Result<(), CompileError>)
    requires
        arena.wf(),
        id < arena.nodes@.len(),
        ready(*old(builder), arena.nodes@, id as int),
        within(*old(builder), base),
        arena.nodes@[id as int].kind == NormalizedSchema::Const(*value),
    ensures
        stepped(*old(builder), *final(builder), arena.nodes@, id as int, base, result),
{
    let ghost before = *builder;
    let ghost nodes = arena.nodes@;
    let provenance = &arena.nodes[id as usize].provenance;
    proof {
        utf8::encode_utf8_valid_utf8(value.json@);
    }
    let terminal = match builder.add_literal(
        value.json.as_str().as_bytes(),
        provenance.clone(),
        Ghost(nodes),
    ) {
        Ok(terminal) => terminal,
        Err(error) => {
            assert(builder::exceeded(*before.limits, nodes, error, base + 2));
            return Err(error);
        },
    };
    let ghost between = *builder;
    let rhs = vec![Symbol::Terminal(terminal)];
    assert(rhs@.len() == 1 && rhs@[0] == Symbol::Terminal(terminal));
    match builder.add_production(id, rhs, provenance.clone(), Ghost(nodes)) {
        Ok(_) => {},
        Err(error) => {
            assert(builder::exceeded(*before.limits, nodes, error, base + 2));
            return Err(error);
        },
    }
    proof {
        lemma_chain(nodes, before, between, *builder);
        lemma_settled(nodes, before, *builder, id as int);
    }
    Ok(())
}

proof fn lemma_value(
    nodes: Seq<SchemaNode>,
    roles: Seq<Role>,
    terminals: Seq<RegularTerminal>,
    id: int,
    values: Vec<CanonicalValue>,
    v: int,
    rhs: Seq<Symbol>,
)
    requires
        0 <= id < nodes.len(),
        nodes[id].kind == NormalizedSchema::Enum(values),
        0 <= v < values@.len(),
        rhs.len() == 1,
        literal(terminals, rhs[0], utf8::encode_utf8(values@[v].json@)),
    ensures
        form(nodes, roles, terminals, Role::Schema(id), rhs),
{
    match nodes[id].kind {
        NormalizedSchema::Enum(list) => {
            assert(literal(terminals, rhs[0], utf8::encode_utf8(list@[v].json@)));
        },
        _ => {},
    }
}

/// Lowers an enumeration to the texts of its values.
fn lower_values(
    arena: &SchemaArena,
    builder: &mut GrammarBuilder,
    id: u32,
    values: &Vec<CanonicalValue>,
    Ghost(base): Ghost<int>,
) -> (result: Result<(), CompileError>)
    requires
        arena.wf(),
        id < arena.nodes@.len(),
        ready(*old(builder), arena.nodes@, id as int),
        within(*old(builder), base),
        arena.nodes@[id as int].kind == NormalizedSchema::Enum(*values),
    ensures
        stepped(*old(builder), *final(builder), arena.nodes@, id as int, base, result),
{
    let ghost before = *builder;
    let ghost nodes = arena.nodes@;
    let ghost bound = base + values@.len() + 1;
    let provenance = &arena.nodes[id as usize].provenance;
    let mut index: usize = 0;
    proof {
        lemma_same(nodes, before);
    }
    while index < values.len()
        invariant
            index <= values@.len(),
            nodes == arena.nodes@,
            id < nodes.len(),
            *provenance == nodes[id as int].provenance,
            nodes[id as int].kind == NormalizedSchema::Enum(*values),
            bound == base + values@.len() + 1,
            before == *old(builder),
            ready(before, nodes, id as int),
            builder.wf(nodes),
            builder.follows(nodes, before),
            builder.roles@ == before.roles@,
            within(*builder, base + index),
            forall|v: int|
                0 <= v < index ==> has_literal(
                    builder.terminals@,
                    builder.rules(),
                    id,
                    utf8::encode_utf8((#[trigger] values@[v]).json@),
                ),
        decreases values@.len() - index,
    {
        let ghost start = *builder;
        let value = &values[index];
        proof {
            utf8::encode_utf8_valid_utf8(value.json@);
        }
        let terminal = match builder.add_literal(
            value.json.as_str().as_bytes(),
            provenance.clone(),
            Ghost(nodes),
        ) {
            Ok(terminal) => terminal,
            Err(error) => {
                assert(builder::exceeded(*before.limits, nodes, error, bound));
                return Err(error);
            },
        };
        let ghost between = *builder;
        let rhs = vec![Symbol::Terminal(terminal)];
        assert(rhs@.len() == 1 && rhs@[0] == Symbol::Terminal(terminal));
        proof {
            assert(builder.roles@[id as int] == Role::Schema(id as int));
            lemma_value(
                nodes,
                builder.roles@,
                builder.terminals@,
                id as int,
                *values,
                index as int,
                rhs@,
            );
        }
        match builder.add_production(id, rhs, provenance.clone(), Ghost(nodes)) {
            Ok(_) => {},
            Err(error) => {
                assert(builder::exceeded(*before.limits, nodes, error, bound));
                return Err(error);
            },
        }
        proof {
            lemma_chain(nodes, start, between, *builder);
            lemma_chain(nodes, before, start, *builder);
            builder::lemma_rules_grow(
                start.roles@,
                builder.roles@,
                start.terminals@,
                builder.terminals@,
                start.rules(),
                builder.rules(),
            );
            let last = between.rules().len() as int;
            assert(builder.rules()[last].lhs == id);
            assert(has_literal(
                builder.terminals@,
                builder.rules(),
                id,
                utf8::encode_utf8(values@[index as int].json@),
            ));
        }
        index += 1;
    }
    proof {
        lemma_settled(nodes, before, *builder, id as int);
    }
    Ok(())
}

proof fn lemma_same<'a>(nodes: Seq<SchemaNode>, builder: GrammarBuilder<'a>)
    ensures
        builder.follows(nodes, builder),
{
}

proof fn lemma_branches(branches: Vec<SchemaId>, kind: NormalizedSchema, n: nat)
    requires
        schema::kind_within(kind, n),
        kind == NormalizedSchema::Union(branches),
    ensures
        forall|b: int| 0 <= b < branches@.len() ==> (#[trigger] branches@[b]).0 < n,
{
    match kind {
        NormalizedSchema::Union(list) => {
            assert forall|b: int| 0 <= b < list@.len() implies (#[trigger] list@[b]).0 < n by {}
        },
        _ => {},
    }
}

proof fn lemma_branch(
    nodes: Seq<SchemaNode>,
    roles: Seq<Role>,
    terminals: Seq<RegularTerminal>,
    id: int,
    branches: Vec<SchemaId>,
    b: int,
    rhs: Seq<Symbol>,
)
    requires
        0 <= id < nodes.len(),
        nodes[id].kind == NormalizedSchema::Union(branches),
        0 <= b < branches@.len(),
        rhs.len() == 1,
        plays(roles, rhs[0], Role::Schema(branches@[b].0 as int)),
    ensures
        form(nodes, roles, terminals, Role::Schema(id), rhs),
{
    match nodes[id].kind {
        NormalizedSchema::Union(list) => {
            assert(plays(roles, rhs[0], Role::Schema(list@[b].0 as int)));
        },
        _ => {},
    }
}

/// Lowers a union to its branches.
fn lower_branches(
    arena: &SchemaArena,
    builder: &mut GrammarBuilder,
    id: u32,
    branches: &Vec<SchemaId>,
    Ghost(base): Ghost<int>,
) -> (result: Result<(), CompileError>)
    requires
        arena.wf(),
        id < arena.nodes@.len(),
        ready(*old(builder), arena.nodes@, id as int),
        within(*old(builder), base),
        arena.nodes@[id as int].kind == NormalizedSchema::Union(*branches),
    ensures
        stepped(*old(builder), *final(builder), arena.nodes@, id as int, base, result),
{
    let ghost before = *builder;
    let ghost nodes = arena.nodes@;
    let ghost bound = base + branches@.len() + 1;
    let provenance = &arena.nodes[id as usize].provenance;
    let mut index: usize = 0;
    proof {
        lemma_same(nodes, before);
        assert(schema::kind_within(nodes[id as int].kind, nodes.len()));
        lemma_branches(*branches, nodes[id as int].kind, nodes.len());
    }
    while index < branches.len()
        invariant
            index <= branches@.len(),
            nodes == arena.nodes@,
            id < nodes.len(),
            *provenance == nodes[id as int].provenance,
            nodes[id as int].kind == NormalizedSchema::Union(*branches),
            forall|b: int| 0 <= b < branches@.len() ==> (#[trigger] branches@[b]).0 < nodes.len(),
            bound == base + branches@.len() + 1,
            before == *old(builder),
            ready(before, nodes, id as int),
            builder.wf(nodes),
            builder.follows(nodes, before),
            builder.roles@ == before.roles@,
            builder.symbols() <= base,
            builder.productions@.len() <= base + index,
            builder.rhs_symbols <= base + index,
            forall|b: int|
                0 <= b < index ==> has_unit(
                    builder.roles@,
                    builder.rules(),
                    id,
                    Role::Schema((#[trigger] branches@[b]).0 as int),
                ),
        decreases branches@.len() - index,
    {
        let ghost start = *builder;
        let ghost part = Role::Schema(branches@[index as int].0 as int);
        let rhs = vec![Symbol::Nonterminal(branches[index].0)];
        assert(rhs@.len() == 1 && rhs@[0] == Symbol::Nonterminal(branches@[index as int].0));
        assert(builder.roles@[branches@[index as int].0 as int] == part);
        assert(plays(builder.roles@, rhs@[0], part));
        proof {
            assert(builder.roles@[id as int] == Role::Schema(id as int));
            lemma_branch(
                nodes,
                builder.roles@,
                builder.terminals@,
                id as int,
                *branches,
                index as int,
                rhs@,
            );
        }
        match builder.add_production(id, rhs, provenance.clone(), Ghost(nodes)) {
            Ok(_) => {},
            Err(error) => {
                assert(builder::exceeded(*before.limits, nodes, error, bound));
                return Err(error);
            },
        }
        proof {
            lemma_chain(nodes, before, start, *builder);
            builder::lemma_rules_grow(
                start.roles@,
                builder.roles@,
                start.terminals@,
                builder.terminals@,
                start.rules(),
                builder.rules(),
            );
            let last = start.rules().len() as int;
            assert(builder.rules()[last].lhs == id);
            assert(has_unit(builder.roles@, builder.rules(), id, part));
        }
        index += 1;
    }
    proof {
        lemma_settled(nodes, before, *builder, id as int);
    }
    Ok(())
}

/// Lowers a reference to its target.
fn lower_reference(
    arena: &SchemaArena,
    builder: &mut GrammarBuilder,
    id: u32,
    target: SchemaId,
    Ghost(base): Ghost<int>,
) -> (result: Result<(), CompileError>)
    requires
        arena.wf(),
        id < arena.nodes@.len(),
        ready(*old(builder), arena.nodes@, id as int),
        within(*old(builder), base),
        arena.nodes@[id as int].kind == NormalizedSchema::Ref(target),
    ensures
        stepped(*old(builder), *final(builder), arena.nodes@, id as int, base, result),
{
    let ghost before = *builder;
    let ghost nodes = arena.nodes@;
    let provenance = &arena.nodes[id as usize].provenance;
    let rhs = vec![Symbol::Nonterminal(target.0)];
    assert(schema::kind_within(nodes[id as int].kind, nodes.len()));
    assert(rhs@.len() == 1 && rhs@[0] == Symbol::Nonterminal(target.0));
    match builder.add_production(id, rhs, provenance.clone(), Ghost(nodes)) {
        Ok(_) => {},
        Err(error) => {
            assert(builder::exceeded(*before.limits, nodes, error, base + 2));
            return Err(error);
        },
    }
    proof {
        lemma_settled(nodes, before, *builder, id as int);
    }
    Ok(())
}

/// The role of the `i`th of the nonterminals of the members of an object: two for each property,
/// without and with a member before it.
spec fn member_role(id: int, i: int) -> Role {
    Role::Member { id, index: i / 2, emitted: i % 2 == 1 }
}

/// Whether `count` nonterminals from `first` on are those of the members of an object.
spec fn members_at(roles: Seq<Role>, id: int, first: int, count: int) -> bool {
    &&& first + count <= roles.len()
    &&& forall|i: int| first <= i < first + count ==> #[trigger] roles[i] == member_role(id, i - first)
}

/// Whether a step that adds at most so many symbols, productions and right-hand symbols failed for a
/// limit.
spec fn step_failed(
    before: GrammarBuilder,
    nodes: Seq<SchemaNode>,
    symbols: int,
    productions: int,
    rhs: int,
    error: CompileError,
) -> bool {
    forall|bound: int|
        before.symbols() + symbols <= bound && before.productions@.len() + productions <= bound
            && before.rhs_symbols + rhs <= bound ==> #[trigger] builder::exceeded(
            *before.limits,
            nodes,
            error,
            bound,
        )
}

/// Whether at most so many symbols, productions and right-hand symbols were added.
spec fn step_within(
    before: GrammarBuilder,
    after: GrammarBuilder,
    symbols: int,
    productions: int,
    rhs: int,
) -> bool {
    &&& after.symbols() <= before.symbols() + symbols
    &&& after.productions@.len() <= before.productions@.len() + productions
    &&& after.rhs_symbols <= before.rhs_symbols + rhs
}

/// Whether a name is required.
fn requires_name(object: &ObjectConstraints, name: &str) -> (found: bool)
    ensures
        found == language::holds_name(*object, name@),
{
    let mut index: usize = 0;
    while index < object.required.len()
        invariant
            index <= object.required@.len(),
            forall|r: int| 0 <= r < index ==> (#[trigger] object.required@[r])@ != name@,
        decreases object.required@.len() - index,
    {
        if text::same_text(object.required[index].as_str(), name) {
            assert(object.required@[index as int]@ == name@);
            return true;
        }
        index += 1;
    }
    false
}

/// Whether a name is that of a property.
fn names_property(object: &ObjectConstraints, name: &str) -> (found: bool)
    ensures
        found == language::has_property(*object, name@),
{
    let mut index: usize = 0;
    while index < object.properties.len()
        invariant
            index <= object.properties@.len(),
            forall|p: int| 0 <= p < index ==> (#[trigger] object.properties@[p]).name@ != name@,
        decreases object.properties@.len() - index,
    {
        if text::same_text(object.properties[index].name.as_str(), name) {
            assert(object.properties@[index as int].name@ == name@);
            return true;
        }
        index += 1;
    }
    false
}

/// Whether every required name is that of a property.
fn knows_required(object: &ObjectConstraints) -> (known: bool)
    ensures
        known == language::all_known(*object),
{
    let mut index: usize = 0;
    while index < object.required.len()
        invariant
            index <= object.required@.len(),
            forall|r: int|
                0 <= r < index ==> language::has_property(
                    *object,
                    (#[trigger] object.required@[r])@,
                ),
        decreases object.required@.len() - index,
    {
        if !names_property(object, object.required[index].as_str()) {
            assert(!language::has_property(*object, object.required@[index as int]@));
            return false;
        }
        index += 1;
    }
    true
}

/// The name of a nonterminal for the members of an object.
fn member_name(id: u32, index: usize, emitted: bool) -> (name: String)
    ensures
        name@ == role_name(Role::Member { id: id as int, index: index as int, emitted }),
{
    let mut name = "object_".to_owned();
    name.append(text::decimal(id as usize).as_str());
    name.append("_members_");
    name.append(text::decimal(index).as_str());
    name.append(
        if emitted {
            "_present"
        } else {
            "_empty"
        },
    );
    name
}

/// Adds the two nonterminals of the members of an object from a property on.
fn add_pair(
    builder: &mut GrammarBuilder,
    id: u32,
    index: usize,
    provenance: &Provenance,
    Ghost(nodes): Ghost<Seq<SchemaNode>>,
) -> (result: Result<u32, CompileError>)
    requires
        old(builder).wf(nodes),
        id < nodes.len(),
        provenance.pointer == nodes[id as int].provenance.pointer,
    ensures
        result matches Ok(first) ==> {
            &&& final(builder).wf(nodes)
            &&& final(builder).follows(nodes, *old(builder))
            &&& first == old(builder).roles@.len()
            &&& final(builder).roles@ == old(builder).roles@.push(
                Role::Member { id: id as int, index: index as int, emitted: false },
            ).push(Role::Member { id: id as int, index: index as int, emitted: true })
            &&& step_within(*old(builder), *final(builder), 2, 0, 0)
        },
        result matches Err(error) ==> step_failed(*old(builder), nodes, 2, 0, 0, error),
{
    let ghost before = *builder;
    let absent = match builder.add_nonterminal(
        member_name(id, index, false),
        keyword_provenance(provenance, "properties"),
        Ghost(nodes),
        Ghost(Role::Member { id: id as int, index: index as int, emitted: false }),
    ) {
        Ok(absent) => absent,
        Err(error) => {
            return Err(error);
        },
    };
    let ghost between = *builder;
    match builder.add_nonterminal(
        member_name(id, index, true),
        keyword_provenance(provenance, "properties"),
        Ghost(nodes),
        Ghost(Role::Member { id: id as int, index: index as int, emitted: true }),
    ) {
        Ok(_) => {},
        Err(error) => {
            return Err(error);
        },
    }
    proof {
        lemma_chain(nodes, before, between, *builder);
    }
    Ok(absent)
}

/// Adds the nonterminals of the members of an object.
fn add_members(
    builder: &mut GrammarBuilder,
    id: u32,
    properties: usize,
    provenance: &Provenance,
    Ghost(nodes): Ghost<Seq<SchemaNode>>,
) -> (result: Result<u32, CompileError>)
    requires
        old(builder).wf(nodes),
        id < nodes.len(),
        provenance.pointer == nodes[id as int].provenance.pointer,
    ensures
        result matches Ok(first) ==> {
            &&& final(builder).wf(nodes)
            &&& final(builder).follows(nodes, *old(builder))
            &&& first == old(builder).roles@.len()
            &&& members_at(final(builder).roles@, id as int, first as int, 2 * properties + 2)
            &&& final(builder).roles@.len() == first + 2 * properties + 2
            &&& step_within(*old(builder), *final(builder), 2 * properties + 2, 0, 0)
        },
        result matches Err(error) ==> step_failed(
            *old(builder),
            nodes,
            2 * properties + 2,
            0,
            0,
            error,
        ),
{
    let ghost before = *builder;
    let first = match add_pair(builder, id, 0, provenance, Ghost(nodes)) {
        Ok(first) => first,
        Err(error) => {
            return Err(error);
        },
    };
    let mut index: usize = 0;
    while index < properties
        invariant
            id < nodes.len(),
            provenance.pointer == nodes[id as int].provenance.pointer,
            before == *old(builder),
            first == before.roles@.len(),
            index <= properties,
            builder.wf(nodes),
            builder.follows(nodes, before),
            builder.roles@.len() == first + 2 * index + 2,
            members_at(builder.roles@, id as int, first as int, 2 * index + 2),
            step_within(before, *builder, 2 * index + 2, 0, 0),
        decreases properties - index,
    {
        let ghost start = *builder;
        index += 1;
        match add_pair(builder, id, index, provenance, Ghost(nodes)) {
            Ok(_) => {},
            Err(error) => {
                return Err(error);
            },
        }
        proof {
            lemma_chain(nodes, before, start, *builder);
            assert forall|i: int| first <= i < first + 2 * index + 2 implies #[trigger]
                builder.roles@[i] == member_role(id as int, i - first) by {
                if i < first + 2 * index {
                    assert(builder.roles@[i] == start.roles@[i]);
                }
            }
        }
    }
    Ok(first)
}

/// Whether the nonterminals of `n` schemas come first, in order.
spec fn schemas_first(roles: Seq<Role>, n: nat) -> bool {
    &&& n <= roles.len()
    &&& forall|k: int| 0 <= k < n ==> #[trigger] roles[k] == Role::Schema(k)
}

/// Adds a literal of one byte.
fn add_mark(
    builder: &mut GrammarBuilder,
    byte: u8,
    provenance: &Provenance,
    Ghost(nodes): Ghost<Seq<SchemaNode>>,
) -> (result: Result<TerminalId, CompileError>)
    requires
        old(builder).wf(nodes),
        byte < 128,
        builder::placed(nodes, *provenance),
    ensures
        result matches Ok(id) ==> {
            &&& final(builder).wf(nodes)
            &&& final(builder).follows(nodes, *old(builder))
            &&& final(builder).roles@ == old(builder).roles@
            &&& literal(final(builder).terminals@, Symbol::Terminal(id), language::one(byte))
            &&& step_within(*old(builder), *final(builder), 1, 0, 0)
        },
        result matches Err(error) ==> step_failed(*old(builder), nodes, 1, 0, 0, error),
{
    let mut bytes: Vec<u8> = Vec::new();
    bytes.push(byte);
    proof {
        lemma_one_valid(byte);
        assert(bytes@ =~= language::one(byte));
    }
    builder.add_literal(bytes.as_slice(), provenance.clone(), Ghost(nodes))
}

/// Adds the rule that reads a member.
fn take_member(
    arena: &SchemaArena,
    builder: &mut GrammarBuilder,
    id: u32,
    object: &ObjectConstraints,
    index: usize,
    emitted: bool,
    current: u32,
    next: u32,
) -> (result: Result<(), CompileError>)
    requires
        arena.wf(),
        id < arena.nodes@.len(),
        arena.nodes@[id as int].kind == NormalizedSchema::Object(*object),
        index < object.properties@.len(),
        object.properties@[index as int].schema.0 < arena.nodes@.len(),
        old(builder).wf(arena.nodes@),
        schemas_first(old(builder).roles@, arena.nodes@.len()),
        current < old(builder).roles@.len(),
        old(builder).roles@[current as int] == (Role::Member {
            id: id as int,
            index: index as int,
            emitted,
        }),
        next < old(builder).roles@.len(),
        old(builder).roles@[next as int] == (Role::Member {
            id: id as int,
            index: index + 1,
            emitted: true,
        }),
    ensures
        result is Ok ==> {
            &&& final(builder).wf(arena.nodes@)
            &&& final(builder).follows(arena.nodes@, *old(builder))
            &&& final(builder).roles@ == old(builder).roles@
            &&& has_rule(final(builder).rules(), current, 4, 5)
            &&& step_within(*old(builder), *final(builder), 3, 1, 5)
        },
        result matches Err(error) ==> step_failed(*old(builder), arena.nodes@, 3, 1, 5, error),
{
    let ghost before = *builder;
    let ghost nodes = arena.nodes@;
    let provenance = &arena.nodes[id as usize].provenance;
    let property = &object.properties[index];
    let mut rhs: Vec<Symbol> = Vec::new();
    proof {
        lemma_same(nodes, before);
        utf8::encode_utf8_valid_utf8(text::json_text(property.name@));
    }
    if emitted {
        let comma = match add_mark(builder, 44, provenance, Ghost(nodes)) {
            Ok(comma) => comma,
            Err(error) => {
                return Err(error);
            },
        };
        rhs.push(Symbol::Terminal(comma));
    }
    let ghost first = *builder;
    let key = match text::encode_json(property.name.as_str()) {
        Ok(key) => key,
        Err(message) => {
            return Err(CompileError::InvalidJson { message });
        },
    };
    let key = match builder.add_literal(
        key.as_str().as_bytes(),
        provenance.clone(),
        Ghost(nodes),
    ) {
        Ok(key) => key,
        Err(error) => {
            return Err(error);
        },
    };
    let ghost second = *builder;
    let colon = match add_mark(builder, 58, provenance, Ghost(nodes)) {
        Ok(colon) => colon,
        Err(error) => {
            return Err(error);
        },
    };
    let ghost third = *builder;
    rhs.push(Symbol::Terminal(key));
    rhs.push(Symbol::Terminal(colon));
    rhs.push(Symbol::Nonterminal(property.schema.0));
    rhs.push(Symbol::Nonterminal(next));
    let ghost count = rhs@.len();
    proof {
        lemma_chain(nodes, before, first, second);
        lemma_chain(nodes, before, second, third);
        assert(builder.roles@[property.schema.0 as int] == Role::Schema(property.schema.0 as int));
        assert(takes_member(
            builder.roles@,
            builder.terminals@,
            *object,
            id as int,
            index as int,
            emitted,
            rhs@,
        ));
    }
    match builder.add_production(
        current,
        rhs,
        keyword_provenance(provenance, "properties"),
        Ghost(nodes),
    ) {
        Ok(_) => {},
        Err(error) => {
            return Err(error);
        },
    }
    proof {
        lemma_chain(nodes, before, third, *builder);
        lemma_wider_rule(builder.rules(), current, count as int, 4, 5);
    }
    Ok(())
}

proof fn lemma_wider_rule(rules: Seq<Rule>, s: u32, length: int, least: int, most: int)
    requires
        has_rule(rules, s, length, length),
        least <= length <= most,
    ensures
        has_rule(rules, s, least, most),
{
    let p = choose|p: int|
        0 <= p < rules.len() && (#[trigger] rules[p]).lhs == s && length <= rules[p].rhs.len()
            <= length;
    assert(rules[p].lhs == s);
}

proof fn lemma_one_valid(byte: u8)
    requires
        byte < 128,
    ensures
        utf8::valid_utf8(language::one(byte)),
{
    let text = language::one(byte);
    reveal_with_fuel(utf8::valid_utf8, 2);
    assert(utf8::pop_first_scalar(text) =~= Seq::<u8>::empty());
}

/// Adds the rules of the members of an object from a property on.
fn lower_member(
    arena: &SchemaArena,
    builder: &mut GrammarBuilder,
    id: u32,
    object: &ObjectConstraints,
    index: usize,
    emitted: bool,
    first: u32,
) -> (result: Result<(), CompileError>)
    requires
        arena.wf(),
        id < arena.nodes@.len(),
        arena.nodes@[id as int].kind == NormalizedSchema::Object(*object),
        index < object.properties@.len(),
        object.properties@[index as int].schema.0 < arena.nodes@.len(),
        old(builder).wf(arena.nodes@),
        schemas_first(old(builder).roles@, arena.nodes@.len()),
        members_at(
            old(builder).roles@,
            id as int,
            first as int,
            2 * object.properties@.len() as int + 2,
        ),
    ensures
        result is Ok ==> {
            &&& final(builder).wf(arena.nodes@)
            &&& final(builder).follows(arena.nodes@, *old(builder))
            &&& final(builder).roles@ == old(builder).roles@
            &&& final(builder).done(
                arena.nodes@,
                (first + 2 * index + if emitted {
                    1int
                } else {
                    0int
                }) as u32,
            )
            &&& step_within(*old(builder), *final(builder), 3, 2, 6)
        },
        result matches Err(error) ==> step_failed(*old(builder), arena.nodes@, 3, 2, 6, error),
{
    let ghost before = *builder;
    let ghost nodes = arena.nodes@;
    let provenance = &arena.nodes[id as usize].provenance;
    assert(first + 2 * index + 3 < builder.roles@.len() <= u32::MAX + 1);
    let absent: u32 = first + 2 * (index as u32);
    let current: u32 = if emitted {
        absent + 1
    } else {
        absent
    };
    proof {
        assert(builder.roles@[absent as int] == member_role(id as int, 2 * index as int));
        assert(builder.roles@[absent + 1] == member_role(id as int, 2 * index + 1));
        assert(builder.roles@[absent + 2] == member_role(id as int, 2 * index + 2));
        assert(builder.roles@[absent + 3] == member_role(id as int, 2 * index + 3));
        lemma_same(nodes, before);
    }
    let required = requires_name(object, object.properties[index].name.as_str());
    if !required {
        let mut rhs: Vec<Symbol> = Vec::new();
        rhs.push(Symbol::Nonterminal(current + 2));
        match builder.add_production(
            current,
            rhs,
            keyword_provenance(provenance, "properties"),
            Ghost(nodes),
        ) {
            Ok(_) => {},
            Err(error) => {
                return Err(error);
            },
        }
    }
    let ghost between = *builder;
    match take_member(arena, builder, id, object, index, emitted, current, absent + 3) {
        Ok(()) => {},
        Err(error) => {
            return Err(error);
        },
    }
    proof {
        lemma_chain(nodes, before, between, *builder);
    }
    Ok(())
}

/// Adds the rule that puts the members or items of a schema into brackets.
fn enclose(
    arena: &SchemaArena,
    builder: &mut GrammarBuilder,
    id: u32,
    open: u8,
    inner: u32,
    close: u8,
) -> (result: Result<(), CompileError>)
    requires
        arena.wf(),
        id < arena.nodes@.len(),
        open < 128,
        close < 128,
        old(builder).wf(arena.nodes@),
        schemas_first(old(builder).roles@, arena.nodes@.len()),
        inner < old(builder).roles@.len(),
        forall|terminals: Seq<RegularTerminal>, rhs: Seq<Symbol>| #[trigger]
            bracketed(
                old(builder).roles@,
                terminals,
                rhs,
                open,
                old(builder).roles@[inner as int],
                close,
            ) ==> form(
                arena.nodes@,
                old(builder).roles@,
                terminals,
                Role::Schema(id as int),
                rhs,
            ),
    ensures
        result is Ok ==> {
            &&& final(builder).wf(arena.nodes@)
            &&& final(builder).follows(arena.nodes@, *old(builder))
            &&& final(builder).roles@ == old(builder).roles@
            &&& has_rule(final(builder).rules(), id, 3, 3)
            &&& step_within(*old(builder), *final(builder), 2, 1, 3)
        },
        result matches Err(error) ==> step_failed(*old(builder), arena.nodes@, 2, 1, 3, error),
{
    let ghost before = *builder;
    let ghost nodes = arena.nodes@;
    let provenance = &arena.nodes[id as usize].provenance;
    let opening = match add_mark(builder, open, provenance, Ghost(nodes)) {
        Ok(opening) => opening,
        Err(error) => {
            return Err(error);
        },
    };
    let ghost first = *builder;
    let closing = match add_mark(builder, close, provenance, Ghost(nodes)) {
        Ok(closing) => closing,
        Err(error) => {
            return Err(error);
        },
    };
    let ghost second = *builder;
    let mut rhs: Vec<Symbol> = Vec::new();
    rhs.push(Symbol::Terminal(opening));
    rhs.push(Symbol::Nonterminal(inner));
    rhs.push(Symbol::Terminal(closing));
    proof {
        lemma_chain(nodes, before, first, second);
        assert(builder.roles@[id as int] == Role::Schema(id as int));
        assert(bracketed(
            builder.roles@,
            builder.terminals@,
            rhs@,
            open,
            builder.roles@[inner as int],
            close,
        ));
    }
    match builder.add_production(id, rhs, provenance.clone(), Ghost(nodes)) {
        Ok(_) => {},
        Err(error) => {
            return Err(error);
        },
    }
    proof {
        lemma_chain(nodes, before, second, *builder);
    }
    Ok(())
}

proof fn lemma_properties(object: ObjectConstraints, kind: NormalizedSchema, n: nat)
    requires
        schema::kind_within(kind, n),
        kind == NormalizedSchema::Object(object),
    ensures
        forall|p: int|
            0 <= p < object.properties@.len() ==> (#[trigger] object.properties@[p]).schema.0 < n,
{
    match kind {
        NormalizedSchema::Object(found) => {
            assert forall|p: int| 0 <= p < found.properties@.len() implies (
            #[trigger] found.properties@[p]).schema.0 < n by {}
        },
        _ => {},
    }
}

/// Lowers a closed object: its members come in the order of the properties.
fn lower_object(
    arena: &SchemaArena,
    builder: &mut GrammarBuilder,
    id: u32,
    object: &ObjectConstraints,
    Ghost(base): Ghost<int>,
) -> (result: Result<(), CompileError>)
    requires
        arena.wf(),
        id < arena.nodes@.len(),
        ready(*old(builder), arena.nodes@, id as int),
        within(*old(builder), base),
        arena.nodes@[id as int].kind == NormalizedSchema::Object(*object),
    ensures
        stepped(*old(builder), *final(builder), arena.nodes@, id as int, base, result),
{
    let ghost before = *builder;
    let ghost nodes = arena.nodes@;
    let ghost bound = base + 12 * object.properties@.len() + 8;
    let provenance = &arena.nodes[id as usize].provenance;
    if object.additional_properties != AdditionalProperties::Forbidden {
        return Err(
            CompileError::UnsupportedCombination {
                location: provenance.location(),
                reason: "open objects require canonical key-order memory".to_owned(),
            },
        );
    }
    proof {
        lemma_same(nodes, before);
        assert(builder.roles@[id as int] == Role::Schema(id as int));
        assert(schema::kind_within(nodes[id as int].kind, nodes.len()));
        lemma_properties(*object, nodes[id as int].kind, nodes.len());
    }
    if !knows_required(object) {
        proof {
            lemma_settled(nodes, before, *builder, id as int);
        }
        return Ok(());
    }
    let count: usize = object.properties.len();
    let first = match add_members(builder, id, count, provenance, Ghost(nodes)) {
        Ok(first) => first,
        Err(error) => {
            assert(builder::exceeded(*before.limits, nodes, error, bound));
            return Err(error);
        },
    };
    let ghost members = *builder;
    assert(first + 2 * count + 1 < builder.roles@.len() <= u32::MAX + 1);
    let last: u32 = first + 2 * (count as u32);
    proof {
        assert(builder.roles@[last as int] == member_role(id as int, 2 * count as int));
        assert(builder.roles@[last + 1] == member_role(id as int, 2 * count + 1));
    }
    match builder.add_production(
        last,
        Vec::new(),
        keyword_provenance(provenance, "properties"),
        Ghost(nodes),
    ) {
        Ok(_) => {},
        Err(error) => {
            assert(builder::exceeded(*before.limits, nodes, error, bound));
            return Err(error);
        },
    }
    let ghost ended = *builder;
    match builder.add_production(
        last + 1,
        Vec::new(),
        keyword_provenance(provenance, "properties"),
        Ghost(nodes),
    ) {
        Ok(_) => {},
        Err(error) => {
            assert(builder::exceeded(*before.limits, nodes, error, bound));
            return Err(error);
        },
    }
    proof {
        lemma_chain(nodes, before, members, ended);
        lemma_chain(nodes, before, ended, *builder);
        assert(ended.done(nodes, last));
        assert(builder.done(nodes, (last + 1) as u32));
    }
    let mut index: usize = 0;
    while index < count
        invariant
            arena.wf(),
            nodes == arena.nodes@,
            id < nodes.len(),
            nodes[id as int].kind == NormalizedSchema::Object(*object),
            forall|p: int|
                0 <= p < object.properties@.len() ==> (#[trigger] object.properties@[p]).schema.0
                    < nodes.len(),
            before == *old(builder),
            ready(before, nodes, id as int),
            within(before, base),
            count == object.properties@.len(),
            bound == base + 12 * count + 8,
            index <= count,
            first == before.roles@.len(),
            last == first + 2 * count,
            builder.wf(nodes),
            builder.follows(nodes, before),
            builder.roles@.len() == first + 2 * count + 2,
            members_at(builder.roles@, id as int, first as int, 2 * count + 2),
            step_within(before, *builder, 2 * count + 2 + 6 * index, 2 + 4 * index, 12 * index),
            builder.done(nodes, last),
            builder.done(nodes, (last + 1) as u32),
            forall|s: u32| first <= s < first + 2 * index ==> #[trigger] builder.done(nodes, s),
        decreases count - index,
    {
        let ghost start = *builder;
        match lower_member(arena, builder, id, object, index, false, first) {
            Ok(()) => {},
            Err(error) => {
                assert(builder::exceeded(*before.limits, nodes, error, bound));
                return Err(error);
            },
        }
        let ghost half = *builder;
        match lower_member(arena, builder, id, object, index, true, first) {
            Ok(()) => {},
            Err(error) => {
                assert(builder::exceeded(*before.limits, nodes, error, bound));
                return Err(error);
            },
        }
        proof {
            lemma_chain(nodes, start, half, *builder);
            lemma_chain(nodes, before, start, *builder);
            assert forall|s: u32| first <= s < first + 2 * (index + 1) implies #[trigger]
                builder.done(nodes, s) by {
                if s < first + 2 * index {
                    assert(start.done(nodes, s));
                } else if s == first + 2 * index {
                    assert(half.done(nodes, s));
                }
            }
            assert(start.done(nodes, last));
            assert(start.done(nodes, (last + 1) as u32));
        }
        index += 1;
    }
    let ghost filled = *builder;
    proof {
        assert(builder.roles@[first as int] == member_role(id as int, 0));
    }
    match enclose(arena, builder, id, 123, first, 125) {
        Ok(()) => {},
        Err(error) => {
            assert(builder::exceeded(*before.limits, nodes, error, bound));
            return Err(error);
        },
    }
    proof {
        lemma_chain(nodes, before, filled, *builder);
        assert forall|s: u32|
            before.roles@.len() <= s < builder.roles@.len() implies #[trigger] builder.done(
            nodes,
            s,
        ) && !(builder.roles@[s as int] is Schema) by {
            assert(filled.done(nodes, s));
            assert(builder.roles@[s as int] == member_role(id as int, s - first));
        }
        assert(builder.roles@[id as int] == before.roles@[id as int]);
        lemma_settled(nodes, before, *builder, id as int);
    }
    Ok(())
}

/// Whether `count` nonterminals from `first` on are those of the positions of an array.
spec fn positions_at(roles: Seq<Role>, id: int, first: int, count: int) -> bool {
    &&& first + count <= roles.len()
    &&& forall|i: int|
        first <= i < first + count ==> #[trigger] roles[i] == (Role::Position {
            id,
            index: i - first,
        })
}

/// Whether nothing conforms to the schema of a node.
fn is_never(arena: &SchemaArena, id: SchemaId) -> (never: bool)
    ensures
        never == (id.0 < arena.nodes@.len() && arena.nodes@[id.0 as int].kind is Never),
{
    match arena.node(id) {
        Some(node) => matches!(node.kind, NormalizedSchema::Never),
        None => false,
    }
}

/// The largest number of items of an array.
fn largest(arena: &SchemaArena, array: &ArrayConstraints) -> (maximum: Option<usize>)
    ensures
        maximum is Some == language::effective_max(arena.nodes@, *array) is Some,
        maximum matches Some(count) ==> language::effective_max(arena.nodes@, *array) == Some(
            count as nat,
        ),
{
    let never = match array.items {
        Some(id) => is_never(arena, id),
        None => false,
    };
    if never {
        let prefix: usize = array.prefix_items.len();
        match array.max_items {
            Some(maximum) => if maximum < prefix {
                Some(maximum)
            } else {
                Some(prefix)
            },
            None => Some(prefix),
        }
    } else {
        array.max_items
    }
}

/// The name of a nonterminal for the items of an array.
fn position_name(id: u32, index: usize) -> (name: String)
    ensures
        name@ == role_name(Role::Position { id: id as int, index: index as int }),
{
    let mut name = "array_".to_owned();
    name.append(text::decimal(id as usize).as_str());
    name.append("_position_");
    name.append(text::decimal(index).as_str());
    name
}

/// Adds the nonterminals of the positions of an array.
fn add_positions(
    builder: &mut GrammarBuilder,
    id: u32,
    count: usize,
    provenance: &Provenance,
    Ghost(nodes): Ghost<Seq<SchemaNode>>,
) -> (result: Result<u32, CompileError>)
    requires
        old(builder).wf(nodes),
        id < nodes.len(),
        provenance.pointer == nodes[id as int].provenance.pointer,
        count > 0,
    ensures
        result matches Ok(first) ==> {
            &&& final(builder).wf(nodes)
            &&& final(builder).follows(nodes, *old(builder))
            &&& first == old(builder).roles@.len()
            &&& positions_at(final(builder).roles@, id as int, first as int, count as int)
            &&& final(builder).roles@.len() == first + count
            &&& step_within(*old(builder), *final(builder), count as int, 0, 0)
        },
        result matches Err(error) ==> step_failed(*old(builder), nodes, count as int, 0, 0, error),
{
    let ghost before = *builder;
    let mut first: u32 = 0;
    let mut index: usize = 0;
    proof {
        lemma_same(nodes, before);
    }
    while index < count
        invariant
            id < nodes.len(),
            provenance.pointer == nodes[id as int].provenance.pointer,
            before == *old(builder),
            index <= count,
            index > 0 ==> first == before.roles@.len(),
            builder.wf(nodes),
            builder.follows(nodes, before),
            builder.roles@.len() == before.roles@.len() + index,
            positions_at(builder.roles@, id as int, before.roles@.len() as int, index as int),
            step_within(before, *builder, index as int, 0, 0),
        decreases count - index,
    {
        let ghost start = *builder;
        let state = match builder.add_nonterminal(
            position_name(id, index),
            keyword_provenance(provenance, "items"),
            Ghost(nodes),
            Ghost(Role::Position { id: id as int, index: index as int }),
        ) {
            Ok(state) => state,
            Err(error) => {
                return Err(error);
            },
        };
        if index == 0 {
            first = state;
        }
        proof {
            lemma_chain(nodes, before, start, *builder);
            let from = before.roles@.len() as int;
            assert forall|i: int| from <= i < from + index + 1 implies #[trigger]
                builder.roles@[i] == (Role::Position { id: id as int, index: i - from }) by {
                if i < from + index {
                    assert(builder.roles@[i] == start.roles@[i]);
                }
            }
        }
        index += 1;
    }
    Ok(first)
}

/// The schema of the item at a position, if one can stand there.
fn find_item(
    arena: &SchemaArena,
    array: &ArrayConstraints,
    maximum: Option<usize>,
    index: usize,
) -> (item: Option<SchemaId>)
    requires
        forall|i: int|
            0 <= i < array.prefix_items@.len() ==> (#[trigger] array.prefix_items@[i]).0
                < arena.nodes@.len(),
        array.items matches Some(id) ==> id.0 < arena.nodes@.len(),
        maximum is Some == language::effective_max(arena.nodes@, *array) is Some,
        maximum matches Some(count) ==> language::effective_max(arena.nodes@, *array) == Some(
            count as nat,
        ),
    ensures
        item is Some == language::item_at(arena.nodes@, *array, index as int) is Some,
        item matches Some(id) ==> id.0 < arena.nodes@.len() && language::item_at(
            arena.nodes@,
            *array,
            index as int,
        ) == Some(id.0 as int),
{
    match maximum {
        Some(count) => {
            if index >= count {
                return None;
            }
        },
        None => {},
    }
    let item = if index < array.prefix_items.len() {
        Some(array.prefix_items[index])
    } else {
        array.items
    };
    match item {
        Some(id) => if is_never(arena, id) {
            None
        } else {
            Some(id)
        },
        None => None,
    }
}

/// Adds the rules of a position of an array.
fn lower_position(
    arena: &SchemaArena,
    builder: &mut GrammarBuilder,
    id: u32,
    array: &ArrayConstraints,
    maximum: Option<usize>,
    index: usize,
    count: usize,
    first: u32,
) -> (result: Result<(), CompileError>)
    requires
        arena.wf(),
        id < arena.nodes@.len(),
        arena.nodes@[id as int].kind == NormalizedSchema::Array(*array),
        forall|i: int|
            0 <= i < array.prefix_items@.len() ==> (#[trigger] array.prefix_items@[i]).0
                < arena.nodes@.len(),
        array.items matches Some(id) ==> id.0 < arena.nodes@.len(),
        maximum is Some == language::effective_max(arena.nodes@, *array) is Some,
        maximum matches Some(count) ==> language::effective_max(arena.nodes@, *array) == Some(
            count as nat,
        ),
        count == language::position_count(arena.nodes@, *array),
        index < count,
        old(builder).wf(arena.nodes@),
        schemas_first(old(builder).roles@, arena.nodes@.len()),
        positions_at(old(builder).roles@, id as int, first as int, count as int),
    ensures
        result is Ok ==> {
            &&& final(builder).wf(arena.nodes@)
            &&& final(builder).follows(arena.nodes@, *old(builder))
            &&& final(builder).roles@ == old(builder).roles@
            &&& final(builder).done(arena.nodes@, (first + index) as u32)
            &&& step_within(*old(builder), *final(builder), 1, 2, 3)
        },
        result matches Err(error) ==> step_failed(*old(builder), arena.nodes@, 1, 2, 3, error),
{
    let ghost before = *builder;
    let ghost nodes = arena.nodes@;
    let provenance = &arena.nodes[id as usize].provenance;
    assert(first + index < first + count <= builder.roles@.len() <= u32::MAX + 1);
    let current: u32 = first + index as u32;
    let next: u32 = if index + 1 < count {
        current + 1
    } else {
        current
    };
    let ghost following = language::next_position(nodes, *array, index as int);
    proof {
        lemma_same(nodes, before);
        assert(builder.roles@[current as int] == (Role::Position {
            id: id as int,
            index: index as int,
        }));
        assert(builder.roles@[next as int] == (Role::Position { id: id as int, index: following }));
    }
    if index >= array.min_items {
        match builder.add_production(
            current,
            Vec::new(),
            keyword_provenance(provenance, "minItems"),
            Ghost(nodes),
        ) {
            Ok(_) => {},
            Err(error) => {
                return Err(error);
            },
        }
    }
    let ghost ended = *builder;
    let item = match find_item(arena, array, maximum, index) {
        Some(item) => item,
        None => {
            return Ok(());
        },
    };
    let mut rhs: Vec<Symbol> = Vec::new();
    if index != 0 {
        let comma = match add_mark(builder, 44, provenance, Ghost(nodes)) {
            Ok(comma) => comma,
            Err(error) => {
                return Err(error);
            },
        };
        rhs.push(Symbol::Terminal(comma));
    } else {
        proof {
            lemma_same(nodes, ended);
        }
    }
    let ghost marked = *builder;
    rhs.push(Symbol::Nonterminal(item.0));
    rhs.push(Symbol::Nonterminal(next));
    let ghost length = rhs@.len();
    proof {
        lemma_chain(nodes, before, ended, marked);
        assert(builder.roles@[item.0 as int] == Role::Schema(item.0 as int));
        assert(takes_item(
            builder.roles@,
            builder.terminals@,
            id as int,
            index as int,
            item.0 as int,
            following,
            rhs@,
        ));
    }
    match builder.add_production(
        current,
        rhs,
        keyword_provenance(provenance, "items"),
        Ghost(nodes),
    ) {
        Ok(_) => {},
        Err(error) => {
            return Err(error);
        },
    }
    proof {
        lemma_chain(nodes, before, marked, *builder);
        lemma_wider_rule(builder.rules(), current, length as int, 2, 3);
        assert(index >= array.min_items ==> has_rule(marked.rules(), current, 0, 0));
    }
    Ok(())
}

proof fn lemma_items(array: ArrayConstraints, kind: NormalizedSchema, n: nat)
    requires
        schema::kind_within(kind, n),
        kind == NormalizedSchema::Array(array),
    ensures
        forall|i: int|
            0 <= i < array.prefix_items@.len() ==> (#[trigger] array.prefix_items@[i]).0 < n,
        array.items matches Some(id) ==> id.0 < n,
{
    match kind {
        NormalizedSchema::Array(found) => {
            assert forall|i: int| 0 <= i < found.prefix_items@.len() implies (
            #[trigger] found.prefix_items@[i]).0 < n by {}
        },
        _ => {},
    }
}

/// Lowers an array: its items come one after the other, position by position.
fn lower_array(
    arena: &SchemaArena,
    builder: &mut GrammarBuilder,
    id: u32,
    array: &ArrayConstraints,
    Ghost(base): Ghost<int>,
) -> (result: Result<(), CompileError>)
    requires
        arena.wf(),
        id < arena.nodes@.len(),
        ready(*old(builder), arena.nodes@, id as int),
        within(*old(builder), base),
        arena.nodes@[id as int].kind == NormalizedSchema::Array(*array),
    ensures
        stepped(*old(builder), *final(builder), arena.nodes@, id as int, base, result),
{
    let ghost before = *builder;
    let ghost nodes = arena.nodes@;
    let ghost bound = base + 3 * language::position_count(nodes, *array) + 5;
    let provenance = &arena.nodes[id as usize].provenance;
    let maximum = largest(arena, array);
    let prefix: usize = array.prefix_items.len();
    let doomed = match maximum {
        Some(count) => count < array.min_items,
        None => false,
    };
    proof {
        lemma_same(nodes, before);
        assert(builder.roles@[id as int] == Role::Schema(id as int));
        assert(schema::kind_within(nodes[id as int].kind, nodes.len()));
        lemma_items(*array, nodes[id as int].kind, nodes.len());
    }
    if doomed {
        proof {
            lemma_settled(nodes, before, *builder, id as int);
        }
        return Ok(());
    }
    let open_end = match maximum {
        Some(count) => count > prefix,
        None => true,
    };
    if open_end && array.items.is_none() {
        let reason = match maximum {
            Some(_) => "unconstrained remainder items require a structural backend",
            None => "unbounded unconstrained array items require a structural backend",
        };
        return Err(
            CompileError::UnsupportedCombination {
                location: provenance.location(),
                reason: reason.to_owned(),
            },
        );
    }
    let last: usize = match maximum {
        Some(count) => count,
        None => if prefix < array.min_items {
            array.min_items
        } else if prefix == 0 {
            1
        } else {
            prefix
        },
    };
    if last == usize::MAX {
        let error = resource_error(
            CompileStage::Lowering,
            usize::MAX,
            builder.limits.max_symbols,
        );
        assert(node_cost(nodes, nodes[id as int].kind) > usize::MAX);
        assert(builder::uncounted(*before.limits, nodes, error));
        return Err(error);
    }
    let count: usize = last + 1;
    let first = match add_positions(builder, id, count, provenance, Ghost(nodes)) {
        Ok(first) => first,
        Err(error) => {
            assert(builder::exceeded(*before.limits, nodes, error, bound));
            return Err(error);
        },
    };
    let mut index: usize = 0;
    while index < count
        invariant
            arena.wf(),
            nodes == arena.nodes@,
            id < nodes.len(),
            nodes[id as int].kind == NormalizedSchema::Array(*array),
            forall|i: int|
                0 <= i < array.prefix_items@.len() ==> (#[trigger] array.prefix_items@[i]).0
                    < nodes.len(),
            array.items matches Some(id) ==> id.0 < nodes.len(),
            maximum is Some == language::effective_max(nodes, *array) is Some,
            maximum matches Some(largest) ==> language::effective_max(nodes, *array) == Some(
                largest as nat,
            ),
            before == *old(builder),
            ready(before, nodes, id as int),
            within(before, base),
            count == language::position_count(nodes, *array),
            bound == base + 3 * count + 5,
            index <= count,
            first == before.roles@.len(),
            builder.wf(nodes),
            builder.follows(nodes, before),
            builder.roles@.len() == first + count,
            positions_at(builder.roles@, id as int, first as int, count as int),
            step_within(before, *builder, count + index, 2 * index, 3 * index),
            forall|s: u32| first <= s < first + index ==> #[trigger] builder.done(nodes, s),
        decreases count - index,
    {
        let ghost start = *builder;
        match lower_position(arena, builder, id, array, maximum, index, count, first) {
            Ok(()) => {},
            Err(error) => {
                assert(builder::exceeded(*before.limits, nodes, error, bound));
                return Err(error);
            },
        }
        proof {
            lemma_chain(nodes, before, start, *builder);
            assert forall|s: u32| first <= s < first + index + 1 implies #[trigger] builder.done(
                nodes,
                s,
            ) by {
                if s < first + index {
                    assert(start.done(nodes, s));
                }
            }
        }
        index += 1;
    }
    let ghost filled = *builder;
    proof {
        assert(builder.roles@[first as int] == (Role::Position { id: id as int, index: 0 }));
    }
    match enclose(arena, builder, id, 91, first, 93) {
        Ok(()) => {},
        Err(error) => {
            assert(builder::exceeded(*before.limits, nodes, error, bound));
            return Err(error);
        },
    }
    proof {
        lemma_chain(nodes, before, filled, *builder);
        assert forall|s: u32|
            before.roles@.len() <= s < builder.roles@.len() implies #[trigger] builder.done(
            nodes,
            s,
        ) && !(builder.roles@[s as int] is Schema) by {
            assert(filled.done(nodes, s));
            assert(builder.roles@[s as int] == (Role::Position { id: id as int, index: s - first }));
        }
        assert(builder.roles@[id as int] == before.roles@[id as int]);
        lemma_settled(nodes, before, *builder, id as int);
    }
    Ok(())
}

/// Lowers the schema of a node.
fn lower_node(
    arena: &SchemaArena,
    builder: &mut GrammarBuilder,
    id: u32,
    Ghost(base): Ghost<int>,
) -> (result: Result<(), CompileError>)
    requires
        arena.wf(),
        id < arena.nodes@.len(),
        ready(*old(builder), arena.nodes@, id as int),
        within(*old(builder), base),
    ensures
        stepped(*old(builder), *final(builder), arena.nodes@, id as int, base, result),
{
    let ghost before = *builder;
    let ghost nodes = arena.nodes@;
    let node = &arena.nodes[id as usize];
    match &node.kind {
        NormalizedSchema::Never => {
            proof {
                lemma_same(nodes, before);
                assert(builder.roles@[id as int] == Role::Schema(id as int));
                lemma_settled(nodes, before, *builder, id as int);
            }
            Ok(())
        },
        NormalizedSchema::Any => Err(
            CompileError::UnsupportedCombination {
                location: node.provenance.location(),
                reason: "unconstrained JSON objects require canonical key-order memory".to_owned(),
            },
        ),
        NormalizedSchema::Null => lower_scalar(
            arena,
            builder,
            id,
            json_schema::NULL,
            Some(json_schema::NULL),
            Ghost(base),
        ),
        NormalizedSchema::Boolean => lower_scalar(
            arena,
            builder,
            id,
            json_schema::BOOLEAN,
            None,
            Ghost(base),
        ),
        NormalizedSchema::String(constraints) => {
            if constraints.min_length != 0 || constraints.max_length.is_some() {
                return Err(
                    CompileError::UnsupportedCombination {
                        location: node.provenance.location(),
                        reason:
                            "Unicode length constraints require a certified scalar-count automaton".to_owned(),
                    },
                );
            }
            lower_scalar(arena, builder, id, json_schema::STRING, None, Ghost(base))
        },
        NormalizedSchema::Number => lower_scalar(
            arena,
            builder,
            id,
            json_schema::NUMBER,
            None,
            Ghost(base),
        ),
        NormalizedSchema::Integer => lower_scalar(
            arena,
            builder,
            id,
            json_schema::INTEGER,
            None,
            Ghost(base),
        ),
        NormalizedSchema::Const(value) => lower_constant(arena, builder, id, value, Ghost(base)),
        NormalizedSchema::Enum(values) => lower_values(arena, builder, id, values, Ghost(base)),
        NormalizedSchema::Union(branches) => lower_branches(
            arena,
            builder,
            id,
            branches,
            Ghost(base),
        ),
        NormalizedSchema::Ref(target) => lower_reference(arena, builder, id, *target, Ghost(base)),
        NormalizedSchema::Array(array) => lower_array(arena, builder, id, array, Ghost(base)),
        NormalizedSchema::Object(object) => lower_object(arena, builder, id, object, Ghost(base)),
    }
}

/// What is promised of the grammar of a schema: each node's nonterminal generates the texts that
/// conform to the node's schema.
pub open spec fn lowers(arena: &SchemaArena, grammar: &Grammar) -> bool {
    &&& grammar.wf()
    &&& grammar.start == arena.root.0
    &&& arena.nodes@.len() <= grammar.nonterminals@.len()
    &&& forall|a: int|
        0 <= a < grammar.nonterminals@.len() ==> has_role(
            arena.nodes@,
            #[trigger] grammar.nonterminals@[a],
            a,
        )
    &&& forall|t: int|
        0 <= t < grammar.terminals@.len() ==> builder::placed(
            arena.nodes@,
            (#[trigger] grammar.terminals@[t]).provenance,
        )
    &&& forall|p: int|
        0 <= p < grammar.productions@.len() ==> (
        #[trigger] grammar.productions@[p]).provenance.pointer
            == grammar.nonterminals@[grammar.productions@[p].lhs as int].provenance.pointer
    &&& residual_build::textual(grammar)
    &&& certificate::clean(grammar)
    &&& forall|id: int|
        0 <= id < arena.nodes@.len() ==> language::unsupported(arena.nodes@, id) is None
    &&& forall|id: u32, w: Seq<u8>|
        id < arena.nodes@.len() ==> (#[trigger] grammar.generates(
            grammar::terminal_kinds(),
            id,
            w,
        ) <==> language::conforms(arena.nodes@, id as int, w))
}

/// Whether a grammar keeps within the limits.
pub open spec fn keeps(limits: CompileLimits, grammar: &Grammar) -> bool {
    builder::keeps(
        limits,
        grammar.nonterminals@.len(),
        grammar.terminals@.len(),
        grammar.productions@,
    )
}

/// Whether an error is that of the first schema without a grammar.
pub open spec fn first_refused(arena: &SchemaArena, error: CompileError) -> bool {
    exists|id: int| #[trigger] refused_first(arena.nodes@, id, error)
}

/// Whether an error is that of a schema without a grammar, and all schemas before have one.
pub open spec fn refused_first(nodes: Seq<SchemaNode>, id: int, error: CompileError) -> bool {
    &&& 0 <= id < nodes.len()
    &&& refuses(nodes, id, error)
    &&& forall|k: int| 0 <= k < id ==> language::unsupported(nodes, k) is None
}

proof fn lemma_language(
    nodes: Seq<SchemaNode>,
    roles: Seq<Role>,
    grammar: &Grammar,
)
    requires
        lowered(nodes, roles, grammar.terminals@, grammar.rules()),
        schemas_first(roles, nodes.len()),
    ensures
        forall|id: u32, w: Seq<u8>|
            id < nodes.len() ==> (#[trigger] grammar.generates(grammar::terminal_kinds(), id, w)
                <==> language::conforms(nodes, id as int, w)),
{
    let terminals = grammar.terminals@;
    let rules = grammar.rules();
    let lex = lex_of(terminals);
    assert forall|id: u32, w: Seq<u8>| id < nodes.len() implies (#[trigger] grammar.generates(
        grammar::terminal_kinds(),
        id,
        w,
    ) <==> language::conforms(nodes, id as int, w)) by {
        assert(roles[id as int] == Role::Schema(id as int));
        let symbol = Symbol::Nonterminal(id);
        let end = w.len() as int;
        if grammar.generates(grammar::terminal_kinds(), id, w) {
            let n = choose|n: nat| derivation::derives(rules, lex, n, symbol, w, 0, end);
            lemma_exact(nodes, roles, terminals, rules, n);
            assert(language::speaks(nodes, n, Role::Schema(id as int), w, 0, end));
        }
        if language::conforms(nodes, id as int, w) {
            let n = choose|n: nat| #[trigger]
                language::speaks(nodes, n, Role::Schema(id as int), w, 0, end);
            lemma_exact(nodes, roles, terminals, rules, n);
            assert(derivation::derives(rules, lex, n, symbol, w, 0, end));
        }
    }
}

/// Adds the nonterminals of the schemas.
fn seed<'a>(arena: &SchemaArena, limits: &'a CompileLimits) -> (result: Result<
    GrammarBuilder<'a>,
    CompileError,
>)
    requires
        arena.wf(),
    ensures
        result matches Ok(builder) ==> {
            &&& ready(builder, arena.nodes@, 0)
            &&& within(builder, arena.nodes@.len() as int)
            &&& builder.limits == limits
        },
        result matches Err(error) ==> forall|bound: int|
            bound >= arena.nodes@.len() ==> #[trigger] builder::exceeded(*limits, arena.nodes@, error, bound),
{
    let ghost nodes = arena.nodes@;
    let mut builder = GrammarBuilder::new(limits);
    let mut index: usize = 0;
    while index < arena.nodes.len()
        invariant
            nodes == arena.nodes@,
            index <= nodes.len(),
            builder.wf(nodes),
            builder.limits == limits,
            builder.roles@.len() == index,
            forall|k: int| 0 <= k < index ==> #[trigger] builder.roles@[k] == Role::Schema(k),
            builder.terminals@.len() == 0,
            builder.productions@.len() == 0,
            builder.rhs_symbols == 0,
        decreases nodes.len() - index,
    {
        let node = &arena.nodes[index];
        let mut name = "schema_".to_owned();
        name.append(text::decimal(index).as_str());
        match builder.add_nonterminal(
            name,
            node.provenance.clone(),
            Ghost(nodes),
            Ghost(Role::Schema(index as int)),
        ) {
            Ok(_) => {},
            Err(error) => {
                return Err(error);
            },
        }
        index += 1;
    }
    Ok(builder)
}

/// Lowers a schema to a grammar. The grammar generates the texts that conform to the schema. An
/// error is that of the first schema without a grammar, or of a limit below what the schemas may
/// need.
pub fn lower(arena: &SchemaArena, limits: &CompileLimits) -> (result: Result<Grammar, CompileError>)
    requires
        arena.wf(),
    ensures
        result matches Ok(grammar) ==> lowers(arena, &grammar) && keeps(*limits, &grammar),
        result matches Err(error) ==> first_refused(arena, error) || builder::exceeded(
            *limits,
            arena.nodes@,
            error,
            (arena.nodes@.len() + total_cost(arena.nodes@, arena.nodes@.len())) as int,
        ),
{
    let ghost nodes = arena.nodes@;
    let ghost count = nodes.len();
    let mut builder = match seed(arena, limits) {
        Ok(builder) => builder,
        Err(error) => {
            assert(builder::exceeded(*limits, arena.nodes@, error, (count + total_cost(nodes, count)) as int));
            return Err(error);
        },
    };
    let mut index: usize = 0;
    while index < arena.nodes.len()
        invariant
            arena.wf(),
            nodes == arena.nodes@,
            count == nodes.len(),
            index <= count,
            ready(builder, nodes, index as int),
            within(builder, (count + total_cost(nodes, index as nat)) as int),
            builder.limits == limits,
            forall|k: int| 0 <= k < index ==> language::unsupported(nodes, k) is None,
        decreases count - index,
    {
        let ghost base = (count + total_cost(nodes, index as nat)) as int;
        proof {
            lemma_cost_grows(nodes, (index + 1) as nat, count);
        }
        match lower_node(arena, &mut builder, index as u32, Ghost(base)) {
            Ok(()) => {},
            Err(error) => {
                assert(refuses(nodes, index as int, error) ==> refused_first(
                    nodes,
                    index as int,
                    error,
                ));
                return Err(error);
            },
        }
        index += 1;
    }
    let ghost roles = builder.roles@;
    let grammar = Grammar {
        start: arena.root.0,
        nonterminals: builder.nonterminals,
        terminals: builder.terminals,
        productions: builder.productions,
    };
    proof {
        lemma_built(arena, builder, &grammar);
    }
    Ok(grammar)
}

/// What was built is the grammar of the schema.
proof fn lemma_built(arena: &SchemaArena, builder: GrammarBuilder, grammar: &Grammar)
    requires
        arena.wf(),
        ready(builder, arena.nodes@, arena.nodes@.len() as int),
        forall|k: int|
            0 <= k < arena.nodes@.len() ==> language::unsupported(arena.nodes@, k) is None,
        grammar.start == arena.root.0,
        grammar.nonterminals@ == builder.nonterminals@,
        grammar.terminals@ == builder.terminals@,
        grammar.productions@ == builder.productions@,
    ensures
        lowers(arena, grammar),
{
    let nodes = arena.nodes@;
    let roles = builder.roles@;
    let terminals = builder.terminals@;
    let rules = builder.rules();
    assert(grammar.rules() =~= rules);
    assert forall|a: int| 0 <= a < grammar.nonterminals@.len() implies has_role(
        nodes,
        #[trigger] grammar.nonterminals@[a],
        a,
    ) by {
        assert(labelled(nodes, grammar.nonterminals@[a], roles[a]));
    }
    assert forall|p: int| 0 <= p < grammar.productions@.len() implies (
    #[trigger] grammar.productions@[p]).id == p && grammar.productions@[p].lhs
        < grammar.nonterminals@.len() && residual::symbols_in(
        grammar.productions@[p].rhs@,
        grammar.nonterminals@.len(),
        grammar.terminals@.len(),
    ) by {
        let production = builder.productions@[p];
        builder::lemma_form_within(
            nodes,
            roles,
            terminals,
            roles[production.lhs as int],
            production.rhs@,
        );
    }
    assert forall|p: int| 0 <= p < rules.len() implies (#[trigger] rules[p]).lhs < roles.len()
        && form(nodes, roles, terminals, roles[rules[p].lhs as int], rules[p].rhs) by {
        assert(rules[p] == grammar::production_rule(builder.productions@[p]));
    }
    assert forall|s: u32| s < roles.len() implies #[trigger] complete(
        nodes,
        roles,
        terminals,
        rules,
        s,
    ) by {
        assert(builder.done(nodes, s));
    }
    assert(certificate::clean(grammar)) by {
        reveal(certificate::clean);
        assert forall|t: int| 0 <= t < grammar.terminals@.len() implies certificate::clean_kind(
            #[trigger] grammar.terminals@[t].kind@,
        ) by {
            assert(builder::plain_kind(builder.terminals@[t].kind@));
        }
    }
    lemma_language(nodes, roles, grammar);
}

} // verus!
