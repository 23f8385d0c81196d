//! Exact constrained decoding: JSON Schema lowering, regular certification, LALR and Earley
//! recognition, and token masks over a vocabulary trie.

pub mod agreement;
pub mod automaton;
pub mod builder;
pub mod canonical;
pub mod certificate;
pub mod chart;
pub mod collapse;
pub mod command;
pub mod congruence;
pub mod count;
pub mod dense;
pub mod derivation;
pub mod earley;
pub mod engine;
pub mod error;
pub mod fault;
pub mod frame;
pub mod fx;
pub mod grammar;
pub mod guide;
pub mod index;
pub mod index_guide;
pub mod item_sets;
pub mod items;
pub mod json;
pub mod json_schema;
pub mod keywords;
pub mod kleene;
pub mod lalr;
pub mod lalr_recognizer;
pub mod language;
pub mod lexical;
pub mod location;
pub mod lowering;
pub mod lr;
pub mod mask;
pub mod meaning;
pub mod merge;
pub mod message;
pub mod normalize;
pub mod order;
pub mod places;
pub mod pointer;
pub mod profile;
pub mod recognizer;
pub mod reduction;
pub mod regular;
pub mod render;
pub mod report;
pub mod residual;
pub mod residual_build;
pub mod satisfaction;
pub mod scc;
pub mod schema;
pub mod sorting;
pub mod soundness;
pub mod symbol;
pub mod syntax;
pub mod table;
pub mod tabulate;
pub mod text;
pub mod tokens;
pub mod trie;
pub mod uniqueness;
pub mod validation;
pub mod viability;
pub mod vocabulary;
