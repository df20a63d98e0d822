//! Compiles per-field flag declarations into a flag registry and
//! dispatches tokenized command lines through it.
//!
//! Each field of a settings definition declares the flags it answers to,
//! as `-c` and `--name` tokens, or declares none and answers to flags
//! inferred from its name. The registry maps every flag to the ordered
//! actions of the fields bound to it; the matcher runs a token stream
//! through it, firing those actions or rejecting the first token that no
//! flag matches.

mod compile;
mod declare;
mod dispatch;
mod field;
mod flag;
mod laws;
mod registry;

pub use compile::{declared_fields, options, source_views, FieldSource};
pub use declare::{
    classify, declared_flags, is_long_name, is_name_char, is_name_start, is_word, parse_flag_attr,
    split_commas, tokens_of, trim, ArgError, DeclError,
};
pub use dispatch::{
    apply_actions, error_token, lemma_run_below, outcome, run, step, token_ids, token_key,
    ParseError, Token, TokenId,
};
pub use field::{
    field_views, ids, inferred_flags, resolve_flags, resolved_flags, FieldDecl, FieldView,
};
pub use flag::{Flag, FlagId};
pub use laws::{
    fired, flag_token, is_registered, lemma_action_multiplicity, lemma_duplicate_flag_fires_twice,
    lemma_inferred_short_and_long, lemma_inferred_short_only, lemma_round_trip,
    lemma_unknown_rejected, occurrences,
};
pub use registry::{
    actions_below, actions_of, bindings, build_registry, compiled_from, entries_wf, field_bindings,
    has_key, lemma_actions_of_below, lemma_bindings_below, lemma_has_key_iff_nonempty,
    lemma_lookup_below, lookup, Registry,
};
