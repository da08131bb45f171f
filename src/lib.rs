//! Extraction of queryable, deterministically ordered models from a Vulkan
//! API registry: the alias map, the ordered feature and extension
//! collections, the provenance of each reachable type, and the header
//! version stamp.
//!
//! The registry is handed in as plain owned values (`Registry`); the
//! collections are insertion-ordered `IndexMap`s from names to positions in
//! that registry.

mod capabilities;
mod header_version;
mod laws;
mod models;
mod name_index;
mod order;
mod provenance;
mod registry;
mod text;

pub use capabilities::{
    alias_entries, feature_entries, get_aliases, get_extensions, get_features, is_extension_collection, is_retained,
    lemma_alias_entries_valid, lemma_feature_entries_below,
    names_last_retained, pairs_view, strictly_ordered,
};
pub use header_version::{
    code_text, digits_value, get_header_version, header_version, is_digit, last_space,
    marked_twice, marks_header_version, parse_header_version, parse_u16, trailing_token, unsigned_digits, version_from_text,
    ConfigurationError,
};
pub use laws::{
    has_key, lemma_alias_transparency, lemma_extension_collection_order, lemma_extension_collection_unique,
    lemma_extension_presence, lemma_extraction_deterministic, lemma_header_version_token, lemma_providers_contains,
    lemma_provenance_entries, lemma_type_reachability, models_view,
};
pub use models::{extract, is_extraction_of, Models};
pub use name_index::{entry_keys_unique, entry_view, insert_entry, lookup_holds, name_index_entries};
pub use order::{extension_compare, extension_lt, extension_tier, lemma_extension_order_strict_total};
pub use provenance::{
    add_provider, alias_target, capability_pass, definition_entries, get_types, names_view, provenance,
    provenance_view, providers, requires_type, resolve, valid_alias_entries, values_below, ProvenanceEntry,
};
pub use registry::{Extension, Feature, Registry, TypeDecl, TypePayload};
pub use text::{char_seq_lt, has_prefix, lt_at, str_compare, str_eq, str_starts_with, TextOrder};
