//! Document assembly engine: derives a flat namespace of template
//! identifiers from a filesystem hierarchy, merges structured data
//! sources into one context, and prepares both for rendering.

use vstd::prelude::*;

mod collector;
mod config;
mod data;
mod errors;
mod path_name;
mod registry;

pub use collector::accept_entry;
pub use collector::accept_spec;
pub use collector::collect;
pub use collector::ext_listed;
pub use collector::lemma_accept_checks_leaf_only;
pub use collector::lemma_accept_excludes_hidden;
pub use collector::WalkEntry;
pub use config::fresh_names;
pub use config::map_fold;
pub use config::map_init;
pub use config::names_view;
pub use config::pairs_str_view;
pub use config::CliArgs;
pub use config::Config;
pub use config::ConfigRead;
pub use config::LogLevel;
pub use data::data_format;
pub use data::has_key;
pub use data::key_index;
pub use data::lemma_merge_null_deletes;
pub use data::lemma_merge_order_precedence;
pub use data::lemma_merge_pairs_lookup;
pub use data::lemma_merge_pairs_preserves_wf;
pub use data::lemma_merge_replaces_non_mapping;
pub use data::lookup;
pub use data::merge_all;
pub use data::merge_list_spec;
pub use data::merge_one_spec;
pub use data::merge_pairs_spec;
pub use data::merge_spec;
pub use data::pairs_view;
pub use data::seq_view;
pub use data::wf_pairs;
pub use data::DataFormat;
pub use data::DataValue;
pub use data::SpecData;
pub use errors::ConfigError;
pub use errors::DataError;
pub use errors::NamingError;
pub use errors::RegistrationError;
pub use path_name::ext_spec;
pub use path_name::hidden_spec;
pub use path_name::ident_spec;
pub use path_name::lemma_hidden_is_leading_dot;
pub use path_name::lemma_ident_normalization_invariant;
pub use path_name::lemma_normalize_idempotent;
pub use path_name::name_of;
pub use path_name::name_of_rel;
pub use path_name::norm_spec;
pub use path_name::normalize_separators;
pub use path_name::single_file_name;
pub use path_name::stem_spec;
pub use path_name::strip_path_prefix;
pub use registry::TemplateRegistry;
pub use registry::TemplateSource;

verus! {

} // verus!
