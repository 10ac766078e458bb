//! ClickHouse types, values and their native wire format.
use vstd::prelude::*;

pub mod error;
pub mod error_laws;
pub mod text;

// Types and their names.
pub mod types;
pub mod type_display;
pub mod type_args;
pub mod type_parse;
pub mod type_order;
pub mod name_scan;
pub mod name_enums;
pub mod name_words;
pub mod name_laws;
pub mod name_round_trip;
pub mod name_paths;
pub mod name_table;
pub mod field_names;
pub mod refused_names;
pub mod guess_laws;

// Bytes.
pub mod wire;
pub mod wire_format;
pub mod type_encoding;

// Values.
pub mod json_value;
pub mod values;
pub mod guess;
pub mod binary_value;
pub mod array_laws;
pub mod binary_laws;
pub mod code_laws;

// Columns.
pub mod cells;
pub mod cell_laws;
pub mod sparse;
pub mod low_cardinality;
pub mod variant;
pub mod columns;
pub mod column_read;
pub mod prefixes;
pub mod column_laws;
pub mod column_format;
pub mod cell_rules;
pub mod sparse_format;
pub mod sparse_blocks;
pub mod mixed_blocks;
pub mod mixed_documents;
pub mod mixed_guesses;
pub mod mixed_laws;
pub mod discriminators;
pub mod dynamic;
pub mod state;
pub mod dynamic_read;
pub mod dynamic_laws;
pub mod dynamic_format;

// Texts of values.
pub mod big_int;
pub mod value_text;
pub mod text_rules;
pub mod moment_laws;
pub mod json_text;
pub mod json_render;
pub mod json_object;
pub mod value_display;
pub mod display_rules;

// Trees of values.
pub mod node;
pub mod typed_node;
pub mod node_rules;
pub mod tree_laws;
pub mod ser;
pub mod de;
pub mod serde_impls;

// Documents.
pub mod float_bits;
pub mod float_laws;
pub mod coerce;
pub mod json_paths;
pub mod json_columns;
pub mod json_write;
pub mod json_read;
pub mod json_documents;
pub mod json_laws;
pub mod json_format;
pub mod document_rules;
pub mod block_rules;
pub mod path_laws;
pub mod leaf_laws;
pub mod order_laws;
pub mod return_laws;
pub mod typed_laws;
pub mod scalar_laws;
pub mod sql_json;
pub mod ingest;
pub mod ingest_laws;
pub mod value_rules;
pub mod conversion_rules;
pub mod held_columns;
pub mod variant_columns;
pub mod whole_columns;
pub mod held_laws;
pub mod whole_format;

// Queries and servers.
pub mod version;
pub mod version_laws;
pub mod query;
