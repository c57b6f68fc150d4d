mod csv;
mod design;
mod encode;
mod error;
mod laws;
mod table;

pub use laws::bit_sum;
pub use laws::first_occ;
pub use laws::header_width;
pub use laws::lemma_enc_header_count;
pub use laws::lemma_first_occ;
pub use laws::lemma_label_semantics;
pub use laws::lemma_matrix_row_sum;
pub use laws::lemma_row_indicator_sum;
pub use laws::lemma_uniques_first_seen;
pub use laws::occurs;
pub use laws::ones_count;

pub use design::cell;
pub use design::label_bit;
pub use design::matrix;
pub use design::Design;

pub use encode::any_target_resolves;
pub use encode::enc_header;
pub use encode::enc_indicators;
pub use encode::enc_raw;
pub use encode::enc_row;
pub use encode::indicator_name;
pub use encode::indicator_names;
pub use encode::one_hot_encode;
pub use encode::raw_value;
pub use encode::sep_str;
pub use error::DataError;
pub use csv::header_of;
pub use csv::rows_of;
pub use table::col_index;
pub use table::collect_uniques;
pub use table::contains_string;
pub use table::field_opt;
pub use table::find_column;
pub use table::indicator_bit;
pub use table::indicator_token;
pub use table::indicator_tokens;
pub use table::uniques_spec;
pub use csv::field_at;
pub use csv::join_fields;
pub use csv::join_spec;
pub use csv::split_line;
pub use csv::split_spec;
pub use csv::views;
pub use csv::row_views;
