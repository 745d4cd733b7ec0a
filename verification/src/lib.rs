//! Selector parsing and extraction for a `cut`-style tool: a selector string
//! such as `"1,7,3-5"` is parsed into an ordered list of half-open index
//! ranges, which are then applied to lines of characters, lines of bytes, or
//! delimited records to produce the selected subsequence. Line, word, byte
//! and character counting for a `wc`-style tool lives here too.

mod count;
mod errors;
mod extract;
mod numeral;
mod parse;
mod position;
mod record;

pub use count::FileInfo;
pub use count::count;
pub use count::format_field;
pub use count::is_unicode_space;
pub use count::line_count;
pub use count::newline_count;
pub use count::word_count;
pub use count::word_count_from;
pub use errors::ParseError;
pub use errors::SpecParseError;
pub use errors::spec_message;
pub use extract::Extract;
pub use extract::extract_bytes;
pub use extract::extract_chars;
pub use extract::lossy_decode;
pub use numeral::all_digits;
pub use numeral::dec_digits;
pub use numeral::dec_string;
pub use numeral::digits_val;
pub use numeral::is_digit;
pub use numeral::padded;
pub use numeral::spaces;
pub use parse::is_range_token;
pub use parse::parse_index;
pub use parse::parse_pos;
pub use parse::spec_parse_pos;
pub use parse::spec_parse_token;
pub use parse::spec_parse_tokens;
pub use parse::split_tokens;
pub use parse::valid_index_token;
pub use position::PosRange;
pub use position::clipped_width;
pub use position::lemma_select_full_identity;
pub use position::lemma_select_reapply_deterministic;
pub use position::select_all;
pub use position::select_range;
pub use record::extract_fields;
pub use record::record_fields;
