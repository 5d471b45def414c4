//! Pseudo-Dutch text generation and a minimal PDF writer, with verified contracts.
pub mod assets;
pub mod cli;
pub mod cp1252;
pub mod decimal;
pub mod external;
pub mod layout;
pub mod pdf;
pub mod range;
pub mod sampling;
pub mod text;
pub mod textutil;
pub use range::RangeOrExact;
pub use sampling::{build_cdf, cdf_index, check_table, sample_word, word_for_draw};
pub use cp1252::{encode_cp1252_char, escape_pdf_string};
pub use pdf::generate_pdf;
pub use text::{generate_by_bytes, generate_by_words, generate_infinite_paragraph};
