//! A small persistent key-value note store organised into named sections,
//! backed by a flat-text file format of section header lines and entry lines.
//!
//! The store itself is pure: it keeps the sections in memory and turns every
//! mutation into the new file text, which the caller writes to disk.

mod consistency;
mod keynotefile;
mod kn_utils;
mod lines;
mod section;

pub use consistency::lemma_store_round_trip;
pub use keynotefile::KeynoteFile;
pub use keynotefile::KnError;
pub use keynotefile::contains_marker;
pub use keynotefile::entry_encodable;
pub use keynotefile::remove_key_model;
pub use keynotefile::spec_key_list;
pub use keynotefile::spec_load_lines;
pub use keynotefile::spec_section_lines;
pub use keynotefile::spec_store_content;
pub use keynotefile::spec_store_lines;
pub use keynotefile::entry_fmt_ok;
pub use keynotefile::has_key;
pub use keynotefile::lemma_lookup_some_iff_has_key;
pub use keynotefile::has_section;
pub use keynotefile::lemma_entry_round_trip;
pub use keynotefile::secs_view;
pub use keynotefile::spec_entry_line;
pub use keynotefile::spec_find_section;
pub use keynotefile::spec_lookup;
pub use keynotefile::spec_parse_entry;
pub use keynotefile::store_wf;

pub use section::Section;
pub use section::SectionV;
pub use section::entries_view;
pub use section::entry_keys_unique;
pub use section::lemma_header_round_trip;
pub use section::spec_find_key;
pub use section::spec_header_line;
pub use section::spec_parse_header;
pub use section::spec_strip_newline;
pub use section::spec_upsert;

pub use kn_utils::ensure_newline;
pub use kn_utils::is_alphabetic;
pub use kn_utils::all_alphabetic;
pub use kn_utils::char_is_alphabetic;
pub use kn_utils::spec_ensure_newline;
pub use lines::spec_join_lines;
pub use lines::spec_split_lines;
pub use section::spec_remove_entry;
