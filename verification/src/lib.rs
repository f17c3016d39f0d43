//! Markdown outline inspection: headings, section ranges and section text.

pub mod chars;
pub mod extract;
pub mod lines;
pub mod locate;
pub mod outline;
pub mod range;
pub mod search;

pub use extract::{extract_section, extract_section_intro, format_outline_entry};
pub use locate::find_section;
pub use outline::{parse_headings, Heading};
pub use range::{get_first_subsection, get_section_range, get_subsections};
