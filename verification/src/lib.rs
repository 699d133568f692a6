//! Indexing and search over a journal kept as one plain-text file per month.
//!
//! Every function here works on text that has already been read: a month-file
//! is a sequence of lines, a date is three integers. Reading files, prompting
//! and drawing tables belong to the program around this library.

pub mod aggregate;
pub mod calendar;
pub mod config;
pub mod dates;
pub mod days;
pub mod edit;
pub mod entry;
pub mod events;
pub mod headings;
pub mod numbers;
pub mod order;
pub mod paint;
pub mod paths;
pub mod report;
pub mod search;
pub mod tags;
pub mod text;

pub use aggregate::{handle_tags, TagError, TagReport};
pub use calendar::print_calendar;
pub use config::{default_conf, Config};
pub use dates::{month_no_to_name, parse_entry_args, EntryDate};
pub use entry::{add_info_to_file, get_entry};
pub use events::read_events;
pub use headings::get_headings;
pub use paths::correct_month_nums;
pub use report::{gen_report, gen_report_year};
pub use search::{search_for_stuff, SearchError};
pub use tags::get_tags_from_file;
