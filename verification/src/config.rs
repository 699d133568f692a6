//! The settings that the journal is used with.

use vstd::prelude::*;
use crate::text::{chars_of, same_chars};

verus! {

/// The settings of the journal.
#[derive(Debug)]
pub struct Config {
    /// Whether the weekday is written above a new entry.
    pub add_weekday: bool,
    /// Whether an empty food line is written into a new entry.
    pub add_food_column: bool,
    /// The editor in which entries are opened.
    pub editor: String,
    /// The pager through which long output is shown.
    pub pager: String,
    /// The greatest number of rows of the table of most used tags.
    pub max_rows: u32,
    /// Whether the time is written above a new entry.
    pub add_timestamp: bool,
    /// When the pager is used: `always`, `never` or `default`.
    pub when_pager: String,
    /// Where the journal's folder is looked for.
    pub default_path: String,
    /// The tolerance of an approximate search for which no number is given.
    pub approx_variation: u32,
}

/// From how many rows on a table goes through the pager by default.
pub const PAGER_ROWS: usize = 5;

/// The settings that hold where none are configured.
pub fn default_conf() -> (config: Config)
    ensures
        config.add_weekday,
        !config.add_food_column,
        config.editor@ == "nano"@,
        config.pager@ == "less"@,
        config.max_rows == 5,
        !config.add_timestamp,
        config.when_pager@ == "default"@,
        config.default_path@ == "."@,
        config.approx_variation == 1,
{
    Config {
        add_weekday: true,
        add_food_column: false,
        editor: "nano".to_owned(),
        pager: "less".to_owned(),
        max_rows: 5,
        add_timestamp: false,
        when_pager: "default".to_owned(),
        default_path: ".".to_owned(),
        approx_variation: 1,
    }
}

/// Whether a table of `rows` rows goes through the pager under the setting
/// `when_pager`: always under `always`, from `PAGER_ROWS` rows on under
/// `default`, and never under anything else.
pub open spec fn wants_pager(when_pager: Seq<char>, rows: nat) -> bool {
    when_pager == "always"@ || (when_pager == "default"@ && rows >= PAGER_ROWS)
}

/// Whether a table of `rows` rows goes through the pager.
pub fn use_pager(when_pager: &str, rows: usize) -> (paged: bool)
    ensures
        paged == wants_pager(when_pager@, rows as nat),
{
    let setting = chars_of(when_pager);
    if same_chars(&setting, &chars_of("always")) {
        true
    } else if same_chars(&setting, &chars_of("default")) {
        rows >= PAGER_ROWS
    } else {
        false
    }
}

} // verus!
