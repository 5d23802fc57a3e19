//! The settings of the program.

use vstd::prelude::*;
use vstd::string::*;

verus! {

/// The settings that a config file can give.
#[derive(Debug)]
pub struct Config {
    /// The editor that opens a note.
    pub editor: Option<String>,
    /// The names of the sections of a note, in their order.
    pub sections: Option<Vec<String>>,
    /// The directory that holds the notes.
    pub notes_dir: Option<String>,
}

/// Why the settings could not be had.
#[derive(Debug)]
pub enum ConfigError {
    IOError(&'static str),
    ParseError(&'static str),
    EnvError(&'static str),
}

/// The views of a list of names.
pub open spec fn names(list: Seq<String>) -> Seq<Seq<char>> {
    Seq::new(list.len(), |i: int| list[i]@)
}

impl Default for Config {
    /// The settings without a config file: `nano` as the editor, the
    /// sections `Daily`, `Weekly` and `Monthly`, and the directory `Notes`.
    fn default() -> (config: Config)
        ensures
            config.editor matches Some(editor) && editor@ == "nano"@,
            config.sections matches Some(sections) && names(sections@) == seq![
                "Daily"@,
                "Weekly"@,
                "Monthly"@,
            ],
            config.notes_dir matches Some(directory) && directory@ == "Notes"@,
    {
        let mut sections: Vec<String> = Vec::new();
        sections.push("Daily".to_owned());
        sections.push("Weekly".to_owned());
        sections.push("Monthly".to_owned());
        assert(names(sections@) =~= seq!["Daily"@, "Weekly"@, "Monthly"@]);
        Config {
            editor: Some("nano".to_owned()),
            sections: Some(sections),
            notes_dir: Some("Notes".to_owned()),
        }
    }
}

} // verus!
