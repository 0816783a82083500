//! The settings of the server.
use crate::numbers;
use crate::numbers::parse_up_to;
use crate::text;
use vstd::prelude::*;

verus! {

/// How many lines of history a pane keeps where nothing else is said.
pub const DEFAULT_SCROLLBACK_LINES: u64 = 10_000;

/// How long an idle server lives where nothing else is said: for ever.
pub const DEFAULT_KEEP_ALIVE_SECONDS: u64 = 0;

/// How many lines of history a settings file can ask for.
pub const MAX_SCROLLBACK_LINES: u64 = 100_000;

/// The settings that are in force.
#[derive(Debug)]
pub struct ServerSettings {
    pub keep_alive_seconds: u64,
    pub scrollback_lines: u64,
    pub settings_path: Option<String>,
}

/// What a settings file says.
#[derive(Clone, Copy, Debug, PartialEq, Eq)]
pub struct ServerSettingsFile {
    pub keep_alive_seconds: Option<u64>,
    pub scrollback_lines: Option<u64>,
    /// Another name for the lines of history.
    pub max_scroll_history_lines: Option<u64>,
}

/// The lines of history that a file asks for, as many as it may.
pub open spec fn lines_asked(file: ServerSettingsFile) -> Option<u64> {
    let asked = if file.scrollback_lines is Some {
        file.scrollback_lines
    } else {
        file.max_scroll_history_lines
    };
    match asked {
        Some(lines) => Some(
            if lines < MAX_SCROLLBACK_LINES {
                lines
            } else {
                MAX_SCROLLBACK_LINES
            },
        ),
        None => None,
    }
}

/// A value, or another one where there is none.
pub open spec fn value_or(value: Option<u64>, other: u64) -> u64 {
    match value {
        Some(v) => v,
        None => other,
    }
}

/// A number out of the environment, or another one where there is none.
pub open spec fn environment_number(value: Option<Seq<char>>, other: u64) -> u64 {
    match value {
        Some(text) => match numbers::parsed(text, u64::MAX as int) {
            Some(n) => n as u64,
            None => other,
        },
        None => other,
    }
}

fn number_or(value: &Option<String>, other: u64) -> (number: u64)
    ensures
        number == environment_number(text::optional(*value), other),
{
    match value {
        Some(value) => match parse_up_to(value.as_str(), u64::MAX) {
            Some(n) => n,
            None => other,
        },
        None => other,
    }
}

fn asked_lines(file: &ServerSettingsFile) -> (lines: Option<u64>)
    ensures
        lines == lines_asked(*file),
{
    let asked: Option<u64> = match file.scrollback_lines {
        Some(lines) => Some(lines),
        None => file.max_scroll_history_lines,
    };
    match asked {
        Some(lines) => if lines < MAX_SCROLLBACK_LINES {
            Some(lines)
        } else {
            Some(MAX_SCROLLBACK_LINES)
        },
        None => None,
    }
}

/// The lines of history that the environment asks for.
pub fn default_scrollback_lines(environment: &Option<String>) -> (lines: u64)
    ensures
        lines == environment_number(text::optional(*environment), DEFAULT_SCROLLBACK_LINES),
{
    number_or(environment, DEFAULT_SCROLLBACK_LINES)
}

impl ServerSettings {
    /// Puts the settings together: what the environment says comes first, then
    /// the file, then what holds by itself.
    pub fn load(
        keep_alive: &Option<String>,
        scrollback: &Option<String>,
        settings_path: Option<String>,
        file: &Option<ServerSettingsFile>,
    ) -> (settings: ServerSettings)
        ensures
            settings.keep_alive_seconds == environment_number(
                text::optional(*keep_alive),
                value_or(
                    if file is Some {
                        file->0.keep_alive_seconds
                    } else {
                        None
                    },
                    DEFAULT_KEEP_ALIVE_SECONDS,
                ),
            ),
            settings.scrollback_lines == environment_number(
                text::optional(*scrollback),
                value_or(
                    if file is Some {
                        lines_asked(file->0)
                    } else {
                        None
                    },
                    DEFAULT_SCROLLBACK_LINES,
                ),
            ),
            settings.settings_path == settings_path,
    {
        let mut keep_alive_seconds: u64 = DEFAULT_KEEP_ALIVE_SECONDS;
        let mut scrollback_lines: u64 = DEFAULT_SCROLLBACK_LINES;
        match file {
            Some(file) => {
                match file.keep_alive_seconds {
                    Some(v) => {
                        keep_alive_seconds = v;
                    },
                    None => {},
                }
                match asked_lines(file) {
                    Some(v) => {
                        scrollback_lines = v;
                    },
                    None => {},
                }
            },
            None => {},
        }
        ServerSettings {
            keep_alive_seconds: number_or(keep_alive, keep_alive_seconds),
            scrollback_lines: number_or(scrollback, scrollback_lines),
            settings_path,
        }
    }

    /// How many lines of history a pane keeps.
    pub fn scrollback_lines(&self) -> (lines: u64)
        ensures
            lines == self.scrollback_lines,
    {
        self.scrollback_lines
    }

    /// How long an idle server lives; 0 means for ever.
    pub fn keep_alive_seconds(&self) -> (seconds: u64)
        ensures
            seconds == self.keep_alive_seconds,
    {
        self.keep_alive_seconds
    }

    /// Takes over what a file says, and says whether the lines of history
    /// changed.
    pub fn apply_file(&mut self, file: &ServerSettingsFile) -> (scrollback_changed: bool)
        ensures
            final(self).keep_alive_seconds == value_or(
                file.keep_alive_seconds,
                old(self).keep_alive_seconds,
            ),
            final(self).scrollback_lines == value_or(
                lines_asked(*file),
                old(self).scrollback_lines,
            ),
            final(self).settings_path == old(self).settings_path,
            scrollback_changed == (final(self).scrollback_lines != old(self).scrollback_lines),
    {
        match file.keep_alive_seconds {
            Some(v) => {
                self.keep_alive_seconds = v;
            },
            None => {},
        }
        match asked_lines(file) {
            Some(v) => {
                let before: u64 = self.scrollback_lines;
                self.scrollback_lines = v;
                before != v
            },
            None => false,
        }
    }

    /// The file that the settings are in.
    pub fn settings_path(&self) -> (path: Option<&str>)
        ensures
            path is Some == self.settings_path is Some,
            path is Some ==> path->0@ == self.settings_path->0@,
    {
        match &self.settings_path {
            Some(path) => Some(path.as_str()),
            None => None,
        }
    }
}

/// Whether a settings file is to be read again: where its time of change is
/// known and is not that of the last reading.
pub fn needs_reload(last: Option<u64>, modified: Option<u64>) -> (reload: bool)
    ensures
        reload == (modified is Some && modified != last),
{
    match modified {
        Some(now) => match last {
            Some(then_read) => now != then_read,
            None => true,
        },
        None => false,
    }
}

/// Taking over a file again changes nothing more.
pub proof fn law_applying_twice_is_applying_once(
    file: ServerSettingsFile,
    keep_alive: u64,
    lines: u64,
)
    ensures
        value_or(file.keep_alive_seconds, value_or(file.keep_alive_seconds, keep_alive))
            == value_or(file.keep_alive_seconds, keep_alive),
        value_or(lines_asked(file), value_or(lines_asked(file), lines)) == value_or(
            lines_asked(file),
            lines,
        ),
{
}

/// A file never asks for more history than it may.
pub proof fn law_history_is_capped(file: ServerSettingsFile)
    ensures
        lines_asked(file) is Some ==> lines_asked(file)->0 <= MAX_SCROLLBACK_LINES,
{
}

/// The lines that a file asks for are those of its own entry where there is one,
/// and else those of the other entry, up to a hundred thousand.
pub proof fn law_own_entry_comes_first(file: ServerSettingsFile)
    ensures
        ({
            let asked = if file.scrollback_lines is Some {
                file.scrollback_lines
            } else {
                file.max_scroll_history_lines
            };
            &&& asked is None <==> lines_asked(file) is None
            &&& asked is Some && asked->0 <= 100_000 ==> lines_asked(file) == asked
            &&& asked is Some && asked->0 > 100_000 ==> lines_asked(file) == Some(100_000u64)
        }),
{
}

/// The environment wins over all else where it holds a number, and counts for
/// nothing where it does not; a value that is given wins over the other one.
pub proof fn law_environment_comes_first(number: u64, other: u64, text: Seq<char>)
    ensures
        environment_number(Some(numbers::digits_of(number as nat)), other) == number,
        numbers::parsed(text, u64::MAX as int) is None ==> environment_number(Some(text), other)
            == other,
        environment_number(None, other) == other,
        value_or(Some(number), other) == number,
        value_or(None, other) == other,
{
    numbers::law_reading_undoes_writing(number as nat, u64::MAX as int);
}

} // verus!
