//! The list of tracked programs, and what the daemon does at start-up with
//! whatever it found where its configuration is kept.

use vstd::prelude::*;

verus! {

/// The programs whose sessions are recorded.
#[derive(Clone, Debug, PartialEq, Eq)]
pub struct Config {
    pub programs: Vec<String>,
}

impl Config {
    /// The tracked program names, in order.
    pub open spec fn names(&self) -> Seq<Seq<char>> {
        self.programs@.map_values(|name: String| name@)
    }

    /// Whether `name` is one of the tracked programs.
    pub fn is_tracked(&self, name: &String) -> (listed: bool)
        ensures
            listed == self.names().contains(name@),
    {
        let mut i: usize = 0;
        while i < self.programs.len()
            invariant
                i <= self.programs.len(),
                forall|j: int| 0 <= j < i ==> #[trigger] self.names()[j] != name@,
            decreases self.programs.len() - i,
        {
            if self.programs[i] == *name {
                assert(self.names()[i as int] == name@);
                return true;
            }
            i += 1;
        }
        false
    }
}

/// The one program name of the configuration that is written when none exists.
pub open spec fn placeholder_name() -> Seq<char> {
    "example_program"@
}

/// The configuration that is written when none exists: one placeholder entry
/// for the user to replace.
pub fn default_config() -> (config: Config)
    ensures
        config.names() == seq![placeholder_name()],
{
    let mut programs: Vec<String> = Vec::new();
    programs.push("example_program".to_owned());
    let config = Config { programs };
    assert(config.names() =~= seq![placeholder_name()]);
    config
}

/// What was found where the configuration is kept.
#[derive(Clone, Debug, PartialEq, Eq)]
pub enum ConfigSource {
    /// Nothing is there.
    Missing,
    /// Something is there that is not a list of tracked programs.
    Malformed,
    /// The list that was read.
    Loaded(Config),
}

/// What the daemon does once it has looked for its configuration.
#[derive(Clone, Debug, PartialEq, Eq)]
pub enum Startup {
    /// Write this configuration for the user to edit, and stop.
    WriteDefault(Config),
    /// Tell the user that no program is tracked, and stop.
    NothingTracked,
    /// Tell the user that the configuration cannot be read, and stop.
    Rejected,
    /// Track the programs of this configuration.
    Run(Config),
}

impl Startup {
    /// The exit code of the process where it stops at start-up: zero where
    /// the user only has to edit the configuration and run again, non-zero
    /// where the configuration is broken. `None` where the daemon runs.
    pub open spec fn spec_exit_code(&self) -> Option<i32> {
        match self {
            Startup::WriteDefault(_) => Some(0),
            Startup::NothingTracked => Some(0),
            Startup::Rejected => Some(1),
            Startup::Run(_) => None,
        }
    }

    /// See [`Startup::spec_exit_code`].
    pub fn exit_code(&self) -> (code: Option<i32>)
        ensures
            code == self.spec_exit_code(),
    {
        match self {
            Startup::WriteDefault(_) => Some(0),
            Startup::NothingTracked => Some(0),
            Startup::Rejected => Some(1),
            Startup::Run(_) => None,
        }
    }
}

/// Decides how the daemon starts.
///
/// Without a configuration the default one is to be written; a list with no
/// entry leaves nothing to do; a list with entries is tracked as it is, with
/// no other validation.
pub fn load_config(source: ConfigSource) -> (startup: Startup)
    ensures
        match source {
            ConfigSource::Missing => startup matches Startup::WriteDefault(config)
                && config.names() == seq![placeholder_name()],
            ConfigSource::Malformed => startup is Rejected,
            ConfigSource::Loaded(found) => if found.programs@.len() == 0 {
                startup is NothingTracked
            } else {
                startup == Startup::Run(found)
            },
        },
{
    match source {
        ConfigSource::Missing => Startup::WriteDefault(default_config()),
        ConfigSource::Malformed => Startup::Rejected,
        ConfigSource::Loaded(found) => {
            if found.programs.len() == 0 {
                Startup::NothingTracked
            } else {
                Startup::Run(found)
            }
        },
    }
}

} // verus!
