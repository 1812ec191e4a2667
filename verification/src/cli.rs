//! The parsed command line, as plain values, and the decision of what a
//! parsed invocation asks the tool to do. Reading the actual command line
//! is the outer layer's business; it hands over one of these.

use vstd::prelude::*;

verus! {

/// Options that apply to every subcommand.
pub struct GlobalOpts {
    /// The configuration file to use, when given.
    pub config: Option<String>,
}

/// The subcommands the tool offers.
pub enum Commands {
    /// Run the given scripts — or, with none given, every script — with
    /// all of their dependencies.
    Run,
    /// List the names of all scripts; run nothing.
    List { config: Option<String> },
}

/// One parsed invocation.
pub struct Cli {
    pub global_opts: GlobalOpts,
    pub command: Option<Commands>,
    /// The script names given on the command line, if any.
    pub scripts: Option<Vec<String>>,
}

/// What an invocation asks for, with the inputs that operation needs.
pub enum CliAction {
    /// Resolve and execute the named scripts' closure — or the whole
    /// graph, when no names were given.
    Run { scripts: Option<Vec<String>>, config: Option<String> },
    /// Report all script names.
    List { config: Option<String> },
}

impl Cli {
    /// Decides the operation: an invocation without a subcommand runs,
    /// like an explicit `Run`; `List` lists, with its own configuration
    /// option.
    pub fn into_action(self) -> (r: CliAction)
        ensures
            (match self.command {
                Some(Commands::List { config }) => r == (CliAction::List { config }),
                _ => r == (CliAction::Run {
                    scripts: self.scripts,
                    config: self.global_opts.config,
                }),
            }),
    {
        match self.command {
            None => CliAction::Run { scripts: self.scripts, config: self.global_opts.config },
            Some(Commands::Run) => CliAction::Run {
                scripts: self.scripts,
                config: self.global_opts.config,
            },
            Some(Commands::List { config }) => CliAction::List { config },
        }
    }
}

} // verus!
