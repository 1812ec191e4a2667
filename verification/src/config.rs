//! The library's model of a loaded configuration.
//!
//! Discovering and parsing the configuration file is an external concern;
//! the core only needs the plain values that the file supplies. A loaded
//! configuration is therefore modelled as an ordered list of raw script
//! entries, one per script table entry, from which [`crate::script`]
//! builds validated [`crate::script::Script`] values.

use vstd::prelude::*;
use vstd::string::StringExecFns;

use crate::script::ScriptType;

verus! {

/// Which configuration file a run should use.
pub enum ConfigType {
    /// The installed configuration.
    Production,
    /// The configuration used by the test suite.
    Test,
    /// The fallback configuration shipped with the tool.
    Default,
}

impl ConfigType {
    /// The base name of the configuration file for this kind.
    pub open spec fn base_name(&self) -> Seq<char> {
        match self {
            ConfigType::Production => "config"@,
            ConfigType::Test => "config.test"@,
            ConfigType::Default => "config.default"@,
        }
    }

    /// Renders the base name of the configuration file for this kind.
    pub fn to_string(&self) -> (r: String)
        ensures
            r@ == self.base_name(),
    {
        match self {
            ConfigType::Production => String::from_str("config"),
            ConfigType::Test => String::from_str("config.test"),
            ConfigType::Default => String::from_str("config.default"),
        }
    }

    /// The path, relative to the working directory, under which the
    /// configuration file of this kind is looked up.
    pub fn file_name(&self) -> (r: String)
        ensures
            r@ == "config/"@ + self.base_name(),
    {
        let mut s = String::from_str("config/");
        let base = self.to_string();
        s.append(base.as_str());
        s
    }
}

/// One entry of the configuration's script table, as the loader hands it
/// over: nothing validated yet, every field optional that the file may
/// omit.
pub struct ScriptConfig {
    /// The script's name (the table key).
    pub name: String,
    /// An inline shell command, if one was given.
    pub cmd: Option<String>,
    /// A path to a script file, if one was given.
    pub path: Option<String>,
    /// The declared script kind, if one was given.
    pub script_type: Option<ScriptType>,
    /// Arguments handed to the script.
    pub args: Vec<String>,
    /// Names of the scripts this one depends on.
    pub dependencies: Vec<String>,
    /// Whether the script takes part in a full run.
    pub enabled: bool,
}

/// The mathematical value of a [`ScriptConfig`].
pub struct ScriptConfigModel {
    pub name: Seq<char>,
    pub cmd: Option<Seq<char>>,
    pub path: Option<Seq<char>>,
    pub script_type: Option<ScriptType>,
    pub args: Seq<Seq<char>>,
    pub dependencies: Seq<Seq<char>>,
    pub enabled: bool,
}

impl View for ScriptConfig {
    type V = ScriptConfigModel;

    open spec fn view(&self) -> ScriptConfigModel {
        ScriptConfigModel {
            name: self.name@,
            cmd: self.cmd.deep_view(),
            path: self.path.deep_view(),
            script_type: self.script_type,
            args: self.args.deep_view(),
            dependencies: self.dependencies.deep_view(),
            enabled: self.enabled,
        }
    }
}

impl DeepView for ScriptConfig {
    type V = ScriptConfigModel;

    open spec fn deep_view(&self) -> ScriptConfigModel {
        self.view()
    }
}

/// A loaded configuration: the script table in file order.
pub struct ConfigData {
    /// The script entries, in the order the loader supplies them.
    pub scripts: Vec<ScriptConfig>,
}

impl View for ConfigData {
    type V = Seq<ScriptConfigModel>;

    open spec fn view(&self) -> Seq<ScriptConfigModel> {
        self.scripts.deep_view()
    }
}

} // verus!
