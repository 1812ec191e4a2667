//! Task descriptors: named scripts with dependencies, and the functions
//! that build them from a loaded configuration.

use vstd::prelude::*;

use crate::config::{ConfigData, ScriptConfigModel};
use crate::error::Error;

verus! {

/// The kind of interpreter a script runs under.
#[derive(Clone, Copy, PartialEq, Eq, Structural)]
pub enum ScriptType {
    Bash,
}

impl Default for ScriptType {
    /// The kind assumed when the configuration names none.
    fn default() -> (r: ScriptType)
        ensures
            r == ScriptType::Bash,
    {
        ScriptType::Bash
    }
}

/// One task: a named unit of work with an action, the names of the tasks
/// it depends on, and an `enabled` flag. Built once from configuration and
/// never mutated afterwards.
///
/// The action is either an inline command (`cmd`, with `path` absent) or a
/// script file (`path` present); for a file-backed script the caller reads
/// the file and installs its text as `cmd` with [`Script::with_command`],
/// so that `cmd` always holds the text handed to the shell.
pub struct Script {
    /// The unique name the task is addressed by.
    pub name: String,
    /// The shell text to run.
    pub cmd: String,
    /// The file the shell text came from, for a file-backed script.
    pub path: Option<String>,
    /// The kind of interpreter the script runs under.
    pub script_type: ScriptType,
    /// Arguments handed to the script.
    pub args: Vec<String>,
    /// Names of the tasks that must complete before this one runs.
    pub dependencies: Vec<String>,
    /// Whether the task takes part in a full run.
    pub enabled: bool,
}

/// The mathematical value of a [`Script`].
pub struct ScriptModel {
    pub name: Seq<char>,
    pub cmd: Seq<char>,
    pub path: Option<Seq<char>>,
    pub script_type: ScriptType,
    pub args: Seq<Seq<char>>,
    pub dependencies: Seq<Seq<char>>,
    pub enabled: bool,
}

impl View for Script {
    type V = ScriptModel;

    open spec fn view(&self) -> ScriptModel {
        ScriptModel {
            name: self.name@,
            cmd: self.cmd@,
            path: self.path.deep_view(),
            script_type: self.script_type,
            args: self.args.deep_view(),
            dependencies: self.dependencies.deep_view(),
            enabled: self.enabled,
        }
    }
}

impl DeepView for Script {
    type V = ScriptModel;

    open spec fn deep_view(&self) -> ScriptModel {
        self.view()
    }
}

impl Script {
    /// Builds a task from its parts. Exactly one of `cmd` and `path` must
    /// be given: a task runs either an inline command or a script file,
    /// never both and never neither.
    pub fn new(
        name: &str,
        cmd: Option<String>,
        path: Option<String>,
        script_type: Option<ScriptType>,
        args: Vec<String>,
        dependencies: Vec<String>,
        enabled: bool,
    ) -> (r: Script)
        requires
            cmd is Some <==> path is None,
        ensures
            r@.name == name@,
            r@.cmd == (match cmd {
                Some(c) => c@,
                None => Seq::<char>::empty(),
            }),
            r@.path == path.deep_view(),
            r@.script_type == (match script_type {
                Some(t) => t,
                None => ScriptType::Bash,
            }),
            r@.args == args.deep_view(),
            r@.dependencies == dependencies.deep_view(),
            r@.enabled == enabled,
    {
        let cmd_text = match cmd {
            Some(c) => c,
            None => String::new(),
        };
        let kind = match script_type {
            Some(t) => t,
            None => ScriptType::Bash,
        };
        Script {
            name: name.to_owned(),
            cmd: cmd_text,
            path,
            script_type: kind,
            args,
            dependencies,
            enabled,
        }
    }

    /// Replaces the shell text, leaving every other field alone. For a
    /// file-backed script the caller reads the file and installs its
    /// contents here before the task is run.
    pub fn with_command(self, cmd: String) -> (r: Script)
        ensures
            r@.name == self@.name,
            r@.cmd == cmd@,
            r@.path == self@.path,
            r@.script_type == self@.script_type,
            r@.args == self@.args,
            r@.dependencies == self@.dependencies,
            r@.enabled == self@.enabled,
    {
        Script {
            name: self.name,
            cmd,
            path: self.path,
            script_type: self.script_type,
            args: self.args,
            dependencies: self.dependencies,
            enabled: self.enabled,
        }
    }

    /// Copies the task, value for value.
    pub fn duplicate(&self) -> (r: Script)
        ensures
            r@ == self@,
    {
        Script {
            name: self.name.clone(),
            cmd: self.cmd.clone(),
            path: match &self.path {
                Some(p) => Some(p.clone()),
                None => None,
            },
            script_type: self.script_type,
            args: clone_strings(&self.args),
            dependencies: clone_strings(&self.dependencies),
            enabled: self.enabled,
        }
    }
}

/// Copies a list of strings, value for value.
pub fn clone_strings(v: &Vec<String>) -> (r: Vec<String>)
    ensures
        r@ == v@,
{
    let mut r: Vec<String> = Vec::new();
    let mut i: usize = 0;
    while i < v.len()
        invariant
            i <= v.len(),
            r@ == v@.take(i as int),
        decreases v.len() - i,
    {
        r.push(v[i].clone());
        proof {
            assert(v@.take(i + 1) =~= v@.take(i as int).push(v@[i as int]));
        }
        i += 1;
    }
    proof {
        assert(v@.take(v@.len() as int) =~= v@);
    }
    r
}

impl crate::graph_binding::GraphLike for Script {
    open spec fn key(&self) -> Seq<char> {
        self@.name
    }

    open spec fn children(&self) -> Seq<Seq<char>> {
        self@.dependencies
    }

    fn get_key(&self) -> (k: &String) {
        &self.name
    }

    fn get_children_keys(&self) -> (d: Vec<String>) {
        let d = clone_strings(&self.dependencies);
        proof {
            assert(d.deep_view() =~= self.dependencies.deep_view());
        }
        d
    }
}

/// Whether `n` occurs in `names`.
pub open spec fn contains_name(names: Seq<Seq<char>>, n: Seq<char>) -> bool {
    exists|k: int| 0 <= k < names.len() && names[k] == n
}

/// Whether `names[i]` equals `n` and no earlier entry does.
pub open spec fn is_first_entry(c: Seq<ScriptConfigModel>, name: Seq<char>, i: int) -> bool {
    &&& 0 <= i < c.len()
    &&& c[i].name == name
    &&& forall|q: int| 0 <= q < i ==> c[q].name != name
}

/// Whether the configuration has an entry named `name`.
pub open spec fn has_entry(c: Seq<ScriptConfigModel>, name: Seq<char>) -> bool {
    exists|i: int| 0 <= i < c.len() && c[i].name == name
}

/// A raw entry is well-formed when it names exactly one action: an inline
/// command or a script file.
pub open spec fn entry_wf(e: ScriptConfigModel) -> bool {
    e.cmd is Some <==> e.path is None
}

/// The task a well-formed raw entry describes: a missing command becomes
/// the empty text (filled in later for file-backed scripts), a missing
/// kind defaults to `Bash`, a missing `enabled` was already turned into
/// `false` by the loader.
pub open spec fn entry_to_script(e: ScriptConfigModel) -> ScriptModel {
    ScriptModel {
        name: e.name,
        cmd: match e.cmd {
            Some(c) => c,
            None => Seq::empty(),
        },
        path: e.path,
        script_type: match e.script_type {
            Some(t) => t,
            None => ScriptType::Bash,
        },
        args: e.args,
        dependencies: e.dependencies,
        enabled: e.enabled,
    }
}

/// Builds the task a raw entry describes.
fn script_from_entry(e: &crate::config::ScriptConfig) -> (r: Script)
    requires
        entry_wf(e@),
    ensures
        r@ == entry_to_script(e@),
{
    let cmd = match &e.cmd {
        Some(c) => Some(c.clone()),
        None => None,
    };
    let path = match &e.path {
        Some(p) => Some(p.clone()),
        None => None,
    };
    Script::new(
        e.name.as_str(),
        cmd,
        path,
        e.script_type,
        clone_strings(&e.args),
        clone_strings(&e.dependencies),
        e.enabled,
    )
}

/// Builds the named task from the first configuration entry carrying that
/// name. The entry must exist and must name exactly one action; the loader
/// that produced the configuration enforces both before calling in.
pub fn load_script_from_config(name: &str, config: &ConfigData) -> (r: Result<Script, Error>)
    requires
        has_entry(config@, name@),
        forall|i: int| is_first_entry(config@, name@, i) ==> entry_wf(config@[i]),
    ensures
        r is Ok,
        r matches Ok(s) ==> exists|i: int|
            #[trigger] is_first_entry(config@, name@, i) && s@ == entry_to_script(config@[i]),
{
    let name_key = name.to_owned();
    let n = config.scripts.len();
    let mut i: usize = 0;
    while i < n
        invariant
            n == config@.len(),
            name_key@ == name@,
            i <= n,
            has_entry(config@, name@),
            forall|k: int| is_first_entry(config@, name@, k) ==> entry_wf(config@[k]),
            forall|q: int| 0 <= q < i ==> config@[q].name != name@,
        decreases n - i,
    {
        proof {
            assert(config@[i as int] == config.scripts@[i as int].deep_view());
        }
        if config.scripts[i].name == name_key {
            proof {
                assert(is_first_entry(config@, name@, i as int));
            }
            return Ok(script_from_entry(&config.scripts[i]));
        }
        i += 1;
    }
    proof {
        assert(false);
    }
    vstd::pervasive::unreached()
}

/// The tasks described by the entries of `c` whose names occur in
/// `names`, in entry order.
pub open spec fn selected_scripts(c: Seq<ScriptConfigModel>, names: Seq<Seq<char>>) -> Seq<
    ScriptModel,
>
    decreases c.len(),
{
    if c.len() == 0 {
        Seq::empty()
    } else {
        let rest = selected_scripts(c.drop_last(), names);
        if contains_name(names, c.last().name) {
            rest.push(entry_to_script(c.last()))
        } else {
            rest
        }
    }
}

/// Builds every task whose name occurs in `scripts_to_add`, in
/// configuration order. Entries the request does not name are skipped;
/// requested names with no entry are skipped as well. Every selected entry
/// must name exactly one action.
pub fn load_scripts_from_config(config: &ConfigData, scripts_to_add: Vec<String>) -> (r: Result<
    Vec<Script>,
    Error,
>)
    requires
        forall|i: int|
            0 <= i < config@.len() && contains_name(
                scripts_to_add.deep_view(),
                (#[trigger] config@[i]).name,
            ) ==> entry_wf(config@[i]),
    ensures
        r is Ok,
        r matches Ok(v) ==> v.deep_view() == selected_scripts(config@, scripts_to_add.deep_view()),
{
    let n = config.scripts.len();
    let mut out: Vec<Script> = Vec::new();
    let mut i: usize = 0;
    while i < n
        invariant
            n == config@.len(),
            i <= n,
            forall|k: int|
                0 <= k < config@.len() && contains_name(
                    scripts_to_add.deep_view(),
                    (#[trigger] config@[k]).name,
                ) ==> entry_wf(config@[k]),
            out.deep_view() == selected_scripts(
                config@.take(i as int),
                scripts_to_add.deep_view(),
            ),
        decreases n - i,
    {
        proof {
            assert(config@[i as int] == config.scripts@[i as int].deep_view());
            assert(config@.take(i + 1).drop_last() =~= config@.take(i as int));
            assert(config@.take(i + 1).last() == config@[i as int]);
        }
        let ghost prev = out@;
        let ghost prev_dv = out.deep_view();
        if contains_str(&scripts_to_add, &config.scripts[i].name) {
            out.push(script_from_entry(&config.scripts[i]));
            proof {
                assert forall|k: int| 0 <= k < out@.len() implies out.deep_view()[k]
                    == selected_scripts(config@.take(i + 1), scripts_to_add.deep_view())[k] by {
                    if k < prev.len() {
                        assert(out@[k] == prev[k]);
                        assert(prev_dv[k] == prev[k].deep_view());
                    }
                }
                assert(out.deep_view() =~= selected_scripts(
                    config@.take(i + 1),
                    scripts_to_add.deep_view(),
                ));
            }
        } else {
            proof {
                assert(out.deep_view() =~= selected_scripts(
                    config@.take(i + 1),
                    scripts_to_add.deep_view(),
                ));
            }
        }
        i += 1;
    }
    proof {
        assert(config@.take(n as int) =~= config@);
    }
    Ok(out)
}

/// Builds every task the configuration describes, in configuration order.
/// Every entry must name exactly one action.
pub fn load_all_scripts_from_config(config: &ConfigData) -> (r: Result<Vec<Script>, Error>)
    requires
        forall|i: int| 0 <= i < config@.len() ==> entry_wf(#[trigger] config@[i]),
    ensures
        r is Ok,
        r matches Ok(v) ==> v.deep_view().len() == config@.len() && forall|i: int|
            0 <= i < config@.len() ==> v.deep_view()[i] == entry_to_script(#[trigger] config@[i]),
{
    let n = config.scripts.len();
    let mut out: Vec<Script> = Vec::new();
    let mut i: usize = 0;
    while i < n
        invariant
            n == config@.len(),
            i <= n,
            forall|k: int| 0 <= k < config@.len() ==> entry_wf(#[trigger] config@[k]),
            out.deep_view().len() == i,
            forall|k: int|
                0 <= k < i ==> out.deep_view()[k] == entry_to_script(#[trigger] config@[k]),
        decreases n - i,
    {
        proof {
            assert(config@[i as int] == config.scripts@[i as int].deep_view());
        }
        let ghost prev = out@;
        let ghost prev_dv = out.deep_view();
        out.push(script_from_entry(&config.scripts[i]));
        proof {
            assert forall|k: int| 0 <= k < i + 1 implies out.deep_view()[k] == entry_to_script(
                #[trigger] config@[k],
            ) by {
                if k < i as int {
                    assert(out@[k] == prev[k]);
                    assert(prev_dv[k] == prev[k].deep_view());
                }
            }
        }
        i += 1;
    }
    Ok(out)
}

/// Whether `name` occurs in `names`, compared by contents.
pub fn contains_str(names: &Vec<String>, name: &String) -> (r: bool)
    ensures
        r == contains_name(names.deep_view(), name@),
{
    let mut i: usize = 0;
    while i < names.len()
        invariant
            i <= names@.len(),
            forall|k: int| 0 <= k < i ==> names.deep_view()[k] != name@,
        decreases names@.len() - i,
    {
        proof {
            assert(names.deep_view()[i as int] == names@[i as int]@);
        }
        if names[i] == *name {
            return true;
        }
        i += 1;
    }
    false
}

} // verus!
