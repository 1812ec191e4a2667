//! The error taxonomy shared by graph construction, resolution, and the
//! execution engine.

use vstd::prelude::*;
use vstd::string::StringExecFns;

verus! {

/// The ways building, resolving, or running a task set can fail.
#[derive(Debug)]
pub enum Error {
    /// Two tasks share a name; carries the repeated name.
    DuplicateKey(String),
    /// A name has no matching task. The first field names the task whose
    /// dependency list mentions the missing name, when there is one; the
    /// second field is the missing name itself.
    NotFound(Option<String>, String),
    /// The dependency graph restricted to the requested closure has a
    /// cycle; carries the names of the tasks that could not be ordered.
    CycleDetected(Vec<String>),
    /// The defensive ordering check failed at execution time: a task came
    /// up before one of its dependencies had completed. Carries the task
    /// name and the dependency that had not run.
    DependencyNotRun(String, String),
    /// A disabled task was named explicitly in a requested run.
    TaskDisabled(String),
    /// A task's process failed; carries the task name.
    Task(String),
    /// The shared input stream closed while a task still needed it.
    StdinClosed,
    /// An input/output failure at the system boundary; carries a
    /// description of the underlying failure.
    Io(String),
    /// A failure nothing more specific describes.
    Unspecified(String),
}

/// The names in `names` in order, separated by `", "`.
pub open spec fn joined_names(names: Seq<Seq<char>>) -> Seq<char>
    decreases names.len(),
{
    if names.len() == 0 {
        Seq::empty()
    } else if names.len() == 1 {
        names[0]
    } else {
        joined_names(names.drop_last()) + ", "@ + names.last()
    }
}

impl Error {
    /// The human-readable description of this error.
    pub open spec fn message(&self) -> Seq<char> {
        match self {
            Error::DuplicateKey(name) => "Duplicate task name: "@ + name@,
            Error::NotFound(Some(task), key) => "Dependency of "@ + task@ + " not found: "@
                + key@,
            Error::NotFound(None, key) => "Task not found: "@ + key@,
            Error::CycleDetected(names) => "Dependency cycle among: "@ + joined_names(
                names.deep_view(),
            ),
            Error::DependencyNotRun(task, dep) => "Dependency of "@ + task@ + " not run: "@
                + dep@,
            Error::TaskDisabled(name) => "Task is disabled: "@ + name@,
            Error::Task(name) => "Task failed: "@ + name@,
            Error::StdinClosed => "Stdin closed"@,
            Error::Io(msg) => "IO error: "@ + msg@,
            Error::Unspecified(msg) => "Unspecified error: "@ + msg@,
        }
    }

    /// Renders the error as one line of text for a diagnostic stream.
    pub fn describe(&self) -> (r: String)
        ensures
            r@ == self.message(),
    {
        match self {
            Error::DuplicateKey(name) => {
                let mut s = String::from_str("Duplicate task name: ");
                s.append(name.as_str());
                s
            },
            Error::NotFound(Some(task), key) => {
                let mut s = String::from_str("Dependency of ");
                s.append(task.as_str());
                s.append(" not found: ");
                s.append(key.as_str());
                s
            },
            Error::NotFound(None, key) => {
                let mut s = String::from_str("Task not found: ");
                s.append(key.as_str());
                s
            },
            Error::CycleDetected(names) => {
                let mut s = String::from_str("Dependency cycle among: ");
                s.append(join_names(names).as_str());
                s
            },
            Error::DependencyNotRun(task, dep) => {
                let mut s = String::from_str("Dependency of ");
                s.append(task.as_str());
                s.append(" not run: ");
                s.append(dep.as_str());
                s
            },
            Error::TaskDisabled(name) => {
                let mut s = String::from_str("Task is disabled: ");
                s.append(name.as_str());
                s
            },
            Error::Task(name) => {
                let mut s = String::from_str("Task failed: ");
                s.append(name.as_str());
                s
            },
            Error::StdinClosed => String::from_str("Stdin closed"),
            Error::Io(msg) => {
                let mut s = String::from_str("IO error: ");
                s.append(msg.as_str());
                s
            },
            Error::Unspecified(msg) => {
                let mut s = String::from_str("Unspecified error: ");
                s.append(msg.as_str());
                s
            },
        }
    }
}

/// Joins the given names with `", "` between them.
pub fn join_names(names: &Vec<String>) -> (r: String)
    ensures
        r@ == joined_names(names.deep_view()),
{
    let mut s = String::new();
    let mut i: usize = 0;
    while i < names.len()
        invariant
            i <= names.len(),
            s@ == joined_names(names.deep_view().take(i as int)),
        decreases names.len() - i,
    {
        if i > 0 {
            s.append(", ");
        }
        s.append(names[i].as_str());
        proof {
            let dv = names.deep_view();
            assert(dv.take(i + 1).drop_last() =~= dv.take(i as int));
            assert(dv.take(i + 1).last() == dv[i as int]);
            if i == 0 {
                assert(Seq::empty() + dv[0] =~= dv[0]);
            }
        }
        i += 1;
    }
    proof {
        assert(names.deep_view().take(names.len() as int) =~= names.deep_view());
    }
    s
}

} // verus!
