//! The execution engine's decision core.
//!
//! The runner walks a resolved plan one position at a time. At each
//! position it decides what the engine must do — execute the task, skip a
//! disabled one, fail, or finish — and records completions. Spawning the
//! task's process and pumping its input and output are the caller's side
//! of the bargain: the caller asks [`Runner::next_step`] what to do,
//! performs the action, and reports back with
//! [`Runner::complete_current`] or [`Runner::skip_current`]. Fail-fast
//! behaviour falls out of the contracts: any error ends the walk, and
//! completions already recorded stay recorded.

use vstd::prelude::*;

use crate::error::Error;
use crate::graph_binding::{dep_before, deps_respected, names_of};
use crate::script::{contains_name, contains_str, Script, ScriptModel};

verus! {

/// What the engine must do next with the plan.
pub enum RunStep {
    /// Run the task at this plan position to completion, then report.
    Execute(usize),
    /// The task at this position is disabled: pass it over silently.
    Skip(usize),
    /// The plan is exhausted; the run succeeded.
    Done,
}

/// The mathematical value of a [`Runner`].
pub struct RunnerModel {
    pub tasks: Seq<ScriptModel>,
    pub requested: Option<Seq<Seq<char>>>,
    pub completed: Seq<Seq<char>>,
    pub pos: int,
}

/// Whether the run was asked for `n` by name.
pub open spec fn requested_contains(requested: Option<Seq<Seq<char>>>, n: Seq<char>) -> bool {
    match requested {
        Some(names) => contains_name(names, n),
        None => false,
    }
}

/// Every dependency of `t` has completed.
pub open spec fn deps_completed(t: ScriptModel, completed: Seq<Seq<char>>) -> bool {
    forall|k: int|
        0 <= k < t.dependencies.len() ==> contains_name(completed, #[trigger] t.dependencies[k])
}

/// What `next_step` answers, given the runner's state: finished past the
/// plan's end; `DependencyNotRun` when a dependency of the current task
/// has not completed (the defensive check — a correct plan never trips
/// it, see [`lemma_ordered_walk_never_trips`]); `TaskDisabled` when the
/// current task is disabled yet was requested by name; a skip for a
/// disabled task nobody asked for; otherwise, execute the current task.
pub open spec fn next_step_spec(m: RunnerModel, r: Result<RunStep, Error>) -> bool {
    if m.pos >= m.tasks.len() {
        r == Ok::<RunStep, Error>(RunStep::Done)
    } else {
        let t = m.tasks[m.pos];
        if !deps_completed(t, m.completed) {
            &&& r matches Err(e)
            &&& (r matches Err(e) ==> e matches Error::DependencyNotRun(name, dep) && name@
                == t.name && (exists|k: int|
                0 <= k < t.dependencies.len() && #[trigger] t.dependencies[k] == dep@
                    && !contains_name(m.completed, dep@)))
        } else if !t.enabled && requested_contains(m.requested, t.name) {
            &&& r matches Err(e)
            &&& (r matches Err(e) ==> e matches Error::TaskDisabled(name) && name@ == t.name)
        } else if !t.enabled {
            r == Ok::<RunStep, Error>(RunStep::Skip(m.pos as usize))
        } else {
            r == Ok::<RunStep, Error>(RunStep::Execute(m.pos as usize))
        }
    }
}

/// Walks a resolved plan, deciding each step and recording completions.
pub struct Runner {
    tasks: Vec<Script>,
    requested: Option<Vec<String>>,
    completed: Vec<String>,
    pos: usize,
}

impl View for Runner {
    type V = RunnerModel;

    closed spec fn view(&self) -> RunnerModel {
        RunnerModel {
            tasks: self.tasks.deep_view(),
            requested: self.requested.deep_view(),
            completed: self.completed.deep_view(),
            pos: self.pos as int,
        }
    }
}

impl Runner {
    /// Takes a resolved plan and, for a requested run, the names the
    /// caller asked for (`None` for a full run). The walk starts at the
    /// front with nothing completed.
    pub fn new(tasks: Vec<Script>, requested: Option<Vec<String>>) -> (r: Runner)
        ensures
            r@.tasks == tasks.deep_view(),
            r@.requested == requested.deep_view(),
            r@.completed == Seq::<Seq<char>>::empty(),
            r@.pos == 0,
    {
        let r = Runner { tasks, requested, completed: Vec::new(), pos: 0 };
        proof {
            assert(r@.completed =~= Seq::<Seq<char>>::empty());
        }
        r
    }

    /// Decides what the engine must do at the current position; changes
    /// nothing.
    pub fn next_step(&self) -> (r: Result<RunStep, Error>)
        ensures
            next_step_spec(self@, r),
    {
        let ghost m = self@;
        if self.pos >= self.tasks.len() {
            return Ok(RunStep::Done);
        }
        let ghost tm = m.tasks[m.pos];
        proof {
            assert(tm == self.tasks@[self.pos as int].deep_view());
        }
        // The defensive ordering check: every declared dependency must
        // already have completed, whatever the plan said.
        let deps_len = self.tasks[self.pos].dependencies.len();
        let mut k: usize = 0;
        while k < deps_len
            invariant
                m == self@,
                0 <= m.pos < m.tasks.len(),
                self.pos as int == m.pos,
                tm == m.tasks[m.pos],
                k <= deps_len,
                deps_len == tm.dependencies.len(),
                forall|q: int| 0 <= q < k ==> contains_name(m.completed, #[trigger] tm.dependencies[q]),
            decreases deps_len - k,
        {
            proof {
                assert(tm.dependencies[k as int]
                    == self.tasks@[m.pos].dependencies@[k as int]@);
            }
            if !contains_str(&self.completed, &self.tasks[self.pos].dependencies[k]) {
                proof {
                    assert(!contains_name(m.completed, tm.dependencies[k as int]));
                    assert(!deps_completed(tm, m.completed));
                }
                return Err(
                    Error::DependencyNotRun(
                        self.tasks[self.pos].name.clone(),
                        self.tasks[self.pos].dependencies[k].clone(),
                    ),
                );
            }
            k += 1;
        }
        proof {
            assert(deps_completed(tm, m.completed));
        }
        if !self.tasks[self.pos].enabled {
            match &self.requested {
                Some(names) => {
                    if contains_str(names, &self.tasks[self.pos].name) {
                        proof {
                            assert(requested_contains(m.requested, tm.name));
                        }
                        return Err(Error::TaskDisabled(self.tasks[self.pos].name.clone()));
                    }
                },
                None => {},
            }
            proof {
                assert(!requested_contains(m.requested, tm.name));
            }
            return Ok(RunStep::Skip(self.pos));
        }
        Ok(RunStep::Execute(self.pos))
    }

    /// Hands out the task at a plan position, for the engine to run.
    pub fn task_at(&self, i: usize) -> (t: &Script)
        requires
            i < self@.tasks.len(),
        ensures
            t@ == self@.tasks[i as int],
    {
        proof {
            assert(self@.tasks[i as int] == self.tasks@[i as int].deep_view());
        }
        &self.tasks[i]
    }

    /// Records that the current task completed, and moves on. The
    /// completion set only ever grows; nothing undoes it.
    pub fn complete_current(&mut self)
        requires
            old(self)@.pos < old(self)@.tasks.len(),
        ensures
            final(self)@.tasks == old(self)@.tasks,
            final(self)@.requested == old(self)@.requested,
            final(self)@.completed == old(self)@.completed.push(
                old(self)@.tasks[old(self)@.pos].name,
            ),
            final(self)@.pos == old(self)@.pos + 1,
    {
        let ghost prev = self.completed@;
        let ghost prev_dv = self.completed.deep_view();
        let name = self.tasks[self.pos].name.clone();
        proof {
            assert(name@ == old(self)@.tasks[old(self)@.pos].name);
        }
        self.completed.push(name);
        let n = self.tasks.len();
        proof {
            assert(self.pos < n);
        }
        self.pos = self.pos + 1;
        proof {
            assert forall|q: int| 0 <= q < self.completed@.len() implies self.completed.deep_view()[q]
                == prev_dv.push(old(self)@.tasks[old(self)@.pos].name)[q] by {
                if q < prev.len() {
                    assert(self.completed@[q] == prev[q]);
                    assert(prev_dv[q] == prev[q].deep_view());
                }
            }
            assert(self.completed.deep_view() =~= prev_dv.push(
                old(self)@.tasks[old(self)@.pos].name,
            ));
        }
    }

    /// Passes a disabled task over without recording a completion.
    pub fn skip_current(&mut self)
        requires
            old(self)@.pos < old(self)@.tasks.len(),
        ensures
            final(self)@.tasks == old(self)@.tasks,
            final(self)@.requested == old(self)@.requested,
            final(self)@.completed == old(self)@.completed,
            final(self)@.pos == old(self)@.pos + 1,
    {
        let n = self.tasks.len();
        proof {
            assert(self.pos < n);
        }
        self.pos = self.pos + 1;
    }
}

/// Maps a child process's exit status to the task's outcome: exit code
/// zero is success, anything else — a nonzero code or death without one —
/// fails the task, and with it the run.
pub fn exit_to_result(name: &str, exit_code: Option<i32>) -> (r: Result<(), Error>)
    ensures
        r is Ok <==> exit_code == Some(0i32),
        r matches Err(e) ==> e matches Error::Task(n) && n@ == name@,
{
    match exit_code {
        Some(code) => {
            if code == 0 {
                Ok(())
            } else {
                Err(Error::Task(name.to_owned()))
            }
        },
        None => Err(Error::Task(name.to_owned())),
    }
}

/// A dependency-respecting plan, walked front to back, satisfies the
/// engine's ordering check at every position: once the first `pos` tasks
/// have completed, every dependency of the task at `pos` has completed.
pub proof fn lemma_plan_deps_satisfied(plan: Seq<ScriptModel>, pos: int)
    requires
        deps_respected(plan),
        0 <= pos < plan.len(),
    ensures
        deps_completed(plan[pos], names_of(plan.take(pos))),
{
    assert forall|k: int| 0 <= k < plan[pos].dependencies.len() implies contains_name(
        names_of(plan.take(pos)),
        #[trigger] plan[pos].dependencies[k],
    ) by {
        assert(dep_before(plan, pos, k));
        let q = choose|q: int| 0 <= q < pos && plan[q].name == plan[pos].dependencies[k];
        assert(names_of(plan.take(pos))[q] == plan[q].name);
    }
}

/// On a dependency-respecting plan whose completions are exactly the tasks
/// already walked, the defensive check never fires: the only error
/// `next_step` can still answer is `TaskDisabled`.
pub proof fn lemma_ordered_walk_never_trips(m: RunnerModel, r: Result<RunStep, Error>)
    requires
        deps_respected(m.tasks),
        0 <= m.pos,
        m.completed == names_of(m.tasks.take(m.pos)),
        next_step_spec(m, r),
    ensures
        r matches Err(e) ==> e matches Error::TaskDisabled(_),
{
    if m.pos < m.tasks.len() {
        lemma_plan_deps_satisfied(m.tasks, m.pos);
    }
}

} // verus!
