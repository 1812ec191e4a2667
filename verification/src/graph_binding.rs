//! The dependency graph over a task set.
//!
//! Tasks are stored in an arena, addressed by their position; each edge is
//! the index of the dependency a task's dependency list names. Building
//! the graph validates the task set (unique names, no dangling
//! references); the ordering queries compute the transitive closure of a
//! seed set and a dependency-respecting order over it, reporting a cycle
//! instead of silently dropping tasks that cannot be ordered.

use vstd::pervasive::VecAdditionalExecFns;
use vstd::prelude::*;

use crate::error::Error;
use crate::script::{Script, ScriptModel};

verus! {

/// A node of a dependency graph: something with a key and the keys of the
/// nodes it depends on.
pub trait GraphLike {
    /// The key this node is addressed by.
    spec fn key(&self) -> Seq<char>;

    /// The keys of the nodes this node depends on.
    spec fn children(&self) -> Seq<Seq<char>>;

    /// Hands out the node's key.
    fn get_key(&self) -> (k: &String)
        ensures
            k@ == self.key(),
    ;

    /// Hands out the keys of the nodes this node depends on.
    fn get_children_keys(&self) -> (d: Vec<String>)
        ensures
            d.deep_view() == self.children(),
    ;
}

/// No two tasks share a name.
pub open spec fn names_unique(s: Seq<ScriptModel>) -> bool {
    forall|i: int, j: int| 0 <= i < j < s.len() ==> s[i].name != s[j].name
}

/// Some task is named `n`.
pub open spec fn has_name(s: Seq<ScriptModel>, n: Seq<char>) -> bool {
    exists|i: int| 0 <= i < s.len() && s[i].name == n
}

/// The index of the task named `n`; meaningful only when `has_name` holds
/// and names are unique.
pub open spec fn index_of_name(s: Seq<ScriptModel>, n: Seq<char>) -> int {
    choose|i: int| 0 <= i < s.len() && s[i].name == n
}

/// Every name any task's dependency list mentions belongs to some task.
pub open spec fn deps_present(s: Seq<ScriptModel>) -> bool {
    forall|i: int, k: int|
        0 <= i < s.len() && 0 <= k < s[i].dependencies.len() ==> has_name(
            s,
            s[i].dependencies[k],
        )
}

/// Task `i` names task `j` in its dependency list.
pub open spec fn depends_on(s: Seq<ScriptModel>, i: int, j: int) -> bool {
    &&& 0 <= i < s.len()
    &&& 0 <= j < s.len()
    &&& exists|k: int| 0 <= k < s[i].dependencies.len() && s[i].dependencies[k] == s[j].name
}

/// The index set `t` contains, with each member, everything the member
/// depends on.
pub open spec fn dep_closed(s: Seq<ScriptModel>, t: Set<int>) -> bool {
    forall|i: int, j: int| t.contains(i) && #[trigger] depends_on(s, i, j) ==> t.contains(j)
}

/// Index `i` lies in every dependency-closed superset of `seeds` — that
/// is, in the least one: the transitive closure of the seed set.
pub open spec fn in_closure(s: Seq<ScriptModel>, seeds: Set<int>, i: int) -> bool {
    forall|t: Set<int>|
        #![trigger seeds.subset_of(t), dep_closed(s, t)]
        seeds.subset_of(t) && dep_closed(s, t) ==> t.contains(i)
}

/// The transitive closure of the seed set, as a set of indices.
pub open spec fn closure_set(s: Seq<ScriptModel>, seeds: Set<int>) -> Set<int> {
    Set::new(|i: int| in_closure(s, seeds, i))
}

/// The indices of the tasks whose names occur in `names`.
pub open spec fn seed_set_of_names(s: Seq<ScriptModel>, names: Seq<Seq<char>>) -> Set<int> {
    Set::new(
        |i: int|
            0 <= i < s.len() && exists|k: int| 0 <= k < names.len() && names[k] == s[i].name,
    )
}

/// The members of `ord`, as a set.
pub open spec fn seq_to_set(ord: Seq<int>) -> Set<int> {
    Set::new(|i: int| ord.contains(i))
}

/// The same indices, as mathematical integers.
pub open spec fn int_seq(v: Seq<usize>) -> Seq<int> {
    v.map_values(|u: usize| u as int)
}

/// No index occurs twice.
pub open spec fn distinct_seq(ord: Seq<int>) -> bool {
    forall|p: int, q: int| 0 <= p < q < ord.len() ==> ord[p] != ord[q]
}

/// `ord` enumerates exactly the index set `t`, each index after all the
/// indices it depends on.
pub open spec fn is_valid_order(s: Seq<ScriptModel>, t: Set<int>, ord: Seq<int>) -> bool {
    &&& forall|p: int| 0 <= p < ord.len() ==> t.contains(#[trigger] ord[p])
    &&& distinct_seq(ord)
    &&& forall|i: int| #[trigger] t.contains(i) ==> ord.contains(i)
    &&& forall|p: int, j: int|
        0 <= p < ord.len() && #[trigger] depends_on(s, ord[p], j) ==> exists|q: int|
            0 <= q < p && ord[q] == j
}

/// Index `i` could be emitted at position `p` of `ord`: it belongs to the
/// set, has not been emitted yet, and everything it depends on has been.
pub open spec fn ready_at(s: Seq<ScriptModel>, t: Set<int>, ord: Seq<int>, p: int, i: int) -> bool {
    &&& t.contains(i)
    &&& !ord.take(p).contains(i)
    &&& forall|j: int| #[trigger] depends_on(s, i, j) ==> ord.take(p).contains(j)
}

/// A valid order that always emits the lowest-indexed ready task next.
/// For a given graph and index set, at most one order is greedy, which
/// pins the result of the ordering queries down completely.
pub open spec fn is_greedy_order(s: Seq<ScriptModel>, t: Set<int>, ord: Seq<int>) -> bool {
    &&& is_valid_order(s, t, ord)
    &&& forall|p: int, i: int|
        0 <= p < ord.len() && #[trigger] ready_at(s, t, ord, p, i) ==> ord[p] <= i
}

/// Membership in a blocked set, under its own name so that facts about
/// one member are drawn on request rather than chained without end.
pub open spec fn blocked_member(r: Set<int>, i: int) -> bool {
    r.contains(i)
}

/// A nonempty subset of `t` each of whose members depends on a member:
/// none of them can ever be emitted, which witnesses a dependency cycle.
pub open spec fn blocked_set(s: Seq<ScriptModel>, t: Set<int>, r: Set<int>) -> bool {
    &&& r.subset_of(t)
    &&& exists|i: int| r.contains(i)
    &&& forall|i: int| #[trigger] blocked_member(r, i) ==> exists|j: int|
        r.contains(j) && depends_on(s, i, j)
}

/// The graph restricted to the index set `t` has a dependency cycle.
pub open spec fn has_cycle_within(s: Seq<ScriptModel>, t: Set<int>) -> bool {
    exists|r: Set<int>| #[trigger] blocked_set(s, t, r)
}

/// The `k`th dependency of the `p`th task of the plan belongs to a task
/// standing strictly earlier in the plan.
pub open spec fn dep_before(plan: Seq<ScriptModel>, p: int, k: int) -> bool {
    exists|q: int| 0 <= q < p && plan[q].name == plan[p].dependencies[k]
}

/// Every name in every task's dependency list belongs to a task standing
/// strictly earlier in the plan.
pub open spec fn deps_respected(plan: Seq<ScriptModel>) -> bool {
    forall|p: int, k: int|
        0 <= p < plan.len() && 0 <= k < plan[p].dependencies.len() ==> #[trigger] dep_before(
            plan,
            p,
            k,
        )
}

/// The task `m` is one of the tasks of `s` whose index lies in `t`.
pub open spec fn task_in_set(s: Seq<ScriptModel>, t: Set<int>, m: ScriptModel) -> bool {
    exists|i: int| 0 <= i < s.len() && t.contains(i) && m == s[i]
}

/// The task at index `i` of `s` occurs in the plan.
pub open spec fn task_listed(s: Seq<ScriptModel>, plan: Seq<ScriptModel>, i: int) -> bool {
    exists|j: int| 0 <= j < plan.len() && plan[j] == s[i]
}

/// The names of the tasks of `plan`, in plan order.
pub open spec fn names_of(plan: Seq<ScriptModel>) -> Seq<Seq<char>> {
    plan.map_values(|m: ScriptModel| m.name)
}

/// `plan` spells out the tasks that `ord` enumerates by index.
pub open spec fn plan_of_order(s: Seq<ScriptModel>, ord: Seq<int>, plan: Seq<ScriptModel>) -> bool {
    &&& plan.len() == ord.len()
    &&& forall|p: int| 0 <= p < ord.len() ==> plan[p] == s[#[trigger] ord[p]]
}

/// What a successful ordering query promises of its plan, for the task set
/// `s` and the seed index set `seeds`: the plan enumerates exactly the
/// transitive closure of the seeds, every dependency before its dependent,
/// and it spells out the one greedy such enumeration — so equal queries
/// return equal plans.
pub open spec fn ordered_plan(s: Seq<ScriptModel>, seeds: Set<int>, plan: Seq<ScriptModel>) -> bool {
    let cset = closure_set(s, seeds);
    &&& deps_respected(plan)
    &&& names_unique(plan)
    &&& (exists|ord: Seq<int>| #[trigger] is_greedy_order(s, cset, ord) && plan_of_order(s, ord, plan))
    &&& forall|j: int| 0 <= j < plan.len() ==> task_in_set(s, cset, #[trigger] plan[j])
    &&& forall|i: int| #[trigger] cset.contains(i) ==> task_listed(s, plan, i)
}

/// `ordered_plan`, with the seeds given as tasks rather than indices.
pub open spec fn topo_ok(
    s: Seq<ScriptModel>,
    seed_nodes: Seq<ScriptModel>,
    plan: Seq<ScriptModel>,
) -> bool {
    ordered_plan(s, seed_set_of_names(s, names_of(seed_nodes)), plan)
}

/// Every index of the task set.
pub open spec fn full_index_set(s: Seq<ScriptModel>) -> Set<int> {
    Set::new(|i: int| 0 <= i < s.len())
}

/// How graph construction fails: a repeated name is a `DuplicateKey`
/// carrying that name; with names unique, a dependency naming no task is a
/// `NotFound` carrying the declaring task and the missing name.
pub open spec fn build_error(dv: Seq<ScriptModel>, e: Error) -> bool {
    match e {
        Error::DuplicateKey(n) => !names_unique(dv) && exists|i: int, j: int|
            #![trigger dv[i], dv[j]]
            0 <= i < j < dv.len() && dv[i].name == dv[j].name && dv[j].name == n@,
        Error::NotFound(task, dep) => {
            &&& names_unique(dv)
            &&& !has_name(dv, dep@)
            &&& task matches Some(t)
            &&& exists|i: int, k: int|
                #![trigger dv[i].dependencies[k]]
                0 <= i < dv.len() && 0 <= k < dv[i].dependencies.len() && dv[i].name == t@
                    && dv[i].dependencies[k] == dep@
        },
        _ => false,
    }
}

/// The name `n` belongs to a task of `s` whose index lies in `rset`.
pub open spec fn name_in_set(s: Seq<ScriptModel>, rset: Set<int>, n: Seq<char>) -> bool {
    exists|i: int| 0 <= i < s.len() && rset.contains(i) && n == s[i].name
}

/// The name of the task at index `i` of `s` occurs in `names`.
pub open spec fn name_listed(s: Seq<ScriptModel>, names: Seq<Seq<char>>, i: int) -> bool {
    exists|p: int| 0 <= p < names.len() && names[p] == s[i].name
}

/// The names list the members of `rset`, each member named and nothing
/// else.
pub open spec fn names_list_set(s: Seq<ScriptModel>, rset: Set<int>, names: Seq<Seq<char>>) -> bool {
    &&& names.len() > 0
    &&& forall|p: int| 0 <= p < names.len() ==> name_in_set(s, rset, #[trigger] names[p])
    &&& forall|i: int| #[trigger] rset.contains(i) ==> name_listed(s, names, i)
}

/// What a failed ordering query reports, for the seed index set `seeds`: a
/// `CycleDetected` error naming the members of a blocked set inside the
/// requested closure.
pub open spec fn cycle_error_for(s: Seq<ScriptModel>, seeds: Set<int>, e: Error) -> bool {
    match e {
        Error::CycleDetected(names) => exists|rset: Set<int>|
            #[trigger] blocked_set(s, closure_set(s, seeds), rset) && names_list_set(
                s,
                rset,
                names.deep_view(),
            ),
        _ => false,
    }
}

/// `cycle_error_for`, with the seeds given as tasks rather than indices.
pub open spec fn cycle_error(s: Seq<ScriptModel>, seed_nodes: Seq<ScriptModel>, e: Error) -> bool {
    cycle_error_for(s, seed_set_of_names(s, names_of(seed_nodes)), e)
}

/// The position of the first entry of `ord` lying in `rset`.
proof fn lemma_first_pos_in_set(ord: Seq<int>, rset: Set<int>) -> (p: int)
    requires
        exists|q: int| 0 <= q < ord.len() && rset.contains(#[trigger] ord[q]),
    ensures
        0 <= p < ord.len(),
        rset.contains(ord[p]),
        forall|q: int| 0 <= q < p ==> !rset.contains(#[trigger] ord[q]),
    decreases ord.len(),
{
    if rset.contains(ord[0]) {
        0
    } else {
        let rest = ord.subrange(1, ord.len() as int);
        let q0 = choose|q: int| 0 <= q < ord.len() && rset.contains(#[trigger] ord[q]);
        assert(rest[q0 - 1] == ord[q0]);
        let p0 = lemma_first_pos_in_set(rest, rset);
        assert(rest[p0] == ord[p0 + 1]);
        assert forall|q: int| 0 <= q < p0 + 1 implies !rset.contains(#[trigger] ord[q]) by {
            if q > 0 {
                assert(rest[q - 1] == ord[q]);
            }
        }
        p0 + 1
    }
}

/// A dependency cycle admits no dependency-respecting enumeration: a set
/// with a blocked subset has no valid order at all, so a resolver facing a
/// cyclic closure cannot return a partial or reordered plan — only an
/// error.
pub proof fn lemma_blocked_no_order(
    s: Seq<ScriptModel>,
    t: Set<int>,
    rset: Set<int>,
    ord: Seq<int>,
)
    requires
        blocked_set(s, t, rset),
    ensures
        !is_valid_order(s, t, ord),
{
    if is_valid_order(s, t, ord) {
        // Take the first position the blocked set reaches; its occupant
        // waits on a blocked task, which would have to stand even earlier.
        let i0 = choose|i: int| rset.contains(i);
        assert(t.contains(i0));
        assert(ord.contains(i0));
        let q0 = choose|q: int| 0 <= q < ord.len() && ord[q] == i0;
        assert(rset.contains(ord[q0]));
        let p = lemma_first_pos_in_set(ord, rset);
        assert(blocked_member(rset, ord[p]));
        let j = choose|j: int| rset.contains(j) && depends_on(s, ord[p], j);
        assert(depends_on(s, ord[p], j));
        let q = choose|q: int| 0 <= q < p && ord[q] == j;
        assert(rset.contains(ord[q]));
        assert(false);
    }
}

/// With unique names, a name pins its index down: two indices carrying one
/// name are equal.
pub proof fn lemma_name_unique_index(s: Seq<ScriptModel>, a: int, b: int)
    requires
        names_unique(s),
        0 <= a < s.len(),
        0 <= b < s.len(),
        s[a].name == s[b].name,
    ensures
        a == b,
{
    if a < b {
        assert(s[a].name != s[b].name);
    } else if b < a {
        assert(s[b].name != s[a].name);
    }
}

/// The seed set of the whole task list is every index, and its closure
/// adds nothing.
pub proof fn lemma_all_seeds(s: Seq<ScriptModel>)
    requires
        names_unique(s),
    ensures
        seed_set_of_names(s, names_of(s)) == full_index_set(s),
        closure_set(s, full_index_set(s)) == full_index_set(s),
{
    assert forall|i: int| #[trigger] full_index_set(s).contains(i) implies seed_set_of_names(
        s,
        names_of(s),
    ).contains(i) by {
        assert(names_of(s)[i] == s[i].name);
    }
    assert(seed_set_of_names(s, names_of(s)) =~= full_index_set(s));
    assert forall|i: int| #[trigger] full_index_set(s).contains(i) implies closure_set(
        s,
        full_index_set(s),
    ).contains(i) by {
        lemma_in_closure_seed(s, full_index_set(s), i);
    }
    assert forall|i: int| #[trigger] closure_set(s, full_index_set(s)).contains(i) implies
        full_index_set(s).contains(i) by {
        lemma_in_closure_in_range(s, full_index_set(s), i);
    }
    assert(closure_set(s, full_index_set(s)) =~= full_index_set(s));
}

/// Closing a closure adds nothing: the closure of a closure is itself.
pub proof fn lemma_closure_of_closure(s: Seq<ScriptModel>, seeds: Set<int>)
    ensures
        closure_set(s, closure_set(s, seeds)) == closure_set(s, seeds),
{
    let c = closure_set(s, seeds);
    assert forall|i: int| #[trigger] c.contains(i) implies closure_set(s, c).contains(i) by {
        lemma_in_closure_seed(s, c, i);
    }
    assert forall|i: int| #[trigger] closure_set(s, c).contains(i) implies c.contains(i) by {
        lemma_closure_set_closed(s, seeds);
        assert(c.subset_of(c));
        assert(dep_closed(s, c));
    }
    assert(closure_set(s, c) =~= c);
}

/// A plan over the whole task set has one entry per task.
pub proof fn lemma_full_plan_len(s: Seq<ScriptModel>, plan: Seq<ScriptModel>)
    requires
        names_unique(s),
        ordered_plan(s, full_index_set(s), plan),
    ensures
        plan.len() == s.len(),
{
    lemma_all_seeds(s);
    let cset = closure_set(s, full_index_set(s));
    let ord = choose|ord: Seq<int>|
        #[trigger] is_greedy_order(s, cset, ord) && plan_of_order(s, ord, plan);
    assert forall|p: int, q: int| 0 <= p < ord.len() && 0 <= q < ord.len() && p != q implies ord[p]
        != ord[q] by {
        if p < q {
        } else {
        }
    }
    assert(ord.no_duplicates());
    ord.unique_seq_to_set();
    assert forall|i: int| #[trigger] vstd::set_lib::set_int_range(0, s.len() as int).contains(i)
        implies ord.to_set().contains(i) by {
        assert(cset.contains(i));
        assert(ord.contains(i));
    }
    assert forall|i: int| #[trigger] ord.to_set().contains(i) implies vstd::set_lib::set_int_range(
        0,
        s.len() as int,
    ).contains(i) by {
        assert(ord.contains(i));
        let q = choose|q: int| 0 <= q < ord.len() && ord[q] == i;
        assert(cset.contains(ord[q]));
    }
    assert(ord.to_set() =~= vstd::set_lib::set_int_range(0, s.len() as int));
    vstd::set_lib::lemma_int_range(0, s.len() as int);
}

/// Greedy orders agree position by position as far as both reach.
proof fn lemma_greedy_prefix(
    s: Seq<ScriptModel>,
    t: Set<int>,
    ord1: Seq<int>,
    ord2: Seq<int>,
    p: int,
)
    requires
        is_greedy_order(s, t, ord1),
        is_greedy_order(s, t, ord2),
        0 <= p <= ord1.len(),
        p <= ord2.len(),
    ensures
        ord1.take(p) == ord2.take(p),
    decreases p,
{
    if p == 0 {
        assert(ord1.take(0) =~= ord2.take(0));
    } else {
        lemma_greedy_prefix(s, t, ord1, ord2, p - 1);
        let i1 = ord1[p - 1];
        let i2 = ord2[p - 1];
        // Each occupant of position p-1 is ready there, and readiness only
        // reads the shared prefix, so each bounds the other.
        assert forall|j: int| #[trigger] depends_on(s, i1, j) implies ord1.take(p - 1).contains(
            j,
        ) by {
            let q = choose|q: int| 0 <= q < p - 1 && ord1[q] == j;
            assert(ord1.take(p - 1)[q] == j);
        }
        if ord1.take(p - 1).contains(i1) {
            let q = choose|q: int| 0 <= q < p - 1 && #[trigger] ord1.take(p - 1)[q] == i1;
            assert(ord1[q] == ord1[p - 1]);
            assert(false);
        }
        assert(ready_at(s, t, ord1, p - 1, i1));
        assert(ord2.take(p - 1) == ord1.take(p - 1));
        assert forall|j: int| #[trigger] depends_on(s, i2, j) implies ord2.take(p - 1).contains(
            j,
        ) by {
            let q = choose|q: int| 0 <= q < p - 1 && ord2[q] == j;
            assert(ord2.take(p - 1)[q] == j);
        }
        if ord2.take(p - 1).contains(i2) {
            let q = choose|q: int| 0 <= q < p - 1 && #[trigger] ord2.take(p - 1)[q] == i2;
            assert(ord2[q] == ord2[p - 1]);
            assert(false);
        }
        assert(ready_at(s, t, ord2, p - 1, i2));
        assert(ready_at(s, t, ord2, p - 1, i1));
        assert(ready_at(s, t, ord1, p - 1, i2));
        assert(ord2[p - 1] <= i1);
        assert(ord1[p - 1] <= i2);
        assert(i1 == i2);
        assert(ord1.take(p) =~= ord1.take(p - 1).push(i1));
        assert(ord2.take(p) =~= ord2.take(p - 1).push(i2));
    }
}

/// For one task set and one index set there is at most one greedy order:
/// the ordering queries are functions of the graph and the request.
pub proof fn lemma_greedy_unique(s: Seq<ScriptModel>, t: Set<int>, ord1: Seq<int>, ord2: Seq<int>)
    requires
        is_greedy_order(s, t, ord1),
        is_greedy_order(s, t, ord2),
    ensures
        ord1 == ord2,
{
    if ord1.len() <= ord2.len() {
        lemma_greedy_prefix(s, t, ord1, ord2, ord1.len() as int);
        if ord1.len() < ord2.len() {
            let i = ord2[ord1.len() as int];
            assert(t.contains(i));
            assert(ord1.contains(i));
            let q = choose|q: int| 0 <= q < ord1.len() && ord1[q] == i;
            assert(ord1.take(ord1.len() as int)[q] == i);
            assert(ord2.take(ord1.len() as int)[q] == ord2[q]);
            assert(ord2[q] == i);
            assert(false);
        }
        assert(ord1.take(ord1.len() as int) =~= ord1);
        assert(ord2.take(ord2.len() as int) =~= ord2);
    } else {
        lemma_greedy_prefix(s, t, ord2, ord1, ord2.len() as int);
        let i = ord1[ord2.len() as int];
        assert(t.contains(i));
        assert(ord2.contains(i));
        let q = choose|q: int| 0 <= q < ord2.len() && ord2[q] == i;
        assert(ord2.take(ord2.len() as int)[q] == i);
        assert(ord1.take(ord2.len() as int)[q] == ord1[q]);
        assert(ord1[q] == i);
        assert(false);
    }
}

/// The dependency graph over one task set: the tasks in an arena, and for
/// each task the arena indices of its dependencies.
pub struct GraphBinding {
    nodes: Vec<Script>,
    dep_ids: Vec<Vec<usize>>,
}

impl View for GraphBinding {
    type V = Seq<ScriptModel>;

    closed spec fn view(&self) -> Seq<ScriptModel> {
        self.nodes.deep_view()
    }
}

impl GraphBinding {
    /// The arena and the edge table agree: one edge list per task, one
    /// entry per declared dependency, each pointing at the task whose name
    /// the dependency list mentions — and names are unique, so that entry
    /// is the only possible one.
    #[verifier::type_invariant]
    spec fn wf(&self) -> bool {
        &&& self.dep_ids@.len() == self.nodes@.len()
        &&& names_unique(self.nodes.deep_view())
        &&& forall|i: int|
            0 <= i < self.nodes@.len() ==> (#[trigger] self.dep_ids@[i])@.len()
                == self.nodes.deep_view()[i].dependencies.len()
        &&& forall|i: int, k: int|
            0 <= i < self.nodes@.len() && 0 <= k < self.dep_ids@[i]@.len() ==> (#[trigger] self.dep_ids@[i]@[k])
                < self.nodes@.len() && self.nodes.deep_view()[self.dep_ids@[i]@[k] as int].name
                == self.nodes.deep_view()[i].dependencies[k]
    }

    /// Builds the graph over the given tasks: registers each task under
    /// its name and resolves every declared dependency to its index.
    /// Fails with `DuplicateKey` when two tasks share a name and with
    /// `NotFound` — naming the task and the missing name — when a
    /// dependency names no task; on failure no graph is built.
    pub fn new(nodes: Vec<Script>) -> (r: Result<GraphBinding, Error>)
        ensures
            r matches Ok(g) ==> g@ == nodes.deep_view(),
            r is Ok <==> names_unique(nodes.deep_view()) && deps_present(nodes.deep_view()),
            r matches Err(e) ==> build_error(nodes.deep_view(), e),
    {
        let ghost dv = nodes.deep_view();
        let n = nodes.len();
        proof {
            assert(dv.len() == n);
        }
        // Reject a repeated name before anything else is looked at.
        let mut i: usize = 0;
        while i < n
            invariant
                dv == nodes.deep_view(),
                n == nodes@.len(),
                i <= n,
                forall|p: int, q: int| 0 <= p < q < i ==> dv[p].name != dv[q].name,
            decreases n - i,
        {
            let mut j: usize = 0;
            while j < i
                invariant
                    dv == nodes.deep_view(),
                    n == nodes@.len(),
                    i < n,
                    j <= i,
                    forall|p: int| 0 <= p < j ==> dv[p].name != dv[i as int].name,
                decreases i - j,
            {
                if nodes[j].name == nodes[i].name {
                    proof {
                        assert(dv[j as int].name == nodes@[j as int].name@);
                        assert(dv[i as int].name == nodes@[i as int].name@);
                        assert(!names_unique(dv));
                    }
                    return Err(Error::DuplicateKey(nodes[i].name.clone()));
                }
                j += 1;
            }
            i += 1;
        }
        proof {
            assert(names_unique(dv));
        }
        // Resolve every declared dependency to the index of its task.
        let mut dep_ids: Vec<Vec<usize>> = Vec::new();
        let mut i: usize = 0;
        while i < n
            invariant
                dv == nodes.deep_view(),
                n == nodes@.len(),
                i <= n,
                names_unique(dv),
                dep_ids@.len() == i,
                forall|p: int|
                    0 <= p < i ==> (#[trigger] dep_ids@[p])@.len() == dv[p].dependencies.len(),
                forall|p: int, k: int|
                    0 <= p < i && 0 <= k < dep_ids@[p]@.len() ==> (#[trigger] dep_ids@[p]@[k]) < n
                        && dv[dep_ids@[p]@[k] as int].name == dv[p].dependencies[k],
            decreases n - i,
        {
            let deps_len = nodes[i].dependencies.len();
            let mut ids: Vec<usize> = Vec::new();
            let mut k: usize = 0;
            while k < deps_len
                invariant
                    dv == nodes.deep_view(),
                    n == nodes@.len(),
                    i < n,
                    names_unique(dv),
                    deps_len == dv[i as int].dependencies.len(),
                    k <= deps_len,
                    ids@.len() == k,
                    forall|q: int|
                        0 <= q < k ==> (#[trigger] ids@[q]) < n && dv[ids@[q] as int].name
                            == dv[i as int].dependencies[q],
                decreases deps_len - k,
            {
                proof {
                    assert(dv[i as int].dependencies[k as int]
                        == nodes@[i as int].dependencies@[k as int]@);
                }
                match find_index_by_name(&nodes, &nodes[i].dependencies[k]) {
                    Some(j) => {
                        ids.push(j);
                    },
                    None => {
                        proof {
                            assert(0 <= i < dv.len() && 0 <= k < dv[i as int].dependencies.len()
                                && !has_name(dv, dv[i as int].dependencies[k as int]));
                            assert(!deps_present(dv));
                            assert(dv[i as int].name == nodes@[i as int].name@);
                        }
                        return Err(
                            Error::NotFound(
                                Some(nodes[i].name.clone()),
                                nodes[i].dependencies[k].clone(),
                            ),
                        );
                    },
                }
                k += 1;
            }
            dep_ids.push(ids);
            i += 1;
        }
        proof {
            assert forall|i2: int, k2: int|
                #![trigger dv[i2].dependencies[k2]]
                0 <= i2 < dv.len() && 0 <= k2 < dv[i2].dependencies.len() implies has_name(
                dv,
                dv[i2].dependencies[k2],
            ) by {
                let j2 = dep_ids@[i2]@[k2];
                assert(dv[j2 as int].name == dv[i2].dependencies[k2]);
                assert(0 <= j2 < dv.len());
            }
            assert(deps_present(dv));
        }
        let g = GraphBinding { nodes, dep_ids };
        proof {
            assert(g.wf());
        }
        Ok(g)
    }

    /// Hands out every registered task. The order is the registration
    /// order; callers must not rely on it beyond display.
    pub fn get_all_nodes(&self) -> (r: Vec<Script>)
        ensures
            r.deep_view() == self@,
    {
        let n = self.nodes.len();
        let mut out: Vec<Script> = Vec::new();
        let mut i: usize = 0;
        while i < n
            invariant
                n == self.nodes@.len(),
                i <= n,
                out.deep_view().len() == i,
                forall|k: int| 0 <= k < i ==> out.deep_view()[k] == self@[k],
            decreases n - i,
        {
            let ghost prev = out@;
            let ghost prev_dv = out.deep_view();
            out.push(self.nodes[i].duplicate());
            proof {
                assert forall|k: int| 0 <= k < i + 1 implies out.deep_view()[k] == self@[k] by {
                    if k < i as int {
                        assert(out@[k] == prev[k]);
                        assert(prev_dv[k] == prev[k].deep_view());
                    }
                }
            }
            i += 1;
        }
        proof {
            assert(out.deep_view() =~= self@);
        }
        out
    }

    /// Looks up the task carrying each given name, in request order.
    /// Fails with `NotFound` naming the first key that matches no task;
    /// nothing is handed out in that case.
    pub fn find_nodes_by_keys(&self, keys: Vec<String>) -> (r: Result<Vec<Script>, Error>)
        ensures
            r is Ok <==> (forall|k: int|
                0 <= k < keys.deep_view().len() ==> has_name(self@, #[trigger] keys.deep_view()[k])),
            r matches Ok(v) ==> {
                &&& v.deep_view().len() == keys.deep_view().len()
                &&& forall|k: int|
                    0 <= k < keys.deep_view().len() ==> (#[trigger] v.deep_view()[k]).name
                        == keys.deep_view()[k]
                &&& forall|k: int|
                    0 <= k < keys.deep_view().len() ==> #[trigger] v.deep_view()[k] == self@[
                        index_of_name(self@, keys.deep_view()[k])]
            },
            r matches Err(e) ==> e matches Error::NotFound(task, key) && task is None && !has_name(
                self@,
                key@,
            ) && (exists|k: int|
                #![trigger keys.deep_view()[k]]
                0 <= k < keys.deep_view().len() && keys.deep_view()[k] == key@ && (forall|q: int|
                    0 <= q < k ==> has_name(self@, #[trigger] keys.deep_view()[q]))),
    {
        proof {
            use_type_invariant(self);
        }
        let m = keys.len();
        let mut out: Vec<Script> = Vec::new();
        let mut k: usize = 0;
        while k < m
            invariant
                m == keys@.len(),
                k <= m,
                names_unique(self@),
                out.deep_view().len() == k,
                forall|p: int|
                    0 <= p < k ==> (#[trigger] out.deep_view()[p]).name == keys.deep_view()[p],
                forall|p: int|
                    0 <= p < k ==> #[trigger] out.deep_view()[p] == self@[index_of_name(
                        self@,
                        keys.deep_view()[p],
                    )],
                forall|p: int| 0 <= p < k ==> has_name(self@, #[trigger] keys.deep_view()[p]),
            decreases m - k,
        {
            proof {
                assert(keys.deep_view()[k as int] == keys@[k as int]@);
            }
            match find_index_by_name(&self.nodes, &keys[k]) {
                Some(j) => {
                    let ghost prev = out@;
                    let ghost prev_dv = out.deep_view();
                    out.push(self.nodes[j].duplicate());
                    proof {
                        let ghost key = keys.deep_view()[k as int];
                        assert(self@[j as int] == self.nodes@[j as int].deep_view());
                        assert(self@[j as int].name == key);
                        let i0 = index_of_name(self@, key);
                        assert(0 <= i0 < self@.len() && self@[i0].name == key);
                        assert(i0 == j as int);
                        assert forall|p: int| 0 <= p < k + 1 implies (#[trigger] out.deep_view()[p]).name
                            == keys.deep_view()[p] && out.deep_view()[p] == self@[index_of_name(
                            self@,
                            keys.deep_view()[p],
                        )] by {
                            if p < k as int {
                                assert(out@[p] == prev[p]);
                                assert(prev_dv[p] == prev[p].deep_view());
                            } else {
                                assert(out@[p]@ == self.nodes@[j as int]@);
                                assert(out.deep_view()[p] == self@[j as int]);
                            }
                        }
                    }
                },
                None => {
                    return Err(Error::NotFound(None, keys[k].clone()));
                },
            }
            k += 1;
        }
        Ok(out)
    }

    /// The edge table resolves every declared dependency, so every
    /// dependency name belongs to a task.
    proof fn lemma_wf_deps_present(&self)
        requires
            self.wf(),
        ensures
            deps_present(self@),
    {
        assert forall|i2: int, k2: int|
            #![trigger self@[i2].dependencies[k2]]
            0 <= i2 < self@.len() && 0 <= k2 < self@[i2].dependencies.len() implies has_name(
            self@,
            self@[i2].dependencies[k2],
        ) by {
            let j2 = self.dep_ids@[i2]@[k2];
            assert(self@[j2 as int].name == self@[i2].dependencies[k2]);
            assert(0 <= j2 < self@.len());
        }
    }

    /// An edge of the table really is a declared dependency.
    proof fn lemma_edge_is_dep(&self, i: int, k: int)
        requires
            self.wf(),
            0 <= i < self@.len(),
            0 <= k < self.dep_ids@[i]@.len(),
        ensures
            depends_on(self@, i, self.dep_ids@[i]@[k] as int),
    {
        let j = self.dep_ids@[i]@[k] as int;
        assert(self@[j].name == self@[i].dependencies[k]);
    }

    /// Every declared dependency has its edge in the table.
    proof fn lemma_dep_is_edge(&self, i: int, j: int)
        requires
            self.wf(),
            depends_on(self@, i, j),
        ensures
            exists|k: int|
                0 <= k < self.dep_ids@[i]@.len() && (#[trigger] self.dep_ids@[i]@[k]) as int == j,
    {
        let k = choose|k: int|
            0 <= k < self@[i].dependencies.len() && self@[i].dependencies[k] == self@[j].name;
        let d = self.dep_ids@[i]@[k] as int;
        assert(self@[d].name == self@[i].dependencies[k]);
        lemma_name_unique_index(self@, d, j);
        assert(self.dep_ids@[i]@[k] as int == j);
    }

    /// Marks every task reachable from the seed indices by repeatedly
    /// following dependency edges, the seeds themselves included.
    fn transitive_closure(&self, seeds: &Vec<usize>) -> (marks: Vec<bool>)
        requires
            forall|k: int| 0 <= k < seeds@.len() ==> (#[trigger] seeds@[k]) < self@.len(),
        ensures
            marks@.len() == self@.len(),
            forall|i: int|
                0 <= i < self@.len() ==> ((#[trigger] marks@[i]) <==> in_closure(
                    self@,
                    seed_set(seeds@),
                    i,
                )),
    {
        proof {
            use_type_invariant(self);
        }
        let ghost s = self@;
        let ghost sset = seed_set(seeds@);
        let n = self.nodes.len();
        let mut marks: Vec<bool> = vec![false; n];
        let mut queue: Vec<usize> = Vec::new();
        let mut k: usize = 0;
        while k < seeds.len()
            invariant
                self.wf(),
                s == self@,
                sset == seed_set(seeds@),
                n == s.len(),
                forall|p: int| 0 <= p < seeds@.len() ==> (#[trigger] seeds@[p]) < n,
                k <= seeds@.len(),
                marks@.len() == n,
                forall|q: int| 0 <= q < queue@.len() ==> (#[trigger] queue@[q]) < n,
                forall|i: int| 0 <= i < n && #[trigger] marks@[i] ==> in_closure(s, sset, i),
                forall|q: int| 0 <= q < queue@.len() ==> marks@[(#[trigger] queue@[q]) as int],
                forall|p: int| 0 <= p < k ==> marks@[(#[trigger] seeds@[p]) as int],
                forall|i: int|
                    0 <= i < n && #[trigger] marks@[i] ==> queue@.contains(i as usize),
            decreases seeds@.len() - k,
        {
            let sd = seeds[k];
            let ghost queue0 = queue@;
            if !marks[sd] {
                marks.set(sd, true);
                queue.push(sd);
                proof {
                    assert(sset.contains(sd as int));
                    lemma_in_closure_seed(s, sset, sd as int);
                    assert(queue@[queue@.len() - 1] == sd);
                    assert forall|i: int| 0 <= i < n && #[trigger] marks@[i] implies
                        queue@.contains(i as usize) by {
                        if i != sd as int {
                            lemma_push_preserves_contains(queue0, sd, i as usize);
                        } else {
                            assert(queue@[queue@.len() - 1] == i as usize);
                        }
                    }
                }
            }
            k += 1;
        }
        let ghost count_limit = count_true(marks@);
        proof {
            lemma_count_true_le(marks@);
        }
        while queue.len() > 0
            invariant
                self.wf(),
                s == self@,
                sset == seed_set(seeds@),
                n == s.len(),
                marks@.len() == n,
                forall|p: int| 0 <= p < seeds@.len() ==> (#[trigger] seeds@[p]) < n,
                0 <= count_true(marks@) <= n,
                forall|q: int| 0 <= q < queue@.len() ==> (#[trigger] queue@[q]) < n,
                forall|i: int| 0 <= i < n && #[trigger] marks@[i] ==> in_closure(s, sset, i),
                forall|q: int| 0 <= q < queue@.len() ==> marks@[(#[trigger] queue@[q]) as int],
                forall|p: int| 0 <= p < seeds@.len() ==> marks@[(#[trigger] seeds@[p]) as int],
                forall|i: int|
                    0 <= i < n && #[trigger] marks@[i] ==> queue@.contains(i as usize) || (forall|
                        j: int,
                    | #[trigger] depends_on(s, i, j) ==> marks@[j]),
            decreases n - count_true(marks@), queue@.len(),
        {
            let ghost queue0 = queue@;
            let ghost count0 = count_true(marks@);
            let i = match queue.pop() {
                Some(x) => x,
                None => vstd::pervasive::unreached(),
            };
            proof {
                assert(i == queue0.last());
                assert(queue@ == queue0.drop_last());
                assert(marks@[i as int]);
                assert forall|i2: int|
                    0 <= i2 < n && #[trigger] marks@[i2] && i2 != i as int implies
                    queue@.contains(i2 as usize) || (forall|j: int| #[trigger] depends_on(s, i2, j)
                        ==> marks@[j]) by {
                    if !(forall|j: int| #[trigger] depends_on(s, i2, j) ==> marks@[j]) {
                        assert(queue0.contains(i2 as usize));
                        let q = choose|q: int| 0 <= q < queue0.len() && queue0[q] == i2 as usize;
                        assert(q < queue0.len() - 1);
                        assert(queue@[q] == i2 as usize);
                        assert(queue@.contains(i2 as usize));
                    }
                }
            }
            let deps_count = self.dep_ids[i].len();
            let mut t: usize = 0;
            while t < deps_count
                invariant
                    self.wf(),
                    s == self@,
                    sset == seed_set(seeds@),
                    n == s.len(),
                    marks@.len() == n,
                    forall|p: int| 0 <= p < seeds@.len() ==> (#[trigger] seeds@[p]) < n,
                    i < n,
                    t <= deps_count,
                    deps_count == self.dep_ids@[i as int]@.len(),
                    marks@[i as int],
                    forall|q: int| 0 <= q < queue@.len() ==> (#[trigger] queue@[q]) < n,
                    forall|i2: int| 0 <= i2 < n && #[trigger] marks@[i2] ==> in_closure(s, sset, i2),
                    forall|q: int| 0 <= q < queue@.len() ==> marks@[(#[trigger] queue@[q]) as int],
                    forall|p: int| 0 <= p < seeds@.len() ==> marks@[(#[trigger] seeds@[p]) as int],
                    forall|u: int|
                        0 <= u < t ==> marks@[(#[trigger] self.dep_ids@[i as int]@[u]) as int],
                    forall|i2: int|
                        0 <= i2 < n && #[trigger] marks@[i2] ==> i2 == i as int
                            || queue@.contains(i2 as usize) || (forall|j: int| #[trigger] depends_on(
                            s,
                            i2,
                            j,
                        ) ==> marks@[j]),
                    count0 <= count_true(marks@) <= n,
                    queue@.len() + count0 == queue0.len() - 1 + count_true(marks@),
                decreases deps_count - t,
            {
                let d = self.dep_ids[i][t];
                proof {
                    assert(self.dep_ids@[i as int]@[t as int] == d);
                    self.lemma_edge_is_dep(i as int, t as int);
                }
                if !marks[d] {
                    proof {
                        lemma_count_true_update(marks@, d as int);
                        lemma_in_closure_step(s, sset, i as int, d as int);
                    }
                    let ghost queue1 = queue@;
                    marks.set(d, true);
                    queue.push(d);
                    proof {
                        lemma_count_true_le(marks@);
                        assert(queue@[queue@.len() - 1] == d);
                        assert forall|i2: int| 0 <= i2 < n && #[trigger] marks@[i2] implies i2
                            == i as int || queue@.contains(i2 as usize) || (forall|j: int|
                            #[trigger] depends_on(s, i2, j) ==> marks@[j]) by {
                            if i2 != i as int && i2 != d as int && !(forall|j: int|
                                #[trigger] depends_on(s, i2, j) ==> marks@[j])
                            {
                                lemma_push_preserves_contains(queue1, d, i2 as usize);
                            }
                        }
                    }
                }
                t += 1;
            }
            // All of task i's dependencies are marked now, so the marked set
            // stays closed around i even though i left the queue.
            proof {
                assert forall|j: int| #[trigger] depends_on(s, i as int, j) implies marks@[j] by {
                    self.lemma_dep_is_edge(i as int, j);
                    let ghost edges = self.dep_ids@[i as int]@;
                    let k2 = choose|k2: int|
                        0 <= k2 < edges.len() && (#[trigger] edges[k2]) as int == j;
                    assert(marks@[self.dep_ids@[i as int]@[k2] as int]);
                }
            }
        }
        // The marked set is a dependency-closed superset of the seeds, and
        // everything marked lies in every such set: it is the closure.
        proof {
            assert(dep_closed(s, mark_set(marks@)));
            assert(sset.subset_of(mark_set(marks@)));
            assert forall|i: int| 0 <= i < n implies ((#[trigger] marks@[i]) <==> in_closure(
                s,
                sset,
                i,
            )) by {
                if marks@[i] {
                    assert(in_closure(s, sset, i));
                } else {
                    if in_closure(s, sset, i) {
                        assert(mark_set(marks@).contains(i));
                        assert(false);
                    }
                }
            }
        }
        marks
    }

    /// Whether every dependency of task `i` is already emitted.
    fn deps_emitted(&self, i: usize, emitted: &Vec<bool>) -> (r: bool)
        requires
            i < self@.len(),
            emitted@.len() == self@.len(),
        ensures
            r <==> (forall|j: int| #[trigger] depends_on(self@, i as int, j) ==> emitted@[j]),
    {
        proof {
            use_type_invariant(self);
        }
        let ghost s = self@;
        let deps_count = self.dep_ids[i].len();
        let mut t: usize = 0;
        while t < deps_count
            invariant
                self.wf(),
                s == self@,
                i < s.len(),
                emitted@.len() == s.len(),
                t <= deps_count,
                deps_count == self.dep_ids@[i as int]@.len(),
                forall|u: int|
                    0 <= u < t ==> emitted@[(#[trigger] self.dep_ids@[i as int]@[u]) as int],
            decreases deps_count - t,
        {
            let d = self.dep_ids[i][t];
            proof {
                assert(self.dep_ids@[i as int]@[t as int] == d);
            }
            if !emitted[d] {
                proof {
                    self.lemma_edge_is_dep(i as int, t as int);
                }
                return false;
            }
            t += 1;
        }
        proof {
            assert forall|j: int| #[trigger] depends_on(s, i as int, j) implies emitted@[j] by {
                self.lemma_dep_is_edge(i as int, j);
                let ghost edges = self.dep_ids@[i as int]@;
                let k2 = choose|k2: int| 0 <= k2 < edges.len() && (#[trigger] edges[k2]) as int == j;
                assert(emitted@[edges[k2] as int]);
            }
        }
        true
    }

    /// The lowest-indexed task that could be emitted next, if any.
    fn find_ready(&self, marks: &Vec<bool>, emitted: &Vec<bool>) -> (r: Option<usize>)
        requires
            marks@.len() == self@.len(),
            emitted@.len() == self@.len(),
        ensures
            r matches Some(i) ==> ready_node(self@, marks@, emitted@, i as int) && (forall|i2: int|
                0 <= i2 < i as int ==> !ready_node(self@, marks@, emitted@, i2)),
            r is None ==> forall|i2: int| !ready_node(self@, marks@, emitted@, i2),
    {
        let n = self.nodes.len();
        let mut i: usize = 0;
        while i < n
            invariant
                n == self@.len(),
                marks@.len() == n,
                emitted@.len() == n,
                i <= n,
                forall|i2: int| 0 <= i2 < i ==> !ready_node(self@, marks@, emitted@, i2),
            decreases n - i,
        {
            if marks[i] && !emitted[i] {
                if self.deps_emitted(i, emitted) {
                    return Some(i);
                }
            }
            i += 1;
        }
        None
    }

    /// Emits the marked tasks in dependency order, lowest ready index
    /// first. When every marked task comes out, the order is the greedy
    /// dependency-respecting enumeration of the marked set; otherwise the
    /// tasks that cannot be ordered come back, and they form a blocked
    /// set: a dependency cycle.
    fn kahn(&self, marks: &Vec<bool>) -> (r: Result<Vec<usize>, Vec<usize>>)
        requires
            marks@.len() == self@.len(),
            dep_closed(self@, mark_set(marks@)),
        ensures
            r matches Ok(ord) ==> is_greedy_order(self@, mark_set(marks@), int_seq(ord@)),
            r matches Err(rem) ==> {
                &&& rem@.len() > 0
                &&& forall|p: int| 0 <= p < rem@.len() ==> (#[trigger] rem@[p]) < self@.len()
                &&& blocked_set(self@, mark_set(marks@), seq_to_set(int_seq(rem@)))
            },
    {
        proof {
            use_type_invariant(self);
        }
        let ghost s = self@;
        let ghost mset = mark_set(marks@);
        let n = self.nodes.len();
        let mut emitted: Vec<bool> = vec![false; n];
        let mut order: Vec<usize> = Vec::new();
        let mut active = true;
        proof {
            lemma_count_true_all_false(emitted@);
        }
        while active
            invariant
                self.wf(),
                s == self@,
                mset == mark_set(marks@),
                n == s.len(),
                marks@.len() == n,
                dep_closed(s, mset),
                kahn_inv(s, mset, marks@, emitted@, order@),
                !active ==> (forall|i: int| !ready_node(s, marks@, emitted@, i)),
            decreases n - order@.len() + (if active {
                1int
            } else {
                0int
            }),
        {
            match self.find_ready(marks, &emitted) {
                Some(i) => {
                    proof {
                        lemma_kahn_step(s, mset, marks@, emitted@, order@, i);
                    }
                    emitted.set(i, true);
                    order.push(i);
                },
                None => {
                    active = false;
                },
            }
        }
        // Nothing is ready any more. Either everything marked was emitted,
        // or the leftovers all wait on one another: a cycle.
        let mut rem: Vec<usize> = Vec::new();
        let mut i: usize = 0;
        while i < n
            invariant
                n == s.len(),
                marks@.len() == n,
                emitted@.len() == n,
                i <= n,
                forall|p: int|
                    0 <= p < rem@.len() ==> (#[trigger] rem@[p]) < n && marks@[rem@[p] as int]
                        && !emitted@[rem@[p] as int],
                forall|i2: int|
                    0 <= i2 < i && marks@[i2] && !emitted@[i2] ==> rem@.contains(i2 as usize),
            decreases n - i,
        {
            let ghost rem0 = rem@;
            if marks[i] && !emitted[i] {
                rem.push(i);
            }
            proof {
                assert forall|i2: int| 0 <= i2 < i + 1 && marks@[i2] && !emitted@[i2] implies
                    rem@.contains(i2 as usize) by {
                    if i2 < i as int {
                        lemma_push_preserves_contains(rem0, i, i2 as usize);
                    } else {
                        assert(rem@[rem@.len() - 1] == i2 as usize);
                    }
                }
            }
            i += 1;
        }
        if rem.len() == 0 {
            proof {
                lemma_kahn_complete(s, mset, marks@, emitted@, order@);
            }
            Ok(order)
        } else {
            proof {
                lemma_kahn_blocked(s, mset, marks@, emitted@, rem@);
            }
            Err(rem)
        }
    }

    /// Resolves each seed task to its index; the indices carry exactly
    /// the seed names.
    fn seed_indices(&self, nodes: &Vec<Script>) -> (r: Vec<usize>)
        requires
            forall|k: int|
                0 <= k < nodes.deep_view().len() ==> has_name(
                    self@,
                    (#[trigger] nodes.deep_view()[k]).name,
                ),
        ensures
            forall|p: int| 0 <= p < r@.len() ==> (#[trigger] r@[p]) < self@.len(),
            seed_set(r@) == seed_set_of_names(self@, names_of(nodes.deep_view())),
    {
        proof {
            use_type_invariant(self);
        }
        let ghost s = self@;
        let m = nodes.len();
        let mut seed_ids: Vec<usize> = Vec::new();
        let mut k: usize = 0;
        while k < m
            invariant
                self.wf(),
                s == self@,
                m == nodes@.len(),
                k <= m,
                forall|k2: int|
                    0 <= k2 < nodes.deep_view().len() ==> has_name(
                        s,
                        (#[trigger] nodes.deep_view()[k2]).name,
                    ),
                seed_ids@.len() == k,
                forall|p: int|
                    0 <= p < k ==> (#[trigger] seed_ids@[p]) < s.len()
                        && s[seed_ids@[p] as int].name == nodes.deep_view()[p].name,
            decreases m - k,
        {
            proof {
                assert(nodes.deep_view()[k as int] == nodes@[k as int].deep_view());
            }
            match find_index_by_name(&self.nodes, &nodes[k].name) {
                Some(j) => {
                    seed_ids.push(j);
                },
                None => {
                    proof {
                        assert(false);
                    }
                    return vstd::pervasive::unreached();
                },
            }
            k += 1;
        }
        proof {
            let seeds_g = seed_set_of_names(s, names_of(nodes.deep_view()));
            assert forall|i: int| seed_set(seed_ids@).contains(i) implies seeds_g.contains(i) by {
                let p = choose|p: int| 0 <= p < seed_ids@.len() && seed_ids@[p] == i;
                assert(names_of(nodes.deep_view())[p] == nodes.deep_view()[p].name);
            }
            assert forall|i: int| seeds_g.contains(i) implies seed_set(seed_ids@).contains(i) by {
                let p = choose|p: int|
                    0 <= p < names_of(nodes.deep_view()).len() && names_of(nodes.deep_view())[p]
                        == s[i].name;
                assert(nodes.deep_view()[p].name == s[i].name);
                assert(s[seed_ids@[p] as int].name == s[i].name);
                lemma_name_unique_index(s, seed_ids@[p] as int, i);
                assert(seed_ids@[p] as int == i);
            }
            assert(seed_set(seed_ids@) =~= seeds_g);
        }
        seed_ids
    }

    /// Copies out the tasks at the given indices, in order.
    fn tasks_at(&self, order: &Vec<usize>) -> (plan: Vec<Script>)
        requires
            forall|q: int| 0 <= q < order@.len() ==> (#[trigger] order@[q]) < self@.len(),
        ensures
            plan.deep_view().len() == order@.len(),
            forall|q: int|
                0 <= q < order@.len() ==> (#[trigger] plan.deep_view()[q]) == self@[order@[q] as int],
    {
        let ghost s = self@;
        let mut plan: Vec<Script> = Vec::new();
        let count = order.len();
        let mut p: usize = 0;
        while p < count
            invariant
                s == self@,
                count == order@.len(),
                p <= count,
                forall|q: int| 0 <= q < order@.len() ==> (#[trigger] order@[q]) < s.len(),
                plan.deep_view().len() == p,
                forall|q: int|
                    0 <= q < p ==> (#[trigger] plan.deep_view()[q]) == s[order@[q] as int],
            decreases count - p,
        {
            let ghost prev = plan@;
            let ghost prev_dv = plan.deep_view();
            plan.push(self.nodes[order[p]].duplicate());
            proof {
                assert forall|q: int| 0 <= q < p + 1 implies (#[trigger] plan.deep_view()[q])
                    == s[order@[q] as int] by {
                    if q < p as int {
                        assert(plan@[q] == prev[q]);
                        assert(prev_dv[q] == prev[q].deep_view());
                    } else {
                        assert(plan@[q]@ == self.nodes@[order@[q] as int]@);
                    }
                }
            }
            p += 1;
        }
        plan
    }

    /// Copies out the names of the tasks at the given indices, in order.
    fn names_at(&self, rem: &Vec<usize>) -> (names: Vec<String>)
        requires
            forall|q: int| 0 <= q < rem@.len() ==> (#[trigger] rem@[q]) < self@.len(),
        ensures
            names.deep_view().len() == rem@.len(),
            forall|q: int|
                0 <= q < rem@.len() ==> (#[trigger] names.deep_view()[q]) == self@[rem@[q] as int].name,
    {
        let ghost s = self@;
        let mut names: Vec<String> = Vec::new();
        let count = rem.len();
        let mut p: usize = 0;
        while p < count
            invariant
                s == self@,
                count == rem@.len(),
                p <= count,
                forall|q: int| 0 <= q < rem@.len() ==> (#[trigger] rem@[q]) < s.len(),
                names.deep_view().len() == p,
                forall|q: int|
                    0 <= q < p ==> (#[trigger] names.deep_view()[q]) == s[rem@[q] as int].name,
            decreases count - p,
        {
            let ghost prev = names@;
            let ghost prev_dv = names.deep_view();
            names.push(self.nodes[rem[p]].name.clone());
            proof {
                assert forall|q: int| 0 <= q < p + 1 implies (#[trigger] names.deep_view()[q])
                    == s[rem@[q] as int].name by {
                    if q < p as int {
                        assert(names@[q] == prev[q]);
                        assert(prev_dv[q] == prev[q].deep_view());
                    } else {
                        assert(names@[q]@ == self.nodes@[rem@[q] as int].name@);
                    }
                }
            }
            p += 1;
        }
        names
    }

    /// Orders the transitive closure of the given seed tasks so that every
    /// task stands after all of its dependencies; the closure is computed
    /// here, so the plan holds dependencies the caller never named. Every
    /// seed must be a task of this graph. When the closure cannot be
    /// ordered — a dependency cycle — the query fails with
    /// `CycleDetected` naming the tasks that block one another, and no
    /// partial plan is handed out.
    #[verifier::rlimit(100)]
    pub fn topological_sort(&self, nodes: Vec<Script>) -> (r: Result<Vec<Script>, Error>)
        requires
            forall|k: int|
                0 <= k < nodes.deep_view().len() ==> has_name(
                    self@,
                    (#[trigger] nodes.deep_view()[k]).name,
                ),
        ensures
            r matches Ok(plan) ==> topo_ok(self@, nodes.deep_view(), plan.deep_view()),
            r is Ok <==> !has_cycle_within(
                self@,
                closure_set(self@, seed_set_of_names(self@, names_of(nodes.deep_view()))),
            ),
            r matches Err(e) ==> cycle_error(self@, nodes.deep_view(), e),
    {
        proof {
            use_type_invariant(self);
        }
        let ghost s = self@;
        let ghost seeds_g = seed_set_of_names(s, names_of(nodes.deep_view()));
        let ghost cset = closure_set(s, seeds_g);
        let seed_ids = self.seed_indices(&nodes);
        let marks = self.transitive_closure(&seed_ids);
        proof {
            assert forall|i: int| #[trigger] cset.contains(i) implies mark_set(marks@).contains(
                i,
            ) by {
                lemma_in_closure_in_range(s, seeds_g, i);
            }
            assert forall|i: int| #[trigger] mark_set(marks@).contains(i) implies cset.contains(
                i,
            ) by {
                assert(marks@[i]);
            }
            assert(mark_set(marks@) =~= cset);
            lemma_closure_set_closed(s, seeds_g);
        }
        match self.kahn(&marks) {
            Ok(order) => {
                proof {
                    assert forall|q: int| 0 <= q < order@.len() implies (#[trigger] order@[q])
                        < s.len() by {
                        assert(int_seq(order@)[q] == order@[q] as int);
                        assert(mark_set(marks@).contains(int_seq(order@)[q]));
                    }
                }
                let plan = self.tasks_at(&order);
                proof {
                    let ghost ord = int_seq(order@);
                    let ghost pv = plan.deep_view();
                    assert forall|p2: int| 0 <= p2 < ord.len() implies pv[p2]
                        == s[#[trigger] ord[p2]] by {
                        assert(pv[p2] == s[order@[p2] as int]);
                    }
                    assert(plan_of_order(s, ord, pv));
                    self.lemma_wf_deps_present();
                    assert forall|i: int| #[trigger] cset.contains(i) implies 0 <= i < s.len() by {
                        lemma_in_closure_in_range(s, seeds_g, i);
                    }
                    lemma_plan_from_order(s, cset, ord, pv);
                    assert(topo_ok(s, nodes.deep_view(), pv));
                    // A valid order rules every blocked set out.
                    if has_cycle_within(s, cset) {
                        let rset = choose|r2: Set<int>| #[trigger] blocked_set(s, cset, r2);
                        lemma_blocked_no_order(s, cset, rset, ord);
                    }
                }
                Ok(plan)
            },
            Err(rem) => {
                let ghost rset = seq_to_set(int_seq(rem@));
                let names = self.names_at(&rem);
                proof {
                    let nv = names.deep_view();
                    assert forall|p2: int| 0 <= p2 < nv.len() implies name_in_set(
                        s,
                        rset,
                        #[trigger] nv[p2],
                    ) by {
                        assert(int_seq(rem@)[p2] == rem@[p2] as int);
                        assert(rset.contains(rem@[p2] as int));
                        assert(nv[p2] == s[rem@[p2] as int].name);
                    }
                    assert forall|i: int| #[trigger] rset.contains(i) implies name_listed(
                        s,
                        nv,
                        i,
                    ) by {
                        let q = choose|q: int|
                            0 <= q < int_seq(rem@).len() && int_seq(rem@)[q] == i;
                        assert(rem@[q] as int == i);
                        assert(nv[q] == s[i].name);
                    }
                    assert(int_seq(rem@)[0] == rem@[0] as int);
                    assert(rset.contains(rem@[0] as int));
                    assert(names_list_set(s, rset, nv));
                    assert(blocked_set(s, cset, rset));
                }
                Err(Error::CycleDetected(names))
            },
        }
    }
}

/// Pushing keeps every member a member.
proof fn lemma_push_preserves_contains(q0: Seq<usize>, v: usize, x: usize)
    requires
        q0.contains(x),
    ensures
        q0.push(v).contains(x),
{
    let q = choose|q: int| 0 <= q < q0.len() && q0[q] == x;
    assert(q0.push(v)[q] == x);
}

/// The indices marked `true`.
pub open spec fn mark_set(marks: Seq<bool>) -> Set<int> {
    Set::new(|i: int| 0 <= i < marks.len() && marks[i])
}

/// The members of an index list, as a set.
pub open spec fn seed_set(seeds: Seq<usize>) -> Set<int> {
    Set::new(|i: int| exists|k: int| 0 <= k < seeds.len() && seeds[k] == i)
}

/// How many entries are `true`.
pub open spec fn count_true(s: Seq<bool>) -> int
    decreases s.len(),
{
    if s.len() == 0 {
        0
    } else {
        count_true(s.drop_last()) + if s.last() {
            1int
        } else {
            0int
        }
    }
}

proof fn lemma_count_true_le(s: Seq<bool>)
    ensures
        0 <= count_true(s) <= s.len(),
    decreases s.len(),
{
    if s.len() > 0 {
        lemma_count_true_le(s.drop_last());
    }
}

proof fn lemma_count_true_update(s: Seq<bool>, i: int)
    requires
        0 <= i < s.len(),
        !s[i],
    ensures
        count_true(s.update(i, true)) == count_true(s) + 1,
    decreases s.len(),
{
    let u = s.update(i, true);
    if i == s.len() - 1 {
        assert(u.drop_last() =~= s.drop_last());
    } else {
        assert(u.drop_last() =~= s.drop_last().update(i, true));
        lemma_count_true_update(s.drop_last(), i);
    }
}

/// A seed is in the closure of its seed set.
proof fn lemma_in_closure_seed(s: Seq<ScriptModel>, seeds: Set<int>, i: int)
    requires
        seeds.contains(i),
    ensures
        in_closure(s, seeds, i),
{
    assert forall|t: Set<int>| seeds.subset_of(t) && dep_closed(s, t) implies t.contains(i) by {
        assert(seeds.contains(i));
    }
}

/// Closure members are graph indices, provided the seeds are.
pub proof fn lemma_in_closure_in_range(s: Seq<ScriptModel>, seeds: Set<int>, i: int)
    requires
        in_closure(s, seeds, i),
        forall|x: int| #[trigger] seeds.contains(x) ==> 0 <= x < s.len(),
    ensures
        0 <= i < s.len(),
{
    let t = Set::new(|x: int| 0 <= x < s.len());
    assert(seeds.subset_of(t));
    assert(dep_closed(s, t));
    assert(t.contains(i));
}

/// A plan spelled out from a greedy order over a closure respects
/// dependencies, repeats no name, and lists exactly the closure's tasks.
#[verifier::rlimit(100)]
proof fn lemma_plan_from_order(
    s: Seq<ScriptModel>,
    cset: Set<int>,
    ord: Seq<int>,
    pv: Seq<ScriptModel>,
)
    requires
        names_unique(s),
        deps_present(s),
        is_greedy_order(s, cset, ord),
        plan_of_order(s, ord, pv),
        forall|i: int| #[trigger] cset.contains(i) ==> 0 <= i < s.len(),
    ensures
        deps_respected(pv),
        names_unique(pv),
        forall|j: int| 0 <= j < pv.len() ==> task_in_set(s, cset, #[trigger] pv[j]),
        forall|i: int| #[trigger] cset.contains(i) ==> task_listed(s, pv, i),
{
    assert forall|p2: int, k2: int|
        0 <= p2 < pv.len() && 0 <= k2 < pv[p2].dependencies.len() implies #[trigger] dep_before(
        pv,
        p2,
        k2,
    ) by {
        let i = ord[p2];
        assert(cset.contains(i));
        assert(pv[p2] == s[i]);
        let d = s[i].dependencies[k2];
        assert(has_name(s, d));
        let j = choose|j: int| 0 <= j < s.len() && s[j].name == d;
        assert(depends_on(s, i, j));
        let q = choose|q: int| 0 <= q < p2 && ord[q] == j;
        assert(pv[q].name == d);
    }
    assert forall|p2: int, q2: int| 0 <= p2 < q2 < pv.len() implies pv[p2].name != pv[q2].name by {
        assert(cset.contains(ord[p2]));
        assert(cset.contains(ord[q2]));
        if pv[p2].name == pv[q2].name {
            lemma_name_unique_index(s, ord[p2], ord[q2]);
        }
    }
    assert forall|j: int| 0 <= j < pv.len() implies task_in_set(s, cset, #[trigger] pv[j]) by {
        assert(cset.contains(ord[j]));
        assert(pv[j] == s[ord[j]]);
    }
    assert forall|i: int| #[trigger] cset.contains(i) implies task_listed(s, pv, i) by {
        assert(ord.contains(i));
        let q = choose|q: int| 0 <= q < ord.len() && ord[q] == i;
        assert(pv[q] == s[i]);
    }
}

/// The closure of any seed set is dependency-closed.
proof fn lemma_closure_set_closed(s: Seq<ScriptModel>, seeds: Set<int>)
    ensures
        dep_closed(s, closure_set(s, seeds)),
{
    assert forall|i: int, j: int|
        closure_set(s, seeds).contains(i) && #[trigger] depends_on(s, i, j) implies closure_set(
        s,
        seeds,
    ).contains(j) by {
        lemma_in_closure_step(s, seeds, i, j);
    }
}

/// The closure is closed: whatever a member depends on is a member.
proof fn lemma_in_closure_step(s: Seq<ScriptModel>, seeds: Set<int>, i: int, j: int)
    requires
        in_closure(s, seeds, i),
        depends_on(s, i, j),
    ensures
        in_closure(s, seeds, j),
{
    assert forall|t: Set<int>| seeds.subset_of(t) && dep_closed(s, t) implies t.contains(j) by {
        assert(t.contains(i));
        assert(depends_on(s, i, j));
    }
}

/// Task `i` could be emitted next: it is in the set, unemitted, and all
/// its dependencies are emitted.
pub open spec fn ready_node(
    s: Seq<ScriptModel>,
    marks: Seq<bool>,
    emitted: Seq<bool>,
    i: int,
) -> bool {
    &&& 0 <= i < s.len()
    &&& marks[i]
    &&& !emitted[i]
    &&& forall|j: int| #[trigger] depends_on(s, i, j) ==> emitted[j]
}

/// Mapping to mathematical integers commutes with `push`.
proof fn lemma_int_seq_push(v: Seq<usize>, x: usize)
    ensures
        int_seq(v.push(x)) == int_seq(v).push(x as int),
{
    assert(int_seq(v.push(x)) =~= int_seq(v).push(x as int));
}

proof fn lemma_count_true_all_false(s: Seq<bool>)
    requires
        forall|i: int| 0 <= i < s.len() ==> !s[i],
    ensures
        count_true(s) == 0,
    decreases s.len(),
{
    if s.len() > 0 {
        lemma_count_true_all_false(s.drop_last());
    }
}

/// What holds between emissions: the emitted tasks are exactly the order's
/// entries, each a marked task standing after all its dependencies, and
/// the order so far is greedy.
spec fn kahn_inv(
    s: Seq<ScriptModel>,
    mset: Set<int>,
    marks: Seq<bool>,
    emitted: Seq<bool>,
    order: Seq<usize>,
) -> bool {
    &&& s.len() <= usize::MAX
    &&& marks.len() == s.len()
    &&& emitted.len() == s.len()
    &&& count_true(emitted) == order.len()
    &&& order.len() <= s.len()
    &&& forall|p: int|
        0 <= p < order.len() ==> (#[trigger] order[p]) < s.len() && marks[order[p] as int]
            && emitted[order[p] as int]
    &&& forall|i: int| 0 <= i < s.len() && #[trigger] emitted[i] ==> order.contains(i as usize)
    &&& forall|p: int, q: int| 0 <= p < q < order.len() ==> order[p] != order[q]
    &&& forall|p: int, j: int|
        0 <= p < order.len() && #[trigger] depends_on(s, order[p] as int, j) ==> exists|q: int|
            0 <= q < p && order[q] as int == j
    &&& forall|p: int, i: int|
        0 <= p < order.len() && #[trigger] ready_at(s, mset, int_seq(order), p, i)
            ==> order[p] as int <= i
}

/// Emitting the lowest-indexed ready task keeps the invariant.
proof fn lemma_kahn_step(
    s: Seq<ScriptModel>,
    mset: Set<int>,
    marks: Seq<bool>,
    emitted: Seq<bool>,
    order: Seq<usize>,
    i: usize,
)
    requires
        kahn_inv(s, mset, marks, emitted, order),
        mset == mark_set(marks),
        ready_node(s, marks, emitted, i as int),
        forall|i2: int| 0 <= i2 < i as int ==> !ready_node(s, marks, emitted, i2),
    ensures
        kahn_inv(s, mset, marks, emitted.update(i as int, true), order.push(i)),
{
    let emitted1 = emitted.update(i as int, true);
    let order1 = order.push(i);
    lemma_count_true_update(emitted, i as int);
    lemma_count_true_le(emitted1);
    lemma_int_seq_push(order, i);
    assert(int_seq(order1).take(order.len() as int) =~= int_seq(order));
    assert(order1[order.len() as int] == i);
    assert forall|i2: int| 0 <= i2 < s.len() && #[trigger] emitted1[i2] implies order1.contains(
        i2 as usize,
    ) by {
        if i2 == i as int {
            assert(order1[order1.len() - 1] == i2 as usize);
        } else {
            assert(emitted[i2]);
            lemma_push_preserves_contains(order, i, i2 as usize);
        }
    }
    // Dependencies of the new entry already stand earlier.
    assert forall|p: int, j: int|
        0 <= p < order1.len() && #[trigger] depends_on(s, order1[p] as int, j) implies exists|
        q: int,
    | 0 <= q < p && order1[q] as int == j by {
        if p < order.len() {
            assert(order1[p] == order[p]);
            assert(depends_on(s, order[p] as int, j));
            let q = choose|q: int| 0 <= q < p && order[q] as int == j;
            assert(order1[q] as int == j);
        } else {
            assert(order1[p] as int == i as int);
            assert(emitted[j]);
            assert(order.contains(j as usize));
            let q = choose|q: int| 0 <= q < order.len() && order[q] == j as usize;
            assert(order1[q] as int == j);
        }
    }
    // Whatever is ready at the new position was a ready node before this
    // emission, so the scan's choice is least.
    assert forall|p: int, i2: int|
        0 <= p < order1.len() && #[trigger] ready_at(s, mset, int_seq(order1), p, i2) implies
        order1[p] as int <= i2 by {
        if p < order.len() {
            assert(int_seq(order1).take(p) =~= int_seq(order).take(p));
            assert(ready_at(s, mset, int_seq(order), p, i2));
        } else {
            assert(mset.contains(i2));
            assert(marks[i2]);
            if emitted[i2] {
                assert(order.contains(i2 as usize));
                let q = choose|q: int| 0 <= q < order.len() && order[q] == i2 as usize;
                assert(int_seq(order1).take(p)[q] == i2);
                assert(int_seq(order1).take(p).contains(i2));
                assert(false);
            }
            assert forall|j: int| #[trigger] depends_on(s, i2, j) implies emitted[j] by {
                assert(int_seq(order1).take(p).contains(j));
                let q = choose|q: int| 0 <= q < p && int_seq(order1).take(p)[q] == j;
                assert(order[q] as int == j);
                assert(emitted[order[q] as int]);
            }
            assert(ready_node(s, marks, emitted, i2));
        }
    }
}

/// When every marked task is emitted, the order is the greedy enumeration
/// of the whole marked set.
proof fn lemma_kahn_complete(
    s: Seq<ScriptModel>,
    mset: Set<int>,
    marks: Seq<bool>,
    emitted: Seq<bool>,
    order: Seq<usize>,
)
    requires
        kahn_inv(s, mset, marks, emitted, order),
        mset == mark_set(marks),
        forall|i: int| 0 <= i < s.len() && #[trigger] marks[i] ==> emitted[i],
    ensures
        is_greedy_order(s, mset, int_seq(order)),
{
    assert forall|i2: int| #[trigger] mset.contains(i2) implies int_seq(order).contains(i2) by {
        assert(marks[i2] && emitted[i2]);
        assert(order.contains(i2 as usize));
        let q = choose|q: int| 0 <= q < order.len() && order[q] == i2 as usize;
        assert(int_seq(order)[q] == i2);
    }
    assert forall|p: int, j: int|
        0 <= p < int_seq(order).len() && #[trigger] depends_on(s, int_seq(order)[p], j) implies
        exists|q: int| 0 <= q < p && int_seq(order)[q] == j by {
        assert(depends_on(s, order[p] as int, j));
        let q = choose|q: int| 0 <= q < p && order[q] as int == j;
        assert(int_seq(order)[q] == j);
    }
    assert(is_valid_order(s, mset, int_seq(order)));
}

/// When nothing is ready and marked tasks remain, the remainder is a
/// blocked set: everything in it waits on something in it.
proof fn lemma_kahn_blocked(
    s: Seq<ScriptModel>,
    mset: Set<int>,
    marks: Seq<bool>,
    emitted: Seq<bool>,
    rem: Seq<usize>,
)
    requires
        s.len() <= usize::MAX,
        marks.len() == s.len(),
        emitted.len() == s.len(),
        mset == mark_set(marks),
        dep_closed(s, mset),
        forall|i: int| !ready_node(s, marks, emitted, i),
        rem.len() > 0,
        forall|p: int|
            0 <= p < rem.len() ==> (#[trigger] rem[p]) < s.len() && marks[rem[p] as int]
                && !emitted[rem[p] as int],
        forall|i2: int|
            0 <= i2 < s.len() && marks[i2] && !emitted[i2] ==> rem.contains(i2 as usize),
    ensures
        blocked_set(s, mset, seq_to_set(int_seq(rem))),
{
    let rset = seq_to_set(int_seq(rem));
    assert forall|i2: int| #[trigger] rset.contains(i2) implies mset.contains(i2) by {
        let q = choose|q: int| 0 <= q < int_seq(rem).len() && int_seq(rem)[q] == i2;
        assert(rem[q] as int == i2);
        assert(marks[i2]);
    }
    assert(rset.subset_of(mset));
    assert forall|i2: int| #[trigger] blocked_member(rset, i2) implies exists|j: int|
        rset.contains(j) && depends_on(s, i2, j) by {
        assert(rset.contains(i2));
        let q = choose|q: int| 0 <= q < int_seq(rem).len() && int_seq(rem)[q] == i2;
        assert(rem[q] as int == i2);
        assert(marks[i2] && !emitted[i2]);
        assert(mset.contains(i2));
        // Unemitted and in the set, yet not ready: some dependency is
        // unemitted, and it is marked because the set is closed.
        assert(!ready_node(s, marks, emitted, i2));
        let j = choose|j: int| #[trigger] depends_on(s, i2, j) && !emitted[j];
        assert(mset.contains(j));
        assert(marks[j] && !emitted[j]);
        assert(rem.contains(j as usize));
        let q2 = choose|q2: int| 0 <= q2 < rem.len() && rem[q2] == j as usize;
        assert(int_seq(rem)[q2] == j);
        assert(rset.contains(j));
    }
    assert(rem[0] as int == int_seq(rem)[0]);
    assert(rset.contains(int_seq(rem)[0]));
}

/// The index of the task named `name`, scanning from the front.
fn find_index_by_name(nodes: &Vec<Script>, name: &String) -> (r: Option<usize>)
    ensures
        r matches Some(j) ==> j < nodes.deep_view().len() && nodes.deep_view()[j as int].name
            == name@,
        r is None ==> !has_name(nodes.deep_view(), name@),
{
    let n = nodes.len();
    let mut j: usize = 0;
    while j < n
        invariant
            n == nodes@.len(),
            j <= n,
            forall|p: int| 0 <= p < j ==> nodes.deep_view()[p].name != name@,
        decreases n - j,
    {
        proof {
            assert(nodes.deep_view()[j as int] == nodes@[j as int].deep_view());
        }
        if nodes[j].name == *name {
            return Some(j);
        }
        j += 1;
    }
    None
}

} // verus!
