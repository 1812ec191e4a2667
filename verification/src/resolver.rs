//! The resolver: a thin façade over the dependency graph that turns a
//! requested name set — or the whole task set — into an execution plan.

use vstd::prelude::*;

use crate::error::Error;
use crate::graph_binding::{
    build_error, closure_set, cycle_error_for, deps_present, deps_respected, full_index_set,
    has_cycle_within, has_name, is_greedy_order, lemma_all_seeds, lemma_closure_of_closure,
    lemma_full_plan_len, lemma_greedy_unique, lemma_in_closure_in_range, lemma_name_unique_index,
    names_of, names_unique, ordered_plan, plan_of_order, seed_set_of_names, task_in_set,
    task_listed, GraphBinding,
};
use crate::script::{Script, ScriptModel};

verus! {

/// What a successful `resolve` promises: a plan enumerating exactly the
/// transitive closure of the requested names, dependencies first, in the
/// one greedy order — and every requested name names a task.
pub open spec fn resolve_ok(
    s: Seq<ScriptModel>,
    keys: Seq<Seq<char>>,
    plan: Seq<ScriptModel>,
) -> bool {
    &&& ordered_plan(s, seed_set_of_names(s, keys), plan)
    &&& forall|k: int| 0 <= k < keys.len() ==> has_name(s, #[trigger] keys[k])
}

/// What a successful `resolve_all` promises: a permutation of the whole
/// task set in which every task stands after all of its dependencies, in
/// the one greedy order.
pub open spec fn resolve_all_ok(s: Seq<ScriptModel>, plan: Seq<ScriptModel>) -> bool {
    &&& plan.len() == s.len()
    &&& deps_respected(plan)
    &&& names_unique(plan)
    &&& forall|i: int| 0 <= i < s.len() ==> task_listed(s, plan, i)
    &&& forall|j: int| 0 <= j < plan.len() ==> task_in_set(s, full_index_set(s), #[trigger] plan[j])
    &&& (exists|ord: Seq<int>|
        #[trigger] is_greedy_order(s, full_index_set(s), ord) && plan_of_order(s, ord, plan))
}

/// Resolves requested task names into dependency-respecting execution
/// plans. Built once over an immutable task set; both queries are
/// read-only, so the resolver can serve any number of them.
pub struct Resolver {
    graph_binding: GraphBinding,
}

impl View for Resolver {
    type V = Seq<ScriptModel>;

    closed spec fn view(&self) -> Seq<ScriptModel> {
        self.graph_binding@
    }
}

impl Resolver {
    /// A resolver only ever exists over a validated task set: unique
    /// names, every dependency name present.
    #[verifier::type_invariant]
    spec fn wf(&self) -> bool {
        names_unique(self.graph_binding@) && deps_present(self.graph_binding@)
    }

    /// Builds a resolver over the given tasks, validating the set: names
    /// must be unique (`DuplicateKey` otherwise) and every dependency name
    /// must belong to a task (`NotFound` otherwise, naming the declaring
    /// task and the missing name). On failure no resolver exists, so no
    /// partial graph can ever be queried.
    pub fn new(nodes: Vec<Script>) -> (r: Result<Resolver, Error>)
        ensures
            r matches Ok(g) ==> g@ == nodes.deep_view(),
            r is Ok <==> names_unique(nodes.deep_view()) && deps_present(nodes.deep_view()),
            r matches Err(e) ==> build_error(nodes.deep_view(), e),
    {
        match GraphBinding::new(nodes) {
            Ok(graph_binding) => Ok(Resolver { graph_binding }),
            Err(e) => Err(e),
        }
    }

    /// Resolves the named tasks: every requested name must belong to a
    /// task (`NotFound` naming the offending key otherwise), and the plan
    /// covers the requested tasks and everything they transitively depend
    /// on, dependencies first. A cycle inside that closure fails with
    /// `CycleDetected`; no partial plan is handed out.
    pub fn resolve(&self, keys: Vec<String>) -> (r: Result<Vec<Script>, Error>)
        ensures
            r matches Ok(plan) ==> resolve_ok(self@, keys.deep_view(), plan.deep_view()),
            r is Ok <==> (forall|k: int|
                0 <= k < keys.deep_view().len() ==> has_name(self@, #[trigger] keys.deep_view()[k]))
                && !has_cycle_within(
                self@,
                closure_set(self@, seed_set_of_names(self@, keys.deep_view())),
            ),
            r matches Err(e) ==> match e {
                Error::NotFound(task, key) => task is None && !has_name(self@, key@) && (exists|
                    k: int,
                |
                    #![trigger keys.deep_view()[k]]
                    0 <= k < keys.deep_view().len() && keys.deep_view()[k] == key@ && (forall|
                        q: int,
                    | 0 <= q < k ==> has_name(self@, #[trigger] keys.deep_view()[q]))),
                Error::CycleDetected(_) => cycle_error_for(
                    self@,
                    seed_set_of_names(self@, keys.deep_view()),
                    e,
                ),
                _ => false,
            },
    {
        let ghost s = self@;
        let ghost kv = keys.deep_view();
        match self.graph_binding.find_nodes_by_keys(keys) {
            Ok(nodes) => {
                proof {
                    assert forall|p: int| 0 <= p < names_of(nodes.deep_view()).len() implies
                        names_of(nodes.deep_view())[p] == kv[p] by {
                        assert(names_of(nodes.deep_view())[p] == nodes.deep_view()[p].name);
                    }
                    assert(names_of(nodes.deep_view()) =~= kv);
                }
                self.resolve_nodes(nodes)
            },
            Err(e) => Err(e),
        }
    }

    /// Resolves the whole task set into one plan: a permutation of every
    /// task in which each stands after all of its dependencies. A cycle
    /// anywhere in the set fails with `CycleDetected`; no partial plan is
    /// handed out.
    pub fn resolve_all(&self) -> (r: Result<Vec<Script>, Error>)
        ensures
            r matches Ok(plan) ==> resolve_all_ok(self@, plan.deep_view()),
            r is Ok <==> !has_cycle_within(self@, full_index_set(self@)),
            r matches Err(e) ==> cycle_error_for(self@, full_index_set(self@), e),
    {
        let ghost s = self@;
        let nodes = self.graph_binding.get_all_nodes();
        proof {
            use_type_invariant(self);
            assert forall|k: int| 0 <= k < nodes.deep_view().len() implies has_name(
                s,
                (#[trigger] nodes.deep_view()[k]).name,
            ) by {
                assert(nodes.deep_view()[k] == s[k]);
            }
            assert(names_of(nodes.deep_view()) =~= names_of(s));
            lemma_all_seeds(s);
        }
        match self.resolve_nodes(nodes) {
            Ok(plan) => {
                proof {
                    let pv = plan.deep_view();
                    let seeds2 = seed_set_of_names(s, names_of(nodes.deep_view()));
                    assert(names_of(nodes.deep_view()) == names_of(s));
                    assert(closure_set(s, seeds2) == full_index_set(s));
                    assert(ordered_plan(s, full_index_set(s), pv));
                    lemma_full_plan_len(s, pv);
                    assert forall|i: int| 0 <= i < s.len() implies task_listed(s, pv, i) by {
                        assert(full_index_set(s).contains(i));
                        assert(closure_set(s, seeds2).contains(i));
                    }
                    assert(resolve_all_ok(s, pv));
                }
                Ok(plan)
            },
            Err(e) => Err(e),
        }
    }

    /// Orders the given tasks and their transitive dependencies.
    fn resolve_nodes(&self, nodes: Vec<Script>) -> (r: Result<Vec<Script>, Error>)
        requires
            forall|k: int|
                0 <= k < nodes.deep_view().len() ==> has_name(
                    self@,
                    (#[trigger] nodes.deep_view()[k]).name,
                ),
        ensures
            r matches Ok(plan) ==> ordered_plan(
                self@,
                seed_set_of_names(self@, names_of(nodes.deep_view())),
                plan.deep_view(),
            ),
            r is Ok <==> !has_cycle_within(
                self@,
                closure_set(self@, seed_set_of_names(self@, names_of(nodes.deep_view()))),
            ),
            r matches Err(e) ==> e matches Error::CycleDetected(_) && cycle_error_for(
                self@,
                seed_set_of_names(self@, names_of(nodes.deep_view())),
                e,
            ),
    {
        self.graph_binding.topological_sort(nodes)
    }
}

/// Resolution is idempotent: resolving the names of a resolved plan yields
/// that plan again, sequence for sequence. The first plan's names seed
/// exactly its own closure, closures are closed, and one closure has one
/// greedy enumeration.
pub proof fn lemma_resolve_idempotent(
    s: Seq<ScriptModel>,
    keys: Seq<Seq<char>>,
    plan1: Seq<ScriptModel>,
    plan2: Seq<ScriptModel>,
)
    requires
        names_unique(s),
        resolve_ok(s, keys, plan1),
        resolve_ok(s, names_of(plan1), plan2),
    ensures
        plan2 == plan1,
{
    let seeds1 = seed_set_of_names(s, keys);
    let c = closure_set(s, seeds1);
    let ord1 = choose|ord: Seq<int>|
        #[trigger] is_greedy_order(s, c, ord) && plan_of_order(s, ord, plan1);
    let seeds2 = seed_set_of_names(s, names_of(plan1));
    // The names of the first plan name exactly the closure's tasks.
    assert forall|i: int| #[trigger] seeds2.contains(i) implies c.contains(i) by {
        let k = choose|k: int|
            0 <= k < names_of(plan1).len() && #[trigger] names_of(plan1)[k] == s[i].name;
        assert(plan1[k].name == s[i].name);
        assert(plan1[k] == s[ord1[k]]);
        assert(c.contains(ord1[k]));
        lemma_name_unique_index(s, ord1[k], i);
    }
    assert forall|i: int| #[trigger] c.contains(i) implies seeds2.contains(i) by {
        assert(ord1.contains(i));
        let q = choose|q: int| 0 <= q < ord1.len() && ord1[q] == i;
        assert(plan1[q] == s[i]);
        assert(names_of(plan1)[q] == s[i].name);
        lemma_in_closure_in_range(s, seeds1, i);
    }
    assert(seeds2 =~= c);
    lemma_closure_of_closure(s, seeds1);
    assert(closure_set(s, seeds2) == c);
    let ord2 = choose|ord: Seq<int>|
        #[trigger] is_greedy_order(s, closure_set(s, seeds2), ord) && plan_of_order(s, ord, plan2);
    lemma_greedy_unique(s, c, ord1, ord2);
    assert forall|p: int| 0 <= p < plan1.len() implies plan1[p] == plan2[p] by {
        assert(plan1[p] == s[ord1[p]]);
        assert(plan2[p] == s[ord2[p]]);
    }
    assert(plan2 =~= plan1);
}

} // verus!
