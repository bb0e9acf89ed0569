//! The workspace builder's precomputed transitive dependencies, and the
//! queries for projects and tasks that the task builder makes of it.

use vstd::prelude::*;
use rustc_hash::FxHashMap;
use crate::build_data::{
    ProjectBuildData, ProjectDependsOn, ProjectView, Target, TargetScopeView, TargetView, TaskBuildData, TaskOptions,
    declared_dependencies, dependency_id, law_unique_resolution, resolves_to, resolves_uniquely,
};
use crate::dep_graph::{
    dependency_walk, direct_dependencies, not_in, walk, walk_well_formed, depends_directly, depends_transitively, known_dependencies, lemma_closed_set_holds_transitive,
    lemma_direct_is_transitive, lemma_extend, lemma_known_dependencies, lemma_transitive_target_exists,
    transitive_dependencies,
};
use crate::fx::{
    contains_id, contains_project, get_id_list, id_lists_of, id_set_of, ids_view, insert_id,
    insert_id_list, new_id_lists, new_id_set, project_entries, projects_of, task_entries, tasks_of,
};

verus! {

proof fn lemma_ids_view_push(ids: Seq<String>, id: String)
    ensures
        ids_view(ids.push(id)) == ids_view(ids).push(id@),
{
    assert(ids_view(ids.push(id)) =~= ids_view(ids).push(id@));
}

/// A copy of a list of ids.
fn copy_ids(ids: &Vec<String>) -> (copy: Vec<String>)
    ensures
        ids_view(copy@) == ids_view(ids@),
{
    let mut copy: Vec<String> = Vec::new();
    for i in 0..ids.len()
        invariant
            ids_view(copy@) == ids_view(ids@).take(i as int),
    {
        proof {
            lemma_ids_view_push(copy@, ids@[i as int]);
        }
        copy.push(ids[i].clone());
        assert(ids_view(ids@).take(i + 1) =~= ids_view(ids@).take(i as int).push(ids@[i as int]@));
    }
    assert(ids_view(ids@).take(ids.len() as int) =~= ids_view(ids@));
    copy
}

/// The ids of the declared dependencies of `data` that name a project of
/// `project_data`, in the order in which they are declared.
fn known_dependency_ids(project_data: &FxHashMap<String, ProjectBuildData>, data: &ProjectBuildData) -> (deps: Vec<String>)
    ensures
        ids_view(deps@) == known_dependencies(projects_of(*project_data), data@),
{
    let mut deps: Vec<String> = Vec::new();
    let ghost pred = |dep: Seq<char>| projects_of(*project_data).contains_key(dep);
    match &data.config {
        None => {
            assert(ids_view(deps@) =~= Seq::<Seq<char>>::empty());
            assert(declared_dependencies(data@).filter(pred) =~= Seq::<Seq<char>>::empty()) by {
                reveal(Seq::filter);
            }
        },
        Some(config) => {
            let ghost declared = declared_dependencies(data@);
            assert(declared.take(0) =~= Seq::<Seq<char>>::empty());
            assert(declared.take(0).filter(pred) =~= Seq::<Seq<char>>::empty()) by {
                reveal(Seq::filter);
            }
            assert(ids_view(deps@) =~= Seq::<Seq<char>>::empty());
            for i in 0..config.depends_on.len()
                invariant
                    declared == config.depends_on@.map_values(|dep: ProjectDependsOn| dependency_id(dep)),
                    pred == (|dep: Seq<char>| projects_of(*project_data).contains_key(dep)),
                    ids_view(deps@) == declared.take(i as int).filter(pred),
            {
                let dep_id = config.depends_on[i].id();
                proof {
                    assert(declared.take(i + 1) =~= declared.take(i as int).push(declared[i as int]));
                    declared.take(i as int).lemma_filter_push(declared[i as int], pred);
                }
                if contains_project(project_data, dep_id.as_str()) {
                    proof {
                        lemma_ids_view_push(deps@, *dep_id);
                    }
                    deps.push(dep_id.clone());
                }
            }
            assert(declared.take(config.depends_on.len() as int) =~= declared);
        },
    }
    deps
}

/// Every transitive dependency of one project: the projects reached from it by
/// a walk over the direct dependencies, in the order in which the walk first
/// reaches them.
fn collect_transitive_deps(
    project_id: &String,
    direct_deps: &FxHashMap<String, Vec<String>>,
    Ghost(projects): Ghost<Map<Seq<char>, ProjectView>>,
) -> (result: Vec<String>)
    requires
        projects.contains_key(project_id@),
        projects.dom().finite(),
        id_lists_of(*direct_deps).dom() == projects.dom(),
        forall|p: Seq<char>| #[trigger] projects.contains_key(p)
            ==> id_lists_of(*direct_deps)[p] == known_dependencies(projects, projects[p]),
    ensures
        ids_view(result@) == dependency_walk(projects, project_id@),
        ids_view(result@).no_duplicates(),
        ids_view(result@).to_set() == transitive_dependencies(projects, project_id@),
{
    let ghost root = project_id@;
    let ghost deps_map = id_lists_of(*direct_deps);
    let mut visited = new_id_set();
    let mut result: Vec<String> = Vec::new();
    let mut frontier: Vec<String> = match get_id_list(direct_deps, project_id.as_str()) {
        Some(deps) => copy_ids(deps),
        None => Vec::new(),
    };
    insert_id(&mut visited, project_id.clone());

    proof {
        assert(ids_view(result@) =~= Seq::<Seq<char>>::empty());
        assert(id_set_of(visited) =~= ids_view(result@).to_set().insert(root));
        assert forall|x: Seq<char>| ids_view(frontier@).contains(x) implies depends_transitively(projects, root, x) by {
            lemma_known_dependencies(projects, root, x);
            lemma_direct_is_transitive(projects, root, x);
        }
        assert forall|a: Seq<char>, b: Seq<char>|
            id_set_of(visited).contains(a) && #[trigger] depends_directly(projects, a, b)
            implies id_set_of(visited).contains(b) || ids_view(frontier@).contains(b) by {
            lemma_known_dependencies(projects, a, b);
        }
        assert(projects.dom().contains(root));
        assert(projects.dom().len() > 0);
        assert(deps_map =~= direct_dependencies(projects));
        assert forall|project: Seq<char>, id: Seq<char>| deps_map.contains_key(project) && #[trigger] deps_map[project].contains(id)
            implies deps_map.contains_key(id) by {
            lemma_known_dependencies(projects, project, id);
        }
        assert forall|id: Seq<char>| ids_view(frontier@).contains(id) implies deps_map.contains_key(id) by {
            lemma_known_dependencies(projects, root, id);
        }
        assert(id_set_of(visited) =~= Set::<Seq<char>>::empty().insert(root));
        assert(ids_view(result@) + walk(deps_map, id_set_of(visited), ids_view(frontier@)) =~= dependency_walk(projects, root));
    }

    while frontier.len() > 0
        invariant
            projects.contains_key(root),
            projects.dom().finite(),
            id_lists_of(*direct_deps).dom() == projects.dom(),
            forall|p: Seq<char>| #[trigger] projects.contains_key(p)
                ==> id_lists_of(*direct_deps)[p] == known_dependencies(projects, projects[p]),
            id_set_of(visited) == ids_view(result@).to_set().insert(root),
            ids_view(result@).no_duplicates(),
            !ids_view(result@).contains(root),
            forall|x: Seq<char>| ids_view(result@).contains(x) ==> depends_transitively(projects, root, x),
            forall|x: Seq<char>| ids_view(frontier@).contains(x) ==> depends_transitively(projects, root, x),
            forall|a: Seq<char>, b: Seq<char>|
                id_set_of(visited).contains(a) && #[trigger] depends_directly(projects, a, b)
                ==> id_set_of(visited).contains(b) || ids_view(frontier@).contains(b),
            ids_view(result@).len() < projects.dom().len(),
            deps_map == id_lists_of(*direct_deps),
            deps_map == direct_dependencies(projects),
            walk_well_formed(deps_map, ids_view(frontier@)),
            ids_view(result@) + walk(deps_map, id_set_of(visited), ids_view(frontier@)) == dependency_walk(projects, root),
        decreases projects.dom().len() - ids_view(result@).len(), frontier.len(),
    {
        let ghost frontier_before = ids_view(frontier@);
        let ghost visited_before = id_set_of(visited);
        let ghost result_before = ids_view(result@);
        let dep_id = frontier.pop().unwrap();
        proof {
            lemma_ids_view_push(frontier@, dep_id);
            assert(frontier_before == ids_view(frontier@).push(dep_id@));
            assert(frontier_before.contains(dep_id@)) by {
                assert(frontier_before[frontier_before.len() - 1] == dep_id@);
            }
            assert forall|x: Seq<char>| ids_view(frontier@).contains(x) implies frontier_before.contains(x) by {
                let k = choose|k: int| 0 <= k < ids_view(frontier@).len() && ids_view(frontier@)[k] == x;
                assert(frontier_before[k] == x);
            }
            assert forall|x: Seq<char>| frontier_before.contains(x) implies ids_view(frontier@).contains(x) || x == dep_id@ by {
                let k = choose|k: int| 0 <= k < frontier_before.len() && frontier_before[k] == x;
                if k < frontier_before.len() - 1 {
                    assert(ids_view(frontier@)[k] == x);
                }
            }
            assert(frontier_before.drop_last() =~= ids_view(frontier@));
            assert(frontier_before.last() == dep_id@);
            assert forall|id: Seq<char>| ids_view(frontier@).contains(id) implies deps_map.contains_key(id) by {
                assert(frontier_before.contains(id));
            }
            assert(walk_well_formed(deps_map, ids_view(frontier@)));
        }
        let added = insert_id(&mut visited, dep_id.clone());
        if added {
            proof {
                lemma_ids_view_push(result@, dep_id);
                lemma_transitive_target_exists(projects, root, dep_id@);
            }
            result.push(dep_id.clone());
            proof {
                let r = ids_view(result@);
                assert(r == result_before.push(dep_id@));
                assert(id_set_of(visited) =~= r.to_set().insert(root)) by {
                    assert forall|x: Seq<char>| r.contains(x) <==> result_before.contains(x) || x == dep_id@ by {
                        if r.contains(x) && x != dep_id@ {
                            let k = choose|k: int| 0 <= k < r.len() && r[k] == x;
                            assert(result_before[k] == x);
                        }
                        if result_before.contains(x) {
                            let k = choose|k: int| 0 <= k < result_before.len() && result_before[k] == x;
                            assert(r[k] == x);
                        }
                        if x == dep_id@ {
                            assert(r[r.len() - 1] == x);
                        }
                    }
                }
                assert(r.no_duplicates()) by {
                    assert forall|i: int, j: int| 0 <= i < j < r.len() implies r[i] != r[j] by {
                        if j == r.len() - 1 {
                            assert(result_before.contains(r[i]));
                        } else {
                            assert(r[i] == result_before[i] && r[j] == result_before[j]);
                        }
                    }
                }
                assert forall|x: Seq<char>| r.contains(x) implies depends_transitively(projects, root, x) by {
                    if x != dep_id@ {
                        let k = choose|k: int| 0 <= k < r.len() && r[k] == x;
                        assert(result_before[k] == x);
                    }
                }
                assert(r.to_set().subset_of(projects.dom().remove(root))) by {
                    assert forall|x: Seq<char>| r.to_set().contains(x) implies projects.dom().remove(root).contains(x) by {
                        assert(r.contains(x));
                        lemma_transitive_target_exists(projects, root, x);
                    }
                }
                r.unique_seq_to_set();
                vstd::set_lib::lemma_len_subset(r.to_set(), projects.dom().remove(root));
            }
            let ghost frontier_mid = ids_view(frontier@);
            match get_id_list(direct_deps, dep_id.as_str()) {
                Some(deps) => {
                    let ghost deps_view = ids_view(deps@);
                    for j in 0..deps.len()
                        invariant
                            projects.contains_key(dep_id@),
                            deps_view == ids_view(deps@),
                            deps_view == known_dependencies(projects, projects[dep_id@]),
                            forall|x: Seq<char>| frontier_mid.contains(x) ==> ids_view(frontier@).contains(x),
                            forall|x: Seq<char>| ids_view(frontier@).contains(x)
                                ==> frontier_mid.contains(x) || deps_view.contains(x),
                            forall|k: int| 0 <= k < j ==> id_set_of(visited).contains(#[trigger] deps_view[k])
                                || ids_view(frontier@).contains(deps_view[k]),
                            ids_view(frontier@) == frontier_mid + deps_view.take(j as int).filter(not_in(id_set_of(visited))),
                    {
                        let ghost frontier_inner = ids_view(frontier@);
                        proof {
                            assert(deps_view.take(j + 1) =~= deps_view.take(j as int).push(deps_view[j as int]));
                            deps_view.take(j as int).lemma_filter_push(deps_view[j as int], not_in(id_set_of(visited)));
                        }
                        if !contains_id(&visited, deps[j].as_str()) {
                            proof {
                                lemma_ids_view_push(frontier@, deps@[j as int]);
                            }
                            frontier.push(deps[j].clone());
                            proof {
                                let f = ids_view(frontier@);
                                assert(f == frontier_inner.push(deps_view[j as int]));
                                assert(f =~= frontier_mid + deps_view.take(j + 1).filter(not_in(id_set_of(visited))));
                                assert(f[f.len() - 1] == deps_view[j as int]);
                                assert forall|x: Seq<char>| frontier_inner.contains(x) implies f.contains(x) by {
                                    let k = choose|k: int| 0 <= k < frontier_inner.len() && frontier_inner[k] == x;
                                    assert(f[k] == x);
                                }
                                assert forall|x: Seq<char>| f.contains(x) implies frontier_mid.contains(x) || deps_view.contains(x) by {
                                    let k = choose|k: int| 0 <= k < f.len() && f[k] == x;
                                    if k < f.len() - 1 {
                                        assert(frontier_inner[k] == x);
                                    } else {
                                        assert(deps_view[j as int] == x);
                                    }
                                }
                            }
                        }
                    }
                    proof {
                        assert(deps_view.take(deps_view.len() as int) =~= deps_view);
                        let visited_now = id_set_of(visited);
                        let frontier_now = ids_view(frontier@);
                        assert(frontier_now == frontier_mid + deps_view.filter(not_in(visited_now)));
                        assert(visited_now == visited_before.insert(dep_id@));
                        assert(deps_view == deps_map[dep_id@]);
                        assert(frontier_mid == frontier_before.drop_last());
                        assert(!visited_before.contains(dep_id@));
                        assert forall|id: Seq<char>| frontier_now.contains(id) implies deps_map.contains_key(id) by {
                            let k = choose|k: int| 0 <= k < frontier_now.len() && frontier_now[k] == id;
                            if k < frontier_mid.len() {
                                assert(frontier_mid[k] == id);
                                assert(frontier_mid.contains(id));
                            } else {
                                let filtered = deps_view.filter(not_in(visited_now));
                                assert(filtered[k - frontier_mid.len()] == id);
                                assert(filtered.contains(id));
                                deps_view.lemma_filter_contains_rev(not_in(visited_now), id);
                                lemma_known_dependencies(projects, dep_id@, id);
                            }
                        }
                        assert(walk_well_formed(deps_map, frontier_now));
                        assert(walk(deps_map, visited_before, frontier_before)
                            == seq![dep_id@] + walk(deps_map, visited_now, frontier_now));
                        assert(ids_view(result@) == result_before.push(dep_id@));
                        assert(ids_view(result@) + walk(deps_map, visited_now, frontier_now)
                            =~= result_before + (seq![dep_id@] + walk(deps_map, visited_now, frontier_now)));
                        assert forall|x: Seq<char>| ids_view(frontier@).contains(x) implies depends_transitively(projects, root, x) by {
                            if !frontier_mid.contains(x) {
                                lemma_known_dependencies(projects, dep_id@, x);
                                lemma_extend(projects, root, dep_id@, x);
                            }
                        }
                        assert forall|a: Seq<char>, b: Seq<char>|
                            id_set_of(visited).contains(a) && #[trigger] depends_directly(projects, a, b)
                            implies id_set_of(visited).contains(b) || ids_view(frontier@).contains(b) by {
                            if a == dep_id@ {
                                lemma_known_dependencies(projects, a, b);
                                let k = choose|k: int| 0 <= k < deps_view.len() && deps_view[k] == b;
                                assert(id_set_of(visited).contains(deps_view[k]) || ids_view(frontier@).contains(deps_view[k]));
                            } else {
                                assert(visited_before.contains(a));
                            }
                        }
                    }
                },
                None => {
                    assert(false);
                },
            }
        } else {
            proof {
                assert(visited_before.contains(dep_id@));
                assert(id_set_of(visited) =~= visited_before);
                assert(ids_view(frontier@) == frontier_before.drop_last());
                assert(walk(deps_map, visited_before, frontier_before) == walk(deps_map, id_set_of(visited), ids_view(frontier@)));
                assert forall|a: Seq<char>, b: Seq<char>|
                    id_set_of(visited).contains(a) && #[trigger] depends_directly(projects, a, b)
                    implies id_set_of(visited).contains(b) || ids_view(frontier@).contains(b) by {
                    assert(visited_before.contains(a));
                }
            }
        }
    }

    proof {
        let r = ids_view(result@);
        assert(ids_view(frontier@).len() == 0);
        assert(walk(deps_map, id_set_of(visited), ids_view(frontier@)) == Seq::<Seq<char>>::empty());
        assert(r + Seq::<Seq<char>>::empty() =~= r);
        assert forall|x: Seq<char>| r.to_set().contains(x) <==> transitive_dependencies(projects, root).contains(x) by {
            if transitive_dependencies(projects, root).contains(x) {
                lemma_closed_set_holds_transitive(projects, id_set_of(visited), root, x);
                assert(id_set_of(visited).contains(x));
            }
            if r.to_set().contains(x) {
                assert(r.contains(x));
            }
        }
        assert(r.to_set() =~= transitive_dependencies(projects, root));
    }
    result
}

/// Whether `lists` holds, for each project and only for them, a list of its
/// transitive dependencies that names each of them once, in the order in which
/// the depth-first walk from the project lists them.
pub open spec fn lists_transitive_deps(lists: Map<Seq<char>, Seq<Seq<char>>>, projects: Map<Seq<char>, ProjectView>) -> bool {
    &&& lists.dom() == projects.dom()
    &&& forall|project: Seq<char>| #[trigger] lists.contains_key(project) ==> {
        &&& lists[project] == dependency_walk(projects, project)
        &&& lists[project].no_duplicates()
        &&& lists[project].to_set() == transitive_dependencies(projects, project)
    }
}

/// Precompute transitive dependencies for all projects in the workspace.
/// Returns a map from project ID to a list of all its transitive dependencies.
///
/// A dependency on an id that names no project of the workspace is left out,
/// and a project is never listed among its own dependencies. Each list holds
/// every transitive dependency once.
#[verifier::loop_isolation(false)]
pub fn compute_transitive_deps(project_data: &FxHashMap<String, ProjectBuildData>) -> (transitive_deps: FxHashMap<String, Vec<String>>)
    ensures
        lists_transitive_deps(id_lists_of(transitive_deps), projects_of(*project_data)),
{
    let ghost projects = projects_of(*project_data);
    let mut transitive_deps = new_id_lists();
    let entries = project_entries(project_data);
    let ghost keys = entries@.map_values(|entry: (&String, &ProjectBuildData)| entry.0@);
    proof {
        assert(projects.dom() =~= keys.to_set()) by {
            assert forall|k: Seq<char>| projects.dom().contains(k) implies keys.to_set().contains(k) by {
                let i = choose|i: int| 0 <= i < entries@.len() && #[trigger] entries@[i].0@ == k;
                assert(keys[i] == k);
            }
            assert forall|k: Seq<char>| keys.to_set().contains(k) implies projects.dom().contains(k) by {
                let i = choose|i: int| 0 <= i < keys.len() && keys[i] == k;
                assert(entries@[i].0@ == k);
            }
        }
        vstd::seq_lib::seq_to_set_is_finite(keys);
    }

    // First, the direct dependencies of each project that exist in the workspace.
    let mut direct_deps = new_id_lists();
    for i in 0..entries.len()
        invariant
            forall|k: Seq<char>| #[trigger] id_lists_of(direct_deps).contains_key(k)
                <==> exists|j: int| 0 <= j < i && #[trigger] entries@[j].0@ == k,
            forall|k: Seq<char>| #[trigger] id_lists_of(direct_deps).contains_key(k) ==> {
                &&& projects.contains_key(k)
                &&& id_lists_of(direct_deps)[k] == known_dependencies(projects, projects[k])
            },
    {
        let (id, data) = entries[i];
        let deps = known_dependency_ids(project_data, data);
        insert_id_list(&mut direct_deps, id.clone(), deps);
        proof {
            assert(entries@[i as int].0@ == id@);
            assert forall|k: Seq<char>| #[trigger] id_lists_of(direct_deps).contains_key(k)
                implies exists|j: int| 0 <= j < i + 1 && #[trigger] entries@[j].0@ == k by {
                if k != id@ {
                    let j = choose|j: int| 0 <= j < i && #[trigger] entries@[j].0@ == k;
                }
            }
        }
    }
    proof {
        assert(id_lists_of(direct_deps).dom() =~= projects.dom()) by {
            assert forall|k: Seq<char>| projects.dom().contains(k) implies id_lists_of(direct_deps).contains_key(k) by {
                let i = choose|i: int| 0 <= i < entries@.len() && #[trigger] entries@[i].0@ == k;
            }
        }
    }

    // Then, for each project, its transitive closure.
    for i in 0..entries.len()
        invariant
            forall|k: Seq<char>| #[trigger] id_lists_of(transitive_deps).contains_key(k)
                <==> exists|j: int| 0 <= j < i && #[trigger] entries@[j].0@ == k,
            forall|k: Seq<char>| #[trigger] id_lists_of(transitive_deps).contains_key(k) ==> {
                &&& id_lists_of(transitive_deps)[k] == dependency_walk(projects, k)
                &&& id_lists_of(transitive_deps)[k].no_duplicates()
                &&& id_lists_of(transitive_deps)[k].to_set() == transitive_dependencies(projects, k)
            },
    {
        let (project_id, _) = entries[i];
        let result = collect_transitive_deps(project_id, &direct_deps, Ghost(projects));
        insert_id_list(&mut transitive_deps, project_id.clone(), result);
        proof {
            assert(entries@[i as int].0@ == project_id@);
            assert forall|k: Seq<char>| #[trigger] id_lists_of(transitive_deps).contains_key(k)
                implies exists|j: int| 0 <= j < i + 1 && #[trigger] entries@[j].0@ == k by {
                if k != project_id@ {
                    let j = choose|j: int| 0 <= j < i && #[trigger] entries@[j].0@ == k;
                }
            }
        }
    }
    proof {
        assert(id_lists_of(transitive_deps).dom() =~= projects.dom()) by {
            assert forall|k: Seq<char>| projects.dom().contains(k) implies id_lists_of(transitive_deps).contains_key(k) by {
                let i = choose|i: int| 0 <= i < entries@.len() && #[trigger] entries@[i].0@ == k;
            }
        }
    }
    transitive_deps
}

/// Whether `id` is in a list of ids.
fn list_contains(ids: &Vec<String>, id: &String) -> (found: bool)
    ensures
        found == ids_view(ids@).contains(id@),
{
    for i in 0..ids.len()
        invariant
            forall|k: int| 0 <= k < i ==> ids_view(ids@)[k] != id@,
    {
        if ids[i] == *id {
            assert(ids_view(ids@)[i as int] == id@);
            return true;
        }
    }
    false
}

/// Why a query of the workspace builder could not be answered.
#[derive(Clone, Debug)]
pub enum QuerentError {
    /// The transitive dependencies of the project were not precomputed.
    TransitiveDepsNotPrecomputed(String),
    /// The list of all project ids was not precomputed.
    AllProjectIdsNotPrecomputed,
}

impl QuerentError {
    /// The message that the error is reported with.
    pub fn message(&self) -> (message: String)
        ensures
            message@ == match *self {
                QuerentError::TransitiveDepsNotPrecomputed(id) =>
                    "Transitive dependencies for project "@ + id@ + " were not precomputed"@,
                QuerentError::AllProjectIdsNotPrecomputed => "List of all dependencies was not precomputed"@,
            },
    {
        match self {
            QuerentError::TransitiveDepsNotPrecomputed(id) => {
                let mut message = String::new();
                message.append("Transitive dependencies for project ");
                message.append(id.as_str());
                message.append(" were not precomputed");
                message
            },
            QuerentError::AllProjectIdsNotPrecomputed => {
                let mut message = String::new();
                message.append("List of all dependencies was not precomputed");
                message
            },
        }
    }
}

/// Whether a task target names the task `task_id` of one of the projects `project_ids`.
pub open spec fn is_queried_task(target: TargetView, project_ids: Seq<Seq<char>>, task_id: Seq<char>) -> bool {
    &&& target.task_id == task_id
    &&& target.scope matches TargetScopeView::Project(project) && project_ids.contains(project)
}

/// Whether each id of `resolved` is what the id at the same place of `ids` may resolve to.
pub open spec fn resolves_each(projects: Map<Seq<char>, ProjectView>, ids: Seq<&String>, resolved: Seq<Seq<char>>) -> bool {
    &&& resolved.len() == ids.len()
    &&& forall|i: int| 0 <= i < ids.len() ==> #[trigger] resolves_to(projects, ids[i]@, resolved[i])
}

/// Whether `tasks` lists, each once, exactly the entries of `task_data` whose
/// target names the task `task_id` of one of the projects `project_ids`, each
/// with its options.
pub open spec fn lists_queried_tasks(
    task_data: Map<TargetView, TaskOptions>,
    project_ids: Seq<Seq<char>>,
    task_id: Seq<char>,
    tasks: Seq<(&Target, &TaskOptions)>,
) -> bool {
    &&& forall|i: int| 0 <= i < tasks.len() ==> {
        &&& task_data.contains_key(#[trigger] tasks[i].0@)
        &&& is_queried_task(tasks[i].0@, project_ids, task_id)
        &&& *tasks[i].1 == task_data[tasks[i].0@]
    }
    &&& forall|i: int, j: int| 0 <= i < j < tasks.len() ==> #[trigger] tasks[i].0@ != #[trigger] tasks[j].0@
    &&& forall|target: TargetView| #[trigger] task_data.contains_key(target) && is_queried_task(target, project_ids, task_id)
        ==> exists|i: int| 0 <= i < tasks.len() && #[trigger] tasks[i].0@ == target
}

/// The data that the workspace builder has gathered, as the task builder
/// queries it.
pub struct WorkspaceBuilderTasksQuerent<'builder> {
    pub project_data: &'builder FxHashMap<String, ProjectBuildData>,
    pub all_project_ids: &'builder Option<Vec<String>>,
    pub projects_by_tag: &'builder FxHashMap<String, Vec<String>>,
    pub task_data: &'builder FxHashMap<Target, TaskBuildData>,
    pub transitive_deps: &'builder Option<FxHashMap<String, Vec<String>>>,
}

impl<'builder> WorkspaceBuilderTasksQuerent<'builder> {
    /// The ids of the projects with the tag; none where no project has it.
    pub fn query_projects_by_tag(&self, tag: &str) -> (result: Result<Vec<String>, QuerentError>)
        ensures
            result matches Ok(ids) && ids_view(ids@) == if id_lists_of(*self.projects_by_tag).contains_key(tag@) {
                id_lists_of(*self.projects_by_tag)[tag@]
            } else {
                Seq::empty()
            },
    {
        match get_id_list(self.projects_by_tag, tag) {
            Some(list) => Ok(copy_ids(list)),
            None => {
                let none: Vec<String> = Vec::new();
                assert(ids_view(none@) =~= Seq::<Seq<char>>::empty());
                Ok(none)
            },
        }
    }

    /// The task `task_id` of each of the projects, each project id resolved
    /// first, since it may be an alias. The tasks come in the order in which
    /// the task map walks them.
    #[verifier::loop_isolation(false)]
    pub fn query_tasks(&self, project_ids: Vec<&String>, task_id: &String) -> (result: Result<Vec<(&Target, &TaskOptions)>, QuerentError>)
        ensures
            result is Ok,
            result matches Ok(tasks) ==> forall|i: int| 0 <= i < tasks@.len() ==> #[trigger] tasks@[i].0.task_id@ == task_id@,
            exists|resolved: Seq<Seq<char>>| {
                &&& #[trigger] resolves_each(projects_of(*self.project_data), project_ids@, resolved)
                &&& result matches Ok(tasks)
                    && lists_queried_tasks(tasks_of(*self.task_data), resolved, task_id@, tasks@)
            },
    {
        // May be an alias!
        let mut resolved: Vec<String> = Vec::new();
        for i in 0..project_ids.len()
            invariant
                resolved@.len() == i,
                forall|k: int| 0 <= k < i
                    ==> #[trigger] resolves_to(projects_of(*self.project_data), project_ids@[k]@, resolved@[k]@),
        {
            resolved.push(ProjectBuildData::resolve_id(project_ids[i], self.project_data));
        }
        let ghost resolved_ids = ids_view(resolved@);
        let ghost task_map = tasks_of(*self.task_data);

        let entries = task_entries(self.task_data);
        let mut results: Vec<(&Target, &TaskOptions)> = Vec::new();
        let ghost mut picked: Seq<int> = Seq::empty();
        for i in 0..entries.len()
            invariant
                picked.len() == results@.len(),
                forall|r: int| 0 <= r < results@.len() ==> {
                    &&& 0 <= #[trigger] picked[r] < i
                    &&& *results@[r].0 == *entries@[picked[r]].0
                    &&& *results@[r].1 == entries@[picked[r]].1.options
                    &&& is_queried_task(results@[r].0@, resolved_ids, task_id@)
                },
                forall|r: int, q: int| 0 <= r < q < results@.len() ==> #[trigger] picked[r] < #[trigger] picked[q],
                forall|k: int| 0 <= k < i && is_queried_task(#[trigger] entries@[k].0@, resolved_ids, task_id@)
                    ==> exists|r: int| 0 <= r < results@.len() && #[trigger] picked[r] == k,
        {
            let ghost picked_before = picked;
            let (target, data) = entries[i];
            match target.get_project_id() {
                Some(project_id) => {
                    if target.task_id == *task_id && list_contains(&resolved, project_id) {
                        results.push((target, &data.options));
                        proof {
                            picked = picked.push(i as int);
                            assert(picked[picked.len() - 1] == i);
                        }
                    }
                },
                None => {},
            }
            proof {
                assert forall|k: int| 0 <= k < i + 1 && is_queried_task(#[trigger] entries@[k].0@, resolved_ids, task_id@)
                    implies exists|r: int| 0 <= r < results@.len() && #[trigger] picked[r] == k by {
                    if k < i {
                        let r = choose|r: int| 0 <= r < picked_before.len() && #[trigger] picked_before[r] == k;
                        assert(picked[r] == k);
                    } else {
                        assert(picked[picked.len() - 1] == k);
                    }
                }
            }
        }
        proof {
            let tasks = results@;
            assert forall|r: int| 0 <= r < tasks.len() implies {
                &&& task_map.contains_key(#[trigger] tasks[r].0@)
                &&& is_queried_task(tasks[r].0@, resolved_ids, task_id@)
                &&& *tasks[r].1 == task_map[tasks[r].0@]
            } by {
                let k = picked[r];
                assert(task_map.contains_key(entries@[k].0@));
            }
            assert forall|r: int, q: int| 0 <= r < q < tasks.len() implies #[trigger] tasks[r].0@ != #[trigger] tasks[q].0@ by {
                assert(picked[r] < picked[q]);
                assert(entries@[picked[r]].0@ != entries@[picked[q]].0@);
            }
            assert forall|target: TargetView| #[trigger] task_map.contains_key(target) && is_queried_task(target, resolved_ids, task_id@)
                implies exists|r: int| 0 <= r < tasks.len() && #[trigger] tasks[r].0@ == target by {
                let k = choose|k: int| 0 <= k < entries@.len() && #[trigger] entries@[k].0@ == target;
                let r = choose|r: int| 0 <= r < results@.len() && #[trigger] picked[r] == k;
                assert(tasks[r].0@ == target);
            }
            assert(lists_queried_tasks(task_map, resolved_ids, task_id@, tasks));
            law_queried_tasks_are_the_task(task_map, resolved_ids, task_id@, tasks);
            assert(resolves_each(projects_of(*self.project_data), project_ids@, resolved_ids));
        }
        Ok(results)
    }

    /// The precomputed transitive dependencies of the project.
    pub fn query_transitive_deps(&self, project_id: &str) -> (result: Result<Vec<String>, QuerentError>)
        ensures
            match *self.transitive_deps {
                Some(deps) if id_lists_of(deps).contains_key(project_id@) =>
                    result matches Ok(ids) && ids_view(ids@) == id_lists_of(deps)[project_id@],
                _ => result matches Err(QuerentError::TransitiveDepsNotPrecomputed(id)) && id@ == project_id@,
            },
    {
        match self.transitive_deps {
            Some(deps) => match get_id_list(deps, project_id) {
                Some(ids) => Ok(copy_ids(ids)),
                None => Err(QuerentError::TransitiveDepsNotPrecomputed(project_id.to_owned())),
            },
            None => Err(QuerentError::TransitiveDepsNotPrecomputed(project_id.to_owned())),
        }
    }

    /// The ids of all projects of the workspace.
    pub fn query_all(&self) -> (result: Result<Vec<String>, QuerentError>)
        ensures
            match *self.all_project_ids {
                Some(ids) => result matches Ok(all) && ids_view(all@) == ids_view(ids@),
                None => result matches Err(QuerentError::AllProjectIdsNotPrecomputed),
            },
    {
        match self.all_project_ids {
            Some(ids) => Ok(copy_ids(ids)),
            None => Err(QuerentError::AllProjectIdsNotPrecomputed),
        }
    }
}

/// A query of the transitive dependencies of a project, once they are
/// precomputed, answers with every project that the project reaches through
/// its dependencies, each once, and with nothing else.
pub proof fn law_query_answers_transitive_deps(
    projects: Map<Seq<char>, ProjectView>,
    precomputed: Map<Seq<char>, Seq<Seq<char>>>,
    project: Seq<char>,
)
    requires
        lists_transitive_deps(precomputed, projects),
        projects.contains_key(project),
    ensures
        precomputed.contains_key(project),
        precomputed[project].no_duplicates(),
        forall|dep: Seq<char>| #[trigger] precomputed[project].contains(dep)
            <==> dep != project && depends_transitively(projects, project, dep),
{
    assert(precomputed.contains_key(project));
    assert forall|dep: Seq<char>| #[trigger] precomputed[project].contains(dep)
        <==> dep != project && depends_transitively(projects, project, dep) by {
        assert(precomputed[project].to_set() == transitive_dependencies(projects, project));
        assert(precomputed[project].to_set().contains(dep) == precomputed[project].contains(dep));
        assert(transitive_dependencies(projects, project).contains(dep)
            == (dep != project && depends_transitively(projects, project, dep)));
    }
}

/// Lists of transitive dependencies are a function of what the project map
/// holds: maps with the same contents, whatever order they are walked in, give
/// the same lists, with the same ids in the same order.
pub proof fn law_transitive_deps_follow_from_contents(
    projects: Map<Seq<char>, ProjectView>,
    first: Map<Seq<char>, Seq<Seq<char>>>,
    second: Map<Seq<char>, Seq<Seq<char>>>,
)
    requires
        lists_transitive_deps(first, projects),
        lists_transitive_deps(second, projects),
    ensures
        first == second,
{
    assert forall|project: Seq<char>| first.contains_key(project) implies first[project] == second[project] by {
        assert(second.contains_key(project));
    }
    assert(first =~= second);
}

/// The (target, options) pairs that a list of tasks holds.
pub open spec fn task_pairs(tasks: Seq<(&Target, &TaskOptions)>) -> Set<(TargetView, TaskOptions)> {
    Set::new(|pair: (TargetView, TaskOptions)| exists|i: int| 0 <= i < tasks.len() && #[trigger] tasks[i].0@ == pair.0 && *tasks[i].1 == pair.1)
}

proof fn lemma_tasks_of_more_projects(
    task_data: Map<TargetView, TaskOptions>,
    fewer: Seq<Seq<char>>,
    more: Seq<Seq<char>>,
    task_id: Seq<char>,
    tasks_fewer: Seq<(&Target, &TaskOptions)>,
    tasks_more: Seq<(&Target, &TaskOptions)>,
)
    requires
        forall|project: Seq<char>| fewer.contains(project) ==> more.contains(project),
        lists_queried_tasks(task_data, fewer, task_id, tasks_fewer),
        lists_queried_tasks(task_data, more, task_id, tasks_more),
    ensures
        task_pairs(tasks_fewer).subset_of(task_pairs(tasks_more)),
{
    assert forall|pair: (TargetView, TaskOptions)| task_pairs(tasks_fewer).contains(pair) implies task_pairs(tasks_more).contains(pair) by {
        let i = choose|i: int| 0 <= i < tasks_fewer.len() && #[trigger] tasks_fewer[i].0@ == pair.0 && *tasks_fewer[i].1 == pair.1;
        let target = tasks_fewer[i].0@;
        assert(task_data.contains_key(target));
        assert(is_queried_task(target, fewer, task_id));
        assert(is_queried_task(target, more, task_id));
        let m = choose|m: int| 0 <= m < tasks_more.len() && #[trigger] tasks_more[m].0@ == target;
        assert(task_data.contains_key(tasks_more[m].0@));
        assert(*tasks_more[m].1 == task_data[target]);
    }
}

/// Asking for more projects never drops a task: where every id of the first
/// query is also asked for in the second, and each of them resolves one way
/// only, the tasks of the first query are among those of the second.
pub proof fn law_query_tasks_more_projects(
    projects: Map<Seq<char>, ProjectView>,
    task_data: Map<TargetView, TaskOptions>,
    ids_fewer: Seq<&String>,
    ids_more: Seq<&String>,
    resolved_fewer: Seq<Seq<char>>,
    resolved_more: Seq<Seq<char>>,
    task_id: Seq<char>,
    tasks_fewer: Seq<(&Target, &TaskOptions)>,
    tasks_more: Seq<(&Target, &TaskOptions)>,
)
    requires
        forall|i: int| 0 <= i < ids_fewer.len() ==> exists|j: int| 0 <= j < ids_more.len() && #[trigger] ids_more[j]@ == #[trigger] ids_fewer[i]@,
        forall|i: int| 0 <= i < ids_fewer.len() ==> resolves_uniquely(projects, #[trigger] ids_fewer[i]@),
        resolves_each(projects, ids_fewer, resolved_fewer),
        resolves_each(projects, ids_more, resolved_more),
        lists_queried_tasks(task_data, resolved_fewer, task_id, tasks_fewer),
        lists_queried_tasks(task_data, resolved_more, task_id, tasks_more),
    ensures
        task_pairs(tasks_fewer).subset_of(task_pairs(tasks_more)),
{
    assert forall|project: Seq<char>| resolved_fewer.contains(project) implies resolved_more.contains(project) by {
        let k = choose|k: int| 0 <= k < resolved_fewer.len() && resolved_fewer[k] == project;
        assert(resolves_to(projects, ids_fewer[k]@, resolved_fewer[k]));
        let j = choose|j: int| 0 <= j < ids_more.len() && #[trigger] ids_more[j]@ == ids_fewer[k]@;
        assert(resolves_to(projects, ids_more[j]@, resolved_more[j]));
        assert(resolves_uniquely(projects, ids_fewer[k]@));
        law_unique_resolution(projects, ids_fewer[k]@, resolved_fewer[k], resolved_more[j]);
        assert(resolved_more[j] == project);
    }
    lemma_tasks_of_more_projects(task_data, resolved_fewer, resolved_more, task_id, tasks_fewer, tasks_more);
}

/// Two task queries whose ids resolve to the same projects, such as one that
/// names a project by its alias and one that names it by its id, list the same
/// tasks. `named_first` and `named_second` are what the ids resolve to (as
/// `ProjectBuildData::resolve_id` gives them), `resolved_first` and
/// `resolved_second` what the queries resolved them to; each id resolves one
/// way only.
pub proof fn law_query_tasks_same_projects(
    projects: Map<Seq<char>, ProjectView>,
    task_data: Map<TargetView, TaskOptions>,
    ids_first: Seq<&String>,
    ids_second: Seq<&String>,
    named_first: Seq<Seq<char>>,
    named_second: Seq<Seq<char>>,
    resolved_first: Seq<Seq<char>>,
    resolved_second: Seq<Seq<char>>,
    task_id: Seq<char>,
    tasks_first: Seq<(&Target, &TaskOptions)>,
    tasks_second: Seq<(&Target, &TaskOptions)>,
)
    requires
        forall|i: int| 0 <= i < ids_first.len() ==> resolves_uniquely(projects, #[trigger] ids_first[i]@),
        forall|i: int| 0 <= i < ids_second.len() ==> resolves_uniquely(projects, #[trigger] ids_second[i]@),
        resolves_each(projects, ids_first, named_first),
        resolves_each(projects, ids_second, named_second),
        named_first.to_set() == named_second.to_set(),
        resolves_each(projects, ids_first, resolved_first),
        resolves_each(projects, ids_second, resolved_second),
        lists_queried_tasks(task_data, resolved_first, task_id, tasks_first),
        lists_queried_tasks(task_data, resolved_second, task_id, tasks_second),
    ensures
        task_pairs(tasks_first) == task_pairs(tasks_second),
{
    assert forall|k: int| 0 <= k < resolved_first.len() implies resolved_first[k] == named_first[k] by {
        assert(resolves_to(projects, ids_first[k]@, resolved_first[k]));
        assert(resolves_to(projects, ids_first[k]@, named_first[k]));
        assert(resolves_uniquely(projects, ids_first[k]@));
        law_unique_resolution(projects, ids_first[k]@, resolved_first[k], named_first[k]);
    }
    assert forall|k: int| 0 <= k < resolved_second.len() implies resolved_second[k] == named_second[k] by {
        assert(resolves_to(projects, ids_second[k]@, resolved_second[k]));
        assert(resolves_to(projects, ids_second[k]@, named_second[k]));
        assert(resolves_uniquely(projects, ids_second[k]@));
        law_unique_resolution(projects, ids_second[k]@, resolved_second[k], named_second[k]);
    }
    assert(resolved_first =~= named_first);
    assert(resolved_second =~= named_second);
    assert forall|project: Seq<char>| resolved_first.contains(project) implies resolved_second.contains(project) by {
        assert(named_first.to_set().contains(project));
        assert(named_second.to_set().contains(project));
    }
    assert forall|project: Seq<char>| resolved_second.contains(project) implies resolved_first.contains(project) by {
        assert(named_second.to_set().contains(project));
        assert(named_first.to_set().contains(project));
    }
    lemma_tasks_of_more_projects(task_data, resolved_first, resolved_second, task_id, tasks_first, tasks_second);
    lemma_tasks_of_more_projects(task_data, resolved_second, resolved_first, task_id, tasks_second, tasks_first);
    assert(task_pairs(tasks_first) =~= task_pairs(tasks_second));
}

/// A task query lists the task of exactly the queried id: every listed target
/// has that very task id (so no target whose task id differs is listed) and is
/// scoped to one of the projects; and every target of the task data with that
/// task id, scoped to one of the projects, is listed, with its options.
pub proof fn law_queried_tasks_are_the_task(
    task_data: Map<TargetView, TaskOptions>,
    project_ids: Seq<Seq<char>>,
    task_id: Seq<char>,
    tasks: Seq<(&Target, &TaskOptions)>,
)
    requires
        lists_queried_tasks(task_data, project_ids, task_id, tasks),
    ensures
        forall|i: int| 0 <= i < tasks.len() ==> {
            &&& #[trigger] tasks[i].0.task_id@ == task_id
            &&& tasks[i].0@.task_id == task_id
            &&& exists|project: Seq<char>| tasks[i].0@.scope == TargetScopeView::Project(project) && project_ids.contains(project)
            &&& task_data.contains_key(tasks[i].0@)
            &&& *tasks[i].1 == task_data[tasks[i].0@]
        },
        forall|target: TargetView, project: Seq<char>|
            #![trigger task_data.contains_key(target), project_ids.contains(project)]
            task_data.contains_key(target) && target.task_id == task_id
                && target.scope == TargetScopeView::Project(project) && project_ids.contains(project)
            ==> exists|i: int| 0 <= i < tasks.len() && #[trigger] tasks[i].0@ == target,
{
    assert forall|i: int| 0 <= i < tasks.len() implies {
        &&& #[trigger] tasks[i].0.task_id@ == task_id
        &&& tasks[i].0@.task_id == task_id
        &&& exists|project: Seq<char>| tasks[i].0@.scope == TargetScopeView::Project(project) && project_ids.contains(project)
        &&& task_data.contains_key(tasks[i].0@)
        &&& *tasks[i].1 == task_data[tasks[i].0@]
    } by {
        assert(task_data.contains_key(tasks[i].0@));
        assert(is_queried_task(tasks[i].0@, project_ids, task_id));
        let project = tasks[i].0@.scope->Project_0;
        assert(tasks[i].0@.scope == TargetScopeView::Project(project) && project_ids.contains(project));
    }
    assert forall|target: TargetView, project: Seq<char>|
        #![trigger task_data.contains_key(target), project_ids.contains(project)]
        task_data.contains_key(target) && target.task_id == task_id
            && target.scope == TargetScopeView::Project(project) && project_ids.contains(project)
        implies exists|i: int| 0 <= i < tasks.len() && #[trigger] tasks[i].0@ == target by {
        assert(is_queried_task(target, project_ids, task_id));
    }
}

} // verus!
