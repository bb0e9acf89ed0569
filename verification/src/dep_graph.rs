//! The dependency graph of a workspace, as the workspace builder sees it, and
//! what it means for one project to depend on another transitively.

use vstd::prelude::*;
use crate::build_data::{ProjectView, declared_dependencies};

verus! {

/// The dependencies that a project declares and that exist in the workspace,
/// in the order in which they are declared.
pub open spec fn known_dependencies(projects: Map<Seq<char>, ProjectView>, data: ProjectView) -> Seq<Seq<char>> {
    declared_dependencies(data).filter(|dep: Seq<char>| projects.contains_key(dep))
}

/// Project `from` declares a dependency on project `to`, and both exist.
pub open spec fn depends_directly(projects: Map<Seq<char>, ProjectView>, from: Seq<char>, to: Seq<char>) -> bool {
    &&& projects.contains_key(from)
    &&& projects.contains_key(to)
    &&& declared_dependencies(projects[from]).contains(to)
}

/// Each project of the chain depends directly on the next.
pub open spec fn is_dependency_chain(projects: Map<Seq<char>, ProjectView>, chain: Seq<Seq<char>>) -> bool {
    forall|i: int| 0 <= i < chain.len() - 1 ==> #[trigger] depends_directly(projects, chain[i], chain[i + 1])
}

/// Project `from` reaches project `to` by following one or more direct dependencies.
pub open spec fn depends_transitively(projects: Map<Seq<char>, ProjectView>, from: Seq<char>, to: Seq<char>) -> bool {
    exists|chain: Seq<Seq<char>>| {
        &&& chain.len() >= 2
        &&& chain[0] == from
        &&& chain.last() == to
        &&& #[trigger] is_dependency_chain(projects, chain)
    }
}

/// All transitive dependencies of a project: every other project that it
/// reaches by following its dependencies. The project itself is never among
/// them, even where a cycle leads back to it.
pub open spec fn transitive_dependencies(projects: Map<Seq<char>, ProjectView>, project: Seq<char>) -> Set<Seq<char>> {
    Set::new(|other: Seq<char>| other != project && depends_transitively(projects, project, other))
}

/// A known dependency is a direct dependency, and the other way round.
pub proof fn lemma_known_dependencies(projects: Map<Seq<char>, ProjectView>, from: Seq<char>, to: Seq<char>)
    requires
        projects.contains_key(from),
    ensures
        known_dependencies(projects, projects[from]).contains(to) <==> depends_directly(projects, from, to),
{
    let pred = |dep: Seq<char>| projects.contains_key(dep);
    let declared = declared_dependencies(projects[from]);
    if known_dependencies(projects, projects[from]).contains(to) {
        declared.lemma_filter_contains_rev(pred, to);
        let k = choose|k: int| 0 <= k < declared.filter(pred).len() && declared.filter(pred)[k] == to;
        declared.lemma_filter_pred(pred, k);
    }
    if depends_directly(projects, from, to) {
        let k = choose|k: int| 0 <= k < declared.len() && declared[k] == to;
        declared.lemma_filter_contains(pred, k);
    }
}

/// A direct dependency is a transitive one.
pub proof fn lemma_direct_is_transitive(projects: Map<Seq<char>, ProjectView>, from: Seq<char>, to: Seq<char>)
    requires
        depends_directly(projects, from, to),
    ensures
        depends_transitively(projects, from, to),
{
    let chain = seq![from, to];
    assert(depends_directly(projects, chain[0], chain[1]));
    assert(is_dependency_chain(projects, chain));
}

/// Following one more direct dependency from a transitive one gives a transitive one.
pub proof fn lemma_extend(projects: Map<Seq<char>, ProjectView>, from: Seq<char>, mid: Seq<char>, to: Seq<char>)
    requires
        depends_transitively(projects, from, mid),
        depends_directly(projects, mid, to),
    ensures
        depends_transitively(projects, from, to),
{
    let chain = choose|chain: Seq<Seq<char>>| {
        &&& chain.len() >= 2
        &&& chain[0] == from
        &&& chain.last() == mid
        &&& #[trigger] is_dependency_chain(projects, chain)
    };
    let longer = chain.push(to);
    assert forall|i: int| 0 <= i < longer.len() - 1 implies #[trigger] depends_directly(projects, longer[i], longer[i + 1]) by {
        if i < chain.len() - 1 {
            assert(depends_directly(projects, chain[i], chain[i + 1]));
        }
    }
    assert(is_dependency_chain(projects, longer));
}

/// The project that a transitive dependency names exists.
pub proof fn lemma_transitive_target_exists(projects: Map<Seq<char>, ProjectView>, from: Seq<char>, to: Seq<char>)
    requires
        depends_transitively(projects, from, to),
    ensures
        projects.contains_key(to),
{
    let chain = choose|chain: Seq<Seq<char>>| {
        &&& chain.len() >= 2
        &&& chain[0] == from
        &&& chain.last() == to
        &&& #[trigger] is_dependency_chain(projects, chain)
    };
    assert(depends_directly(projects, chain[chain.len() - 2], chain[chain.len() - 2 + 1]));
}

/// A set of projects that holds every direct dependency of its members holds
/// every transitive dependency of its members.
pub proof fn lemma_closed_set_holds_transitive(projects: Map<Seq<char>, ProjectView>, closed: Set<Seq<char>>, from: Seq<char>, to: Seq<char>)
    requires
        closed.contains(from),
        forall|a: Seq<char>, b: Seq<char>| closed.contains(a) && #[trigger] depends_directly(projects, a, b) ==> closed.contains(b),
        depends_transitively(projects, from, to),
    ensures
        closed.contains(to),
{
    let chain = choose|chain: Seq<Seq<char>>| {
        &&& chain.len() >= 2
        &&& chain[0] == from
        &&& chain.last() == to
        &&& #[trigger] is_dependency_chain(projects, chain)
    };
    lemma_closed_set_holds_chain(projects, closed, chain, chain.len() - 1);
}

/// Every project of a dependency chain that starts in a set closed under
/// direct dependencies lies in that set.
proof fn lemma_closed_set_holds_chain(projects: Map<Seq<char>, ProjectView>, closed: Set<Seq<char>>, chain: Seq<Seq<char>>, i: int)
    requires
        0 <= i < chain.len(),
        closed.contains(chain[0]),
        is_dependency_chain(projects, chain),
        forall|a: Seq<char>, b: Seq<char>| closed.contains(a) && #[trigger] depends_directly(projects, a, b) ==> closed.contains(b),
    ensures
        closed.contains(chain[i]),
    decreases i,
{
    if i > 0 {
        lemma_closed_set_holds_chain(projects, closed, chain, i - 1);
        assert(depends_directly(projects, chain[i - 1], chain[i - 1 + 1]));
    }
}

/// A transitive dependency of a transitive dependency of a project is itself
/// a transitive dependency of the project, unless it is the project itself.
pub proof fn law_transitive_dependencies_compose(
    projects: Map<Seq<char>, ProjectView>,
    project: Seq<char>,
    middle: Seq<char>,
    other: Seq<char>,
)
    requires
        transitive_dependencies(projects, project).contains(middle),
        transitive_dependencies(projects, middle).contains(other),
        other != project,
    ensures
        transitive_dependencies(projects, project).contains(other),
{
    let first = choose|chain: Seq<Seq<char>>| {
        &&& chain.len() >= 2
        &&& chain[0] == project
        &&& chain.last() == middle
        &&& #[trigger] is_dependency_chain(projects, chain)
    };
    let second = choose|chain: Seq<Seq<char>>| {
        &&& chain.len() >= 2
        &&& chain[0] == middle
        &&& chain.last() == other
        &&& #[trigger] is_dependency_chain(projects, chain)
    };
    let joined = first + second.subrange(1, second.len() as int);
    assert forall|i: int| 0 <= i < joined.len() - 1 implies #[trigger] depends_directly(projects, joined[i], joined[i + 1]) by {
        if i < first.len() - 1 {
            assert(depends_directly(projects, first[i], first[i + 1]));
        } else {
            let k = i - (first.len() - 1);
            assert(joined[i] == second[k]);
            assert(joined[i + 1] == second[k + 1]);
            assert(depends_directly(projects, second[k], second[k + 1]));
        }
    }
    assert(is_dependency_chain(projects, joined));
    assert(joined.last() == other);
}

/// Every declared dependency on another project of the workspace is a
/// transitive dependency.
pub proof fn law_direct_dependencies_are_transitive(projects: Map<Seq<char>, ProjectView>, project: Seq<char>, dep: Seq<char>)
    requires
        projects.contains_key(project),
        projects.contains_key(dep),
        declared_dependencies(projects[project]).contains(dep),
        dep != project,
    ensures
        transitive_dependencies(projects, project).contains(dep),
{
    lemma_direct_is_transitive(projects, project, dep);
}

/// Only projects of the workspace are transitive dependencies.
pub proof fn law_transitive_dependencies_exist(projects: Map<Seq<char>, ProjectView>, project: Seq<char>, dep: Seq<char>)
    requires
        transitive_dependencies(projects, project).contains(dep),
    ensures
        projects.contains_key(dep),
{
    lemma_transitive_target_exists(projects, project, dep);
}

/// The known dependencies of every project of the workspace.
pub open spec fn direct_dependencies(projects: Map<Seq<char>, ProjectView>) -> Map<Seq<char>, Seq<Seq<char>>> {
    Map::new(|project: Seq<char>| projects.contains_key(project), |project: Seq<char>| known_dependencies(projects, projects[project]))
}

/// Whether the set holds none of an id.
pub open spec fn not_in(set: Set<Seq<char>>) -> spec_fn(Seq<char>) -> bool {
    |id: Seq<char>| !set.contains(id)
}

/// Every project of the frontier, and every dependency listed, is a project of
/// the finitely many.
pub open spec fn walk_well_formed(deps: Map<Seq<char>, Seq<Seq<char>>>, frontier: Seq<Seq<char>>) -> bool {
    &&& deps.dom().finite()
    &&& forall|id: Seq<char>| frontier.contains(id) ==> deps.contains_key(id)
    &&& forall|project: Seq<char>, id: Seq<char>| deps.contains_key(project) && #[trigger] deps[project].contains(id)
        ==> deps.contains_key(id)
}

/// The projects that a depth-first walk over the dependency lists lists, in
/// order, from a frontier of projects still to visit. The walk takes the
/// project at the end of the frontier. One already visited is passed over.
/// One not yet visited is listed and counts as visited from then on, and those
/// of its dependencies not yet visited go to the end of the frontier, in the
/// order in which they are declared.
pub open spec fn walk(deps: Map<Seq<char>, Seq<Seq<char>>>, visited: Set<Seq<char>>, frontier: Seq<Seq<char>>) -> Seq<Seq<char>>
    decreases deps.dom().difference(visited).len(), frontier.len()
    when walk_well_formed(deps, frontier)
    via walk_decreases
{
    if frontier.len() == 0 {
        Seq::empty()
    } else {
        let next = frontier.last();
        let rest = frontier.drop_last();
        if visited.contains(next) {
            walk(deps, visited, rest)
        } else {
            let now_visited = visited.insert(next);
            seq![next] + walk(deps, now_visited, rest + deps[next].filter(not_in(now_visited)))
        }
    }
}

#[via_fn]
proof fn walk_decreases(deps: Map<Seq<char>, Seq<Seq<char>>>, visited: Set<Seq<char>>, frontier: Seq<Seq<char>>) {
    if frontier.len() > 0 {
        let next = frontier.last();
        assert(frontier.contains(next)) by {
            assert(frontier[frontier.len() - 1] == next);
        }
        if !visited.contains(next) {
            let before = deps.dom().difference(visited);
            assert(deps.dom().difference(visited.insert(next)) =~= before.remove(next));
            assert(before.contains(next));
        }
    }
}

/// The transitive dependencies of a project, in the order in which the
/// depth-first walk from it lists them: the walk starts with the project
/// visited and its known dependencies as the frontier.
pub open spec fn dependency_walk(projects: Map<Seq<char>, ProjectView>, project: Seq<char>) -> Seq<Seq<char>> {
    walk(direct_dependencies(projects), Set::empty().insert(project), direct_dependencies(projects)[project])
}

} // verus!
