use vstd::prelude::*;
use rustc_hash::FxHashMap;
use crate::fx::{contains_project, project_entries, projects_of};

verus! {

/// The settings of a dependency declared in object form. Of its settings only
/// the id of the project depended on takes part in the workspace logic.
#[derive(Clone, Debug, Default)]
pub struct ProjectDependencyConfig {
    pub id: String,
}

/// A dependency of a project, declared either by the other project's id alone
/// or in object form.
#[derive(Clone, Debug)]
pub enum ProjectDependsOn {
    String(String),
    Object(ProjectDependencyConfig),
}

/// The part of a project's configuration that the workspace logic reads.
#[derive(Clone, Debug, Default)]
pub struct ProjectConfig {
    pub depends_on: Vec<ProjectDependsOn>,
}

/// What the workspace builder knows of a project before the graph is built.
#[derive(Clone, Debug, Default)]
pub struct ProjectBuildData {
    /// An alternative name that the project can be referred to by.
    pub alias: Option<String>,
    /// The id the project had before it was renamed, if it was.
    pub original_id: Option<String>,
    /// The project's configuration, once loaded.
    pub config: Option<ProjectConfig>,
}

/// The id of the project that a dependency names.
pub open spec fn dependency_id(dep: ProjectDependsOn) -> Seq<char> {
    match dep {
        ProjectDependsOn::String(id) => id@,
        ProjectDependsOn::Object(config) => config.id@,
    }
}

/// A text that may be absent, taken by its characters.
pub open spec fn optional_text(text: Option<String>) -> Option<Seq<char>> {
    match text {
        Some(text) => Some(text@),
        None => None,
    }
}

/// What the workspace logic reads of a project's build data.
pub struct ProjectView {
    pub alias: Option<Seq<char>>,
    pub original_id: Option<Seq<char>>,
    /// The ids of the projects it declares as dependencies, in order, once its
    /// configuration is loaded.
    pub dependencies: Option<Seq<Seq<char>>>,
}

impl View for ProjectBuildData {
    type V = ProjectView;

    open spec fn view(&self) -> ProjectView {
        ProjectView {
            alias: optional_text(self.alias),
            original_id: optional_text(self.original_id),
            dependencies: match self.config {
                Some(config) => Some(config.depends_on@.map_values(|dep: ProjectDependsOn| dependency_id(dep))),
                None => None,
            },
        }
    }
}

/// The ids of the projects that a project declares as dependencies, in order.
pub open spec fn declared_dependencies(data: ProjectView) -> Seq<Seq<char>> {
    match data.dependencies {
        Some(dependencies) => dependencies,
        None => Seq::empty(),
    }
}

impl ProjectDependsOn {
    /// The id of the project depended on.
    pub fn id(&self) -> (id: &String)
        ensures
            id@ == dependency_id(*self),
    {
        match self {
            ProjectDependsOn::String(id) => id,
            ProjectDependsOn::Object(config) => &config.id,
        }
    }
}

/// Whether a project answers to `id` by its alias or by the id it had before
/// it was renamed.
pub open spec fn answers_to(data: ProjectView, id: Seq<char>) -> bool {
    ||| data.original_id == Some(id)
    ||| data.alias == Some(id)
}

/// What `id` may resolve to among `projects`: itself where it names a project;
/// else a project that answers to it by alias or former id, where one does;
/// else itself.
pub open spec fn resolves_to(projects: Map<Seq<char>, ProjectView>, id: Seq<char>, resolved: Seq<char>) -> bool {
    if projects.contains_key(id) {
        resolved == id
    } else if exists|other: Seq<char>| #[trigger] projects.contains_key(other) && answers_to(projects[other], id) {
        projects.contains_key(resolved) && answers_to(projects[resolved], id)
    } else {
        resolved == id
    }
}

/// Whether an id resolves one way only: it names a project, or at most one
/// project answers to it.
pub open spec fn resolves_uniquely(projects: Map<Seq<char>, ProjectView>, id: Seq<char>) -> bool {
    ||| projects.contains_key(id)
    ||| forall|a: Seq<char>, b: Seq<char>|
        #![trigger answers_to(projects[a], id), answers_to(projects[b], id)]
        projects.contains_key(a) && answers_to(projects[a], id) && projects.contains_key(b) && answers_to(projects[b], id)
            ==> a == b
}

/// An id that resolves one way only resolves to the same project wherever it
/// is resolved.
pub proof fn law_unique_resolution(projects: Map<Seq<char>, ProjectView>, id: Seq<char>, first: Seq<char>, second: Seq<char>)
    requires
        resolves_uniquely(projects, id),
        resolves_to(projects, id, first),
        resolves_to(projects, id, second),
    ensures
        first == second,
{
    if !projects.contains_key(id) && exists|other: Seq<char>| #[trigger] projects.contains_key(other) && answers_to(projects[other], id) {
        assert(answers_to(projects[first], id) && answers_to(projects[second], id));
    }
}

/// Whether two projects' build data read the same: the same alias, the same
/// former id, and dependencies on the same ids in the same order, each
/// dependency declared by id alone or in object form alike.
pub open spec fn same_reading(a: ProjectBuildData, b: ProjectBuildData) -> bool {
    &&& optional_text(a.alias) == optional_text(b.alias)
    &&& optional_text(a.original_id) == optional_text(b.original_id)
    &&& match (a.config, b.config) {
        (Some(x), Some(y)) => {
            &&& x.depends_on@.len() == y.depends_on@.len()
            &&& forall|i: int| 0 <= i < x.depends_on@.len()
                ==> dependency_id(#[trigger] x.depends_on@[i]) == dependency_id(y.depends_on@[i])
        },
        (None, None) => true,
        _ => false,
    }
}

/// Build data that read the same look the same to the workspace logic: the
/// form in which a dependency is declared, and its other settings, do not
/// matter.
pub proof fn law_dependency_form_is_immaterial(a: ProjectBuildData, b: ProjectBuildData)
    requires
        same_reading(a, b),
    ensures
        a@ == b@,
{
    match (a.config, b.config) {
        (Some(x), Some(y)) => {
            assert(x.depends_on@.map_values(|dep: ProjectDependsOn| dependency_id(dep))
                =~= y.depends_on@.map_values(|dep: ProjectDependsOn| dependency_id(dep)));
        },
        _ => {},
    }
}

/// A project answers to its alias and to its former id, each whatever else the
/// project holds, and to no other id.
pub proof fn law_projects_answer_to_alias_and_former_id(data: ProjectView, id: Seq<char>)
    ensures
        data.alias == Some(id) ==> answers_to(data, id),
        data.original_id == Some(id) ==> answers_to(data, id),
        data.alias != Some(id) && data.original_id != Some(id) ==> !answers_to(data, id),
{
}

/// An id that names no project, but is the alias or former id of exactly one
/// project, resolves to that project.
pub proof fn law_alias_resolves_to_its_project(
    projects: Map<Seq<char>, ProjectView>,
    id: Seq<char>,
    project: Seq<char>,
    resolved: Seq<char>,
)
    requires
        !projects.contains_key(id),
        projects.contains_key(project),
        projects[project].alias == Some(id) || projects[project].original_id == Some(id),
        forall|other: Seq<char>| #[trigger] projects.contains_key(other) && other != project
            ==> projects[other].alias != Some(id) && projects[other].original_id != Some(id),
        resolves_to(projects, id, resolved),
    ensures
        resolved == project,
{
    law_projects_answer_to_alias_and_former_id(projects[project], id);
    assert(projects.contains_key(project) && answers_to(projects[project], id));
    if resolved != project {
        law_projects_answer_to_alias_and_former_id(projects[resolved], id);
    }
}

/// An id that names a project resolves to itself.
pub proof fn law_project_id_resolves_to_itself(projects: Map<Seq<char>, ProjectView>, id: Seq<char>, resolved: Seq<char>)
    requires
        projects.contains_key(id),
        resolves_to(projects, id, resolved),
    ensures
        resolved == id,
{
}

impl ProjectBuildData {
    /// Whether this project answers to `id` by its former id or its alias.
    fn answers_to(&self, id: &String) -> (found: bool)
        ensures
            found == answers_to(self@, id@),
    {
        let by_original = match &self.original_id {
            Some(original) => *original == *id,
            None => false,
        };
        let by_alias = match &self.alias {
            Some(alias) => *alias == *id,
            None => false,
        };
        by_original || by_alias
    }

    /// Resolves an id, which may be an alias or the former id of a renamed
    /// project, to the id of the project it stands for. An id that names no
    /// project and that no project answers to is returned as it is. Where
    /// several projects answer to the id, the first one that the map walks
    /// over is taken.
    #[verifier::loop_isolation(false)]
    pub fn resolve_id(id: &String, project_data: &FxHashMap<String, ProjectBuildData>) -> (resolved: String)
        ensures
            resolves_to(projects_of(*project_data), id@, resolved@),
    {
        if contains_project(project_data, id.as_str()) {
            return id.clone();
        }
        let entries = project_entries(project_data);
        let mut i: usize = 0;
        while i < entries.len()
            invariant
                0 <= i <= entries@.len(),
                !projects_of(*project_data).contains_key(id@),
                forall|k: int| 0 <= k < i ==> !answers_to(entries@[k].1@, id@),
            decreases entries@.len() - i,
        {
            let (project_id, data) = entries[i];
            if data.answers_to(id) {
                proof {
                    assert(projects_of(*project_data).contains_key(entries@[i as int].0@));
                    assert(answers_to(projects_of(*project_data)[project_id@], id@));
                }
                return project_id.clone();
            }
            i = i + 1;
        }
        proof {
            assert forall|other: Seq<char>| #[trigger] projects_of(*project_data).contains_key(other)
                implies !answers_to(projects_of(*project_data)[other], id@) by {
                let k = choose|k: int| 0 <= k < entries@.len() && #[trigger] entries@[k].0@ == other;
                assert(!answers_to(entries@[k].1@, id@));
            }
        }
        id.clone()
    }
}

/// The scope that a task target is qualified by.
#[derive(Clone, Debug, PartialEq, Eq, Hash)]
pub enum TargetScope {
    /// Every project (`:task`).
    All,
    /// The dependencies of a project (`^:task`).
    Deps,
    /// The project that the target stands in (`~:task`).
    OwnSelf,
    /// One project, by id (`project:task`).
    Project(String),
    /// The projects with a tag (`#tag:task`).
    Tag(String),
}

/// A task target: a scope and a task id.
#[derive(Clone, Debug, PartialEq, Eq, Hash)]
pub struct Target {
    pub scope: TargetScope,
    pub task_id: String,
}

/// A target scope, its ids taken by their characters.
pub enum TargetScopeView {
    All,
    Deps,
    OwnSelf,
    Project(Seq<char>),
    Tag(Seq<char>),
}

/// A task target, its ids taken by their characters.
pub struct TargetView {
    pub scope: TargetScopeView,
    pub task_id: Seq<char>,
}

impl View for Target {
    type V = TargetView;

    open spec fn view(&self) -> TargetView {
        TargetView {
            scope: match self.scope {
                TargetScope::All => TargetScopeView::All,
                TargetScope::Deps => TargetScopeView::Deps,
                TargetScope::OwnSelf => TargetScopeView::OwnSelf,
                TargetScope::Project(id) => TargetScopeView::Project(id@),
                TargetScope::Tag(id) => TargetScopeView::Tag(id@),
            },
            task_id: self.task_id@,
        }
    }
}

impl Target {
    /// The id of the project that the target is scoped to, where it is scoped to one.
    pub fn get_project_id(&self) -> (project_id: Option<&String>)
        ensures
            match self.scope {
                TargetScope::Project(id) => project_id == Some(&id),
                _ => project_id is None,
            },
    {
        match &self.scope {
            TargetScope::Project(id) => Some(id),
            _ => None,
        }
    }
}

/// The options of a task, passed through the queries unchanged.
#[derive(Clone, Debug, Default, PartialEq, Eq)]
pub struct TaskOptions {
    pub cache: bool,
    pub persistent: bool,
    pub run_in_ci: bool,
    pub retry_count: u8,
    pub timeout: Option<u64>,
}

/// What the workspace builder knows of a task before the graph is built.
#[derive(Clone, Debug, Default)]
pub struct TaskBuildData {
    pub options: TaskOptions,
}

impl View for TaskBuildData {
    type V = TaskOptions;

    open spec fn view(&self) -> TaskOptions {
        self.options
    }
}

} // verus!
