use moon_workspace_core::build_data::{
    ProjectBuildData, ProjectConfig, ProjectDependencyConfig, ProjectDependsOn, Target, TargetScope,
    TaskBuildData, TaskOptions,
};
use moon_workspace_core::tasks_querent::{
    compute_transitive_deps, QuerentError, WorkspaceBuilderTasksQuerent,
};
use rustc_hash::FxHashMap;

fn project(deps: &[&str]) -> ProjectBuildData {
    ProjectBuildData {
        config: Some(ProjectConfig {
            depends_on: deps
                .iter()
                .enumerate()
                .map(|(i, id)| {
                    if i % 2 == 0 {
                        ProjectDependsOn::String(id.to_string())
                    } else {
                        ProjectDependsOn::Object(ProjectDependencyConfig { id: id.to_string() })
                    }
                })
                .collect(),
        }),
        ..Default::default()
    }
}

fn workspace(projects: &[(&str, &[&str])]) -> FxHashMap<String, ProjectBuildData> {
    projects
        .iter()
        .map(|(id, deps)| (id.to_string(), project(deps)))
        .collect()
}

fn sorted(ids: &[String]) -> Vec<String> {
    let mut ids = ids.to_vec();
    ids.sort();
    ids
}

fn strings(ids: &[&str]) -> Vec<String> {
    ids.iter().map(|id| id.to_string()).collect()
}

#[test]
fn chain_with_hubs() {
    let data = workspace(&[
        ("hub0", &[]),
        ("hub1", &[]),
        ("p0", &["hub0", "hub1"]),
        ("p1", &["p0", "hub0", "hub1"]),
        ("p2", &["p1", "hub0", "hub1"]),
    ]);
    let deps = compute_transitive_deps(&data);
    assert_eq!(deps.len(), 5);
    assert_eq!(sorted(&deps["p2"]), strings(&["hub0", "hub1", "p0", "p1"]));
    assert_eq!(sorted(&deps["p1"]), strings(&["hub0", "hub1", "p0"]));
    assert_eq!(sorted(&deps["p0"]), strings(&["hub0", "hub1"]));
    assert!(deps["hub0"].is_empty());
}

#[test]
fn walk_order_of_dependencies() {
    let data = workspace(&[("a", &["b", "c"]), ("b", &["d"]), ("c", &[]), ("d", &[])]);
    let deps = compute_transitive_deps(&data);
    // The last declared dependency is taken first.
    assert_eq!(deps["a"], strings(&["c", "b", "d"]));
}

#[test]
fn missing_dependencies_are_left_out() {
    let data = workspace(&[("a", &["ghost", "b"]), ("b", &["phantom"])]);
    let deps = compute_transitive_deps(&data);
    assert_eq!(deps["a"], strings(&["b"]));
    assert!(deps["b"].is_empty());
}

#[test]
fn cycles_do_not_list_the_project_itself() {
    let data = workspace(&[("a", &["b"]), ("b", &["c"]), ("c", &["a"]), ("s", &["s"])]);
    let deps = compute_transitive_deps(&data);
    assert_eq!(sorted(&deps["a"]), strings(&["b", "c"]));
    assert_eq!(sorted(&deps["b"]), strings(&["a", "c"]));
    assert!(deps["s"].is_empty());
}

#[test]
fn shared_dependencies_are_listed_once() {
    let data = workspace(&[("a", &["b", "c", "b"]), ("b", &["d"]), ("c", &["d"]), ("d", &[])]);
    let deps = compute_transitive_deps(&data);
    assert_eq!(sorted(&deps["a"]), strings(&["b", "c", "d"]));
}

#[test]
fn projects_without_config_have_no_dependencies() {
    let mut data = workspace(&[("a", &["b"])]);
    data.insert("b".to_string(), ProjectBuildData::default());
    let deps = compute_transitive_deps(&data);
    assert_eq!(deps["a"], strings(&["b"]));
    assert!(deps["b"].is_empty());
}

#[test]
fn empty_workspace() {
    let deps = compute_transitive_deps(&FxHashMap::default());
    assert!(deps.is_empty());
}

#[test]
fn dependencies_of_dependencies_compose() {
    let data = workspace(&[("a", &["b"]), ("b", &["c"]), ("c", &["d"]), ("d", &[])]);
    let deps = compute_transitive_deps(&data);
    for dep in &deps["b"] {
        assert!(deps["a"].contains(dep));
    }
    for dep in &deps["c"] {
        assert!(deps["a"].contains(dep));
    }
}

fn target(project: &str, task: &str) -> Target {
    Target {
        scope: TargetScope::Project(project.to_string()),
        task_id: task.to_string(),
    }
}

fn task(cache: bool) -> TaskBuildData {
    TaskBuildData {
        options: TaskOptions {
            cache,
            ..Default::default()
        },
    }
}

#[test]
fn query_transitive_deps_reads_precomputed() {
    let data = workspace(&[("a", &["b"]), ("b", &["c"]), ("c", &[])]);
    let precomputed = Some(compute_transitive_deps(&data));
    let none = None;
    let by_tag = FxHashMap::default();
    let tasks = FxHashMap::default();
    let querent = WorkspaceBuilderTasksQuerent {
        project_data: &data,
        all_project_ids: &none,
        projects_by_tag: &by_tag,
        task_data: &tasks,
        transitive_deps: &precomputed,
    };
    assert_eq!(querent.query_transitive_deps("a").unwrap(), strings(&["b", "c"]));
    assert!(querent.query_transitive_deps("c").unwrap().is_empty());
    let error = querent.query_transitive_deps("z").unwrap_err();
    assert_eq!(
        error.message(),
        "Transitive dependencies for project z were not precomputed"
    );
}

#[test]
fn query_transitive_deps_not_precomputed() {
    let data = workspace(&[("a", &[])]);
    let none = None;
    let not_computed = None;
    let by_tag = FxHashMap::default();
    let tasks = FxHashMap::default();
    let querent = WorkspaceBuilderTasksQuerent {
        project_data: &data,
        all_project_ids: &none,
        projects_by_tag: &by_tag,
        task_data: &tasks,
        transitive_deps: &not_computed,
    };
    match querent.query_transitive_deps("a") {
        Err(QuerentError::TransitiveDepsNotPrecomputed(id)) => assert_eq!(id, "a"),
        other => panic!("unexpected {other:?}"),
    }
    match querent.query_all() {
        Err(error @ QuerentError::AllProjectIdsNotPrecomputed) => {
            assert_eq!(error.message(), "List of all dependencies was not precomputed")
        }
        other => panic!("unexpected {other:?}"),
    }
}

#[test]
fn query_all_and_by_tag() {
    let data = workspace(&[("a", &[]), ("b", &[])]);
    let all = Some(strings(&["a", "b"]));
    let mut by_tag = FxHashMap::default();
    by_tag.insert("frontend".to_string(), strings(&["b"]));
    let tasks = FxHashMap::default();
    let none = None;
    let querent = WorkspaceBuilderTasksQuerent {
        project_data: &data,
        all_project_ids: &all,
        projects_by_tag: &by_tag,
        task_data: &tasks,
        transitive_deps: &none,
    };
    assert_eq!(querent.query_all().unwrap(), strings(&["a", "b"]));
    assert_eq!(querent.query_projects_by_tag("frontend").unwrap(), strings(&["b"]));
    assert!(querent.query_projects_by_tag("backend").unwrap().is_empty());
}

#[test]
fn query_tasks_resolves_aliases_and_scopes() {
    let mut data = workspace(&[("app", &[]), ("lib", &[]), ("other", &[])]);
    data.get_mut("lib").unwrap().alias = Some("@scope/lib".to_string());
    data.get_mut("other").unwrap().original_id = Some("old-other".to_string());
    let mut tasks = FxHashMap::default();
    tasks.insert(target("app", "build"), task(true));
    tasks.insert(target("lib", "build"), task(false));
    tasks.insert(target("lib", "test"), task(true));
    tasks.insert(target("other", "build"), task(true));
    tasks.insert(
        Target {
            scope: TargetScope::All,
            task_id: "build".to_string(),
        },
        task(true),
    );
    let none = None;
    let by_tag = FxHashMap::default();
    let not_computed = None;
    let querent = WorkspaceBuilderTasksQuerent {
        project_data: &data,
        all_project_ids: &none,
        projects_by_tag: &by_tag,
        task_data: &tasks,
        transitive_deps: &not_computed,
    };
    let app = "app".to_string();
    let alias = "@scope/lib".to_string();
    let old = "old-other".to_string();
    let build = "build".to_string();
    let found = querent.query_tasks(vec![&app, &alias, &old], &build).unwrap();
    let mut found: Vec<(String, bool)> = found
        .iter()
        .map(|(target, options)| match &target.scope {
            TargetScope::Project(id) => (id.clone(), options.cache),
            _ => panic!("unexpected scope"),
        })
        .collect();
    found.sort();
    assert_eq!(
        found,
        vec![("app".to_string(), true), ("lib".to_string(), false), ("other".to_string(), true)]
    );
    let unknown = "unknown".to_string();
    assert!(querent.query_tasks(vec![&unknown], &build).unwrap().is_empty());
}

#[test]
fn resolve_id_keeps_unknown_ids() {
    let mut data = workspace(&[("lib", &[])]);
    data.get_mut("lib").unwrap().alias = Some("l".to_string());
    assert_eq!(ProjectBuildData::resolve_id(&"lib".to_string(), &data), "lib");
    assert_eq!(ProjectBuildData::resolve_id(&"l".to_string(), &data), "lib");
    assert_eq!(ProjectBuildData::resolve_id(&"x".to_string(), &data), "x");
}

#[test]
fn target_project_id() {
    assert_eq!(target("app", "build").get_project_id(), Some(&"app".to_string()));
    let tagged = Target {
        scope: TargetScope::Tag("t".to_string()),
        task_id: "build".to_string(),
    };
    assert_eq!(tagged.get_project_id(), None);
}

#[test]
fn same_contents_give_same_lists() {
    let entries: [(&str, &[&str]); 5] = [
        ("a", &["b", "c"]),
        ("b", &["d", "e"]),
        ("c", &["e"]),
        ("d", &[]),
        ("e", &["d"]),
    ];
    let forward = workspace(&entries);
    let mut backward: FxHashMap<String, ProjectBuildData> = FxHashMap::default();
    for (id, deps) in entries.iter().rev() {
        backward.insert(id.to_string(), project(deps));
    }
    assert_eq!(compute_transitive_deps(&forward), compute_transitive_deps(&backward));
}

#[test]
fn dependency_form_does_not_matter() {
    let as_ids = |deps: &[&str]| ProjectBuildData {
        config: Some(ProjectConfig {
            depends_on: deps.iter().map(|id| ProjectDependsOn::String(id.to_string())).collect(),
        }),
        ..Default::default()
    };
    let as_objects = |deps: &[&str]| ProjectBuildData {
        config: Some(ProjectConfig {
            depends_on: deps
                .iter()
                .map(|id| ProjectDependsOn::Object(ProjectDependencyConfig { id: id.to_string() }))
                .collect(),
        }),
        ..Default::default()
    };
    let mut first = FxHashMap::default();
    let mut second = FxHashMap::default();
    for (id, deps) in [("a", &["b", "c"][..]), ("b", &["c"][..]), ("c", &[][..])] {
        first.insert(id.to_string(), as_ids(deps));
        second.insert(id.to_string(), as_objects(deps));
    }
    assert_eq!(compute_transitive_deps(&first), compute_transitive_deps(&second));
}

fn task_query_pairs(
    querent: &WorkspaceBuilderTasksQuerent<'_>,
    ids: &[&str],
    task: &str,
) -> Vec<(String, bool)> {
    let ids: Vec<String> = ids.iter().map(|id| id.to_string()).collect();
    let refs: Vec<&String> = ids.iter().collect();
    let task = task.to_string();
    let mut pairs: Vec<(String, bool)> = querent
        .query_tasks(refs, &task)
        .unwrap()
        .iter()
        .map(|(target, options)| match &target.scope {
            TargetScope::Project(id) => (id.clone(), options.cache),
            _ => panic!("unexpected scope"),
        })
        .collect();
    pairs.sort();
    pairs
}

#[test]
fn query_tasks_by_alias_or_id_and_with_more_ids() {
    let mut data = workspace(&[("app", &[]), ("lib", &[])]);
    data.get_mut("lib").unwrap().alias = Some("l".to_string());
    let mut tasks = FxHashMap::default();
    tasks.insert(target("app", "build"), task(true));
    tasks.insert(target("lib", "build"), task(false));
    let none = None;
    let by_tag = FxHashMap::default();
    let not_computed = None;
    let querent = WorkspaceBuilderTasksQuerent {
        project_data: &data,
        all_project_ids: &none,
        projects_by_tag: &by_tag,
        task_data: &tasks,
        transitive_deps: &not_computed,
    };
    assert_eq!(
        task_query_pairs(&querent, &["l"], "build"),
        task_query_pairs(&querent, &["lib"], "build")
    );
    let fewer = task_query_pairs(&querent, &["app"], "build");
    let more = task_query_pairs(&querent, &["app", "l"], "build");
    assert!(fewer.iter().all(|pair| more.contains(pair)));
    assert_eq!(more.len(), 2);
}
