//! The Fx hash collections of `rustc_hash` that the workspace logic keeps its
//! data in, with what their methods do stated over what each collection holds.

use vstd::prelude::*;
use rustc_hash::{FxBuildHasher, FxHashMap, FxHashSet};
use crate::build_data::{ProjectBuildData, ProjectView, Target, TargetView, TaskBuildData, TaskOptions};

verus! {

#[verifier::external_type_specification]
#[verifier::external_body]
pub struct ExFxBuildHasher(FxBuildHasher);

/// The ids of a list, each taken by its text.
pub open spec fn ids_view(ids: Seq<String>) -> Seq<Seq<char>> {
    ids.map_values(|id: String| id@)
}

/// What a map from ids to lists of ids holds, keys and values taken by their text.
pub uninterp spec fn id_lists_of(map: FxHashMap<String, Vec<String>>) -> Map<Seq<char>, Seq<Seq<char>>>;

/// What a map from project ids to build data holds, each taken by its view.
pub uninterp spec fn projects_of(map: FxHashMap<String, ProjectBuildData>) -> Map<Seq<char>, ProjectView>;

/// What a map from task targets to build data holds, each taken by its view.
pub uninterp spec fn tasks_of(map: FxHashMap<Target, TaskBuildData>) -> Map<TargetView, TaskOptions>;

/// What a set of ids holds, each taken by its text.
pub uninterp spec fn id_set_of(set: FxHashSet<String>) -> Set<Seq<char>>;

/// `FxHashMap::default`: a new map holds nothing.
#[verifier::external_body]
pub fn new_id_lists() -> (fresh: FxHashMap<String, Vec<String>>)
    ensures
        id_lists_of(fresh).is_empty(),
{
    FxHashMap::default()
}

/// `HashMap::insert`: afterwards the map holds what it held, with `key` now
/// mapped to `ids` (replacing what `key` was mapped to before, if anything).
#[verifier::external_body]
pub fn insert_id_list(map: &mut FxHashMap<String, Vec<String>>, key: String, ids: Vec<String>)
    ensures
        id_lists_of(*final(map)) == id_lists_of(*old(map)).insert(key@, ids_view(ids@)),
{
    map.insert(key, ids);
}

/// `HashMap::get`: the list that `key` is mapped to, if it is mapped.
#[verifier::external_body]
pub fn get_id_list<'a>(map: &'a FxHashMap<String, Vec<String>>, key: &str) -> (found: Option<&'a Vec<String>>)
    ensures
        found is Some <==> id_lists_of(*map).contains_key(key@),
        found matches Some(ids) ==> ids_view(ids@) == id_lists_of(*map)[key@],
{
    map.get(key)
}

/// `HashMap::iter`, collected: every entry of the map once, in the order in
/// which the map walks them. That order is not stated.
#[verifier::external_body]
pub fn project_entries<'a>(map: &'a FxHashMap<String, ProjectBuildData>) -> (entries: Vec<(&'a String, &'a ProjectBuildData)>)
    ensures
        forall|i: int| 0 <= i < entries@.len() ==> {
            &&& projects_of(*map).contains_key(#[trigger] entries@[i].0@)
            &&& projects_of(*map)[entries@[i].0@] == entries@[i].1@
        },
        forall|i: int, j: int| 0 <= i < j < entries@.len() ==> #[trigger] entries@[i].0@ != #[trigger] entries@[j].0@,
        forall|key: Seq<char>| #[trigger] projects_of(*map).contains_key(key) ==> exists|i: int| 0 <= i < entries@.len() && #[trigger] entries@[i].0@ == key,
{
    map.iter().collect()
}

/// `HashMap::iter`, collected: every entry of the map once, in the order in
/// which the map walks them. That order is not stated.
#[verifier::external_body]
pub fn task_entries<'a>(map: &'a FxHashMap<Target, TaskBuildData>) -> (entries: Vec<(&'a Target, &'a TaskBuildData)>)
    ensures
        forall|i: int| 0 <= i < entries@.len() ==> {
            &&& tasks_of(*map).contains_key(#[trigger] entries@[i].0@)
            &&& tasks_of(*map)[entries@[i].0@] == entries@[i].1@
        },
        forall|i: int, j: int| 0 <= i < j < entries@.len() ==> #[trigger] entries@[i].0@ != #[trigger] entries@[j].0@,
        forall|target: TargetView| #[trigger] tasks_of(*map).contains_key(target) ==> exists|i: int| 0 <= i < entries@.len() && #[trigger] entries@[i].0@ == target,
{
    map.iter().collect()
}

/// `HashMap::contains_key`.
#[verifier::external_body]
pub fn contains_project(map: &FxHashMap<String, ProjectBuildData>, key: &str) -> (found: bool)
    ensures
        found == projects_of(*map).contains_key(key@),
{
    map.contains_key(key)
}

/// `FxHashSet::default`: a new set holds nothing.
#[verifier::external_body]
pub fn new_id_set() -> (fresh: FxHashSet<String>)
    ensures
        id_set_of(fresh).is_empty(),
{
    FxHashSet::default()
}

/// `HashSet::insert`: afterwards the set also holds `id`; the result tells
/// whether it did not before.
#[verifier::external_body]
pub fn insert_id(set: &mut FxHashSet<String>, id: String) -> (added: bool)
    ensures
        id_set_of(*final(set)) == id_set_of(*old(set)).insert(id@),
        added == !id_set_of(*old(set)).contains(id@),
{
    set.insert(id)
}

/// `HashSet::contains`.
#[verifier::external_body]
pub fn contains_id(set: &FxHashSet<String>, id: &str) -> (found: bool)
    ensures
        found == id_set_of(*set).contains(id@),
{
    set.contains(id)
}

} // verus!
