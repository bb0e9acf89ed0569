//! Verified workspace logic: the glob-or-path input shape of project
//! configuration, and the transitive dependency computation and task queries
//! of the workspace builder.

pub mod build_data;
pub mod dep_graph;
pub mod fx;
pub mod glob_or_path;
pub mod tasks_querent;
pub mod text;
