//! An engine that keeps several model representations consistent by running
//! declared translations between them in ordered rounds.
pub mod ordered_map;
pub mod value;
pub mod diff_spec;
pub mod model;
pub mod laws;
pub mod graph;
pub mod round;
pub mod change_queue;
pub mod watchers;
pub mod commands;
pub mod nodes;
pub mod translations;
