//! Traffic assignment support: the compact indexed graph that the
//! assignment algorithms run on, path reconstruction, and the method
//! selectors.
pub mod frank_wolfe;
pub mod indexed_graph;
pub mod lua_vdf;
pub mod msa;
pub mod shortest_path;
