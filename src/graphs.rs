pub mod directed;
pub mod graph;
pub mod undirected;
