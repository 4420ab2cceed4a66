pub mod algorithm;
pub mod dijkstra;
