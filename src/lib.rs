pub mod diagram;
pub mod graph;
pub mod laws;
pub mod nn;
pub mod scalar;
pub mod topo;
pub mod trace;
