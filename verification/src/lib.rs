pub mod dfs;
pub mod dijkstra;
pub mod frontier;
pub mod graph;
pub mod marks;
pub mod prim;
pub mod reach;
pub mod text;
pub mod trace;

pub use graph::Edge;
pub use graph::Graph;
pub use graph::Visualization;
pub use graph::VisualizationStep;
pub use graph::create_city_graph;
pub use graph::resolve_city;
