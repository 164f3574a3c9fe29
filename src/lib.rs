pub mod constants;
pub mod culling;
pub mod draw;
pub mod frustum;
pub mod horizon_culling;
pub mod id_arena;
pub mod lod_select;
pub mod node;
pub mod node_backing;
pub mod patch;
pub mod provider;
pub mod quad_tree;
pub mod residency;
pub mod timeline;
