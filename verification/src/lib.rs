//! Voxel world core: block registry and state packing, chunk buffers,
//! edit tracking, chunk lighting and meshing, the event queue, the chunk
//! slot table and the rebuild scheduler.

pub mod types;
pub mod meshutil;
pub mod grid;
pub mod keys;
pub mod strorder;
pub mod config;
pub mod registry;
pub mod layout;
pub mod state;
pub mod compile;
pub mod construct;
pub mod edit;
pub mod tabs;
pub mod assets;
pub mod sun;
pub mod worldgen;
pub mod session;
pub mod raycast;
pub mod snap;
pub mod mcworld;
pub mod world;
pub mod greedy;
pub mod meshing;
pub mod chunkbuf;
pub mod propagate;
pub mod lighting;
pub mod mesher;
pub mod coords;
pub mod event;
pub mod inventory;
pub mod minimap;
pub mod intents;
