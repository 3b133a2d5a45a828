//! Incremental multi-resolution signed-distance-field construction around a
//! moving viewer: cascade scheduling, triangle storage, visibility culling,
//! tile binning, fine rasterization, jump-flood seed propagation and distance
//! extraction, all on fixed-point integer geometry.

pub mod geom;
pub mod settings;
pub mod scheduler;
pub mod region;
pub mod culler;
pub mod triangle_store;
pub mod coarse;
pub mod seeds;
pub mod fine;
pub mod extract;

pub use geom::IVec3;
pub use settings::{
    CascadeSettings, CascadeUpdateSchedule, ExtractionFilter, SceneSdfSettings, SdfCentre, MAX_IDS_PER_TILE,
    MAX_TILES, MAX_TRI_COUNT, SUBVOXELS_PER_VOXEL_DIM, TILE_COUNT, TILE_DIM_COUNT, UNITS_PER_WORLD_UNIT,
    VOXELS_PER_TILE_DIM,
};
