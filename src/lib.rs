//! Offline pipeline core for terrain impostors: visibility-group closure over
//! region rectangles, ordered multi-LOD tile scheduling, height-grid
//! aggregation, asset deduplication, and FastCGI record framing.
pub mod region;
pub mod geometry;
pub mod vizgroup;
pub mod regionorder;
pub mod fcgi;
pub mod heightgrid;
pub mod assets;
pub mod sculpt;
pub mod auth;
