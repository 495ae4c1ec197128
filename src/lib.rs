//! The integer core of a tile-scheduled path tracer: the RGBA framebuffer,
//! the names of output files, the line grammar of mesh files, the partition
//! of an image into square tiles, and the coordinator's dispatch state
//! machine that hands tiles to workers and stores their results.
pub mod image;
pub mod mesh;
pub mod naming;
pub mod scheduler;
pub mod tiles;
