//! Turn-based grid simulation core: integer grid coordinates, streamed chunks of
//! terrain, field of view, path search, a two-phase turn scheduler and a
//! movement resolver for many actors.
pub mod grid;
pub mod terrain;
pub mod turns;
pub mod movement;
pub mod path;
pub mod fov;
pub mod sight;
pub mod world;
pub mod fog;
