//! Routing core of a lighting relay: DMX universes arrive as sACN frames,
//! are looked up in a fixed mapping table and leave as Art-Net packets.

pub mod artnet;
pub mod config;
pub mod relay;
pub mod subscription;
pub mod table;
