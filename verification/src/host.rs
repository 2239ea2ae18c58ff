//! What a game engine hands to the simulation and reads back from it, as plain values.

pub mod status;
pub mod handles;
pub mod cells;
pub mod pixels;
pub mod vetting;
pub mod cropping;
pub mod splitting;
pub mod body_states;
pub mod split_queue;
pub mod motors;
pub mod motor_laws;
pub mod place_laws;
pub mod row_laws;
pub mod contact_laws;
pub mod contacts;
pub mod stepping;
pub mod joints;
pub mod bodies;
pub mod families;
pub mod terrain;
pub mod queries;
