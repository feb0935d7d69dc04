//! Per-agent control pipeline of a self-organising UAV swarm: neighbour
//! tracking, spanning-tree formation, task subdivision over the tree and a
//! collision-avoidance velocity filter.
//!
//! Geometry is fixed-point: positions are in millimetres, velocities in
//! millimetres per second, and times in milliseconds.

pub mod astroconf;
pub mod vector;
pub mod msg;
pub mod contacts;
pub mod tm;
pub mod nm;
pub mod collivoid;
pub mod control;
pub mod gps;
pub mod kinetics;
pub mod transceiver;
pub mod groupstate;
