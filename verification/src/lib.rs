//! Verification, repair and creation of PAR2 recovery sets.
//!
//! A PAR2 set protects files against damage. Their contents are cut into data blocks; recovery blocks
//! are sums of the data blocks, weighted with powers of constants of the field GF(2^16). As many data
//! blocks as there are recovery blocks can be lost and restored.
//!
//! - [`galois`]: the field, and sums over slices of its elements
//! - [`reed_solomon`], [`streaming_encoder`]: recovery blocks from data blocks, and back
//! - [`elimination`], [`solver`], [`reconstruction`], [`constants`]: why and how missing blocks are found
//! - [`hash`], [`numbers`], [`packets`]: digests, numbers and packets in PAR2 files
//! - [`writer`], [`volumes`], [`creator`]: writing PAR2 files
//! - [`parser`], [`ordering`], [`tables`], [`loader`], [`info`]: reading PAR2 files
//! - [`layout`], [`any_order`]: what stands where in PAR2 files, and that packets count wherever they stand
//! - [`reading_back`], [`created_sets`]: what is written can be read
//! - [`limits`], [`parity`]: how blocks are counted, and what recovery blocks hold
//! - [`blocks`], [`verify`], [`messages`], [`detection`]: finding damage
//! - [`progress`]: how much of the work is done
//! - [`repair_plan`], [`planning`], [`chunks`], [`repair`], [`repairer`]: repairing it
//! - [`text`], [`sizes`], [`paths`], [`error`]: texts, sizes, paths and errors
//! - [`found_damage`], [`restoration`], [`round_trip`], [`giving_back`], [`after_repair`]: repair gives back
//!   what was lost

use vstd::prelude::*;

pub mod after_repair;
pub mod any_order;
pub mod blocks;
pub mod chunks;
pub mod constants;
pub mod created_sets;
pub mod creator;
pub mod detection;
pub mod elimination;
pub mod error;
pub mod found_damage;
pub mod galois;
pub mod giving_back;
pub mod hash;
pub mod info;
pub mod layout;
pub mod limits;
pub mod loader;
pub mod messages;
pub mod numbers;
pub mod ordering;
pub mod packets;
pub mod parity;
pub mod parser;
pub mod paths;
pub mod planning;
pub mod progress;
pub mod reading_back;
pub mod reconstruction;
pub mod reed_solomon;
pub mod repair;
pub mod repair_plan;
pub mod repairer;
pub mod restoration;
pub mod round_trip;
pub mod sizes;
pub mod solver;
pub mod streaming_encoder;
pub mod tables;
pub mod text;
pub mod verify;
pub mod volumes;
pub mod writer;

pub use creator::Par2Creator;
pub use error::{Par2Error, Result};
pub use info::{Par2FileEntry, Par2Info};
pub use repairer::{Par2Operation, Par2Repairer};
pub use volumes::VolumeScheme;

verus! {

} // verus!
