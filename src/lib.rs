//! Module mount composition for a rooted Android system: enabled modules are found,
//! synchronised into a staging mount, routed per partition to OverlayFS or to magic mount,
//! and the magic-mount engine plans the bind and tmpfs mounts that merge them over the
//! host. Every decision here is made on plain values; the program around the library
//! reads the disk and performs the planned operations.

pub mod config;
pub mod inventory;
pub mod magic;
pub mod modules;
pub mod nuke;
pub mod overlay;
pub mod plan;
pub mod router;
pub mod storage;
pub mod sync;
pub mod text;
