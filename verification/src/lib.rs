//! Root-level virtual filesystem layer of a unikernel-style component
//! library, together with a few small hardware-adjacent state machines
//! (IRQ statistics, console line discipline, timer tick conversion).
//!
//! The core is the mount-point resolution and path-resolution engine:
//! a mount table with longest-prefix dispatch, pure path canonicalization,
//! bounded symbolic-link resolution and the process-wide current-directory
//! state. Filesystem backends are modeled by an in-memory filesystem
//! ([`memfs::MemFs`]) implementing the node capability interface; paths are
//! byte strings throughout.

pub mod console;
pub mod laws;
pub mod irq;
pub mod memfs;
pub mod mount;
pub mod path;
pub mod root;
pub mod time;
pub mod types;
