//! libinotifytools: a small library simplifying the use of inotify and
//! fanotify, and the logic of the tools inotifywait and inotifywatch.
//!
//! The library makes no system calls.  [`Inotifytools`] keeps the books on
//! watches, events and statistics; its operations tell the caller which
//! calls to make, and take their outcomes.

pub mod buffer;
pub mod bytes;
pub mod common;
pub mod consts;
pub mod events;
pub mod fid;
pub mod inotify;
pub mod keymap;
pub mod order;
pub mod stats;
pub mod table;
pub mod wait;
pub mod watch;

pub use crate::buffer::Event;
pub use crate::consts::MAX_STRLEN;
pub use crate::events::str_to_event;
pub use crate::events::str_to_event_sep;
pub use crate::inotify::printf::NString;
pub use crate::inotify::setup::isdir;
pub use crate::inotify::EventPath;
pub use crate::inotify::Inotifytools;
pub use crate::inotify::WatchRef;
pub use crate::stats::WatchStats;
