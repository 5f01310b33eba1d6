//! inotify event constants (same values as `<sys/inotify.h>`), as C `int`s
//! because that is how event masks are passed around, and the error numbers
//! the library decides on.

use vstd::prelude::*;

verus! {

pub const IN_ACCESS: i32 = 0x0000_0001;
pub const IN_MODIFY: i32 = 0x0000_0002;
pub const IN_ATTRIB: i32 = 0x0000_0004;
pub const IN_CLOSE_WRITE: i32 = 0x0000_0008;
pub const IN_CLOSE_NOWRITE: i32 = 0x0000_0010;
/// `IN_CLOSE_WRITE | IN_CLOSE_NOWRITE`
pub const IN_CLOSE: i32 = 0x0000_0018;
pub const IN_OPEN: i32 = 0x0000_0020;
pub const IN_MOVED_FROM: i32 = 0x0000_0040;
pub const IN_MOVED_TO: i32 = 0x0000_0080;
/// `IN_MOVED_FROM | IN_MOVED_TO`
pub const IN_MOVE: i32 = 0x0000_00c0;
pub const IN_CREATE: i32 = 0x0000_0100;
pub const IN_DELETE: i32 = 0x0000_0200;
pub const IN_DELETE_SELF: i32 = 0x0000_0400;
pub const IN_MOVE_SELF: i32 = 0x0000_0800;
pub const IN_UNMOUNT: i32 = 0x0000_2000;
pub const IN_Q_OVERFLOW: i32 = 0x0000_4000;
pub const IN_IGNORED: i32 = 0x0000_8000;
pub const IN_ONLYDIR: i32 = 0x0100_0000;
pub const IN_DONT_FOLLOW: i32 = 0x0200_0000;
pub const IN_EXCL_UNLINK: i32 = 0x0400_0000;
pub const IN_MASK_ADD: i32 = 0x2000_0000;
pub const IN_ISDIR: i32 = 0x4000_0000;
/// The sign bit, `0x8000_0000` as a C `int`.
pub const IN_ONESHOT: i32 = -0x8000_0000;
/// The twelve events from `IN_ACCESS` to `IN_MOVE_SELF`.
pub const IN_ALL_EVENTS: i32 = 0x0000_0fff;

// Error numbers.
pub const EPERM: i32 = 1;
pub const ENOENT: i32 = 2;
pub const EINTR: i32 = 4;
pub const EACCES: i32 = 13;
pub const ENOTDIR: i32 = 20;
pub const EINVAL: i32 = 22;
pub const EMFILE: i32 = 24;
pub const ENOSPC: i32 = 28;
/// Not the same everywhere; see [`ErrorNumbers`].
pub const ELOOP: i32 = 40;
/// Not the same everywhere; see [`ErrorNumbers`].
pub const EMSGSIZE: i32 = 90;

/// The error numbers that differ between systems.
#[derive(Clone, Copy, Debug, PartialEq, Eq, Structural)]
pub struct ErrorNumbers {
    pub eloop: i32,
    pub emsgsize: i32,
}

impl ErrorNumbers {
    /// The error numbers of Linux's generic ABI (`<asm-generic/errno.h>`).
    pub fn generic() -> (n: ErrorNumbers)
        ensures
            n == (ErrorNumbers { eloop: ELOOP, emsgsize: EMSGSIZE }),
    {
        ErrorNumbers { eloop: ELOOP, emsgsize: EMSGSIZE }
    }
}

/// Maximum length of strings produced by the printf-like functions.
pub const MAX_STRLEN: usize = 4096;

} // verus!
