//! The library handle: which watches there are, what is known about their
//! files, how often events occurred, and the last error.
//!
//! Calls into the system are made by the caller.  Each operation that needs
//! one says which call to make, and takes its outcome as an argument.

pub mod printf;
pub mod reader;
pub mod resolve;
pub mod setup;
pub mod totals;
pub mod walk;

use vstd::prelude::*;

use crate::buffer::BufferState;
use crate::buffer::Event;
use crate::buffer::EventBuffer;
use crate::bytes;
use crate::bytes::Piece;
use crate::consts;
use crate::consts::ErrorNumbers;
use crate::events;
use crate::fid;
use crate::keymap;
use crate::order::ByteOrder;
use crate::stats::WatchStats;
use crate::table;
use crate::table::TableState;
use crate::table::WatchTable;

verus! {

/// Compile a regular expression without reporting match positions
/// (`<regex.h>`).
pub const REG_NOSUB: i32 = 8;

/// An opaque reference to a watch, see
/// [`Inotifytools::watches_sorted_by_event`].
#[derive(Clone, Copy, Debug, PartialEq, Eq)]
pub struct WatchRef(u64);

impl WatchRef {
    /// The id of the watch.
    pub closed spec fn id(self) -> u64 {
        self.0
    }
}

/// Where the path of an event comes from; see
/// [`Inotifytools::filename_from_event`].
#[derive(Clone, Debug, Default, PartialEq, Eq)]
pub struct EventPath {
    /// The full filename recorded for the event's watch (for fanotify this
    /// may already include the event's file name).
    pub filename: Vec<u8>,
    /// Length of the directory part of `filename`.
    pub dirnamelen: usize,
    /// Name of the file within the directory (may be empty).
    pub eventname: Vec<u8>,
}

impl EventPath {
    /// The watched directory (or file) part: `filename[..dirnamelen]`.
    pub fn dirname(&self) -> (d: &[u8])
        ensures
            d@ == if self.dirnamelen < self.filename@.len() {
                self.filename@.take(self.dirnamelen as int)
            } else {
                self.filename@
            },
    {
        let n = if self.dirnamelen < self.filename.len() {
            self.dirnamelen
        } else {
            self.filename.len()
        };
        let d = &self.filename.as_slice()[0..n];
        assert(d@ =~= self.filename@.take(n as int));
        assert(self.filename@.take(self.filename@.len() as int) =~= self.filename@);
        d
    }
}

/// What an [`EventPath`] holds.
#[verifier::ext_equal]
pub struct PathState {
    pub filename: Seq<u8>,
    pub dirnamelen: int,
    pub eventname: Seq<u8>,
}

impl View for EventPath {
    type V = PathState;

    open spec fn view(&self) -> PathState {
        PathState {
            filename: self.filename@,
            dirnamelen: self.dirnamelen as int,
            eventname: self.eventname@,
        }
    }
}

impl PathState {
    /// The watched directory (or file) part.
    pub open spec fn dirname(self) -> Seq<u8> {
        self.filename.take(self.dirnamelen)
    }
}

/// How to set up the event group of a handle.
#[derive(Clone, Copy, Debug, PartialEq, Eq, Structural)]
pub enum Group {
    /// `inotify_init()`
    Inotify,
    /// `fanotify_init()` with these flags.
    Fanotify(u32),
}

/// How to remove a watch.
#[derive(Clone, Copy, Debug, PartialEq, Eq, Structural)]
pub enum Removal {
    /// There is no such watch.
    Absent,
    /// There is no kernel object representing the watch with fanotify.
    Impossible,
    /// `inotify_rm_watch()` with this watch descriptor.
    Kernel(i32),
}

/// Handle holding all library state.
pub struct Inotifytools {
    fd: i32,
    recursive_watch: i32,
    collect_stats: bool,
    error: i32,
    initialized: bool,
    verbosity: i32,
    fanotify_mode: bool,
    fanotify_mark_type: u32,
    self_pid: i32,
    table: WatchTable,
    timefmt: Option<Vec<u8>>,
    filtering: bool,
    invert_regexp: bool,
    totals: WatchStats,
    buffer: EventBuffer,
    numbers: ErrorNumbers,
}

/// What an [`Inotifytools`] holds.
#[verifier::ext_equal]
pub struct LibState {
    /// The descriptor of the event group.
    pub fd: i32,
    /// Directory creation and move-in events pass the filter if not 0.
    pub recursive_watch: i32,
    pub collect_stats: bool,
    /// The last error which occurred.
    pub error: i32,
    pub initialized: bool,
    pub verbosity: i32,
    pub fanotify_mode: bool,
    pub fanotify_mark_type: u32,
    /// The process whose fanotify events are skipped, or 0.
    pub self_pid: i32,
    pub table: TableState,
    /// The format for `%T`; an empty one still counts as set.
    pub timefmt: Option<Seq<u8>>,
    /// Events are filtered by a regular expression.
    pub filtering: bool,
    /// Events that do not match are dropped, rather than those that do.
    pub invert_regexp: bool,
    /// The counters over all watches.
    pub totals: WatchStats,
    pub buffer: BufferState,
    /// The error numbers of the system.
    pub numbers: ErrorNumbers,
}

/// The length of the directory part of a name: all of it, but up to the last
/// '/' in fanotify mode.
pub open spec fn dirname_len(name: Seq<u8>, fanotify: bool) -> int {
    if fanotify && bytes::last_at(name, '/' as u8) != -1 {
        bytes::last_at(name, '/' as u8) + 1
    } else {
        name.len() as int
    }
}

/// The event and direction to sort by.
pub open spec fn sort_order(sort_event: i32) -> (i32, bool) {
    if sort_event == -1 {
        (0, false)
    } else if sort_event == i32::MIN {
        (i32::MIN, false)
    } else if sort_event < 0 {
        ((-sort_event) as i32, false)
    } else {
        (sort_event, true)
    }
}

impl LibState {
    /// An uninitialised handle.
    pub open spec fn fresh(order: ByteOrder) -> LibState {
        LibState {
            fd: (-1) as i32,
            recursive_watch: 0,
            collect_stats: false,
            error: 0,
            initialized: false,
            verbosity: 0,
            fanotify_mode: false,
            fanotify_mark_type: 0,
            self_pid: 0,
            table: TableState {
                watches: Map::empty(),
                next_id: 1,
                next_fanotify_wd: 0,
                by_wd: Map::empty(),
                by_fid: Map::empty(),
                by_filename: Map::empty(),
                released: Seq::empty(),
                order,
            },
            timefmt: None,
            filtering: false,
            invert_regexp: false,
            totals: WatchStats::zero(),
            buffer: BufferState {
                buf: Seq::new(2 * crate::buffer::HALF as nat, |i: int| 0u8),
                first_byte: 0,
                bytes: 0,
                this_bytes: 0,
                ret_off: 0,
            },
            numbers: ErrorNumbers { eloop: consts::ELOOP, emsgsize: consts::EMSGSIZE },
        }
    }

    /// The handle once the kind of event group was chosen.
    pub open spec fn starting(
        self,
        fanotify: bool,
        watch_filesystem: bool,
        verbose: i32,
        fd: i32,
        pid: i32,
    ) -> LibState {
        LibState {
            error: 0,
            verbosity: verbose,
            fanotify_mode: fanotify,
            fanotify_mark_type: if !fanotify {
                self.fanotify_mark_type
            } else if watch_filesystem {
                fid::FAN_MARK_FILESYSTEM
            } else {
                fid::FAN_MARK_INODE
            },
            self_pid: if fanotify {
                pid
            } else {
                self.self_pid
            },
            fd,
            ..self
        }
    }

    /// The handle with its event group set up.
    pub open spec fn started(self) -> LibState {
        LibState {
            collect_stats: false,
            initialized: true,
            timefmt: None,
            table: TableState {
                by_wd: Map::empty(),
                by_fid: Map::empty(),
                by_filename: Map::empty(),
                ..self.table
            },
            ..self
        }
    }

    /// The handle after the event group was to be set up.
    pub open spec fn initialised(
        self,
        fanotify: bool,
        watch_filesystem: bool,
        verbose: i32,
        fd: i32,
        errno: i32,
        pid: i32,
    ) -> LibState {
        if self.initialized {
            self
        } else if fd < 0 {
            LibState {
                error: errno,
                ..self.starting(fanotify, watch_filesystem, verbose, fd, pid)
            }
        } else {
            self.starting(fanotify, watch_filesystem, verbose, fd, pid).started()
        }
    }

    /// The handle after watch `id`, if there is one, was given a name.
    pub open spec fn named(self, id: Option<u64>, name: Seq<u8>) -> LibState {
        match id {
            Some(i) => LibState { table: self.table.renamed(i, name), ..self },
            None => self,
        }
    }

    /// The handle after a prefix was replaced in the names of all watches.
    pub open spec fn replaced(self, oldname: Seq<u8>, newname: Seq<u8>) -> LibState {
        if oldname.len() == 0 || newname.len() == 0 {
            self
        } else {
            LibState {
                table: self.table.replaced(
                    keymap::ids_in_order(self.table.by_filename),
                    oldname,
                    newname,
                ),
                ..self
            }
        }
    }

    /// The handle with all watches freed.
    pub open spec fn cleaned(self) -> LibState {
        LibState {
            initialized: false,
            collect_stats: false,
            error: 0,
            timefmt: None,
            filtering: false,
            table: TableState {
                watches: Map::empty(),
                by_wd: Map::empty(),
                by_fid: Map::empty(),
                by_filename: Map::empty(),
                released: self.table.released + table::held(
                    self.table.watches,
                    self.table.next_id as int,
                ),
                ..self.table
            },
            ..self
        }
    }

    /// The file identifier whose path is the name of watch `id`, if the name
    /// is not simply the recorded one.
    pub open spec fn fid_to_resolve(self, id: u64) -> Option<Seq<u8>> {
        if self.fanotify_mark_type == 0 {
            None
        } else {
            self.table.watches[id].fid
        }
    }

    /// The name of watch `id`, given what its file identifier was resolved
    /// to.
    pub open spec fn name_of_id(self, id: u64, resolved: Option<Seq<u8>>) -> Seq<u8> {
        match resolved {
            Some(path) if self.fid_to_resolve(id) is Some => path,
            _ => self.table.watches[id].filename,
        }
    }

    /// The watch an event belongs to.
    pub open spec fn id_of_wd(self, wd: i32) -> Option<u64> {
        if wd != 0 && self.table.by_wd.contains_key(wd) {
            Some(self.table.by_wd[wd])
        } else {
            None
        }
    }

    /// The name of the watch with a watch descriptor; empty if there is none.
    pub open spec fn name_of_wd(self, wd: i32, resolved: Option<Seq<u8>>) -> Seq<u8> {
        match self.id_of_wd(wd) {
            Some(id) => self.name_of_id(id, resolved),
            None => Seq::empty(),
        }
    }

    /// The file identifier whose path is the name of the watch with a watch
    /// descriptor.
    pub open spec fn fid_of_wd(self, wd: i32) -> Option<Seq<u8>> {
        match self.id_of_wd(wd) {
            Some(id) => self.fid_to_resolve(id),
            None => None,
        }
    }

    /// The path of an event.
    pub open spec fn path_of(
        self,
        wd: i32,
        len: u32,
        name: Seq<u8>,
        resolved: Option<Seq<u8>>,
    ) -> PathState {
        let filename = self.name_of_wd(wd, resolved);
        let dirnamelen = dirname_len(filename, self.fanotify_mode);
        PathState {
            filename,
            dirnamelen,
            eventname: if filename.len() > dirnamelen {
                filename.skip(dirnamelen)
            } else if len > 0 {
                name
            } else {
                Seq::empty()
            },
        }
    }

    /// The directory path of an event on a directory.
    pub open spec fn dirpath_of(
        self,
        wd: i32,
        mask: u32,
        name: Seq<u8>,
        resolved: Option<Seq<u8>>,
    ) -> Option<Seq<u8>> {
        let filename = self.name_of_wd(wd, resolved);
        if filename.len() == 0 || mask as i32 & consts::IN_ISDIR == 0 {
            None
        } else if self.fanotify_mode {
            Some(filename + bytes::lit("/"))
        } else {
            Some(filename + name + bytes::lit("/"))
        }
    }

    /// The watch found by a name.
    pub open spec fn id_of_name(self, filename: Seq<u8>) -> Option<u64> {
        if self.table.by_filename.contains_key(filename) {
            Some(self.table.by_filename[filename])
        } else {
            None
        }
    }

    /// The watch found by a watch descriptor.
    pub open spec fn id_of_any_wd(self, wd: i32) -> Option<u64> {
        if self.table.by_wd.contains_key(wd) {
            Some(self.table.by_wd[wd])
        } else {
            None
        }
    }

    /// The watch descriptor for a filename, or -1.
    pub open spec fn wd_of_name(self, filename: Seq<u8>) -> i32 {
        match self.id_of_name(filename) {
            Some(id) if filename.len() > 0 => self.table.watches[id].wd,
            _ => (-1) as i32,
        }
    }

    /// How to remove a watch.
    pub open spec fn removal(self, id: Option<u64>) -> Removal {
        match id {
            None => Removal::Absent,
            Some(i) => if self.table.watches[i].fid is Some {
                Removal::Impossible
            } else {
                Removal::Kernel(self.table.watches[i].wd)
            },
        }
    }

    /// The handle after a watch was removed, the kernel having answered
    /// `status`, and `errno` if it failed.
    pub open spec fn removed(self, id: Option<u64>, status: i32, errno: i32) -> LibState {
        match self.removal(id) {
            Removal::Absent => self,
            Removal::Impossible => LibState { error: 0, ..self },
            Removal::Kernel(wd) => if status < 0 {
                LibState { error: errno, ..self }
            } else {
                LibState { error: 0, table: self.table.destroyed(id->0), ..self }
            },
        }
    }

    /// Whether removing a watch succeeds, or there is none.
    pub open spec fn removes(self, id: Option<u64>, status: i32) -> bool {
        match self.removal(id) {
            Removal::Absent => true,
            Removal::Impossible => false,
            Removal::Kernel(wd) => status >= 0,
        }
    }

    /// What to say when the kernel does not remove a watch.
    pub open spec fn removal_message(self, id: Option<u64>, why: Seq<u8>) -> Seq<u8> {
        bytes::lit("Failed to remove watch on ") + (match id {
            Some(i) => self.table.watches[i].filename,
            None => Seq::empty(),
        }) + bytes::lit(": ") + why + bytes::lit("\n")
    }

    /// Number of occurrences of an event on a watch, or -1.
    pub open spec fn stat_of(self, id: Option<u64>, event: i32) -> i32 {
        match id {
            Some(i) => if self.collect_stats {
                match self.table.watches[i].stats.counter(event) {
                    Some(c) => c as i32,
                    None => (-1) as i32,
                }
            } else {
                (-1) as i32
            },
            None => (-1) as i32,
        }
    }

    /// Number of occurrences of an event over all watches, or -1.
    pub open spec fn stat_total(self, event: i32) -> i32 {
        match self.totals.counter(event) {
            Some(c) if self.collect_stats => c as i32,
            _ => (-1) as i32,
        }
    }

    /// The handle once counting starts anew.
    pub open spec fn counting(self) -> LibState {
        LibState {
            table: if self.collect_stats {
                self.table.reset()
            } else {
                self.table
            },
            totals: WatchStats::zero(),
            collect_stats: true,
            ..self
        }
    }

    /// The handle after an event was counted.
    pub open spec fn counted(self, wd: i32, mask: u32) -> LibState {
        match self.id_of_any_wd(wd) {
            Some(id) => LibState {
                table: self.table.with_stats(id, self.table.watches[id].stats.recorded(mask)),
                totals: self.totals.recorded(mask),
                ..self
            },
            None => self,
        }
    }
}

impl View for Inotifytools {
    type V = LibState;

    closed spec fn view(&self) -> LibState {
        LibState {
            fd: self.fd,
            recursive_watch: self.recursive_watch,
            collect_stats: self.collect_stats,
            error: self.error,
            initialized: self.initialized,
            verbosity: self.verbosity,
            fanotify_mode: self.fanotify_mode,
            fanotify_mark_type: self.fanotify_mark_type,
            self_pid: self.self_pid,
            table: self.table@,
            timefmt: bytes::opt_bytes(self.timefmt),
            filtering: self.filtering,
            invert_regexp: self.invert_regexp,
            totals: self.totals,
            buffer: self.buffer@,
            numbers: self.numbers,
        }
    }
}

impl Default for Inotifytools {
    fn default() -> (lib: Inotifytools)
        ensures
            lib.wf(),
            lib@ == LibState::fresh(crate::order::native_order()),
    {
        Inotifytools::new()
    }
}

impl Inotifytools {
    pub closed spec fn wf(&self) -> bool {
        self.table.wf() && self.buffer.wf()
    }

    /// What every handle keeps: the indexes of the watches are consistent.
    pub proof fn lemma_wf(&self)
        requires
            self.wf(),
        ensures
            self@.table.consistent(),
            self@.table.by_filename.dom().finite(),
            self@.buffer.buf.len() == 2 * crate::buffer::HALF,
            0 <= self@.buffer.bytes <= crate::buffer::HALF,
    {
        self.table.lemma_wf();
    }

    /// Create an uninitialised handle; call [`Inotifytools::init`] next.
    pub fn new() -> (lib: Inotifytools)
        ensures
            lib.wf(),
            lib@ == LibState::fresh(crate::order::native_order()),
    {
        Inotifytools::with_order(ByteOrder::native())
    }

    /// Create an uninitialised handle for kernel data in the given byte
    /// order.
    pub fn with_order(order: ByteOrder) -> (lib: Inotifytools)
        ensures
            lib.wf(),
            lib@ == LibState::fresh(order),
    {
        Inotifytools {
            fd: -1,
            recursive_watch: 0,
            collect_stats: false,
            error: 0,
            initialized: false,
            verbosity: 0,
            fanotify_mode: false,
            fanotify_mark_type: 0,
            self_pid: 0,
            table: WatchTable::new(order),
            timefmt: None,
            filtering: false,
            invert_regexp: false,
            totals: WatchStats::default(),
            buffer: EventBuffer::new(),
            numbers: ErrorNumbers::generic(),
        }
    }

    /// How to set up the event group.  `None` if it is set up already.
    pub fn init_request(&self, fanotify: bool) -> (r: Option<Group>)
        ensures
            r == if self@.initialized {
                None
            } else if fanotify {
                Some(Group::Fanotify(fid::FAN_REPORT_FID | fid::FAN_REPORT_DFID_NAME))
            } else {
                Some(Group::Inotify)
            },
    {
        if self.initialized {
            None
        } else if fanotify {
            Some(Group::Fanotify(fid::FAN_REPORT_FID | fid::FAN_REPORT_DFID_NAME))
        } else {
            Some(Group::Inotify)
        }
    }

    /// Initialise inotify, or with `fanotify`, a fanotify group (watching
    /// whole filesystems with `watch_filesystem`), where the call of
    /// [`Inotifytools::init_request`] returned `fd`, or failed with `errno`.
    /// Returns false on failure; see [`Inotifytools::error`].
    pub fn init(
        &mut self,
        fanotify: bool,
        watch_filesystem: bool,
        verbose: i32,
        fd: i32,
        errno: i32,
        pid: i32,
    ) -> (ok: bool)
        requires
            old(self).wf(),
        ensures
            final(self).wf(),
            ok == (old(self)@.initialized || fd >= 0),
            final(self)@ == old(self)@.initialised(
                fanotify,
                watch_filesystem,
                verbose,
                fd,
                errno,
                pid,
            ),
    {
        if self.initialized {
            return true;
        }
        self.error = 0;
        self.verbosity = verbose;
        self.fanotify_mode = fanotify;
        if fanotify {
            self.self_pid = pid;
            self.fanotify_mark_type = if watch_filesystem {
                fid::FAN_MARK_FILESYSTEM
            } else {
                fid::FAN_MARK_INODE
            };
        }
        self.fd = fd;
        if self.fd < 0 {
            self.error = errno;
            return false;
        }
        self.collect_stats = false;
        self.initialized = true;
        self.table.clear_indexes();
        self.timefmt = None;
        true
    }

    /// Same as `init(false, false, 0, ..)`.
    pub fn initialize(&mut self, fd: i32, errno: i32) -> (ok: bool)
        requires
            old(self).wf(),
        ensures
            final(self).wf(),
            ok == (old(self)@.initialized || fd >= 0),
            final(self)@ == old(self)@.initialised(false, false, 0, fd, errno, 0),
    {
        self.init(false, false, 0, fd, errno, 0)
    }

    /// Free all watches.  Returns the descriptor of the event group, to be
    /// closed.  [`Inotifytools::init`] must be called again before further
    /// use.
    pub fn cleanup(&mut self) -> (fd: Option<i32>)
        requires
            old(self).wf(),
        ensures
            final(self).wf(),
            fd == if old(self)@.initialized {
                Some(old(self)@.fd)
            } else {
                None
            },
            final(self)@ == if old(self)@.initialized {
                old(self)@.cleaned()
            } else {
                old(self)@
            },
    {
        if !self.initialized {
            return None;
        }
        self.initialized = false;
        self.collect_stats = false;
        self.error = 0;
        self.timefmt = None;
        self.filtering = false;
        self.table.clear();
        Some(self.fd)
    }

    /// Take over the error numbers of the system, where they are not those of
    /// [`ErrorNumbers::generic`].
    pub fn set_error_numbers(&mut self, numbers: ErrorNumbers)
        requires
            old(self).wf(),
        ensures
            final(self).wf(),
            final(self)@ == (LibState { numbers, ..old(self)@ }),
    {
        self.numbers = numbers;
    }

    /// The last error which occurred (an `errno` value).
    pub fn error(&self) -> (e: i32)
        ensures
            e == self@.error,
    {
        self.error
    }

    /// Whether the handle is in fanotify mode.
    pub fn fanotify_mode(&self) -> (yes: bool)
        ensures
            yes == self@.fanotify_mode,
    {
        self.fanotify_mode
    }

    /// Whether the handle was initialised.
    pub fn initialized(&self) -> (yes: bool)
        ensures
            yes == self@.initialized,
    {
        self.initialized
    }

    /// The descriptor of the event group.
    pub fn fd(&self) -> (fd: i32)
        ensures
            fd == self@.fd,
    {
        self.fd
    }

    /// How much to tell about fanotify events.
    pub fn verbosity(&self) -> (v: i32)
        ensures
            v == self@.verbosity,
    {
        self.verbosity
    }

    /// Whether another watch can certainly be added.
    pub fn has_room(&self) -> (yes: bool)
        ensures
            yes ==> self@.table.has_room(),
            yes <==> self@.table.next_id < u64::MAX && self@.table.by_wd.dom().len() < i32::MAX,
    {
        self.table.has_room()
    }

    /// Hand over the file descriptors that no watch holds any more, to be
    /// closed.
    pub fn take_released(&mut self) -> (fds: Vec<i32>)
        requires
            old(self).wf(),
        ensures
            final(self).wf(),
            fds@ == old(self)@.table.released,
            final(self)@ == (LibState {
                table: TableState { released: Seq::empty(), ..old(self)@.table },
                ..old(self)@
            }),
    {
        self.table.take_released()
    }

    /// The file identifier to resolve for the name of a watch.
    fn fid_of_id(&self, id: u64) -> (f: Option<Vec<u8>>)
        requires
            self@.table.watches.contains_key(id),
        ensures
            bytes::opt_bytes(f) == self@.fid_to_resolve(id),
    {
        if self.fanotify_mark_type == 0 {
            None
        } else {
            self.table.fid_of(id)
        }
    }

    /// Filename recorded for a watch, or what its file identifier was
    /// resolved to.
    fn filename_of_id(&self, id: u64, resolved: Option<Vec<u8>>) -> (name: Vec<u8>)
        requires
            self@.table.watches.contains_key(id),
        ensures
            name@ == self@.name_of_id(id, bytes::opt_bytes(resolved)),
    {
        match resolved {
            Some(path) => match self.fid_of_id(id) {
                Some(_) => path,
                None => self.table.filename_of(id),
            },
            None => self.table.filename_of(id),
        }
    }

    /// The file identifier to resolve for [`Inotifytools::filename_from_wd`],
    /// [`Inotifytools::filename_from_event`] and
    /// [`Inotifytools::dirpath_from_event`].
    pub fn fid_from_wd(&self, wd: i32) -> (f: Option<Vec<u8>>)
        requires
            self.wf(),
        ensures
            bytes::opt_bytes(f) == self@.fid_of_wd(wd),
    {
        if wd == 0 {
            return None;
        }
        match self.table.id_by_wd(wd) {
            Some(id) => self.fid_of_id(id),
            None => None,
        }
    }

    /// Get the filename used to establish a watch (empty if `wd` is not a
    /// watch descriptor), given the path its file identifier was resolved
    /// to.
    pub fn filename_from_wd(&self, wd: i32, resolved: Option<Vec<u8>>) -> (name: Vec<u8>)
        requires
            self.wf(),
        ensures
            name@ == self@.name_of_wd(wd, bytes::opt_bytes(resolved)),
    {
        if wd == 0 {
            return Vec::new();
        }
        match self.table.id_by_wd(wd) {
            Some(id) => self.filename_of_id(id, resolved),
            None => Vec::new(),
        }
    }

    /// Get the watched path and file name of an event.
    pub fn filename_from_event(&self, ev: &Event, resolved: Option<Vec<u8>>) -> (path: EventPath)
        requires
            self.wf(),
        ensures
            path@ == self@.path_of(ev.wd, ev.len, ev.name@, bytes::opt_bytes(resolved)),
            path.dirnamelen <= path.filename@.len(),
    {
        let filename = self.filename_from_wd(ev.wd, resolved);
        let dirsep = if self.fanotify_mode {
            bytes::rfind_byte(filename.as_slice(), '/' as u8)
        } else {
            None
        };
        let n = filename.len();
        let dirnamelen = match dirsep {
            Some(i) => i + 1,
            None => n,
        };
        let eventname = if n > dirnamelen {
            let rest = bytes::copy_range(filename.as_slice(), dirnamelen, n);
            assert(rest@ =~= filename@.skip(dirnamelen as int));
            rest
        } else if ev.len > 0 {
            bytes::to_vec(ev.name.as_slice())
        } else {
            Vec::new()
        };
        EventPath { filename, dirnamelen, eventname }
    }

    /// Get the directory path of an event on a directory ("dir/name/"), or
    /// `None` for events not on a directory.
    pub fn dirpath_from_event(&self, ev: &Event, resolved: Option<Vec<u8>>) -> (path: Option<
        Vec<u8>,
    >)
        requires
            self.wf(),
        ensures
            bytes::opt_bytes(path) == self@.dirpath_of(
                ev.wd,
                ev.mask,
                ev.name@,
                bytes::opt_bytes(resolved),
            ),
    {
        let filename = self.filename_from_wd(ev.wd, resolved);
        if filename.len() == 0 || ev.mask as i32 & consts::IN_ISDIR == 0 {
            return None;
        }
        let mut path = filename;
        if !self.fanotify_mode {
            ev.name.put(&mut path);
        }
        "/".put(&mut path);
        Some(path)
    }

    /// Get the watch descriptor for a filename (the name used to establish
    /// the watch), or -1.
    pub fn wd_from_filename(&self, filename: &[u8]) -> (wd: i32)
        requires
            self.wf(),
        ensures
            wd == self@.wd_of_name(filename@),
    {
        if filename.len() == 0 {
            return -1;
        }
        match self.table.id_by_filename(filename) {
            Some(id) => self.table.wd_of(id),
            None => -1,
        }
    }

    /// Set the filename for a watch descriptor.
    pub fn set_filename_by_wd(&mut self, wd: i32, filename: &[u8])
        requires
            old(self).wf(),
        ensures
            final(self).wf(),
            final(self)@ == old(self)@.named(old(self)@.id_of_any_wd(wd), filename@),
    {
        if let Some(id) = self.table.id_by_wd(wd) {
            self.table.rename(id, filename);
        }
    }

    /// Set the filename for the watch with a particular existing filename.
    pub fn set_filename_by_filename(&mut self, oldname: &[u8], newname: &[u8])
        requires
            old(self).wf(),
        ensures
            final(self).wf(),
            final(self)@ == old(self)@.named(old(self)@.id_of_name(oldname@), newname@),
    {
        if let Some(id) = self.table.id_by_filename(oldname) {
            self.table.rename(id, newname);
        }
    }

    /// Replace a filename prefix on all watches (e.g. after a directory was
    /// moved).
    pub fn replace_filename(&mut self, oldname: &[u8], newname: &[u8])
        requires
            old(self).wf(),
        ensures
            final(self).wf(),
            final(self)@ == old(self)@.replaced(oldname@, newname@),
    {
        if oldname.len() == 0 || newname.len() == 0 {
            return;
        }
        self.table.replace_prefix(oldname, newname);
    }

    fn removal_of(&self, id: Option<u64>) -> (r: Removal)
        requires
            id matches Some(i) ==> self@.table.watches.contains_key(i),
        ensures
            r == self@.removal(id),
    {
        match id {
            None => Removal::Absent,
            Some(i) => match self.table.fid_of(i) {
                Some(_) => Removal::Impossible,
                None => Removal::Kernel(self.table.wd_of(i)),
            },
        }
    }

    fn remove_watch(&mut self, id: Option<u64>, status: i32, errno: i32) -> (ok: bool)
        requires
            old(self).wf(),
            id matches Some(i) ==> old(self)@.table.watches.contains_key(i),
        ensures
            final(self).wf(),
            ok == old(self)@.removes(id, status),
            final(self)@ == old(self)@.removed(id, status, errno),
    {
        match self.removal_of(id) {
            Removal::Absent => true,
            Removal::Impossible => {
                self.error = 0;
                false
            },
            Removal::Kernel(_) => {
                if status < 0 {
                    self.error = errno;
                    return false;
                }
                self.error = 0;
                if let Some(i) = id {
                    self.table.destroy(i);
                }
                true
            },
        }
    }

    /// How to remove a watch by watch descriptor.
    pub fn removal_by_wd(&self, wd: i32) -> (r: Removal)
        requires
            self.wf(),
        ensures
            r == self@.removal(self@.id_of_any_wd(wd)),
    {
        let id = self.table.id_by_wd(wd);
        self.removal_of(id)
    }

    /// How to remove a watch by the filename used to establish it.
    pub fn removal_by_filename(&self, filename: &[u8]) -> (r: Removal)
        requires
            self.wf(),
        ensures
            r == self@.removal(self@.id_of_name(filename@)),
    {
        let id = self.table.id_by_filename(filename);
        self.removal_of(id)
    }

    /// Remove a watch by watch descriptor, where the call of
    /// [`Inotifytools::removal_by_wd`], if one was needed, returned
    /// `status`, with `errno` if it failed.  Returns true on success or if
    /// the watch does not exist.
    pub fn remove_watch_by_wd(&mut self, wd: i32, status: i32, errno: i32) -> (ok: bool)
        requires
            old(self).wf(),
        ensures
            final(self).wf(),
            ok == old(self)@.removes(old(self)@.id_of_any_wd(wd), status),
            final(self)@ == old(self)@.removed(old(self)@.id_of_any_wd(wd), status, errno),
    {
        let id = self.table.id_by_wd(wd);
        self.remove_watch(id, status, errno)
    }

    /// Remove a watch by the filename used to establish it, where the call of
    /// [`Inotifytools::removal_by_filename`], if one was needed, returned
    /// `status`, with `errno` if it failed.
    pub fn remove_watch_by_filename(&mut self, filename: &[u8], status: i32, errno: i32) -> (ok:
        bool)
        requires
            old(self).wf(),
        ensures
            final(self).wf(),
            ok == old(self)@.removes(old(self)@.id_of_name(filename@), status),
            final(self)@ == old(self)@.removed(old(self)@.id_of_name(filename@), status, errno),
    {
        let id = self.table.id_by_filename(filename);
        self.remove_watch(id, status, errno)
    }

    /// What to say when the kernel does not remove a watch by watch
    /// descriptor.
    pub fn removal_failure_by_wd(&self, wd: i32, why: &[u8]) -> (msg: Vec<u8>)
        requires
            self.wf(),
        ensures
            msg@ == self@.removal_message(self@.id_of_any_wd(wd), why@),
    {
        let id = self.table.id_by_wd(wd);
        self.removal_failure(id, why)
    }

    /// What to say when the kernel does not remove a watch by filename.
    pub fn removal_failure_by_filename(&self, filename: &[u8], why: &[u8]) -> (msg: Vec<u8>)
        requires
            self.wf(),
        ensures
            msg@ == self@.removal_message(self@.id_of_name(filename@), why@),
    {
        let id = self.table.id_by_filename(filename);
        self.removal_failure(id, why)
    }

    fn removal_failure(&self, id: Option<u64>, why: &[u8]) -> (msg: Vec<u8>)
        requires
            id matches Some(i) ==> self@.table.watches.contains_key(i),
        ensures
            msg@ == self@.removal_message(id, why@),
    {
        let mut msg = bytes::text("Failed to remove watch on ");
        match id {
            Some(i) => {
                let name = self.table.filename_of(i);
                name.put(&mut msg);
            },
            None => {
                assert(msg@ =~= msg@ + Seq::empty());
            },
        }
        ": ".put(&mut msg);
        why.put(&mut msg);
        "\n".put(&mut msg);
        msg
    }

    /// Number of watches set up.
    pub fn get_num_watches(&self) -> (n: i32)
        requires
            self.wf(),
        ensures
            n == self@.table.by_filename.dom().len() as i32,
    {
        self.table.num_names() as i32
    }

    /// What to compile for [`Inotifytools::ignore_events_by_regex`] and
    /// [`Inotifytools::ignore_events_by_inverted_regex`]: the pattern and the
    /// flags.  `None` if there is nothing to compile.
    pub fn regex_request(pattern: Option<&[u8]>, flags: i32) -> (r: Option<(Vec<u8>, i32)>)
        ensures
            r is Some <==> pattern is Some,
            r matches Some(c) ==> c.0@ == bytes::c_str(pattern->0@) && c.1 == flags | REG_NOSUB,
    {
        match pattern {
            Some(p) => Some((bytes::cstring(p), flags | REG_NOSUB)),
            None => None,
        }
    }

    fn do_ignore_events_by_regex(
        &mut self,
        pattern: Option<&[u8]>,
        invert: bool,
        recursive: i32,
        compiled: bool,
    ) -> (ok: bool)
        requires
            old(self).wf(),
        ensures
            final(self).wf(),
            ok == (pattern is None || compiled),
            final(self)@ == old(self)@.filtered(pattern is Some, invert, recursive, compiled),
    {
        self.filtering = false;
        if pattern.is_none() {
            return true;
        }
        self.invert_regexp = invert;
        self.recursive_watch = recursive;
        if compiled {
            self.filtering = true;
            return true;
        }
        self.error = consts::EINVAL;
        false
    }

    /// Ignore events on files whose path matches the POSIX regular
    /// expression `pattern`, where compiling what
    /// [`Inotifytools::regex_request`] asks for succeeded or not.  `None`
    /// removes the filter.  With `recursive`, directory creation/move-in
    /// events are never filtered.
    pub fn ignore_events_by_regex(
        &mut self,
        pattern: Option<&[u8]>,
        recursive: i32,
        compiled: bool,
    ) -> (ok: bool)
        requires
            old(self).wf(),
        ensures
            final(self).wf(),
            ok == (pattern is None || compiled),
            final(self)@ == old(self)@.filtered(pattern is Some, false, recursive, compiled),
    {
        self.do_ignore_events_by_regex(pattern, false, recursive, compiled)
    }

    /// Ignore events on files whose path does NOT match `pattern`.
    pub fn ignore_events_by_inverted_regex(
        &mut self,
        pattern: Option<&[u8]>,
        recursive: i32,
        compiled: bool,
    ) -> (ok: bool)
        requires
            old(self).wf(),
        ensures
            final(self).wf(),
            ok == (pattern is None || compiled),
            final(self)@ == old(self)@.filtered(pattern is Some, true, recursive, compiled),
    {
        self.do_ignore_events_by_regex(pattern, true, recursive, compiled)
    }

    /// Convert an event mask to a string of event names separated by `sep`.
    /// Unknown masks are rendered in hexadecimal.
    pub fn event_to_str_sep(&self, events: i32, sep: u8) -> (s: Vec<u8>)
        ensures
            s@ == events::shown_events(events, sep),
    {
        events::event_names_sep(events, sep)
    }

    /// Convert an event mask to a comma-separated string of event names.
    pub fn event_to_str(&self, events: i32) -> (s: Vec<u8>)
        ensures
            s@ == events::shown_events(events, ',' as u8),
    {
        self.event_to_str_sep(events, ',' as u8)
    }

    /// Set the strftime format used for `%T`.
    pub fn set_printf_timefmt(&mut self, fmt: &[u8])
        requires
            old(self).wf(),
        ensures
            final(self).wf(),
            final(self)@ == (LibState { timefmt: Some(bytes::c_str(fmt@)), ..old(self)@ }),
    {
        self.timefmt = Some(bytes::cstring(fmt));
    }

    /// Stop substituting `%T`.
    pub fn clear_timefmt(&mut self)
        requires
            old(self).wf(),
        ensures
            final(self).wf(),
            final(self)@ == (LibState { timefmt: None, ..old(self)@ }),
    {
        self.timefmt = None;
    }

    /// The strftime format used for `%T`.
    pub fn timefmt(&self) -> (fmt: Option<Vec<u8>>)
        ensures
            bytes::opt_bytes(fmt) == self@.timefmt,
    {
        match &self.timefmt {
            Some(f) => Some(bytes::to_vec(f.as_slice())),
            None => None,
        }
    }

    /// Count an event.
    fn record_stats(&mut self, wd: i32, mask: u32)
        requires
            old(self).wf(),
        ensures
            final(self).wf(),
            final(self)@ == old(self)@.counted(wd, mask),
    {
        if let Some(id) = self.table.id_by_wd(wd) {
            let mut stats = self.table.stats_of(id);
            stats.record(mask);
            self.table.set_stats(id, stats);
            self.totals.record(mask);
        }
    }

    /// Initialise or reset statistics collection.
    pub fn initialize_stats(&mut self)
        requires
            old(self).wf(),
        ensures
            final(self).wf(),
            final(self)@ == old(self)@.counting(),
    {
        // if already collecting stats, reset stats
        if self.collect_stats {
            self.table.reset_stats();
        }
        self.totals = WatchStats::default();
        self.collect_stats = true;
    }

    /// Number of occurrences of `event` (0 for total) on watch `wd`, or -1.
    pub fn get_stat_by_wd(&self, wd: i32, event: i32) -> (n: i32)
        requires
            self.wf(),
        ensures
            n == self@.stat_of(self@.id_of_any_wd(wd), event),
    {
        if !self.collect_stats {
            return -1;
        }
        match self.table.id_by_wd(wd) {
            Some(id) => match self.table.stats_of(id).get(event) {
                Some(v) => v as i32,
                None => -1,
            },
            None => -1,
        }
    }

    /// Number of occurrences of `event` (0 for total) over all watches, or
    /// -1.
    pub fn get_stat_total(&self, event: i32) -> (n: i32)
        ensures
            n == self@.stat_total(event),
    {
        if !self.collect_stats {
            return -1;
        }
        match self.totals.get(event) {
            Some(v) => v as i32,
            None => -1,
        }
    }

    /// Number of occurrences of `event` on the watch for `filename`, or -1.
    pub fn get_stat_by_filename(&self, filename: &[u8], event: i32) -> (n: i32)
        requires
            self.wf(),
        ensures
            n == self@.stat_of(self@.id_of_any_wd(self@.wd_of_name(filename@)), event),
    {
        self.get_stat_by_wd(self.wd_from_filename(filename), event)
    }

    /// All watches (by watch descriptor) with their statistics, sorted by
    /// an event's count: `sort_event` > 0 ascending by that event, 0
    /// ascending by total, -1 descending by total, other negative values
    /// descending by `-sort_event`.  Ties are broken by watch descriptor.
    /// Use [`Inotifytools::filename_from_watch`] to get a watch's filename.
    pub fn watches_sorted_by_event(&self, sort_event: i32) -> (r: Vec<(WatchRef, WatchStats)>)
        requires
            self.wf(),
        ensures
            self@.table.is_sorted(
                Seq::new(r@.len(), |i: int| r@[i].0.id()),
                sort_order(sort_event).0,
                sort_order(sort_event).1,
            ),
            forall|i: int|
                0 <= i < r@.len() ==> (#[trigger] r@[i]).1 == self@.table.watches[r@[i].0.id()].stats,
    {
        let (event, ascending) = if sort_event == -1 {
            (0, false)
        } else if sort_event == i32::MIN {
            (i32::MIN, false)
        } else if sort_event < 0 {
            (-sort_event, false)
        } else {
            (sort_event, true)
        };
        let ids = self.table.sorted_ids(event, ascending);
        let mut r: Vec<(WatchRef, WatchStats)> = Vec::new();
        let mut i: usize = 0;
        while i < ids.len()
            invariant
                i <= ids@.len(),
                r@.len() == i,
                self@.table.is_sorted(ids@, event, ascending),
                forall|j: int|
                    0 <= j < i ==> (#[trigger] r@[j]).0.id() == ids@[j] && r@[j].1
                        == self@.table.watches[ids@[j]].stats,
            decreases ids@.len() - i,
        {
            assert(self@.table.found_by_wd(ids@[i as int]));
            r.push((WatchRef(ids[i]), self.table.stats_of(ids[i])));
            i = i + 1;
        }
        assert(Seq::new(r@.len(), |i: int| r@[i].0.id()) =~= ids@);
        r
    }

    /// The file identifier to resolve for
    /// [`Inotifytools::filename_from_watch`].
    pub fn fid_from_watch(&self, w: WatchRef) -> (f: Option<Vec<u8>>)
        ensures
            bytes::opt_bytes(f) == if self@.table.watches.contains_key(w.id()) {
                self@.fid_to_resolve(w.id())
            } else {
                None
            },
    {
        if !self.table.contains(w.0) {
            return None;
        }
        self.fid_of_id(w.0)
    }

    /// The filename of a watch, given the path its file identifier was
    /// resolved to, or empty if the watch no longer exists.
    pub fn filename_from_watch(&self, w: WatchRef, resolved: Option<Vec<u8>>) -> (name: Vec<u8>)
        ensures
            name@ == if self@.table.watches.contains_key(w.id()) {
                self@.name_of_id(w.id(), bytes::opt_bytes(resolved))
            } else {
                Seq::empty()
            },
    {
        if !self.table.contains(w.0) {
            return Vec::new();
        }
        self.filename_of_id(w.0, resolved)
    }

    /// The outcome of reading a number from a file.
    fn num_from_file(&mut self, read: Result<i32, i32>) -> (n: i32)
        requires
            old(self).wf(),
        ensures
            final(self).wf(),
            n == match read {
                Ok(v) => v,
                Err(_) => (-1) as i32,
            },
            final(self)@ == match read {
                Ok(_) => old(self)@,
                Err(e) => LibState { error: e, ..old(self)@ },
            },
    {
        match read {
            Ok(v) => v,
            Err(e) => {
                self.error = e;
                -1
            },
        }
    }

    /// The maximum number of events queued in the kernel, or -1, where
    /// reading [`QUEUE_SIZE_PATH`] gave the number or failed.
    pub fn get_max_queued_events(&mut self, read: Result<i32, i32>) -> (n: i32)
        requires
            old(self).wf(),
        ensures
            final(self).wf(),
            n == match read {
                Ok(v) => v,
                Err(_) => (-1) as i32,
            },
            final(self)@ == match read {
                Ok(_) => old(self)@,
                Err(e) => LibState { error: e, ..old(self)@ },
            },
    {
        self.num_from_file(read)
    }

    /// The maximum number of inotify instances per user, or -1, where
    /// reading [`INSTANCES_PATH`] gave the number or failed.
    pub fn get_max_user_instances(&mut self, read: Result<i32, i32>) -> (n: i32)
        requires
            old(self).wf(),
        ensures
            final(self).wf(),
            n == match read {
                Ok(v) => v,
                Err(_) => (-1) as i32,
            },
            final(self)@ == match read {
                Ok(_) => old(self)@,
                Err(e) => LibState { error: e, ..old(self)@ },
            },
    {
        self.num_from_file(read)
    }

    /// The maximum number of inotify watches per user, or -1, where reading
    /// [`WATCHES_SIZE_PATH`] gave the number or failed.
    pub fn get_max_user_watches(&mut self, read: Result<i32, i32>) -> (n: i32)
        requires
            old(self).wf(),
        ensures
            final(self).wf(),
            n == match read {
                Ok(v) => v,
                Err(_) => (-1) as i32,
            },
            final(self)@ == match read {
                Ok(_) => old(self)@,
                Err(e) => LibState { error: e, ..old(self)@ },
            },
    {
        self.num_from_file(read)
    }
}

impl LibState {
    /// The handle after a filter was set or removed.
    pub open spec fn filtered(
        self,
        pattern: bool,
        invert: bool,
        recursive: i32,
        compiled: bool,
    ) -> LibState {
        if !pattern {
            LibState { filtering: false, ..self }
        } else {
            LibState {
                filtering: compiled,
                invert_regexp: invert,
                recursive_watch: recursive,
                error: if compiled {
                    self.error
                } else {
                    consts::EINVAL
                },
                ..self
            }
        }
    }
}

pub const WATCHES_SIZE_PATH: &'static str = "/proc/sys/fs/inotify/max_user_watches";

// There is no such file, so Inotifytools::get_max_queued_events() always
// fails.  Kept for compatibility.
pub const QUEUE_SIZE_PATH: &'static str = "/proc/sys/fs/inotify/max_queued_watches";

pub const INSTANCES_PATH: &'static str = "/proc/sys/fs/inotify/max_user_instances";

/// The diagnostic for a condition that should hold but does not.
pub fn nice_fail(line: u32, condstr: &str, msg: &str) -> (text: Vec<u8>)
    ensures
        text@ == bytes::lit("inotifytools.rs:") + bytes::decimal(line as int) + bytes::lit(
            " assertion ( ",
        ) + bytes::lit(condstr) + bytes::lit(" ) failed") + (if bytes::lit(msg).len() == 0 {
            bytes::lit(".")
        } else {
            bytes::lit(": ") + bytes::lit(msg)
        }) + bytes::lit("\n"),
{
    let mut text = bytes::text("inotifytools.rs:");
    line.put(&mut text);
    " assertion ( ".put(&mut text);
    condstr.put(&mut text);
    " ) failed".put(&mut text);
    let ghost head = text@;
    if msg.as_bytes().len() == 0 {
        ".".put(&mut text);
    } else {
        ": ".put(&mut text);
        msg.put(&mut text);
        assert(text@ =~= head + (bytes::lit(": ") + bytes::lit(msg)));
    }
    "\n".put(&mut text);
    text
}

/// A file that was registered under a watch descriptor and name of its own
/// is found by either.
pub proof fn law_watched_file_is_found(lib: LibState, wd: i32, filename: Seq<u8>)
    requires
        lib.table.consistent(),
        lib.table.has_room_for(wd),
        wd > 0,
        bytes::c_str(filename).len() > 0,
        !lib.table.by_wd.contains_key(wd),
        !lib.table.by_filename.contains_key(bytes::c_str(filename)),
    ensures
        ({
            let after = LibState { table: lib.table.created(wd, None, filename, 0), ..lib };
            &&& after.wd_of_name(bytes::c_str(filename)) == wd
            &&& after.name_of_wd(wd, None) == bytes::c_str(filename)
        }),
{
    table::law_created_watch_is_found(lib.table, wd, None, filename, 0);
}

/// Registering a watch gives it the watch descriptor it asks for, or one that
/// is not in use.  A name or watch descriptor that is known already keeps
/// leading to what it led to.
pub proof fn law_registering_keeps_what_is_known(
    lib: LibState,
    wd: i32,
    filename: Seq<u8>,
    resolved: Option<Seq<u8>>,
)
    requires
        lib.table.consistent(),
        lib.table.by_filename.dom().finite(),
        lib.table.has_room_for(wd),
        bytes::c_str(filename) == filename,
        filename.len() > 0,
    ensures
        ({
            let (t, r) = lib.table.registered(wd, None, filename, 0);
            let after = LibState { table: t, ..lib };
            let known = lib.table.by_filename.contains_key(filename);
            let names = lib.table.by_filename.dom().len();
            &&& wd < 0 ==> r is None && t == lib.table
            &&& wd > 0 ==> r == Some(wd)
            &&& wd == 0 ==> (r matches Some(w) && w > 0 && !lib.table.by_wd.contains_key(w))
            &&& known ==> after.wd_of_name(filename) == lib.wd_of_name(filename)
                && t.by_filename.dom().len() == names
            &&& !known && wd >= 0 ==> r == Some(after.wd_of_name(filename))
                && t.by_filename.dom().len() == names + 1
            &&& lib.table.by_wd.contains_key(wd) ==> after.name_of_wd(wd, resolved)
                == lib.name_of_wd(wd, resolved)
        }),
{
    if wd >= 0 {
        table::law_created_watch_is_found(lib.table, wd, None, filename, 0);
        table::law_existing_keys_are_kept(lib.table, wd, None, filename, 0);
        let t = lib.table.created(wd, None, filename, 0);
        if !lib.table.by_filename.contains_key(filename) {
            assert(t.by_filename.dom() =~= lib.table.by_filename.dom().insert(filename));
        } else {
            assert(lib.table.watches.contains_key(lib.table.by_filename[filename]));
        }
        if lib.table.by_wd.contains_key(wd) {
            assert(lib.table.watches.contains_key(lib.table.by_wd[wd]));
        }
    }
}

/// A watch that was removed is found no more, by name or watch descriptor.
pub proof fn law_removed_watch_is_not_found(
    lib: LibState,
    filename: Seq<u8>,
    status: i32,
    errno: i32,
)
    requires
        lib.table.consistent(),
        lib.removal(lib.id_of_name(filename)) is Kernel,
        status >= 0,
    ensures
        ({
            let id = lib.id_of_name(filename);
            let after = lib.removed(id, status, errno);
            &&& lib.removes(id, status)
            &&& after.wd_of_name(filename) == -1
            &&& after.id_of_any_wd(lib.table.watches[id->0].wd) is None
        }),
{
    let id = lib.table.by_filename[filename];
    assert(lib.table.watches[id].filename == filename);
}

/// Positive keys sort ascending by their event and negative ones descending
/// by the event they are the negative of; 0 sorts ascending and -1
/// descending by the total.
pub proof fn law_sort_key_gives_event_and_direction(
    t: TableState,
    ids: Seq<u64>,
    key: i32,
    i: int,
    j: int,
)
    requires
        t.consistent(),
        t.is_sorted(ids, sort_order(key).0, sort_order(key).1),
        0 <= i < j < ids.len(),
    ensures
        ({
            let a = t.watches[ids[i]].stats;
            let b = t.watches[ids[j]].stats;
            &&& key == 0 ==> a.total <= b.total
            &&& key == -1 ==> a.total >= b.total
            &&& key > 0 ==> (a.counter(key) matches Some(x) ==> (b.counter(key) matches Some(y) && x
                <= y))
            &&& i32::MIN < key < -1 ==> (a.counter((-key) as i32) matches Some(x) ==> (b.counter(
                (-key) as i32,
            ) matches Some(y) && x >= y))
        }),
{
    let (event, ascending) = sort_order(key);
    table::law_sorted_rows_are_ordered_by_count(t, ids, event, ascending, i, j);
}

/// With inotify, the directory of an event is the name of its watch, and its
/// file name the one the event brings, if any.
pub proof fn law_event_path_of_inotify(
    lib: LibState,
    wd: i32,
    len: u32,
    name: Seq<u8>,
    resolved: Option<Seq<u8>>,
)
    requires
        !lib.fanotify_mode,
    ensures
        ({
            let p = lib.path_of(wd, len, name, resolved);
            &&& p.dirname() == lib.name_of_wd(wd, resolved)
            &&& p.filename == lib.name_of_wd(wd, resolved)
            &&& p.eventname == if len > 0 {
                name
            } else {
                Seq::empty()
            }
        }),
{
    let p = lib.path_of(wd, len, name, resolved);
    assert(p.filename.take(p.filename.len() as int) =~= p.filename);
}

/// With fanotify, the path of the file is split behind its last '/'.
pub proof fn law_event_path_of_fanotify(
    lib: LibState,
    wd: i32,
    len: u32,
    name: Seq<u8>,
    dir: Seq<u8>,
    file: Seq<u8>,
)
    requires
        lib.fanotify_mode,
        lib.name_of_wd(wd, None) == dir + seq!['/' as u8] + file,
        !file.contains('/' as u8),
        file.len() > 0,
    ensures
        ({
            let p = lib.path_of(wd, len, name, None);
            &&& p.dirname() == dir + seq!['/' as u8]
            &&& p.eventname == file
        }),
{
    let slash = '/' as u8;
    let whole = dir + seq![slash] + file;
    assert forall|i: int| dir.len() < i < whole.len() implies whole[i] != slash by {
        assert(whole[i] == file[i - dir.len() - 1]);
        if whole[i] == slash {
            assert(file.contains(slash));
        }
    }
    bytes::lemma_last_at_unique(whole, slash, dir.len() as int);
    let p = lib.path_of(wd, len, name, None);
    assert(p.dirname() =~= dir + seq![slash]);
    assert(p.eventname =~= file);
}

/// An event on a directory has a path that ends with '/': that of the watch
/// and the name in it, or with fanotify that of the file.  Other events have
/// none.
pub proof fn law_directory_path_of_event(
    lib: LibState,
    wd: i32,
    mask: u32,
    name: Seq<u8>,
    resolved: Option<Seq<u8>>,
)
    ensures
        ({
            let p = lib.dirpath_of(wd, mask, name, resolved);
            let watched = lib.name_of_wd(wd, resolved);
            &&& mask as i32 & 0x4000_0000 == 0 || watched.len() == 0 ==> p is None
            &&& mask as i32 & 0x4000_0000 != 0 && watched.len() > 0 ==> p == Some(
                if lib.fanotify_mode {
                    watched + seq!['/' as u8]
                } else {
                    watched + name + seq!['/' as u8]
                },
            )
        }),
{
    reveal_strlit("/");
    bytes::lemma_lit("/");
    assert(bytes::lit("/") =~= seq!['/' as u8]);
}

/// The name of a watch is what its file identifier resolved to, where there
/// is one and the handle is in fanotify mode, or else the name it was
/// established with; nothing is known of other watch descriptors.
pub proof fn law_name_of_a_watch(lib: LibState, wd: i32, resolved: Option<Seq<u8>>)
    ensures
        wd == 0 || !lib.table.by_wd.contains_key(wd) ==> lib.name_of_wd(wd, resolved)
            == Seq::<u8>::empty(),
        wd != 0 && lib.table.by_wd.contains_key(wd) ==> {
            let w = lib.table.watches[lib.table.by_wd[wd]];
            let asks = lib.fanotify_mark_type != 0 && w.fid is Some;
            &&& asks ==> lib.fid_of_wd(wd) == w.fid
            &&& !asks ==> lib.fid_of_wd(wd) is None
            &&& asks && resolved is Some ==> lib.name_of_wd(wd, resolved) == resolved->0
            &&& !asks || resolved is None ==> lib.name_of_wd(wd, resolved) == w.filename
        },
{
}

/// A fresh event group knows no watch, counts nothing, and has no time
/// format; one that could not be set up leaves the error; one that is set up
/// stays as it is.
pub proof fn law_initialising(
    lib: LibState,
    fanotify: bool,
    watch_filesystem: bool,
    verbose: i32,
    fd: i32,
    errno: i32,
    pid: i32,
)
    ensures
        ({
            let u = lib.initialised(fanotify, watch_filesystem, verbose, fd, errno, pid);
            &&& lib.initialized ==> u == lib
            &&& !lib.initialized && fd < 0 ==> !u.initialized && u.error == errno
            &&& !lib.initialized && fd >= 0 ==> {
                &&& u.initialized && u.error == 0 && u.fd == fd && u.verbosity == verbose
                &&& u.fanotify_mode == fanotify
                &&& !u.collect_stats && u.timefmt is None
                &&& fanotify ==> u.self_pid == pid && u.fanotify_mark_type == if watch_filesystem {
                    0x100u32
                } else {
                    0
                }
                &&& forall|wd: i32| u.id_of_any_wd(wd) is None
                &&& forall|name: Seq<u8>| u.wd_of_name(name) == -1
            }
        }),
{
}

/// After a cleanup no watch is left, nothing is counted or filtered, and
/// every descriptor a watch held is to be closed.
pub proof fn law_cleaning_up(lib: LibState, wd: i32, name: Seq<u8>)
    ensures
        lib.cleaned().id_of_any_wd(wd) is None,
        lib.cleaned().wd_of_name(name) == -1,
        lib.cleaned().table.watches.dom() =~= Set::<u64>::empty(),
        !lib.cleaned().initialized,
        !lib.cleaned().collect_stats,
        !lib.cleaned().filtering,
        lib.cleaned().timefmt is None,
        lib.cleaned().error == 0,
{
}

/// A watch that does not exist is removed at once; one with a file
/// identifier cannot be removed, and stays; one the kernel does not remove
/// stays with the kernel's error; one it removes is gone.
pub proof fn law_removing_watches(lib: LibState, id: Option<u64>, status: i32, errno: i32)
    ensures
        ({
            let u = lib.removed(id, status, errno);
            &&& id is None ==> lib.removal(id) == Removal::Absent && lib.removes(id, status) && u
                == lib
            &&& id matches Some(i) ==> {
                let w = lib.table.watches[i];
                &&& w.fid is Some ==> lib.removal(id) == Removal::Impossible && !lib.removes(
                    id,
                    status,
                ) && u.table == lib.table && u.error == 0
                &&& w.fid is None ==> lib.removal(id) == Removal::Kernel(w.wd)
                &&& w.fid is None && status < 0 ==> !lib.removes(id, status) && u.table
                    == lib.table && u.error == errno
                &&& w.fid is None && status >= 0 ==> lib.removes(id, status) && u.error == 0
                    && !u.table.watches.contains_key(i) && !u.table.by_wd.contains_key(w.wd)
                    && !u.table.by_filename.contains_key(w.filename)
            }
        }),
{
}

/// Counting an event adds one to the total and to the events of its mask, of
/// its watch and over all; other watches, and events of no watch, count
/// nothing.
pub proof fn law_event_is_counted_once(lib: LibState, wd: i32, mask: u32, other: u64)
    requires
        lib.table.consistent(),
    ensures
        ({
            let u = lib.counted(wd, mask);
            &&& !lib.table.by_wd.contains_key(wd) ==> u == lib
            &&& lib.table.by_wd.contains_key(wd) ==> {
                let id = lib.table.by_wd[wd];
                let a = lib.table.watches[id].stats;
                let b = u.table.watches[id].stats;
                &&& a.total < u32::MAX ==> b.total == a.total + 1
                &&& lib.totals.total < u32::MAX ==> u.totals.total == lib.totals.total + 1
                &&& a.open < u32::MAX ==> b.open == a.open + if mask & 0x20 != 0 {
                    1int
                } else {
                    0
                }
                &&& lib.totals.open < u32::MAX ==> u.totals.open == lib.totals.open + if mask & 0x20
                    != 0 {
                    1int
                } else {
                    0
                }
                &&& other != id && lib.table.watches.contains_key(other)
                    ==> u.table.watches[other] == lib.table.watches[other]
            }
        }),
{
    assert((mask as i32) & 0x20i32 != 0 <==> mask & 0x20u32 != 0) by (bit_vector);
}

/// A new handle has nothing set up, watched, counted, filtered or formatted.
pub proof fn law_new_handle(order: ByteOrder, wd: i32, name: Seq<u8>)
    ensures
        ({
            let s = LibState::fresh(order);
            &&& s.fd == -1 && s.error == 0 && !s.initialized && !s.fanotify_mode
                && s.fanotify_mark_type == 0
            &&& !s.collect_stats && !s.filtering && s.timefmt is None && s.verbosity == 0
                && s.self_pid == 0 && s.recursive_watch == 0
            &&& s.id_of_any_wd(wd) is None && s.wd_of_name(name) == -1
            &&& s.table.order == order
            &&& s.numbers.eloop == 40 && s.numbers.emsgsize == 90
            &&& s.buffer.buf.len() == 0x2_0000 && s.buffer.first_byte == 0 && s.buffer.bytes == 0
        }),
{
}

/// The number of occurrences is told where events are counted, for watches
/// and events there are; -1 stands for all else.
pub proof fn law_statistics_are_told(lib: LibState, id: Option<u64>, event: i32)
    ensures
        !lib.collect_stats ==> lib.stat_of(id, event) == -1 && lib.stat_total(event) == -1,
        id is None ==> lib.stat_of(id, event) == -1,
        lib.collect_stats && id is Some ==> {
            let s = lib.table.watches[id->0].stats;
            &&& s.counter(event) is None ==> lib.stat_of(id, event) == -1
            &&& s.counter(event) matches Some(c) ==> (c <= i32::MAX ==> lib.stat_of(id, event) == c)
            &&& s.total <= i32::MAX ==> lib.stat_of(id, 0) == s.total
        },
        lib.collect_stats && lib.totals.total <= i32::MAX ==> lib.stat_total(0)
            == lib.totals.total,
        lib.collect_stats && lib.totals.open <= i32::MAX ==> lib.stat_total(0x20)
            == lib.totals.open,
{
}

/// The watch descriptor of a name is that of the watch it leads to, and -1 if
/// it leads to none.
pub proof fn law_descriptor_of_a_name(lib: LibState, name: Seq<u8>)
    ensures
        name.len() == 0 ==> lib.wd_of_name(name) == -1,
        !lib.table.by_filename.contains_key(name) ==> lib.wd_of_name(name) == -1,
        name.len() > 0 && lib.table.by_filename.contains_key(name) ==> lib.wd_of_name(name)
            == lib.table.watches[lib.table.by_filename[name]].wd,
{
}

/// A prefix that is empty, or would become so, is not replaced.
pub proof fn law_empty_names_are_not_replaced(lib: LibState, name: Seq<u8>)
    ensures
        lib.replaced(name, Seq::empty()) == lib,
        lib.replaced(Seq::empty(), name) == lib,
{
}

/// Cleaning up closes the directories of all watches, besides those that are
/// closed already.
pub proof fn law_cleaning_up_closes_directories(lib: LibState, id: u64)
    requires
        lib.table.watches.contains_key(id),
        id < lib.table.next_id,
        lib.table.watches[id].dirf != 0,
    ensures
        lib.cleaned().table.released.contains(lib.table.watches[id].dirf),
        lib.table.released.is_prefix_of(lib.cleaned().table.released),
{
    let held = table::held(lib.table.watches, lib.table.next_id as int);
    let dirf = lib.table.watches[id].dirf;
    lemma_held_has(lib.table.watches, lib.table.next_id as int, id);
    let j = held.index_of(dirf);
    let all = lib.table.released + held;
    assert(all[lib.table.released.len() + j] == dirf);
    assert(all.subrange(0, lib.table.released.len() as int) =~= lib.table.released);
}

proof fn lemma_held_has(watches: Map<u64, table::WatchState>, n: int, id: u64)
    requires
        watches.contains_key(id),
        watches[id].dirf != 0,
        id < n <= u64::MAX + 1,
    ensures
        table::held(watches, n).contains(watches[id].dirf),
    decreases n,
{
    let rest = table::held(watches, n - 1);
    let last = (n - 1) as u64;
    if id == last {
        assert(rest.push(watches[id].dirf)[rest.len() as int] == watches[id].dirf);
    } else {
        lemma_held_has(watches, n - 1, id);
        let j = rest.index_of(watches[id].dirf);
        assert(table::held(watches, n)[j] == watches[id].dirf);
    }
}

/// When the kernel does not remove a watch, it is said on what and why.
pub proof fn law_refused_removals_are_told(lib: LibState, id: u64, why: Seq<u8>)
    ensures
        lib.removal_message(Some(id), why) == bytes::lit("Failed to remove watch on ")
            + lib.table.watches[id].filename + bytes::lit(": ") + why + bytes::lit("\n"),
{
}

} // verus!
