//! Setting up watches on a list of files.
//!
//! The caller starts with [`SetupReply::Start`], does what each [`SetupAsk`]
//! says and hands the outcome back, until the setup is finished.

use vstd::prelude::*;

use crate::bytes;
use crate::bytes::Piece;
use crate::consts;
use crate::fid;
use crate::inotify::Inotifytools;
use crate::inotify::LibState;
use crate::order;
use crate::order::ByteOrder;
use crate::table;
use crate::table::TableState;

verus! {

/// The file type bits of a file mode.
pub const S_IFMT: u32 = 0xf000;

/// The file type of a directory.
pub const S_IFDIR: u32 = 0x4000;

/// Size of a file identifier with the longest file handle we encode.
pub const FID_SIZE: usize = 40;

/// Size of a `struct file_handle` with the longest file handle we encode.
pub const HANDLE_SIZE: usize = 28;

/// What the caller found out.
pub enum SetupReply {
    /// Nothing yet: the files are to be watched.
    Start,
    /// What adding the watch or mark returned.
    Marked { wd: i32, errno: i32 },
    /// The mode `lstat()` gave, or its error.
    Stated(Result<u32, i32>),
    /// The `f_fsid` that `statfs()` gave, or what its error is called.
    FileSystem(Result<[u8; 8], Vec<u8>>),
    /// What opening the directory for reading returned, and what its error
    /// is called.
    MountOpened { fd: i32, why: Vec<u8> },
    /// What `name_to_handle_at()` returned, the `struct file_handle`, and
    /// what the error is called.
    Handled { ret: i32, handle: [u8; HANDLE_SIZE], why: Vec<u8> },
    /// What opening the directory as a path returned, and what its error is
    /// called.
    DirOpened { fd: i32, why: Vec<u8> },
}

/// What the caller is to do next.
pub enum SetupAsk {
    /// `inotify_add_watch()`
    AddWatch { path: Vec<u8>, mask: u32 },
    /// `fanotify_mark()`
    AddMark { path: Vec<u8>, flags: u32, mask: u64 },
    /// `lstat()`
    Stat(Vec<u8>),
    /// `statfs()`
    FileSystem(Vec<u8>),
    /// `open()` for reading
    OpenMount(Vec<u8>),
    /// `name_to_handle_at()`
    Handle(Vec<u8>),
    /// `open()` as a path
    OpenDir(Vec<u8>),
    /// All files are watched.
    Finished,
    /// A file cannot be watched; print a message, if there is one.
    Failed(Option<Vec<u8>>),
}

/// What a [`SetupAsk`] says.
#[verifier::ext_equal]
pub enum SetupAskState {
    AddWatch { path: Seq<u8>, mask: u32 },
    AddMark { path: Seq<u8>, flags: u32, mask: u64 },
    Stat(Seq<u8>),
    FileSystem(Seq<u8>),
    OpenMount(Seq<u8>),
    Handle(Seq<u8>),
    OpenDir(Seq<u8>),
    Finished,
    Failed(Option<Seq<u8>>),
}

impl View for SetupAsk {
    type V = SetupAskState;

    open spec fn view(&self) -> SetupAskState {
        match *self {
            SetupAsk::AddWatch { path, mask } => SetupAskState::AddWatch { path: path@, mask },
            SetupAsk::AddMark { path, flags, mask } => SetupAskState::AddMark {
                path: path@,
                flags,
                mask,
            },
            SetupAsk::Stat(path) => SetupAskState::Stat(path@),
            SetupAsk::FileSystem(path) => SetupAskState::FileSystem(path@),
            SetupAsk::OpenMount(path) => SetupAskState::OpenMount(path@),
            SetupAsk::Handle(path) => SetupAskState::Handle(path@),
            SetupAsk::OpenDir(path) => SetupAskState::OpenDir(path@),
            SetupAsk::Finished => SetupAskState::Finished,
            SetupAsk::Failed(msg) => SetupAskState::Failed(bytes::opt_bytes(msg)),
        }
    }
}

/// The setup of watches on a list of files.
pub struct WatchSetup {
    files: Vec<Vec<u8>>,
    index: usize,
    events: i32,
    wd: i32,
    name: Vec<u8>,
    is_dir: bool,
    fid: Vec<u8>,
}

/// What a [`WatchSetup`] holds.
#[verifier::ext_equal]
pub struct SetupState {
    pub files: Seq<Seq<u8>>,
    /// The file that is being set up.
    pub index: int,
    /// The events to watch for.
    pub events: i32,
    /// What adding the watch returned.
    pub wd: i32,
    /// The name of the file, always ending with '/' if it is a directory.
    pub name: Seq<u8>,
    pub is_dir: bool,
    /// The file identifier as far as it is known.
    pub fid: Seq<u8>,
}

impl View for WatchSetup {
    type V = SetupState;

    closed spec fn view(&self) -> SetupState {
        SetupState {
            files: bytes::names(self.files@),
            index: self.index as int,
            events: self.events,
            wd: self.wd,
            name: self.name@,
            is_dir: self.is_dir,
            fid: self.fid@,
        }
    }
}

/// A path with '/' at its end.
pub open spec fn with_slash(path: Seq<u8>) -> Seq<u8> {
    if path.len() > 0 && path.last() == '/' as u8 {
        path
    } else {
        path + bytes::lit("/")
    }
}

/// Whether what `lstat()` gave is a directory.
pub open spec fn is_directory(stat: Result<u32, i32>) -> bool {
    match stat {
        Ok(mode) => mode & S_IFMT == S_IFDIR,
        Err(_) => false,
    }
}

impl SetupState {
    /// The path of the file that is being set up.
    pub open spec fn path(self) -> Seq<u8> {
        bytes::c_str(self.files[self.index])
    }

    /// The next file, with nothing known about it.
    pub open spec fn following(self) -> SetupState {
        SetupState { index: self.index + 1, ..self }
    }

    /// A file is being set up.
    pub open spec fn busy(self) -> bool {
        &&& 0 <= self.index < self.files.len()
        &&& self.wd >= 0
        &&& self.fid.len() == FID_SIZE
        &&& self.is_dir ==> self.name.len() > 0
    }

    /// The setup is over: a file could not be watched.
    pub open spec fn failed(self, msg: Option<Seq<u8>>) -> (SetupState, SetupAskState) {
        (self, SetupAskState::Failed(msg))
    }
}

impl LibState {
    /// The setup and what to do next at the start of a file.
    pub open spec fn set_up_next(self, s: SetupState) -> (SetupState, SetupAskState) {
        if s.index >= s.files.len() {
            (s, SetupAskState::Finished)
        } else if self.fanotify_mode {
            let follow = s.events & consts::IN_DONT_FOLLOW == 0;
            let events = if follow {
                s.events
            } else {
                s.events & !consts::IN_DONT_FOLLOW
            };
            (
                SetupState { events, ..s },
                SetupAskState::AddMark {
                    path: s.path(),
                    flags: if follow {
                        fid::FAN_MARK_ADD | self.fanotify_mark_type
                    } else {
                        fid::FAN_MARK_ADD | self.fanotify_mark_type | fid::FAN_MARK_DONT_FOLLOW
                    },
                    mask: (events | fid::FAN_EVENT_ON_CHILD) as i64 as u64,
                },
            )
        } else {
            (s, SetupAskState::AddWatch { path: s.path(), mask: s.events as u32 })
        }
    }

    /// What comes after the watch was added or not.
    pub open spec fn set_up_marked(self, s: SetupState, wd: i32, errno: i32) -> (
        LibState,
        SetupState,
        SetupAskState,
    ) {
        if wd == -1 {
            let (next, ask) = s.failed(None);
            (LibState { error: errno, ..self }, next, ask)
        } else if wd < 0 {
            let (next, ask) = s.failed(
                Some(
                    bytes::lit("Failed to watch ") + s.path() + bytes::lit(": returned wd was ")
                        + bytes::decimal(wd as int) + bytes::lit(" (expected -1 or >0 )"),
                ),
            );
            (self, next, ask)
        } else {
            (self, SetupState { wd, ..s }, SetupAskState::Stat(s.path()))
        }
    }

    /// The handle with the file registered, and what to do next.
    pub open spec fn set_up_done(self, s: SetupState, f: Option<Seq<u8>>, dirf: i32) -> (
        LibState,
        SetupState,
        SetupAskState,
    ) {
        let lib = LibState { table: self.table.created(s.wd, f, s.name, dirf), ..self };
        let (next, ask) = lib.set_up_next(s.following());
        (lib, next, ask)
    }

    /// What comes after it is known whether the file is a directory.
    pub open spec fn set_up_stated(self, s: SetupState, stat: Result<u32, i32>) -> (
        LibState,
        SetupState,
        SetupAskState,
    ) {
        let next = SetupState {
            is_dir: is_directory(stat),
            name: if is_directory(stat) {
                with_slash(s.path())
            } else {
                s.path()
            },
            ..s
        };
        if s.wd == 0 {
            (self, next, SetupAskState::FileSystem(s.path()))
        } else {
            self.set_up_done(next, None, 0)
        }
    }

    /// What comes after the filesystem is known.
    pub open spec fn set_up_filesystem(self, s: SetupState, fsid: Result<Seq<u8>, Seq<u8>>) -> (
        SetupState,
        SetupAskState,
    ) {
        match fsid {
            Err(why) => s.failed(
                Some(
                    bytes::lit("Statfs failed on ") + s.path() + bytes::lit(": ") + why
                        + bytes::lit("\n"),
                ),
            ),
            Ok(id) => {
                let f = order::overwrite(Seq::new(FID_SIZE as nat, |i: int| 0u8), 4, id);
                (
                    SetupState { fid: f, ..s },
                    if s.is_dir && self.id_of_fid(f) is None {
                        SetupAskState::OpenMount(s.name)
                    } else {
                        SetupAskState::Handle(s.path())
                    },
                )
            },
        }
    }

    /// What comes after the directory was opened to reach its filesystem.
    pub open spec fn set_up_mount(self, s: SetupState, fd: i32, why: Seq<u8>) -> (
        LibState,
        SetupState,
        SetupAskState,
    ) {
        if fd < 0 {
            let (next, ask) = s.failed(Some(open_failure(s.name, why)));
            (self, next, ask)
        } else {
            // Hash mount_fd without terminating /
            (
                LibState {
                    table: self.table.created(
                        0,
                        Some(fid::fsid_key_of(s.fid, self.table.order)),
                        s.name.drop_last(),
                        fd,
                    ),
                    ..self
                },
                s,
                SetupAskState::Handle(s.path()),
            )
        }
    }

    /// What comes after the file handle is known.
    pub open spec fn set_up_handle(self, s: SetupState, ret: i32, handle: Seq<u8>, why: Seq<u8>) -> (
        LibState,
        SetupState,
        SetupAskState,
    ) {
        let order = self.table.order;
        let n = order.u32_at(handle, 0);
        if ret != 0 || n > fid::MAX_FID_LEN {
            let (next, ask) = s.failed(
                Some(
                    bytes::lit("Encode fid failed on ") + s.path() + bytes::lit(": ") + why
                        + bytes::lit("\n"),
                ),
            );
            (self, next, ask)
        } else {
            let f = encoded_fid(s.fid, s.is_dir, handle, order);
            let next = SetupState { fid: f, ..s };
            if s.is_dir {
                (self, next, SetupAskState::OpenDir(s.name))
            } else {
                self.set_up_done(next, Some(f), 0)
            }
        }
    }

    /// What comes after the directory was opened as a path.
    pub open spec fn set_up_dir(self, s: SetupState, fd: i32, why: Seq<u8>) -> (
        LibState,
        SetupState,
        SetupAskState,
    ) {
        if fd < 0 {
            let (next, ask) = s.failed(Some(open_failure(s.name, why)));
            (self, next, ask)
        } else {
            self.set_up_done(s, Some(s.fid), fd)
        }
    }

    /// The handle, the setup and what to do next after a reply.
    pub open spec fn set_up(self, s: SetupState, reply: SetupReply) -> (
        LibState,
        SetupState,
        SetupAskState,
    ) {
        match reply {
            SetupReply::Start => {
                let lib = LibState { error: 0, ..self };
                let (next, ask) = lib.set_up_next(s);
                (lib, next, ask)
            },
            SetupReply::Marked { wd, errno } => self.set_up_marked(s, wd, errno),
            SetupReply::Stated(stat) => self.set_up_stated(s, stat),
            SetupReply::FileSystem(fsid) => {
                let (next, ask) = self.set_up_filesystem(
                    s,
                    match fsid {
                        Ok(id) => Ok(id@),
                        Err(why) => Err(why@),
                    },
                );
                (self, next, ask)
            },
            SetupReply::MountOpened { fd, why } => self.set_up_mount(s, fd, why@),
            SetupReply::Handled { ret, handle, why } => self.set_up_handle(s, ret, handle@, why@),
            SetupReply::DirOpened { fd, why } => self.set_up_dir(s, fd, why@),
        }
    }

    /// A reply that can be worked on: there is room for another watch where
    /// one is added.
    pub open spec fn can_set_up(self, s: SetupState, reply: SetupReply) -> bool {
        match reply {
            SetupReply::Start => true,
            SetupReply::Marked { .. } => s.busy(),
            SetupReply::FileSystem(_) => s.busy(),
            SetupReply::Stated(_) => s.busy() && (s.wd != 0 ==> self.table.has_room_for(s.wd)),
            SetupReply::MountOpened { fd, .. } => {
                &&& s.busy()
                &&& s.is_dir
                &&& fd >= 0 ==> self.table.has_room()
            },
            SetupReply::Handled { .. } => s.busy() && (!s.is_dir ==> self.table.has_room_for(
                s.wd,
            )),
            SetupReply::DirOpened { fd, .. } => s.busy() && (fd >= 0 ==> self.table.has_room_for(
                s.wd,
            )),
        }
    }
}

/// What to say of a directory that cannot be opened.
pub open spec fn open_failure(name: Seq<u8>, why: Seq<u8>) -> Seq<u8> {
    bytes::lit("Failed to open ") + name + bytes::lit(": ") + why + bytes::lit("\n")
}

/// The file identifier of a file with the given `struct file_handle`.
pub open spec fn encoded_fid(f: Seq<u8>, is_dir: bool, handle: Seq<u8>, order: ByteOrder) -> Seq<
    u8,
> {
    let n = order.u32_at(handle, 0);
    order::overwrite(
        order::overwrite(f, fid::HANDLE_OFF as int, handle.take(8 + n)).update(
            0,
            if is_dir {
                fid::FAN_EVENT_INFO_TYPE_DFID
            } else {
                fid::FAN_EVENT_INFO_TYPE_FID
            },
        ),
        2,
        order.u16_bytes((fid::FID_HDR + n) as u16),
    )
}

/// Whether a path is a directory (not following symlinks), given the mode
/// `lstat()` gave or its error.
pub fn isdir(stat: Result<u32, i32>) -> (yes: bool)
    ensures
        yes == is_directory(stat),
{
    match stat {
        Ok(mode) => mode & S_IFMT == S_IFDIR,
        Err(_) => false,
    }
}

/// What to say when `lstat()` fails: nothing of a file that does not exist.
pub fn stat_failure(path: &[u8], errno: i32, why: &[u8]) -> (msg: Option<Vec<u8>>)
    ensures
        bytes::opt_bytes(msg) == if errno == consts::ENOENT {
            None
        } else {
            Some(
                bytes::lit("Stat failed on ") + bytes::c_str(path@) + bytes::lit(": ") + why@
                    + bytes::lit("\n"),
            )
        },
{
    if errno == consts::ENOENT {
        return None;
    }
    let mut msg = bytes::text("Stat failed on ");
    bytes::cstring(path).put(&mut msg);
    ": ".put(&mut msg);
    why.put(&mut msg);
    "\n".put(&mut msg);
    Some(msg)
}

fn open_failure_text(name: &[u8], why: &[u8]) -> (msg: Vec<u8>)
    ensures
        msg@ == open_failure(name@, why@),
{
    let mut msg = bytes::text("Failed to open ");
    name.put(&mut msg);
    ": ".put(&mut msg);
    why.put(&mut msg);
    "\n".put(&mut msg);
    msg
}

/// A path with '/' at its end.
pub fn slashed(path: &[u8]) -> (p: Vec<u8>)
    ensures
        p@ == with_slash(path@),
        p@.len() > 0,
{
    let mut p = bytes::to_vec(path);
    proof {
        reveal_strlit("/");
        bytes::lemma_lit("/");
    }
    if !(path.len() > 0 && path[path.len() - 1] == '/' as u8) {
        "/".put(&mut p);
    }
    p
}

impl WatchSetup {
    pub closed spec fn wf(&self) -> bool {
        self.index <= self.files@.len()
    }

    /// Watch `files` for `events`.
    pub fn new(files: Vec<Vec<u8>>, events: i32) -> (s: WatchSetup)
        ensures
            s.wf(),
            s@ == (SetupState {
                files: bytes::names(files@),
                index: 0,
                events,
                wd: 0,
                name: Seq::empty(),
                is_dir: false,
                fid: Seq::new(FID_SIZE as nat, |i: int| 0u8),
            }),
    {
        let s = WatchSetup {
            files,
            index: 0,
            events,
            wd: 0,
            name: Vec::new(),
            is_dir: false,
            fid: vec![0u8;FID_SIZE],
        };
        assert(s@.fid =~= Seq::new(FID_SIZE as nat, |i: int| 0u8));
        s
    }

    /// The path of the file that is being set up.
    fn path(&self) -> (p: Vec<u8>)
        requires
            0 <= self@.index < self@.files.len(),
        ensures
            p@ == self@.path(),
    {
        bytes::cstring(self.files[self.index].as_slice())
    }
}

impl Inotifytools {
    /// Set up watches on a list of files: take in what the caller found out,
    /// and say what to do next.
    pub fn watch_files(&mut self, setup: &mut WatchSetup, reply: SetupReply) -> (ask: SetupAsk)
        requires
            old(self).wf(),
            old(setup).wf(),
            old(self)@.can_set_up(old(setup)@, reply),
        ensures
            final(self).wf(),
            final(setup).wf(),
            (final(self)@, final(setup)@, ask@) == old(self)@.set_up(old(setup)@, reply),
    {
        match reply {
            SetupReply::Start => {
                self.error = 0;
                self.set_up_next_file(setup)
            },
            SetupReply::Marked { wd, errno } => self.set_up_mark(setup, wd, errno),
            SetupReply::Stated(stat) => self.set_up_stat(setup, stat),
            SetupReply::FileSystem(fsid) => self.set_up_fsid(setup, fsid),
            SetupReply::MountOpened { fd, why } => self.set_up_mount_fd(setup, fd, why.as_slice()),
            SetupReply::Handled { ret, handle, why } => self.set_up_file_handle(
                setup,
                ret,
                &handle,
                why.as_slice(),
            ),
            SetupReply::DirOpened { fd, why } => self.set_up_dir_fd(setup, fd, why.as_slice()),
        }
    }

    fn set_up_next_file(&self, setup: &mut WatchSetup) -> (ask: SetupAsk)
        requires
            old(setup).wf(),
        ensures
            final(setup).wf(),
            (final(setup)@, ask@) == self@.set_up_next(old(setup)@),
    {
        if setup.index >= setup.files.len() {
            return SetupAsk::Finished;
        }
        let path = setup.path();
        if self.fanotify_mode {
            let mut flags: u32 = fid::FAN_MARK_ADD | self.fanotify_mark_type;
            // IN_DONT_FOLLOW is only honoured for the first file of the list.
            if setup.events & consts::IN_DONT_FOLLOW != 0 {
                setup.events = setup.events & !consts::IN_DONT_FOLLOW;
                flags = flags | fid::FAN_MARK_DONT_FOLLOW;
            }
            let mask: u64 = (setup.events | fid::FAN_EVENT_ON_CHILD) as i64 as u64;
            SetupAsk::AddMark { path, flags, mask }
        } else {
            SetupAsk::AddWatch { path, mask: setup.events as u32 }
        }
    }

    fn set_up_mark(&mut self, setup: &mut WatchSetup, wd: i32, errno: i32) -> (ask: SetupAsk)
        requires
            old(self).wf(),
            old(setup).wf(),
            old(setup)@.busy(),
        ensures
            final(self).wf(),
            final(setup).wf(),
            (final(self)@, final(setup)@, ask@) == old(self)@.set_up_marked(
                old(setup)@,
                wd,
                errno,
            ),
    {
        if wd == -1 {
            self.error = errno;
            return SetupAsk::Failed(None);
        }
        let path = setup.path();
        if wd < 0 {
            let mut msg = bytes::text("Failed to watch ");
            path.put(&mut msg);
            ": returned wd was ".put(&mut msg);
            wd.put(&mut msg);
            " (expected -1 or >0 )".put(&mut msg);
            return SetupAsk::Failed(Some(msg));
        }
        setup.wd = wd;
        SetupAsk::Stat(path)
    }

    /// Register the file that is being set up, and go on to the next.
    fn set_up_register(&mut self, setup: &mut WatchSetup, f: Option<Vec<u8>>, dirf: i32) -> (ask:
        SetupAsk)
        requires
            old(self).wf(),
            old(setup).wf(),
            old(setup)@.busy(),
            old(self)@.table.has_room_for(old(setup)@.wd),
        ensures
            final(self).wf(),
            final(setup).wf(),
            (final(self)@, final(setup)@, ask@) == old(self)@.set_up_done(
                old(setup)@,
                bytes::opt_bytes(f),
                dirf,
            ),
    {
        self.table.create(setup.wd, f, setup.name.as_slice(), dirf);
        let size = setup.files.len();
        assert(setup.index < size);
        setup.index = setup.index + 1;
        assert(setup@ =~= old(setup)@.following());
        self.set_up_next_file(setup)
    }

    fn set_up_stat(&mut self, setup: &mut WatchSetup, stat: Result<u32, i32>) -> (ask: SetupAsk)
        requires
            old(self).wf(),
            old(setup).wf(),
            old(setup)@.busy(),
            old(setup)@.wd != 0 ==> old(self)@.table.has_room_for(old(setup)@.wd),
        ensures
            final(self).wf(),
            final(setup).wf(),
            (final(self)@, final(setup)@, ask@) == old(self)@.set_up_stated(old(setup)@, stat),
    {
        let path = setup.path();
        // Always end filename with / if it is a directory
        setup.is_dir = isdir(stat);
        setup.name = if setup.is_dir {
            slashed(path.as_slice())
        } else {
            bytes::to_vec(path.as_slice())
        };
        if setup.wd == 0 {
            SetupAsk::FileSystem(path)
        } else {
            self.set_up_register(setup, None, 0)
        }
    }

    fn set_up_fsid(&self, setup: &mut WatchSetup, fsid: Result<[u8; 8], Vec<u8>>) -> (ask: SetupAsk)
        requires
            self.wf(),
            old(setup).wf(),
            old(setup)@.busy(),
        ensures
            final(setup).wf(),
            (final(setup)@, ask@) == self@.set_up_filesystem(
                old(setup)@,
                match fsid {
                    Ok(id) => Ok(id@),
                    Err(why) => Err(why@),
                },
            ),
    {
        let path = setup.path();
        match fsid {
            Err(why) => {
                let mut msg = bytes::text("Statfs failed on ");
                path.put(&mut msg);
                ": ".put(&mut msg);
                why.put(&mut msg);
                "\n".put(&mut msg);
                SetupAsk::Failed(Some(msg))
            },
            Ok(id) => {
                let mut f: Vec<u8> = vec![0u8;FID_SIZE];
                let mut i: usize = 0;
                while i < 8
                    invariant
                        i <= 8,
                        f@ == order::overwrite(
                            Seq::new(FID_SIZE as nat, |i: int| 0u8),
                            4,
                            id@.take(i as int),
                        ),
                    decreases 8 - i,
                {
                    f[4 + i] = id[i];
                    i = i + 1;
                    assert(f@ =~= order::overwrite(
                        Seq::new(FID_SIZE as nat, |i: int| 0u8),
                        4,
                        id@.take(i as int),
                    ));
                }
                assert(id@.take(8) =~= id@);
                // The lookup key still has hdr.len == 0 at this point, so
                // every directory registers a mount fd.
                let known = self.table.id_by_fid(f.as_slice());
                setup.fid = f;
                if setup.is_dir && known.is_none() {
                    SetupAsk::OpenMount(bytes::to_vec(setup.name.as_slice()))
                } else {
                    SetupAsk::Handle(path)
                }
            },
        }
    }

    fn set_up_mount_fd(&mut self, setup: &mut WatchSetup, fd: i32, why: &[u8]) -> (ask: SetupAsk)
        requires
            old(self).wf(),
            old(setup).wf(),
            old(setup)@.busy(),
            old(setup)@.is_dir,
            fd >= 0 ==> old(self)@.table.has_room(),
        ensures
            final(self).wf(),
            final(setup).wf(),
            (final(self)@, final(setup)@, ask@) == old(self)@.set_up_mount(
                old(setup)@,
                fd,
                why@,
            ),
    {
        if fd < 0 {
            return SetupAsk::Failed(Some(open_failure_text(setup.name.as_slice(), why)));
        }
        let key = fid::fsid_key(setup.fid.as_slice(), self.table.order());
        let n = setup.name.len();
        let name = bytes::copy_range(setup.name.as_slice(), 0, n - 1);
        assert(name@ =~= setup@.name.drop_last());
        self.table.create(0, Some(key), name.as_slice(), fd);
        SetupAsk::Handle(setup.path())
    }

    fn set_up_file_handle(
        &mut self,
        setup: &mut WatchSetup,
        ret: i32,
        handle: &[u8; HANDLE_SIZE],
        why: &[u8],
    ) -> (ask: SetupAsk)
        requires
            old(self).wf(),
            old(setup).wf(),
            old(setup)@.busy(),
            !old(setup)@.is_dir ==> old(self)@.table.has_room_for(old(setup)@.wd),
        ensures
            final(self).wf(),
            final(setup).wf(),
            (final(self)@, final(setup)@, ask@) == old(self)@.set_up_handle(
                old(setup)@,
                ret,
                handle@,
                why@,
            ),
    {
        let order = self.table.order();
        let n = order.read_u32(handle.as_slice(), 0);
        if ret != 0 || n > fid::MAX_FID_LEN as u32 {
            let mut msg = bytes::text("Encode fid failed on ");
            setup.path().put(&mut msg);
            ": ".put(&mut msg);
            why.put(&mut msg);
            "\n".put(&mut msg);
            return SetupAsk::Failed(Some(msg));
        }
        let f = encode_fid(setup.fid.as_slice(), setup.is_dir, handle, order);
        setup.fid = bytes::to_vec(f.as_slice());
        if setup.is_dir {
            SetupAsk::OpenDir(bytes::to_vec(setup.name.as_slice()))
        } else {
            self.set_up_register(setup, Some(f), 0)
        }
    }

    fn set_up_dir_fd(&mut self, setup: &mut WatchSetup, fd: i32, why: &[u8]) -> (ask: SetupAsk)
        requires
            old(self).wf(),
            old(setup).wf(),
            old(setup)@.busy(),
            fd >= 0 ==> old(self)@.table.has_room_for(old(setup)@.wd),
        ensures
            final(self).wf(),
            final(setup).wf(),
            (final(self)@, final(setup)@, ask@) == old(self)@.set_up_dir(old(setup)@, fd, why@),
    {
        if fd < 0 {
            return SetupAsk::Failed(Some(open_failure_text(setup.name.as_slice(), why)));
        }
        let f = bytes::to_vec(setup.fid.as_slice());
        self.set_up_register(setup, Some(f), fd)
    }
}

/// The file identifier of a file with the given `struct file_handle`.
fn encode_fid(f: &[u8], is_dir: bool, handle: &[u8; HANDLE_SIZE], order: ByteOrder) -> (r: Vec<u8>)
    requires
        f@.len() == FID_SIZE,
        order.u32_at(handle@, 0) <= fid::MAX_FID_LEN,
    ensures
        r@ == encoded_fid(f@, is_dir, handle@, order),
        r@.len() == FID_SIZE,
{
    let n: usize = order.read_u32(handle.as_slice(), 0) as usize;
    let mut r = bytes::to_vec(f);
    let mut i: usize = 0;
    while i < 8 + n
        invariant
            i <= 8 + n,
            n <= fid::MAX_FID_LEN,
            r@ == order::overwrite(f@, fid::HANDLE_OFF as int, handle@.take(i as int)),
            f@.len() == FID_SIZE,
        decreases 8 + n - i,
    {
        r[fid::HANDLE_OFF + i] = handle[i];
        i = i + 1;
        assert(r@ =~= order::overwrite(f@, fid::HANDLE_OFF as int, handle@.take(i as int)));
    }
    fid::set_info_type(
        r.as_mut_slice(),
        if is_dir {
            fid::FAN_EVENT_INFO_TYPE_DFID
        } else {
            fid::FAN_EVENT_INFO_TYPE_FID
        },
    );
    fid::set_hdr_len(r.as_mut_slice(), (fid::FID_HDR + n) as u16, order);
    r
}

/// With fanotify, symlinks are only left alone for the first file of a list:
/// the marks of the files after it follow them.
pub proof fn law_dont_follow_is_for_first_file(lib: LibState, s: SetupState)
    requires
        lib.fanotify_mode,
        0 <= s.index,
        s.index + 1 < s.files.len(),
    ensures
        ({
            let (first, ask) = lib.set_up_next(s);
            let (second, then) = lib.set_up_next(first.following());
            &&& ask is AddMark
            &&& then matches SetupAskState::AddMark { flags, .. } && flags == fid::FAN_MARK_ADD
                | lib.fanotify_mark_type
            &&& second.events == first.events
        }),
{
    let e = s.events;
    let d = consts::IN_DONT_FOLLOW;
    assert((e & !d) & d == 0) by (bit_vector);
}

/// The name a file is watched under.
pub open spec fn watched_name(file: Seq<u8>, stat: Result<u32, i32>) -> Seq<u8> {
    if is_directory(stat) {
        with_slash(bytes::c_str(file))
    } else {
        bytes::c_str(file)
    }
}

/// The watches after the files from number `i` on were added under the watch
/// descriptors `wds`.
pub open spec fn all_created(
    t: TableState,
    files: Seq<Seq<u8>>,
    wds: Seq<i32>,
    stats: Seq<Result<u32, i32>>,
    i: int,
) -> TableState
    decreases files.len() - i,
{
    if i < 0 || i >= files.len() {
        t
    } else {
        all_created(
            t.created(wds[i], None, watched_name(files[i], stats[i]), 0),
            files,
            wds,
            stats,
            i + 1,
        )
    }
}

impl LibState {
    /// The handle at the end of a setup in which the kernel hands out the
    /// watch descriptors `wds`.
    pub open spec fn set_up_all(
        self,
        s: SetupState,
        ask: SetupAskState,
        wds: Seq<i32>,
        stats: Seq<Result<u32, i32>>,
    ) -> (LibState, SetupAskState)
        decreases s.files.len() - s.index,
    {
        if s.index < 0 || s.index >= s.files.len() || ask !is AddWatch {
            (self, ask)
        } else {
            let (lib1, s1, ask1) = self.set_up(
                s,
                SetupReply::Marked { wd: wds[s.index], errno: 0 },
            );
            let (lib2, s2, ask2) = lib1.set_up(s1, SetupReply::Stated(stats[s.index]));
            if s2.index == s.index + 1 && s2.files == s.files {
                lib2.set_up_all(s2, ask2, wds, stats)
            } else {
                (lib2, ask2)
            }
        }
    }
}

/// With inotify, all files of a list come to be watched under their names if
/// the kernel hands out watch descriptors for them.
pub proof fn law_watch_files_registers_all(
    lib: LibState,
    s: SetupState,
    wds: Seq<i32>,
    stats: Seq<Result<u32, i32>>,
)
    requires
        !lib.fanotify_mode,
        0 <= s.index <= s.files.len(),
        wds.len() == s.files.len(),
        stats.len() == s.files.len(),
        forall|i: int| 0 <= i < wds.len() ==> #[trigger] wds[i] > 0,
    ensures
        lib.set_up_all(s, lib.set_up_next(s).1, wds, stats) == (
            LibState {
                table: all_created(lib.table, s.files, wds, stats, s.index),
                ..lib
            },
            SetupAskState::Finished,
        ),
    decreases s.files.len() - s.index,
{
    if s.index < s.files.len() {
        let ask = lib.set_up_next(s).1;
        assert(wds[s.index] > 0);
        let (lib1, s1, ask1) = lib.set_up(s, SetupReply::Marked { wd: wds[s.index], errno: 0 });
        assert(lib1 == lib);
        let (lib2, s2, ask2) = lib1.set_up(s1, SetupReply::Stated(stats[s.index]));
        assert(lib2.table == lib.table.created(
            wds[s.index],
            None,
            watched_name(s.files[s.index], stats[s.index]),
            0,
        ));
        assert(s2.index == s.index + 1);
        assert(ask2 == lib2.set_up_next(s2).1);
        law_watch_files_registers_all(lib2, s2, wds, stats);
    }
}

proof fn lemma_watched_name(file: Seq<u8>, stat: Result<u32, i32>)
    ensures
        bytes::c_str(watched_name(file, stat)) == watched_name(file, stat),
{
    bytes::lemma_c_str_idempotent(file);
    reveal_strlit("/");
    bytes::lemma_lit("/");
    let s = bytes::lit("/");
    bytes::lemma_first_at_unique(s, 0, 1);
    assert(s.take(1) =~= s);
    bytes::lemma_c_str_concat(bytes::c_str(file), s);
}

/// Names and watch descriptors for files from number `i` on that are their
/// own, and not in use yet.
pub open spec fn are_new(
    t: TableState,
    files: Seq<Seq<u8>>,
    wds: Seq<i32>,
    stats: Seq<Result<u32, i32>>,
    i: int,
) -> bool {
    &&& wds.len() == files.len()
    &&& stats.len() == files.len()
    &&& forall|k: int|
        i <= k < files.len() ==> (#[trigger] wds[k]) > 0 && !t.by_wd.contains_key(wds[k])
            && !t.by_filename.contains_key(watched_name(files[k], stats[k]))
    &&& forall|j: int, k: int|
        i <= j < k < files.len() ==> #[trigger] wds[j] != #[trigger] wds[k] && watched_name(
            files[j],
            stats[j],
        ) != watched_name(files[k], stats[k])
}

/// A watch under a name and watch descriptor is found by either.
pub open spec fn is_found(t: TableState, name: Seq<u8>, wd: i32) -> bool {
    &&& t.by_wd.contains_key(wd)
    &&& t.by_filename.contains_key(name)
    &&& t.by_wd[wd] == t.by_filename[name]
    &&& t.watches[t.by_wd[wd]].wd == wd
    &&& t.watches[t.by_wd[wd]].filename == name
}

/// What was found in `t` is found in `u`, unchanged.
pub open spec fn keeps_all(t: TableState, u: TableState) -> bool {
    &&& forall|k: i32| #[trigger]
        t.by_wd.contains_key(k) ==> u.by_wd.contains_key(k) && u.by_wd[k] == t.by_wd[k]
    &&& forall|k: Seq<u8>| #[trigger]
        t.by_filename.contains_key(k) ==> u.by_filename.contains_key(k) && u.by_filename[k]
            == t.by_filename[k]
    &&& forall|id: u64| #[trigger]
        t.watches.contains_key(id) ==> u.watches.contains_key(id) && u.watches[id] == t.watches[id]
}

proof fn lemma_all_created(
    t: TableState,
    files: Seq<Seq<u8>>,
    wds: Seq<i32>,
    stats: Seq<Result<u32, i32>>,
    i: int,
)
    requires
        t.consistent(),
        t.by_filename.dom().finite(),
        0 <= i <= files.len(),
        t.next_id + (files.len() - i) <= u64::MAX,
        are_new(t, files, wds, stats, i),
    ensures
        ({
            let u = all_created(t, files, wds, stats, i);
            &&& u.consistent()
            &&& keeps_all(t, u)
            &&& u.by_filename.dom().finite()
            &&& u.by_filename.dom().len() == t.by_filename.dom().len() + (files.len() - i)
            &&& forall|k: int|
                i <= k < files.len() ==> is_found(
                    u,
                    watched_name(#[trigger] files[k], stats[k]),
                    wds[k],
                )
        }),
    decreases files.len() - i,
{
    if i < files.len() {
        let name = watched_name(files[i], stats[i]);
        let next = t.created(wds[i], None, name, 0);
        lemma_watched_name(files[i], stats[i]);
        assert(wds[i] > 0);
        table::law_indexes_stay_consistent(t, 0, wds[i], None, name, 0);
        table::law_existing_keys_are_kept(t, wds[i], None, name, 0);
        assert(next.by_filename =~= t.by_filename.insert(name, t.next_id));
        assert(next.by_wd =~= t.by_wd.insert(wds[i], t.next_id));
        assert(next.by_filename.dom() =~= t.by_filename.dom().insert(name));
        assert(is_found(next, name, wds[i]));
        assert forall|k: int| i + 1 <= k < files.len() implies (#[trigger] wds[k]) > 0
            && !next.by_wd.contains_key(wds[k]) && !next.by_filename.contains_key(
            watched_name(files[k], stats[k]),
        ) by {
            assert(wds[i] != wds[k]);
        }
        lemma_all_created(next, files, wds, stats, i + 1);
        let u = all_created(next, files, wds, stats, i + 1);
        assert(u == all_created(t, files, wds, stats, i));
        assert(next.watches.contains_key(t.next_id));
        assert(next.by_wd.contains_key(wds[i]));
        assert(next.by_filename.contains_key(name));
        assert(is_found(u, name, wds[i]));
        assert(keeps_all(t, u)) by {
            assert forall|k: i32| #[trigger] t.by_wd.contains_key(k) implies u.by_wd.contains_key(k)
                && u.by_wd[k] == t.by_wd[k] by {
                assert(next.by_wd.contains_key(k));
            }
            assert forall|k: Seq<u8>| #[trigger]
                t.by_filename.contains_key(k) implies u.by_filename.contains_key(k)
                && u.by_filename[k] == t.by_filename[k] by {
                assert(next.by_filename.contains_key(k));
            }
            assert forall|id: u64| #[trigger]
                t.watches.contains_key(id) implies u.watches.contains_key(id) && u.watches[id]
                == t.watches[id] by {
                assert(next.watches.contains_key(id));
            }
        }
        assert forall|k: int| i <= k < files.len() implies is_found(
            u,
            watched_name(#[trigger] files[k], stats[k]),
            wds[k],
        ) by {
            if k > i {
                assert(files[k] == files[k]);
            }
        }
    }
}

/// With inotify, when a list of files was set up, every file is found by its
/// name and by its watch descriptor, there are as many more names as files,
/// and what was watched before is as it was.
pub proof fn law_watched_files_are_found(
    lib: LibState,
    s: SetupState,
    wds: Seq<i32>,
    stats: Seq<Result<u32, i32>>,
)
    requires
        lib.table.consistent(),
        lib.table.by_filename.dom().finite(),
        !lib.fanotify_mode,
        s.index == 0,
        lib.table.next_id + s.files.len() <= u64::MAX,
        are_new(lib.table, s.files, wds, stats, 0),
        forall|k: int|
            0 <= k < s.files.len() ==> watched_name(#[trigger] s.files[k], stats[k]).len() > 0,
    ensures
        ({
            let (lib1, s1, ask1) = lib.set_up(s, SetupReply::Start);
            let (after, ask) = lib1.set_up_all(s1, ask1, wds, stats);
            &&& ask == SetupAskState::Finished
            &&& after.error == 0
            &&& forall|k: int|
                0 <= k < s.files.len() ==> {
                    let name = watched_name(#[trigger] s.files[k], stats[k]);
                    &&& after.wd_of_name(name) == wds[k]
                    &&& after.name_of_wd(wds[k], None) == name
                }
            &&& after.table.by_filename.dom().len() == lib.table.by_filename.dom().len()
                + s.files.len()
            &&& keeps_all(lib.table, after.table)
            &&& s.files.len() == 0 ==> after == (LibState { error: 0, ..lib })
        }),
{
    let (lib1, s1, ask1) = lib.set_up(s, SetupReply::Start);
    assert forall|i: int| 0 <= i < wds.len() implies #[trigger] wds[i] > 0 by {}
    law_watch_files_registers_all(lib1, s1, wds, stats);
    lemma_all_created(lib.table, s.files, wds, stats, 0);
    let (after, ask) = lib1.set_up_all(s1, ask1, wds, stats);
    assert forall|k: int| 0 <= k < s.files.len() implies {
        let name = watched_name(#[trigger] s.files[k], stats[k]);
        &&& after.wd_of_name(name) == wds[k]
        &&& after.name_of_wd(wds[k], None) == name
    } by {
        assert(is_found(after.table, watched_name(s.files[k], stats[k]), wds[k]));
        assert(wds[k] > 0);
    }
}

/// Each file is watched for the very events asked for; with fanotify the mark
/// is added to what the handle marks, also for what happens in directories,
/// and does not follow a link where that was asked for.
pub proof fn law_files_are_watched_for_the_events_asked_for(lib: LibState, s: SetupState)
    requires
        0 <= s.index < s.files.len(),
    ensures
        !lib.fanotify_mode ==> lib.set_up_next(s) == (
            s,
            SetupAskState::AddWatch {
                path: bytes::c_str(s.files[s.index]),
                mask: s.events as u32,
            },
        ),
        lib.fanotify_mode ==> (lib.set_up_next(s).1 matches SetupAskState::AddMark {
            path,
            flags,
            mask,
        } && {
            let follow = s.events & 0x0200_0000 == 0;
            &&& path == bytes::c_str(s.files[s.index])
            &&& follow ==> flags == 1 | lib.fanotify_mark_type
            &&& !follow ==> flags == 1 | lib.fanotify_mark_type | 4
            &&& follow && s.events >= 0 ==> mask == s.events | 0x0800_0000
        }),
        lib.set_up_next(SetupState { index: s.files.len() as int, ..s }).1
            == SetupAskState::Finished,
{
    let e = s.events;
    if e >= 0 {
        assert((e | 0x0800_0000i32) >= 0) by (bit_vector)
            requires
                e >= 0,
        ;
    }
}

/// A watch the kernel refuses ends the setup with the kernel's error, and
/// changes no watch; one it grants leads on to what the file is.
pub proof fn law_refused_watches_end_the_setup(lib: LibState, s: SetupState, wd: i32, errno: i32)
    ensures
        ({
            let (u, next, ask) = lib.set_up_marked(s, wd, errno);
            &&& wd == -1 ==> ask == SetupAskState::Failed(None) && u == (LibState {
                error: errno,
                ..lib
            })
            &&& wd < -1 ==> (ask matches SetupAskState::Failed(m) && m is Some) && u == lib
            &&& wd >= 0 ==> ask == SetupAskState::Stat(s.path()) && u == lib && next
                == (SetupState { wd, ..s })
        }),
{
}

/// A directory is what `lstat()` says it is, not what a link leads to; its
/// name ends with one '/'.
pub proof fn law_directories_end_with_a_slash(file: Seq<u8>, mode: u32, errno: i32)
    requires
        file.len() > 0,
        bytes::c_str(file) == file,
    ensures
        watched_name(file, Err(errno)) == file,
        mode & 0xf000 != 0x4000 ==> watched_name(file, Ok(mode)) == file,
        mode & 0xf000 == 0x4000 ==> watched_name(file, Ok(mode)) == if file.last() == '/' as u8 {
            file
        } else {
            file + seq!['/' as u8]
        },
{
    reveal_strlit("/");
    bytes::lemma_lit("/");
    assert(bytes::lit("/") =~= seq!['/' as u8]);
}

/// The file identifier of a file bears its kind, its length, the filesystem
/// and the file handle.
pub proof fn law_file_identifiers_are_encoded(
    f: Seq<u8>,
    is_dir: bool,
    handle: Seq<u8>,
    order: ByteOrder,
)
    requires
        f.len() == 40,
        order.u32_at(handle, 0) <= 20,
        handle.len() >= 28,
    ensures
        ({
            let r = encoded_fid(f, is_dir, handle, order);
            let n = order.u32_at(handle, 0);
            &&& r.len() == 40
            &&& r[0] == if is_dir {
                3u8
            } else {
                1u8
            }
            &&& fid::len_of(r, order) == 20 + n
            &&& r.subrange(4, 12) == f.subrange(4, 12)
            &&& r.subrange(12, 20 + n) == handle.take(8 + n)
        }),
{
    let r = encoded_fid(f, is_dir, handle, order);
    let n = order.u32_at(handle, 0);
    let len = (fid::FID_HDR + n) as u16;
    assert(r.subrange(4, 12) =~= f.subrange(4, 12));
    assert(r.subrange(12, 20 + n) =~= handle.take(8 + n));
    let b = order::overwrite(f, fid::HANDLE_OFF as int, handle.take(8 + n)).update(
        0,
        if is_dir {
            fid::FAN_EVENT_INFO_TYPE_DFID
        } else {
            fid::FAN_EVENT_INFO_TYPE_FID
        },
    );
    order::law_u16_is_read_back(order, b, 2, len);
}

/// With fanotify, a file is registered by the identifier made of what its
/// filesystem and file handle are.
pub proof fn law_fanotify_files_are_registered(
    lib: LibState,
    s: SetupState,
    mode: u32,
    fsid: [u8; 8],
    handle: [u8; 28],
    why: Vec<u8>,
)
    requires
        s.busy(),
        s.wd == 0,
        mode & 0xf000 != 0x4000,
        lib.table.order.u32_at(handle@, 0) <= 20,
    ensures
        ({
            let (l1, s1, ask1) = lib.set_up(s, SetupReply::Stated(Ok(mode)));
            let (l2, s2, ask2) = l1.set_up(s1, SetupReply::FileSystem(Ok(fsid)));
            let (l3, s3, ask3) = l2.set_up(s2, SetupReply::Handled { ret: 0, handle, why });
            let start = Seq::new(
                40,
                |i: int|
                    if 4 <= i < 12 {
                        fsid@[i - 4]
                    } else {
                        0u8
                    },
            );
            &&& ask1 == SetupAskState::FileSystem(s.path()) && l1 == lib
            &&& ask2 == SetupAskState::Handle(s.path()) && l2 == lib
            &&& l3 == (LibState {
                table: lib.table.created(
                    0,
                    Some(encoded_fid(start, false, handle@, lib.table.order)),
                    s.path(),
                    0,
                ),
                ..lib
            })
            &&& s3.index == s.index + 1
        }),
{
    let start = Seq::new(
        40,
        |i: int|
            if 4 <= i < 12 {
                fsid@[i - 4]
            } else {
                0u8
            },
    );
    assert(order::overwrite(Seq::new(FID_SIZE as nat, |i: int| 0u8), 4, fsid@) =~= start);
}

/// With fanotify, a directory is registered by its identifier with the
/// descriptor it is open under, and one of a new filesystem also for that
/// filesystem.
pub proof fn law_fanotify_directories_are_registered(
    lib: LibState,
    s: SetupState,
    fd: i32,
    why: Vec<u8>,
)
    requires
        s.busy(),
        s.is_dir,
    ensures
        fd >= 0 ==> {
            let (u, next, ask) = lib.set_up(s, SetupReply::MountOpened { fd, why });
            &&& u.table == lib.table.created(
                0,
                Some(fid::fsid_key_of(s.fid, lib.table.order)),
                s.name.drop_last(),
                fd,
            )
            &&& ask == SetupAskState::Handle(s.path())
        },
        fd >= 0 ==> {
            let (u, next, ask) = lib.set_up(s, SetupReply::DirOpened { fd, why });
            &&& u.table == lib.table.created(s.wd, Some(s.fid), s.name, fd)
            &&& next.index == s.index + 1
        },
        fd < 0 ==> (lib.set_up(s, SetupReply::MountOpened { fd, why }).2 is Failed) && lib.set_up(
            s,
            SetupReply::MountOpened { fd, why },
        ).0 == lib,
        fd < 0 ==> (lib.set_up(s, SetupReply::DirOpened { fd, why }).2 is Failed) && lib.set_up(
            s,
            SetupReply::DirOpened { fd, why },
        ).0 == lib,
{
}

/// The filesystem and the file handle are asked for by the path that was
/// given, and a directory is opened by its name with a slash.
pub proof fn law_fanotify_questions_are_about_the_path(
    lib: LibState,
    s: SetupState,
    mode: u32,
    fsid: [u8; 8],
    fd: i32,
    why: Vec<u8>,
)
    requires
        s.busy(),
        s.wd == 0,
        fd >= 0,
        mode & 0xf000 == 0x4000,
    ensures
        ({
            let (l1, s1, ask1) = lib.set_up(s, SetupReply::Stated(Ok(mode)));
            let (l2, s2, ask2) = l1.set_up(s1, SetupReply::FileSystem(Ok(fsid)));
            let (l3, s3, ask3) = l2.set_up(s2, SetupReply::MountOpened { fd, why });
            &&& ask1 == SetupAskState::FileSystem(s.path())
            &&& ask2 == SetupAskState::OpenMount(s1.name) || ask2 == SetupAskState::Handle(s.path())
            &&& ask3 == SetupAskState::Handle(s.path())
            &&& s1.name == with_slash(s.path())
        }),
        lib.set_up(s, SetupReply::MountOpened { fd: (-1) as i32, why }).2 == SetupAskState::Failed(
            Some(bytes::lit("Failed to open ") + s.name + bytes::lit(": ") + why@ + bytes::lit("\n")),
        ),
        lib.set_up(s, SetupReply::DirOpened { fd: (-1) as i32, why }).2 == SetupAskState::Failed(
            Some(bytes::lit("Failed to open ") + s.name + bytes::lit(": ") + why@ + bytes::lit("\n")),
        ),
{
}

/// A watch descriptor that makes no sense is told with the file.
pub proof fn law_odd_descriptors_are_told(lib: LibState, s: SetupState, wd: i32, errno: i32)
    requires
        wd < -1,
    ensures
        lib.set_up_marked(s, wd, errno).2 == SetupAskState::Failed(
            Some(
                bytes::lit("Failed to watch ") + s.path() + bytes::lit(": returned wd was ")
                    + bytes::decimal(wd as int) + bytes::lit(" (expected -1 or >0 )"),
            ),
        ),
{
}

} // verus!
