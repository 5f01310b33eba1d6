//! Finding the path of a fanotify file identifier.
//!
//! The caller starts with [`PathReply::Start`], does what each [`PathAsk`]
//! says and hands the outcome back, until there is a path or none can be
//! had.

use vstd::prelude::*;

use crate::bytes;
use crate::bytes::Piece;
use crate::consts;
use crate::fid;
use crate::inotify::Inotifytools;
use crate::inotify::LibState;
use crate::order;
use crate::order::ByteOrder;

verus! {

/// Longest path the kernel reports, with the terminating NUL.
pub const PATH_MAX: usize = 4096;

/// Longest link target that is read: two characters are appended to it, '/'
/// and NUL.
pub const LINK_MAX: usize = 4094;

/// Number of bytes a path may have before what is said of a deleted file.
pub const FIDNAME_MAX: usize = 4592;

/// The current directory as a directory descriptor.
pub const AT_FDCWD: i32 = -100;

/// What the caller found out.
pub enum PathReply {
    /// Nothing yet: a path is wanted.
    Start,
    /// What `open_by_handle_at()` returned.
    Opened(i32),
    /// What `dup()` returned.
    Duplicated(i32),
    /// What `readlink()` gave.
    Link(Option<Vec<u8>>),
    /// What `faccessat()` returned, and what the error is called.
    Access { rc: i32, errno: i32, why: Vec<u8> },
}

/// What the caller is to do next.
pub enum PathAsk {
    /// `open_by_handle_at()`
    Open { mount_fd: i32, handle: Vec<u32> },
    /// `dup()`
    Duplicate(i32),
    /// `readlink()` of up to [`LINK_MAX`] bytes.
    ReadLink(Vec<u8>),
    /// `faccessat()` relative to the directory, not following symlinks.
    Access { dirf: i32, name: Vec<u8> },
    /// Here is the path.
    Found(Vec<u8>),
    /// There is none; print a message, if there is one.
    Lost(Option<Vec<u8>>),
}

/// What a [`PathAsk`] says.
#[verifier::ext_equal]
pub enum PathAskState {
    Open { mount_fd: i32, handle: Seq<u32> },
    Duplicate(i32),
    ReadLink(Seq<u8>),
    Access { dirf: i32, name: Seq<u8> },
    Found(Seq<u8>),
    Lost(Option<Seq<u8>>),
}

impl View for PathAsk {
    type V = PathAskState;

    open spec fn view(&self) -> PathAskState {
        match *self {
            PathAsk::Open { mount_fd, handle } => PathAskState::Open { mount_fd, handle: handle@ },
            PathAsk::Duplicate(fd) => PathAskState::Duplicate(fd),
            PathAsk::ReadLink(path) => PathAskState::ReadLink(path@),
            PathAsk::Access { dirf, name } => PathAskState::Access { dirf, name: name@ },
            PathAsk::Found(path) => PathAskState::Found(path@),
            PathAsk::Lost(msg) => PathAskState::Lost(bytes::opt_bytes(msg)),
        }
    }
}

/// The search for the path of a file identifier.
pub struct PathSearch {
    fid: Vec<u8>,
    dirf: Option<i32>,
    link: Vec<u8>,
}

/// What a [`PathSearch`] holds.
#[verifier::ext_equal]
pub struct SearchState {
    pub fid: Seq<u8>,
    /// The descriptor of the directory, to be closed in the end.
    pub dirf: Option<i32>,
    /// The path of the directory.
    pub link: Seq<u8>,
}

impl View for PathSearch {
    type V = SearchState;

    closed spec fn view(&self) -> SearchState {
        SearchState { fid: self.fid@, dirf: self.dirf, link: self.link@ }
    }
}

/// Where the name of a file identifier starts.
pub open spec fn name_off(f: Seq<u8>, order: ByteOrder) -> int {
    fid::FID_HDR + fid::handle_of(f, order)
}

/// Number of bytes after the file handle, if there is a name.
pub open spec fn name_len(f: Seq<u8>, order: ByteOrder) -> int {
    if bytes::at(f, 0) != fid::FAN_EVENT_INFO_TYPE_DFID_NAME || bytes::at(f, name_off(f, order))
        == 0 {
        0
    } else {
        fid::len_of(f, order) - name_off(f, order)
    }
}

/// The name of a file identifier.
pub open spec fn name_of(f: Seq<u8>, order: ByteOrder) -> Seq<u8> {
    let off = name_off(f, order);
    if off < f.len() {
        bytes::c_str(f.skip(off))
    } else {
        Seq::empty()
    }
}

/// The file identifier of the directory: without the name.
pub open spec fn dir_fid(f: Seq<u8>, order: ByteOrder) -> Seq<u8> {
    let whole = Seq::new(
        if f.len() < fid::FID_HDR {
            fid::FID_HDR as nat
        } else {
            f.len()
        },
        |i: int| bytes::at(f, i),
    );
    order::overwrite(
        whole.update(0, fid::FAN_EVENT_INFO_TYPE_DFID),
        2,
        order.u16_bytes(name_off(f, order) as u16),
    )
}

/// The bytes of the name that are appended to a path of `len` bytes.
pub open spec fn name_part(f: Seq<u8>, order: ByteOrder, len: int) -> Seq<u8> {
    let n = name_len(f, order);
    let room = FIDNAME_MAX - len;
    Seq::new(
        if n <= 0 || room <= 0 {
            0
        } else if n < room {
            n as nat
        } else {
            room as nat
        },
        |i: int| bytes::at(f, name_off(f, order) + i),
    )
}

/// The path of a file in a directory.
pub open spec fn path_of(link: Seq<u8>, f: Seq<u8>, order: ByteOrder, deleted: bool) -> Seq<u8> {
    let dir = link + bytes::lit("/");
    let path = bytes::c_str(dir + name_part(f, order, dir.len() as int));
    if deleted {
        path + bytes::lit(" (deleted)")
    } else {
        path
    }
}

impl LibState {
    /// The descriptor of the filesystem of a file identifier, or of the
    /// current directory.
    pub open spec fn mount_fd(self, f: Seq<u8>) -> i32 {
        match self.id_of_fid(fid::fsid_key_of(f, self.table.order)) {
            Some(id) => self.table.watches[id].dirf,
            None => AT_FDCWD,
        }
    }

    /// The search and what to do next once the file handle was opened or
    /// not.
    pub open spec fn opened(self, s: SearchState, dirf: i32) -> (SearchState, PathAskState) {
        if dirf > 0 {
            s.in_directory(dirf)
        } else if self.fanotify_mark_type == fid::FAN_MARK_FILESYSTEM {
            (s, PathAskState::Lost(Some(bytes::lit("Failed to decode directory fid.\n"))))
        } else if name_len(s.fid, self.table.order) != 0 {
            // For recursive watch look for watch by fid without the name
            match self.id_of_fid(dir_fid(s.fid, self.table.order)) {
                Some(id) => if self.table.watches[id].dirf != 0 {
                    (s, PathAskState::Duplicate(self.table.watches[id].dirf))
                } else {
                    (s, PathAskState::Lost(Some(bytes::lit("Failed to get directory fd.\n"))))
                },
                None => (
                    s,
                    PathAskState::Lost(
                        Some(bytes::lit("Failed to lookup path by directory fid.\n")),
                    ),
                ),
            }
        } else {
            (s, PathAskState::Lost(None))
        }
    }

    /// The search and what to do next after a reply.
    pub open spec fn searched(self, s: SearchState, reply: PathReply) -> (
        SearchState,
        PathAskState,
    ) {
        let order = self.table.order;
        match reply {
            PathReply::Start => (
                s,
                PathAskState::Open {
                    mount_fd: self.mount_fd(s.fid),
                    handle: fid::aligned(s.fid, order),
                },
            ),
            PathReply::Opened(dirf) => self.opened(s, dirf),
            PathReply::Duplicated(dirf) => if dirf < 0 {
                (s, PathAskState::Lost(Some(bytes::lit("Failed to get directory fd.\n"))))
            } else {
                s.in_directory(dirf)
            },
            PathReply::Link(link) => match link {
                Some(l) => {
                    let next = SearchState { link: l@, ..s };
                    if name_len(s.fid, order) > 0 {
                        (
                            next,
                            PathAskState::Access { dirf: s.directory(), name: name_of(s.fid, order) },
                        )
                    } else {
                        (next, PathAskState::Found(path_of(l@, s.fid, order, false)))
                    }
                },
                None => (
                    s,
                    PathAskState::Lost(
                        Some(bytes::lit("Failed to resolve path from directory fd.\n")),
                    ),
                ),
            },
            PathReply::Access { rc, errno, why } => if rc != 0 && errno != consts::ENOENT {
                (
                    s,
                    PathAskState::Lost(
                        Some(
                            bytes::lit("Failed to access file ") + name_of(s.fid, order)
                                + bytes::lit(" (") + why@ + bytes::lit(").\n"),
                        ),
                    ),
                )
            } else {
                (s, PathAskState::Found(path_of(s.link, s.fid, order, rc != 0)))
            },
        }
    }
}

impl SearchState {
    /// The directory the name is looked up in.
    pub open spec fn directory(self) -> i32 {
        match self.dirf {
            Some(fd) => fd,
            None => AT_FDCWD,
        }
    }

    /// The search goes on in an open directory.
    pub open spec fn in_directory(self, dirf: i32) -> (SearchState, PathAskState) {
        (
            SearchState { dirf: Some(dirf), ..self },
            PathAskState::ReadLink(bytes::lit("/proc/self/fd/") + bytes::decimal(dirf as int)),
        )
    }
}

/// Number of bytes after the file handle, if there is a name.
fn name_len_of(f: &[u8], order: ByteOrder) -> (n: i32)
    requires
        fid::handle_fits(f@, order),
    ensures
        n == name_len(f@, order),
{
    let off: usize = fid::FID_HDR + fid::handle_bytes(f, order) as usize;
    if fid::info_type(f) != fid::FAN_EVENT_INFO_TYPE_DFID_NAME || bytes::get(f, off) == 0 {
        0
    } else {
        fid::hdr_len(f, order) as i32 - off as i32
    }
}

fn name_in(f: &[u8], order: ByteOrder) -> (name: Vec<u8>)
    requires
        fid::handle_fits(f@, order),
    ensures
        name@ == name_of(f@, order),
{
    let off: usize = fid::FID_HDR + fid::handle_bytes(f, order) as usize;
    if off < f.len() {
        let rest = bytes::copy_range(f, off, f.len());
        assert(rest@ =~= f@.skip(off as int));
        bytes::cstring(rest.as_slice())
    } else {
        Vec::new()
    }
}

/// The file identifier of the directory.
fn dir_fid_of(f: &[u8], order: ByteOrder) -> (key: Vec<u8>)
    requires
        fid::handle_fits(f@, order),
    ensures
        key@ == dir_fid(f@, order),
{
    let mut key = bytes::to_vec(f);
    while key.len() < fid::FID_HDR
        invariant
            key@.len() >= f@.len(),
            key@.len() <= f@.len() || key@.len() <= fid::FID_HDR,
            key@ == Seq::new(key@.len(), |i: int| bytes::at(f@, i)),
        decreases fid::FID_HDR - key.len(),
    {
        key.push(0);
        assert(key@ =~= Seq::new(key@.len(), |i: int| bytes::at(f@, i)));
    }
    let len: u32 = fid::FID_HDR as u32 + fid::handle_bytes(f, order);
    fid::set_info_type(key.as_mut_slice(), fid::FAN_EVENT_INFO_TYPE_DFID);
    fid::set_hdr_len(key.as_mut_slice(), len as u16, order);
    assert(key@ =~= dir_fid(f@, order));
    key
}

/// The path of a file in a directory.
fn full_path(link: &[u8], f: &[u8], order: ByteOrder, deleted: bool) -> (path: Vec<u8>)
    requires
        fid::handle_fits(f@, order),
        link@.len() <= LINK_MAX,
    ensures
        path@ == path_of(link@, f@, order, deleted),
{
    let mut all = bytes::to_vec(link);
    "/".put(&mut all);
    let ghost dir = all@;
    proof {
        reveal_strlit("/");
        bytes::lemma_lit("/");
    }
    let n = name_len_of(f, order);
    if n > 0 {
        let off: usize = fid::FID_HDR + fid::handle_bytes(f, order) as usize;
        let room: usize = FIDNAME_MAX - all.len();
        let count: usize = if (n as usize) < room {
            n as usize
        } else {
            room
        };
        let mut i: usize = 0;
        while i < count
            invariant
                i <= count,
                off == name_off(f@, order),
                off + count <= usize::MAX,
                count == name_part(f@, order, dir.len() as int).len(),
                all@ == dir + name_part(f@, order, dir.len() as int).take(i as int),
            decreases count - i,
        {
            all.push(bytes::get(f, off + i));
            i = i + 1;
            assert(all@ =~= dir + name_part(f@, order, dir.len() as int).take(i as int));
        }
        assert(all@ =~= dir + name_part(f@, order, dir.len() as int));
    } else {
        assert(all@ =~= dir + name_part(f@, order, dir.len() as int));
    }
    let mut path = bytes::cstring(all.as_slice());
    if deleted {
        " (deleted)".put(&mut path);
    }
    path
}

impl PathSearch {
    pub open spec fn wf(&self, order: ByteOrder) -> bool {
        &&& fid::handle_fits(self@.fid, order)
        &&& self@.link.len() <= LINK_MAX
    }

    /// Search for the path of a file identifier.
    pub fn new(f: Vec<u8>) -> (s: PathSearch)
        ensures
            s@ == (SearchState { fid: f@, dirf: None, link: Seq::empty() }),
    {
        PathSearch { fid: f, dirf: None, link: Vec::new() }
    }

    /// The descriptor of the directory, to be closed in the end.
    pub fn dirf(&self) -> (fd: Option<i32>)
        ensures
            fd == self@.dirf,
    {
        self.dirf
    }

    fn in_directory(&mut self, dirf: i32) -> (ask: PathAsk)
        ensures
            (final(self)@, ask@) == old(self)@.in_directory(dirf),
    {
        self.dirf = Some(dirf);
        let mut path = bytes::text("/proc/self/fd/");
        dirf.put(&mut path);
        PathAsk::ReadLink(path)
    }
}

impl Inotifytools {
    /// Whether the file handle of a file identifier is short enough to be
    /// searched for.
    pub fn can_search(&self, f: &[u8]) -> (yes: bool)
        ensures
            yes == fid::handle_fits(f@, self@.table.order),
    {
        fid::handle_bytes(f, self.table.order()) <= i32::MAX as u32 - fid::FID_HDR as u32
    }

    /// Resolve the path of a file identifier (and name): take in what the
    /// caller found out, and say what to do next.
    pub fn filename_from_fid(&self, search: &mut PathSearch, reply: PathReply) -> (ask: PathAsk)
        requires
            self.wf(),
            old(search).wf(self@.table.order),
            reply matches PathReply::Link(Some(l)) ==> l@.len() <= LINK_MAX,
        ensures
            final(search).wf(self@.table.order),
            (final(search)@, ask@) == self@.searched(old(search)@, reply),
    {
        let order = self.table.order();
        match reply {
            PathReply::Start => {
                // Match mount_fd from fid->fsid (and null fhandle)
                let key = fid::fsid_key(search.fid.as_slice(), order);
                let mount_fd = match self.table.id_by_fid(key.as_slice()) {
                    Some(id) => self.table.dirf_of(id),
                    None => AT_FDCWD,
                };
                let handle = fid::aligned_handle(search.fid.as_slice(), order);
                PathAsk::Open { mount_fd, handle }
            },
            PathReply::Opened(dirf) => self.search_opened(search, dirf),
            PathReply::Duplicated(dirf) => {
                if dirf < 0 {
                    PathAsk::Lost(Some(bytes::text("Failed to get directory fd.\n")))
                } else {
                    search.in_directory(dirf)
                }
            },
            PathReply::Link(link) => {
                match link {
                    None => PathAsk::Lost(
                        Some(bytes::text("Failed to resolve path from directory fd.\n")),
                    ),
                    Some(l) => {
                        search.link = l;
                        if name_len_of(search.fid.as_slice(), order) > 0 {
                            let name = name_in(search.fid.as_slice(), order);
                            let dirf = match search.dirf {
                                Some(fd) => fd,
                                None => AT_FDCWD,
                            };
                            PathAsk::Access { dirf, name }
                        } else {
                            let path = full_path(
                                search.link.as_slice(),
                                search.fid.as_slice(),
                                order,
                                false,
                            );
                            PathAsk::Found(path)
                        }
                    },
                }
            },
            PathReply::Access { rc, errno, why } => {
                if rc != 0 && errno != consts::ENOENT {
                    let mut msg = bytes::text("Failed to access file ");
                    name_in(search.fid.as_slice(), order).put(&mut msg);
                    " (".put(&mut msg);
                    why.put(&mut msg);
                    ").\n".put(&mut msg);
                    return PathAsk::Lost(Some(msg));
                }
                let path = full_path(
                    search.link.as_slice(),
                    search.fid.as_slice(),
                    order,
                    rc != 0,
                );
                PathAsk::Found(path)
            },
        }
    }

    /// Go on once the file handle was opened or not.
    fn search_opened(&self, search: &mut PathSearch, dirf: i32) -> (ask: PathAsk)
        requires
            self.wf(),
            old(search).wf(self@.table.order),
        ensures
            final(search).wf(self@.table.order),
            (final(search)@, ask@) == self@.opened(old(search)@, dirf),
    {
        let order = self.table.order();
        if dirf > 0 {
            // Got path by handle
            search.in_directory(dirf)
        } else if self.fanotify_mark_type == fid::FAN_MARK_FILESYSTEM {
            PathAsk::Lost(Some(bytes::text("Failed to decode directory fid.\n")))
        } else if name_len_of(search.fid.as_slice(), order) != 0 {
            // For recursive watch look for watch by fid without the name
            let key = dir_fid_of(search.fid.as_slice(), order);
            match self.table.id_by_fid(key.as_slice()) {
                Some(id) => {
                    let wdirf = self.table.dirf_of(id);
                    if wdirf != 0 {
                        PathAsk::Duplicate(wdirf)
                    } else {
                        PathAsk::Lost(Some(bytes::text("Failed to get directory fd.\n")))
                    }
                },
                None => PathAsk::Lost(
                    Some(bytes::text("Failed to lookup path by directory fid.\n")),
                ),
            }
        } else {
            // Fallthrough to stored filename
            PathAsk::Lost(None)
        }
    }
}

/// A file identifier with a name: what stands in front of the name, the name
/// and a NUL.
pub open spec fn is_named(f: Seq<u8>, name: Seq<u8>, order: ByteOrder) -> bool {
    &&& name.len() > 0
    &&& !name.contains(0)
    &&& f.len() == 20 + fid::handle_of(f, order) + name.len() + 1
    &&& f.len() == fid::len_of(f, order)
    &&& f[0] == 2
    &&& f.subrange(20 + fid::handle_of(f, order), f.len() - 1) == name
    &&& f.last() == 0
}

/// The path of a named file is that of its directory, a '/' and the name; if
/// it is not there any more, that is said behind.
pub proof fn law_path_is_directory_and_name(
    link: Seq<u8>,
    f: Seq<u8>,
    name: Seq<u8>,
    order: ByteOrder,
)
    requires
        is_named(f, name, order),
        !link.contains(0),
        link.len() + 1 + name.len() + 1 <= FIDNAME_MAX,
    ensures
        name_of(f, order) == name,
        path_of(link, f, order, false) == link + seq!['/' as u8] + name,
        path_of(link, f, order, true) == link + seq!['/' as u8] + name + bytes::lit(" (deleted)"),
{
    reveal_strlit("/");
    bytes::lemma_lit("/");
    let slash = seq!['/' as u8];
    assert(bytes::lit("/") =~= slash);
    let off = name_off(f, order);
    let tail = f.skip(off);
    let none = Seq::<u8>::empty();
    assert(tail =~= name + seq![0u8] + none) by {
        assert(f.subrange(off, f.len() - 1) == name);
        assert forall|i: int| 0 <= i < name.len() implies tail[i] == name[i] by {
            assert(f.subrange(off, f.len() - 1)[i] == tail[i]);
        }
    }
    bytes::law_c_string_ends_before_nul(name, none);
    assert(f[off] == name[0]) by {
        assert(f.subrange(off, f.len() - 1)[0] == f[off]);
    }
    assert(name.contains(name[0]));
    let dir = link + slash;
    assert(name_len(f, order) == name.len() + 1);
    let part = name_part(f, order, dir.len() as int);
    assert(part =~= tail);
    let whole = dir + name;
    assert(!whole.contains(0)) by {
        if whole.contains(0) {
            let i = whole.index_of(0);
            if i < link.len() {
                assert(link.contains(link[i]));
            } else if i > link.len() {
                assert(name.contains(name[i - link.len() - 1]));
            }
        }
    }
    bytes::law_c_string_ends_before_nul(whole, none);
    assert(dir + part =~= whole + seq![0u8] + none);
}

/// The steps of a search: the file handle is opened on its filesystem, the
/// path of what it opened to is read, and a name looked up in it; the path is
/// found if the name is there or is not any more.
pub proof fn law_search_finds_the_path(
    lib: LibState,
    s: SearchState,
    link: Vec<u8>,
    name: Seq<u8>,
    dirf: i32,
    rc: i32,
    errno: i32,
    why: Vec<u8>,
)
    requires
        dirf > 0,
        is_named(s.fid, name, lib.table.order),
        !link@.contains(0),
        link@.len() + 1 + name.len() + 1 <= FIDNAME_MAX,
    ensures
        ({
            let (s1, ask1) = lib.searched(s, PathReply::Opened(dirf));
            let (s2, ask2) = lib.searched(s1, PathReply::Link(Some(link)));
            let (s3, ask3) = lib.searched(s2, PathReply::Access { rc, errno, why });
            &&& ask1 == PathAskState::ReadLink(
                bytes::lit("/proc/self/fd/") + bytes::decimal(dirf as int),
            )
            &&& s1.dirf == Some(dirf)
            &&& ask2 == (PathAskState::Access { dirf, name })
            &&& rc == 0 ==> ask3 == PathAskState::Found(link@ + seq!['/' as u8] + name)
            &&& rc != 0 && errno == 2 ==> ask3 == PathAskState::Found(
                link@ + seq!['/' as u8] + name + bytes::lit(" (deleted)"),
            )
            &&& rc != 0 && errno != 2 ==> (ask3 matches PathAskState::Lost(m) && m is Some)
        }),
{
    let order = lib.table.order;
    law_path_is_directory_and_name(link@, s.fid, name, order);
    let off = name_off(s.fid, order);
    assert(s.fid.subrange(off, s.fid.len() - 1)[0] == s.fid[off]);
    assert(name.contains(name[0]));
}

/// A file handle that cannot be opened is reached through the watched
/// directory that it is in, if only directories are watched; a path that is
/// not found is lost.
pub proof fn law_search_falls_back_to_the_directory(lib: LibState, s: SearchState, dirf: i32)
    requires
        dirf <= 0,
    ensures
        lib.fanotify_mark_type == 0x100 ==> (lib.opened(s, dirf).1 matches PathAskState::Lost(m) && m
            is Some),
        lib.fanotify_mark_type != 0x100 && name_len(s.fid, lib.table.order) == 0 ==> lib.opened(
            s,
            dirf,
        ).1 == PathAskState::Lost(None),
        lib.fanotify_mark_type != 0x100 && name_len(s.fid, lib.table.order) != 0 ==> {
            let key = fid::key_of(dir_fid(s.fid, lib.table.order), lib.table.order);
            let known = lib.table.by_fid.contains_key(key);
            let fd = lib.table.watches[lib.table.by_fid[key]].dirf;
            &&& known && fd != 0 ==> lib.opened(s, dirf).1 == PathAskState::Duplicate(fd)
            &&& !known || fd == 0 ==> (lib.opened(s, dirf).1 matches PathAskState::Lost(m) && m is Some)
        },
        lib.searched(s, PathReply::Link(None)).1 is Lost,
        lib.searched(s, PathReply::Duplicated((-1) as i32)).1 is Lost,
{
}

/// The file identifier of a directory is that of a file in it, of the kind for
/// directories and without the name.
pub proof fn law_identifier_of_the_directory(f: Seq<u8>, name: Seq<u8>, order: ByteOrder)
    requires
        is_named(f, name, order),
    ensures
        ({
            let d = dir_fid(f, order);
            let n = 20 + fid::handle_of(f, order);
            &&& d[0] == 3
            &&& d[1] == f[1]
            &&& fid::len_of(d, order) == n
            &&& d.skip(4) == f.skip(4)
            &&& fid::key_of(d, order).len() == n
            &&& fid::key_of(d, order).skip(4) == f.subrange(4, n)
        }),
{
    let d = dir_fid(f, order);
    let n = 20 + fid::handle_of(f, order);
    let b = order.u16_bytes(n as u16);
    assert(d[2] == b[0] && d[3] == b[1]);
    assert(d.skip(4) =~= f.skip(4));
    assert(fid::len_of(d, order) == n);
    assert(fid::key_of(d, order).skip(4) =~= f.subrange(4, n));
}

/// A search starts by opening the file handle on the directory that stands
/// for its filesystem, or on the current directory if none does.
pub proof fn law_search_starts_on_the_filesystem(lib: LibState, s: SearchState)
    ensures
        ({
            let order = lib.table.order;
            let key = fid::key_of(fid::fsid_key_of(s.fid, order), order);
            let (next, ask) = lib.searched(s, PathReply::Start);
            let fd = if lib.table.by_fid.contains_key(key) {
                lib.table.watches[lib.table.by_fid[key]].dirf
            } else {
                (-100) as i32
            };
            &&& next == s
            &&& ask == (PathAskState::Open { mount_fd: fd, handle: fid::aligned(s.fid, order) })
        }),
{
}

/// A directory that was duplicated is searched like one that was opened; the
/// path of a file without a name is that of what was opened.
pub proof fn law_search_goes_on_in_a_duplicate(
    lib: LibState,
    s: SearchState,
    dirf: i32,
    link: Vec<u8>,
)
    requires
        !link@.contains(0),
    ensures
        dirf >= 0 ==> lib.searched(s, PathReply::Duplicated(dirf)) == (
            SearchState { dirf: Some(dirf), ..s },
            PathAskState::ReadLink(bytes::lit("/proc/self/fd/") + bytes::decimal(dirf as int)),
        ),
        dirf < 0 ==> lib.searched(s, PathReply::Duplicated(dirf)).1 is Lost,
        name_len(s.fid, lib.table.order) == 0 ==> lib.searched(s, PathReply::Link(Some(link))).1
            == PathAskState::Found(link@ + seq!['/' as u8]),
        name_len(s.fid, lib.table.order) > 0 && s.dirf is None ==> (lib.searched(
            s,
            PathReply::Link(Some(link)),
        ).1 matches PathAskState::Access { dirf, .. } && dirf == -100),
{
    reveal_strlit("/");
    bytes::lemma_lit("/");
    assert(bytes::lit("/") =~= seq!['/' as u8]);
    let dir = link@ + seq!['/' as u8];
    assert(!dir.contains(0)) by {
        if dir.contains(0) {
            let i = dir.index_of(0);
            if i < link@.len() {
                assert(link@.contains(link@[i]));
            }
        }
    }
    bytes::law_c_string_ends_before_nul(dir, Seq::empty());
    let part = name_part(s.fid, lib.table.order, dir.len() as int);
    if name_len(s.fid, lib.table.order) == 0 {
        assert(dir + part =~= dir);
    }
}

/// A file identifier of another kind has no name, nor has one with only
/// padding behind the file handle.
pub proof fn law_padding_is_no_name(f: Seq<u8>, order: ByteOrder)
    ensures
        f.len() > 0 && f[0] != 2 ==> name_len(f, order) == 0,
        ({
            let off = 20 + fid::handle_of(f, order);
            off < f.len() && f[off] == 0 ==> name_len(f, order) == 0
        }),
{
}

} // verus!
