//! Reading events.

use inotifytools::buffer::FidRecord;
use inotifytools::consts::IN_CREATE;
use inotifytools::consts::IN_ISDIR;
use inotifytools::consts::IN_MODIFY;
use inotifytools::consts::IN_OPEN;
use inotifytools::inotify::reader::next_event_timeout;
use inotifytools::inotify::reader::Ask;
use inotifytools::inotify::reader::Reply;
use inotifytools::inotify::resolve::PathAsk;
use inotifytools::inotify::resolve::PathReply;
use inotifytools::inotify::resolve::PathSearch;
use inotifytools::inotify::setup::SetupAsk;
use inotifytools::inotify::setup::SetupReply;
use inotifytools::inotify::setup::WatchSetup;
use inotifytools::inotify::setup::S_IFDIR;
use inotifytools::inotify::Removal;
use inotifytools::order::ByteOrder;
use inotifytools::Event;
use inotifytools::Inotifytools;

/// An event as the kernel writes it, in little-endian byte order.
fn encoded(wd: i32, mask: i32, cookie: u32, name: &[u8], len: u32) -> Vec<u8> {
    let mut v = Vec::new();
    v.extend_from_slice(&wd.to_le_bytes());
    v.extend_from_slice(&mask.to_le_bytes());
    v.extend_from_slice(&cookie.to_le_bytes());
    v.extend_from_slice(&len.to_le_bytes());
    v.extend_from_slice(name);
    v.resize(16 + len as usize, 0);
    v
}

fn ready(fanotify: bool, filesystem: bool) -> Inotifytools {
    let mut lib = Inotifytools::with_order(ByteOrder::Little);
    assert!(lib.init(fanotify, filesystem, 0, 3, 0, 42));
    lib
}

/// Have data read, up to where it can be looked at.
fn read(lib: &mut Inotifytools, data: &[u8]) {
    assert!(lib.can_begin());
    assert!(matches!(lib.next_events(1, Reply::Begin), Ask::Poll));
    assert!(matches!(lib.next_events(1, Reply::Polled { rc: 1, errno: 0 }), Ask::Count));
    let counted = Reply::Counted { rc: 0, available: data.len() as u32, errno: 0 };
    match lib.next_events(1, counted) {
        Ask::Read { len, .. } => assert!(data.len() <= len),
        _ => panic!(),
    }
    assert!(matches!(lib.next_events(1, Reply::Received(Ok(data.to_vec()))), Ask::Take));
    assert!(lib.can_take());
}

fn delivered(ask: Ask) -> Event {
    match ask {
        Ask::Deliver(ev) => ev,
        _ => panic!(),
    }
}

#[test]
fn events_come_in_order() {
    let mut lib = ready(false, false);
    let data = [
        encoded(1, IN_OPEN, 0, b"", 0),
        encoded(2, IN_CREATE | IN_ISDIR, 7, b"dir", 16),
        encoded(-3, IN_MODIFY, u32::MAX, b"f", 16),
    ]
    .concat();
    read(&mut lib, &data);
    let ev = delivered(lib.next_events(1, Reply::Take));
    assert_eq!(ev, Event { wd: 1, mask: IN_OPEN as u32, cookie: 0, len: 0, name: vec![] });
    assert!(matches!(lib.next_events(1, Reply::Begin), Ask::Take));
    let ev = delivered(lib.next_events(1, Reply::Take));
    assert_eq!(
        ev,
        Event {
            wd: 2,
            mask: (IN_CREATE | IN_ISDIR) as u32,
            cookie: 7,
            len: 16,
            name: b"dir".to_vec()
        }
    );
    assert!(matches!(lib.next_events(1, Reply::Begin), Ask::Take));
    let ev = delivered(lib.next_events(1, Reply::Take));
    assert_eq!((ev.wd, ev.cookie, ev.name), (-3, u32::MAX, b"f".to_vec()));
    // Everything is used up.
    read(&mut lib, &encoded(5, IN_OPEN, 0, b"", 0));
    assert_eq!(delivered(lib.next_events(1, Reply::Take)).wd, 5);
}

#[test]
fn an_incomplete_event_is_completed() {
    let mut lib = ready(false, false);
    let second = encoded(2, IN_OPEN, 0, b"name", 16);
    let data = [encoded(1, IN_OPEN, 0, b"", 0), second[..20].to_vec()].concat();
    read(&mut lib, &data);
    assert_eq!(delivered(lib.next_events(1, Reply::Take)).wd, 1);
    assert!(matches!(lib.next_events(1, Reply::Begin), Ask::Poll));
    lib.next_events(1, Reply::Polled { rc: 1, errno: 0 });
    match lib.next_events(1, Reply::Counted { rc: 0, available: 16, errno: 0 }) {
        Ask::Read { offset, len } => assert_eq!((offset, len), (20, 65536 - 20)),
        _ => panic!(),
    }
    let rest = Reply::Received(Ok(second[20..].to_vec()));
    assert!(matches!(lib.next_events(1, rest), Ask::Take));
    let ev = delivered(lib.next_events(1, Reply::Take));
    assert_eq!((ev.wd, ev.name), (2, b"name".to_vec()));
}

#[test]
fn reading_can_fail() {
    let mut lib = ready(false, false);
    assert!(matches!(lib.next_events(0, Reply::Begin), Ask::Nothing));
    assert!(matches!(lib.next_events(1, Reply::Begin), Ask::Poll));
    assert!(matches!(lib.next_events(1, Reply::Polled { rc: 0, errno: 4 }), Ask::Nothing));
    assert_eq!(lib.error(), 0);
    assert!(matches!(lib.next_events(1, Reply::Polled { rc: -1, errno: 4 }), Ask::Nothing));
    assert_eq!(lib.error(), 4);
    let few = Reply::Counted { rc: 0, available: 31, errno: 0 };
    assert!(matches!(lib.next_events(2, few), Ask::Count));
    let failed = Reply::Counted { rc: -1, available: 0, errno: 9 };
    assert!(matches!(lib.next_events(2, failed), Ask::Nothing));
    assert_eq!(lib.error(), 9);
    assert!(matches!(lib.next_events(1, Reply::Received(Err(5))), Ask::Nothing));
    assert_eq!(lib.error(), 5);
    match lib.next_events(1, Reply::Received(Ok(vec![]))) {
        Ask::Complain(msg) => assert!(msg.starts_with(b"Inotify reported end-of-file.")),
        _ => panic!(),
    }
    assert_eq!(next_event_timeout(0), -1);
    assert_eq!(next_event_timeout(3), 3);
}

#[test]
fn names_end_before_the_first_nul() {
    let mut lib = ready(false, false);
    let mut first = encoded(1, IN_OPEN, 0, b"one", 8);
    first[20..24].copy_from_slice(b"junk");
    let data = [first, encoded(2, IN_MODIFY, 3, b"two", 4)].concat();
    read(&mut lib, &data);
    let ev = delivered(lib.next_events(1, Reply::Take));
    assert_eq!((ev.wd, ev.len, ev.name), (1, 8, b"one".to_vec()));
    assert!(matches!(lib.next_events(1, Reply::Begin), Ask::Take));
    let ev = delivered(lib.next_events(1, Reply::Take));
    assert_eq!((ev.wd, ev.cookie, ev.name), (2, 3, b"two".to_vec()));
    assert!(matches!(lib.next_events(1, Reply::Begin), Ask::Poll));
}

#[test]
fn overlong_names_are_noticed() {
    let mut lib = ready(false, false);
    assert!(!lib.overran());
    let whole = encoded(1, IN_OPEN, 0, b"name", 16);
    read(&mut lib, &whole);
    delivered(lib.next_events(1, Reply::Take));
    assert!(!lib.overran());
    // The name goes on behind what was read.
    read(&mut lib, &whole[..20]);
    delivered(lib.next_events(1, Reply::Take));
    assert!(lib.overran());
}

#[test]
fn odd_positions_are_noticed() {
    let mut lib = ready(false, false);
    assert!(matches!(lib.next_events(1, Reply::Begin), Ask::Poll));
    // The length of the name, added to the position, is too much.
    let mut data = encoded(1, IN_OPEN, 0, b"", 0);
    data[12..16].copy_from_slice(&0x7fff_fff8u32.to_le_bytes());
    lib.next_events(1, Reply::Received(Ok(data)));
    assert!(!lib.can_take());
    let mut lib = ready(true, false);
    assert!(matches!(lib.next_events(1, Reply::Begin), Ask::Poll));
    // The file handle is too long.
    let mut data = fanotify_event(1, 7, &fid_record(1, 1, &[5; 4], b""));
    data[36..40].copy_from_slice(&0xffff_ffffu32.to_le_bytes());
    lib.next_events(1, Reply::Received(Ok(data)));
    assert!(!lib.can_take());
}

/// Watch a file under a watch descriptor.
fn watch(lib: &mut Inotifytools, file: &[u8], wd: i32, mode: u32) {
    let mut setup = WatchSetup::new(vec![file.to_vec()], IN_OPEN);
    lib.watch_files(&mut setup, SetupReply::Start);
    lib.watch_files(&mut setup, SetupReply::Marked { wd, errno: 0 });
    let end = lib.watch_files(&mut setup, SetupReply::Stated(Ok(mode)));
    assert!(matches!(end, SetupAsk::Finished));
}

#[test]
fn events_are_filtered_and_counted() {
    let mut lib = ready(false, false);
    watch(&mut lib, b"/d", 1, S_IFDIR);
    lib.initialize_stats();
    assert!(lib.ignore_events_by_regex(Some(b"x"), 1, true));
    let data = [
        encoded(1, IN_OPEN, 0, b"x", 16),
        encoded(1, IN_OPEN, 0, b"y", 16),
        encoded(1, IN_CREATE | IN_ISDIR, 0, b"x", 16),
    ]
    .concat();
    read(&mut lib, &data);
    assert!(matches!(lib.next_events(1, Reply::Take), Ask::Name(None)));
    match lib.next_events(1, Reply::Named(None)) {
        Ask::Match(subject) => assert_eq!(subject, b"/d/x"),
        _ => panic!(),
    }
    assert!(matches!(lib.next_events(1, Reply::Matched(true)), Ask::Again));
    assert!(matches!(lib.next_events(1, Reply::Begin), Ask::Take));
    assert!(matches!(lib.next_events(1, Reply::Take), Ask::Name(None)));
    assert!(matches!(lib.next_events(1, Reply::Named(None)), Ask::Match(_)));
    assert_eq!(delivered(lib.next_events(1, Reply::Matched(false))).name, b"y");
    // Directories that appear are never filtered in recursive mode.
    assert!(matches!(lib.next_events(1, Reply::Begin), Ask::Take));
    assert_eq!(delivered(lib.next_events(1, Reply::Take)).name, b"x");
    assert_eq!(lib.get_stat_total(0), 2);
    assert_eq!(lib.get_stat_by_wd(1, IN_OPEN), 1);
    assert_eq!(lib.get_stat_by_filename(b"/d/", IN_CREATE), 1);
    // Starting anew resets the counters.
    lib.initialize_stats();
    assert_eq!(lib.get_stat_by_wd(1, IN_OPEN), 0);
    // With an inverted filter, matching events are kept.
    assert!(lib.ignore_events_by_inverted_regex(Some(b"x"), 0, true));
    read(&mut lib, &encoded(1, IN_OPEN, 0, b"x", 16));
    assert!(matches!(lib.next_events(1, Reply::Take), Ask::Name(None)));
    assert_eq!(delivered(lib.next_events(1, Reply::Matched(true))).name, b"x");
}

/// A fid record: its type, fsid, file handle and name.
fn fid_record(kind: u8, fsid: u64, handle: &[u8], name: &[u8]) -> Vec<u8> {
    let mut v = vec![kind, 0, 0, 0];
    v.extend_from_slice(&fsid.to_le_bytes());
    v.extend_from_slice(&(handle.len() as u32).to_le_bytes());
    v.extend_from_slice(&1u32.to_le_bytes());
    v.extend_from_slice(handle);
    v.extend_from_slice(name);
    let len = (v.len() as u16).to_le_bytes();
    v[2] = len[0];
    v[3] = len[1];
    v
}

/// A fanotify event with a record.
fn fanotify_event(mask: u64, pid: u32, record: &[u8]) -> Vec<u8> {
    let mut v = Vec::new();
    v.extend_from_slice(&(24 + record.len() as u32).to_le_bytes());
    v.extend_from_slice(&[3, 0, 24, 0]);
    v.extend_from_slice(&mask.to_le_bytes());
    v.extend_from_slice(&(-1i32).to_le_bytes());
    v.extend_from_slice(&pid.to_le_bytes());
    v.extend_from_slice(record);
    v
}

fn conversion(ask: Ask) -> FidRecord {
    match ask {
        Ask::Convert(rec) => rec,
        _ => panic!(),
    }
}

#[test]
fn fanotify_events_become_inotify_events() {
    let mut lib = ready(true, false);
    let record = fid_record(2, 0x22_0000_0011, &[9; 8], b"file\0");
    let mask = 0x1_0000_0000u64 | IN_MODIFY as u64;
    let data = [
        fanotify_event(mask, 7, &record),
        fanotify_event(IN_OPEN as u64, 42, &record),
        fanotify_event(IN_OPEN as u64, 8, &record),
    ]
    .concat();
    read(&mut lib, &data);
    let rec = conversion(lib.next_events(1, Reply::Take));
    assert_eq!(rec.name, b"file");
    assert_eq!((rec.fid_len, rec.name_len), (28, 5));
    assert_eq!(rec.fid, record);
    assert!(lib.is_new_file(&rec));
    assert_eq!(
        lib.fanotify_event_message(&rec),
        b"fanotify_event: bytes=0, first_byte=57, this_bytes=171, event_len=57, \
fid_len=28, name_len=5, name=file\n"
    );
    assert_eq!(
        lib.fid_message(&rec, Some(b"/d/file"), 8),
        b"[fid=11.22.909090909090909;name='file'] /d/file\n"
    );
    assert_eq!(lib.fid_message(&rec, None, 4), b"[fid=11.22.9090909;name='file'] \n");
    let path = Some(b"/d/file".to_vec());
    let ev = delivered(lib.next_events(1, Reply::Converted { rec, path }));
    assert_eq!(
        ev,
        Event { wd: 1, mask: IN_MODIFY as u32, cookie: 0, len: 5, name: b"file".to_vec() }
    );
    let shown = lib.filename_from_event(&ev, None);
    assert_eq!((shown.dirname(), &shown.eventname[..]), (&b"/d/"[..], &b"file"[..]));
    // The handle's own events are skipped.
    assert!(matches!(lib.next_events(1, Reply::Begin), Ask::Take));
    let rec = conversion(lib.next_events(1, Reply::Take));
    assert!(!lib.is_new_file(&rec));
    assert!(matches!(lib.next_events(1, Reply::Converted { rec, path: None }), Ask::Again));
    assert!(matches!(lib.next_events(1, Reply::Begin), Ask::Take));
    let rec = conversion(lib.next_events(1, Reply::Take));
    let ev = delivered(lib.next_events(1, Reply::Converted { rec, path: None }));
    assert_eq!((ev.wd, ev.mask), (1, IN_OPEN as u32));
    assert_eq!(lib.removal_by_wd(1), Removal::Impossible);
    assert!(!lib.remove_watch_by_wd(1, 0, 0));
}

#[test]
fn fanotify_names_that_are_none() {
    let mut lib = ready(true, false);
    let dot = fid_record(2, 1, &[5; 4], b".\0");
    let padded = fid_record(2, 1, &[6; 4], b"\0\0\0\0");
    let data =
        [fanotify_event(1, 7, &dot), fanotify_event(1, 7, &padded), fanotify_event(1, 7, b"")].concat();
    read(&mut lib, &data);
    let rec = conversion(lib.next_events(1, Reply::Take));
    assert_eq!((&rec.name[..], rec.name_len, rec.fid.len()), (&b"."[..], 0, 24));
    let ev = delivered(lib.next_events(1, Reply::Converted { rec, path: None }));
    assert_eq!((ev.wd, ev.len, ev.name), (0, 0, vec![]));
    assert!(matches!(lib.next_events(1, Reply::Begin), Ask::Take));
    let rec = conversion(lib.next_events(1, Reply::Take));
    assert_eq!((&rec.name[..], rec.name_len, rec.fid.len()), (&b""[..], 0, 24));
    delivered(lib.next_events(1, Reply::Converted { rec, path: None }));
    assert!(matches!(lib.next_events(1, Reply::Begin), Ask::Take));
    match lib.next_events(1, Reply::Take) {
        Ask::Complain(msg) => assert_eq!(msg, b"No fid in fanotify event.\n"),
        _ => panic!(),
    }
}

/// Watch a file with fanotify.
fn mark(lib: &mut Inotifytools, path: &[u8], handle: &[u8; 28], dir: bool) -> bool {
    let mut setup = WatchSetup::new(vec![path.to_vec()], IN_OPEN);
    let mut ask = lib.watch_files(&mut setup, SetupReply::Start);
    loop {
        let why = b"why".to_vec();
        let reply = match ask {
            SetupAsk::AddMark { .. } => SetupReply::Marked { wd: 0, errno: 0 },
            SetupAsk::Stat(_) => SetupReply::Stated(Ok(if dir { S_IFDIR } else { 0x8000 })),
            SetupAsk::FileSystem(_) => SetupReply::FileSystem(Ok([1, 2, 3, 4, 5, 6, 7, 8])),
            SetupAsk::OpenMount(_) => SetupReply::MountOpened { fd: 11, why },
            SetupAsk::Handle(_) => SetupReply::Handled { ret: 0, handle: *handle, why },
            SetupAsk::OpenDir(_) => SetupReply::DirOpened { fd: 12, why },
            SetupAsk::Finished => return true,
            SetupAsk::Failed(_) => return false,
            SetupAsk::AddWatch { .. } => unreachable!(),
        };
        ask = lib.watch_files(&mut setup, reply);
    }
}

fn handle(bytes: &[u8]) -> [u8; 28] {
    let mut h = [0u8; 28];
    h[0] = bytes.len() as u8;
    h[4] = 1;
    h[8..8 + bytes.len()].copy_from_slice(bytes);
    h
}

#[test]
fn fanotify_directories_are_registered_and_resolved() {
    let mut lib = ready(true, false);
    assert!(mark(&mut lib, b"/d", &handle(&[9; 8]), true));
    // The filesystem's descriptor, and the directory.
    assert_eq!(lib.wd_from_filename(b"/d"), 1);
    assert_eq!(lib.wd_from_filename(b"/d/"), 2);
    // A file in the directory, whose handle cannot be opened.
    let fid = fid_record(2, 0x0807_0605_0403_0201, &[9; 8], b"file\0");
    let mut search = PathSearch::new(fid);
    match lib.filename_from_fid(&mut search, PathReply::Start) {
        PathAsk::Open { mount_fd, handle } => {
            assert_eq!(mount_fd, 11);
            assert_eq!(handle, vec![8, 1, 0x0909_0909, 0x0909_0909, 0]);
        }
        _ => panic!(),
    }
    assert!(matches!(
        lib.filename_from_fid(&mut search, PathReply::Opened(-1)),
        PathAsk::Duplicate(12)
    ));
    match lib.filename_from_fid(&mut search, PathReply::Duplicated(30)) {
        PathAsk::ReadLink(path) => assert_eq!(path, b"/proc/self/fd/30"),
        _ => panic!(),
    }
    assert_eq!(search.dirf(), Some(30));
    match lib.filename_from_fid(&mut search, PathReply::Link(Some(b"/d".to_vec()))) {
        PathAsk::Access { dirf, name } => assert_eq!((dirf, &name[..]), (30, &b"file"[..])),
        _ => panic!(),
    }
    let deleted = PathReply::Access { rc: -1, errno: 2, why: vec![] };
    match lib.filename_from_fid(&mut search, deleted) {
        PathAsk::Found(path) => assert_eq!(path, b"/d/file (deleted)"),
        _ => panic!(),
    }
    let there = PathReply::Access { rc: 0, errno: 2, why: vec![] };
    match lib.filename_from_fid(&mut search, there) {
        PathAsk::Found(path) => assert_eq!(path, b"/d/file"),
        _ => panic!(),
    }
    let failed = PathReply::Access { rc: -1, errno: 13, why: b"denied".to_vec() };
    match lib.filename_from_fid(&mut search, failed) {
        PathAsk::Lost(Some(msg)) => assert_eq!(msg, b"Failed to access file file (denied).\n"),
        _ => panic!(),
    }
    // Removing a watch hands over its descriptor.
    assert_eq!(lib.take_released(), Vec::<i32>::new());
    lib.cleanup();
    assert_eq!(lib.take_released(), vec![11, 12]);
}

#[test]
fn resolving_can_fail() {
    let mut lib = ready(true, false);
    let lost = |ask: PathAsk| match ask {
        PathAsk::Lost(msg) => msg,
        _ => panic!(),
    };
    let named = fid_record(2, 1, &[9; 8], b"file\0");
    let mut search = PathSearch::new(named);
    assert_eq!(
        lost(lib.filename_from_fid(&mut search, PathReply::Opened(-1))),
        Some(b"Failed to lookup path by directory fid.\n".to_vec())
    );
    assert_eq!(
        lost(lib.filename_from_fid(&mut search, PathReply::Duplicated(-1))),
        Some(b"Failed to get directory fd.\n".to_vec())
    );
    assert_eq!(
        lost(lib.filename_from_fid(&mut search, PathReply::Link(None))),
        Some(b"Failed to resolve path from directory fd.\n".to_vec())
    );
    let bare = fid_record(3, 1, &[9; 8], b"");
    assert!(lib.can_search(&bare));
    let mut search = PathSearch::new(bare);
    assert_eq!(lost(lib.filename_from_fid(&mut search, PathReply::Opened(0))), None);
    match lib.filename_from_fid(&mut search, PathReply::Start) {
        PathAsk::Open { mount_fd, .. } => assert_eq!(mount_fd, -100),
        _ => panic!(),
    }
    // A directory without a name is its own path.
    assert!(matches!(
        lib.filename_from_fid(&mut search, PathReply::Opened(5)),
        PathAsk::ReadLink(_)
    ));
    match lib.filename_from_fid(&mut search, PathReply::Link(Some(b"/e".to_vec()))) {
        PathAsk::Found(path) => assert_eq!(path, b"/e/"),
        _ => panic!(),
    }
    lib.cleanup();
    assert!(lib.init(true, true, 0, 3, 0, 42));
    assert_eq!(
        lost(lib.filename_from_fid(&mut search, PathReply::Opened(-1))),
        Some(b"Failed to decode directory fid.\n".to_vec())
    );
}

#[test]
fn fanotify_setup_messages() {
    let mut lib = ready(true, false);
    let failure = |ask: SetupAsk| match ask {
        SetupAsk::Failed(Some(msg)) => msg,
        _ => panic!(),
    };
    let mut setup = WatchSetup::new(vec![b"/d".to_vec(), b"/e".to_vec()], 0x0200_0000 | IN_OPEN);
    match lib.watch_files(&mut setup, SetupReply::Start) {
        SetupAsk::AddMark { path, flags, mask } => {
            assert_eq!((&path[..], flags, mask), (&b"/d"[..], 5, 0x0800_0020));
        }
        _ => panic!(),
    }
    lib.watch_files(&mut setup, SetupReply::Marked { wd: 0, errno: 0 });
    match lib.watch_files(&mut setup, SetupReply::Stated(Ok(S_IFDIR))) {
        SetupAsk::FileSystem(path) => assert_eq!(path, b"/d"),
        _ => panic!(),
    }
    let why = b"why".to_vec();
    let reply = SetupReply::FileSystem(Err(why.clone()));
    assert_eq!(failure(lib.watch_files(&mut setup, reply)), b"Statfs failed on /d: why\n");
    match lib.watch_files(&mut setup, SetupReply::FileSystem(Ok([1; 8]))) {
        SetupAsk::OpenMount(path) => assert_eq!(path, b"/d/"),
        _ => panic!(),
    }
    let reply = SetupReply::MountOpened { fd: -1, why: why.clone() };
    assert_eq!(failure(lib.watch_files(&mut setup, reply)), b"Failed to open /d/: why\n");
    let reply = SetupReply::Handled { ret: -1, handle: [0; 28], why: why.clone() };
    assert_eq!(failure(lib.watch_files(&mut setup, reply)), b"Encode fid failed on /d: why\n");
    let mut long = [0u8; 28];
    long[0] = 21;
    let reply = SetupReply::Handled { ret: 0, handle: long, why: why.clone() };
    assert_eq!(failure(lib.watch_files(&mut setup, reply)), b"Encode fid failed on /d: why\n");
    let reply = SetupReply::DirOpened { fd: -1, why };
    assert_eq!(failure(lib.watch_files(&mut setup, reply)), b"Failed to open /d/: why\n");
    // The second file follows symlinks.
    match lib.watch_files(&mut setup, SetupReply::DirOpened { fd: 9, why: vec![] }) {
        SetupAsk::AddMark { path, flags, .. } => assert_eq!((&path[..], flags), (&b"/e"[..], 1)),
        _ => panic!(),
    }
}
