//! Watches and the names they are found by.

use inotifytools::consts::ErrorNumbers;
use inotifytools::consts::EINVAL;
use inotifytools::consts::ELOOP;
use inotifytools::consts::EMSGSIZE;
use inotifytools::consts::ENOENT;
use inotifytools::consts::IN_ACCESS;
use inotifytools::consts::IN_CLOSE;
use inotifytools::consts::IN_CREATE;
use inotifytools::consts::IN_ISDIR;
use inotifytools::consts::IN_MODIFY;
use inotifytools::consts::IN_OPEN;
use inotifytools::inotify::nice_fail;
use inotifytools::inotify::printf::time_slots;
use inotifytools::inotify::reader::Ask;
use inotifytools::inotify::reader::Reply;
use inotifytools::inotify::setup::SetupAsk;
use inotifytools::inotify::setup::SetupReply;
use inotifytools::inotify::setup::WatchSetup;
use inotifytools::inotify::setup::S_IFDIR;
use inotifytools::inotify::Group;
use inotifytools::inotify::Removal;
use inotifytools::order::ByteOrder;
use inotifytools::Event;
use inotifytools::Inotifytools;
use inotifytools::NString;
use inotifytools::MAX_STRLEN;

/// Watch a file, the kernel answering with a watch descriptor and a mode.
fn watch(lib: &mut Inotifytools, file: &[u8], events: i32, wd: i32, mode: u32) -> bool {
    let mut setup = WatchSetup::new(vec![file.to_vec()], events);
    let mut ask = lib.watch_files(&mut setup, SetupReply::Start);
    loop {
        let reply = match ask {
            SetupAsk::AddWatch { .. } => SetupReply::Marked { wd, errno: 28 },
            SetupAsk::Stat(_) => SetupReply::Stated(Ok(mode)),
            SetupAsk::Finished => return true,
            SetupAsk::Failed(_) => return false,
            _ => unreachable!(),
        };
        ask = lib.watch_files(&mut setup, reply);
    }
}

fn ready() -> Inotifytools {
    let mut lib = Inotifytools::new();
    assert!(lib.initialize(7, 0));
    lib
}

#[test]
fn snprintf_formats_and_truncates() {
    let dirb = b"/tmp/inotifytools_rs_test_1".to_vec();
    let mut lib = ready();
    assert!(watch(&mut lib, &dirb, IN_CLOSE, 1, S_IFDIR));
    let watched = [&dirb[..], b"/"].concat();
    let wd = lib.wd_from_filename(&watched);
    assert!(wd > 0);
    assert_eq!(lib.filename_from_wd(wd, None), watched);

    let mut out = NString::new();
    let mut ev = Event { wd, mask: IN_ACCESS as u32, ..Default::default() };
    lib.snprintf(&mut out, MAX_STRLEN as i32, &ev, Some(b"Event %e %.e on %w %f %T"), None, &[]);
    assert_eq!(out.as_bytes(), [&b"Event ACCESS ACCESS on "[..], &watched, b"  "].concat());

    ev.mask = IN_MODIFY as u32;
    let mut out = NString::new();
    lib.snprintf(&mut out, 10, &ev, Some(b"Event %e %.e on %w %f %T"), None, &[]);
    assert_eq!(&out.buf[..10], b"Event MODI");

    ev.name = b"my_great_file".to_vec();
    ev.len = 14;
    ev.mask = IN_ACCESS as u32;
    let mut out = NString::new();
    lib.snprintf(&mut out, MAX_STRLEN as i32, &ev, Some(b"%w%f|%c|%%|%n"), None, &[]);
    assert_eq!(out.as_bytes(), [&watched[..], b"my_great_file|0|%|\n"].concat());

    let mut out = NString::new();
    assert_eq!(lib.snprintf(&mut out, 100, &ev, Some(b""), None, &[]), -1);
    assert_eq!(lib.error(), EINVAL);

    assert_eq!(lib.get_num_watches(), 1);
    assert_eq!(lib.removal_by_filename(&watched), Removal::Kernel(wd));
    assert!(lib.remove_watch_by_filename(&watched, 0, 0));
    assert_eq!(lib.get_num_watches(), 0);
    assert_eq!(lib.wd_from_filename(&watched), -1);
    assert_eq!(lib.cleanup(), Some(7));
}

#[test]
fn formatting_reports_lengths_and_errors() {
    let mut lib = ready();
    let ev = Event { wd: 0, mask: IN_OPEN as u32, cookie: 0xbeef, len: 0, name: Vec::new() };
    let mut out = NString::new();
    // The whole text fits: its length less one is returned.
    assert_eq!(lib.sprintf(&mut out, &ev, Some(b"%e:%c %Q%0"), None, &[]), 12);
    assert_eq!(out.as_bytes(), b"OPEN:beef %Q\0");
    // Nothing fits: nothing is written.
    let mut out = NString::new();
    assert_eq!(lib.snprintf(&mut out, 1, &ev, Some(b"abc"), None, &[]), -1);
    assert_eq!(out.len, 0);
    // A number is cut off and terminated.
    let mut out = NString::new();
    out.buf[3] = 9;
    assert_eq!(lib.snprintf(&mut out, 3, &ev, Some(b"%c"), None, &[]), 2);
    assert_eq!(&out.buf[..4], &[b'b', b'e', 0, 9]);
    assert_eq!(out.as_bytes(), b"be\0");
    // So are names; what was written is counted.
    let mut out = NString::new();
    assert_eq!(lib.snprintf(&mut out, 5, &ev, Some(b"a %e %e"), None, &[]), 4);
    assert_eq!(out.as_bytes(), b"a OPE");
    assert_eq!(lib.snprintf(&mut out, 0, &ev, Some(b"abc"), None, &[]), -1);
    assert_eq!(out.len, 0);
    assert_eq!(lib.snprintf(&mut out, -7, &ev, Some(b"abc"), None, &[]), -1);
    assert_eq!(out.len, 0);
    // A '%' at the end of the format is an error, after what stands before.
    let mut out = NString::new();
    assert_eq!(lib.error(), 0);
    assert_eq!(lib.snprintf(&mut out, 100, &ev, Some(b"ab%"), None, &[]), -1);
    assert_eq!(lib.error(), EINVAL);
    assert_eq!(&out.buf[..2], b"ab");
    assert_eq!(out.len, 0);
    // No format, and one that is too long.
    assert_eq!(lib.snprintf(&mut out, 100, &ev, None, None, &[]), -1);
    assert_eq!(lib.error(), EINVAL);
    assert_eq!(lib.snprintf(&mut out, 100, &ev, Some(&[b'a'; 4097]), None, &[]), -1);
    assert_eq!(lib.error(), EMSGSIZE);
    assert_eq!(lib.snprintf(&mut out, 4097, &ev, Some(b"a"), None, &[]), -1);
    assert_eq!(lib.error(), EMSGSIZE);
}

#[test]
fn formatting_counts_what_was_written() {
    let mut lib = Inotifytools::new();
    let mut out = NString::new();
    let ev = Event { wd: 0, mask: IN_MODIFY as u32, ..Default::default() };
    let fmt: &[u8] = b"Event %e %.e on %w %f %T";
    assert_eq!(lib.snprintf(&mut out, 10, &ev, Some(fmt), None, &[]), 9);
    assert_eq!(out.as_bytes(), b"Event MODI");
}

#[test]
fn error_numbers_can_be_taken_over() {
    let mut lib = Inotifytools::new();
    let mut out = NString::new();
    let ev = Event::default();
    assert_eq!(ErrorNumbers::generic(), ErrorNumbers { eloop: ELOOP, emsgsize: EMSGSIZE });
    lib.set_error_numbers(ErrorNumbers { eloop: 62, emsgsize: 97 });
    assert_eq!(lib.snprintf(&mut out, 4097, &ev, Some(b"a"), None, &[]), -1);
    assert_eq!(lib.error(), 97);
}

#[test]
fn totals_are_sums_over_watches() {
    let mut lib = ready();
    assert_eq!(lib.get_stat_total(0), -1);
    assert!(watch(&mut lib, b"f", IN_OPEN, 1, 0));
    lib.initialize_stats();
    assert_eq!(lib.get_stat_total(0), 0);
    assert!(watch(&mut lib, b"g", IN_OPEN, 2, 0));
    for (wd, mask) in [(1, IN_OPEN), (2, IN_OPEN), (2, IN_ACCESS), (3, IN_OPEN)] {
        let mut data = Vec::new();
        data.extend_from_slice(&i32::to_ne_bytes(wd));
        data.extend_from_slice(&i32::to_ne_bytes(mask));
        data.extend_from_slice(&[0; 8]);
        assert!(matches!(lib.next_events(1, Reply::Begin), Ask::Poll));
        assert!(matches!(lib.next_events(1, Reply::Received(Ok(data))), Ask::Take));
        assert!(lib.can_take());
        assert!(matches!(lib.next_events(1, Reply::Take), Ask::Deliver(_)));
    }
    lib.set_filename_by_wd(2, b"h");
    for event in [0, IN_OPEN, IN_ACCESS, IN_MODIFY] {
        let sum = lib.get_stat_by_wd(1, event) + lib.get_stat_by_wd(2, event);
        assert_eq!(lib.get_stat_total(event), sum);
    }
    assert_eq!(lib.get_stat_total(0), 3);
    assert_eq!(lib.get_stat_total(IN_OPEN), 2);
    assert_eq!(lib.get_stat_total(IN_CLOSE), -1);
    lib.initialize_stats();
    assert_eq!(lib.get_stat_total(IN_OPEN), 0);
}

#[test]
fn all_files_of_a_list_are_found() {
    let mut lib = ready();
    assert!(watch(&mut lib, b"old", IN_OPEN, 9, 0));
    let files = vec![b"/d".to_vec(), b"/e/".to_vec(), b"f".to_vec()];
    let mut setup = WatchSetup::new(files, IN_OPEN);
    let mut wd = 0;
    let mut ask = lib.watch_files(&mut setup, SetupReply::Start);
    loop {
        let reply = match ask {
            SetupAsk::AddWatch { .. } => {
                wd += 1;
                SetupReply::Marked { wd, errno: 0 }
            }
            SetupAsk::Stat(p) => {
                SetupReply::Stated(Ok(if p.starts_with(b"/") { S_IFDIR } else { 0 }))
            }
            SetupAsk::Finished => break,
            _ => unreachable!(),
        };
        ask = lib.watch_files(&mut setup, reply);
    }
    assert_eq!(lib.error(), 0);
    let names: [&[u8]; 3] = [b"/d/", b"/e/", b"f"];
    for (i, name) in names.iter().enumerate() {
        assert_eq!(lib.wd_from_filename(name), i as i32 + 1);
        assert_eq!(lib.filename_from_wd(i as i32 + 1, None), name.to_vec());
    }
    assert_eq!(lib.get_num_watches(), 4);
    assert_eq!(lib.wd_from_filename(b"old"), 9);
    // No files, no watches.
    let mut setup = WatchSetup::new(Vec::new(), IN_OPEN);
    assert!(matches!(lib.watch_files(&mut setup, SetupReply::Start), SetupAsk::Finished));
    assert_eq!(lib.get_num_watches(), 4);
}

#[test]
fn known_names_and_descriptors_are_kept() {
    let mut lib = ready();
    assert!(watch(&mut lib, b"f", IN_OPEN, 4, 0));
    assert!(watch(&mut lib, b"f", IN_OPEN, 5, 0));
    assert_eq!(lib.wd_from_filename(b"f"), 4);
    assert_eq!(lib.get_num_watches(), 1);
    assert!(watch(&mut lib, b"g", IN_OPEN, 4, 0));
    assert_eq!(lib.filename_from_wd(4, None), b"f");
    assert_eq!(lib.get_num_watches(), 2);
}

#[test]
fn a_failed_removal_names_its_watch() {
    let mut lib = ready();
    assert!(watch(&mut lib, b"f", IN_OPEN, 4, 0));
    assert!(watch(&mut lib, b"g", IN_OPEN, 4, 0));
    // The watch descriptor leads to the first of the two.
    assert_eq!(lib.removal_by_filename(b"g"), Removal::Kernel(4));
    let msg = lib.removal_failure_by_filename(b"g", b"why");
    assert_eq!(msg, b"Failed to remove watch on g: why\n");
    assert_eq!(lib.removal_failure_by_wd(4, b"why"), b"Failed to remove watch on f: why\n");
}

#[test]
fn formatting_uses_times_in_turn() {
    let mut lib = ready();
    let ev = Event { wd: 0, mask: IN_OPEN as u32, ..Default::default() };
    assert_eq!(time_slots(b"%T-%%T-%T%"), 2);
    let times = [Some(b"12:00".to_vec()), Some(b"12:01".to_vec())];
    let mut out = NString::new();
    // Without a time format there is no time.
    lib.sprintf(&mut out, &ev, Some(b"<%T>"), None, &times);
    assert_eq!(out.as_bytes(), b"<>");
    lib.set_printf_timefmt(b"%H:%M\0junk");
    assert_eq!(lib.timefmt(), Some(b"%H:%M".to_vec()));
    let mut out = NString::new();
    lib.sprintf(&mut out, &ev, Some(b"%T %T"), None, &times);
    assert_eq!(out.as_bytes(), b"12:00 12:01");
    // An invalid time format is an error.
    let mut out = NString::new();
    assert_eq!(lib.sprintf(&mut out, &ev, Some(b"a%T"), None, &[None]), -1);
    assert_eq!(lib.error(), EINVAL);
    lib.clear_timefmt();
    assert_eq!(lib.timefmt(), None);
}

#[test]
fn a_directory_that_does_not_fit_is_left_out() {
    let mut lib = ready();
    assert!(watch(&mut lib, b"/a/long/name", IN_OPEN, 3, 0));
    let ev = Event { wd: 3, mask: IN_OPEN as u32, ..Default::default() };
    let mut out = NString::new();
    assert_eq!(lib.snprintf(&mut out, 8, &ev, Some(b"%w;"), None, &[]), 0);
    assert_eq!(out.as_bytes(), b";");
    assert_eq!(lib.filename_from_event(&ev, None).dirname(), b"/a/long/name");
}

#[test]
fn initialisation_reports_the_kernel() {
    let mut lib = Inotifytools::new();
    assert_eq!(lib.init_request(false), Some(Group::Inotify));
    assert_eq!(lib.init_request(true), Some(Group::Fanotify(0x0e00)));
    assert!(!lib.init(false, false, 0, -1, 24, 0));
    assert_eq!(lib.error(), 24);
    assert!(!lib.initialized());
    assert!(lib.init(true, true, 2, 5, 0, 77));
    assert!(lib.fanotify_mode());
    assert_eq!(lib.fd(), 5);
    assert_eq!(lib.verbosity(), 2);
    // Once is enough.
    assert_eq!(lib.init_request(false), None);
    assert!(lib.init(false, false, 0, -1, 24, 0));
    assert!(lib.fanotify_mode());
    assert_eq!(lib.cleanup(), Some(5));
    assert_eq!(lib.cleanup(), None);
    let lib = Inotifytools::default();
    assert!(!lib.initialized());
    assert_eq!(lib.fd(), -1);
}

#[test]
fn byte_order_is_the_native_one() {
    let expected = if u16::from_ne_bytes([1, 0]) == 1 { ByteOrder::Little } else { ByteOrder::Big };
    assert!(ByteOrder::native() == expected);
    assert!(ByteOrder::from_reading(0x0001) == Some(ByteOrder::Little));
    assert!(ByteOrder::from_reading(0x0100) == Some(ByteOrder::Big));
    assert!(ByteOrder::from_reading(2).is_none());
}

#[test]
fn removal_fails_as_the_kernel_says() {
    let mut lib = ready();
    assert!(watch(&mut lib, b"f", IN_OPEN, 4, 0));
    assert_eq!(lib.removal_by_wd(9), Removal::Absent);
    assert!(lib.remove_watch_by_wd(9, -1, EINVAL));
    assert_eq!(lib.error(), 0);
    assert!(!lib.remove_watch_by_wd(4, -1, EINVAL));
    assert_eq!(lib.error(), EINVAL);
    assert_eq!(lib.filename_from_wd(4, None), b"f");
    assert_eq!(lib.get_num_watches(), 1);
    assert!(!lib.remove_watch_by_filename(b"f", -1, ENOENT));
    assert_eq!(lib.error(), ENOENT);
    assert_eq!(lib.wd_from_filename(b"f"), 4);
    assert_eq!(lib.removal_failure_by_wd(4, b"why"), b"Failed to remove watch on f: why\n");
    assert_eq!(lib.removal_failure_by_wd(9, b"why"), b"Failed to remove watch on : why\n");
    assert!(lib.remove_watch_by_wd(4, 0, 0));
    assert_eq!(lib.wd_from_filename(b"f"), -1);
    assert_eq!(lib.filename_from_wd(4, None), b"");
}

#[test]
fn names_can_be_replaced() {
    let mut lib = ready();
    for (wd, name) in [(1, &b"/a/"[..]), (2, b"/a/b/"), (3, b"/c/")] {
        assert!(watch(&mut lib, name, IN_OPEN, wd, S_IFDIR));
    }
    lib.replace_filename(b"/a/", b"/x/");
    assert_eq!(lib.filename_from_wd(1, None), b"/x/");
    assert_eq!(lib.filename_from_wd(2, None), b"/x/b/");
    assert_eq!(lib.filename_from_wd(3, None), b"/c/");
    assert_eq!(lib.wd_from_filename(b"/x/b/"), 2);
    assert_eq!(lib.wd_from_filename(b"/a/b/"), -1);
    // Nothing is done with an empty name.
    lib.replace_filename(b"", b"/y/");
    lib.replace_filename(b"/x/", b"");
    assert_eq!(lib.filename_from_wd(1, None), b"/x/");
    lib.set_filename_by_wd(3, b"/d/");
    assert_eq!(lib.wd_from_filename(b"/d/"), 3);
    lib.set_filename_by_filename(b"/d/", b"/e/\0hidden");
    assert_eq!(lib.filename_from_wd(3, None), b"/e/");
    // A name that leads elsewhere already keeps leading there.
    lib.set_filename_by_wd(3, b"/x/");
    assert_eq!(lib.filename_from_wd(3, None), b"/x/");
    assert_eq!(lib.wd_from_filename(b"/x/"), 1);
    assert_eq!(lib.get_num_watches(), 2);
    assert_eq!(lib.wd_from_filename(b""), -1);
}

#[test]
fn a_name_is_kept_by_the_first_watch() {
    let mut lib = ready();
    assert!(watch(&mut lib, b"same", IN_OPEN, 1, 0));
    assert!(watch(&mut lib, b"same", IN_OPEN, 2, 0));
    assert_eq!(lib.wd_from_filename(b"same"), 1);
    assert_eq!(lib.filename_from_wd(2, None), b"same");
    assert_eq!(lib.get_num_watches(), 1);
    assert!(lib.has_room());
}

#[test]
fn paths_of_events() {
    let mut lib = ready();
    assert!(watch(&mut lib, b"/d", IN_OPEN, 1, S_IFDIR));
    let mut ev = Event {
        wd: 1,
        mask: (IN_CREATE | IN_ISDIR) as u32,
        cookie: 0,
        len: 4,
        name: b"new".to_vec(),
    };
    let path = lib.filename_from_event(&ev, None);
    assert_eq!(path.filename, b"/d/");
    assert_eq!(path.dirname(), b"/d/");
    assert_eq!(path.eventname, b"new");
    assert_eq!(lib.dirpath_from_event(&ev, None), Some(b"/d/new/".to_vec()));
    assert_eq!(lib.fid_from_wd(1), None);
    ev.mask = IN_CREATE as u32;
    assert_eq!(lib.dirpath_from_event(&ev, None), None);
    ev.mask = (IN_CREATE | IN_ISDIR) as u32;
    ev.wd = 8;
    assert_eq!(lib.dirpath_from_event(&ev, None), None);
    assert_eq!(lib.filename_from_event(&ev, None).filename, b"");
    ev.len = 0;
    assert_eq!(lib.filename_from_event(&ev, None).eventname, b"");
}

#[test]
fn setup_failures() {
    let mut lib = ready();
    assert!(!watch(&mut lib, b"f", IN_OPEN, -1, 0));
    assert_eq!(lib.error(), 28);
    let mut setup = WatchSetup::new(vec![b"f".to_vec()], IN_OPEN);
    lib.watch_files(&mut setup, SetupReply::Start);
    let ask = lib.watch_files(&mut setup, SetupReply::Marked { wd: -5, errno: 0 });
    match ask {
        SetupAsk::Failed(Some(msg)) => assert_eq!(
            msg,
            b"Failed to watch f: returned wd was -5 (expected -1 or >0 )"
        ),
        _ => panic!(),
    }
    assert_eq!(
        inotifytools::inotify::setup::stat_failure(b"p\0q", 5, b"why"),
        Some(b"Stat failed on p: why\n".to_vec())
    );
    assert_eq!(inotifytools::inotify::setup::stat_failure(b"p", ENOENT, b"why"), None);
    assert!(inotifytools::isdir(Ok(S_IFDIR | 0o755)));
    assert!(!inotifytools::isdir(Ok(0x8000)));
    assert!(!inotifytools::isdir(Err(2)));
}

#[test]
fn statistics_are_sorted() {
    let mut lib = ready();
    for (wd, name) in [(1, &b"one"[..]), (2, b"two"), (3, b"three")] {
        assert!(watch(&mut lib, name, IN_OPEN, wd, 0));
    }
    assert_eq!(lib.get_stat_total(0), -1);
    assert_eq!(lib.get_stat_by_wd(1, 0), -1);
    lib.initialize_stats();
    assert_eq!(lib.get_stat_total(0), 0);
    assert_eq!(lib.get_stat_by_filename(b"one", IN_OPEN), 0);
    assert_eq!(lib.get_stat_by_filename(b"none", IN_OPEN), -1);
    assert_eq!(lib.get_stat_total(3), -1);
    let all = lib.watches_sorted_by_event(-1);
    let names: Vec<Vec<u8>> =
        all.iter().map(|(w, _)| lib.filename_from_watch(*w, None)).collect();
    // All alike: by watch descriptor.
    assert_eq!(names, vec![b"one".to_vec(), b"two".to_vec(), b"three".to_vec()]);
    assert_eq!(lib.fid_from_watch(all[0].0), None);
    lib.remove_watch_by_wd(1, 0, 0);
    assert_eq!(lib.filename_from_watch(all[0].0, None), b"");
    assert_eq!(lib.watches_sorted_by_event(i32::MIN).len(), 2);
}

#[test]
fn limits_are_passed_on() {
    let mut lib = ready();
    assert_eq!(lib.get_max_user_watches(Ok(8192)), 8192);
    assert_eq!(lib.get_max_user_instances(Ok(128)), 128);
    assert_eq!(lib.get_max_queued_events(Err(2)), -1);
    assert_eq!(lib.error(), 2);
}

#[test]
fn filters_are_set_and_removed() {
    let mut lib = ready();
    assert_eq!(Inotifytools::regex_request(Some(b"a.*\0b"), 1), Some((b"a.*".to_vec(), 9)));
    assert_eq!(Inotifytools::regex_request(None, 1), None);
    assert!(lib.ignore_events_by_regex(Some(b"a"), 0, true));
    assert!(!lib.ignore_events_by_inverted_regex(Some(b"("), 0, false));
    assert_eq!(lib.error(), EINVAL);
    assert!(lib.ignore_events_by_regex(None, 0, false));
}

#[test]
fn diagnostics() {
    assert_eq!(
        nice_fail(12, "initialized", "not yet"),
        b"inotifytools.rs:12 assertion ( initialized ) failed: not yet\n"
    );
    assert_eq!(nice_fail(3, "x", ""), b"inotifytools.rs:3 assertion ( x ) failed.\n");
}
