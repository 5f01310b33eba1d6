//! The logic of inotifywait and inotifywatch.

use inotifytools::common::basename;
use inotifytools::common::construct_path_list;
use inotifytools::common::fromfile_failure;
use inotifytools::common::help_name;
use inotifytools::common::invoked_as_fsnotify;
use inotifytools::common::is_stdin;
use inotifytools::common::is_timeout_option_valid;
use inotifytools::common::new_directory_failure;
use inotifytools::common::new_directory_message;
use inotifytools::common::parse_event;
use inotifytools::common::print_event_descriptions;
use inotifytools::common::unwatch_failure;
use inotifytools::common::warn_inotify_init_error;
use inotifytools::common::watch_failure;
use inotifytools::common::watch_kind;
use inotifytools::common::watch_list;
use inotifytools::common::Filters;
use inotifytools::common::FromFile;
use inotifytools::common::ListAsk;
use inotifytools::common::MoveAsk;
use inotifytools::common::MoveTracker;
use inotifytools::common::Parsed;
use inotifytools::common::WatchKind;
use inotifytools::consts::IN_ALL_EVENTS;
use inotifytools::consts::IN_CREATE;
use inotifytools::consts::IN_DONT_FOLLOW;
use inotifytools::consts::IN_IGNORED;
use inotifytools::consts::IN_ISDIR;
use inotifytools::consts::IN_MODIFY;
use inotifytools::consts::IN_MOVED_FROM;
use inotifytools::consts::IN_MOVED_TO;
use inotifytools::consts::IN_OPEN;
use inotifytools::inotify::reader::Ask;
use inotifytools::inotify::reader::Reply;
use inotifytools::inotify::setup::SetupReply;
use inotifytools::inotify::setup::WatchSetup;
use inotifytools::inotify::setup::S_IFDIR;
use inotifytools::order::ByteOrder;
use inotifytools::wait;
use inotifytools::wait::csv_escape;
use inotifytools::wait::csv_escape_len;
use inotifytools::watch;
use inotifytools::watch::Info;
use inotifytools::Event;
use inotifytools::EventPath;
use inotifytools::Inotifytools;

#[test]
fn posix_basename() {
    assert_eq!(basename(b""), b".");
    assert_eq!(basename(b"/"), b"/");
    assert_eq!(basename(b"///"), b"/");
    assert_eq!(basename(b"/usr/bin/inotifywait"), b"inotifywait");
    assert_eq!(basename(b"../../src/fsnotifywait/"), b"fsnotifywait");
    assert_eq!(basename(b"inotifywatch"), b"inotifywatch");
    assert!(invoked_as_fsnotify(Some(b"/usr/bin/fsnotifywait")));
    assert!(!invoked_as_fsnotify(Some(b"/usr/bin/inotifywait")));
    assert!(!invoked_as_fsnotify(None));
}

#[test]
fn csv_like_file_list() {
    let args = vec![b"a".to_vec(), b"@b".to_vec(), b"@".to_vec(), b"".to_vec(), b"c".to_vec()];
    let l = construct_path_list(&args, None).unwrap();
    assert_eq!(l.watch_files, vec![b"a".to_vec(), b"c".to_vec()]);
    assert_eq!(l.exclude_files, vec![b"b".to_vec()]);
}

#[test]
fn file_list_from_file() {
    let lines: [&[u8]; 7] = [b"x\n", b"@y\n", b"\n", b"@\n", b"\0z\n", b"w\0z", b"@"];
    let lines = FromFile::Lines(lines.iter().map(|l| l.to_vec()).collect());
    let l = construct_path_list(&[b"last".to_vec()], Some(lines)).unwrap();
    assert_eq!(
        l.watch_files,
        vec![b"x".to_vec(), b"".to_vec(), b"w".to_vec(), b"last".to_vec()]
    );
    assert_eq!(l.exclude_files, vec![b"y".to_vec(), b"".to_vec()]);
    assert!(construct_path_list(&[], Some(FromFile::Unopened)).is_none());
    assert_eq!(fromfile_failure(b"f", b"why"), b"Couldn't open f: why\n");
    assert!(is_stdin(b"-"));
    assert!(!is_stdin(b"--"));
}

#[test]
fn init_errors_are_explained() {
    assert_eq!(
        warn_inotify_init_error(24, false, b"many"),
        b"Couldn't initialize inotify: many\n\
Try increasing the value of /proc/sys/fs/inotify/max_user_instances\n"
    );
    assert_eq!(
        warn_inotify_init_error(24, true, b"many"),
        b"Couldn't initialize fanotify: many\n\
Try increasing the value of /proc/sys/fs/fanotify/max_user_groups\n"
    );
    assert_eq!(
        warn_inotify_init_error(22, true, b"bad"),
        b"Couldn't initialize fanotify: bad\n\
fanotify support for reporting the events with file names was added in kernel v5.9.\n"
    );
    assert_eq!(
        warn_inotify_init_error(1, true, b"no"),
        b"Couldn't initialize fanotify: no\nfanotify watch requires admin privileges\n"
    );
    assert_eq!(warn_inotify_init_error(22, false, b"bad"), b"Couldn't initialize inotify: bad\n");
}

fn parsed(value: i64, errno: i32, consumed: usize) -> Parsed {
    Parsed { value, errno, why: b"why".to_vec(), consumed }
}

#[test]
fn timeouts_are_checked() {
    let mut t: i64 = 5;
    assert_eq!(is_timeout_option_valid(&mut t, Some(b"-12"), &parsed(-12, 0, 3)), Ok(()));
    assert_eq!(t, -12);
    assert_eq!(
        is_timeout_option_valid(&mut t, None, &parsed(1, 0, 0)),
        Err(b"The provided value is not a valid timeout value.\n\
Please specify a long int value.\n"
            .to_vec())
    );
    assert!(is_timeout_option_valid(&mut t, Some(b""), &parsed(1, 0, 0)).is_err());
    assert_eq!(t, -12);
    assert_eq!(
        is_timeout_option_valid(&mut t, Some(b"9"), &parsed(i64::MAX, 34, 1)),
        Err(b"Something went wrong with the timeout value you provided.\nwhy\n".to_vec())
    );
    assert_eq!(
        is_timeout_option_valid(&mut t, Some(b"3s"), &parsed(3, 0, 1)),
        Err(b"'3s' is not a valid timeout value.\nPlease specify a long int value.\n".to_vec())
    );
}

#[test]
fn filters_conflict_and_are_installed() {
    let mut f = Filters::new();
    assert_eq!(f.validate(), Ok(()));
    assert!(!f.has_include());
    f.exc = Some(b"a".to_vec());
    f.exci = Some(b"b".to_vec());
    assert_eq!(
        f.validate(),
        Err(b"--exclude and --excludei cannot both be specified.\n".to_vec())
    );
    let patterns = f.patterns();
    assert_eq!((&patterns[0].text[..], patterns[0].flags), (&b"a"[..], 1));
    assert_eq!((&patterns[1].text[..], patterns[1].flags), (&b"b"[..], 3));
    f.exc = None;
    f.inci = Some(b"c".to_vec());
    assert!(f.has_include());
    assert_eq!(
        f.validate(),
        Err(b"include and exclude regexp cannot both be specified.\n".to_vec())
    );
    f.exci = None;
    f.inc = Some(b"d".to_vec());
    assert_eq!(
        f.validate(),
        Err(b"--include and --includei cannot both be specified.\n".to_vec())
    );
    f.inc = None;
    assert_eq!(f.validate(), Ok(()));
    assert!(f.patterns()[0].inverted);
    let mut lib = Inotifytools::new();
    assert_eq!(f.install(&mut lib, 0, &[true]), Ok(()));
    assert_eq!(
        f.install(&mut lib, 0, &[false]),
        Err(b"Error in `include' regular expression.\n".to_vec())
    );
    f.inci = None;
    f.exc = Some(b"(".to_vec());
    assert_eq!(
        f.install(&mut lib, 0, &[]),
        Err(b"Error in `exclude' regular expression.\n".to_vec())
    );
}

#[test]
fn event_arguments() {
    assert_eq!(parse_event(Some(b"open,modify")), Ok(IN_OPEN | IN_MODIFY));
    assert_eq!(parse_event(None), Ok(0));
    assert_eq!(
        parse_event(Some(b"opened")),
        Err(b"'opened' is not a valid event!  \
Run with the '--help' option to see a list of events.\n"
            .to_vec())
    );
    assert_eq!(help_name(Some(b"/bin/tool"), 1), b"tool");
    assert_eq!(help_name(Some(b"/bin/tool"), 0), b"<executable>");
    assert_eq!(help_name(None, 1), b"<executable>");
}

#[test]
fn lists_are_watched_one_by_one_or_together() {
    assert_eq!(watch_kind(true, true), WatchKind::Filesystem);
    assert_eq!(watch_kind(true, false), WatchKind::Trees);
    assert_eq!(watch_kind(false, false), WatchKind::Files);
    assert!(matches!(watch_list(WatchKind::Files, 2, None), ListAsk::File(0)));
    assert!(matches!(watch_list(WatchKind::Files, 2, Some((0, true))), ListAsk::File(1)));
    assert!(matches!(watch_list(WatchKind::Trees, 2, Some((1, true))), ListAsk::Done));
    assert!(matches!(watch_list(WatchKind::Trees, 2, Some((1, false))), ListAsk::Failed(1)));
    assert!(matches!(watch_list(WatchKind::Filesystem, 2, None), ListAsk::All));
    assert!(matches!(watch_list(WatchKind::Filesystem, 2, Some((0, true))), ListAsk::Done));
    assert!(matches!(watch_list(WatchKind::Filesystem, 0, None), ListAsk::Done));
    assert_eq!(
        watch_failure(WatchKind::Files, b"f", 2, false, "Couldn't watch ", b"gone"),
        vec![b"Couldn't watch f: gone\n".to_vec()]
    );
    assert_eq!(
        watch_failure(WatchKind::Trees, b"f", 28, false, "Couldn't watch ", b"full"),
        vec![
            b"Failed to watch f; upper limit on inotify watches reached!\n".to_vec(),
            b"Please increase the amount of inotify watches allowed per user via \
`/proc/sys/fs/inotify/max_user_watches'.\n"
                .to_vec()
        ]
    );
    assert_eq!(
        watch_failure(WatchKind::Filesystem, b"f", 28, true, "Couldn't watch ", b"full"),
        vec![b"Couldn't add filesystem watch f: full\n".to_vec()]
    );
}

/// A handle with some directories watched.
fn watching(dirs: &[&[u8]]) -> Inotifytools {
    let mut lib = Inotifytools::with_order(ByteOrder::Little);
    assert!(lib.initialize(3, 0));
    for (i, dir) in dirs.iter().enumerate() {
        let mut setup = WatchSetup::new(vec![dir.to_vec()], IN_OPEN);
        lib.watch_files(&mut setup, SetupReply::Start);
        lib.watch_files(&mut setup, SetupReply::Marked { wd: i as i32 + 1, errno: 0 });
        lib.watch_files(&mut setup, SetupReply::Stated(Ok(S_IFDIR)));
    }
    lib
}

fn event(wd: i32, mask: i32, name: &[u8]) -> Event {
    Event { wd, mask: mask as u32, cookie: 0, len: 16, name: name.to_vec() }
}

#[test]
fn a_move_within_the_tree_renames() {
    let mut lib = watching(&[b"/t/", b"/t/a/", b"/t/a/deep/", b"/t/b/"]);
    let mut moves = MoveTracker::new();
    let from = event(1, IN_MOVED_FROM | IN_ISDIR, b"a");
    let to = event(4, IN_MOVED_TO | IN_ISDIR, b"c");
    assert_eq!(moves.unwatch(&from), None);
    assert!(matches!(moves.handle(&mut lib, &from, None), MoveAsk::Nothing));
    assert_eq!(moves.unwatch(&to), None);
    assert!(matches!(moves.handle(&mut lib, &to, None), MoveAsk::Nothing));
    assert_eq!(lib.filename_from_wd(2, None), b"/t/b/c/");
    assert_eq!(lib.filename_from_wd(3, None), b"/t/b/c/deep/");
    assert_eq!(lib.filename_from_wd(1, None), b"/t/");
    assert_eq!(moves.unwatch(&event(1, IN_OPEN, b"")), None);
}

#[test]
fn a_move_out_of_the_tree_unwatches() {
    let mut lib = watching(&[b"/t/", b"/t/a/"]);
    let mut moves = MoveTracker::default();
    let from = event(1, IN_MOVED_FROM | IN_ISDIR, b"a");
    moves.handle(&mut lib, &from, None);
    assert_eq!(moves.unwatch(&event(1, IN_OPEN, b"x")), Some(b"/t/a/".to_vec()));
    assert_eq!(moves.unwatch(&event(1, IN_OPEN, b"x")), None);
    // What is not watched is not followed.
    moves.handle(&mut lib, &event(1, IN_MOVED_FROM | IN_ISDIR, b"other"), None);
    assert_eq!(moves.unwatch(&event(1, IN_OPEN, b"x")), None);
    assert_eq!(unwatch_failure(b"d", b"why"), b"Error removing watch on d: why\n");
}

#[test]
fn new_directories_are_found() {
    let mut lib = watching(&[b"/t/"]);
    let mut moves = MoveTracker::new();
    for mask in [IN_CREATE, IN_MOVED_TO] {
        match moves.handle(&mut lib, &event(1, mask | IN_ISDIR, b"new"), None) {
            MoveAsk::NewDirectory(path) => assert_eq!(path, b"/t/new/"),
            MoveAsk::Nothing => panic!(),
        }
    }
    let file = event(1, IN_CREATE, b"new");
    assert!(matches!(moves.handle(&mut lib, &file, None), MoveAsk::Nothing));
    assert_eq!(new_directory_message(b"/n/"), b"Watching new directory /n/\n");
    assert_eq!(new_directory_failure(b"/n/", b"why"), b"Couldn't watch new directory /n/: why\n");
}

/// Parse options of inotifywait.
fn wait_opts(options: &[(u8, Option<&[u8]>)]) -> (wait::Opts, Option<wait::Stop>) {
    let mut o = wait::Opts::new(false);
    for (c, arg) in options {
        assert!(o.countable());
        let arg = arg.map(|a| a.to_vec());
        let stop = o.parse_opt(*c, arg, &parsed(30, 0, 2));
        if stop.is_some() {
            return (o, stop);
        }
    }
    (o, None)
}

fn wait_end(options: &[(u8, Option<&[u8]>)]) -> (bool, Vec<u8>) {
    let (mut o, stop) = wait_opts(options);
    assert!(stop.is_none());
    let end = o.parse_opts(false);
    (end.ok, end.message)
}

#[test]
fn inotifywait_options() {
    let (mut o, stop) = wait_opts(&[
        (b'm', None),
        (b'q', None),
        (b'q', None),
        (b'r', None),
        (b'e', Some(b"open")),
        (b'e', Some(b"modify")),
        (b't', Some(b"30")),
        (b'P', None),
        (b'n', Some(b"%w")),
        (b'z', Some(b"list")),
        (b'o', Some(b"log")),
    ]);
    assert!(stop.is_none());
    assert!(o.monitor && o.no_dereference && !o.fanotify);
    assert_eq!((o.quiet, o.recursive, o.timeout), (2, 1, 30));
    assert_eq!(o.shown_events(), IN_OPEN | IN_MODIFY);
    assert_eq!(
        o.watched_events(),
        IN_OPEN | IN_MODIFY | IN_CREATE | IN_MOVED_TO | IN_MOVED_FROM | IN_DONT_FOLLOW
    );
    let end = o.parse_opts(false);
    assert!(end.ok && end.message.is_empty());
    assert_eq!(o.event_format(), Some(b"%w\n".to_vec()));
    assert_eq!(o.setup_message(), None);
    let next = o.after_event();
    assert!(next.follow && next.recursive && next.wait);
    let (o, _) = wait_opts(&[(b'S', None), (b'd', None)]);
    assert!(o.filesystem && o.fanotify && o.daemon && o.monitor && o.syslog);
    assert_eq!(o.watched_events(), IN_ALL_EVENTS | IN_ISDIR);
    assert_eq!(o.setup_message(), Some(b"Setting up filesystem watches.\n".to_vec()));
    assert!(!o.after_event().follow);
    let (o, _) = wait_opts(&[(b'F', None), (b'I', None), (b'c', None)]);
    assert!(!o.fanotify);
    assert_eq!(o.event_format(), None);
    assert_eq!(wait::Opts::new(true).fanotify, true);
    assert_eq!(wait::Opts::new(true).event_format(), Some(b"%w %,e %f\n".to_vec()));
}

#[test]
fn inotifywait_complaints() {
    let complaint = |options: &[(u8, Option<&[u8]>)]| match wait_opts(options).1 {
        Some(wait::Stop::Complaint(msg)) => msg,
        _ => panic!(),
    };
    assert!(matches!(wait_opts(&[(b'h', None)]).1, Some(wait::Stop::Help)));
    assert!(complaint(&[(b'f', None)]).starts_with(b"The '--filename' option no longer exists."));
    assert_eq!(
        complaint(&[(b'z', Some(b"a")), (b'z', Some(b"b"))]),
        b"Multiple --fromfile options given.\n"
    );
    assert_eq!(
        complaint(&[(b'o', Some(b"a")), (b'o', Some(b"b"))]),
        b"Multiple --outfile options given.\n"
    );
    assert!(complaint(&[(b't', Some(b"3"))]).starts_with(b"'3' is not a valid timeout"));
    assert!(complaint(&[(b'e', Some(b"nonsense"))]).starts_with(b"'nonsense' is not a valid"));
    assert_eq!(
        wait_end(&[(b'n', Some(b"%w")), (b'c', None)]),
        (false, b"-c and --format cannot both be specified.\n".to_vec())
    );
    assert_eq!(
        wait_end(&[(b'0', None)]),
        (false, b"--no-newline cannot be specified without --format.\n".to_vec())
    );
    assert_eq!(
        wait_end(&[(b'i', Some(b"%H"))]),
        (false, b"--timefmt cannot be specified without --format.\n".to_vec())
    );
    assert_eq!(
        wait_end(&[(b'n', Some(b"a%T"))]),
        (false, b"%T is in --format string, but --timefmt was not specified.\n".to_vec())
    );
    assert_eq!(
        wait_end(&[(b'd', None)]),
        (false, b"-o must be specified with -d.\n".to_vec())
    );
    assert_eq!(
        wait_end(&[(b'a', Some(b"x")), (b'j', Some(b"y"))]),
        (false, b"include and exclude regexp cannot both be specified.\n".to_vec())
    );
    assert_eq!(
        wait_end(&[(b'a', Some(b"x")), (b'a', Some(b"y"))]),
        (true, b"--exclude: only the last option will be taken into consideration.\n".to_vec())
    );
    assert_eq!(
        wait_end(&[(b'b', Some(b"x")), (b'b', Some(b"y"))]),
        (true, b"--excludei: only the last option will be taken into consideration.\n".to_vec())
    );
    let mut o = wait::Opts::new(false);
    assert!(!o.parse_opts(true).ok);
}

#[test]
fn inotifywait_shows_and_exits() {
    let (o, _) = wait_opts(&[(b'e', Some(b"open")), (b'j', Some(b"x"))]);
    assert!(o.shows(&event(1, IN_OPEN, b"")));
    assert!(!o.shows(&event(1, IN_MODIFY, b"")));
    assert!(!o.shows(&event(1, IN_OPEN | IN_ISDIR, b"")));
    let (o, _) = wait_opts(&[(b'q', None), (b'q', None)]);
    assert!(!o.shows(&event(1, IN_OPEN, b"")));
    assert_eq!(wait::exit_status(IN_OPEN, IN_OPEN as u32), 0);
    assert_eq!(wait::exit_status(IN_OPEN, IN_IGNORED as u32), 1);
    assert_eq!(wait::no_event_status(0), 2);
    assert_eq!(wait::no_event_status(4), 1);
    let fake = wait::fake_event();
    assert_eq!((fake.mask, fake.len), (0xfff, 3));
}

#[test]
fn csv_fields() {
    assert_eq!(csv_escape(b""), b"");
    assert_eq!(csv_escape(b"plain"), b"plain");
    assert_eq!(csv_escape(b"a,b"), b"\"a,b\"");
    assert_eq!(csv_escape(b"a\"b"), b"\"a\"\"b\"");
    assert_eq!(csv_escape(b" a"), b"\" a\"");
    assert_eq!(csv_escape(b"a "), b"\"a \"");
    assert_eq!(csv_escape(b"a\nb"), b"\"a\nb\"");
    // Whether to quote is decided on the whole string.
    assert_eq!(csv_escape_len(b"ab,c", 2), b"\"ab\"");
    assert_eq!(csv_escape_len(b"ab", 3), b"");
    assert_eq!(csv_escape(&[b'x'; 4097]), b"");
    let path = EventPath {
        filename: b"/d/".to_vec(),
        dirnamelen: 3,
        eventname: b"x y".to_vec(),
    };
    let ev = event(1, IN_OPEN | IN_ISDIR, b"");
    assert_eq!(wait::output_event_csv(&path, &ev), b"/d/,\"OPEN,ISDIR\",x y\n");
    assert_eq!(wait::output_event_csv(&EventPath::default(), &ev), b"\"OPEN,ISDIR\",\n");
}

#[test]
fn help_texts() {
    let text = wait::print_help(b"tool", "4.26.0");
    assert!(text.starts_with(
        b"tool 4.26.0\nWait for a particular event on a file or set of files.\n\
Usage: tool [ options ] file1 [ file2 ] [ file3 ] [ ... ]\nOptions:\n\
\t-h|--help     \tShow this help text.\n"
    ));
    let events = print_event_descriptions();
    assert!(text.ends_with(&events));
    assert!(events.starts_with(b"\taccess\t\tfile or directory contents were read\n"));
    let text = watch::print_help(b"tool", "4.26.0");
    assert!(text.starts_with(
        b"tool 4.26.0\nGather filesystem usage statistics using tool.\n\
Usage: tool [ options ] file1 [ file2 ] [ ... ]\nOptions:\n"
    ));
    assert!(text.ends_with(&events));
}

/// Parse options of inotifywatch.
fn watch_opts(options: &[(u8, Option<&[u8]>)]) -> (watch::Opts, Option<wait::Stop>) {
    let mut o = watch::Opts::new(false);
    for (c, arg) in options {
        assert!(o.countable());
        let arg = arg.map(|a| a.to_vec());
        let stop = o.parse_opt(*c, arg, &parsed(30, 0, 2));
        if stop.is_some() {
            return (o, stop);
        }
    }
    (o, None)
}

#[test]
fn inotifywatch_options() {
    let (o, stop) = watch_opts(&[
        (b'v', None),
        (b'z', None),
        (b'r', None),
        (b'P', None),
        (b't', Some(b"30")),
        (b'e', Some(b"open")),
        (b'a', Some(b"open")),
        (b'o', Some(b"list")),
        (b'c', Some(b"x")),
    ]);
    assert!(stop.is_none());
    assert_eq!((o.verbose, o.zero, o.recursive, o.timeout), (1, 1, 1, 30));
    assert_eq!(o.sort, IN_OPEN);
    assert_eq!(o.watched_events(), IN_OPEN | IN_DONT_FOLLOW);
    assert!(o.parse_opts(false).ok);
    assert!(!o.parse_opts(true).ok);
    assert_eq!(o.before_message(b"f"), Some(b"Setting up watch(es) on f\n".to_vec()));
    assert_eq!(o.after_message(b"f"), Some(b"OK, f is now being watched.\n".to_vec()));
    assert_eq!(
        o.established_message(7),
        b"Total of 7 watches.\nFinished establishing watches, now collecting statistics.\n"
    );
    assert_eq!(o.timeout_message(), Some(b"Will listen for events for 30 seconds.\n".to_vec()));
    assert_eq!(o.alarm_seconds(), 30);
    let (o, _) = watch_opts(&[(b'S', None)]);
    assert_eq!(o.before_message(b"f"), Some(b"Setting up filesystem watch on f\n".to_vec()));
    assert_eq!(o.after_message(b"f"), None);
    assert_eq!(o.timeout_message(), None);
    assert_eq!(o.alarm_seconds(), u32::MAX);
    assert_eq!(o.watched_events(), IN_ALL_EVENTS | IN_ISDIR);
    assert_eq!(watch::no_event_status(0), Some(2));
    assert_eq!(watch::no_event_status(5), Some(1));
    assert_eq!(watch::no_event_status(4), None);
}

#[test]
fn inotifywatch_sorting() {
    let sort = |options: &[(u8, Option<&[u8]>)]| {
        let (o, stop) = watch_opts(options);
        match stop {
            None => Ok(o.sort),
            Some(wait::Stop::Complaint(msg)) => Err(msg),
            Some(wait::Stop::Help) => panic!(),
        }
    };
    assert_eq!(sort(&[]), Ok(-1));
    assert_eq!(sort(&[(b'a', Some(b"TOTAL"))]), Ok(0));
    assert_eq!(sort(&[(b'd', Some(b"total"))]), Ok(-1));
    assert_eq!(sort(&[(b'd', Some(b"open")), (b'd', Some(b"modify"))]), Ok(-IN_MODIFY));
    assert_eq!(
        sort(&[(b'a', Some(b"open")), (b'd', Some(b"modify"))]),
        Err(b"Please specify -a or -d once only!\n".to_vec())
    );
    assert_eq!(
        sort(&[(b'a', Some(b"Move"))]),
        Err(b"Cannot sort by `move' event; please use `moved_from' or `moved_to'.\n".to_vec())
    );
    assert_eq!(
        sort(&[(b'a', Some(b"close"))]),
        Err(b"Cannot sort by `close' event; please use `close_write' or `close_nowrite'.\n"
            .to_vec())
    );
    assert_eq!(
        sort(&[(b'd', Some(b"nonsense"))]),
        Err(b"'nonsense' is not a valid key for sorting!\n".to_vec())
    );
    assert_eq!(sort(&[(b'd', Some(b"oneshot"))]), Ok(i32::MIN));
    let (o, _) = watch_opts(&[(b'a', Some(b"open")), (b'e', Some(b"modify"))]);
    assert_eq!(
        o.parse_opts(false).message,
        b"Can't sort by an event which isn't being watched for!\n"
    );
    assert_eq!(watch::sort_key(b"open"), Ok(IN_OPEN));
}

#[test]
fn inotifywatch_table() {
    let mut lib = watching(&[b"/quiet", b"/busy", b"/some"]);
    lib.initialize_stats();
    let (o, _) = watch_opts(&[]);
    let rows = o.rows(&lib);
    assert!(rows.is_empty());
    match o.print_info(&lib, &rows, &vec![]) {
        Info::NoEvents(msg) => assert_eq!(msg, b"No events occurred.\n"),
        Info::Table(_) => panic!(),
    }
    for (wd, mask) in [(2, IN_OPEN), (3, IN_OPEN), (2, IN_MODIFY), (2, IN_OPEN)] {
        let mut data = Vec::new();
        for n in [wd as u32, mask as u32, 0, 0] {
            data.extend_from_slice(&n.to_le_bytes());
        }
        lib.next_events(1, Reply::Begin);
        lib.next_events(1, Reply::Received(Ok(data)));
        assert!(lib.can_take());
        assert!(matches!(lib.next_events(1, Reply::Take), Ask::Deliver(_)));
    }
    let rows = o.rows(&lib);
    let names: Vec<Vec<u8>> = rows.iter().map(|r| lib.filename_from_watch(r.0, None)).collect();
    match o.print_info(&lib, &rows, &names) {
        Info::Table(text) => assert_eq!(
            String::from_utf8(text).unwrap(),
            "total  modify  open  filename\n\
3      1       2     /busy/\n\
1      0       1     /some/\n"
        ),
        Info::NoEvents(_) => panic!(),
    }
    assert_eq!(watch::stat(&rows[0].1, IN_OPEN), 2);
    // With zeros, and ascending by one event.
    let (o, _) = watch_opts(&[(b'z', None), (b'e', Some(b"open,create")), (b'a', Some(b"open"))]);
    let rows = o.rows(&lib);
    let names: Vec<Vec<u8>> = rows.iter().map(|r| lib.filename_from_watch(r.0, None)).collect();
    match o.print_info(&lib, &rows, &names) {
        Info::Table(text) => assert_eq!(
            String::from_utf8(text).unwrap(),
            "total  open  create  filename\n\
0      0     0       /quiet/\n\
1      1     0       /some/\n\
3      2     0       /busy/\n"
        ),
        Info::NoEvents(_) => panic!(),
    }
}
