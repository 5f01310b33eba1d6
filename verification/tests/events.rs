//! Event names and masks.

use inotifytools::consts::IN_ACCESS;
use inotifytools::consts::IN_ALL_EVENTS;
use inotifytools::consts::IN_ATTRIB;
use inotifytools::consts::IN_CLOSE;
use inotifytools::consts::IN_CLOSE_NOWRITE;
use inotifytools::consts::IN_CLOSE_WRITE;
use inotifytools::consts::IN_CREATE;
use inotifytools::consts::IN_DELETE;
use inotifytools::consts::IN_DELETE_SELF;
use inotifytools::consts::IN_IGNORED;
use inotifytools::consts::IN_ISDIR;
use inotifytools::consts::IN_MODIFY;
use inotifytools::consts::IN_MOVE;
use inotifytools::consts::IN_MOVED_FROM;
use inotifytools::consts::IN_MOVED_TO;
use inotifytools::consts::IN_MOVE_SELF;
use inotifytools::consts::IN_ONESHOT;
use inotifytools::consts::IN_OPEN;
use inotifytools::consts::IN_Q_OVERFLOW;
use inotifytools::consts::IN_UNMOUNT;
use inotifytools::events::event_names_sep;
use inotifytools::events::is_malformed;
use inotifytools::str_to_event;
use inotifytools::str_to_event_sep;
use inotifytools::Inotifytools;
use inotifytools::WatchStats;

#[test]
fn str_to_event_matches_c_semantics() {
    let e = |s: &str| str_to_event(Some(s.as_bytes()));
    assert_eq!(e("open,modify,access"), IN_OPEN | IN_MODIFY | IN_ACCESS);
    assert_eq!(e(",open,modify,access"), 0);
    assert_eq!(e("open,modify,access,"), 0);
    assert_eq!(e("open,modify,,access,close"), 0);
    assert_eq!(e("open,mod,access,close"), -1);
    assert_eq!(e("CLOSE"), IN_CLOSE);
    assert_eq!(e(""), 0);
    assert_eq!(str_to_event(None), 0);
    assert_eq!(str_to_event_sep(Some(b"open:modify"), b':'), IN_OPEN | IN_MODIFY);
    assert_eq!(str_to_event_sep(Some(b"open:modify"), b'o'), -1);
    assert_eq!(str_to_event_sep(Some(b"open:modify"), 0), -1);
}

#[test]
fn event_to_str_order_and_unknown() {
    let lib = Inotifytools::new();
    assert_eq!(lib.event_to_str(IN_OPEN | IN_MODIFY | IN_ACCESS), b"ACCESS,MODIFY,OPEN");
    assert_eq!(lib.event_to_str_sep(IN_CLOSE_WRITE, b'.'), b"CLOSE_WRITE.CLOSE");
    assert_eq!(lib.event_to_str(0x1000), b"0x00001000");
    assert_eq!(lib.event_to_str(0), b"0x00000000");
}

#[test]
fn every_name_means_its_mask() {
    let names: [(&[u8], i32); 20] = [
        (b"access", IN_ACCESS),
        (b"modify", IN_MODIFY),
        (b"attrib", IN_ATTRIB),
        (b"close_write", IN_CLOSE_WRITE),
        (b"close_nowrite", IN_CLOSE_NOWRITE),
        (b"open", IN_OPEN),
        (b"moved_from", IN_MOVED_FROM),
        (b"moved_to", IN_MOVED_TO),
        (b"create", IN_CREATE),
        (b"delete", IN_DELETE),
        (b"delete_self", IN_DELETE_SELF),
        (b"unmount", IN_UNMOUNT),
        (b"q_overflow", IN_Q_OVERFLOW),
        (b"ignored", IN_IGNORED),
        (b"close", IN_CLOSE),
        (b"move_self", IN_MOVE_SELF),
        (b"move", IN_MOVE),
        (b"isdir", IN_ISDIR),
        (b"oneshot", IN_ONESHOT),
        (b"all_events", IN_ALL_EVENTS),
    ];
    for (name, mask) in names {
        assert_eq!(str_to_event(Some(name)), mask);
        let shouted: Vec<u8> = name.iter().map(|c| c.to_ascii_uppercase()).collect();
        assert_eq!(str_to_event(Some(&shouted)), mask);
    }
    assert_eq!(IN_CLOSE, IN_CLOSE_WRITE | IN_CLOSE_NOWRITE);
    assert_eq!(IN_MOVE, IN_MOVED_FROM | IN_MOVED_TO);
    assert_eq!(IN_ALL_EVENTS, 0xfff);
    assert_eq!(IN_ONESHOT as u32, 0x8000_0000);
}

#[test]
fn names_of_a_mask_mean_the_mask() {
    for events in [IN_OPEN, IN_MOVED_TO | IN_ISDIR, IN_ALL_EVENTS, IN_DELETE_SELF | IN_IGNORED] {
        for sep in [b',', b':', b' '] {
            let shown = event_names_sep(events, sep);
            assert_eq!(str_to_event_sep(Some(&shown), sep), events);
        }
    }
    // CLOSE is shown along with either way of closing, and means both.
    let shown = event_names_sep(IN_CLOSE_NOWRITE, b',');
    assert_eq!(shown, b"CLOSE_NOWRITE,CLOSE");
    assert_eq!(str_to_event(Some(&shown)), IN_CLOSE);
}

#[test]
fn names_end_at_a_nul() {
    assert_eq!(str_to_event(Some(b"open\0,nonsense")), IN_OPEN);
    assert_eq!(str_to_event(Some(b"\0open")), 0);
}

#[test]
fn long_names_are_noticed() {
    let long = [b'x'; 4096];
    let two = [&long[..], b",open"].concat();
    assert!(is_malformed(Some(&two), b','));
    assert!(is_malformed(Some(&[b"open,", &two[..]].concat()), b','));
    assert!(!is_malformed(Some(&two[1..]), b','));
    assert!(!is_malformed(Some(&long), b','));
    assert!(!is_malformed(Some(&[b"nonsense,", &two[..]].concat()), b','));
    assert!(!is_malformed(None, b','));
    assert_eq!(str_to_event(Some(&two)), -1);
}

#[test]
fn lists_mean_their_names() {
    assert_eq!(str_to_event(Some(b"open,nonsense,")), -1);
    assert_eq!(str_to_event(Some(b"open,,nonsense")), 0);
    assert_eq!(str_to_event(Some(b"attrib,move,attrib")), IN_ATTRIB | IN_MOVE);
}

#[test]
fn events_are_counted() {
    let mut stats = WatchStats::default();
    stats.record((IN_OPEN | IN_ISDIR) as u32);
    stats.record(IN_OPEN as u32);
    stats.record(IN_CLOSE_WRITE as u32);
    assert_eq!(stats.get(IN_OPEN), Some(2));
    assert_eq!(stats.get(IN_CLOSE_WRITE), Some(1));
    assert_eq!(stats.get(IN_CLOSE_NOWRITE), Some(0));
    assert_eq!(stats.get(0), Some(3));
    assert_eq!(stats.get(IN_ISDIR), None);
    let mut full = WatchStats { total: u32::MAX, ..stats };
    full.record(0);
    assert_eq!(full.get(0), Some(0));
}

#[test]
fn error_numbers_are_those_of_the_system() {
    assert_eq!(inotifytools::consts::EPERM, libc::EPERM);
    assert_eq!(inotifytools::consts::ENOENT, libc::ENOENT);
    assert_eq!(inotifytools::consts::EINTR, libc::EINTR);
    assert_eq!(inotifytools::consts::EACCES, libc::EACCES);
    assert_eq!(inotifytools::consts::ENOTDIR, libc::ENOTDIR);
    assert_eq!(inotifytools::consts::EINVAL, libc::EINVAL);
    assert_eq!(inotifytools::consts::EMFILE, libc::EMFILE);
    assert_eq!(inotifytools::consts::ENOSPC, libc::ENOSPC);
    assert_eq!(inotifytools::inotify::setup::S_IFMT, libc::S_IFMT);
    assert_eq!(inotifytools::inotify::setup::S_IFDIR, libc::S_IFDIR);
    assert_eq!(inotifytools::inotify::resolve::AT_FDCWD, libc::AT_FDCWD);
    assert_eq!(inotifytools::inotify::resolve::PATH_MAX, libc::PATH_MAX as usize);
}
