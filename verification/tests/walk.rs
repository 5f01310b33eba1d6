//! Walking through directory trees.

use inotifytools::consts::ErrorNumbers;
use inotifytools::consts::EACCES;
use inotifytools::consts::ELOOP;
use inotifytools::consts::ENOENT;
use inotifytools::consts::ENOTDIR;
use inotifytools::inotify::setup::S_IFDIR;
use inotifytools::inotify::walk::TreeWalk;
use inotifytools::inotify::walk::WalkAsk;
use inotifytools::inotify::walk::WalkReply;
use inotifytools::Inotifytools;

/// A small file system: directories by path, with their entries.
fn entries(path: &[u8]) -> Option<Vec<&'static [u8]>> {
    match path {
        b"/t" | b"/t/" => Some(vec![b".", b"..", b"a", b"file", b"b"]),
        b"/t/a/" => Some(vec![b".", b"..", b"deep"]),
        b"/t/a/deep/" => Some(vec![b".", b".."]),
        b"/t/b/" => Some(vec![b"x"]),
        b"/t/b/x/" => Some(vec![]),
        _ => None,
    }
}

fn is_dir(path: &[u8]) -> bool {
    entries(&[path, b"/"].concat()).is_some()
}

/// Walk through the file system.  The path `broken` fails to be watched, and
/// `lstat()` of the path `hidden` fails with an error.
fn walk_around(
    lib: &mut Inotifytools,
    path: &[u8],
    excluded: &[&[u8]],
    broken: &[u8],
    hidden: (&[u8], i32),
) -> (bool, Vec<Vec<u8>>) {
    let excluded: Vec<Vec<u8>> = excluded.iter().map(|e| e.to_vec()).collect();
    let mut walk = TreeWalk::new(path, &excluded);
    let mut open: Vec<Vec<&'static [u8]>> = Vec::new();
    let mut watched: Vec<Vec<u8>> = Vec::new();
    let mut reply = WalkReply::Start;
    loop {
        match lib.watch_recursively_with_exclude(&mut walk, reply) {
            WalkAsk::Open(p) => match entries(&p) {
                Some(list) => {
                    open.push(list);
                    reply = WalkReply::Opened(Ok(()));
                }
                None => reply = WalkReply::Opened(Err(ENOTDIR)),
            },
            WalkAsk::Next => reply = WalkReply::Entry(next_entry(&mut open)),
            WalkAsk::Abandon => {
                open.pop();
                reply = WalkReply::Entry(next_entry(&mut open));
            }
            WalkAsk::Stat(p) => {
                reply = WalkReply::Stated(if p == hidden.0 {
                    Err(hidden.1)
                } else {
                    Ok(if is_dir(&p) { S_IFDIR } else { 0x8000 })
                })
            }
            WalkAsk::Watch(p) => {
                reply = WalkReply::Watched(p != broken);
                watched.push(p);
            }
            WalkAsk::Leave(p) => {
                open.pop();
                reply = WalkReply::Watched(p != broken);
                watched.push(p);
            }
            WalkAsk::Finished(ok) => return (ok, watched),
        }
    }
}

fn next_entry(open: &mut Vec<Vec<&'static [u8]>>) -> Option<Vec<u8>> {
    let top = open.last_mut().unwrap();
    if top.is_empty() {
        None
    } else {
        Some(top.remove(0).to_vec())
    }
}

fn walk(
    lib: &mut Inotifytools,
    path: &[u8],
    excluded: &[&[u8]],
    broken: &[u8],
) -> (bool, Vec<Vec<u8>>) {
    walk_around(lib, path, excluded, broken, (b"", 0))
}

#[test]
fn an_entry_that_vanishes_costs_one_directory() {
    for error in [ENOENT, ELOOP] {
        let mut lib = Inotifytools::new();
        let (ok, watched) = walk_around(&mut lib, b"/t", &[], b"", (b"/t/a/deep", error));
        assert!(ok);
        assert_eq!(lib.error(), 0);
        // "/t/a/" is not watched, all the others are.
        let expected: Vec<Vec<u8>> =
            vec![b"/t/b/x/".to_vec(), b"/t/b/".to_vec(), b"/t/".to_vec()];
        assert_eq!(watched, expected);
    }
}

#[test]
fn an_entry_that_vanishes_last_costs_one_directory() {
    let mut lib = Inotifytools::new();
    let (ok, watched) = walk_around(&mut lib, b"/t", &[], b"", (b"/t/b/x", ENOENT));
    assert!(ok);
    assert_eq!(lib.error(), 0);
    let expected: Vec<Vec<u8>> =
        vec![b"/t/a/deep/".to_vec(), b"/t/a/".to_vec(), b"/t/".to_vec()];
    assert_eq!(watched, expected);
}

#[test]
fn other_failures_of_entries() {
    // Access to an entry may be denied.
    let mut lib = Inotifytools::new();
    let (ok, watched) = walk_around(&mut lib, b"/t", &[], b"", (b"/t/b/x", EACCES));
    assert!(ok);
    assert_eq!(lib.error(), 0);
    assert_eq!(watched.len(), 4);
    // Other errors end the walk, at any depth.
    let (ok, watched) = walk_around(&mut lib, b"/t", &[], b"", (b"/t/b/x", 5));
    assert!(!ok);
    assert_eq!(lib.error(), 5);
    assert_eq!(watched, vec![b"/t/a/deep/".to_vec(), b"/t/a/".to_vec()]);
    // So does a vanished entry of the top directory.
    let (ok, watched) = walk_around(&mut lib, b"/t", &[], b"", (b"/t/b", ENOENT));
    assert!(!ok);
    assert_eq!(lib.error(), ENOENT);
    assert_eq!(watched, vec![b"/t/a/deep/".to_vec(), b"/t/a/".to_vec()]);
}

#[test]
fn all_directories_are_watched_subdirectories_first() {
    let mut lib = Inotifytools::new();
    let (ok, watched) = walk(&mut lib, b"/t", &[], b"");
    assert!(ok);
    assert_eq!(lib.error(), 0);
    let expected: Vec<Vec<u8>> = vec![
        b"/t/a/deep/".to_vec(),
        b"/t/a/".to_vec(),
        b"/t/b/x/".to_vec(),
        b"/t/b/".to_vec(),
        b"/t/".to_vec(),
    ];
    assert_eq!(watched, expected);
}

#[test]
fn excluded_directories_are_left_out() {
    let mut lib = Inotifytools::new();
    let (ok, watched) = walk(&mut lib, b"/t/", &[b"/t/a", b"/t/b/x/"], b"");
    assert!(ok);
    assert_eq!(watched, vec![b"/t/b/".to_vec(), b"/t/".to_vec()]);
}

#[test]
fn a_file_is_simply_watched() {
    let mut lib = Inotifytools::new();
    let (ok, watched) = walk(&mut lib, b"/t/file\0junk", &[], b"");
    assert!(ok);
    assert_eq!(watched, vec![b"/t/file".to_vec()]);
}

#[test]
fn an_untolerated_failure_ends_the_walk() {
    let mut lib = Inotifytools::new();
    // The handle's error is 0 here, which is not tolerated.
    let (ok, watched) = walk(&mut lib, b"/t", &[], b"/t/a/");
    assert!(!ok);
    assert_eq!(watched, vec![b"/t/a/deep/".to_vec(), b"/t/a/".to_vec()]);
}

#[test]
fn symbolic_links_that_loop_have_the_number_of_the_system() {
    for (error, tolerated) in [(ELOOP, false), (62, true)] {
        let mut lib = Inotifytools::new();
        lib.set_error_numbers(ErrorNumbers { eloop: 62, emsgsize: 97 });
        let mut walk = TreeWalk::new(b"/t", &vec![]);
        lib.watch_recursively_with_exclude(&mut walk, WalkReply::Start);
        lib.watch_recursively_with_exclude(&mut walk, WalkReply::Opened(Ok(())));
        lib.watch_recursively_with_exclude(&mut walk, WalkReply::Entry(Some(b"a".to_vec())));
        lib.watch_recursively_with_exclude(&mut walk, WalkReply::Stated(Ok(S_IFDIR)));
        let ask = lib.watch_recursively_with_exclude(&mut walk, WalkReply::Opened(Err(error)));
        assert_eq!(matches!(ask, WalkAsk::Next), tolerated);
    }
}

#[test]
fn failures_of_subdirectories() {
    for (error, tolerated) in [(EACCES, true), (ENOENT, true), (ELOOP, true), (28, false)] {
        let mut lib = Inotifytools::new();
        let mut walk = TreeWalk::new(b"/t", &vec![]);
        lib.watch_recursively_with_exclude(&mut walk, WalkReply::Start);
        lib.watch_recursively_with_exclude(&mut walk, WalkReply::Opened(Ok(())));
        lib.watch_recursively_with_exclude(&mut walk, WalkReply::Entry(Some(b"a".to_vec())));
        match lib.watch_recursively_with_exclude(&mut walk, WalkReply::Stated(Ok(S_IFDIR))) {
            WalkAsk::Open(p) => assert_eq!(p, b"/t/a/"),
            _ => panic!(),
        }
        let ask = lib.watch_recursively_with_exclude(&mut walk, WalkReply::Opened(Err(error)));
        if tolerated {
            assert!(matches!(ask, WalkAsk::Next));
            assert_eq!(lib.error(), 0);
        } else {
            assert!(matches!(ask, WalkAsk::Finished(false)));
            assert_eq!(lib.error(), error);
        }
    }
}

#[test]
fn entries_that_cannot_be_examined() {
    let mut lib = Inotifytools::new();
    let mut walk = TreeWalk::new(b"/t", &vec![]);
    lib.watch_recursively_with_exclude(&mut walk, WalkReply::Start);
    lib.watch_recursively_with_exclude(&mut walk, WalkReply::Opened(Ok(())));
    lib.watch_recursively_with_exclude(&mut walk, WalkReply::Entry(Some(b"a".to_vec())));
    let ask = lib.watch_recursively_with_exclude(&mut walk, WalkReply::Stated(Err(EACCES)));
    assert!(matches!(ask, WalkAsk::Next));
    lib.watch_recursively_with_exclude(&mut walk, WalkReply::Entry(Some(b"b".to_vec())));
    let ask = lib.watch_recursively_with_exclude(&mut walk, WalkReply::Stated(Err(ENOENT)));
    assert!(matches!(ask, WalkAsk::Finished(false)));
    assert_eq!(lib.error(), ENOENT);
    // A top directory that cannot be opened.
    let mut walk = TreeWalk::new(b"/t", &vec![]);
    lib.watch_recursively_with_exclude(&mut walk, WalkReply::Start);
    let ask = lib.watch_recursively_with_exclude(&mut walk, WalkReply::Opened(Err(ENOENT)));
    assert!(matches!(ask, WalkAsk::Finished(false)));
    assert_eq!(lib.error(), ENOENT);
}
