//! What inotifywait and inotifywatch share.

use vstd::prelude::*;

use crate::buffer::Event;
use crate::buffer::EventState;
use crate::bytes;
use crate::bytes::Piece;
use crate::consts;
use crate::events;
use crate::inotify::printf;
use crate::inotify::reader;
use crate::inotify::reader::AskState;
use crate::inotify::reader::Reply;
use crate::inotify::Inotifytools;
use crate::inotify::LibState;
use crate::keymap;

verus! {

pub const BLOCKING_TIMEOUT: i64 = 0;

pub const EXIT_SUCCESS: i32 = 0;
pub const EXIT_FAILURE: i32 = 1;
pub const EXIT_TIMEOUT: i32 = 2;

/// Use extended regular expressions (`<regex.h>`).
pub const REG_EXTENDED: i32 = 1;
/// Match letters of either case (`<regex.h>`).
pub const REG_ICASE: i32 = 2;

pub const EVENT_DESCRIPTIONS: &'static str = "\
\taccess\t\tfile or directory contents were read\n\
\tmodify\t\tfile or directory contents were written\n\
\tattrib\t\tfile or directory attributes changed\n\
\tclose_write\tfile or directory closed, after being opened in\n\
\t           \twritable mode\n\
\tclose_nowrite\tfile or directory closed, after being opened in\n\
\t           \tread-only mode\n\
\tclose\t\tfile or directory closed, regardless of read/write mode\n\
\topen\t\tfile or directory opened\n\
\tmoved_to\tfile or directory moved to watched directory\n\
\tmoved_from\tfile or directory moved from watched directory\n\
\tmove\t\tfile or directory moved to or from watched directory\n\
\tmove_self\t\tA watched file or directory was moved.\n\
\tcreate\t\tfile or directory created within watched directory\n\
\tdelete\t\tfile or directory deleted within watched directory\n\
\tdelete_self\tfile or directory was deleted\n\
\tunmount\t\tfile system containing file or directory unmounted\n";

/// The text that describes the events.
pub fn print_event_descriptions() -> (text: Vec<u8>)
    ensures
        text@ == bytes::lit(EVENT_DESCRIPTIONS),
{
    bytes::text(EVENT_DESCRIPTIONS)
}

/// Files to watch and files to exclude (given as `@file`).
#[derive(Debug, Default)]
pub struct FileList {
    pub watch_files: Vec<Vec<u8>>,
    pub exclude_files: Vec<Vec<u8>>,
}

/// What a [`FileList`] holds.
#[verifier::ext_equal]
pub struct ListState {
    pub watch: Seq<Seq<u8>>,
    pub exclude: Seq<Seq<u8>>,
}

impl View for FileList {
    type V = ListState;

    open spec fn view(&self) -> ListState {
        ListState {
            watch: bytes::names(self.watch_files@),
            exclude: bytes::names(self.exclude_files@),
        }
    }
}

impl ListState {
    pub open spec fn empty() -> ListState {
        ListState { watch: Seq::empty(), exclude: Seq::empty() }
    }

    pub open spec fn watching(self, name: Seq<u8>) -> ListState {
        ListState { watch: self.watch.push(name), ..self }
    }

    pub open spec fn excluding(self, name: Seq<u8>) -> ListState {
        ListState { exclude: self.exclude.push(name), ..self }
    }

    /// The list with a command line argument added.
    pub open spec fn with_arg(self, name: Seq<u8>) -> ListState {
        if name.len() == 0 || name == seq!['@' as u8] {
            self
        } else if name[0] == '@' as u8 {
            self.excluding(name.skip(1))
        } else {
            self.watching(name)
        }
    }

    /// The list with a line of a file added: without its newline, and left
    /// out if it is a lone '@' at the end of the file.  An empty line is an
    /// empty name.
    pub open spec fn with_line(self, line: Seq<u8>) -> ListState {
        let raw = bytes::c_str(line);
        let name = if raw.len() > 0 && raw.last() == 10 {
            raw.drop_last()
        } else {
            raw
        };
        if raw.len() == 0 || raw == seq!['@' as u8] {
            self
        } else if name.len() > 0 && name[0] == '@' as u8 {
            self.excluding(name.skip(1))
        } else {
            self.watching(name)
        }
    }

    pub open spec fn with_args(self, args: Seq<Seq<u8>>) -> ListState
        decreases args.len(),
    {
        if args.len() == 0 {
            self
        } else {
            self.with_args(args.drop_last()).with_arg(args.last())
        }
    }

    pub open spec fn with_lines(self, lines: Seq<Seq<u8>>) -> ListState
        decreases lines.len(),
    {
        if lines.len() == 0 {
            self
        } else {
            self.with_lines(lines.drop_last()).with_line(lines.last())
        }
    }
}

/// What was read of the `--fromfile` file.
pub enum FromFile {
    /// It could not be opened.
    Unopened,
    /// Its lines, as `fgets()` gives them.
    Lines(Vec<Vec<u8>>),
}

/// The list of files for the given arguments and file.
pub open spec fn path_list(args: Seq<Seq<u8>>, fromfile: Option<FromFile>) -> Option<ListState> {
    match fromfile {
        None => Some(ListState::empty().with_args(args)),
        Some(FromFile::Unopened) => None,
        Some(FromFile::Lines(lines)) => Some(
            ListState::empty().with_lines(bytes::names(lines@)).with_args(args),
        ),
    }
}

fn tail(name: &[u8]) -> (t: Vec<u8>)
    requires
        name@.len() > 0,
    ensures
        t@ == name@.skip(1),
{
    let t = bytes::copy_range(name, 1, name.len());
    assert(t@ =~= name@.skip(1));
    t
}

impl FileList {
    pub fn new() -> (l: FileList)
        ensures
            l@ == ListState::empty(),
    {
        let l = FileList { watch_files: Vec::new(), exclude_files: Vec::new() };
        assert(l@ =~= ListState::empty());
        l
    }

    fn watch(&mut self, name: Vec<u8>)
        ensures
            final(self)@ == old(self)@.watching(name@),
    {
        self.watch_files.push(name);
        assert(self@.watch =~= old(self)@.watch.push(name@));
    }

    fn exclude(&mut self, name: Vec<u8>)
        ensures
            final(self)@ == old(self)@.excluding(name@),
    {
        self.exclude_files.push(name);
        assert(self@.exclude =~= old(self)@.exclude.push(name@));
    }

    fn add(&mut self, name: &[u8])
        ensures
            final(self)@ == old(self)@.with_arg(name@),
    {
        if name.len() == 0 || (name.len() == 1 && name[0] == '@' as u8) {
            assert(name@.len() == 0 || name@ =~= seq!['@' as u8]);
            return;
        }
        if name[0] == '@' as u8 {
            self.exclude(tail(name));
        } else {
            self.watch(bytes::to_vec(name));
        }
    }

    fn add_line(&mut self, line: &[u8])
        ensures
            final(self)@ == old(self)@.with_line(line@),
    {
        let raw = bytes::cstring(line);
        let n = raw.len();
        if n == 0 || (n == 1 && raw[0] == '@' as u8) {
            assert(raw@.len() == 0 || raw@ =~= seq!['@' as u8]);
            return;
        }
        let name = if raw[n - 1] == 10 {
            let cut = bytes::copy_range(raw.as_slice(), 0, n - 1);
            assert(cut@ =~= raw@.drop_last());
            cut
        } else {
            raw
        };
        if name.len() > 0 && name[0] == '@' as u8 {
            self.exclude(tail(name.as_slice()));
        } else {
            self.watch(name);
        }
    }
}

/// Build the list of files to watch from what was read of the `--fromfile`
/// file (if given) followed by the command line arguments.  Returns `None`
/// if the file could not be opened.
pub fn construct_path_list(args: &[Vec<u8>], fromfile: Option<FromFile>) -> (r: Option<FileList>)
    ensures
        match r {
            Some(list) => path_list(bytes::names(args@), fromfile) == Some(list@),
            None => path_list(bytes::names(args@), fromfile) is None,
        },
{
    let mut list = FileList::new();
    let ghost mut start = ListState::empty();
    if let Some(file) = &fromfile {
        match file {
            FromFile::Unopened => {
                return None;
            },
            FromFile::Lines(lines) => {
                let ghost all = bytes::names(lines@);
                assert(all.take(0) =~= Seq::empty());
                let mut i: usize = 0;
                while i < lines.len()
                    invariant
                        i <= lines@.len(),
                        all == bytes::names(lines@),
                        list@ == ListState::empty().with_lines(all.take(i as int)),
                    decreases lines@.len() - i,
                {
                    list.add_line(lines[i].as_slice());
                    i = i + 1;
                    assert(all.take(i as int).drop_last() =~= all.take(i - 1));
                    assert(all.take(i as int).last() == lines@[i - 1]@);
                }
                assert(all.take(i as int) =~= all);
                proof {
                    start = ListState::empty().with_lines(all);
                }
            },
        }
    }
    let ghost all = bytes::names(args@);
    assert(all.take(0) =~= Seq::empty());
    let mut i: usize = 0;
    while i < args.len()
        invariant
            i <= args@.len(),
            all == bytes::names(args@),
            list@ == start.with_args(all.take(i as int)),
        decreases args@.len() - i,
    {
        list.add(args[i].as_slice());
        i = i + 1;
        assert(all.take(i as int).drop_last() =~= all.take(i - 1));
        assert(all.take(i as int).last() == args@[i - 1]@);
    }
    assert(all.take(i as int) =~= all);
    Some(list)
}

/// Whether `--fromfile` means standard input.
pub fn is_stdin(filename: &[u8]) -> (yes: bool)
    ensures
        yes == (filename@ == seq!['-' as u8]),
{
    let yes = filename.len() == 1 && filename[0] == '-' as u8;
    proof {
        if yes {
            assert(filename@ =~= seq!['-' as u8]);
        }
    }
    yes
}

/// What to say when the `--fromfile` file cannot be opened.
pub fn fromfile_failure(filename: &[u8], why: &[u8]) -> (msg: Vec<u8>)
    ensures
        msg@ == bytes::lit("Couldn't open ") + filename@ + bytes::lit(": ") + why@ + bytes::lit(
            "\n",
        ),
{
    let mut msg = bytes::text("Couldn't open ");
    filename.put(&mut msg);
    ": ".put(&mut msg);
    why.put(&mut msg);
    "\n".put(&mut msg);
    msg
}

/// What to say when the event group cannot be set up.
pub open spec fn init_error(error: i32, fanotify: bool, why: Seq<u8>) -> Seq<u8> {
    let backend = if fanotify {
        bytes::lit("fanotify")
    } else {
        bytes::lit("inotify")
    };
    let resource = if fanotify {
        bytes::lit("groups")
    } else {
        bytes::lit("instances")
    };
    let first = bytes::lit("Couldn't initialize ") + backend + bytes::lit(": ") + why + bytes::lit(
        "\n",
    );
    if error == consts::EMFILE {
        first + bytes::lit("Try increasing the value of /proc/sys/fs/") + backend + bytes::lit(
            "/max_user_",
        ) + resource + bytes::lit("\n")
    } else if fanotify && error == consts::EINVAL {
        first + bytes::lit(
            "fanotify support for reporting the events with file names was added in kernel v5.9.\n",
        )
    } else if fanotify && error == consts::EPERM {
        first + bytes::lit("fanotify watch requires admin privileges\n")
    } else {
        first
    }
}

/// What to say when the event group cannot be set up: the error, and what
/// might help.
pub fn warn_inotify_init_error(error: i32, fanotify: bool, why: &[u8]) -> (msg: Vec<u8>)
    ensures
        msg@ == init_error(error, fanotify, why@),
{
    let backend = if fanotify {
        "fanotify"
    } else {
        "inotify"
    };
    let resource = if fanotify {
        "groups"
    } else {
        "instances"
    };
    let mut msg = bytes::text("Couldn't initialize ");
    backend.put(&mut msg);
    ": ".put(&mut msg);
    why.put(&mut msg);
    "\n".put(&mut msg);
    if error == consts::EMFILE {
        "Try increasing the value of /proc/sys/fs/".put(&mut msg);
        backend.put(&mut msg);
        "/max_user_".put(&mut msg);
        resource.put(&mut msg);
        "\n".put(&mut msg);
    } else if fanotify && error == consts::EINVAL {
        "fanotify support for reporting the events with file names was added in kernel v5.9.\n".put(
            &mut msg,
        );
    } else if fanotify && error == consts::EPERM {
        "fanotify watch requires admin privileges\n".put(&mut msg);
    }
    msg
}

/// What `strtol()` made of a text.
pub struct Parsed {
    pub value: i64,
    /// The error, or 0, and what it is called.
    pub errno: i32,
    pub why: Vec<u8>,
    /// Number of bytes that belong to the number.
    pub consumed: usize,
}

/// What is wrong with a `--timeout` value.
pub open spec fn timeout_error(o: Option<Seq<u8>>, parsed: Parsed) -> Option<Seq<u8>> {
    match o {
        Some(text) if text.len() > 0 => if parsed.errno != 0 {
            Some(
                bytes::lit("Something went wrong with the timeout value you provided.\n")
                    + parsed.why@ + bytes::lit("\n"),
            )
        } else if parsed.consumed != text.len() {
            Some(
                bytes::lit("'") + text + bytes::lit("' is not a valid timeout value.\n")
                    + bytes::lit("Please specify a long int value.\n"),
            )
        } else {
            None
        },
        _ => Some(
            bytes::lit("The provided value is not a valid timeout value.\n") + bytes::lit(
                "Please specify a long int value.\n",
            ),
        ),
    }
}

/// Take a `--timeout` value, given what `strtol()` made of it.  Returns what
/// is wrong with it.
pub fn is_timeout_option_valid(timeout: &mut i64, o: Option<&[u8]>, parsed: &Parsed) -> (r: Result<
    (),
    Vec<u8>,
>)
    ensures
        match r {
            Ok(_) => timeout_error(printf::opt_slice(o), *parsed) is None,
            Err(msg) => timeout_error(printf::opt_slice(o), *parsed) == Some(msg@),
        },
        *final(timeout) == match o {
            Some(text) if text@.len() > 0 => parsed.value,
            _ => *old(timeout),
        },
{
    let text = match o {
        Some(text) => text,
        None => {
            let mut msg = bytes::text("The provided value is not a valid timeout value.\n");
            "Please specify a long int value.\n".put(&mut msg);
            return Err(msg);
        },
    };
    if text.len() == 0 {
        let mut msg = bytes::text("The provided value is not a valid timeout value.\n");
        "Please specify a long int value.\n".put(&mut msg);
        return Err(msg);
    }
    *timeout = parsed.value;
    if parsed.errno != 0 {
        let mut msg = bytes::text("Something went wrong with the timeout value you provided.\n");
        parsed.why.put(&mut msg);
        "\n".put(&mut msg);
        return Err(msg);
    }
    if parsed.consumed != text.len() {
        let mut msg = bytes::text("'");
        text.put(&mut msg);
        "' is not a valid timeout value.\n".put(&mut msg);
        "Please specify a long int value.\n".put(&mut msg);
        return Err(msg);
    }
    Ok(())
}

/// A path without the slashes at its end, but for a first one.
pub open spec fn trimmed(path: Seq<u8>) -> Seq<u8>
    decreases path.len(),
{
    if path.len() > 1 && path.last() == '/' as u8 {
        trimmed(path.drop_last())
    } else {
        path
    }
}

/// The last component of a path.
pub open spec fn basename_of(path: Seq<u8>) -> Seq<u8> {
    let t = trimmed(path);
    if path.len() == 0 {
        seq!['.' as u8]
    } else if t == seq!['/' as u8] {
        t
    } else {
        t.skip(bytes::last_at(t, '/' as u8) + 1)
    }
}

/// POSIX `basename()` (as from `<libgen.h>`).
pub fn basename(path: &[u8]) -> (name: Vec<u8>)
    ensures
        name@ == basename_of(path@),
{
    if path.len() == 0 {
        let name = bytes::text(".");
        proof {
            reveal_strlit(".");
            bytes::lemma_lit(".");
        }
        assert(name@ =~= seq!['.' as u8]);
        return name;
    }
    let mut end: usize = path.len();
    assert(path@.take(end as int) =~= path@);
    while end > 1 && path[end - 1] == '/' as u8
        invariant
            1 <= end <= path@.len(),
            trimmed(path@.take(end as int)) == trimmed(path@),
        decreases end,
    {
        assert(path@.take(end as int).drop_last() =~= path@.take(end - 1));
        end = end - 1;
    }
    let t = bytes::copy_range(path, 0, end);
    assert(t@ =~= path@.take(end as int));
    assert(t@ == trimmed(path@));
    if end == 1 && t[0] == '/' as u8 {
        assert(t@ =~= seq!['/' as u8]);
        return t;
    }
    match bytes::rfind_byte(t.as_slice(), '/' as u8) {
        Some(i) => {
            let name = bytes::copy_range(t.as_slice(), i + 1, end);
            assert(name@ =~= t@.skip(i + 1));
            name
        },
        None => {
            assert(t@.skip(0) =~= t@);
            t
        },
    }
}

/// Whether the program was invoked as one of the fsnotify* names.
pub fn invoked_as_fsnotify(argv0: Option<&[u8]>) -> (yes: bool)
    ensures
        yes == match argv0 {
            Some(a) => bytes::starts_with(basename_of(a@), bytes::lit("fsnotify")),
            None => false,
        },
{
    match argv0 {
        Some(a) => {
            let name = basename(a);
            let prefix = bytes::text("fsnotify");
            bytes::has_prefix(name.as_slice(), prefix.as_slice())
        },
        None => false,
    }
}

/// Slashes at the end of a path do not matter, and neither does what stands
/// before its last component.
pub proof fn law_basename_is_last_component(dir: Seq<u8>, name: Seq<u8>)
    requires
        name.len() > 0,
        !name.contains('/' as u8),
    ensures
        basename_of(name) == name,
        basename_of(dir + seq!['/' as u8] + name) == name,
        basename_of(dir + seq!['/' as u8] + name + seq!['/' as u8]) == name,
{
    let slash = '/' as u8;
    let whole = dir + seq![slash] + name;
    assert forall|i: int| 0 <= i < name.len() implies name[i] != slash by {
        if name[i] == slash {
            assert(name.contains(slash));
        }
    }
    assert(name.last() != slash);
    bytes::lemma_last_at_unique(name, slash, -1);
    assert(name.skip(0) =~= name);
    assert(whole.last() == name.last());
    assert(trimmed(whole) == whole);
    assert(whole[dir.len() as int] == slash);
    assert forall|i: int| dir.len() < i < whole.len() implies whole[i] != slash by {
        assert(whole[i] == name[i - dir.len() - 1]);
    }
    bytes::lemma_last_at_unique(whole, slash, dir.len() as int);
    assert(whole.skip(dir.len() as int + 1) =~= name);
    assert(whole.len() > 1);
    assert(whole != seq![slash]);
    let more = whole + seq![slash];
    assert(more.drop_last() =~= whole);
    assert(trimmed(more) == trimmed(whole));
    assert(name != seq![slash]) by {
        assert(name[0] != slash);
    }
}

/// The `--exclude`, `--excludei`, `--include` and `--includei` options.
#[derive(Default)]
pub struct Filters {
    pub exc: Option<Vec<u8>>,
    pub exci: Option<Vec<u8>>,
    pub inc: Option<Vec<u8>>,
    pub inci: Option<Vec<u8>>,
}

/// What [`Filters`] hold.
#[verifier::ext_equal]
pub struct FiltersState {
    pub exc: Option<Seq<u8>>,
    pub exci: Option<Seq<u8>>,
    pub inc: Option<Seq<u8>>,
    pub inci: Option<Seq<u8>>,
}

impl View for Filters {
    type V = FiltersState;

    open spec fn view(&self) -> FiltersState {
        FiltersState {
            exc: bytes::opt_bytes(self.exc),
            exci: bytes::opt_bytes(self.exci),
            inc: bytes::opt_bytes(self.inc),
            inci: bytes::opt_bytes(self.inci),
        }
    }
}

/// A regular expression to filter by.
pub struct Pattern {
    pub text: Vec<u8>,
    pub flags: i32,
    /// Events that do not match are ignored, rather than those that do.
    pub inverted: bool,
}

/// What a [`Pattern`] holds.
#[verifier::ext_equal]
pub struct PatternState {
    pub text: Seq<u8>,
    pub flags: i32,
    pub inverted: bool,
}

impl View for Pattern {
    type V = PatternState;

    open spec fn view(&self) -> PatternState {
        PatternState { text: self.text@, flags: self.flags, inverted: self.inverted }
    }
}

/// A pattern, if there is one, at the end of a list.
pub open spec fn with_pattern(
    list: Seq<PatternState>,
    text: Option<Seq<u8>>,
    flags: i32,
    inverted: bool,
) -> Seq<PatternState> {
    match text {
        Some(t) => list.push(PatternState { text: t, flags, inverted }),
        None => list,
    }
}

impl FiltersState {
    pub open spec fn none() -> FiltersState {
        FiltersState { exc: None, exci: None, inc: None, inci: None }
    }

    pub open spec fn has_include(self) -> bool {
        self.inc is Some || self.inci is Some
    }

    /// What is wrong with the options.
    pub open spec fn conflict(self) -> Option<Seq<u8>> {
        if self.exc is Some && self.exci is Some {
            Some(bytes::lit("--exclude and --excludei cannot both be specified.\n"))
        } else if self.inc is Some && self.inci is Some {
            Some(bytes::lit("--include and --includei cannot both be specified.\n"))
        } else if self.has_include() && (self.exc is Some || self.exci is Some) {
            Some(bytes::lit("include and exclude regexp cannot both be specified.\n"))
        } else {
            None
        }
    }

    /// The patterns in the order in which they are installed.
    pub open spec fn patterns(self) -> Seq<PatternState> {
        let icase = REG_EXTENDED | REG_ICASE;
        let a = with_pattern(Seq::empty(), self.exc, REG_EXTENDED, false);
        let b = with_pattern(a, self.exci, icase, false);
        let c = with_pattern(b, self.inc, REG_EXTENDED, true);
        with_pattern(c, self.inci, icase, true)
    }
}

/// Whether the pattern with number `i` could be compiled.
pub open spec fn is_compiled(compiled: Seq<bool>, i: int) -> bool {
    0 <= i < compiled.len() && compiled[i]
}

/// The handle after the patterns from number `i` on were installed, up to
/// the first that could not be compiled.
pub open spec fn installed(
    lib: LibState,
    patterns: Seq<PatternState>,
    recursive: i32,
    compiled: Seq<bool>,
    i: int,
) -> LibState
    decreases patterns.len() - i,
{
    if i < 0 || i >= patterns.len() {
        lib
    } else {
        let next = lib.filtered(true, patterns[i].inverted, recursive, is_compiled(compiled, i));
        if is_compiled(compiled, i) {
            installed(next, patterns, recursive, compiled, i + 1)
        } else {
            next
        }
    }
}

/// What is said of the first pattern from number `i` on that could not be
/// compiled.
pub open spec fn install_error(
    patterns: Seq<PatternState>,
    compiled: Seq<bool>,
    i: int,
) -> Option<Seq<u8>>
    decreases patterns.len() - i,
{
    if i < 0 || i >= patterns.len() {
        None
    } else if is_compiled(compiled, i) {
        install_error(patterns, compiled, i + 1)
    } else if patterns[i].inverted {
        Some(bytes::lit("Error in `include' regular expression.\n"))
    } else {
        Some(bytes::lit("Error in `exclude' regular expression.\n"))
    }
}

/// The contents of a list of patterns.
pub open spec fn pattern_list(v: Seq<Pattern>) -> Seq<PatternState> {
    v.map_values(|p: Pattern| p@)
}

fn push_pattern(list: &mut Vec<Pattern>, text: &Option<Vec<u8>>, flags: i32, inverted: bool)
    ensures
        pattern_list(final(list)@) == with_pattern(
            pattern_list(old(list)@),
            bytes::opt_bytes(*text),
            flags,
            inverted,
        ),
{
    if let Some(t) = text {
        list.push(Pattern { text: bytes::to_vec(t.as_slice()), flags, inverted });
    }
    assert(pattern_list(list@) =~= with_pattern(
        pattern_list(old(list)@),
        bytes::opt_bytes(*text),
        flags,
        inverted,
    ));
}

impl Filters {
    pub fn new() -> (f: Filters)
        ensures
            f@ == FiltersState::none(),
    {
        Filters { exc: None, exci: None, inc: None, inci: None }
    }

    pub fn has_include(&self) -> (yes: bool)
        ensures
            yes == self@.has_include(),
    {
        self.inc.is_some() || self.inci.is_some()
    }

    /// Reject conflicting options (with a message).
    pub fn validate(&self) -> (r: Result<(), Vec<u8>>)
        ensures
            match r {
                Ok(_) => self@.conflict() is None,
                Err(msg) => self@.conflict() == Some(msg@),
            },
    {
        if self.exc.is_some() && self.exci.is_some() {
            Err(bytes::text("--exclude and --excludei cannot both be specified.\n"))
        } else if self.inc.is_some() && self.inci.is_some() {
            Err(bytes::text("--include and --includei cannot both be specified.\n"))
        } else if self.has_include() && (self.exc.is_some() || self.exci.is_some()) {
            Err(bytes::text("include and exclude regexp cannot both be specified.\n"))
        } else {
            Ok(())
        }
    }

    /// The patterns to compile for [`Filters::install`].
    pub fn patterns(&self) -> (list: Vec<Pattern>)
        ensures
            pattern_list(list@) == self@.patterns(),
    {
        let icase: i32 = REG_EXTENDED | REG_ICASE;
        let mut list: Vec<Pattern> = Vec::new();
        assert(pattern_list(list@) =~= Seq::empty());
        push_pattern(&mut list, &self.exc, REG_EXTENDED, false);
        push_pattern(&mut list, &self.exci, icase, false);
        push_pattern(&mut list, &self.inc, REG_EXTENDED, true);
        push_pattern(&mut list, &self.inci, icase, true);
        list
    }

    /// Install the filters, given which of [`Filters::patterns`] could be
    /// compiled; a message on an invalid regex.
    pub fn install(&self, lib: &mut Inotifytools, recursive: i32, compiled: &[bool]) -> (r: Result<
        (),
        Vec<u8>,
    >)
        requires
            old(lib).wf(),
        ensures
            final(lib).wf(),
            final(lib)@ == installed(
                old(lib)@,
                self@.patterns(),
                recursive,
                compiled@,
                0,
            ),
            match r {
                Ok(_) => install_error(self@.patterns(), compiled@, 0) is None,
                Err(msg) => install_error(self@.patterns(), compiled@, 0) == Some(msg@),
            },
    {
        let list = self.patterns();
        let ghost all = self@.patterns();
        let mut i: usize = 0;
        while i < list.len()
            invariant
                i <= list@.len(),
                lib.wf(),
                all == self@.patterns(),
                all == pattern_list(list@),
                installed(lib@, all, recursive, compiled@, i as int) == installed(
                    old(lib)@,
                    all,
                    recursive,
                    compiled@,
                    0,
                ),
                install_error(all, compiled@, i as int) == install_error(all, compiled@, 0),
            decreases list@.len() - i,
        {
            let ok = i < compiled.len() && compiled[i];
            assert(all[i as int] == list@[i as int]@);
            let text = Some(list[i].text.as_slice());
            if list[i].inverted {
                if !lib.ignore_events_by_inverted_regex(text, recursive, ok) {
                    return Err(bytes::text("Error in `include' regular expression.\n"));
                }
            } else if !lib.ignore_events_by_regex(text, recursive, ok) {
                return Err(bytes::text("Error in `exclude' regular expression.\n"));
            }
            i = i + 1;
        }
        Ok(())
    }
}

/// Options that do not conflict ask for one pattern at most.
pub proof fn law_valid_filters_have_one_pattern(f: FiltersState)
    requires
        f.conflict() is None,
    ensures
        f.patterns().len() <= 1,
{
}

/// Parse an `--event` argument; a message if it is invalid.
pub fn parse_event(optarg: Option<&[u8]>) -> (r: Result<i32, Vec<u8>>)
    ensures
        ({
            let text = match optarg {
                Some(a) => a@,
                None => Seq::empty(),
            };
            let event = events::events_of(Some(text), ',' as u8);
            match r {
                Ok(e) => event != -1 && e == event,
                Err(msg) => event == -1 && msg@ == bytes::lit("'") + text + bytes::lit(
                    "' is not a valid event!  Run with the '--help' option to see a list of events.\n",
                ),
            }
        }),
{
    let text = match optarg {
        Some(a) => bytes::to_vec(a),
        None => Vec::new(),
    };
    let event = events::str_to_event(Some(text.as_slice()));
    if event == -1 {
        let mut msg = bytes::text("'");
        text.put(&mut msg);
        "' is not a valid event!  Run with the '--help' option to see a list of events.\n".put(
            &mut msg,
        );
        return Err(msg);
    }
    Ok(event)
}

/// The tool name shown by `--help`.
pub fn help_name(argv0: Option<&[u8]>, argc: i32) -> (name: Vec<u8>)
    ensures
        name@ == match argv0 {
            Some(a) if argc > 0 => basename_of(a@),
            _ => bytes::lit("<executable>"),
        },
{
    match argv0 {
        Some(a) => {
            if argc > 0 {
                basename(a)
            } else {
                bytes::text("<executable>")
            }
        },
        None => bytes::text("<executable>"),
    }
}

/// How the files of a list are watched.
#[derive(Clone, Copy, Debug, PartialEq, Eq, Structural)]
pub enum WatchKind {
    /// One by one.
    Files,
    /// One directory tree after the other.
    Trees,
    /// The filesystems of all files together.
    Filesystem,
}

/// What to do next to have a list of files watched.
pub enum ListAsk {
    /// Watch file number `i` of the list.
    File(usize),
    /// Watch the tree at file number `i` of the list.
    Tree(usize),
    /// Watch the filesystems of all files of the list.
    All,
    /// All files are watched.
    Done,
    /// File number `i` could not be watched.
    Failed(usize),
}

/// What to do next with a list of `n` files at file `i`, having watched all
/// before it.
pub open spec fn list_ask(kind: WatchKind, n: int, i: int) -> ListAsk {
    if i >= n {
        ListAsk::Done
    } else {
        match kind {
            WatchKind::Files => ListAsk::File(i as usize),
            WatchKind::Trees => ListAsk::Tree(i as usize),
            WatchKind::Filesystem => ListAsk::All,
        }
    }
}

/// What to do next once file `i` was watched or not.
pub open spec fn list_after(kind: WatchKind, n: int, i: int, ok: bool) -> ListAsk {
    if !ok {
        ListAsk::Failed(i as usize)
    } else if kind == WatchKind::Filesystem {
        ListAsk::Done
    } else {
        list_ask(kind, n, i + 1)
    }
}

/// How the files of a list are watched.
pub open spec fn kind_of(recursive: bool, filesystem: bool) -> WatchKind {
    if filesystem {
        WatchKind::Filesystem
    } else if recursive {
        WatchKind::Trees
    } else {
        WatchKind::Files
    }
}

/// How the files of a list are watched.
pub fn watch_kind(recursive: bool, filesystem: bool) -> (kind: WatchKind)
    ensures
        kind == kind_of(recursive, filesystem),
{
    if filesystem {
        WatchKind::Filesystem
    } else if recursive {
        WatchKind::Trees
    } else {
        WatchKind::Files
    }
}

/// Set up the watches for a list of `n` files: what to do next, given
/// whether file number `watched.0` came to be watched, if one was tried.
pub fn watch_list(kind: WatchKind, n: usize, watched: Option<(usize, bool)>) -> (ask: ListAsk)
    requires
        watched matches Some(w) ==> w.0 < n,
    ensures
        ask == match watched {
            None => list_ask(kind, n as int, 0),
            Some(w) => list_after(kind, n as int, w.0 as int, w.1),
        },
{
    let i: usize = match watched {
        None => 0,
        Some(w) => {
            if !w.1 {
                return ListAsk::Failed(w.0);
            }
            if kind == WatchKind::Filesystem {
                return ListAsk::Done;
            }
            w.0 + 1
        },
    };
    if i >= n {
        return ListAsk::Done;
    }
    match kind {
        WatchKind::Files => ListAsk::File(i),
        WatchKind::Trees => ListAsk::Tree(i),
        WatchKind::Filesystem => ListAsk::All,
    }
}

/// What to say when a file cannot be watched.
pub open spec fn watch_error(
    kind: WatchKind,
    file: Seq<u8>,
    error: i32,
    fanotify: bool,
    fail_verb: Seq<u8>,
    why: Seq<u8>,
) -> Seq<Seq<u8>> {
    let backend = if fanotify {
        bytes::lit("fanotify")
    } else {
        bytes::lit("inotify")
    };
    let resource = if fanotify {
        bytes::lit("marks")
    } else {
        bytes::lit("watches")
    };
    if kind == WatchKind::Filesystem {
        seq![
            bytes::lit("Couldn't add filesystem watch ") + file + bytes::lit(": ") + why
                + bytes::lit("\n"),
        ]
    } else if error == consts::ENOSPC {
        seq![
            bytes::lit("Failed to watch ") + file + bytes::lit("; upper limit on ") + backend
                + bytes::lit(" ") + resource + bytes::lit(" reached!\n"),
            bytes::lit("Please increase the amount of ") + backend + bytes::lit(" ") + resource
                + bytes::lit(" allowed per user via `/proc/sys/fs/") + backend + bytes::lit(
                "/max_user_",
            ) + resource + bytes::lit("'.\n"),
        ]
    } else {
        seq![fail_verb + file + bytes::lit(": ") + why + bytes::lit("\n")]
    }
}

/// What to say when a file cannot be watched, message by message.
pub fn watch_failure(
    kind: WatchKind,
    file: &[u8],
    error: i32,
    fanotify: bool,
    fail_verb: &str,
    why: &[u8],
) -> (msgs: Vec<Vec<u8>>)
    ensures
        bytes::names(msgs@) == watch_error(
            kind,
            file@,
            error,
            fanotify,
            bytes::lit(fail_verb),
            why@,
        ),
{
    let backend = if fanotify {
        "fanotify"
    } else {
        "inotify"
    };
    let resource = if fanotify {
        "marks"
    } else {
        "watches"
    };
    let mut msgs: Vec<Vec<u8>> = Vec::new();
    if kind == WatchKind::Filesystem {
        let mut msg = bytes::text("Couldn't add filesystem watch ");
        file.put(&mut msg);
        ": ".put(&mut msg);
        why.put(&mut msg);
        "\n".put(&mut msg);
        msgs.push(msg);
    } else if error == consts::ENOSPC {
        let mut msg = bytes::text("Failed to watch ");
        file.put(&mut msg);
        "; upper limit on ".put(&mut msg);
        backend.put(&mut msg);
        " ".put(&mut msg);
        resource.put(&mut msg);
        " reached!\n".put(&mut msg);
        msgs.push(msg);
        let mut more = bytes::text("Please increase the amount of ");
        backend.put(&mut more);
        " ".put(&mut more);
        resource.put(&mut more);
        " allowed per user via `/proc/sys/fs/".put(&mut more);
        backend.put(&mut more);
        "/max_user_".put(&mut more);
        resource.put(&mut more);
        "'.\n".put(&mut more);
        msgs.push(more);
    } else {
        let mut msg = bytes::text(fail_verb);
        file.put(&mut msg);
        ": ".put(&mut msg);
        why.put(&mut msg);
        "\n".put(&mut msg);
        msgs.push(msg);
    }
    assert(bytes::names(msgs@) =~= watch_error(
        kind,
        file@,
        error,
        fanotify,
        bytes::lit(fail_verb),
        why@,
    ));
    msgs
}

/// Follows directory creation and moves to keep recursive watches current.
#[derive(Default)]
pub struct MoveTracker {
    moved_from: Option<Vec<u8>>,
}

/// What to do next after an event.
pub enum MoveAsk {
    Nothing,
    /// If this is a directory, watch it recursively.
    NewDirectory(Vec<u8>),
}

/// The directory that appeared, if any.
pub open spec fn new_directory(ask: MoveAsk) -> Option<Seq<u8>> {
    match ask {
        MoveAsk::Nothing => None,
        MoveAsk::NewDirectory(path) => Some(path@),
    }
}

/// The event has a flag.
pub open spec fn tells(ev: EventState, flag: i32) -> bool {
    ev.mask as i32 & flag != 0
}

impl View for MoveTracker {
    type V = Option<Seq<u8>>;

    closed spec fn view(&self) -> Option<Seq<u8>> {
        bytes::opt_bytes(self.moved_from)
    }
}

/// The directory that left the tree: it was moved from its place, and the
/// event tells of no new place.
pub open spec fn left_tree(moved_from: Option<Seq<u8>>, ev: EventState) -> Option<Seq<u8>> {
    if tells(ev, consts::IN_MOVED_TO) {
        None
    } else {
        moved_from
    }
}

/// The directory that is being moved once one that left the tree was
/// unwatched.
pub open spec fn still_moving(moved_from: Option<Seq<u8>>, ev: EventState) -> Option<Seq<u8>> {
    if left_tree(moved_from, ev) is Some {
        None
    } else {
        moved_from
    }
}

/// Something appeared: it was created, or moved here from elsewhere.
pub open spec fn appeared(moved_from: Option<Seq<u8>>, ev: EventState) -> bool {
    tells(ev, consts::IN_CREATE) || (moved_from is None && tells(ev, consts::IN_MOVED_TO))
}

impl LibState {
    /// The directory path of an event on a directory.
    pub open spec fn dirpath(self, ev: EventState, resolved: Option<Seq<u8>>) -> Option<Seq<u8>> {
        self.dirpath_of(ev.wd, ev.mask, ev.name, resolved)
    }
}

/// The directory that appeared with an event.
pub open spec fn appearing(
    moved_from: Option<Seq<u8>>,
    lib: LibState,
    ev: EventState,
    resolved: Option<Seq<u8>>,
) -> Option<Seq<u8>> {
    if appeared(moved_from, ev) {
        lib.dirpath(ev, resolved)
    } else {
        None
    }
}

/// The directory that is being moved after an event.
pub open spec fn moving_after(
    moved_from: Option<Seq<u8>>,
    lib: LibState,
    ev: EventState,
    resolved: Option<Seq<u8>>,
) -> Option<Seq<u8>> {
    if appeared(moved_from, ev) {
        moved_from
    } else if tells(ev, consts::IN_MOVED_FROM) {
        match lib.dirpath(ev, resolved) {
            Some(path) if lib.wd_of_name(path) != -1 => Some(path),
            _ => None,
        }
    } else if tells(ev, consts::IN_MOVED_TO) {
        None
    } else {
        moved_from
    }
}

/// The handle after an event: the watches below a directory that was moved
/// within the tree have new names.
pub open spec fn followed(
    moved_from: Option<Seq<u8>>,
    lib: LibState,
    ev: EventState,
    resolved: Option<Seq<u8>>,
) -> LibState {
    match moved_from {
        Some(from) if !appeared(moved_from, ev) && !tells(ev, consts::IN_MOVED_FROM) && tells(
            ev,
            consts::IN_MOVED_TO,
        ) => {
            let to = match lib.dirpath(ev, resolved) {
                Some(path) => path,
                None => Seq::empty(),
            };
            lib.replaced(from, to)
        },
        _ => lib,
    }
}

impl MoveTracker {
    pub fn new() -> (t: MoveTracker)
        ensures
            t@ is None,
    {
        MoveTracker { moved_from: None }
    }

    /// The directory that left the tree with an event, to be unwatched.
    pub fn unwatch(&mut self, event: &Event) -> (dir: Option<Vec<u8>>)
        ensures
            bytes::opt_bytes(dir) == left_tree(old(self)@, event@),
            final(self)@ == still_moving(old(self)@, event@),
    {
        // MOVED_FROM not followed by MOVED_TO: it left the tree, unwatch it.
        if event.mask as i32 & consts::IN_MOVED_TO == 0 {
            let mut dir: Option<Vec<u8>> = None;
            std::mem::swap(&mut dir, &mut self.moved_from);
            dir
        } else {
            None
        }
    }

    /// Handle an event on a recursively watched tree, once a directory that
    /// left the tree was unwatched.
    pub fn handle(&mut self, lib: &mut Inotifytools, event: &Event, resolved: Option<Vec<u8>>) -> (ask:
        MoveAsk)
        requires
            old(lib).wf(),
        ensures
            final(lib).wf(),
            final(self)@ == moving_after(old(self)@, old(lib)@, event@, bytes::opt_bytes(resolved)),
            final(lib)@ == followed(old(self)@, old(lib)@, event@, bytes::opt_bytes(resolved)),
            new_directory(ask) == appearing(old(self)@, old(lib)@, event@, bytes::opt_bytes(resolved)),
    {
        let mask = event.mask as i32;
        if mask & consts::IN_CREATE != 0 || (self.moved_from.is_none() && mask & consts::IN_MOVED_TO
            != 0) {
            // New file - if it is a directory, watch it
            match lib.dirpath_from_event(event, resolved) {
                Some(path) => MoveAsk::NewDirectory(path),
                None => MoveAsk::Nothing,
            }
        } else if mask & consts::IN_MOVED_FROM != 0 {
            self.moved_from = match lib.dirpath_from_event(event, resolved) {
                Some(path) => {
                    // if not watched...
                    if lib.wd_from_filename(path.as_slice()) == -1 {
                        None
                    } else {
                        Some(path)
                    }
                },
                None => None,
            };
            MoveAsk::Nothing
        } else {
            if mask & consts::IN_MOVED_TO != 0 {
                let mut from: Option<Vec<u8>> = None;
                std::mem::swap(&mut from, &mut self.moved_from);
                if let Some(mf) = from {
                    let new_name = match lib.dirpath_from_event(event, resolved) {
                        Some(path) => path,
                        None => Vec::new(),
                    };
                    lib.replace_filename(mf.as_slice(), new_name.as_slice());
                }
            }
            MoveAsk::Nothing
        }
    }
}

/// What to say when a directory that left the tree cannot be unwatched.
pub fn unwatch_failure(dir: &[u8], why: &[u8]) -> (msg: Vec<u8>)
    ensures
        msg@ == bytes::lit("Error removing watch on ") + dir@ + bytes::lit(": ") + why@
            + bytes::lit("\n"),
{
    let mut msg = bytes::text("Error removing watch on ");
    dir.put(&mut msg);
    ": ".put(&mut msg);
    why.put(&mut msg);
    "\n".put(&mut msg);
    msg
}

/// What to say of a new directory.
pub fn new_directory_message(dir: &[u8]) -> (msg: Vec<u8>)
    ensures
        msg@ == bytes::lit("Watching new directory ") + dir@ + bytes::lit("\n"),
{
    let mut msg = bytes::text("Watching new directory ");
    dir.put(&mut msg);
    "\n".put(&mut msg);
    msg
}

/// What to say when a new directory cannot be watched.
pub fn new_directory_failure(dir: &[u8], why: &[u8]) -> (msg: Vec<u8>)
    ensures
        msg@ == bytes::lit("Couldn't watch new directory ") + dir@ + bytes::lit(": ") + why@
            + bytes::lit("\n"),
{
    let mut msg = bytes::text("Couldn't watch new directory ");
    dir.put(&mut msg);
    ": ".put(&mut msg);
    why.put(&mut msg);
    "\n".put(&mut msg);
    msg
}

/// A watched directory that is moved within the tree, as the two events of
/// the move tell, gives its new name to all watches below it, and the move
/// is over.
pub proof fn law_move_within_tree_renames(
    lib: LibState,
    from: EventState,
    to: EventState,
    old_path: Seq<u8>,
    new_path: Seq<u8>,
)
    requires
        tells(from, consts::IN_MOVED_FROM),
        !tells(from, consts::IN_CREATE),
        !tells(from, consts::IN_MOVED_TO),
        lib.dirpath(from, None) == Some(old_path),
        lib.wd_of_name(old_path) != -1,
        tells(to, consts::IN_MOVED_TO),
        !tells(to, consts::IN_CREATE),
        !tells(to, consts::IN_MOVED_FROM),
        lib.dirpath(to, None) == Some(new_path),
        new_path.len() > 0,
    ensures
        ({
            let moving = moving_after(None, lib, from, None);
            &&& followed(None, lib, from, None) == lib
            &&& moving == Some(old_path)
            &&& left_tree(moving, to) is None
            &&& moving_after(moving, lib, to, None) is None
            &&& followed(moving, lib, to, None) == (LibState {
                table: lib.table.replaced(
                    keymap::ids_in_order(lib.table.by_filename),
                    old_path,
                    new_path,
                ),
                ..lib
            })
        }),
{
    assert(old_path.len() > 0);
}

/// A watched directory that is moved, and of which the next event tells no
/// new place, left the tree and is unwatched.
pub proof fn law_move_out_of_tree_unwatches(
    lib: LibState,
    from: EventState,
    next: EventState,
    path: Seq<u8>,
)
    requires
        tells(from, consts::IN_MOVED_FROM),
        !tells(from, consts::IN_CREATE),
        !tells(from, consts::IN_MOVED_TO),
        lib.dirpath(from, None) == Some(path),
        lib.wd_of_name(path) != -1,
        !tells(next, consts::IN_MOVED_TO),
    ensures
        left_tree(moving_after(None, lib, from, None), next) == Some(path),
{
}

proof fn lemma_args_behind(s: ListState, args: Seq<Seq<u8>>)
    ensures
        s.with_args(args).watch == s.watch + ListState::empty().with_args(args).watch,
        s.with_args(args).exclude == s.exclude + ListState::empty().with_args(args).exclude,
    decreases args.len(),
{
    let none = ListState::empty();
    if args.len() == 0 {
        assert(s.watch + none.watch =~= s.watch);
        assert(s.exclude + none.exclude =~= s.exclude);
    } else {
        lemma_args_behind(s, args.drop_last());
        let a = s.with_args(args.drop_last());
        let b = none.with_args(args.drop_last());
        let last = args.last();
        assert(s.watch + b.watch.push(last) =~= (s.watch + b.watch).push(last));
        assert(s.exclude + b.exclude.push(last.skip(1)) =~= (s.exclude + b.exclude).push(
            last.skip(1),
        ));
    }
}

/// Each argument is a file to watch, or with '@' in front one to leave out;
/// an empty one and a lone '@' are none.  The files keep their order, and
/// those of the file that was read come first.
pub proof fn law_arguments_are_listed(
    args: Seq<Seq<u8>>,
    arg: Seq<u8>,
    lines: Seq<Seq<u8>>,
)
    ensures
        ({
            let before = ListState::empty().with_lines(lines).with_args(args);
            let after = ListState::empty().with_lines(lines).with_args(args.push(arg));
            let none = arg.len() == 0 || (arg.len() == 1 && arg[0] == '@' as u8);
            &&& none ==> after == before
            &&& arg.len() > 1 && arg[0] == '@' as u8 ==> after.watch == before.watch
                && after.exclude == before.exclude.push(arg.skip(1))
            &&& arg.len() > 0 && arg[0] != '@' as u8 ==> after.watch == before.watch.push(arg)
                && after.exclude == before.exclude
        }),
        ({
            let file = ListState::empty().with_lines(lines);
            let line = ListState::empty().with_args(args);
            let all = file.with_args(args);
            &&& all.watch == file.watch + line.watch
            &&& all.exclude == file.exclude + line.exclude
        }),
        ListState::empty().with_args(Seq::empty()) == (ListState {
            watch: Seq::empty(),
            exclude: Seq::empty(),
        }),
{
    assert(args.push(arg).drop_last() =~= args);
    if arg.len() == 1 && arg[0] == '@' as u8 {
        assert(arg =~= seq!['@' as u8]);
    }
    lemma_args_behind(ListState::empty().with_lines(lines), args);
}

/// Each line of the file that is read is a file to watch without its newline,
/// or with '@' in front one to leave out.
pub proof fn law_lines_are_listed(lines: Seq<Seq<u8>>, text: Seq<u8>)
    requires
        text.len() > 0,
        !text.contains(0),
        !text.contains(10),
    ensures
        ({
            let before = ListState::empty().with_lines(lines);
            let ended = ListState::empty().with_lines(lines.push(text.push(10)));
            let last = ListState::empty().with_lines(lines.push(text));
            &&& text[0] != '@' as u8 ==> ended.watch == before.watch.push(text) && ended.exclude
                == before.exclude && last == ended
            &&& text[0] == '@' as u8 ==> ended.watch == before.watch && ended.exclude
                == before.exclude.push(text.skip(1))
            &&& text[0] == '@' as u8 && text.len() > 1 ==> last == ended
        }),
{
    let line = text.push(10);
    assert(lines.push(line).drop_last() =~= lines);
    assert(lines.push(text).drop_last() =~= lines);
    assert(text.last() != 10) by {
        assert(text.contains(text.last()));
    }
    assert(!line.contains(0)) by {
        if line.contains(0) {
            let i = line.index_of(0);
            assert(text.contains(text[i]));
        }
    }
    bytes::law_c_string_ends_before_nul(text, Seq::empty());
    bytes::law_c_string_ends_before_nul(line, Seq::empty());
    assert(line.drop_last() =~= text);
    assert(line.len() > 1);
    if text.len() > 1 {
        assert(text != seq!['@' as u8]);
    } else if text[0] != '@' as u8 {
        assert(text != seq!['@' as u8]) by {
            assert(seq!['@' as u8][0] == '@' as u8);
        }
    }
}

/// A timeout is accepted exactly if there is a text, all of it is a number,
/// and nothing went wrong with it.
pub proof fn law_timeouts_are_whole_numbers(text: Option<Seq<u8>>, parsed: Parsed)
    ensures
        timeout_error(text, parsed) is None <==> {
            &&& text is Some
            &&& text->0.len() > 0
            &&& parsed.errno == 0
            &&& parsed.consumed == text->0.len()
        },
{
}

/// Each filter option asks for one expression: `--exclude` and `--excludei`
/// to drop what matches, `--include` and `--includei` to drop what does not,
/// and the `i` ones in either case.  All are extended regular expressions.
pub proof fn law_filters_ask_for_expressions(text: Seq<u8>)
    ensures
        FiltersState::none().patterns().len() == 0,
        (FiltersState { exc: Some(text), ..FiltersState::none() }).patterns() == seq![
            PatternState { text, flags: 1, inverted: false },
        ],
        (FiltersState { exci: Some(text), ..FiltersState::none() }).patterns() == seq![
            PatternState { text, flags: 3, inverted: false },
        ],
        (FiltersState { inc: Some(text), ..FiltersState::none() }).patterns() == seq![
            PatternState { text, flags: 1, inverted: true },
        ],
        (FiltersState { inci: Some(text), ..FiltersState::none() }).patterns() == seq![
            PatternState { text, flags: 3, inverted: true },
        ],
{
    assert(REG_EXTENDED | REG_ICASE == 3) by (bit_vector);
    let none = Seq::<PatternState>::empty();
    assert(none.push(PatternState { text, flags: 1, inverted: false }) =~= seq![
        PatternState { text, flags: 1, inverted: false },
    ]);
    assert(none.push(PatternState { text, flags: 3, inverted: false }) =~= seq![
        PatternState { text, flags: 3, inverted: false },
    ]);
    assert(none.push(PatternState { text, flags: 1, inverted: true }) =~= seq![
        PatternState { text, flags: 1, inverted: true },
    ]);
    assert(none.push(PatternState { text, flags: 3, inverted: true }) =~= seq![
        PatternState { text, flags: 3, inverted: true },
    ]);
}

/// Once it is installed, an exclude filter drops the events whose paths it
/// matches, and an include filter the others.
pub proof fn law_installed_filters_drop_events(
    lib: LibState,
    text: Seq<u8>,
    recursive: i32,
    num_events: i32,
)
    ensures
        ({
            let none = FiltersState::none();
            let exc = (FiltersState { exc: Some(text), ..none }).patterns();
            let inc = (FiltersState { inc: Some(text), ..none }).patterns();
            let a = installed(lib, exc, recursive, seq![true], 0);
            let b = installed(lib, inc, recursive, seq![true], 0);
            &&& a.filtering && b.filtering
            &&& a.after(num_events, Reply::Matched(true)) == (a, AskState::Again)
            &&& a.after(num_events, Reply::Matched(false)).1 is Deliver
            &&& b.after(num_events, Reply::Matched(false)) == (b, AskState::Again)
            &&& b.after(num_events, Reply::Matched(true)).1 is Deliver
            &&& install_error(exc, seq![true], 0) is None
            &&& install_error(exc, seq![false], 0) is Some
            &&& install_error(inc, seq![false], 0) is Some
            &&& !installed(lib, inc, recursive, seq![false], 0).filtering
        }),
{
    law_filters_ask_for_expressions(text);
    reader::law_filter_drops_events(lib, num_events, recursive);
    let none = FiltersState::none();
    let exc = (FiltersState { exc: Some(text), ..none }).patterns();
    let inc = (FiltersState { inc: Some(text), ..none }).patterns();
    assert(exc[0] == (PatternState { text, flags: 1, inverted: false }));
    assert(inc[0] == (PatternState { text, flags: 1, inverted: true }));
    reveal_with_fuel(installed, 3);
    reveal_with_fuel(install_error, 3);
}

/// Filters conflict if both cases are asked for, or both to drop and to
/// keep.
pub proof fn law_filters_that_conflict(f: FiltersState)
    ensures
        f.conflict() is None <==> {
            &&& !(f.exc is Some && f.exci is Some)
            &&& !(f.inc is Some && f.inci is Some)
            &&& !((f.exc is Some || f.exci is Some) && (f.inc is Some || f.inci is Some))
        },
{
}

/// The files of a list are watched one after the other, each as a file or as
/// a tree, or all at once for their filesystems, up to the first that fails.
pub proof fn law_lists_are_watched_in_order(n: usize, i: int)
    requires
        0 <= i < n,
    ensures
        list_ask(WatchKind::Files, n as int, 0) == ListAsk::File(0),
        list_ask(WatchKind::Trees, n as int, 0) == ListAsk::Tree(0),
        list_ask(WatchKind::Filesystem, n as int, 0) == ListAsk::All,
        list_after(WatchKind::Filesystem, n as int, i, true) == ListAsk::Done,
        i + 1 < n ==> list_after(WatchKind::Files, n as int, i, true) == ListAsk::File(
            (i + 1) as usize,
        ),
        i + 1 < n ==> list_after(WatchKind::Trees, n as int, i, true) == ListAsk::Tree(
            (i + 1) as usize,
        ),
        list_after(WatchKind::Files, n as int, n - 1, true) == ListAsk::Done,
        list_after(WatchKind::Trees, n as int, n - 1, true) == ListAsk::Done,
        forall|kind: WatchKind| #[trigger]
            list_after(kind, n as int, i, false) == ListAsk::Failed(i as usize),
        forall|kind: WatchKind| #[trigger] list_ask(kind, 0, 0) == ListAsk::Done,
{
}

/// A directory that is created, or moved here from outside, is to be
/// watched; nothing else is.
pub proof fn law_new_directories_are_noticed(
    lib: LibState,
    moved_from: Option<Seq<u8>>,
    ev: EventState,
)
    ensures
        ev.mask as i32 & 0x100 != 0 ==> appeared(moved_from, ev),
        moved_from is None && ev.mask as i32 & 0x80 != 0 ==> appeared(moved_from, ev),
        ev.mask as i32 & 0x100 == 0 && (moved_from is Some || ev.mask as i32 & 0x80 == 0)
            ==> !appeared(moved_from, ev),
        left_tree(moved_from, ev) == if ev.mask as i32 & 0x80 != 0 {
            None
        } else {
            moved_from
        },
{
}

/// A directory that moves within the tree takes the names of all the watches
/// below it along.
pub proof fn law_moved_directories_take_their_names_along(
    lib: LibState,
    to: EventState,
    old_path: Seq<u8>,
    new_path: Seq<u8>,
    rest: Seq<u8>,
)
    requires
        lib.table.consistent(),
        lib.table.by_filename.dom().finite(),
        to.mask as i32 & 0x80 != 0,
        to.mask as i32 & 0x100 == 0,
        to.mask as i32 & 0x40 == 0,
        old_path.len() > 0,
        new_path.len() > 0,
        lib.dirpath(to, None) == Some(new_path),
        bytes::c_str(new_path + rest) == new_path + rest,
        lib.table.by_filename.contains_key(old_path + rest),
        old_path + rest != new_path,
    ensures
        ({
            let id = lib.table.by_filename[old_path + rest];
            followed(Some(old_path), lib, to, None).table.watches[id].filename == new_path + rest
        }),
{
    crate::table::law_replace_keeps_what_follows(
        lib.table,
        old_path,
        new_path,
        rest,
        Seq::empty(),
    );
}

/// The message for an event group that cannot be set up names the interface
/// and the error; there is advice on too many groups, and with fanotify on
/// old kernels and missing privileges.
pub proof fn law_initialisation_errors(error: i32, fanotify: bool, why: Seq<u8>)
    ensures
        ({
            let first = bytes::lit("Couldn't initialize ") + (if fanotify {
                bytes::lit("fanotify")
            } else {
                bytes::lit("inotify")
            }) + bytes::lit(": ") + why + bytes::lit("\n");
            let msg = init_error(error, fanotify, why);
            &&& bytes::starts_with(msg, first)
            &&& msg.len() > first.len() <==> error == 24 || (fanotify && (error == 22 || error
                == 1))
        }),
{
    reveal_strlit("Try increasing the value of /proc/sys/fs/");
    bytes::lemma_lit("Try increasing the value of /proc/sys/fs/");
    reveal_strlit(
        "fanotify support for reporting the events with file names was added in kernel v5.9.\n",
    );
    bytes::lemma_lit(
        "fanotify support for reporting the events with file names was added in kernel v5.9.\n",
    );
    reveal_strlit("fanotify watch requires admin privileges\n");
    bytes::lemma_lit("fanotify watch requires admin privileges\n");
    let first = bytes::lit("Couldn't initialize ") + (if fanotify {
        bytes::lit("fanotify")
    } else {
        bytes::lit("inotify")
    }) + bytes::lit(": ") + why + bytes::lit("\n");
    let msg = init_error(error, fanotify, why);
    assert(msg.take(first.len() as int) =~= first);
}

/// The messages for a file that cannot be watched: two on a limit that is
/// reached, and one on any other error, or on filesystems.
pub proof fn law_watch_errors(
    kind: WatchKind,
    file: Seq<u8>,
    error: i32,
    fanotify: bool,
    fail_verb: Seq<u8>,
    why: Seq<u8>,
)
    ensures
        ({
            let msgs = watch_error(kind, file, error, fanotify, fail_verb, why);
            let end = bytes::lit(": ") + why + bytes::lit("\n");
            &&& kind == WatchKind::Filesystem ==> msgs.len() == 1 && msgs[0] == bytes::lit(
                "Couldn't add filesystem watch ",
            ) + file + end
            &&& kind != WatchKind::Filesystem && error != 28 ==> msgs.len() == 1 && msgs[0]
                == fail_verb + file + end
            &&& kind != WatchKind::Filesystem && error == 28 ==> msgs.len() == 2
                && bytes::starts_with(msgs[0], bytes::lit("Failed to watch ") + file)
        }),
{
    let msgs = watch_error(kind, file, error, fanotify, fail_verb, why);
    let end = bytes::lit(": ") + why + bytes::lit("\n");
    if kind == WatchKind::Filesystem {
        assert(msgs[0] =~= bytes::lit("Couldn't add filesystem watch ") + file + end);
    } else if error == 28 {
        let first = bytes::lit("Failed to watch ") + file;
        assert(msgs[0].take(first.len() as int) =~= first);
    } else {
        assert(msgs[0] =~= fail_verb + file + end);
    }
}

/// The last component of a path with slashes alone is a slash, and that of no
/// path a dot.
pub proof fn law_basename_of_slashes(path: Seq<u8>)
    requires
        forall|i: int| 0 <= i < path.len() ==> path[i] == '/' as u8,
    ensures
        path.len() == 0 ==> basename_of(path) == seq!['.' as u8],
        path.len() > 0 ==> basename_of(path) == seq!['/' as u8],
    decreases path.len(),
{
    if path.len() > 1 {
        law_basename_of_slashes(path.drop_last());
        assert(trimmed(path) == trimmed(path.drop_last()));
        lemma_trimmed_slashes(path);
    } else if path.len() == 1 {
        assert(path =~= seq!['/' as u8]);
    }
}

proof fn lemma_trimmed_slashes(path: Seq<u8>)
    requires
        path.len() > 0,
        forall|i: int| 0 <= i < path.len() ==> path[i] == '/' as u8,
    ensures
        trimmed(path) == seq!['/' as u8],
    decreases path.len(),
{
    if path.len() > 1 {
        lemma_trimmed_slashes(path.drop_last());
    } else {
        assert(path =~= seq!['/' as u8]);
    }
}

/// Whole filesystems are watched if that is asked for, else trees if
/// recursion is, else just the files.
pub proof fn law_kinds_of_watching(recursive: bool)
    ensures
        kind_of(recursive, true) == WatchKind::Filesystem,
        kind_of(true, false) == WatchKind::Trees,
        kind_of(false, false) == WatchKind::Files,
{
}

/// A directory that is moved is remembered if it is watched, and forgotten
/// when it came to a new place or left the tree; one that appeared is told.
pub proof fn law_moved_directories_are_remembered(
    lib: LibState,
    moved_from: Option<Seq<u8>>,
    ev: EventState,
    resolved: Option<Seq<u8>>,
    path: Seq<u8>,
)
    ensures
        ({
            let created = ev.mask as i32 & 0x100 != 0;
            let from = ev.mask as i32 & 0x40 != 0;
            let to = ev.mask as i32 & 0x80 != 0;
            let after = moving_after(moved_from, lib, ev, resolved);
            let dir = lib.dirpath_of(ev.wd, ev.mask, ev.name, resolved);
            &&& from && !created && !to && dir == Some(path) && lib.wd_of_name(path) != -1 ==> after
                == Some(path)
            &&& from && !created && !to && dir == Some(path) && lib.wd_of_name(path) == -1 ==> after
                is None
            &&& from && !created && !to && dir is None ==> after is None
            &&& to && !from && !created ==> after is None
            &&& !to && !from ==> after == moved_from
            &&& !to ==> still_moving(moved_from, ev) is None
            &&& to ==> still_moving(moved_from, ev) == moved_from
            &&& created ==> appearing(moved_from, lib, ev, resolved) == dir
            &&& to && moved_from is None ==> appearing(moved_from, lib, ev, resolved) == dir
            &&& !created && !to ==> appearing(moved_from, lib, ev, resolved) is None
            &&& !created && moved_from is Some ==> appearing(moved_from, lib, ev, resolved) is None
        }),
{
}

/// The list has what the file names before what the arguments name, and there
/// is none if the file cannot be opened.
pub proof fn law_file_comes_before_arguments(args: Seq<Seq<u8>>, lines: Vec<Vec<u8>>)
    ensures
        path_list(args, Some(FromFile::Unopened)) is None,
        ({
            let all = path_list(args, Some(FromFile::Lines(lines)))->0;
            let file = path_list(Seq::empty(), Some(FromFile::Lines(lines)))->0;
            let given = path_list(args, None)->0;
            &&& path_list(args, Some(FromFile::Lines(lines))) is Some
            &&& path_list(args, None) is Some
            &&& all.watch == file.watch + given.watch
            &&& all.exclude == file.exclude + given.exclude
        }),
{
    law_arguments_are_listed(args, Seq::empty(), bytes::names(lines@));
}

/// Of the first expression that cannot be compiled it is said which kind it
/// is; if there is none, nothing is.
pub proof fn law_bad_expressions_are_told(f: FiltersState, text: Seq<u8>, compiled: bool)
    ensures
        ({
            let only_exc = FiltersState { exc: Some(text), exci: None, inc: None, inci: None };
            let only_exci = FiltersState { exc: None, exci: Some(text), inc: None, inci: None };
            let only_inc = FiltersState { exc: None, exci: None, inc: Some(text), inci: None };
            let only_inci = FiltersState { exc: None, exci: None, inc: None, inci: Some(text) };
            let exc = Some(bytes::lit("Error in `exclude' regular expression.\n"));
            let inc = Some(bytes::lit("Error in `include' regular expression.\n"));
            &&& install_error(only_exc.patterns(), seq![false], 0) == exc
            &&& install_error(only_exci.patterns(), seq![false], 0) == exc
            &&& install_error(only_inc.patterns(), seq![false], 0) == inc
            &&& install_error(only_inci.patterns(), seq![false], 0) == inc
            &&& install_error(only_exc.patterns(), seq![true], 0) is None
            &&& install_error(only_exci.patterns(), seq![true], 0) is None
            &&& install_error(only_inc.patterns(), seq![true], 0) is None
            &&& install_error(only_inci.patterns(), seq![true], 0) is None
        }),
{
    reveal_with_fuel(install_error, 3);
}

} // verus!
