//! inotifywait - wait for changes to files using inotify (or fanotify).

use vstd::prelude::*;

use crate::buffer::Event;
use crate::bytes;
use crate::bytes::Piece;
use crate::common;
use crate::common::Filters;
use crate::common::FiltersState;
use crate::common::Parsed;
use crate::consts;
use crate::consts::MAX_STRLEN;
use crate::events;
use crate::inotify::printf;
use crate::inotify::EventPath;
use crate::inotify::PathState;

verus! {

/// The options of inotifywait.
pub struct Opts {
    pub events: i32,
    pub monitor: bool,
    pub quiet: i32,
    pub timeout: i64,
    pub recursive: i32,
    pub csv: bool,
    pub daemon: bool,
    pub syslog: bool,
    pub no_dereference: bool,
    pub format: Option<Vec<u8>>,
    pub timefmt: Option<Vec<u8>>,
    pub fromfile: Option<Vec<u8>>,
    pub outfile: Option<Vec<u8>>,
    pub filters: Filters,
    pub no_newline: bool,
    pub fanotify: bool,
    pub filesystem: bool,
    /// How many times --exclude has been specified
    pub exclude_count: u32,
    /// How many times --excludei has been specified
    pub excludei_count: u32,
}

/// What [`Opts`] hold.
#[verifier::ext_equal]
pub struct OptsState {
    pub events: i32,
    pub monitor: bool,
    pub quiet: i32,
    pub timeout: i64,
    pub recursive: i32,
    pub csv: bool,
    pub daemon: bool,
    pub syslog: bool,
    pub no_dereference: bool,
    pub format: Option<Seq<u8>>,
    pub timefmt: Option<Seq<u8>>,
    pub fromfile: Option<Seq<u8>>,
    pub outfile: Option<Seq<u8>>,
    pub filters: FiltersState,
    pub no_newline: bool,
    pub fanotify: bool,
    pub filesystem: bool,
    pub exclude_count: u32,
    pub excludei_count: u32,
}

impl View for Opts {
    type V = OptsState;

    open spec fn view(&self) -> OptsState {
        OptsState {
            events: self.events,
            monitor: self.monitor,
            quiet: self.quiet,
            timeout: self.timeout,
            recursive: self.recursive,
            csv: self.csv,
            daemon: self.daemon,
            syslog: self.syslog,
            no_dereference: self.no_dereference,
            format: bytes::opt_bytes(self.format),
            timefmt: bytes::opt_bytes(self.timefmt),
            fromfile: bytes::opt_bytes(self.fromfile),
            outfile: bytes::opt_bytes(self.outfile),
            filters: self.filters@,
            no_newline: self.no_newline,
            fanotify: self.fanotify,
            filesystem: self.filesystem,
            exclude_count: self.exclude_count,
            excludei_count: self.excludei_count,
        }
    }
}

/// Why parsing the command line stops.
pub enum Stop {
    /// `--help` was given.
    Help,
    /// Something is wrong; print a message.
    Complaint(Vec<u8>),
}

/// What a [`Stop`] says, if there is one.
#[verifier::ext_equal]
pub enum StopState {
    No,
    Help,
    Complaint(Seq<u8>),
}

/// The reason to stop, if any.
pub open spec fn stop_of(stop: Option<Stop>) -> StopState {
    match stop {
        None => StopState::No,
        Some(Stop::Help) => StopState::Help,
        Some(Stop::Complaint(msg)) => StopState::Complaint(msg@),
    }
}

/// The timeout after a `--timeout` argument, and whether to stop.
pub open spec fn timeout_after(timeout: i64, arg: Option<Seq<u8>>, parsed: Parsed) -> (
    i64,
    StopState,
) {
    (
        match arg {
            Some(text) if text.len() > 0 => parsed.value,
            _ => timeout,
        },
        match common::timeout_error(arg, parsed) {
            Some(msg) => StopState::Complaint(msg),
            None => StopState::No,
        },
    )
}

/// The events after an `--event` argument, and whether to stop.
pub open spec fn events_after(events: i32, arg: Option<Seq<u8>>) -> (i32, StopState) {
    let text = match arg {
        Some(a) => a,
        None => Seq::empty(),
    };
    let event = events::events_of(Some(text), ',' as u8);
    if event == -1 {
        (
            events,
            StopState::Complaint(
                bytes::lit("'") + text + bytes::lit(
                    "' is not a valid event!  Run with the '--help' option to see a list of events.\n",
                ),
            ),
        )
    } else {
        (events | event, StopState::No)
    }
}

/// Take in a `--timeout` argument, and what `strtol()` makes of it.
pub(crate) fn take_timeout(timeout: &mut i64, arg: Option<Vec<u8>>, parsed: &Parsed) -> (stop:
    Option<Stop>)
    ensures
        (*final(timeout), stop_of(stop)) == timeout_after(
            *old(timeout),
            bytes::opt_bytes(arg),
            *parsed,
        ),
{
    let text = match &arg {
        Some(a) => Some(a.as_slice()),
        None => None,
    };
    assert(printf::opt_slice(text) == bytes::opt_bytes(arg));
    match common::is_timeout_option_valid(timeout, text, parsed) {
        Ok(_) => None,
        Err(msg) => Some(Stop::Complaint(msg)),
    }
}

/// Take in an `--event` argument.
pub(crate) fn take_event(events: &mut i32, arg: Option<Vec<u8>>) -> (stop: Option<Stop>)
    ensures
        (*final(events), stop_of(stop)) == events_after(*old(events), bytes::opt_bytes(arg)),
{
    let text = match &arg {
        Some(a) => Some(a.as_slice()),
        None => None,
    };
    match common::parse_event(text) {
        Ok(event) => {
            *events = *events | event;
            None
        },
        Err(msg) => Some(Stop::Complaint(msg)),
    }
}

/// Text of a removed option.
pub const NO_FILENAME: &'static str = "\
The '--filename' option no longer exists.  The option it enabled in earlier\n\
versions of inotifywait is now turned on by default.\n";

impl OptsState {
    /// The options at the start, by default with fanotify or not.
    pub open spec fn initial(fanotify: bool) -> OptsState {
        OptsState {
            events: 0,
            monitor: false,
            quiet: 0,
            timeout: common::BLOCKING_TIMEOUT,
            recursive: 0,
            csv: false,
            daemon: false,
            syslog: false,
            no_dereference: false,
            format: None,
            timefmt: None,
            fromfile: None,
            outfile: None,
            filters: FiltersState::none(),
            no_newline: false,
            fanotify,
            filesystem: false,
            exclude_count: 0,
            excludei_count: 0,
        }
    }

    /// Options can be counted further.
    pub open spec fn countable(self) -> bool {
        self.quiet < i32::MAX && self.recursive < i32::MAX && self.exclude_count < u32::MAX
            && self.excludei_count < u32::MAX
    }

    /// The options after option `c`, and whether parsing stops.
    pub open spec fn with_option(self, c: u8, arg: Option<Seq<u8>>, parsed: Parsed) -> (
        OptsState,
        StopState,
    ) {
        let no = StopState::No;
        if c == 'h' as u8 {
            (self, StopState::Help)
        } else if c == 'm' as u8 {
            (OptsState { monitor: true, ..self }, no)
        } else if c == 'q' as u8 {
            (OptsState { quiet: (self.quiet + 1) as i32, ..self }, no)
        } else if c == 'r' as u8 {
            (OptsState { recursive: (self.recursive + 1) as i32, ..self }, no)
        } else if c == 'I' as u8 {
            (OptsState { fanotify: false, ..self }, no)
        } else if c == 'F' as u8 {
            (OptsState { fanotify: true, ..self }, no)
        } else if c == 'S' as u8 {
            (OptsState { filesystem: true, fanotify: true, ..self }, no)
        } else if c == 'c' as u8 {
            (OptsState { csv: true, ..self }, no)
        } else if c == 'd' as u8 {
            (OptsState { daemon: true, monitor: true, syslog: true, ..self }, no)
        } else if c == 's' as u8 {
            (OptsState { syslog: true, ..self }, no)
        } else if c == 'P' as u8 {
            (OptsState { no_dereference: true, ..self }, no)
        } else if c == 'f' as u8 {
            (self, StopState::Complaint(bytes::lit(NO_FILENAME)))
        } else if c == 'n' as u8 {
            (OptsState { format: arg, ..self }, no)
        } else if c == '0' as u8 {
            (OptsState { no_newline: true, ..self }, no)
        } else if c == 'i' as u8 {
            (OptsState { timefmt: arg, ..self }, no)
        } else if c == 'a' as u8 {
            (
                OptsState {
                    filters: FiltersState { exc: arg, ..self.filters },
                    exclude_count: (self.exclude_count + 1) as u32,
                    ..self
                },
                no,
            )
        } else if c == 'b' as u8 {
            (
                OptsState {
                    filters: FiltersState { exci: arg, ..self.filters },
                    excludei_count: (self.excludei_count + 1) as u32,
                    ..self
                },
                no,
            )
        } else if c == 'j' as u8 {
            (OptsState { filters: FiltersState { inc: arg, ..self.filters }, ..self }, no)
        } else if c == 'k' as u8 {
            (OptsState { filters: FiltersState { inci: arg, ..self.filters }, ..self }, no)
        } else if c == 'z' as u8 {
            if self.fromfile is Some {
                (self, StopState::Complaint(bytes::lit("Multiple --fromfile options given.\n")))
            } else {
                (OptsState { fromfile: arg, ..self }, no)
            }
        } else if c == 'o' as u8 {
            if self.outfile is Some {
                (self, StopState::Complaint(bytes::lit("Multiple --outfile options given.\n")))
            } else {
                (OptsState { outfile: arg, ..self }, no)
            }
        } else if c == 't' as u8 {
            let (timeout, stop) = timeout_after(self.timeout, arg, parsed);
            (OptsState { timeout, ..self }, stop)
        } else if c == 'e' as u8 {
            let (events, stop) = events_after(self.events, arg);
            (OptsState { events, ..self }, stop)
        } else {
            (self, no)
        }
    }

    /// The options once all are known: a format ends with a newline, unless
    /// that is not wanted.
    pub open spec fn completed(self) -> OptsState {
        OptsState {
            format: match self.format {
                Some(f) if !self.no_newline => Some(f.push(10)),
                _ => self.format,
            },
            ..self
        }
    }

    /// What is wrong with the options together.
    pub open spec fn complaint(self) -> Option<Seq<u8>> {
        if self.filters.conflict() is Some {
            self.filters.conflict()
        } else if self.format is Some && self.csv {
            Some(bytes::lit("-c and --format cannot both be specified.\n"))
        } else if self.format is None && self.no_newline {
            Some(bytes::lit("--no-newline cannot be specified without --format.\n"))
        } else if self.format is None && self.timefmt is Some {
            Some(bytes::lit("--timefmt cannot be specified without --format.\n"))
        } else if self.format is Some && asks_for_time(self.format->0) && self.timefmt is None {
            Some(bytes::lit("%T is in --format string, but --timefmt was not specified.\n"))
        } else if self.daemon && self.outfile is None {
            Some(bytes::lit("-o must be specified with -d.\n"))
        } else {
            None
        }
    }

    /// What to say of options given several times.
    pub open spec fn warning(self) -> Seq<u8> {
        (if self.exclude_count > 1 {
            bytes::lit("--exclude: ") + bytes::lit(REGEX_WARNING)
        } else {
            Seq::empty()
        }) + (if self.excludei_count > 1 {
            bytes::lit("--excludei: ") + bytes::lit(REGEX_WARNING)
        } else {
            Seq::empty()
        })
    }

    /// The events that are shown.
    pub open spec fn shown_events(self) -> i32 {
        if self.events == 0 {
            consts::IN_ALL_EVENTS
        } else {
            self.events
        }
    }

    /// The events that are watched for: also those that keep recursive
    /// watches current.
    pub open spec fn watched_events(self) -> i32 {
        let a = if self.monitor && self.recursive != 0 {
            self.shown_events() | (consts::IN_CREATE | consts::IN_MOVED_TO | consts::IN_MOVED_FROM)
        } else {
            self.shown_events()
        };
        let b = if self.no_dereference {
            a | consts::IN_DONT_FOLLOW
        } else {
            a
        };
        if self.fanotify {
            b | consts::IN_ISDIR
        } else {
            b
        }
    }

    /// Whether an event is shown: one that was asked for, and with an
    /// include filter, not on a directory.
    pub open spec fn shows(self, mask: i32) -> bool {
        self.quiet < 2 && mask & self.shown_events() != 0 && (!self.filters.has_include() || mask
            & consts::IN_ISDIR == 0)
    }
}

impl OptsState {
    /// The format events are shown with; `None` for CSV.
    pub open spec fn event_format(self) -> Option<Seq<u8>> {
        if self.csv {
            None
        } else if self.format is Some {
            self.format
        } else {
            Some(bytes::lit("%w %,e %f\n"))
        }
    }
}

/// The exit status after the last event.
pub open spec fn status_of(watched_events: i32, mask: u32) -> i32 {
    if watched_events & mask as i32 == 0 {
        common::EXIT_FAILURE
    } else {
        common::EXIT_SUCCESS
    }
}

/// The exit status when there is no event.
pub open spec fn status_without_event(error: i32) -> i32 {
    if error == 0 {
        common::EXIT_TIMEOUT
    } else {
        common::EXIT_FAILURE
    }
}

pub const REGEX_WARNING: &'static str = "only the last option will be taken into consideration.\n";

/// The format holds `%T`.
pub open spec fn asks_for_time(fmt: Seq<u8>) -> bool {
    exists|i: int|
        0 <= i < fmt.len() - 1 && #[trigger] fmt[i] == '%' as u8 && fmt[i + 1] == 'T' as u8
}

fn has_time(fmt: &[u8]) -> (yes: bool)
    ensures
        yes == asks_for_time(fmt@),
{
    let mut i: usize = 0;
    while i < fmt.len()
        invariant
            i <= fmt@.len(),
            forall|j: int|
                0 <= j < i && j < fmt@.len() - 1 ==> !(#[trigger] fmt@[j] == '%' as u8 && fmt@[j
                    + 1] == 'T' as u8),
        decreases fmt@.len() - i,
    {
        if i < fmt.len() - 1 && fmt[i] == '%' as u8 && fmt[i + 1] == 'T' as u8 {
            return true;
        }
        i = i + 1;
    }
    false
}

/// How parsing the command line ended.
pub struct Ending {
    /// Whether the program goes on.
    pub ok: bool,
    /// What to print.
    pub message: Vec<u8>,
}

impl Opts {
    /// The options at the start, by default with fanotify or not.
    pub fn new(fanotify: bool) -> (o: Opts)
        ensures
            o@ == OptsState::initial(fanotify),
    {
        Opts {
            events: 0,
            monitor: false,
            quiet: 0,
            timeout: common::BLOCKING_TIMEOUT,
            recursive: 0,
            csv: false,
            daemon: false,
            syslog: false,
            no_dereference: false,
            format: None,
            timefmt: None,
            fromfile: None,
            outfile: None,
            filters: Filters::new(),
            no_newline: false,
            fanotify,
            filesystem: false,
            exclude_count: 0,
            excludei_count: 0,
        }
    }

    /// Whether options can be counted further.
    pub fn countable(&self) -> (yes: bool)
        ensures
            yes == self@.countable(),
    {
        self.quiet < i32::MAX && self.recursive < i32::MAX && self.exclude_count < u32::MAX
            && self.excludei_count < u32::MAX
    }

    /// Take in an option with its argument, and what `strtol()` makes of the
    /// argument of `--timeout`.
    #[verifier::rlimit(40)]
    pub fn parse_opt(&mut self, c: u8, arg: Option<Vec<u8>>, parsed: &Parsed) -> (stop: Option<
        Stop,
    >)
        requires
            old(self)@.countable(),
        ensures
            (final(self)@, stop_of(stop)) == old(self)@.with_option(
                c,
                bytes::opt_bytes(arg),
                *parsed,
            ),
    {
        if c == 'h' as u8 {
            return Some(Stop::Help);
        } else if c == 'm' as u8 {
            self.monitor = true;
        } else if c == 'q' as u8 {
            self.quiet = self.quiet + 1;
        } else if c == 'r' as u8 {
            self.recursive = self.recursive + 1;
        } else if c == 'I' as u8 {
            self.fanotify = false;
        } else if c == 'F' as u8 {
            self.fanotify = true;
        } else if c == 'S' as u8 {
            self.filesystem = true;
            self.fanotify = true;
        } else if c == 'c' as u8 {
            self.csv = true;
        } else if c == 'd' as u8 {
            self.daemon = true;
            self.monitor = true;
            self.syslog = true;
        } else if c == 's' as u8 {
            self.syslog = true;
        } else if c == 'P' as u8 {
            self.no_dereference = true;
        } else if c == 'f' as u8 {
            return Some(Stop::Complaint(bytes::text(NO_FILENAME)));
        } else if c == 'n' as u8 {
            self.format = arg;
        } else if c == '0' as u8 {
            self.no_newline = true;
        } else if c == 'i' as u8 {
            self.timefmt = arg;
        } else if c == 'a' as u8 {
            self.filters.exc = arg;
            self.exclude_count = self.exclude_count + 1;
        } else if c == 'b' as u8 {
            self.filters.exci = arg;
            self.excludei_count = self.excludei_count + 1;
        } else if c == 'j' as u8 {
            self.filters.inc = arg;
        } else if c == 'k' as u8 {
            self.filters.inci = arg;
        } else if c == 'z' as u8 {
            if self.fromfile.is_some() {
                return Some(Stop::Complaint(bytes::text("Multiple --fromfile options given.\n")));
            }
            self.fromfile = arg;
        } else if c == 'o' as u8 {
            if self.outfile.is_some() {
                return Some(Stop::Complaint(bytes::text("Multiple --outfile options given.\n")));
            }
            self.outfile = arg;
        } else if c == 't' as u8 {
            return take_timeout(&mut self.timeout, arg, parsed);
        } else if c == 'e' as u8 {
            return take_event(&mut self.events, arg);
        }
        None
    }

    /// Complete and check the options once all are known; `invalid` tells
    /// whether there was an invalid option.
    pub fn parse_opts(&mut self, invalid: bool) -> (end: Ending)
        ensures
            final(self)@ == old(self)@.completed(),
            match old(self)@.completed().complaint() {
                Some(msg) => !end.ok && end.message@ == msg,
                None => end.ok == !invalid && end.message@ == old(self)@.warning(),
            },
    {
        let ghost start = self@;
        self.end_format();
        assert(self@ == start.completed());
        match self.find_complaint() {
            Some(message) => Ending { ok: false, message },
            None => {
                let mut message: Vec<u8> = Vec::new();
                if self.exclude_count > 1 {
                    "--exclude: ".put(&mut message);
                    REGEX_WARNING.put(&mut message);
                }
                if self.excludei_count > 1 {
                    "--excludei: ".put(&mut message);
                    REGEX_WARNING.put(&mut message);
                }
                assert(message@ =~= start.warning());
                Ending { ok: !invalid, message }
            },
        }
    }

    fn end_format(&mut self)
        ensures
            final(self)@ == old(self)@.completed(),
    {
        if !self.no_newline {
            let mut format: Option<Vec<u8>> = None;
            std::mem::swap(&mut format, &mut self.format);
            if let Some(f) = format {
                let mut f = f;
                f.push(10);
                self.format = Some(f);
            }
        }
    }

    fn find_complaint(&self) -> (msg: Option<Vec<u8>>)
        ensures
            bytes::opt_bytes(msg) == self@.complaint(),
    {
        if let Err(msg) = self.filters.validate() {
            return Some(msg);
        }
        if self.format.is_some() && self.csv {
            return Some(bytes::text("-c and --format cannot both be specified.\n"));
        }
        if self.format.is_none() && self.no_newline {
            return Some(bytes::text("--no-newline cannot be specified without --format.\n"));
        }
        if self.format.is_none() && self.timefmt.is_some() {
            return Some(bytes::text("--timefmt cannot be specified without --format.\n"));
        }
        if let Some(f) = &self.format {
            if has_time(f.as_slice()) && self.timefmt.is_none() {
                return Some(
                    bytes::text("%T is in --format string, but --timefmt was not specified.\n"),
                );
            }
        }
        if self.daemon && self.outfile.is_none() {
            return Some(bytes::text("-o must be specified with -d.\n"));
        }
        None
    }

    /// The events to watch for.
    pub fn watched_events(&self) -> (events: i32)
        ensures
            events == self@.watched_events(),
    {
        let mut events: i32 = self.shown_events();
        if self.monitor && self.recursive != 0 {
            events = events | (consts::IN_CREATE | consts::IN_MOVED_TO | consts::IN_MOVED_FROM);
        }
        if self.no_dereference {
            events = events | consts::IN_DONT_FOLLOW;
        }
        if self.fanotify {
            events = events | consts::IN_ISDIR;
        }
        events
    }

    /// The events to show.
    pub fn shown_events(&self) -> (events: i32)
        ensures
            events == self@.shown_events(),
    {
        if self.events == 0 {
            consts::IN_ALL_EVENTS
        } else {
            self.events
        }
    }

    /// Whether an event is shown.
    pub fn shows(&self, event: &Event) -> (yes: bool)
        ensures
            yes == self@.shows(event.mask as i32),
    {
        let mask = event.mask as i32;
        self.quiet < 2 && mask & self.shown_events() != 0 && (!self.filters.has_include() || mask
            & consts::IN_ISDIR == 0)
    }

    /// The format events are shown with; `None` for CSV.
    pub fn event_format(&self) -> (fmt: Option<Vec<u8>>)
        ensures
            bytes::opt_bytes(fmt) == self@.event_format(),
    {
        if self.csv {
            return None;
        }
        match &self.format {
            Some(f) => Some(bytes::to_vec(f.as_slice())),
            None => Some(bytes::text("%w %,e %f\n")),
        }
    }

    /// What to say before watches are set up.
    pub fn setup_message(&self) -> (msg: Option<Vec<u8>>)
        ensures
            bytes::opt_bytes(msg) == if self.quiet != 0 {
                None
            } else if self.filesystem {
                Some(bytes::lit("Setting up filesystem watches.\n"))
            } else if self.recursive != 0 {
                Some(
                    bytes::lit(
                        "Setting up watches.  Beware: since -r was given, this may take a while!\n",
                    ),
                )
            } else {
                Some(bytes::lit("Setting up watches.\n"))
            },
    {
        if self.quiet != 0 {
            None
        } else if self.filesystem {
            Some(bytes::text("Setting up filesystem watches.\n"))
        } else if self.recursive != 0 {
            Some(
                bytes::text(
                    "Setting up watches.  Beware: since -r was given, this may take a while!\n",
                ),
            )
        } else {
            Some(bytes::text("Setting up watches.\n"))
        }
    }

    /// What happens after an event: whether moves are followed, in which way,
    /// and whether to wait for another event.
    pub fn after_event(&self) -> (next: Next)
        ensures
            next.follow == !self.filesystem,
            next.recursive == (self.monitor && self.recursive != 0),
            next.wait == self.monitor,
    {
        Next {
            follow: !self.filesystem,
            recursive: self.monitor && self.recursive != 0,
            wait: self.monitor,
        }
    }
}

/// What happens after an event.
#[derive(Clone, Copy, Debug, PartialEq, Eq)]
pub struct Next {
    /// Directory creation and moves are followed.
    pub follow: bool,
    /// New directories are watched.
    pub recursive: bool,
    /// Another event is waited for.
    pub wait: bool,
}

/// The exit status after the last event: a failure if it is none that was
/// listened for, as then most likely something bad happened, like IGNORE
/// etc.
pub fn exit_status(watched_events: i32, mask: u32) -> (status: i32)
    ensures
        status == status_of(watched_events, mask),
{
    if watched_events & mask as i32 == 0 {
        common::EXIT_FAILURE
    } else {
        common::EXIT_SUCCESS
    }
}

/// The exit status when there is no event.
pub fn no_event_status(error: i32) -> (status: i32)
    ensures
        status == status_without_event(error),
{
    if error == 0 {
        common::EXIT_TIMEOUT
    } else {
        common::EXIT_FAILURE
    }
}

/// The event a format is tried out on.
pub fn fake_event() -> (ev: Event)
    ensures
        ev.wd == 0,
        ev.mask == 0xfff,
        ev.cookie == 0,
        ev.len == 3,
        ev.name@ == Seq::<u8>::empty(),
{
    Event { wd: 0, mask: consts::IN_ALL_EVENTS as u32, cookie: 0, len: 3, name: Vec::new() }
}

/// A field has to be quoted: some byte of the whole string has a meaning in
/// CSV, or a space begins or ends the field.
pub open spec fn needs_quotes(string: Seq<u8>, len: int) -> bool {
    string.contains('"' as u8) || string.contains(',' as u8) || string.contains(10) || string[0]
        == ' ' as u8 || string[len - 1] == ' ' as u8
}

/// A text with its quotes doubled.
pub open spec fn doubled(s: Seq<u8>) -> Seq<u8>
    decreases s.len(),
{
    if s.len() == 0 {
        Seq::empty()
    } else if s.last() == '"' as u8 {
        doubled(s.drop_last()).push('"' as u8).push('"' as u8)
    } else {
        doubled(s.drop_last()).push(s.last())
    }
}

/// The first `len` bytes of a string as a CSV field.
pub open spec fn csv_field(string: Seq<u8>, len: int) -> Seq<u8> {
    if len == 0 || len > MAX_STRLEN || len > string.len() {
        Seq::empty()
    } else if needs_quotes(string, len) {
        seq!['"' as u8] + doubled(string.take(len)) + seq!['"' as u8]
    } else {
        string.take(len)
    }
}

fn has_byte(s: &[u8], c: u8) -> (yes: bool)
    ensures
        yes == s@.contains(c),
{
    let n = bytes::find_byte(s, c);
    proof {
        bytes::lemma_first_at(s@, c);
        if n < s@.len() {
            assert(s@[n as int] == c);
        } else if s@.contains(c) {
            let i = s@.index_of(c);
            assert(s@[i] != c);
        }
    }
    n < s.len()
}

/// CSV-escape the first `len` bytes of `string`.  (Whether escaping is
/// needed is decided on the whole string.)
pub fn csv_escape_len(string: &[u8], len: usize) -> (csv: Vec<u8>)
    ensures
        csv@ == csv_field(string@, len as int),
{
    if len == 0 || len > MAX_STRLEN || len > string.len() {
        return Vec::new();
    }
    let text = bytes::copy_range(string, 0, len);
    assert(text@ =~= string@.take(len as int));
    // May not need escaping
    if !has_byte(string, '"' as u8) && !has_byte(string, ',' as u8) && !has_byte(string, 10)
        && string[0] != ' ' as u8 && string[len - 1] != ' ' as u8 {
        return text;
    }
    // OK, so now we _do_ need escaping.
    let mut csv: Vec<u8> = Vec::new();
    csv.push('"' as u8);
    let mut i: usize = 0;
    assert(csv@ =~= seq!['"' as u8] + doubled(text@.take(0)));
    while i < len
        invariant
            i <= len,
            len == text@.len(),
            csv@ == seq!['"' as u8] + doubled(text@.take(i as int)),
        decreases len - i,
    {
        let ghost before = text@.take(i as int);
        let c = text[i];
        if c == '"' as u8 {
            csv.push('"' as u8);
        }
        csv.push(c);
        i = i + 1;
        assert(text@.take(i as int).drop_last() =~= before);
        assert(csv@ =~= seq!['"' as u8] + doubled(text@.take(i as int)));
    }
    csv.push('"' as u8);
    assert(text@.take(i as int) =~= text@);
    assert(csv@ =~= seq!['"' as u8] + doubled(text@) + seq!['"' as u8]);
    csv
}

/// CSV-escape a string.
pub fn csv_escape(string: &[u8]) -> (csv: Vec<u8>)
    ensures
        csv@ == csv_field(string@, string@.len() as int),
{
    csv_escape_len(string, string.len())
}

/// An event as a line of CSV.
pub open spec fn csv_line(path: PathState, mask: u32) -> Seq<u8> {
    let filename = csv_field(path.filename, path.dirnamelen);
    let names = events::shown_events(mask as i32, ',' as u8);
    (if filename.len() > 0 {
        filename + bytes::lit(",")
    } else {
        Seq::empty()
    }) + csv_field(names, names.len() as int) + bytes::lit(",") + csv_field(
        path.eventname,
        path.eventname.len() as int,
    ) + bytes::lit("\n")
}

/// An event as a line of CSV.
pub fn output_event_csv(path: &EventPath, event: &Event) -> (line: Vec<u8>)
    ensures
        line@ == csv_line(path@, event.mask),
{
    let mut line: Vec<u8> = Vec::new();
    let filename = csv_escape_len(path.filename.as_slice(), path.dirnamelen);
    if filename.len() > 0 {
        filename.put(&mut line);
        ",".put(&mut line);
        assert(line@ =~= filename@ + bytes::lit(","));
    }
    let names = events::event_names_sep(event.mask as i32, ',' as u8);
    csv_escape(names.as_slice()).put(&mut line);
    ",".put(&mut line);
    csv_escape(path.eventname.as_slice()).put(&mut line);
    "\n".put(&mut line);
    line
}

/// A text with each two quotes made one.
pub open spec fn undoubled(s: Seq<u8>) -> Seq<u8>
    decreases s.len(),
{
    if s.len() == 0 {
        Seq::empty()
    } else if s.len() > 1 && s.last() == '"' as u8 {
        undoubled(s.drop_last().drop_last()).push('"' as u8)
    } else {
        undoubled(s.drop_last()).push(s.last())
    }
}

/// What a CSV field stands for.
pub open spec fn csv_value(field: Seq<u8>) -> Seq<u8> {
    if field.len() >= 2 && field[0] == '"' as u8 {
        undoubled(field.subrange(1, field.len() - 1))
    } else {
        field
    }
}

proof fn lemma_undoubled(s: Seq<u8>)
    ensures
        undoubled(doubled(s)) == s,
    decreases s.len(),
{
    if s.len() > 0 {
        lemma_undoubled(s.drop_last());
        let d = doubled(s.drop_last());
        if s.last() == '"' as u8 {
            let all = d.push('"' as u8).push('"' as u8);
            assert(all.drop_last().drop_last() =~= d);
            assert(doubled(s) == all);
        } else {
            let all = d.push(s.last());
            assert(all.drop_last() =~= d);
            assert(doubled(s) == all);
        }
        assert(s.drop_last().push(s.last()) =~= s);
    }
}

/// A CSV field stands for the text it was made from, be it the whole string
/// or its beginning.
pub proof fn law_csv_round_trip(s: Seq<u8>, n: int)
    requires
        0 <= n <= MAX_STRLEN,
        n <= s.len(),
    ensures
        csv_value(csv_field(s, n)) == s.take(n),
{
    if n > 0 {
        if needs_quotes(s, n) {
            let d = doubled(s.take(n));
            let f = csv_field(s, n);
            assert(f.subrange(1, f.len() - 1) =~= d);
            lemma_undoubled(s.take(n));
        } else {
            assert(s[0] != '"' as u8) by {
                if s[0] == '"' as u8 {
                    assert(s.contains('"' as u8));
                }
            }
        }
    }
}

pub const HELP_USAGE: &'static str = "\n\
Wait for a particular event on a file or set of files.\n\
Usage: ";

pub const HELP_OPTIONS: &'static str = " [ options ] file1 [ file2 ] [ file3 ] [ ... ]\n\
Options:\n\
\t-h|--help     \tShow this help text.\n\
\t@<file>       \tExclude the specified file from being watched.\n\
\t--exclude <pattern>\n\
\t              \tExclude all events on files matching the\n\
\t              \textended regular expression <pattern>.\n\
\t              \tOnly the last --exclude option will be\n\
\t              \ttaken into consideration.\n\
\t--excludei <pattern>\n\
\t              \tLike --exclude but case insensitive.\n\
\t--include <pattern>\n\
\t              \tExclude all events on files except the ones\n\
\t              \tmatching the extended regular expression\n\
\t              \t<pattern>.\n\
\t--includei <pattern>\n\
\t              \tLike --include but case insensitive.\n\
\t-m|--monitor  \tKeep listening for events forever or until --timeout expires.\n\
\t              \tWithout this option, ";

pub const HELP_MONITOR: &'static str = " will exit after one event is received.\n\
\t-d|--daemon   \tSame as --monitor, except run in the background\n\
\t              \tlogging events to a file specified by --outfile.\n\
\t              \tImplies --syslog.\n\
\t-P|--no-dereference\n\
\t              \tDo not follow symlinks.\n\
\t-r|--recursive\tWatch directories recursively.\n\
\t-I|--inotify\tWatch with inotify.\n\
\t-F|--fanotify\tWatch with fanotify.\n\
\t-S|--filesystem\tWatch entire filesystem with fanotify.\n\
\t--fromfile <file>\n\
\t              \tRead files to watch from <file> or `-' for stdin.\n\
\t-o|--outfile <file>\n\
\t              \tPrint events to <file> rather than stdout.\n\
\t-s|--syslog   \tSend errors to syslog rather than stderr.\n\
\t-q|--quiet    \tPrint less (only print events).\n\
\t-qq           \tPrint nothing (not even events).\n\
\t--format <fmt>\tPrint using a specified printf-like format\n\
\t              \tstring; read the man page for more details.\n\
\t--no-newline  \tDon't print newline symbol after\n\
\t              \t--format string.\n\
\t--timefmt <fmt>\tstrftime-compatible format string for use with\n\
\t              \t%T in --format string.\n\
\t-c|--csv      \tPrint events in CSV format.\n\
\t-t|--timeout <seconds>\n\
\t              \tWhen listening for a single event, time out after\n\
\t              \twaiting for an event for <seconds> seconds.\n\
\t              \tIf <seconds> is zero, ";

pub const HELP_TIMEOUT: &'static str = " will never time out.\n\
\t-e|--event <event1> [ -e|--event <event2> ... ]\n\
\t\tListen for specific event(s).  If omitted, all events are \n\
\t\tlistened for.\n\n\
Exit status:\n\
\t0  -  An event you asked to watch for was received.\n\
\t1  -  An event you did not ask to watch for was received\n\
\t      (usually delete_self or unmount), or some error occurred.\n\
\t2  -  The --timeout option was given and no events occurred\n\
\t      in the specified interval of time.\n\n\
Events:\n";

/// The help text.
pub fn print_help(tool_name: &[u8], version: &str) -> (text: Vec<u8>)
    ensures
        text@ == tool_name@ + bytes::lit(" ") + bytes::lit(version) + bytes::lit(HELP_USAGE)
            + tool_name@ + bytes::lit(HELP_OPTIONS) + tool_name@ + bytes::lit(HELP_MONITOR)
            + tool_name@ + bytes::lit(HELP_TIMEOUT) + bytes::lit(common::EVENT_DESCRIPTIONS),
{
    let mut text = bytes::to_vec(tool_name);
    " ".put(&mut text);
    version.put(&mut text);
    HELP_USAGE.put(&mut text);
    tool_name.put(&mut text);
    HELP_OPTIONS.put(&mut text);
    tool_name.put(&mut text);
    HELP_MONITOR.put(&mut text);
    tool_name.put(&mut text);
    HELP_TIMEOUT.put(&mut text);
    common::print_event_descriptions().put(&mut text);
    text
}

/// The fields of a line of CSV: what stands between the commas that are not
/// within quotes.  `quoted` tells whether `line` begins within quotes, and
/// `field` is what the first field has so far.
pub open spec fn csv_fields(line: Seq<u8>, quoted: bool, field: Seq<u8>) -> Seq<Seq<u8>>
    decreases line.len(),
{
    if line.len() == 0 {
        seq![field]
    } else if line[0] == ',' as u8 && !quoted {
        seq![field] + csv_fields(line.skip(1), false, Seq::empty())
    } else {
        csv_fields(
            line.skip(1),
            if line[0] == '"' as u8 {
                !quoted
            } else {
                quoted
            },
            field.push(line[0]),
        )
    }
}

proof fn lemma_plain_field(text: Seq<u8>, rest: Seq<u8>, field: Seq<u8>)
    requires
        !text.contains('"' as u8),
        !text.contains(',' as u8),
    ensures
        csv_fields(text + rest, false, field) == csv_fields(rest, false, field + text),
    decreases text.len(),
{
    if text.len() == 0 {
        assert(text + rest =~= rest);
        assert(field + text =~= field);
    } else {
        let tail = text.skip(1);
        assert(text.contains(text[0]));
        assert forall|c: u8| tail.contains(c) implies text.contains(c) by {
            let i = tail.index_of(c);
            assert(text[i + 1] == c);
        }
        assert((text + rest).skip(1) =~= tail + rest);
        lemma_plain_field(tail, rest, field.push(text[0]));
        assert(field.push(text[0]) + tail =~= field + text);
    }
}

/// Doubled quotes do not end a quoted text.
proof fn lemma_quoted_text(text: Seq<u8>, rest: Seq<u8>, field: Seq<u8>)
    ensures
        csv_fields(doubled(text) + rest, true, field) == csv_fields(
            rest,
            true,
            field + doubled(text),
        ),
    decreases text.len(),
{
    let d = doubled(text);
    if text.len() == 0 {
        assert(d + rest =~= rest);
        assert(field + d =~= field);
    } else {
        let before = doubled(text.drop_last());
        let c = text.last();
        if c == '"' as u8 {
            let two = seq![c, c] + rest;
            assert(d + rest =~= before + two);
            lemma_quoted_text(text.drop_last(), two, field);
            let f = field + before;
            let one = seq![c] + rest;
            assert(two.skip(1) =~= one);
            assert(one.skip(1) =~= rest);
            assert(csv_fields(two, true, f) == csv_fields(one, false, f.push(c)));
            assert(csv_fields(one, false, f.push(c)) == csv_fields(rest, true, f.push(c).push(c)));
            assert(f.push(c).push(c) =~= field + d);
        } else {
            let one = seq![c] + rest;
            assert(d + rest =~= before + one);
            lemma_quoted_text(text.drop_last(), one, field);
            let f = field + before;
            assert(one.skip(1) =~= rest);
            assert(csv_fields(one, true, f) == csv_fields(rest, true, f.push(c)));
            assert(f.push(c) =~= field + d);
        }
    }
}

/// A field is read as a whole.
proof fn lemma_csv_field(s: Seq<u8>, n: int, rest: Seq<u8>)
    requires
        0 <= n <= s.len(),
    ensures
        csv_fields(csv_field(s, n) + rest, false, Seq::empty()) == csv_fields(
            rest,
            false,
            csv_field(s, n),
        ),
{
    let f = csv_field(s, n);
    let none = Seq::<u8>::empty();
    if n == 0 || n > MAX_STRLEN {
        assert(f + rest =~= rest);
        assert(f =~= none);
    } else if needs_quotes(s, n) {
        let q = '"' as u8;
        let d = doubled(s.take(n));
        let end = seq![q] + rest;
        assert(f + rest =~= seq![q] + (d + end));
        assert((f + rest).skip(1) =~= d + end);
        assert(csv_fields(f + rest, false, none) == csv_fields(d + end, true, none.push(q)));
        lemma_quoted_text(s.take(n), end, none.push(q));
        assert(end.skip(1) =~= rest);
        assert(csv_fields(end, true, none.push(q) + d) == csv_fields(
            rest,
            false,
            (none.push(q) + d).push(q),
        ));
        assert((none.push(q) + d).push(q) =~= f);
    } else {
        assert forall|c: u8| f.contains(c) implies s.contains(c) by {
            let i = f.index_of(c);
            assert(s[i] == c);
        }
        lemma_plain_field(f, rest, none);
        assert(none + f =~= f);
    }
}

/// A line of CSV reads back: it ends with a newline, and what stands between
/// its commas, those within quotes aside, are three fields for the directory,
/// the event names and the file name, or the latter two where there is no
/// directory.
pub proof fn law_csv_line_reads_back(path: PathState, mask: u32)
    requires
        0 <= path.dirnamelen <= path.filename.len(),
        path.dirnamelen <= MAX_STRLEN,
        path.eventname.len() <= MAX_STRLEN,
    ensures
        ({
            let line = csv_line(path, mask);
            let fields = csv_fields(line.drop_last(), false, Seq::empty());
            let n = fields.len();
            &&& line.len() > 0 && line.last() == 10
            &&& n == if path.dirnamelen > 0 {
                3nat
            } else {
                2nat
            }
            &&& path.dirnamelen > 0 ==> csv_value(fields[0]) == path.filename.take(path.dirnamelen)
            &&& csv_value(fields[n - 2]) == events::shown_events(mask as i32, ',' as u8)
            &&& csv_value(fields[n - 1]) == path.eventname
        }),
{
    let names = events::shown_events(mask as i32, ',' as u8);
    events::lemma_shown_short(mask as i32, ',' as u8);
    reveal_strlit(",");
    bytes::lemma_lit(",");
    reveal_strlit("\n");
    bytes::lemma_lit("\n");
    let comma = seq![',' as u8];
    assert(bytes::lit(",") =~= comma);
    let line = csv_line(path, mask);
    assert(line.last() == 10) by {
        assert(bytes::lit("\n")[0] == 10);
    }
    let f1 = csv_field(path.filename, path.dirnamelen);
    let f2 = csv_field(names, names.len() as int);
    let f3 = csv_field(path.eventname, path.eventname.len() as int);
    law_csv_round_trip(path.filename, path.dirnamelen);
    law_csv_round_trip(names, names.len() as int);
    law_csv_round_trip(path.eventname, path.eventname.len() as int);
    assert(names.take(names.len() as int) =~= names);
    assert(path.eventname.take(path.eventname.len() as int) =~= path.eventname);
    let none = Seq::<u8>::empty();
    let last = f2 + (comma + f3);
    lemma_csv_field(names, names.len() as int, comma + f3);
    assert((comma + f3).skip(1) =~= f3);
    lemma_csv_field(path.eventname, path.eventname.len() as int, none);
    assert(f3 + none =~= f3);
    assert(csv_fields(none, false, f3) =~= seq![f3]);
    assert(csv_fields(comma + f3, false, f2) =~= seq![f2, f3]);
    assert(csv_fields(last, false, none) == seq![f2, f3]);
    if path.dirnamelen > 0 {
        assert(f1.len() > 0);
        assert(line.drop_last() =~= f1 + (comma + last));
        lemma_csv_field(path.filename, path.dirnamelen, comma + last);
        assert((comma + last).skip(1) =~= last);
        assert(csv_fields(comma + last, false, f1) =~= seq![f1, f2, f3]);
    } else {
        assert(line.drop_last() =~= last);
    }
}

/// The program succeeds if the last event is one it listened for, fails if
/// it is another or an error kept it from events, and ends with 2 if there
/// was none in time.
pub proof fn law_exit_status(watched: i32, mask: u32, error: i32)
    ensures
        watched & mask as i32 != 0 ==> status_of(watched, mask) == 0,
        watched & mask as i32 == 0 ==> status_of(watched, mask) == 1,
        status_without_event(0) == 2,
        error != 0 ==> status_without_event(error) == 1,
{
}

/// Without a format, an event is shown as the watched directory or file, the
/// event names with commas and the name of the file, on a line with spaces in
/// between.
pub proof fn law_default_format(o: OptsState, vals: printf::Values)
    requires
        !o.csv,
        o.format is None,
    ensures
        o.event_format() is Some,
        vals.text(o.event_format()->0, 0, 0) == vals.path.filename.take(vals.path.dirnamelen)
            + seq![' ' as u8] + events::shown_events(vals.mask as i32, ',' as u8) + seq![' ' as u8]
            + vals.path.eventname + seq![10u8],
{
    reveal_strlit("%w %,e %f\n");
    bytes::lemma_lit("%w %,e %f\n");
    let fmt = bytes::lit("%w %,e %f\n");
    let none = Seq::<u8>::empty();
    let space = ' ' as u8;
    let f5 = seq![10u8];
    let f4 = seq!['%' as u8, 'f' as u8] + f5;
    let f3 = seq![space] + f4;
    let f2 = seq!['%' as u8, ',' as u8, 'e' as u8] + f3;
    let f1 = seq![space] + f2;
    let f0 = seq!['%' as u8, 'w' as u8] + f1;
    assert(fmt =~= f0);
    assert(f5 =~= seq![10u8] + none);
    printf::law_specifiers(vals, none, 10, 0);
    printf::law_specifiers(vals, f5, 10, 0);
    printf::law_specifiers(vals, f4, space, 0);
    printf::law_specifiers(vals, f3, ',' as u8, 0);
    printf::law_specifiers(vals, f2, space, 0);
    printf::law_specifiers(vals, f1, space, 0);
    let names = events::shown_events(vals.mask as i32, ',' as u8);
    let dir = vals.path.filename.take(vals.path.dirnamelen);
    assert(vals.text(fmt, 0, 0) =~= dir + seq![space] + names + seq![space] + vals.path.eventname
        + seq![10u8]);
}

/// CSV is shown without a format, and a given format as it is.
pub proof fn law_chosen_format(o: OptsState)
    ensures
        o.csv ==> o.event_format() is None,
        !o.csv && o.format is Some ==> o.event_format() == o.format,
{
}

/// What each option does, the others being left as they are.
pub proof fn law_options_do_what_they_say(o: OptsState, arg: Seq<u8>, parsed: Parsed)
    requires
        o.countable(),
    ensures
        o.with_option('h' as u8, None, parsed) == (o, StopState::Help),
        o.with_option('m' as u8, None, parsed) == (
            OptsState { monitor: true, ..o },
            StopState::No,
        ),
        o.with_option('d' as u8, None, parsed) == (
            OptsState { daemon: true, monitor: true, syslog: true, ..o },
            StopState::No,
        ),
        o.with_option('s' as u8, None, parsed) == (OptsState { syslog: true, ..o }, StopState::No),
        o.with_option('c' as u8, None, parsed) == (OptsState { csv: true, ..o }, StopState::No),
        o.with_option('P' as u8, None, parsed) == (
            OptsState { no_dereference: true, ..o },
            StopState::No,
        ),
        o.with_option('I' as u8, None, parsed) == (
            OptsState { fanotify: false, ..o },
            StopState::No,
        ),
        o.with_option('F' as u8, None, parsed) == (
            OptsState { fanotify: true, ..o },
            StopState::No,
        ),
        o.with_option('S' as u8, None, parsed) == (
            OptsState { fanotify: true, filesystem: true, ..o },
            StopState::No,
        ),
        o.with_option('0' as u8, None, parsed) == (
            OptsState { no_newline: true, ..o },
            StopState::No,
        ),
        o.with_option('q' as u8, None, parsed).0.quiet == o.quiet + 1,
        o.with_option('r' as u8, None, parsed).0.recursive == o.recursive + 1,
        o.with_option('f' as u8, None, parsed).1 is Complaint,
        o.with_option('n' as u8, Some(arg), parsed) == (
            OptsState { format: Some(arg), ..o },
            StopState::No,
        ),
        o.with_option('i' as u8, Some(arg), parsed) == (
            OptsState { timefmt: Some(arg), ..o },
            StopState::No,
        ),
        o.with_option('a' as u8, Some(arg), parsed).0.filters == (FiltersState {
            exc: Some(arg),
            ..o.filters
        }),
        o.with_option('b' as u8, Some(arg), parsed).0.filters == (FiltersState {
            exci: Some(arg),
            ..o.filters
        }),
        o.with_option('j' as u8, Some(arg), parsed).0.filters == (FiltersState {
            inc: Some(arg),
            ..o.filters
        }),
        o.with_option('k' as u8, Some(arg), parsed).0.filters == (FiltersState {
            inci: Some(arg),
            ..o.filters
        }),
        o.fromfile is None ==> o.with_option('z' as u8, Some(arg), parsed) == (
            OptsState { fromfile: Some(arg), ..o },
            StopState::No,
        ),
        o.fromfile is Some ==> o.with_option('z' as u8, Some(arg), parsed).1 is Complaint,
        o.outfile is None ==> o.with_option('o' as u8, Some(arg), parsed) == (
            OptsState { outfile: Some(arg), ..o },
            StopState::No,
        ),
        o.outfile is Some ==> o.with_option('o' as u8, Some(arg), parsed).1 is Complaint,
{
}

/// A timeout that is accepted is taken over, and one that is not stops; so do
/// event names that are unknown, while known ones join those before.
pub proof fn law_timeout_and_event_options(o: OptsState, arg: Seq<u8>, parsed: Parsed)
    ensures
        ({
            let (u, stop) = o.with_option('t' as u8, Some(arg), parsed);
            let fine = arg.len() > 0 && parsed.errno == 0 && parsed.consumed == arg.len();
            &&& fine ==> u == (OptsState { timeout: parsed.value, ..o }) && stop == StopState::No
            &&& !fine ==> stop is Complaint
        }),
        ({
            let (u, stop) = o.with_option('e' as u8, Some(arg), parsed);
            let mask = events::events_of(Some(arg), ',' as u8);
            &&& mask != -1 ==> u == (OptsState { events: o.events | mask, ..o }) && stop
                == StopState::No
            &&& mask == -1 ==> u == o && stop is Complaint
        }),
{
}

/// At first nothing is asked for: all events, once, for any time.
pub proof fn law_options_at_first(fanotify: bool)
    ensures
        ({
            let o = OptsState::initial(fanotify);
            &&& o.shown_events() == 0xfff
            &&& !o.monitor && !o.csv && !o.daemon && !o.syslog && !o.no_dereference
                && !o.filesystem && !o.no_newline
            &&& o.quiet == 0 && o.recursive == 0 && o.timeout == 0
            &&& o.format is None && o.timefmt is None && o.fromfile is None && o.outfile is None
            &&& o.filters.patterns().len() == 0
            &&& o.fanotify == fanotify
            &&& o.complaint() is None
        }),
{
}

/// A format gets a newline at its end, unless none is wanted.
pub proof fn law_formats_end_with_a_newline(o: OptsState)
    ensures
        o.format is None ==> o.completed() == o,
        o.no_newline ==> o.completed() == o,
        o.format is Some && !o.no_newline ==> o.completed() == (OptsState {
            format: Some(o.format->0 + seq![10u8]),
            ..o
        }),
{
    if o.format is Some {
        assert(o.format->0 + seq![10u8] =~= o.format->0.push(10));
    }
}

/// Which options do not go together.
pub proof fn law_options_that_conflict(o: OptsState)
    ensures
        o.complaint() is None <==> {
            &&& o.filters.conflict() is None
            &&& !(o.format is Some && o.csv)
            &&& !(o.format is None && o.no_newline)
            &&& !(o.format is None && o.timefmt is Some)
            &&& !(o.format is Some && o.timefmt is None && exists|i: int|
                0 <= i < o.format->0.len() - 1 && #[trigger] o.format->0[i] == '%' as u8
                    && o.format->0[i + 1] == 'T' as u8)
            &&& !(o.daemon && o.outfile is None)
        },
{
}

/// All that is shown is watched for; where directories are watched
/// recursively for good, so are the events that change the tree.
pub proof fn law_events_to_watch_for(o: OptsState)
    ensures
        o.watched_events() & o.shown_events() == o.shown_events(),
        o.monitor && o.recursive != 0 ==> o.watched_events() & 0x1c0 == 0x1c0,
        o.no_dereference ==> o.watched_events() & 0x0200_0000 != 0,
        o.fanotify ==> o.watched_events() & 0x4000_0000 != 0,
        !(o.monitor && o.recursive != 0) && !o.no_dereference && !o.fanotify
            ==> o.watched_events() == o.shown_events(),
        o.events != 0 ==> o.shown_events() == o.events,
        o.events == 0 ==> o.shown_events() == 0xfff,
{
    let s = o.shown_events();
    let t = consts::IN_CREATE | consts::IN_MOVED_TO | consts::IN_MOVED_FROM;
    assert(0x100i32 | 0x80i32 | 0x40i32 == 0x1c0) by (bit_vector);
    let a = if o.monitor && o.recursive != 0 {
        s | t
    } else {
        s
    };
    let b = if o.no_dereference {
        a | consts::IN_DONT_FOLLOW
    } else {
        a
    };
    let c = o.watched_events();
    assert(a == s || a == s | 0x1c0);
    assert(b == a || b == a | 0x0200_0000);
    assert(c == b || c == b | 0x4000_0000);
    assert(s & s == s) by (bit_vector);
    assert((s | 0x1c0) & s == s) by (bit_vector);
    assert(a & s == s);
    assert((a | 0x0200_0000) & s == s) by (bit_vector)
        requires
            a & s == s,
    ;
    assert((b | 0x4000_0000) & s == s) by (bit_vector)
        requires
            b & s == s,
    ;
    assert((s | 0x1c0) & 0x1c0 == 0x1c0) by (bit_vector);
    if o.monitor && o.recursive != 0 {
        assert((a | 0x0200_0000) & 0x1c0 == 0x1c0) by (bit_vector)
            requires
                a & 0x1c0 == 0x1c0,
        ;
        assert((b | 0x4000_0000) & 0x1c0 == 0x1c0) by (bit_vector)
            requires
                b & 0x1c0 == 0x1c0,
        ;
    }
    assert((a | 0x0200_0000) & 0x0200_0000 != 0) by (bit_vector);
    assert((b | 0x4000_0000) & 0x4000_0000 != 0) by (bit_vector);
    if o.no_dereference {
        assert((b | 0x4000_0000) & 0x0200_0000 != 0) by (bit_vector)
            requires
                b & 0x0200_0000 != 0,
        ;
    }
}

/// Events are shown if they were asked for, unless it is to be very quiet;
/// with an include filter, events on directories are not.
pub proof fn law_events_that_are_shown(o: OptsState, mask: i32)
    ensures
        o.quiet >= 2 ==> !o.shows(mask),
        mask & o.shown_events() == 0 ==> !o.shows(mask),
        o.quiet < 2 && mask & o.shown_events() != 0 && o.filters.inc is None && o.filters.inci is None
            ==> o.shows(mask),
        o.filters.inc is Some || o.filters.inci is Some ==> (o.shows(mask) <==> o.quiet < 2 && mask
            & o.shown_events() != 0 && mask & 0x4000_0000 == 0),
{
}

/// A field is quoted if some byte has a meaning in CSV or a space is at an
/// end, and stands as it is if not; what is too long is left out.
pub proof fn law_csv_quotes_where_needed(s: Seq<u8>, n: int)
    requires
        0 < n <= s.len(),
    ensures
        ({
            let plain = !s.contains('"' as u8) && !s.contains(',' as u8) && !s.contains(10) && s[0]
                != ' ' as u8 && s[n - 1] != ' ' as u8;
            let f = csv_field(s, n);
            &&& n <= 4096 && plain ==> f == s.take(n)
            &&& n <= 4096 && !plain ==> f.len() >= n + 2 && f[0] == '"' as u8 && f.last()
                == '"' as u8
            &&& n > 4096 ==> f.len() == 0
        }),
{
    if n <= 4096 && needs_quotes(s, n) {
        lemma_doubled_len(s.take(n));
    }
}

proof fn lemma_doubled_len(s: Seq<u8>)
    ensures
        doubled(s).len() >= s.len(),
    decreases s.len(),
{
    if s.len() > 0 {
        lemma_doubled_len(s.drop_last());
    }
}

/// It is warned of an exclude option that was given more than once.
pub proof fn law_repeated_options_are_warned_of(o: OptsState)
    ensures
        ({
            let a = bytes::lit(
                "--exclude: only the last option will be taken into consideration.\n",
            );
            let b = bytes::lit(
                "--excludei: only the last option will be taken into consideration.\n",
            );
            &&& o.exclude_count <= 1 && o.excludei_count <= 1 ==> o.warning() == Seq::<u8>::empty()
            &&& o.exclude_count > 1 && o.excludei_count <= 1 ==> o.warning() == a
            &&& o.exclude_count <= 1 && o.excludei_count > 1 ==> o.warning() == b
            &&& o.exclude_count > 1 && o.excludei_count > 1 ==> o.warning() == a + b
        }),
{
    reveal_strlit("--exclude: ");
    reveal_strlit("--excludei: ");
    reveal_strlit("only the last option will be taken into consideration.\n");
    reveal_strlit("--exclude: only the last option will be taken into consideration.\n");
    reveal_strlit("--excludei: only the last option will be taken into consideration.\n");
    bytes::lemma_lit("--exclude: ");
    bytes::lemma_lit("--excludei: ");
    bytes::lemma_lit(REGEX_WARNING);
    bytes::lemma_lit("--exclude: only the last option will be taken into consideration.\n");
    bytes::lemma_lit("--excludei: only the last option will be taken into consideration.\n");
    assert(bytes::lit("--exclude: ") + bytes::lit(REGEX_WARNING) =~= bytes::lit(
        "--exclude: only the last option will be taken into consideration.\n",
    ));
    assert(bytes::lit("--excludei: ") + bytes::lit(REGEX_WARNING) =~= bytes::lit(
        "--excludei: only the last option will be taken into consideration.\n",
    ));
    let none = Seq::<u8>::empty();
    assert(none + none =~= none);
    assert(bytes::lit("--exclude: ") + bytes::lit(REGEX_WARNING) + none =~= bytes::lit("--exclude: ")
        + bytes::lit(REGEX_WARNING));
    assert(none + (bytes::lit("--excludei: ") + bytes::lit(REGEX_WARNING)) =~= bytes::lit(
        "--excludei: ",
    ) + bytes::lit(REGEX_WARNING));
}

} // verus!
