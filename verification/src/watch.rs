//! inotifywatch - gather filesystem access statistics using inotify (or
//! fanotify).

use vstd::prelude::*;

use crate::bytes;
use crate::bytes::Piece;
use crate::common;
use crate::common::Filters;
use crate::common::FiltersState;
use crate::common::Parsed;
use crate::consts;
use crate::events;
use crate::inotify;
use crate::inotify::Inotifytools;
use crate::inotify::LibState;
use crate::inotify::WatchRef;
use crate::stats::WatchStats;
use crate::table::TableState;
use crate::wait;
use crate::wait::Ending;
use crate::wait::Stop;
use crate::wait::StopState;

verus! {

/// The options of inotifywatch.
pub struct Opts {
    pub events: i32,
    pub timeout: i64,
    pub verbose: i32,
    pub zero: i32,
    pub sort: i32,
    pub recursive: i32,
    pub no_dereference: i32,
    pub fromfile: Option<Vec<u8>>,
    pub filters: Filters,
    pub fanotify: bool,
    pub filesystem: bool,
    /// Whether -a was given
    pub sort_set: bool,
}

/// What [`Opts`] hold.
#[verifier::ext_equal]
pub struct OptsState {
    pub events: i32,
    pub timeout: i64,
    pub verbose: i32,
    pub zero: i32,
    pub sort: i32,
    pub recursive: i32,
    pub no_dereference: i32,
    pub fromfile: Option<Seq<u8>>,
    pub filters: FiltersState,
    pub fanotify: bool,
    pub filesystem: bool,
    pub sort_set: bool,
}

impl View for Opts {
    type V = OptsState;

    open spec fn view(&self) -> OptsState {
        OptsState {
            events: self.events,
            timeout: self.timeout,
            verbose: self.verbose,
            zero: self.zero,
            sort: self.sort,
            recursive: self.recursive,
            no_dereference: self.no_dereference,
            fromfile: bytes::opt_bytes(self.fromfile),
            filters: self.filters@,
            fanotify: self.fanotify,
            filesystem: self.filesystem,
            sort_set: self.sort_set,
        }
    }
}

/// The negative of a C `int`; the smallest has none and stays.
pub open spec fn negated(v: i32) -> i32 {
    if v == i32::MIN {
        v
    } else {
        (-v) as i32
    }
}

/// The key an event name means for sorting, or what is wrong with it.
pub open spec fn sort_key_of(name: Seq<u8>) -> Result<i32, Seq<u8>> {
    let event = events::events_of(Some(name), ',' as u8);
    if event == -1 {
        Err(bytes::lit("'") + name + bytes::lit("' is not a valid key for sorting!\n"))
    } else {
        Ok(event)
    }
}

/// The key to sort by in ascending order, or what is wrong with it.
pub open spec fn ascending_key(name: Seq<u8>) -> Result<i32, Seq<u8>> {
    if bytes::same_letters(name, bytes::lit("total")) {
        Ok(0)
    } else if bytes::same_letters(name, bytes::lit("move")) {
        Err(
            bytes::lit("Cannot sort by `move' event; please use `moved_from' or `moved_to'.\n"),
        )
    } else if bytes::same_letters(name, bytes::lit("close")) {
        Err(
            bytes::lit(
                "Cannot sort by `close' event; please use `close_write' or `close_nowrite'.\n",
            ),
        )
    } else {
        sort_key_of(name)
    }
}

/// The key to sort by in descending order, or what is wrong with it.
pub open spec fn descending_key(name: Seq<u8>) -> Result<i32, Seq<u8>> {
    if bytes::same_letters(name, bytes::lit("total")) {
        Ok((-1) as i32)
    } else {
        match sort_key_of(name) {
            Ok(event) => Ok(negated(event)),
            Err(msg) => Err(msg),
        }
    }
}

impl OptsState {
    /// The options at the start, by default with fanotify or not.
    pub open spec fn initial(fanotify: bool) -> OptsState {
        OptsState {
            events: 0,
            timeout: common::BLOCKING_TIMEOUT,
            verbose: 0,
            zero: 0,
            sort: (-1) as i32,
            recursive: 0,
            no_dereference: 0,
            fromfile: None,
            filters: FiltersState::none(),
            fanotify,
            filesystem: false,
            sort_set: false,
        }
    }

    /// Options can be counted further.
    pub open spec fn countable(self) -> bool {
        self.verbose < i32::MAX && self.zero < i32::MAX && self.recursive < i32::MAX
            && self.no_dereference < i32::MAX
    }

    /// The options after an `--ascending` or `--descending` argument.  Only
    /// the former may not be followed by another.
    pub open spec fn with_sort(self, arg: Option<Seq<u8>>, ascending: bool) -> (
        OptsState,
        StopState,
    ) {
        let name = match arg {
            Some(a) => a,
            None => Seq::empty(),
        };
        if self.sort_set {
            (self, StopState::Complaint(bytes::lit("Please specify -a or -d once only!\n")))
        } else {
            match (if ascending {
                ascending_key(name)
            } else {
                descending_key(name)
            }) {
                Ok(sort) => (OptsState { sort, sort_set: ascending, ..self }, StopState::No),
                Err(msg) => (self, StopState::Complaint(msg)),
            }
        }
    }

    /// The options after option `c`, and whether parsing stops.
    pub open spec fn with_option(self, c: u8, arg: Option<Seq<u8>>, parsed: Parsed) -> (
        OptsState,
        StopState,
    ) {
        let no = StopState::No;
        if c == 'h' as u8 {
            (self, StopState::Help)
        } else if c == 'v' as u8 {
            (OptsState { verbose: (self.verbose + 1) as i32, ..self }, no)
        } else if c == 'r' as u8 {
            (OptsState { recursive: (self.recursive + 1) as i32, ..self }, no)
        } else if c == 'I' as u8 {
            (OptsState { fanotify: false, ..self }, no)
        } else if c == 'F' as u8 {
            (OptsState { fanotify: true, ..self }, no)
        } else if c == 'S' as u8 {
            (OptsState { filesystem: true, fanotify: true, ..self }, no)
        } else if c == 'P' as u8 {
            (OptsState { no_dereference: (self.no_dereference + 1) as i32, ..self }, no)
        } else if c == 'z' as u8 {
            (OptsState { zero: (self.zero + 1) as i32, ..self }, no)
        } else if c == 'c' as u8 {
            (OptsState { filters: FiltersState { exc: arg, ..self.filters }, ..self }, no)
        } else if c == 'b' as u8 {
            (OptsState { filters: FiltersState { exci: arg, ..self.filters }, ..self }, no)
        } else if c == 'j' as u8 {
            (OptsState { filters: FiltersState { inc: arg, ..self.filters }, ..self }, no)
        } else if c == 'k' as u8 {
            (OptsState { filters: FiltersState { inci: arg, ..self.filters }, ..self }, no)
        } else if c == 'o' as u8 {
            if self.fromfile is Some {
                (self, StopState::Complaint(bytes::lit("Multiple --fromfile options given.\n")))
            } else {
                (OptsState { fromfile: arg, ..self }, no)
            }
        } else if c == 't' as u8 {
            let (timeout, stop) = wait::timeout_after(self.timeout, arg, parsed);
            (OptsState { timeout, ..self }, stop)
        } else if c == 'e' as u8 {
            let (events, stop) = wait::events_after(self.events, arg);
            (OptsState { events, ..self }, stop)
        } else if c == 'a' as u8 {
            self.with_sort(arg, true)
        } else if c == 'd' as u8 {
            self.with_sort(arg, false)
        } else {
            (self, no)
        }
    }

    /// The events that can be sorted by.
    pub open spec fn sortable_events(self) -> i32 {
        if self.events != 0 {
            self.events
        } else {
            consts::IN_ALL_EVENTS
        }
    }

    /// What is wrong with the options together.
    pub open spec fn complaint(self) -> Option<Seq<u8>> {
        let key = if self.sort < 0 {
            negated(self.sort)
        } else {
            self.sort
        };
        if self.sort != 0 && self.sort != -1 && key & self.sortable_events() == 0 {
            Some(bytes::lit("Can't sort by an event which isn't being watched for!\n"))
        } else {
            self.filters.conflict()
        }
    }

    /// The events that are watched for.
    pub open spec fn watched_events(self) -> i32 {
        let a = if self.no_dereference != 0 {
            self.sortable_events() | consts::IN_DONT_FOLLOW
        } else {
            self.sortable_events()
        };
        if self.fanotify {
            a | consts::IN_ISDIR
        } else {
            a
        }
    }
}

fn negate(v: i32) -> (r: i32)
    ensures
        r == negated(v),
{
    if v == i32::MIN {
        v
    } else {
        -v
    }
}

/// The key an event name means for sorting; a message if it is invalid.
pub fn sort_key(name: &[u8]) -> (r: Result<i32, Vec<u8>>)
    ensures
        match r {
            Ok(event) => sort_key_of(name@) == Ok::<i32, Seq<u8>>(event),
            Err(msg) => sort_key_of(name@) == Err::<i32, Seq<u8>>(msg@),
        },
{
    let event = events::str_to_event(Some(name));
    if event == -1 {
        let mut msg = bytes::text("'");
        name.put(&mut msg);
        "' is not a valid key for sorting!\n".put(&mut msg);
        return Err(msg);
    }
    Ok(event)
}

fn is_named(name: &[u8], word: &str) -> (yes: bool)
    ensures
        yes == bytes::same_letters(name@, bytes::lit(word)),
{
    let w = bytes::text(word);
    bytes::eq_ignore_case(name, w.as_slice())
}

impl Opts {
    /// The options at the start, by default with fanotify or not.
    pub fn new(fanotify: bool) -> (o: Opts)
        ensures
            o@ == OptsState::initial(fanotify),
    {
        Opts {
            events: 0,
            timeout: common::BLOCKING_TIMEOUT,
            verbose: 0,
            zero: 0,
            sort: -1,
            recursive: 0,
            no_dereference: 0,
            fromfile: None,
            filters: Filters::new(),
            fanotify,
            filesystem: false,
            sort_set: false,
        }
    }

    /// Whether options can be counted further.
    pub fn countable(&self) -> (yes: bool)
        ensures
            yes == self@.countable(),
    {
        self.verbose < i32::MAX && self.zero < i32::MAX && self.recursive < i32::MAX
            && self.no_dereference < i32::MAX
    }

    /// Take in an option with its argument, and what `strtol()` makes of the
    /// argument of `--timeout`.
    #[verifier::rlimit(40)]
    pub fn parse_opt(&mut self, c: u8, arg: Option<Vec<u8>>, parsed: &Parsed) -> (stop: Option<
        Stop,
    >)
        requires
            old(self)@.countable(),
        ensures
            (final(self)@, wait::stop_of(stop)) == old(self)@.with_option(
                c,
                bytes::opt_bytes(arg),
                *parsed,
            ),
    {
        if c == 'h' as u8 {
            return Some(Stop::Help);
        } else if c == 'v' as u8 {
            self.verbose = self.verbose + 1;
        } else if c == 'r' as u8 {
            self.recursive = self.recursive + 1;
        } else if c == 'I' as u8 {
            self.fanotify = false;
        } else if c == 'F' as u8 {
            self.fanotify = true;
        } else if c == 'S' as u8 {
            self.filesystem = true;
            self.fanotify = true;
        } else if c == 'P' as u8 {
            self.no_dereference = self.no_dereference + 1;
        } else if c == 'z' as u8 {
            self.zero = self.zero + 1;
        } else if c == 'c' as u8 {
            self.filters.exc = arg;
        } else if c == 'b' as u8 {
            self.filters.exci = arg;
        } else if c == 'j' as u8 {
            self.filters.inc = arg;
        } else if c == 'k' as u8 {
            self.filters.inci = arg;
        } else if c == 'o' as u8 {
            if self.fromfile.is_some() {
                return Some(Stop::Complaint(bytes::text("Multiple --fromfile options given.\n")));
            }
            self.fromfile = arg;
        } else if c == 't' as u8 {
            return wait::take_timeout(&mut self.timeout, arg, parsed);
        } else if c == 'e' as u8 {
            return wait::take_event(&mut self.events, arg);
        } else if c == 'a' as u8 {
            return self.take_sort(arg, true);
        } else if c == 'd' as u8 {
            return self.take_sort(arg, false);
        }
        None
    }

    fn take_sort(&mut self, arg: Option<Vec<u8>>, ascending: bool) -> (stop: Option<Stop>)
        ensures
            (final(self)@, wait::stop_of(stop)) == old(self)@.with_sort(
                bytes::opt_bytes(arg),
                ascending,
            ),
    {
        let name = match arg {
            Some(a) => a,
            None => Vec::new(),
        };
        if self.sort_set {
            return Some(Stop::Complaint(bytes::text("Please specify -a or -d once only!\n")));
        }
        let total = is_named(name.as_slice(), "total");
        if ascending {
            if total {
                self.sort = 0;
            } else if is_named(name.as_slice(), "move") {
                return Some(
                    Stop::Complaint(
                        bytes::text(
                            "Cannot sort by `move' event; please use `moved_from' or `moved_to'.\n",
                        ),
                    ),
                );
            } else if is_named(name.as_slice(), "close") {
                return Some(
                    Stop::Complaint(
                        bytes::text(
                            "Cannot sort by `close' event; please use `close_write' or `close_nowrite'.\n",
                        ),
                    ),
                );
            } else {
                match sort_key(name.as_slice()) {
                    Ok(key) => {
                        self.sort = key;
                    },
                    Err(msg) => {
                        return Some(Stop::Complaint(msg));
                    },
                }
            }
            self.sort_set = true;
        } else if total {
            self.sort = -1;
        } else {
            match sort_key(name.as_slice()) {
                Ok(key) => {
                    self.sort = negate(key);
                },
                Err(msg) => {
                    return Some(Stop::Complaint(msg));
                },
            }
        }
        None
    }

    /// Check the options once all are known; `invalid` tells whether there
    /// was an invalid option.
    pub fn parse_opts(&self, invalid: bool) -> (end: Ending)
        ensures
            match self@.complaint() {
                Some(msg) => !end.ok && end.message@ == msg,
                None => end.ok == !invalid && end.message@ == Seq::<u8>::empty(),
            },
    {
        let key: i32 = if self.sort < 0 {
            negate(self.sort)
        } else {
            self.sort
        };
        if self.sort != 0 && self.sort != -1 && key & self.sortable_events() == 0 {
            let message = bytes::text("Can't sort by an event which isn't being watched for!\n");
            return Ending { ok: false, message };
        }
        match self.filters.validate() {
            Err(message) => Ending { ok: false, message },
            Ok(_) => Ending { ok: !invalid, message: Vec::new() },
        }
    }

    fn sortable_events(&self) -> (events: i32)
        ensures
            events == self@.sortable_events(),
    {
        if self.events != 0 {
            self.events
        } else {
            consts::IN_ALL_EVENTS
        }
    }

    /// The events to watch for.
    pub fn watched_events(&self) -> (events: i32)
        ensures
            events == self@.watched_events(),
    {
        let mut events: i32 = self.sortable_events();
        if self.no_dereference != 0 {
            events = events | consts::IN_DONT_FOLLOW;
        }
        if self.fanotify {
            events = events | consts::IN_ISDIR;
        }
        events
    }

    /// What to say before a file is watched.
    pub fn before_message(&self, file: &[u8]) -> (msg: Option<Vec<u8>>)
        ensures
            bytes::opt_bytes(msg) == if self.filesystem {
                Some(bytes::lit("Setting up filesystem watch on ") + file@ + bytes::lit("\n"))
            } else if self.recursive != 0 && self.verbose != 0 {
                Some(bytes::lit("Setting up watch(es) on ") + file@ + bytes::lit("\n"))
            } else {
                None
            },
    {
        if self.filesystem {
            let mut msg = bytes::text("Setting up filesystem watch on ");
            file.put(&mut msg);
            "\n".put(&mut msg);
            Some(msg)
        } else if self.recursive != 0 && self.verbose != 0 {
            let mut msg = bytes::text("Setting up watch(es) on ");
            file.put(&mut msg);
            "\n".put(&mut msg);
            Some(msg)
        } else {
            None
        }
    }

    /// What to say after a file is watched.
    pub fn after_message(&self, file: &[u8]) -> (msg: Option<Vec<u8>>)
        ensures
            bytes::opt_bytes(msg) == if self.recursive != 0 && self.verbose != 0 {
                Some(bytes::lit("OK, ") + file@ + bytes::lit(" is now being watched.\n"))
            } else {
                None
            },
    {
        if self.recursive != 0 && self.verbose != 0 {
            let mut msg = bytes::text("OK, ");
            file.put(&mut msg);
            " is now being watched.\n".put(&mut msg);
            Some(msg)
        } else {
            None
        }
    }

    /// What to say once all watches are set up.
    pub fn established_message(&self, num_watches: u32) -> (msg: Vec<u8>)
        ensures
            msg@ == (if self.verbose != 0 {
                bytes::lit("Total of ") + bytes::decimal(num_watches as int) + bytes::lit(
                    " watches.\n",
                )
            } else {
                Seq::empty()
            }) + bytes::lit("Finished establishing watches, now collecting statistics.\n"),
    {
        let mut msg: Vec<u8> = Vec::new();
        if self.verbose != 0 {
            "Total of ".put(&mut msg);
            num_watches.put(&mut msg);
            " watches.\n".put(&mut msg);
            assert(msg@ =~= bytes::lit("Total of ") + bytes::decimal(num_watches as int)
                + bytes::lit(" watches.\n"));
        }
        "Finished establishing watches, now collecting statistics.\n".put(&mut msg);
        msg
    }

    /// What to say of how long is listened.
    pub fn timeout_message(&self) -> (msg: Option<Vec<u8>>)
        ensures
            bytes::opt_bytes(msg) == if self.timeout != 0 && self.verbose != 0 {
                Some(
                    bytes::lit("Will listen for events for ") + bytes::decimal(
                        self.timeout as u64 as int,
                    ) + bytes::lit(" seconds.\n"),
                )
            } else {
                None
            },
    {
        if self.timeout != 0 && self.verbose != 0 {
            let mut msg = bytes::text("Will listen for events for ");
            (self.timeout as u64).put(&mut msg);
            " seconds.\n".put(&mut msg);
            Some(msg)
        } else {
            None
        }
    }

    /// After how many seconds the alarm goes off.
    pub fn alarm_seconds(&self) -> (n: u32)
        ensures
            n == if self.timeout != 0 {
                self.timeout as u32
            } else {
                u32::MAX
            },
    {
        if self.timeout != 0 {
            self.timeout as u32
        } else {
            u32::MAX
        }
    }
}

/// The exit status when there is no event; `None` if it was only an
/// interruption.
pub open spec fn status_without_event(error: i32) -> Option<i32> {
    if error == 0 {
        Some(common::EXIT_TIMEOUT)
    } else if error != consts::EINTR {
        Some(common::EXIT_FAILURE)
    } else {
        None
    }
}

/// The exit status when there is no event; `None` if it was only an
/// interruption.
pub fn no_event_status(error: i32) -> (status: Option<i32>)
    ensures
        status == status_without_event(error),
{
    if error == 0 {
        Some(common::EXIT_TIMEOUT)
    } else if error != consts::EINTR {
        Some(common::EXIT_FAILURE)
    } else {
        None
    }
}

/// Number of columns for events.
pub const COLUMNS: usize = 13;

/// The event that column `i` counts.
pub open spec fn column_event(i: int) -> i32 {
    if i == 0 {
        consts::IN_ACCESS
    } else if i == 1 {
        consts::IN_MODIFY
    } else if i == 2 {
        consts::IN_ATTRIB
    } else if i == 3 {
        consts::IN_CLOSE_WRITE
    } else if i == 4 {
        consts::IN_CLOSE_NOWRITE
    } else if i == 5 {
        consts::IN_OPEN
    } else if i == 6 {
        consts::IN_MOVED_FROM
    } else if i == 7 {
        consts::IN_MOVED_TO
    } else if i == 8 {
        consts::IN_MOVE_SELF
    } else if i == 9 {
        consts::IN_CREATE
    } else if i == 10 {
        consts::IN_DELETE
    } else if i == 11 {
        consts::IN_DELETE_SELF
    } else {
        consts::IN_UNMOUNT
    }
}

/// The heading of column `i`.
pub open spec fn column_name(i: int) -> Seq<u8> {
    if i == 0 {
        bytes::lit("access")
    } else if i == 1 {
        bytes::lit("modify")
    } else if i == 2 {
        bytes::lit("attrib")
    } else if i == 3 {
        bytes::lit("close_write")
    } else if i == 4 {
        bytes::lit("close_nowrite")
    } else if i == 5 {
        bytes::lit("open")
    } else if i == 6 {
        bytes::lit("moved_from")
    } else if i == 7 {
        bytes::lit("moved_to")
    } else if i == 8 {
        bytes::lit("move_self")
    } else if i == 9 {
        bytes::lit("create")
    } else if i == 10 {
        bytes::lit("delete")
    } else if i == 11 {
        bytes::lit("delete_self")
    } else {
        bytes::lit("unmount")
    }
}

/// The event and heading of a column.
fn column(i: usize) -> (c: (i32, &'static str))
    requires
        i < COLUMNS,
    ensures
        c.0 == column_event(i as int),
        bytes::lit(c.1) == column_name(i as int),
{
    match i {
        0 => (consts::IN_ACCESS, "access"),
        1 => (consts::IN_MODIFY, "modify"),
        2 => (consts::IN_ATTRIB, "attrib"),
        3 => (consts::IN_CLOSE_WRITE, "close_write"),
        4 => (consts::IN_CLOSE_NOWRITE, "close_nowrite"),
        5 => (consts::IN_OPEN, "open"),
        6 => (consts::IN_MOVED_FROM, "moved_from"),
        7 => (consts::IN_MOVED_TO, "moved_to"),
        8 => (consts::IN_MOVE_SELF, "move_self"),
        9 => (consts::IN_CREATE, "create"),
        10 => (consts::IN_DELETE, "delete"),
        11 => (consts::IN_DELETE_SELF, "delete_self"),
        _ => (consts::IN_UNMOUNT, "unmount"),
    }
}

impl LibState {
    /// Number of occurrences of an event over all watches, or -1.
    pub open spec fn total_of(self, event: i32) -> i32 {
        match self.totals.counter(event) {
            Some(c) if self.collect_stats => c as i32,
            _ => (-1) as i32,
        }
    }
}

/// Column `i` is shown: its event is watched for, and occurred or zeros are
/// shown.
pub open spec fn is_shown(lib: LibState, events: i32, zero: i32, i: int) -> bool {
    column_event(i) & events != 0 && (zero != 0 || lib.total_of(column_event(i)) != 0)
}

/// The headings of the first `n` columns.
pub open spec fn headings(lib: LibState, events: i32, zero: i32, n: int) -> Seq<u8>
    decreases n,
{
    if n <= 0 {
        Seq::empty()
    } else if is_shown(lib, events, zero, n - 1) {
        headings(lib, events, zero, n - 1) + column_name(n - 1) + bytes::lit("  ")
    } else {
        headings(lib, events, zero, n - 1)
    }
}

/// A number filled up with spaces to a width, and two more.
pub open spec fn cell(v: u32, width: int) -> Seq<u8> {
    let digits = bytes::decimal(v as int);
    digits + bytes::spaces(width - digits.len()) + bytes::lit("  ")
}

/// How often an event occurred.
pub open spec fn count_of(stats: WatchStats, event: i32) -> u32 {
    match stats.counter(event) {
        Some(c) => c,
        None => 0,
    }
}

/// The counts in the first `n` columns.
pub open spec fn cells(lib: LibState, events: i32, zero: i32, stats: WatchStats, n: int) -> Seq<u8>
    decreases n,
{
    if n <= 0 {
        Seq::empty()
    } else if is_shown(lib, events, zero, n - 1) {
        cells(lib, events, zero, stats, n - 1) + cell(
            count_of(stats, column_event(n - 1)),
            column_name(n - 1).len() as int,
        )
    } else {
        cells(lib, events, zero, stats, n - 1)
    }
}

/// The first `n` rows of the table.
pub open spec fn table_rows(
    lib: LibState,
    events: i32,
    zero: i32,
    rows: Seq<(WatchRef, WatchStats)>,
    names: Seq<Seq<u8>>,
    n: int,
) -> Seq<u8>
    decreases n,
{
    if n <= 0 {
        Seq::empty()
    } else {
        let stats = rows[n - 1].1;
        table_rows(lib, events, zero, rows, names, n - 1) + (cell(stats.total, 5) + cells(
            lib,
            events,
            zero,
            stats,
            COLUMNS as int,
        ) + names[n - 1] + bytes::lit("\n"))
    }
}

/// Those of the first `n` watches `ids` that get a row: all with events, and
/// with zeros shown, all.
pub open spec fn listed(t: TableState, ids: Seq<u64>, zero: i32, n: int) -> Seq<u64>
    decreases n,
{
    if n <= 0 {
        Seq::empty()
    } else if zero != 0 || t.watches[ids[n - 1]].stats.total != 0 {
        listed(t, ids, zero, n - 1).push(ids[n - 1])
    } else {
        listed(t, ids, zero, n - 1)
    }
}

/// The ids of watches.
pub open spec fn ids_of(rows: Seq<(WatchRef, WatchStats)>) -> Seq<u64> {
    Seq::new(rows.len(), |i: int| rows[i].0.id())
}

/// The rows of the table: the sorted watches that are listed, with their
/// counters.
pub open spec fn are_rows(rows: Seq<(WatchRef, WatchStats)>, t: TableState, sort: i32, zero: i32) -> bool {
    &&& exists|ids: Seq<u64>| #[trigger]
        t.is_sorted(ids, inotify::sort_order(sort).0, inotify::sort_order(sort).1) && ids_of(rows)
            == listed(t, ids, zero, ids.len() as int)
    &&& forall|i: int|
        0 <= i < rows.len() ==> (#[trigger] rows[i]).1 == t.watches[rows[i].0.id()].stats
}

/// What is told of the statistics.
pub enum Info {
    /// There is nothing to tell (on standard error).
    NoEvents(Vec<u8>),
    /// The table (on standard output).
    Table(Vec<u8>),
}

fn put_cell(out: &mut Vec<u8>, v: u32, width: usize)
    ensures
        final(out)@ == old(out)@ + cell(v, width as int),
{
    let mut digits: Vec<u8> = Vec::new();
    v.put(&mut digits);
    assert(digits@ =~= bytes::decimal(v as int));
    let ghost before = out@;
    digits.put(out);
    let mut n: usize = digits.len();
    while n < width
        invariant
            digits@.len() <= n,
            n <= width || n == digits@.len(),
            out@ == before + digits@ + bytes::spaces(n - digits@.len()),
        decreases width - n,
    {
        out.push(' ' as u8);
        n = n + 1;
        assert(out@ =~= before + digits@ + bytes::spaces(n - digits@.len()));
    }
    assert(bytes::spaces(n - digits@.len()) =~= bytes::spaces(width - digits@.len()));
    "  ".put(out);
    assert(out@ =~= before + cell(v, width as int));
}

impl Opts {
    /// The watches that get a row in the table, with their statistics.
    pub fn rows(&self, lib: &Inotifytools) -> (rows: Vec<(WatchRef, WatchStats)>)
        requires
            lib.wf(),
        ensures
            are_rows(rows@, lib@.table, self.sort, self.zero),
    {
        let all = lib.watches_sorted_by_event(self.sort);
        let ghost t = lib@.table;
        let ghost ids = ids_of(all@);
        let mut rows: Vec<(WatchRef, WatchStats)> = Vec::new();
        let mut i: usize = 0;
        assert(ids_of(rows@) =~= listed(t, ids, self.zero, 0));
        while i < all.len()
            invariant
                i <= all@.len(),
                ids == ids_of(all@),
                ids.len() == all@.len(),
                forall|j: int|
                    0 <= j < all@.len() ==> (#[trigger] all@[j]).1 == t.watches[all@[j].0.id()].stats,
                ids_of(rows@) == listed(t, ids, self.zero, i as int),
                forall|j: int|
                    0 <= j < rows@.len() ==> (#[trigger] rows@[j]).1
                        == t.watches[rows@[j].0.id()].stats,
            decreases all@.len() - i,
        {
            let row = all[i];
            let ghost before = rows@;
            assert(all@[i as int].1 == t.watches[ids[i as int]].stats);
            if self.zero != 0 || row.1.total != 0 {
                rows.push(row);
                assert(ids_of(rows@) =~= ids_of(before).push(ids[i as int]));
            }
            i = i + 1;
        }
        rows
    }

    /// Whether column `i` is shown.
    fn shows_column(&self, lib: &Inotifytools, event: i32) -> (yes: bool)
        ensures
            yes == (event & self@.watched_events() != 0 && (self.zero != 0 || lib@.total_of(event)
                != 0)),
    {
        event & self.watched_events() != 0 && (self.zero != 0 || lib.get_stat_total(event) != 0)
    }

    fn put_headings(&self, lib: &Inotifytools, out: &mut Vec<u8>)
        ensures
            final(out)@ == old(out)@ + headings(
                lib@,
                self@.watched_events(),
                self.zero,
                COLUMNS as int,
            ),
    {
        let ghost before = out@;
        let mut i: usize = 0;
        assert(out@ =~= before + headings(lib@, self@.watched_events(), self.zero, 0));
        while i < COLUMNS
            invariant
                i <= COLUMNS,
                out@ == before + headings(lib@, self@.watched_events(), self.zero, i as int),
            decreases COLUMNS - i,
        {
            let (event, name) = column(i);
            if self.shows_column(lib, event) {
                name.put(out);
                "  ".put(out);
            }
            i = i + 1;
            assert(out@ =~= before + headings(
                lib@,
                self@.watched_events(),
                self.zero,
                i as int,
            ));
        }
    }

    fn put_cells(&self, lib: &Inotifytools, stats: &WatchStats, out: &mut Vec<u8>)
        ensures
            final(out)@ == old(out)@ + cells(
                lib@,
                self@.watched_events(),
                self.zero,
                *stats,
                COLUMNS as int,
            ),
    {
        let ghost before = out@;
        let mut i: usize = 0;
        assert(out@ =~= before + cells(lib@, self@.watched_events(), self.zero, *stats, 0));
        while i < COLUMNS
            invariant
                i <= COLUMNS,
                out@ == before + cells(
                    lib@,
                    self@.watched_events(),
                    self.zero,
                    *stats,
                    i as int,
                ),
            decreases COLUMNS - i,
        {
            let (event, name) = column(i);
            if self.shows_column(lib, event) {
                put_cell(out, stat(stats, event), name.as_bytes().len());
            }
            i = i + 1;
            assert(out@ =~= before + cells(
                lib@,
                self@.watched_events(),
                self.zero,
                *stats,
                i as int,
            ));
        }
    }

    /// Tell the statistics: the table of the watches of [`Opts::rows`], whose
    /// files have the given names.
    pub fn print_info(
        &self,
        lib: &Inotifytools,
        rows: &Vec<(WatchRef, WatchStats)>,
        names: &Vec<Vec<u8>>,
    ) -> (info: Info)
        requires
            rows@.len() == names@.len(),
        ensures
            match info {
                Info::NoEvents(msg) => lib@.total_of(0) == 0 && msg@ == bytes::lit(
                    "No events occurred.\n",
                ),
                Info::Table(text) => lib@.total_of(0) != 0 && text@ == bytes::lit("total  ")
                    + headings(lib@, self@.watched_events(), self.zero, COLUMNS as int)
                    + bytes::lit("filename\n") + table_rows(
                    lib@,
                    self@.watched_events(),
                    self.zero,
                    rows@,
                    bytes::names(names@),
                    rows@.len() as int,
                ),
            },
    {
        if lib.get_stat_total(0) == 0 {
            return Info::NoEvents(bytes::text("No events occurred.\n"));
        }
        let mut text = bytes::text("total  ");
        self.put_headings(lib, &mut text);
        "filename\n".put(&mut text);
        let ghost head = text@;
        let ghost events = self@.watched_events();
        let ghost all = bytes::names(names@);
        let mut i: usize = 0;
        assert(text@ =~= head + table_rows(lib@, events, self.zero, rows@, all, 0));
        while i < rows.len()
            invariant
                i <= rows@.len(),
                rows@.len() == names@.len(),
                events == self@.watched_events(),
                all == bytes::names(names@),
                text@ == head + table_rows(lib@, events, self.zero, rows@, all, i as int),
            decreases rows@.len() - i,
        {
            let ghost before = text@;
            let stats = rows[i].1;
            put_cell(&mut text, stats.total, 5);
            self.put_cells(lib, &stats, &mut text);
            names[i].put(&mut text);
            "\n".put(&mut text);
            assert(all[i as int] == names@[i as int]@);
            assert(text@ =~= before + (cell(stats.total, 5) + cells(
                lib@,
                events,
                self.zero,
                stats,
                COLUMNS as int,
            ) + all[i as int] + bytes::lit("\n")));
            i = i + 1;
            assert(text@ =~= head + table_rows(lib@, events, self.zero, rows@, all, i as int));
        }
        Info::Table(text)
    }
}

/// How often an event occurred.
pub fn stat(s: &WatchStats, ev: i32) -> (n: u32)
    ensures
        n == count_of(*s, ev),
{
    match s.get(ev) {
        Some(c) => c,
        None => 0,
    }
}

pub const HELP_TITLE: &'static str = "\n\
Gather filesystem usage statistics using ";

pub const HELP_OPTIONS: &'static str = " [ options ] file1 [ file2 ] [ ... ]\n\
Options:\n\
\t-h|--help    \tShow this help text.\n\
\t-v|--verbose \tBe verbose.\n\
\t@<file>       \tExclude the specified file from being watched.\n\
\t--fromfile <file>\n\
\t\tRead files to watch from <file> or `-' for stdin.\n\
\t--exclude <pattern>\n\
\t\tExclude all events on files matching the extended regular\n\
\t\texpression <pattern>.\n\
\t--excludei <pattern>\n\
\t\tLike --exclude but case insensitive.\n\
\t--include <pattern>\n\
\t\tExclude all events on files except the ones\n\
\t\tmatching the extended regular expression\n\
\t\t<pattern>.\n\
\t--includei <pattern>\n\
\t\tLike --include but case insensitive.\n\
\t-z|--zero\n\
\t\tIn the final table of results, output rows and columns even\n\
\t\tif they consist only of zeros (the default is to not output\n\
\t\tthese rows and columns).\n\
\t-r|--recursive\tWatch directories recursively.\n\
\t-I|--inotify\tWatch with inotify.\n\
\t-F|--fanotify\tWatch with fanotify.\n\
\t-S|--filesystem\tWatch entire filesystem with fanotify.\n\
\t-P|--no-dereference\n\
\t\tDo not follow symlinks.\n\
\t-t|--timeout <seconds>\n\
\t\tListen only for specified amount of time in seconds; if\n\
\t\tomitted or zero, ";

pub const HELP_TIMEOUT: &'static str = " will execute until receiving an\n\
\t\tinterrupt signal.\n\
\t-e|--event <event1> [ -e|--event <event2> ... ]\n\
\t\tListen for specific event(s).  If omitted, all events are \n\
\t\tlistened for.\n\
\t-a|--ascending <event>\n\
\t\tSort ascending by a particular event, or `total'.\n\
\t-d|--descending <event>\n\
\t\tSort descending by a particular event, or `total'.\n\n\
Exit status:\n\
\t0  -  Exited normally.\n\
\t1  -  Some error occurred.\n\n\
Events:\n";

/// The help text.
pub fn print_help(tool_name: &[u8], version: &str) -> (text: Vec<u8>)
    ensures
        text@ == tool_name@ + bytes::lit(" ") + bytes::lit(version) + bytes::lit(HELP_TITLE)
            + tool_name@ + bytes::lit(".\nUsage: ") + tool_name@ + bytes::lit(HELP_OPTIONS)
            + tool_name@ + bytes::lit(HELP_TIMEOUT) + bytes::lit(common::EVENT_DESCRIPTIONS),
{
    let mut text = bytes::to_vec(tool_name);
    " ".put(&mut text);
    version.put(&mut text);
    HELP_TITLE.put(&mut text);
    tool_name.put(&mut text);
    ".\nUsage: ".put(&mut text);
    tool_name.put(&mut text);
    HELP_OPTIONS.put(&mut text);
    tool_name.put(&mut text);
    HELP_TIMEOUT.put(&mut text);
    common::print_event_descriptions().put(&mut text);
    text
}

/// Interruptions do not end the program, other errors make it fail, and it
/// ends with 2 when the time is over.
pub proof fn law_exit_status(error: i32)
    ensures
        status_without_event(0) == Some(2i32),
        status_without_event(4) is None,
        error != 0 && error != 4 ==> status_without_event(error) == Some(1i32),
{
}

/// What each option does, the others being left as they are.
pub proof fn law_options_do_what_they_say(o: OptsState, arg: Seq<u8>, parsed: Parsed)
    requires
        o.countable(),
    ensures
        o.with_option('h' as u8, None, parsed) == (o, StopState::Help),
        o.with_option('v' as u8, None, parsed).0 == (OptsState {
            verbose: (o.verbose + 1) as i32,
            ..o
        }),
        o.with_option('r' as u8, None, parsed).0 == (OptsState {
            recursive: (o.recursive + 1) as i32,
            ..o
        }),
        o.with_option('z' as u8, None, parsed).0 == (OptsState { zero: (o.zero + 1) as i32, ..o }),
        o.with_option('P' as u8, None, parsed).0 == (OptsState {
            no_dereference: (o.no_dereference + 1) as i32,
            ..o
        }),
        o.with_option('I' as u8, None, parsed).0 == (OptsState { fanotify: false, ..o }),
        o.with_option('F' as u8, None, parsed).0 == (OptsState { fanotify: true, ..o }),
        o.with_option('S' as u8, None, parsed).0 == (OptsState {
            fanotify: true,
            filesystem: true,
            ..o
        }),
        o.with_option('c' as u8, Some(arg), parsed).0.filters == (FiltersState {
            exc: Some(arg),
            ..o.filters
        }),
        o.with_option('b' as u8, Some(arg), parsed).0.filters == (FiltersState {
            exci: Some(arg),
            ..o.filters
        }),
        o.with_option('j' as u8, Some(arg), parsed).0.filters == (FiltersState {
            inc: Some(arg),
            ..o.filters
        }),
        o.with_option('k' as u8, Some(arg), parsed).0.filters == (FiltersState {
            inci: Some(arg),
            ..o.filters
        }),
        o.fromfile is None ==> o.with_option('o' as u8, Some(arg), parsed).0 == (OptsState {
            fromfile: Some(arg),
            ..o
        }),
        o.fromfile is Some ==> o.with_option('o' as u8, Some(arg), parsed).1 is Complaint,
        ({
            let (u, stop) = o.with_option('t' as u8, Some(arg), parsed);
            let fine = arg.len() > 0 && parsed.errno == 0 && parsed.consumed == arg.len();
            &&& fine ==> u == (OptsState { timeout: parsed.value, ..o }) && stop == StopState::No
            &&& !fine ==> stop is Complaint
        }),
        ({
            let (u, stop) = o.with_option('e' as u8, Some(arg), parsed);
            let mask = events::events_of(Some(arg), ',' as u8);
            &&& mask != -1 ==> u == (OptsState { events: o.events | mask, ..o }) && stop
                == StopState::No
            &&& mask == -1 ==> u == o && stop is Complaint
        }),
{
}

/// At first the table is sorted descending by the total, and all events are
/// listened for until an interruption.
pub proof fn law_options_at_first(fanotify: bool)
    ensures
        ({
            let o = OptsState::initial(fanotify);
            &&& o.sort == -1
            &&& o.sortable_events() == 0xfff
            &&& o.timeout == 0 && o.verbose == 0 && o.zero == 0 && o.recursive == 0
                && o.no_dereference == 0
            &&& o.fromfile is None && !o.filesystem && !o.sort_set && o.fanotify == fanotify
            &&& o.filters.patterns().len() == 0
            &&& o.complaint() is None
        }),
{
}

/// `-a` sorts ascending and `-d` descending by an event or by the total;
/// ascending not by move or close, which are two events each.
pub proof fn law_sort_options(o: OptsState, name: Seq<u8>, parsed: Parsed)
    requires
        !o.sort_set,
    ensures
        ({
            let (a, stop_a) = o.with_option('a' as u8, Some(name), parsed);
            let (d, stop_d) = o.with_option('d' as u8, Some(name), parsed);
            let mask = events::events_of(Some(name), ',' as u8);
            let total = bytes::same_letters(name, bytes::lit("total"));
            let two = bytes::same_letters(name, bytes::lit("move")) || bytes::same_letters(
                name,
                bytes::lit("close"),
            );
            &&& total ==> a.sort == 0 && stop_a == StopState::No && d.sort == -1 && stop_d
                == StopState::No
            &&& !total && mask == -1 ==> stop_a is Complaint && stop_d is Complaint && d == o
            &&& !total && two ==> stop_a is Complaint && a == o
            &&& !total && !two && mask != -1 ==> a.sort == mask && stop_a == StopState::No
            &&& !total && mask != -1 && mask != i32::MIN ==> d.sort == -mask && stop_d
                == StopState::No
            &&& stop_a == StopState::No ==> a.sort_set
        }),
        (OptsState { sort_set: true, ..o }).with_option('a' as u8, Some(name), parsed).1 is Complaint,
{
}

/// The table can only be sorted by what is listened for, or the total.
pub proof fn law_sort_key_is_listened_for(o: OptsState)
    ensures
        o.sort == 0 || o.sort == -1 ==> o.complaint() == o.filters.conflict(),
        o.sort > 0 && o.sort & o.sortable_events() == 0 ==> o.complaint() is Some,
        i32::MIN < o.sort < -1 && ((-o.sort) as i32) & o.sortable_events() == 0 ==> o.complaint()
            is Some,
        o.sort > 0 && o.sort & o.sortable_events() != 0 ==> o.complaint() == o.filters.conflict(),
        i32::MIN < o.sort < -1 && ((-o.sort) as i32) & o.sortable_events() != 0 ==> o.complaint()
            == o.filters.conflict(),
{
}

/// All events asked for are listened for, or all there are.
pub proof fn law_events_to_watch_for(o: OptsState)
    ensures
        o.events != 0 && o.no_dereference == 0 && !o.fanotify ==> o.watched_events() == o.events,
        o.events == 0 && o.no_dereference == 0 && !o.fanotify ==> o.watched_events() == 0xfff,
        o.events != 0 ==> o.watched_events() & o.events == o.events,
        o.no_dereference != 0 ==> o.watched_events() & 0x0200_0000 != 0,
        o.fanotify ==> o.watched_events() & 0x4000_0000 != 0,
{
    let s = o.sortable_events();
    let a = if o.no_dereference != 0 {
        s | consts::IN_DONT_FOLLOW
    } else {
        s
    };
    let c = o.watched_events();
    assert(a == s || a == s | 0x0200_0000);
    assert(c == a || c == a | 0x4000_0000);
    assert(s & s == s) by (bit_vector);
    assert((s | 0x0200_0000) & s == s) by (bit_vector);
    assert((a | 0x4000_0000) & s == s) by (bit_vector)
        requires
            a & s == s,
    ;
    assert((s | 0x0200_0000) & 0x0200_0000 != 0) by (bit_vector);
    assert((a | 0x4000_0000) & 0x4000_0000 != 0) by (bit_vector);
    if o.no_dereference != 0 {
        assert((a | 0x4000_0000) & 0x0200_0000 != 0) by (bit_vector)
            requires
                a & 0x0200_0000 != 0,
        ;
    }
}

/// The columns are headed by the names of the events they count, in this
/// order.
pub proof fn law_columns_are_headed_by_their_events()
    ensures
        column_name(0) == bytes::lit("access") && column_event(0) == 0x1,
        column_name(1) == bytes::lit("modify") && column_event(1) == 0x2,
        column_name(2) == bytes::lit("attrib") && column_event(2) == 0x4,
        column_name(3) == bytes::lit("close_write") && column_event(3) == 0x8,
        column_name(4) == bytes::lit("close_nowrite") && column_event(4) == 0x10,
        column_name(5) == bytes::lit("open") && column_event(5) == 0x20,
        column_name(6) == bytes::lit("moved_from") && column_event(6) == 0x40,
        column_name(7) == bytes::lit("moved_to") && column_event(7) == 0x80,
        column_name(8) == bytes::lit("move_self") && column_event(8) == 0x800,
        column_name(9) == bytes::lit("create") && column_event(9) == 0x100,
        column_name(10) == bytes::lit("delete") && column_event(10) == 0x200,
        column_name(11) == bytes::lit("delete_self") && column_event(11) == 0x400,
        column_name(12) == bytes::lit("unmount") && column_event(12) == 0x2000,
        COLUMNS == 13,
{
}

/// A column is shown if its event is listened for, and occurred or zeros are
/// wanted: its heading and two spaces, and below it in every row the count,
/// filled up to the width of the heading.
pub proof fn law_columns_show_their_counts(
    lib: LibState,
    events: i32,
    zero: i32,
    stats: WatchStats,
    i: int,
    c: u32,
)
    requires
        lib.collect_stats,
        0 <= i < COLUMNS,
        stats.counter(column_event(i)) == Some(c),
    ensures
        ({
            let wanted = column_event(i) & events != 0 && (zero != 0 || lib.totals.counter(
                column_event(i),
            ) != Some(0u32));
            let heads = headings(lib, events, zero, i + 1);
            let row = cells(lib, events, zero, stats, i + 1);
            let head_before = headings(lib, events, zero, i);
            let row_before = cells(lib, events, zero, stats, i);
            let digits = bytes::decimal(c as int);
            &&& wanted ==> heads == head_before + column_name(i) + seq![32u8, 32u8]
            &&& !wanted ==> heads == head_before && row == row_before
            &&& wanted ==> bytes::starts_with(row, row_before + digits)
            &&& wanted && digits.len() <= column_name(i).len() ==> row.len() - row_before.len()
                == heads.len() - head_before.len()
            &&& bytes::number_of(digits, 10) == c
        }),
{
    reveal_strlit("  ");
    bytes::lemma_lit("  ");
    assert(bytes::lit("  ") =~= seq![32u8, 32u8]);
    bytes::law_decimal_reads_back(c as int);
    let row = cells(lib, events, zero, stats, i + 1);
    let row_before = cells(lib, events, zero, stats, i);
    let digits = bytes::decimal(c as int);
    let e = column_event(i);
    if let Some(n) = lib.totals.counter(e) {
        assert(n as i32 == 0 <==> n == 0) by (bit_vector);
    }
    if is_shown(lib, events, zero, i) {
        assert(row.take((row_before + digits).len() as int) =~= row_before + digits);
    }
}

/// Each row begins with the total, then has the counts in the columns, and
/// ends with the name of the file.
pub proof fn law_rows_end_with_the_filename(
    lib: LibState,
    events: i32,
    zero: i32,
    rows: Seq<(WatchRef, WatchStats)>,
    names: Seq<Seq<u8>>,
    n: int,
)
    requires
        0 < n <= rows.len(),
        names.len() == rows.len(),
    ensures
        ({
            let above = table_rows(lib, events, zero, rows, names, n - 1);
            let all = table_rows(lib, events, zero, rows, names, n);
            let row = all.skip(above.len() as int);
            let total = bytes::decimal(rows[n - 1].1.total as int);
            let counts = cells(lib, events, zero, rows[n - 1].1, 13);
            let end = counts + names[n - 1] + seq![10u8];
            &&& all.take(above.len() as int) == above
            &&& bytes::starts_with(row, total)
            &&& bytes::number_of(total, 10) == rows[n - 1].1.total
            &&& row.len() >= total.len() + end.len()
            &&& row.skip(row.len() - end.len()) == end
        }),
{
    reveal_strlit("\n");
    bytes::lemma_lit("\n");
    reveal_strlit("  ");
    bytes::lemma_lit("  ");
    assert(bytes::lit("\n") =~= seq![10u8]);
    let stats = rows[n - 1].1;
    bytes::law_decimal_reads_back(stats.total as int);
    let above = table_rows(lib, events, zero, rows, names, n - 1);
    let all = table_rows(lib, events, zero, rows, names, n);
    let total = bytes::decimal(stats.total as int);
    let first = cell(stats.total, 5);
    let counts = cells(lib, events, zero, stats, 13);
    let end = counts + names[n - 1] + seq![10u8];
    let row = all.skip(above.len() as int);
    assert(row =~= first + end);
    assert(all.take(above.len() as int) =~= above);
    assert(row.take(total.len() as int) =~= total);
    assert(row.skip(row.len() - end.len()) =~= end);
}

/// The watches with a row are those with events, or all where zeros are
/// wanted, in their order.
pub proof fn law_rows_are_those_with_events(t: TableState, ids: Seq<u64>, zero: i32, n: int)
    requires
        0 <= n < ids.len(),
    ensures
        zero != 0 || t.watches[ids[n]].stats.total != 0 ==> listed(t, ids, zero, n + 1) == listed(
            t,
            ids,
            zero,
            n,
        ) + seq![ids[n]],
        zero == 0 && t.watches[ids[n]].stats.total == 0 ==> listed(t, ids, zero, n + 1) == listed(
            t,
            ids,
            zero,
            n,
        ),
        listed(t, ids, zero, 0) == Seq::<u64>::empty(),
{
    assert(listed(t, ids, zero, n).push(ids[n]) =~= listed(t, ids, zero, n) + seq![ids[n]]);
}

/// The rows of the table are sorted as asked for.
pub proof fn law_rows_are_sorted(
    rows: Seq<(WatchRef, WatchStats)>,
    t: TableState,
    sort: i32,
    zero: i32,
    i: int,
    j: int,
)
    requires
        t.consistent(),
        are_rows(rows, t, sort, zero),
        0 <= i < j < rows.len(),
    ensures
        sort == 0 ==> rows[i].1.total <= rows[j].1.total,
        sort == -1 ==> rows[i].1.total >= rows[j].1.total,
        sort > 0 ==> (rows[i].1.counter(sort) matches Some(x) ==> (rows[j].1.counter(sort) matches Some(
            y,
        ) && x <= y)),
        i32::MIN < sort < -1 ==> (rows[i].1.counter((-sort) as i32) matches Some(x) ==> (
        rows[j].1.counter((-sort) as i32) matches Some(y) && x >= y)),
{
    let ids = choose|ids: Seq<u64>| #[trigger]
        t.is_sorted(ids, inotify::sort_order(sort).0, inotify::sort_order(sort).1) && ids_of(rows)
            == listed(t, ids, zero, ids.len() as int);
    lemma_listed(t, ids, zero, ids.len() as int, i, j);
    assert(ids_of(rows)[i] == rows[i].0.id());
    assert(ids_of(rows)[j] == rows[j].0.id());
    let (a, b) = choose|a: int, b: int|
        0 <= a < b < ids.len() && #[trigger] ids[a] == rows[i].0.id() && #[trigger] ids[b]
            == rows[j].0.id();
    inotify::law_sort_key_gives_event_and_direction(t, ids, sort, a, b);
    assert(rows[i].1 == t.watches[rows[i].0.id()].stats);
    assert(rows[j].1 == t.watches[rows[j].0.id()].stats);
}

/// What is listed stands in the order of the watches.
proof fn lemma_listed(t: TableState, ids: Seq<u64>, zero: i32, n: int, i: int, j: int)
    requires
        0 <= n <= ids.len(),
        0 <= i < j < listed(t, ids, zero, n).len(),
    ensures
        exists|a: int, b: int|
            0 <= a < b < n && #[trigger] ids[a] == listed(t, ids, zero, n)[i] && #[trigger] ids[b]
                == listed(t, ids, zero, n)[j],
    decreases n,
{
    if n > 0 {
        let before = listed(t, ids, zero, n - 1);
        let all = listed(t, ids, zero, n);
        if j < before.len() {
            lemma_listed(t, ids, zero, n - 1, i, j);
            let (a, b) = choose|a: int, b: int|
                0 <= a < b < n - 1 && #[trigger] ids[a] == before[i] && #[trigger] ids[b]
                    == before[j];
            assert(ids[a] == all[i] && ids[b] == all[j]);
        } else {
            lemma_listed_one(t, ids, zero, n - 1, i);
            let a = choose|a: int| 0 <= a < n - 1 && #[trigger] ids[a] == before[i];
            assert(ids[a] == all[i] && ids[n - 1] == all[j]);
        }
    }
}

proof fn lemma_listed_one(t: TableState, ids: Seq<u64>, zero: i32, n: int, i: int)
    requires
        0 <= n <= ids.len(),
        0 <= i < listed(t, ids, zero, n).len(),
    ensures
        exists|a: int| 0 <= a < n && #[trigger] ids[a] == listed(t, ids, zero, n)[i],
    decreases n,
{
    if n > 0 {
        let before = listed(t, ids, zero, n - 1);
        let all = listed(t, ids, zero, n);
        if i < before.len() {
            lemma_listed_one(t, ids, zero, n - 1, i);
            let a = choose|a: int| 0 <= a < n - 1 && #[trigger] ids[a] == before[i];
            assert(ids[a] == all[i]);
        } else {
            assert(ids[n - 1] == all[i]);
        }
    }
}

/// A descending order may be followed by another order, and then the last one
/// counts; an ascending one may not.
pub proof fn law_only_ascending_order_is_final(
    o: OptsState,
    first: Seq<u8>,
    second: Seq<u8>,
    parsed: Parsed,
)
    requires
        !o.sort_set,
        o.with_option('d' as u8, Some(first), parsed).1 == StopState::No,
    ensures
        ({
            let d = o.with_option('d' as u8, Some(first), parsed).0;
            let again = d.with_option('a' as u8, Some(second), parsed);
            let anew = o.with_option('a' as u8, Some(second), parsed);
            &&& anew.1 == StopState::No ==> again == anew
            &&& anew.1 != StopState::No ==> again.1 == anew.1 && again.0 == d
        }),
        ({
            let a = o.with_option('a' as u8, Some(second), parsed);
            a.1 == StopState::No ==> a.0.with_option('d' as u8, Some(first), parsed) == (
                a.0,
                StopState::Complaint(bytes::lit("Please specify -a or -d once only!\n")),
            )
        }),
{
}

/// Totals are those of the handle, and unknown while nothing is counted.
pub proof fn law_totals_are_those_of_the_handle(lib: LibState, event: i32)
    ensures
        !lib.collect_stats ==> lib.total_of(event) == -1,
        lib.collect_stats ==> lib.total_of(0) == lib.totals.total as i32,
        lib.total_of(event) == lib.stat_total(event),
{
}

} // verus!
