//! Reading events.
//!
//! The caller starts with [`Reply::Begin`], does what each [`Ask`] says and
//! hands the outcome back, until there is an event or none can be had.

use vstd::prelude::*;

use crate::buffer;
use crate::buffer::BufferState;
use crate::buffer::Event;
use crate::buffer::EventState;
use crate::buffer::FidRecord;
use crate::buffer::RecordState;
use crate::buffer::EVENT_SIZE;
use crate::buffer::HALF;
use crate::bytes;
use crate::bytes::Piece;
use crate::consts;
use crate::consts::MAX_STRLEN;
use crate::fid;
use crate::inotify::printf;
use crate::inotify::Inotifytools;
use crate::inotify::LibState;
use crate::inotify::PathState;
use crate::order;
use crate::order::ByteOrder;

verus! {

/// What the caller found out.
pub enum Reply {
    /// Nothing yet: an event is wanted.
    Begin,
    /// What `ppoll()` returned.
    Polled { rc: i32, errno: i32 },
    /// What `FIONREAD` returned, and the number of bytes it gave.
    Counted { rc: i32, available: u32, errno: i32 },
    /// What was read, or the error.
    Received(Result<Vec<u8>, i32>),
    /// The data may be looked at.
    Take,
    /// The path of the file of a fanotify event, if it had to and could be
    /// resolved.
    Converted { rec: FidRecord, path: Option<Vec<u8>> },
    /// The path of the file identifier of the event's watch.
    Named(Option<Vec<u8>>),
    /// Whether the regular expression matched.
    Matched(bool),
}

/// What the caller is to do next.
pub enum Ask {
    /// Wait for the event group.
    Poll,
    /// Ask how many bytes can be read.
    Count,
    /// Read up to `len` bytes.
    Read { offset: usize, len: usize },
    /// Go on with the data there is.
    Take,
    /// Resolve the path of the file of a fanotify event, if
    /// [`Inotifytools::is_new_file`].
    Convert(FidRecord),
    /// Resolve a file identifier, if there is one.
    Name(Option<Vec<u8>>),
    /// Match a path with the regular expression.
    Match(Vec<u8>),
    /// The event is not wanted; begin again.
    Again,
    /// Here is the event.
    Deliver(Event),
    /// There is no event; print a message.
    Complain(Vec<u8>),
    /// There is no event; see [`Inotifytools::error`].
    Nothing,
}

/// What an [`Ask`] says.
#[verifier::ext_equal]
pub enum AskState {
    Poll,
    Count,
    Read { offset: int, len: int },
    Take,
    Convert(RecordState),
    Name(Option<Seq<u8>>),
    Match(Seq<u8>),
    Again,
    Deliver(EventState),
    Complain(Seq<u8>),
    Nothing,
}

impl View for Ask {
    type V = AskState;

    open spec fn view(&self) -> AskState {
        match *self {
            Ask::Poll => AskState::Poll,
            Ask::Count => AskState::Count,
            Ask::Read { offset, len } => AskState::Read { offset: offset as int, len: len as int },
            Ask::Take => AskState::Take,
            Ask::Convert(rec) => AskState::Convert(rec@),
            Ask::Name(f) => AskState::Name(bytes::opt_bytes(f)),
            Ask::Match(s) => AskState::Match(s@),
            Ask::Again => AskState::Again,
            Ask::Deliver(ev) => AskState::Deliver(ev@),
            Ask::Complain(msg) => AskState::Complain(msg@),
            Ask::Nothing => AskState::Nothing,
        }
    }
}

/// The path that is matched with the regular expression: directory and name,
/// as far as they fit a formatted string.
pub open spec fn match_text(path: PathState) -> Seq<u8> {
    let dir = if path.dirname().len() <= MAX_STRLEN {
        path.dirname()
    } else {
        Seq::empty()
    };
    let all = if dir.len() >= MAX_STRLEN - 1 {
        dir
    } else {
        dir + path.eventname
    };
    bytes::c_str(
        if all.len() <= MAX_STRLEN {
            all
        } else {
            all.take(MAX_STRLEN as int)
        },
    )
}

impl LibState {
    /// The current event.
    pub open spec fn event(self) -> EventState {
        buffer::event_at(self.buffer.buf, self.table.order, self.buffer.ret_off)
    }

    /// The bytes read last still have a place after those read before.
    pub open spec fn reading(self) -> bool {
        self.buffer.bytes + self.buffer.this_bytes <= HALF
    }

    /// The data at the current position can be looked at.
    pub open spec fn can_take(self) -> bool {
        &&& self.reading()
        &&& if self.fanotify_mode {
            self.buffer.record_fits(self.table.order)
        } else {
            self.buffer.event_fits(self.table.order)
        }
    }

    /// The handle and what to do next once an event is wanted.
    pub open spec fn asked(self, num_events: i32) -> (LibState, AskState) {
        if num_events < 1 {
            (self, AskState::Nothing)
        } else {
            (
                LibState {
                    error: 0,
                    buffer: self.buffer.begun(self.fanotify_mode, self.table.order),
                    ..self
                },
                if self.buffer.ready(self.fanotify_mode, self.table.order) {
                    AskState::Take
                } else {
                    AskState::Poll
                },
            )
        }
    }

    /// The handle and what to do next once waiting ended.
    pub open spec fn polled(self, rc: i32, errno: i32) -> (LibState, AskState) {
        if rc < 0 {
            (LibState { error: errno, ..self }, AskState::Nothing)
        } else if rc == 0 {
            (self, AskState::Nothing)
        } else {
            (self, AskState::Count)
        }
    }

    /// The handle and what to do next once it is known how many bytes can be
    /// read.
    pub open spec fn available(
        self,
        num_events: i32,
        rc: i32,
        available: u32,
        errno: i32,
    ) -> (LibState, AskState) {
        if rc == 0 && available < 16 * num_events {
            (self, AskState::Count)
        } else if rc == -1 {
            (LibState { error: errno, ..self }, AskState::Nothing)
        } else {
            (
                self,
                AskState::Read { offset: self.buffer.bytes, len: HALF - self.buffer.bytes },
            )
        }
    }

    /// The handle and what to do next once data was read.
    pub open spec fn received(self, data: Result<Seq<u8>, i32>) -> (LibState, AskState) {
        match data {
            Err(e) => (LibState { error: e, ..self }, AskState::Nothing),
            Ok(d) => if d.len() == 0 {
                (
                    self,
                    AskState::Complain(
                        bytes::lit(
                            "Inotify reported end-of-file.  Possibly too many events occurred at once.\n",
                        ),
                    ),
                )
            } else {
                (LibState { buffer: self.buffer.filled(d), ..self }, AskState::Take)
            },
        }
    }

    /// The handle and what to do next once the data may be looked at.
    pub open spec fn taken(self) -> (LibState, AskState) {
        let order = self.table.order;
        if !self.fanotify_mode {
            LibState { buffer: self.buffer.passed(order).settled(), ..self }.judged(0)
        } else if self.buffer.has_fid(order) {
            (
                LibState { buffer: self.buffer.examined(order), ..self },
                AskState::Convert(self.buffer.record(order)),
            )
        } else {
            (
                LibState { buffer: self.buffer.examined(order), ..self },
                AskState::Complain(bytes::lit("No fid in fanotify event.\n")),
            )
        }
    }

    /// The watch a file identifier leads to.
    pub open spec fn id_of_fid(self, f: Seq<u8>) -> Option<u64> {
        let key = fid::key_of(f, self.table.order);
        if self.table.by_fid.contains_key(key) {
            Some(self.table.by_fid[key])
        } else {
            None
        }
    }

    /// The handle with the file of a fanotify event watched.
    pub open spec fn known(self, f: Seq<u8>, path: Option<Seq<u8>>) -> LibState {
        match path {
            Some(p) if self.id_of_fid(f) is None => LibState {
                table: self.table.created(0, Some(f), p, 0),
                ..self
            },
            _ => self,
        }
    }

    /// The watch descriptor of the file of a fanotify event, or 0.
    pub open spec fn known_wd(self, f: Seq<u8>, path: Option<Seq<u8>>) -> i32 {
        match self.id_of_fid(f) {
            Some(id) => self.table.watches[id].wd,
            None => if path is Some {
                self.table.assigned_wd(0)
            } else {
                0
            },
        }
    }

    /// The handle with a fanotify event in inotify form as its current event.
    pub open spec fn converted(self, rec: RecordState, path: Option<Seq<u8>>) -> LibState {
        let wd = self.known_wd(rec.fid, path);
        LibState {
            buffer: self.buffer.converted(self.table.order, rec, wd).settled(),
            ..self.known(rec.fid, path)
        }
    }

    /// The event is never filtered: a directory appeared where directories
    /// are watched recursively.
    pub open spec fn passes_filter(self) -> bool {
        let mask = self.event().mask as i32;
        self.recursive_watch != 0 && mask & consts::IN_ISDIR != 0 && mask & (consts::IN_CREATE
            | consts::IN_MOVED_TO) != 0
    }

    /// The handle with the current event counted.
    pub open spec fn delivered(self) -> LibState {
        if self.collect_stats {
            self.counted(self.event().wd, self.event().mask)
        } else {
            self
        }
    }

    /// The handle and what to do next once there is a current event, caused
    /// by process `pid`.
    pub open spec fn judged(self, pid: i32) -> (LibState, AskState) {
        if self.self_pid != 0 && self.self_pid == pid {
            (self, AskState::Again)
        } else if self.filtering && !self.passes_filter() {
            (self, AskState::Name(self.fid_of_wd(self.event().wd)))
        } else {
            (self.delivered(), AskState::Deliver(self.event()))
        }
    }

    /// The path of the current event.
    pub open spec fn event_path(self, resolved: Option<Seq<u8>>) -> PathState {
        self.path_of(self.event().wd, self.event().len, self.event().name, resolved)
    }

    /// The handle and what to do next after a reply.
    pub open spec fn after(self, num_events: i32, reply: Reply) -> (LibState, AskState) {
        match reply {
            Reply::Begin => self.asked(num_events),
            Reply::Polled { rc, errno } => self.polled(rc, errno),
            Reply::Counted { rc, available, errno } => self.available(
                num_events,
                rc,
                available,
                errno,
            ),
            Reply::Received(data) => self.received(
                match data {
                    Ok(d) => Ok(d@),
                    Err(e) => Err(e),
                },
            ),
            Reply::Take => self.taken(),
            Reply::Converted { rec, path } => self.converted(rec@, bytes::opt_bytes(path)).judged(
                self.buffer.pid(self.table.order, rec@),
            ),
            Reply::Named(path) => (
                self,
                AskState::Match(match_text(self.event_path(bytes::opt_bytes(path)))),
            ),
            Reply::Matched(matched) => if matched != self.invert_regexp {
                (self, AskState::Again)
            } else {
                (self.delivered(), AskState::Deliver(self.event()))
            },
        }
    }

    /// A reply that can be worked on: positions are not negative, no more
    /// was read than asked for, and there is room for another watch where
    /// one is added.
    pub open spec fn can_step(self, reply: Reply) -> bool {
        match reply {
            Reply::Begin => self.buffer.first_byte >= 0,
            Reply::Received(data) => data matches Ok(d) ==> self.buffer.bytes + d@.len() <= HALF,
            Reply::Take => self.can_take(),
            Reply::Converted { rec, path } => {
                &&& self.reading()
                &&& self.buffer.ret_off == HALF
                &&& rec@.fits()
                &&& path is Some && self.id_of_fid(rec@.fid) is None ==> self.table.has_room()
            },
            _ => true,
        }
    }
}

impl Inotifytools {
    /// Get the next event, having it waited until roughly `num_events`
    /// events are available: take in what the caller found out, and say what
    /// to do next.
    #[verifier::rlimit(30)]
    pub fn next_events(&mut self, num_events: i32, reply: Reply) -> (ask: Ask)
        requires
            old(self).wf(),
            old(self)@.can_step(reply),
        ensures
            final(self).wf(),
            (final(self)@, ask@) == old(self)@.after(num_events, reply),
            ask is Take && reply is Received ==> final(self)@.reading(),
            ask is Take && reply is Begin ==> final(self)@.reading(),
            ask matches Ask::Convert(rec) ==> rec@.fits() && final(self)@.buffer.ret_off == HALF
                && final(self)@.reading(),
    {
        match reply {
            Reply::Begin => self.begin(num_events),
            Reply::Polled { rc, errno } => self.poll_ended(rc, errno),
            Reply::Counted { rc, available, errno } => self.count(num_events, rc, available, errno),
            Reply::Received(data) => self.receive(data),
            Reply::Take => self.take(),
            Reply::Converted { rec, path } => {
                let pid = self.convert_fanotify_event(&rec, path);
                self.judge(pid)
            },
            Reply::Named(path) => {
                let ev = self.current_event();
                let path = self.filename_from_event(&ev, path);
                Ask::Match(match_subject(&path))
            },
            Reply::Matched(matched) => {
                if matched != self.invert_regexp {
                    Ask::Again
                } else {
                    self.deliver()
                }
            },
        }
    }

    fn begin(&mut self, num_events: i32) -> (ask: Ask)
        requires
            old(self).wf(),
            old(self)@.buffer.first_byte >= 0,
        ensures
            final(self).wf(),
            (final(self)@, ask@) == old(self)@.asked(num_events),
            ask is Take ==> final(self)@.reading(),
    {
        if num_events < 1 {
            return Ask::Nothing;
        }
        self.error = 0;
        if self.buffer.begin(self.fanotify_mode, self.table.order()) {
            Ask::Take
        } else {
            Ask::Poll
        }
    }

    fn poll_ended(&mut self, rc: i32, errno: i32) -> (ask: Ask)
        requires
            old(self).wf(),
        ensures
            final(self).wf(),
            (final(self)@, ask@) == old(self)@.polled(rc, errno),
    {
        if rc < 0 {
            self.error = errno;
            Ask::Nothing
        } else if rc == 0 {
            // timeout
            Ask::Nothing
        } else {
            Ask::Count
        }
    }

    fn count(&mut self, num_events: i32, rc: i32, available: u32, errno: i32) -> (ask: Ask)
        requires
            old(self).wf(),
        ensures
            final(self).wf(),
            (final(self)@, ask@) == old(self)@.available(num_events, rc, available, errno),
    {
        if rc == 0 && (available as i64) < 16 * num_events as i64 {
            // wait until we have enough bytes to read
            Ask::Count
        } else if rc == -1 {
            self.error = errno;
            Ask::Nothing
        } else {
            let offset = self.buffer.read_offset();
            Ask::Read { offset, len: HALF - offset }
        }
    }

    fn receive(&mut self, data: Result<Vec<u8>, i32>) -> (ask: Ask)
        requires
            old(self).wf(),
            data matches Ok(d) ==> old(self)@.buffer.bytes + d@.len() <= HALF,
        ensures
            final(self).wf(),
            (final(self)@, ask@) == old(self)@.received(
                match data {
                    Ok(d) => Ok(d@),
                    Err(e) => Err(e),
                },
            ),
            ask is Take ==> final(self)@.reading(),
    {
        match data {
            Err(e) => {
                self.error = e;
                Ask::Nothing
            },
            Ok(d) => {
                if d.len() == 0 {
                    return Ask::Complain(
                        bytes::text(
                            "Inotify reported end-of-file.  Possibly too many events occurred at once.\n",
                        ),
                    );
                }
                self.buffer.fill(d.as_slice());
                Ask::Take
            },
        }
    }

    /// Whether an event can be asked for: the position in the buffer is not
    /// negative.
    pub fn can_begin(&self) -> (yes: bool)
        ensures
            yes == (self@.buffer.first_byte >= 0),
    {
        self.buffer.first_byte() >= 0
    }

    /// Whether the data at the current position can be looked at.
    pub fn can_take(&self) -> (yes: bool)
        requires
            self.wf(),
        ensures
            yes == self@.can_take(),
    {
        self.buffer.read_offset() + self.buffer.this_bytes() <= HALF && if self.fanotify_mode {
            self.buffer.record_fits(self.table.order())
        } else {
            self.buffer.event_fits(self.table.order())
        }
    }

    /// Whether the events went beyond the data there is: a name is
    /// ridiculously long.
    pub fn overran(&self) -> (yes: bool)
        requires
            self.wf(),
        ensures
            yes == (self@.buffer.first_byte > self@.buffer.bytes),
    {
        self.buffer.first_byte() > 0 && self.buffer.first_byte() as usize
            > self.buffer.read_offset()
    }

    /// Look at the data at the current position.
    fn take(&mut self) -> (ask: Ask)
        requires
            old(self).wf(),
            old(self)@.can_take(),
        ensures
            final(self).wf(),
            (final(self)@, ask@) == old(self)@.taken(),
            ask matches Ask::Convert(rec) ==> rec@.fits() && final(self)@.buffer.ret_off == HALF
                && final(self)@.reading(),
    {
        if !self.fanotify_mode {
            self.buffer.pass(self.table.order());
            self.buffer.settle();
            return self.judge(0);
        }
        match self.buffer.examine(self.table.order()) {
            Some(rec) => Ask::Convert(rec),
            None => Ask::Complain(bytes::text("No fid in fanotify event.\n")),
        }
    }

    /// Whether the file of a fanotify event is not watched yet.
    pub fn is_new_file(&self, rec: &FidRecord) -> (yes: bool)
        requires
            self.wf(),
        ensures
            yes == (self@.id_of_fid(rec.fid@) is None),
    {
        self.table.id_by_fid(rec.fid.as_slice()).is_none()
    }

    /// Convert the fanotify event of a record into an inotify event in the
    /// second half of the event buffer.  Returns the process that caused it.
    fn convert_fanotify_event(&mut self, rec: &FidRecord, path: Option<Vec<u8>>) -> (pid: i32)
        requires
            old(self).wf(),
            old(self)@.reading(),
            old(self)@.buffer.ret_off == HALF,
            rec@.fits(),
            path is Some && old(self)@.id_of_fid(rec@.fid) is None ==> old(
                self,
            )@.table.has_room(),
        ensures
            final(self).wf(),
            pid == old(self)@.buffer.pid(old(self)@.table.order, rec@),
            final(self)@ == old(self)@.converted(rec@, bytes::opt_bytes(path)),
    {
        let wd = match self.table.id_by_fid(rec.fid.as_slice()) {
            Some(id) => self.table.wd_of(id),
            None => match path {
                Some(p) => {
                    let f = bytes::to_vec(rec.fid.as_slice());
                    match self.table.create(0, Some(f), p.as_slice(), 0) {
                        Some(wd) => wd,
                        None => 0,
                    }
                },
                None => 0,
            },
        };
        let pid = self.buffer.convert(self.table.order(), rec, wd);
        self.buffer.settle();
        pid
    }

    /// Whether the current event is wanted.
    fn judge(&mut self, pid: i32) -> (ask: Ask)
        requires
            old(self).wf(),
        ensures
            final(self).wf(),
            (final(self)@, ask@) == old(self)@.judged(pid),
    {
        // Skip events from self due to open_by_handle_at()
        if self.self_pid != 0 && self.self_pid == pid {
            return Ask::Again;
        }
        if self.filtering {
            let ev = self.current_event();
            let mask = ev.mask as i32;
            // Skip regex filtering for directories in recursive mode
            if !(self.recursive_watch != 0 && mask & consts::IN_ISDIR != 0 && mask & (
            consts::IN_CREATE | consts::IN_MOVED_TO) != 0) {
                return Ask::Name(self.fid_from_wd(ev.wd));
            }
        }
        self.deliver()
    }

    /// The current event.
    fn current_event(&self) -> (ev: Event)
        requires
            self.wf(),
        ensures
            ev@ == self@.event(),
    {
        self.buffer.current(self.table.order())
    }

    /// Count and hand out the current event.
    fn deliver(&mut self) -> (ask: Ask)
        requires
            old(self).wf(),
        ensures
            final(self).wf(),
            (final(self)@, ask@) == (
                old(self)@.delivered(),
                AskState::Deliver(old(self)@.event()),
            ),
    {
        let ev = self.current_event();
        if self.collect_stats {
            self.record_stats(ev.wd, ev.mask);
        }
        Ask::Deliver(ev)
    }

    /// What to print about a fanotify event, before it is converted.
    pub fn fanotify_event_message(&self, rec: &FidRecord) -> (msg: Vec<u8>)
        ensures
            msg@ == bytes::lit("fanotify_event: bytes=") + bytes::decimal(self@.buffer.bytes)
                + bytes::lit(", first_byte=") + bytes::decimal(self@.buffer.first_byte as int)
                + bytes::lit(", this_bytes=") + bytes::decimal(self@.buffer.this_bytes)
                + bytes::lit(", event_len=") + bytes::decimal(rec.event_len as int) + bytes::lit(
                ", fid_len=",
            ) + bytes::decimal(rec.fid_len as int) + bytes::lit(", name_len=") + bytes::decimal(
                rec.name_len as int,
            ) + bytes::lit(", name=") + rec.name@ + bytes::lit("\n"),
    {
        let mut msg = bytes::text("fanotify_event: bytes=");
        self.buffer.read_offset().put(&mut msg);
        ", first_byte=".put(&mut msg);
        self.buffer.first_byte().put(&mut msg);
        ", this_bytes=".put(&mut msg);
        self.buffer.this_bytes().put(&mut msg);
        ", event_len=".put(&mut msg);
        rec.event_len.put(&mut msg);
        ", fid_len=".put(&mut msg);
        rec.fid_len.put(&mut msg);
        ", name_len=".put(&mut msg);
        rec.name_len.put(&mut msg);
        ", name=".put(&mut msg);
        rec.name.put(&mut msg);
        "\n".put(&mut msg);
        msg
    }

    /// The first `size` bytes of the file handle of a record, as a number.
    fn handle_id(&self, rec: &FidRecord, size: usize) -> (id: u64)
        requires
            rec.meta <= HALF,
            size == 4 || size == 8,
        ensures
            id == self@.handle_id(rec.meta as int, size as int),
    {
        let at = rec.meta + fid::META_LEN + fid::FID_HDR;
        let order = self.table.order();
        let first: u64 = self.buffer.u32_at(order, at) as u64;
        if size == 4 {
            return first;
        }
        let second: u64 = self.buffer.u32_at(order, at + 4) as u64;
        match order {
            ByteOrder::Little => first + 0x1_0000_0000 * second,
            ByteOrder::Big => second + 0x1_0000_0000 * first,
        }
    }

    /// What to print about a fanotify event on a file that was not watched
    /// before, resolved to `filename`; a C `long` having `size` bytes.
    pub fn fid_message(&self, rec: &FidRecord, filename: Option<&[u8]>, size: usize) -> (msg: Vec<
        u8,
    >)
        requires
            rec.meta <= HALF,
            size == 4 || size == 8,
        ensures
            msg@ == bytes::lit("[fid=") + bytes::numeral(
                self@.table.order.u32_at(
                    self@.buffer.buf,
                    rec.meta + fid::META_LEN + 4,
                ) as nat,
                16,
            ) + bytes::lit(".") + bytes::numeral(
                self@.table.order.u32_at(
                    self@.buffer.buf,
                    rec.meta + fid::META_LEN + 8,
                ) as nat,
                16,
            ) + bytes::lit(".") + bytes::numeral(
                self@.handle_id(rec.meta as int, size as int) as nat,
                16,
            ) + bytes::lit(";name='") + rec.name@ + bytes::lit("'] ") + (match filename {
                Some(f) => f@,
                None => Seq::empty(),
            }) + bytes::lit("\n"),
    {
        let order = self.table.order();
        let at = rec.meta + fid::META_LEN;
        let mut msg = bytes::text("[fid=");
        bytes::put_numeral(&mut msg, self.buffer.u32_at(order, at + 4) as u64, 16);
        ".".put(&mut msg);
        bytes::put_numeral(&mut msg, self.buffer.u32_at(order, at + 8) as u64, 16);
        ".".put(&mut msg);
        bytes::put_numeral(&mut msg, self.handle_id(rec, size), 16);
        ";name='".put(&mut msg);
        rec.name.put(&mut msg);
        "'] ".put(&mut msg);
        match filename {
            Some(f) => f.put(&mut msg),
            None => {
                assert(msg@ =~= msg@ + Seq::empty());
            },
        }
        "\n".put(&mut msg);
        msg
    }
}

impl LibState {
    /// The first `size` bytes of the file handle of the record at `meta`, as
    /// a number.
    pub open spec fn handle_id(self, meta: int, size: int) -> u64 {
        let at = meta + fid::META_LEN + fid::FID_HDR;
        let first = self.table.order.u32_at(self.buffer.buf, at);
        let second = self.table.order.u32_at(self.buffer.buf, at + 4);
        if size == 4 {
            first as u64
        } else {
            match self.table.order {
                ByteOrder::Little => (first + 0x1_0000_0000 * second) as u64,
                ByteOrder::Big => (second + 0x1_0000_0000 * first) as u64,
            }
        }
    }
}

/// The timeout in seconds for a single event: 0 blocks.
pub fn next_event_timeout(timeout: i64) -> (t: i64)
    ensures
        t == if timeout == 0 {
            -1
        } else {
            timeout as int
        },
{
    if timeout == 0 {
        -1
    } else {
        timeout
    }
}

/// The path that is matched with the regular expression.
fn match_subject(path: &crate::inotify::EventPath) -> (s: Vec<u8>)
    requires
        path.dirnamelen <= path.filename@.len(),
    ensures
        s@ == match_text(path@),
{
    let mut all: Vec<u8> = Vec::new();
    if path.dirnamelen <= MAX_STRLEN {
        all = bytes::copy_range(path.filename.as_slice(), 0, path.dirnamelen);
        assert(all@ =~= path@.dirname());
    }
    if all.len() < MAX_STRLEN - 1 {
        path.eventname.put(&mut all);
    }
    if all.len() <= MAX_STRLEN {
        bytes::cstring(all.as_slice())
    } else {
        let cut = bytes::copy_range(all.as_slice(), 0, MAX_STRLEN);
        assert(cut@ =~= all@.take(MAX_STRLEN as int));
        bytes::cstring(cut.as_slice())
    }
}

/// An event in the form of the kernel.
pub struct KernelEvent {
    pub wd: i32,
    pub mask: u32,
    pub cookie: u32,
    /// The bytes of the name, with anything behind the first NUL.
    pub field: Seq<u8>,
}

impl KernelEvent {
    /// The event it is: the name ends before the first NUL.
    pub open spec fn event(self) -> EventState {
        EventState {
            wd: self.wd,
            mask: self.mask,
            cookie: self.cookie,
            len: self.field.len() as u32,
            name: bytes::c_str(self.field),
        }
    }

    /// The kernel can write it: the length of the name can be counted.
    pub open spec fn is_proper(self) -> bool {
        self.field.len() <= u32::MAX
    }
}

/// An event as the kernel writes it: four numbers, and the name.
pub open spec fn encoded(order: ByteOrder, ev: KernelEvent) -> Seq<u8> {
    order.u32_bytes(ev.wd as u32) + order.u32_bytes(ev.mask) + order.u32_bytes(ev.cookie)
        + order.u32_bytes(ev.field.len() as u32) + ev.field
}

/// The events that were written.
pub open spec fn events_of(evs: Seq<KernelEvent>) -> Seq<EventState> {
    evs.map_values(|ev: KernelEvent| ev.event())
}

/// Events as the kernel writes them, one after the other.
pub open spec fn stream(order: ByteOrder, evs: Seq<KernelEvent>) -> Seq<u8>
    decreases evs.len(),
{
    if evs.len() == 0 {
        Seq::empty()
    } else {
        encoded(order, evs[0]) + stream(order, evs.skip(1))
    }
}

/// What the kernel wrote as an event is read as that event.
pub proof fn law_event_is_read_back(order: ByteOrder, buf: Seq<u8>, off: int, ev: KernelEvent)
    requires
        0 <= off,
        off + EVENT_SIZE + ev.field.len() <= buf.len(),
        ev.is_proper(),
        buf.subrange(off, off + EVENT_SIZE + ev.field.len()) == encoded(order, ev),
    ensures
        buffer::event_at(buf, order, off) == ev.event(),
{
    let a = order.u32_bytes(ev.wd as u32);
    let b = order.u32_bytes(ev.mask);
    let c = order.u32_bytes(ev.cookie);
    let len = ev.field.len() as u32;
    let d = order.u32_bytes(len);
    let n = ev.field;
    let all = encoded(order, ev);
    assert(all =~= Seq::<u8>::empty() + a + (b + c + d + n));
    assert(all =~= a + b + (c + d + n));
    assert(all =~= (a + b) + c + (d + n));
    assert(all =~= (a + b + c) + d + n);
    order::lemma_u32_in(order, buf, off, Seq::empty(), ev.wd as u32, b + c + d + n);
    order::lemma_u32_in(order, buf, off, a, ev.mask, c + d + n);
    order::lemma_u32_in(order, buf, off, a + b, ev.cookie, d + n);
    order::lemma_u32_in(order, buf, off, a + b + c, len, n);
    let wd = ev.wd;
    assert((wd as u32) as i32 == wd) by (bit_vector);
    let start = off + EVENT_SIZE;
    assert(buf.subrange(start, start + len) =~= n) by {
        assert forall|i: int| 0 <= i < len implies buf.subrange(start, start + len)[i]
            == n[i] by {
            assert(buf.subrange(off, off + EVENT_SIZE + len)[EVENT_SIZE + i] == all[EVENT_SIZE
                + i]);
        }
    }
}

impl LibState {
    /// What was read and not yet taken are the events `evs`.
    pub open spec fn pending(self, evs: Seq<KernelEvent>) -> bool {
        let from = self.buffer.first_byte as int;
        let to = self.buffer.bytes + self.buffer.this_bytes;
        &&& self.buffer.buf.len() == 2 * HALF
        &&& 0 <= from <= to <= HALF
        &&& 0 <= self.buffer.this_bytes
        &&& self.buffer.buf.subrange(from, to) == stream(self.table.order, evs)
        &&& forall|i: int| 0 <= i < evs.len() ==> (#[trigger] evs[i]).is_proper()
    }

    /// The handle hands out exactly the events `evs`, in this order, without
    /// reading in between.
    pub open spec fn delivers(self, evs: Seq<EventState>, num_events: i32) -> bool
        decreases evs.len(),
    {
        evs.len() == 0 || {
            let (next, ask) = self.taken();
            &&& self.can_take()
            &&& ask == AskState::Deliver(evs[0])
            &&& if evs.len() == 1 {
                next.buffer.first_byte == 0
            } else {
                let (again, what) = next.asked(num_events);
                &&& what == AskState::Take
                &&& again.delivers(evs.skip(1), num_events)
            }
        }
    }
}

/// The first of the pending events, and the others.
proof fn lemma_first_pending(s: LibState, evs: Seq<KernelEvent>)
    requires
        s.pending(evs),
        evs.len() > 0,
    ensures
        ({
            let from = s.buffer.first_byte as int;
            let to = s.buffer.bytes + s.buffer.this_bytes;
            let next = from + EVENT_SIZE + evs[0].field.len();
            &&& next <= to
            &&& buffer::event_at(s.buffer.buf, s.table.order, from) == evs[0].event()
            &&& s.table.order.u32_at(s.buffer.buf, from + 12) == evs[0].field.len()
            &&& s.buffer.buf.subrange(next, to) == stream(s.table.order, evs.skip(1))
            &&& forall|i: int|
                0 <= i < evs.len() - 1 ==> (#[trigger] evs.skip(1)[i]).is_proper()
        }),
{
    let order = s.table.order;
    let ev = evs[0];
    let rest = evs.skip(1);
    let from = s.buffer.first_byte as int;
    let to = s.buffer.bytes + s.buffer.this_bytes;
    let first = encoded(order, ev);
    let tail = stream(order, rest);
    let all = first + tail;
    let text = s.buffer.buf.subrange(from, to);
    assert(text == all);
    assert(evs[0].is_proper());
    assert(first.len() == EVENT_SIZE + ev.field.len());
    assert(text.take(first.len() as int) =~= first);
    assert(s.buffer.buf.subrange(from, from + first.len()) =~= text.take(first.len() as int));
    assert(text.skip(first.len() as int) =~= tail);
    assert(s.buffer.buf.subrange(from + first.len(), to) =~= text.skip(first.len() as int));
    law_event_is_read_back(order, s.buffer.buf, from, ev);
    assert forall|i: int| 0 <= i < rest.len() implies (#[trigger] rest[i]).is_proper() by {
        assert(rest[i] == evs[i + 1]);
    }
}

/// In inotify mode without a filter, the events that were read are handed
/// out, all of them and in order.
#[verifier::rlimit(40)]
pub proof fn law_events_come_in_order(s: LibState, evs: Seq<KernelEvent>, num_events: i32)
    requires
        !s.fanotify_mode,
        !s.filtering,
        num_events >= 1,
        s.pending(evs),
    ensures
        s.delivers(events_of(evs), num_events),
    decreases evs.len(),
{
    if evs.len() > 0 {
        let order = s.table.order;
        let rest = evs.skip(1);
        lemma_first_pending(s, evs);
        let (next, ask) = s.taken();
        assert(next.buffer == s.buffer.passed(order).settled());
        assert(ask == AskState::Deliver(evs[0].event()));
        if evs.len() == 1 {
            assert(stream(order, rest) =~= Seq::empty());
        } else {
            let b = next.buffer;
            // The state in which the next event is looked at.
            let again = next.asked(num_events).0;
            let mid = LibState { buffer: BufferState { this_bytes: 0, ..b }, ..next };
            assert(stream(order, rest).len() >= EVENT_SIZE);
            assert(mid.pending(rest));
            lemma_first_pending(mid, rest);
            assert(b.ready(false, order));
            assert(again.pending(rest));
            law_events_come_in_order(again, rest, num_events);
            assert(events_of(evs).skip(1) =~= events_of(rest));
        }
    }
}

/// In inotify mode without a filter, where nothing is left over, events that
/// the kernel has ready are read at once, and then handed out, all of them
/// and in order, without reading again.
pub proof fn law_read_events_come_in_order(
    s: LibState,
    evs: Seq<KernelEvent>,
    num_events: i32,
    available: u32,
)
    requires
        !s.fanotify_mode,
        !s.filtering,
        num_events >= 1,
        s.buffer.buf.len() == 2 * HALF,
        s.buffer.first_byte == 0,
        evs.len() > 0,
        forall|i: int| 0 <= i < evs.len() ==> (#[trigger] evs[i]).is_proper(),
        stream(s.table.order, evs).len() <= HALF,
        available >= 16 * num_events,
    ensures
        ({
            let data = stream(s.table.order, evs);
            let (begun, first) = s.asked(num_events);
            let (read, last) = begun.received(Ok(data));
            &&& first == AskState::Poll
            &&& begun.polled(1, 0) == (begun, AskState::Count)
            &&& begun.available(num_events, 0, available, 0) == (
                begun,
                AskState::Read { offset: 0, len: HALF as int },
            )
            &&& last == AskState::Take
            &&& read.delivers(events_of(evs), num_events)
        }),
{
    let data = stream(s.table.order, evs);
    let begun = s.asked(num_events).0;
    assert(data.len() >= EVENT_SIZE);
    let read = begun.received(Ok(data)).0;
    assert(read.buffer.buf.subrange(0, data.len() as int) =~= data);
    assert(read.pending(evs));
    law_events_come_in_order(read, evs, num_events);
}

/// The path that is matched with the regular expression is the event
/// formatted with "%w%f".
pub proof fn law_filter_matches_formatted_path(vals: printf::Values, buf: Seq<u8>)
    requires
        buf.len() == MAX_STRLEN,
        0 <= vals.path.dirnamelen <= vals.path.filename.len(),
    ensures
        ({
            let o = vals.run(bytes::lit("%w%f"), MAX_STRLEN as int, 0, buf, 0, 0);
            &&& o.valid
            &&& match_text(vals.path) == bytes::c_str(o.buf.take(o.ind))
        }),
{
    let fmt = bytes::lit("%w%f");
    reveal_strlit("%w%f");
    bytes::lemma_lit("%w%f");
    assert(fmt[0] == '%' as u8 && fmt[1] == 'w' as u8 && fmt[2] == '%' as u8 && fmt[3]
        == 'f' as u8);
    assert(fmt.len() == 4);
    let size = MAX_STRLEN as int;
    let d = vals.path.dirname();
    let name = vals.path.eventname;
    let dir = if d.len() <= size {
        d
    } else {
        Seq::empty()
    };
    let b1 = order::overwrite(buf, 0, dir);
    reveal_with_fuel(printf::Values::run, 4);
    let o1 = vals.run(fmt, size, 2, b1, dir.len() as int, 0);
    assert(vals.run(fmt, size, 0, buf, 0, 0) == o1);
    if dir.len() >= size - 1 {
        assert(b1.take(dir.len() as int) =~= dir);
    } else {
        let b2 = order::overwrite(b1, dir.len() as int, printf::padded(name, size - dir.len()));
        assert(o1.buf == b2);
        let all = dir + name;
        let cut = if all.len() <= size {
            all
        } else {
            all.take(size)
        };
        assert(o1.ind == cut.len());
        assert(b2.take(o1.ind) =~= cut);
    }
}

/// A fanotify event becomes an inotify event with the watch descriptor of
/// its file, the low half of its mask, and its name.
pub proof fn law_fanotify_event_becomes_inotify_event(
    s: LibState,
    rec: RecordState,
    path: Option<Seq<u8>>,
)
    requires
        s.buffer.buf.len() == 2 * HALF,
        s.buffer.ret_off == HALF,
        0 <= rec.meta,
        rec.fits(),
        0 <= rec.name_len < HALF - EVENT_SIZE,
        rec.name_off matches Some(o) ==> 0 <= o,
    ensures
        s.converted(rec, path).event() == (EventState {
            wd: s.known_wd(rec.fid, path),
            mask: s.table.order.low_u32_at(s.buffer.buf, rec.meta + 8),
            cookie: s.table.order.u32_at(s.buffer.buf, HALF + 8),
            len: rec.name_len as u32,
            name: bytes::c_str(s.buffer.name_bytes(rec)),
        }),
{
    let order = s.table.order;
    let at = HALF as int;
    let wd = s.known_wd(rec.fid, path);
    let mask = order.low_u32_at(s.buffer.buf, rec.meta + 8);
    let name = s.buffer.name_bytes(rec);
    let b1 = order::overwrite(s.buffer.buf, at, order.u32_bytes(wd as u32));
    let b2 = order::overwrite(b1, at + 4, order.u32_bytes(mask));
    let b3 = order::overwrite(b2, at + 12, order.u32_bytes(rec.name_len as u32));
    let b4 = order::overwrite(b3, at + EVENT_SIZE, name);
    assert(s.converted(rec, path).buffer.buf == b4);
    assert(b4.subrange(at, at + 4) =~= order.u32_bytes(wd as u32));
    order::lemma_u32_read(order, b4, at, wd as u32);
    assert(b4.subrange(at + 4, at + 8) =~= order.u32_bytes(mask));
    order::lemma_u32_read(order, b4, at + 4, mask);
    assert(b4.subrange(at + 12, at + 16) =~= order.u32_bytes(rec.name_len as u32));
    order::lemma_u32_read(order, b4, at + 12, rec.name_len as u32);
    assert(order.u32_at(b4, at + 8) == order.u32_at(s.buffer.buf, at + 8));
    assert((wd as u32) as i32 == wd) by (bit_vector);
    let start = at + EVENT_SIZE;
    assert(b4.subrange(start, start + rec.name_len) =~= name);
}

/// An exclude filter drops the events it matches and an include filter those
/// it does not match; what is dropped changes nothing, and all else is
/// handed out.
pub proof fn law_filter_drops_events(s: LibState, num_events: i32, recursive: i32)
    ensures
        ({
            let exc = s.filtered(true, false, recursive, true);
            let inc = s.filtered(true, true, recursive, true);
            &&& exc.filtering && inc.filtering
            &&& exc.after(num_events, Reply::Matched(true)) == (exc, AskState::Again)
            &&& exc.after(num_events, Reply::Matched(false)).1 == AskState::Deliver(s.event())
            &&& inc.after(num_events, Reply::Matched(true)).1 == AskState::Deliver(s.event())
            &&& inc.after(num_events, Reply::Matched(false)) == (inc, AskState::Again)
        }),
        s.after(num_events, Reply::Matched(true)).1 == if s.invert_regexp {
            AskState::Deliver(s.event())
        } else {
            AskState::Again
        },
        s.after(num_events, Reply::Matched(false)).1 == if s.invert_regexp {
            AskState::Again
        } else {
            AskState::Deliver(s.event())
        },
        s.invert_regexp ==> s.after(num_events, Reply::Matched(false)).0 == s,
        !s.invert_regexp ==> s.after(num_events, Reply::Matched(true)).0 == s,
{
}

/// A filter that is removed, or whose expression cannot be compiled, does not
/// filter; the latter is an error.
pub proof fn law_filter_needs_an_expression(
    s: LibState,
    invert: bool,
    recursive: i32,
    compiled: bool,
)
    ensures
        s.filtered(false, invert, recursive, compiled) == (LibState { filtering: false, ..s }),
        !s.filtered(true, invert, recursive, false).filtering,
        s.filtered(true, invert, recursive, false).error == 22,
        s.filtered(true, invert, recursive, true).error == s.error,
        s.filtered(true, invert, recursive, true).recursive_watch == recursive,
{
}

/// An event is matched with the filter if there is one, unless it is of this
/// very process, which is skipped, or tells of a directory that appeared
/// where directories are watched recursively, which is handed out.
pub proof fn law_only_filtered_events_are_matched(s: LibState, pid: i32)
    ensures
        ({
            let mask = s.event().mask as i32;
            let own = s.self_pid != 0 && s.self_pid == pid;
            let new_dir = s.recursive_watch != 0 && mask & 0x4000_0000 != 0 && (mask & 0x100 != 0
                || mask & 0x80 != 0);
            &&& own ==> s.judged(pid) == (s, AskState::Again)
            &&& !own && s.filtering && !new_dir ==> s.judged(pid) == (
                s,
                AskState::Name(s.fid_of_wd(s.event().wd)),
            )
            &&& !own && (!s.filtering || new_dir) ==> s.judged(pid).1 == AskState::Deliver(s.event())
        }),
{
    let mask = s.event().mask as i32;
    assert(mask & (0x100i32 | 0x80i32) != 0 <==> mask & 0x100 != 0 || mask & 0x80 != 0)
        by (bit_vector);
}

/// An event that is handed out is counted if events are counted, and leaves
/// the handle as it is if not.
pub proof fn law_handed_out_events_are_counted(s: LibState)
    ensures
        !s.collect_stats ==> s.delivered() == s,
        s.collect_stats ==> s.delivered() == s.counted(s.event().wd, s.event().mask),
        s.delivered().buffer == s.buffer,
        s.delivered().error == s.error,
{
}

/// Waiting ends with events, in vain, or with an error; then it is waited
/// until there are as many bytes as the events asked for have at least.
pub proof fn law_waiting_for_events(
    s: LibState,
    num_events: i32,
    rc: i32,
    available: u32,
    errno: i32,
)
    ensures
        rc > 0 ==> s.polled(rc, errno) == (s, AskState::Count),
        rc == 0 ==> s.polled(rc, errno) == (s, AskState::Nothing),
        rc < 0 ==> s.polled(rc, errno) == (LibState { error: errno, ..s }, AskState::Nothing),
        num_events < 1 ==> s.asked(num_events) == (s, AskState::Nothing),
        num_events >= 1 ==> s.asked(num_events).0.error == 0,
        available < 16 * num_events ==> s.available(num_events, 0, available, errno) == (
            s,
            AskState::Count,
        ),
        available >= 16 * num_events ==> s.available(num_events, 0, available, errno) == (
            s,
            AskState::Read { offset: s.buffer.bytes, len: 0x1_0000 - s.buffer.bytes },
        ),
        s.available(num_events, (-1) as i32, available, errno) == (
            LibState { error: errno, ..s },
            AskState::Nothing,
        ),
{
}

/// What is read is put behind what is there; nothing read at all, or an
/// error, is no event.
pub proof fn law_reading_takes_in_data(s: LibState, data: Seq<u8>, errno: i32)
    requires
        0 <= s.buffer.bytes,
        s.buffer.bytes + data.len() <= s.buffer.buf.len(),
    ensures
        s.received(Err(errno)) == (LibState { error: errno, ..s }, AskState::Nothing),
        s.received(Ok(Seq::empty())).0 == s,
        s.received(Ok(Seq::empty())).1 is Complain,
        data.len() > 0 ==> {
            let (u, ask) = s.received(Ok(data));
            &&& ask == AskState::Take
            &&& u.buffer.buf.subrange(s.buffer.bytes, s.buffer.bytes + data.len()) == data
            &&& u.buffer.buf.take(s.buffer.bytes) == s.buffer.buf.take(s.buffer.bytes)
            &&& u.buffer.this_bytes == data.len()
            &&& u.buffer.bytes == s.buffer.bytes
        },
{
    if data.len() > 0 {
        let u = s.received(Ok(data)).0;
        let at = s.buffer.bytes;
        assert(u.buffer.buf.subrange(at, at + data.len()) =~= data);
        assert(u.buffer.buf.take(at) =~= s.buffer.buf.take(at));
    }
}

/// Where only the start of an event was read, the rest is read behind it, and
/// the events come whole and in order.
pub proof fn law_started_event_is_completed(
    s: LibState,
    data: Seq<u8>,
    evs: Seq<KernelEvent>,
    num_events: i32,
)
    requires
        !s.fanotify_mode,
        !s.filtering,
        num_events >= 1,
        s.buffer.buf.len() == 2 * HALF,
        0 < s.buffer.first_byte <= s.buffer.bytes <= HALF,
        data.len() > 0,
        s.buffer.bytes + data.len() <= HALF,
        s.buffer.buf.subrange(s.buffer.first_byte as int, s.buffer.bytes) + data == stream(
            s.table.order,
            evs,
        ),
        evs.len() > 0,
        forall|i: int| 0 <= i < evs.len() ==> (#[trigger] evs[i]).is_proper(),
        // The first event is not there as a whole.
        s.buffer.bytes - s.buffer.first_byte < EVENT_SIZE + evs[0].field.len(),
    ensures
        ({
            let (begun, first) = s.asked(num_events);
            let (read, last) = begun.received(Ok(data));
            &&& first == AskState::Poll
            &&& last == AskState::Take
            &&& read.delivers(events_of(evs), num_events)
        }),
{
    let order = s.table.order;
    let from = s.buffer.first_byte as int;
    let to = s.buffer.bytes;
    let start = s.buffer.buf.subrange(from, to);
    let all = stream(order, evs);
    let first = encoded(order, evs[0]);
    let rest = stream(order, evs.skip(1));
    assert(all == first + rest);
    assert(evs[0].is_proper());
    if s.buffer.has_more() {
        // The length of the event is there.
        let ev = evs[0];
        let a = order.u32_bytes(ev.wd as u32);
        let b = order.u32_bytes(ev.mask);
        let c = order.u32_bytes(ev.cookie);
        let d = order.u32_bytes(ev.field.len() as u32);
        assert(start.take(EVENT_SIZE as int) =~= all.take(EVENT_SIZE as int));
        assert(all.take(EVENT_SIZE as int) =~= a + b + c + d);
        assert(s.buffer.buf.subrange(from + 12, from + 16) =~= d) by {
            assert forall|i: int| 0 <= i < 4 implies s.buffer.buf[from + 12 + i] == d[i] by {
                assert(start.take(EVENT_SIZE as int)[12 + i] == (a + b + c + d)[12 + i]);
            }
        }
        order::lemma_u32_read(order, s.buffer.buf, from + 12, ev.field.len() as u32);
        assert(s.buffer.incomplete(false, order));
    }
    let begun = s.asked(num_events).0;
    let read = begun.received(Ok(data)).0;
    let b = read.buffer;
    assert(b.buf.subrange(b.first_byte as int, b.bytes + b.this_bytes) =~= start + data);
    assert(read.pending(evs));
    law_events_come_in_order(read, evs, num_events);
}

/// A fanotify event on a file that is not known yet has it watched under the
/// path it resolved to, with a watch descriptor of its own; one on a known
/// file bears its watch descriptor.
pub proof fn law_new_files_of_fanotify_are_watched(s: LibState, f: Seq<u8>, path: Option<Seq<u8>>)
    requires
        s.table.consistent(),
        s.table.has_room(),
    ensures
        ({
            let key = fid::key_of(f, s.table.order);
            let u = s.known(f, path);
            let wd = s.known_wd(f, path);
            &&& s.table.by_fid.contains_key(key) ==> u == s && wd
                == s.table.watches[s.table.by_fid[key]].wd
            &&& !s.table.by_fid.contains_key(key) && path is None ==> u == s && wd == 0
            &&& !s.table.by_fid.contains_key(key) && path is Some ==> {
                &&& wd > 0
                &&& !s.table.by_wd.contains_key(wd)
                &&& u.table.by_wd.contains_key(wd)
                &&& u.table.by_fid.contains_key(key)
                &&& u.table.watches[u.table.by_wd[wd]].filename == bytes::c_str(path->0)
                &&& u.table.watches[u.table.by_wd[wd]].fid == Some(f)
                &&& u.table.by_fid[key] == u.table.by_wd[wd]
            }
        }),
{
    if let Some(p) = path {
        crate::table::law_created_watch_is_found(s.table, 0, Some(f), p, 0);
    }
}

/// A fanotify event on a named file, as the kernel writes it, comes as an
/// event on the watch of that file with the mask and name that were written,
/// and the next event is the one behind it.
pub proof fn law_fanotify_event_is_handed_out(
    s: LibState,
    e: buffer::FileEvent,
    path: Option<Seq<u8>>,
)
    requires
        s.fanotify_mode,
        s.buffer.buf.len() == 2 * HALF,
        e.is_proper(),
        0 <= s.buffer.first_byte,
        s.buffer.first_byte + 24 + e.record_len() <= HALF,
        e.record_len() < HALF - EVENT_SIZE,
        s.buffer.buf.subrange(
            s.buffer.first_byte as int,
            s.buffer.first_byte + 24 + e.record_len(),
        ) == e.metadata(s.table.order) + e.record(s.table.order),
    ensures
        ({
            let (looked, ask) = s.taken();
            &&& s.buffer.record_fits(s.table.order)
            &&& looked.table == s.table
            &&& looked.buffer.first_byte == s.buffer.first_byte + 24 + e.record_len()
            &&& ask matches AskState::Convert(rec) && {
                let ev = looked.converted(rec, path).event();
                &&& rec.fid == e.record(s.table.order)
                &&& ev.wd == s.known_wd(rec.fid, path)
                &&& ev.mask == e.mask_low
                &&& ev.name == e.name
                &&& ev.len == e.name.len() + 1
                &&& looked.buffer.pid(s.table.order, rec) == e.pid as i32
            }
        }),
{
    let order = s.table.order;
    buffer::law_file_event_is_read_back(s.buffer, order, e);
    let rec = s.buffer.record(order);
    let looked = s.taken().0;
    assert(looked.buffer.buf == s.buffer.buf);
    assert(looked.buffer.ret_off == HALF);
    assert(looked.known_wd(rec.fid, path) == s.known_wd(rec.fid, path));
    assert(rec.name_len == e.name.len() + 1);
    law_fanotify_event_becomes_inotify_event(looked, rec, path);
    let n = order.u32_at(s.buffer.buf, s.buffer.first_byte as int);
    assert(n as i32 == n) by (bit_vector)
        requires
            n <= 0x1_0000,
    ;
}

/// A fanotify event that does not tell its file is no event, and is
/// complained about; so is nothing else.
pub proof fn law_fanotify_events_need_a_file(s: LibState)
    requires
        s.fanotify_mode,
    ensures
        ({
            let at = s.buffer.first_byte as int;
            let kind = bytes::at(s.buffer.buf, at + 24);
            let told = s.table.order.u32_at(s.buffer.buf, at) > 24 && (kind == 1 || kind == 2
                || kind == 3);
            &&& told ==> s.taken().1 is Convert
            &&& !told ==> s.taken().1 is Complain
        }),
{
}

/// What is matched with the filter is the directory and name of the event,
/// where both fit.
pub proof fn law_path_is_matched(s: LibState, num_events: i32, path: Option<Vec<u8>>)
    requires
        ({
            let p = s.event_path(bytes::opt_bytes(path));
            &&& !p.dirname().contains(0)
            &&& !p.eventname.contains(0)
            &&& p.dirname().len() + p.eventname.len() <= 4094
        }),
    ensures
        ({
            let p = s.event_path(bytes::opt_bytes(path));
            s.after(num_events, Reply::Named(path)) == (
                s,
                AskState::Match(p.dirname() + p.eventname),
            )
        }),
{
    let p = s.event_path(bytes::opt_bytes(path));
    let all = p.dirname() + p.eventname;
    assert(!all.contains(0)) by {
        if all.contains(0) {
            let i = all.index_of(0);
            if i < p.dirname().len() {
                assert(p.dirname().contains(p.dirname()[i]));
            } else {
                assert(p.eventname.contains(p.eventname[i - p.dirname().len()]));
            }
        }
    }
    bytes::law_c_string_ends_before_nul(all, Seq::empty());
}

/// The number of a file handle is that of its first four or eight bytes.
pub proof fn law_handle_numbers(s: LibState, meta: int)
    ensures
        ({
            let at = meta + 24 + 20;
            let a = s.table.order.u32_at(s.buffer.buf, at);
            let b = s.table.order.u32_at(s.buffer.buf, at + 4);
            &&& s.handle_id(meta, 4) == a
            &&& s.table.order is Little ==> s.handle_id(meta, 8) % 0x1_0000_0000 == a && s.handle_id(
                meta,
                8,
            ) / 0x1_0000_0000 == b
            &&& s.table.order is Big ==> s.handle_id(meta, 8) / 0x1_0000_0000 == a && s.handle_id(
                meta,
                8,
            ) % 0x1_0000_0000 == b
        }),
{
}

} // verus!
