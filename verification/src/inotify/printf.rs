//! Formatting events with printf-like formats.

use vstd::prelude::*;

use crate::buffer::Event;
use crate::buffer::EventState;
use crate::bytes;
use crate::consts;
use crate::consts::MAX_STRLEN;
use crate::events;
use crate::inotify::Inotifytools;
use crate::inotify::LibState;
use crate::inotify::PathState;
use crate::order;

verus! {

/// A string that may contain any byte including NUL.
pub struct NString {
    pub buf: [u8; MAX_STRLEN],
    pub len: u32,
}

impl NString {
    pub fn new() -> (s: Box<NString>)
        ensures
            s.buf@ == Seq::new(MAX_STRLEN as nat, |i: int| 0u8),
            s.len == 0,
    {
        let s = Box::new(NString { buf: [0u8;4096], len: 0 });
        assert(s.buf@ =~= Seq::new(MAX_STRLEN as nat, |i: int| 0u8));
        s
    }

    /// The valid contents.
    pub open spec fn contents(&self) -> Seq<u8> {
        self.buf@.take(
            if self.len < MAX_STRLEN {
                self.len as int
            } else {
                MAX_STRLEN as int
            },
        )
    }

    /// The valid contents (`len` bytes, clamped to the buffer size).
    pub fn as_bytes(&self) -> (b: &[u8])
        ensures
            b@ == self.contents(),
    {
        let n = if (self.len as usize) < MAX_STRLEN {
            self.len as usize
        } else {
            MAX_STRLEN
        };
        let b = &self.buf.as_slice()[0..n];
        assert(b@ =~= self.contents());
        b
    }
}

/// One element of a format.
pub enum Item {
    /// A byte that stands for itself.
    Plain(u8),
    /// `%w`: the watched directory or file.
    Dir,
    /// `%f`: the name of the file.
    Name,
    /// `%c`: the cookie in hexadecimal.
    Cookie,
    /// `%e` and `%Xe`: the event names, with a separator.
    Events(u8),
    /// `%T`: the time.
    Time,
    /// An unknown specifier, which stands for itself.
    Other(u8),
    /// A '%' at the end of the format.
    Dangling,
}

/// The element of `fmt` that starts at `i`.
pub open spec fn item_at(fmt: Seq<u8>, i: int) -> Item {
    if fmt[i] != '%' as u8 {
        Item::Plain(fmt[i])
    } else if i == fmt.len() - 1 {
        Item::Dangling
    } else {
        let c = fmt[i + 1];
        if c == '%' as u8 {
            Item::Plain('%' as u8)
        } else if c == '0' as u8 {
            Item::Plain(0)
        } else if c == 'n' as u8 {
            Item::Plain(10)
        } else if c == 'w' as u8 {
            Item::Dir
        } else if c == 'f' as u8 {
            Item::Name
        } else if c == 'c' as u8 {
            Item::Cookie
        } else if c == 'e' as u8 {
            Item::Events(',' as u8)
        } else if c == 'T' as u8 {
            Item::Time
        } else if i < fmt.len() - 2 && fmt[i + 2] == 'e' as u8 {
            Item::Events(c)
        } else {
            Item::Other(c)
        }
    }
}

/// Where the element after the one at `i` starts.
pub open spec fn next_item(fmt: Seq<u8>, i: int) -> int {
    if fmt[i] != '%' as u8 {
        i + 1
    } else {
        match item_at(fmt, i) {
            Item::Dangling => i + 1,
            Item::Events(c) if fmt[i + 1] != 'e' as u8 => i + 3,
            _ => i + 2,
        }
    }
}

/// What a format is filled in with.
pub struct Values {
    pub path: PathState,
    pub mask: u32,
    pub cookie: u32,
    /// Whether there is a time format.
    pub timed: bool,
    /// The times at each `%T`; `None` where the time format is invalid.
    pub times: Seq<Option<Seq<u8>>>,
}

impl Values {
    /// The time at the `k`-th `%T`.
    pub open spec fn time(self, k: int) -> Option<Seq<u8>> {
        if !self.timed {
            Some(Seq::empty())
        } else if 0 <= k < self.times.len() {
            self.times[k]
        } else {
            None
        }
    }

    /// What an element stands for, after `k` times `%T`.
    pub open spec fn expansion(self, item: Item, k: int) -> Seq<u8> {
        match item {
            Item::Plain(c) => seq![c],
            Item::Dir => self.path.dirname(),
            Item::Name => self.path.eventname,
            Item::Cookie => bytes::numeral(self.cookie as nat, 16),
            Item::Events(sep) => events::shown_events(self.mask as i32, sep),
            Item::Time => match self.time(k) {
                Some(t) => t,
                None => Seq::empty(),
            },
            Item::Other(c) => seq!['%' as u8, c],
            Item::Dangling => Seq::empty(),
        }
    }

    /// What is written for an element where there is room for `room` bytes:
    /// names are cut off or filled up with NULs, numbers are cut off and
    /// terminated, and a directory is left out unless it fits.
    pub open spec fn written(self, item: Item, k: int, room: int) -> Seq<u8> {
        let text = self.expansion(item, k);
        match item {
            Item::Dir => if text.len() <= room {
                text
            } else {
                Seq::empty()
            },
            Item::Name | Item::Events(_) | Item::Time => padded(text, room),
            Item::Cookie => text.take(
                if text.len() < room {
                    text.len() as int
                } else {
                    room - 1
                },
            ).push(0),
            _ => text,
        }
    }

    /// How many characters are written for an element: its text, as far as
    /// there is room.
    pub open spec fn advance(self, item: Item, k: int, room: int) -> int {
        let text = self.expansion(item, k);
        if text.len() <= room {
            text.len() as int
        } else if item is Dir {
            0
        } else {
            room
        }
    }

    /// The whole text of a format from `i` on, after `k` times `%T`.
    pub open spec fn text(self, fmt: Seq<u8>, i: int, k: int) -> Seq<u8>
        decreases fmt.len() - i,
    {
        if i < 0 || i >= fmt.len() {
            Seq::empty()
        } else {
            self.expansion(item_at(fmt, i), k) + self.text(
                fmt,
                next_item(fmt, i),
                times_after(item_at(fmt, i), k),
            )
        }
    }

    /// The format has no '%' at its end, and all its times are valid.
    pub open spec fn accepts(self, fmt: Seq<u8>, i: int, k: int) -> bool
        decreases fmt.len() - i,
    {
        i < 0 || i >= fmt.len() || {
            &&& item_at(fmt, i) !is Dangling
            &&& item_at(fmt, i) is Time ==> self.time(k) is Some
            &&& self.accepts(fmt, next_item(fmt, i), times_after(item_at(fmt, i), k))
        }
    }

    /// Filling in a format from `i` on, `ind` characters having been written.
    pub open spec fn run(
        self,
        fmt: Seq<u8>,
        size: int,
        i: int,
        buf: Seq<u8>,
        ind: int,
        k: int,
    ) -> Output
        decreases fmt.len() - i,
    {
        if i < 0 || i >= fmt.len() || ind >= size - 1 {
            Output { buf, ind, valid: true }
        } else {
            let item = item_at(fmt, i);
            if item is Dangling || (item is Time && self.time(k) is None) {
                Output { buf, ind, valid: false }
            } else {
                self.run(
                    fmt,
                    size,
                    next_item(fmt, i),
                    order::overwrite(buf, ind, self.written(item, k, size - ind)),
                    ind + self.advance(item, k, size - ind),
                    times_after(item, k),
                )
            }
        }
    }
}

/// `s` cut off or filled up with NULs to `n` bytes.
pub open spec fn padded(s: Seq<u8>, n: int) -> Seq<u8> {
    Seq::new(
        if n < 0 {
            0
        } else {
            n as nat
        },
        |i: int| bytes::at(s, i),
    )
}

/// Number of times `%T` occurred, after one more element.
pub open spec fn times_after(item: Item, k: int) -> int {
    if item is Time {
        k + 1
    } else {
        k
    }
}

/// What a format was filled in to.
pub struct Output {
    pub buf: Seq<u8>,
    /// Number of characters written.
    pub ind: int,
    /// Whether the format was followed to its end, or to the end of the
    /// output.
    pub valid: bool,
}

/// The times as byte strings.
pub open spec fn times_of(times: Seq<Option<Vec<u8>>>) -> Seq<Option<Seq<u8>>> {
    times.map_values(|t: Option<Vec<u8>>| bytes::opt_bytes(t))
}

impl LibState {
    /// What a format is filled in with for an event.
    pub open spec fn values(
        self,
        ev: EventState,
        resolved: Option<Seq<u8>>,
        times: Seq<Option<Seq<u8>>>,
    ) -> Values {
        Values {
            path: self.path_of(ev.wd, ev.len, ev.name, resolved),
            mask: ev.mask,
            cookie: ev.cookie,
            timed: self.timefmt is Some,
            times,
        }
    }
}

/// What formatting leaves behind and returns.
#[verifier::ext_equal]
pub struct Printed {
    pub lib: LibState,
    /// The output buffer.
    pub buf: Seq<u8>,
    /// The length of its valid contents.
    pub len: u32,
    pub ret: i32,
}

impl LibState {
    /// The error of formatting, if the format or size is not even tried.
    pub open spec fn format_error(self, fmt: Option<Seq<u8>>, size: i32) -> Option<i32> {
        match fmt {
            Some(f) => if f.len() == 0 {
                Some(consts::EINVAL)
            } else if f.len() > MAX_STRLEN || size > MAX_STRLEN {
                Some(self.numbers.emsgsize)
            } else {
                None
            },
            None => Some(consts::EINVAL),
        }
    }

    /// An event formatted into a buffer of which `len` bytes are valid.  The
    /// result is the number of characters written minus one, or -1 on error.
    pub open spec fn printed(
        self,
        buf: Seq<u8>,
        len: u32,
        size: i32,
        ev: EventState,
        fmt: Option<Seq<u8>>,
        resolved: Option<Seq<u8>>,
        times: Seq<Option<Seq<u8>>>,
    ) -> Printed {
        match self.format_error(fmt, size) {
            Some(e) => Printed { lib: LibState { error: e, ..self }, buf, len, ret: (-1) as i32 },
            None => {
                let o = self.values(ev, resolved, times).run(fmt->0, size as int, 0, buf, 0, 0);
                if o.valid {
                    Printed { lib: self, buf: o.buf, len: o.ind as u32, ret: (o.ind - 1) as i32 }
                } else {
                    Printed {
                        lib: LibState { error: consts::EINVAL, ..self },
                        buf: o.buf,
                        len,
                        ret: (-1) as i32,
                    }
                }
            },
        }
    }
}

/// The contents of an optional byte string.
pub open spec fn opt_slice(o: Option<&[u8]>) -> Option<Seq<u8>> {
    match o {
        Some(s) => Some(s@),
        None => None,
    }
}

/// Number of `%T` in a format: how many times
/// [`Inotifytools::snprintf`] asks for at most.
pub fn time_slots(fmt: &[u8]) -> (n: usize)
    ensures
        n == count_times(fmt@, 0),
{
    let mut n: usize = 0;
    let mut i: usize = 0;
    while i < fmt.len()
        invariant
            i <= fmt@.len(),
            n <= i,
            n + count_times(fmt@, i as int) == count_times(fmt@, 0),
        decreases fmt@.len() - i,
    {
        if fmt[i] != '%' as u8 || i == fmt.len() - 1 {
            i = i + 1;
        } else {
            let c = fmt[i + 1];
            if c == 'T' as u8 {
                n = n + 1;
                i = i + 2;
            } else if c != '%' as u8 && c != '0' as u8 && c != 'n' as u8 && c != 'w' as u8 && c
                != 'f' as u8 && c != 'c' as u8 && c != 'e' as u8 && i < fmt.len() - 2 && fmt[i + 2]
                == 'e' as u8 {
                i = i + 3;
            } else {
                i = i + 2;
            }
        }
    }
    n
}

/// Number of `%T` in a format from `i` on.
pub open spec fn count_times(fmt: Seq<u8>, i: int) -> int
    decreases fmt.len() - i,
{
    if i < 0 || i >= fmt.len() {
        0
    } else {
        times_after(item_at(fmt, i), 0) + count_times(fmt, next_item(fmt, i))
    }
}

/// Copy `src` to `buf` at `ind`, filling up with NULs to `n` bytes.  What
/// lies past the buffer is left out.
fn strncpy(buf: &mut [u8; MAX_STRLEN], ind: u32, src: &[u8], n: usize)
    ensures
        final(buf)@ == order::overwrite(old(buf)@, ind as int, padded(src@, n as int)),
{
    let ghost before = buf@;
    let start: usize = ind as usize;
    if start >= MAX_STRLEN {
        assert(buf@ =~= order::overwrite(before, ind as int, padded(src@, n as int)));
        return;
    }
    let end: usize = if n < MAX_STRLEN - start {
        n
    } else {
        MAX_STRLEN - start
    };
    let mut k: usize = 0;
    assert(buf@ =~= order::overwrite(before, ind as int, padded(src@, 0)));
    while k < end
        invariant
            k <= end,
            start == ind,
            start + end <= MAX_STRLEN,
            buf@ == order::overwrite(before, ind as int, padded(src@, k as int)),
        decreases end - k,
    {
        buf[start + k] = bytes::get(src, k);
        k = k + 1;
        assert(buf@ =~= order::overwrite(before, ind as int, padded(src@, k as int)));
    }
    assert(buf@ =~= order::overwrite(before, ind as int, padded(src@, n as int)));
}

/// `len`, but no more than there is room for.
fn within(len: usize, room: usize) -> (n: u32)
    requires
        room <= MAX_STRLEN,
    ensures
        n == if len <= room {
            len
        } else {
            room
        },
{
    if len <= room {
        len as u32
    } else {
        room as u32
    }
}

impl Inotifytools {
    /// Construct a string from an event using a printf-like format (`%w`,
    /// `%f`, `%e`, `%Xe`, `%c`, `%T`, `%0`, `%n`, `%%`), writing at most
    /// `size` characters.  `resolved` is the path of the file identifier
    /// that [`Inotifytools::fid_from_wd`] gives, `times` the times for each
    /// `%T`.  Returns the number of characters written minus one, or -1 on
    /// error (C API compatible).
    pub fn snprintf(
        &mut self,
        out: &mut NString,
        size: i32,
        ev: &Event,
        fmt: Option<&[u8]>,
        resolved: Option<Vec<u8>>,
        times: &[Option<Vec<u8>>],
    ) -> (ret: i32)
        requires
            old(self).wf(),
        ensures
            final(self).wf(),
            (Printed { lib: final(self)@, buf: final(out).buf@, len: final(out).len, ret }) == old(
                self,
            )@.printed(
                old(out).buf@,
                old(out).len,
                size,
                ev@,
                opt_slice(fmt),
                bytes::opt_bytes(resolved),
                times_of(times@),
            ),
    {
        let ghost vals = self@.values(ev@, bytes::opt_bytes(resolved), times_of(times@));
        let path = self.filename_from_event(ev, resolved);
        let f = match fmt {
            Some(f) => f,
            None => {
                self.error = consts::EINVAL;
                return -1;
            },
        };
        if f.len() == 0 {
            self.error = consts::EINVAL;
            return -1;
        }
        if f.len() > MAX_STRLEN || size > MAX_STRLEN as i32 {
            self.error = self.numbers.emsgsize;
            return -1;
        }
        let flen = f.len();
        let mut ind: u32 = 0;
        let mut i: usize = 0;
        let mut k: usize = 0;
        let ghost result = vals.run(f@, size as int, 0, out.buf@, 0, 0);
        while i < flen && (ind as i64) < size as i64 - 1
            invariant
                self.wf(),
                self@ == old(self)@,
                i <= flen,
                flen == f@.len(),
                fmt == Some(f),
                self@.format_error(opt_slice(fmt), size) is None,
                ind <= size || ind == 0,
                0 < flen <= MAX_STRLEN,
                size <= MAX_STRLEN,
                k <= i,
                out.len == old(out).len,
                vals == old(self)@.values(ev@, bytes::opt_bytes(resolved), times_of(times@)),
                result == vals.run(f@, size as int, 0, old(out).buf@, 0, 0),
                vals.path == path@,
                path.dirnamelen <= path.filename@.len(),
                vals.mask == ev.mask,
                vals.cookie == ev.cookie,
                vals.timed == self@.timefmt is Some,
                vals.times == times_of(times@),
                result == vals.run(f@, size as int, i as int, out.buf@, ind as int, k as int),
            decreases flen - i,
        {
            let room: usize = (size as i64 - ind as i64) as usize;
            let at: usize = ind as usize;
            let ghost buf0 = out.buf@;
            if f[i] != '%' as u8 {
                out.buf[at] = f[i];
                assert(out.buf@ =~= order::overwrite(buf0, at as int, seq![f@[i as int]]));
                ind = ind + 1;
                i = i + 1;
                continue;
            }
            if i == flen - 1 {
                // last character is %, invalid
                self.error = consts::EINVAL;
                return -1;
            }
            let ch1 = f[i + 1];
            if ch1 == '%' as u8 || ch1 == '0' as u8 || ch1 == 'n' as u8 {
                let c: u8 = if ch1 == '%' as u8 {
                    '%' as u8
                } else if ch1 == '0' as u8 {
                    0
                } else {
                    10
                };
                out.buf[at] = c;
                assert(out.buf@ =~= order::overwrite(buf0, at as int, seq![c]));
                ind = ind + 1;
            } else if ch1 == 'w' as u8 {
                if path.dirnamelen <= room {
                    strncpy(&mut out.buf, ind, path.filename.as_slice(), path.dirnamelen);
                    assert(padded(path.filename@, path.dirnamelen as int) =~= vals.path.dirname());
                    ind = ind + path.dirnamelen as u32;
                } else {
                    assert(order::overwrite(buf0, at as int, Seq::empty()) =~= buf0);
                }
            } else if ch1 == 'f' as u8 {
                strncpy(&mut out.buf, ind, path.eventname.as_slice(), room);
                ind = ind + within(path.eventname.len(), room);
            } else if ch1 == 'c' as u8 {
                let mut s: Vec<u8> = Vec::new();
                bytes::put_numeral(&mut s, ev.cookie as u64, 16);
                assert(s@ =~= bytes::numeral(ev.cookie as nat, 16));
                let n = if s.len() < room {
                    s.len()
                } else {
                    room - 1
                };
                strncpy(&mut out.buf, ind, s.as_slice(), n);
                out.buf[at + n] = 0;
                assert(out.buf@ =~= order::overwrite(buf0, at as int, s@.take(n as int).push(0)));
                ind = ind + within(s.len(), room);
            } else if ch1 == 'e' as u8 {
                let s = self.event_to_str_sep(ev.mask as i32, ',' as u8);
                strncpy(&mut out.buf, ind, s.as_slice(), room);
                ind = ind + within(s.len(), room);
            } else if ch1 == 'T' as u8 {
                let mut timestr: Vec<u8> = Vec::new();
                if self.timefmt.is_some() {
                    let mut found = false;
                    if k < times.len() {
                        assert(vals.times[k as int] == bytes::opt_bytes(times@[k as int]));
                        if let Some(t) = &times[k] {
                            timestr = bytes::to_vec(t.as_slice());
                            found = true;
                        }
                    }
                    if !found {
                        // time format probably invalid
                        self.error = consts::EINVAL;
                        return -1;
                    }
                }
                strncpy(&mut out.buf, ind, timestr.as_slice(), room);
                assert(timestr@ =~= vals.expansion(Item::Time, k as int));
                ind = ind + within(timestr.len(), room);
                k = k + 1;
            } else if i < flen - 2 && f[i + 2] == 'e' as u8 {
                let s = self.event_to_str_sep(ev.mask as i32, ch1);
                strncpy(&mut out.buf, ind, s.as_slice(), room);
                ind = ind + within(s.len(), room);
                i = i + 3;
                continue;
            } else {
                // this wasn't a special format character, just output it as
                // normal
                out.buf[at] = '%' as u8;
                out.buf[at + 1] = ch1;
                assert(out.buf@ =~= order::overwrite(buf0, at as int, seq!['%' as u8, ch1]));
                ind = ind + 2;
            }
            i = i + 2;
        }
        out.len = ind;
        ind as i32 - 1
    }

    /// Like [`Inotifytools::snprintf`] with `size` = `MAX_STRLEN`.
    pub fn sprintf(
        &mut self,
        out: &mut NString,
        ev: &Event,
        fmt: Option<&[u8]>,
        resolved: Option<Vec<u8>>,
        times: &[Option<Vec<u8>>],
    ) -> (ret: i32)
        requires
            old(self).wf(),
        ensures
            final(self).wf(),
            (Printed { lib: final(self)@, buf: final(out).buf@, len: final(out).len, ret }) == old(
                self,
            )@.printed(
                old(out).buf@,
                old(out).len,
                MAX_STRLEN as i32,
                ev@,
                opt_slice(fmt),
                bytes::opt_bytes(resolved),
                times_of(times@),
            ),
    {
        self.snprintf(out, MAX_STRLEN as i32, ev, fmt, resolved, times)
    }
}

proof fn lemma_run_within(
    vals: Values,
    fmt: Seq<u8>,
    size: int,
    i: int,
    buf: Seq<u8>,
    ind: int,
    k: int,
)
    requires
        0 <= ind,
        size < 0 ==> ind == 0,
        size >= 0 ==> ind <= size,
    ensures
        ind <= vals.run(fmt, size, i, buf, ind, k).ind,
        size < 0 ==> vals.run(fmt, size, i, buf, ind, k).ind == 0,
        size >= 0 ==> vals.run(fmt, size, i, buf, ind, k).ind <= size,
        vals.run(fmt, size, i, buf, ind, k).buf.len() == buf.len(),
        forall|j: int|
            size <= j < buf.len() ==> #[trigger] vals.run(fmt, size, i, buf, ind, k).buf[j]
                == buf[j],
    decreases fmt.len() - i,
{
    if 0 <= i < fmt.len() && ind < size - 1 {
        let item = item_at(fmt, i);
        if !(item is Dangling || (item is Time && vals.time(k) is None)) {
            let next = order::overwrite(buf, ind, vals.written(item, k, size - ind));
            lemma_run_within(
                vals,
                fmt,
                size,
                next_item(fmt, i),
                next,
                ind + vals.advance(item, k, size - ind),
                times_after(item, k),
            );
            assert(vals.written(item, k, size - ind).len() <= size - ind);
            assert forall|j: int| size <= j < buf.len() implies #[trigger] vals.run(
                fmt,
                size,
                i,
                buf,
                ind,
                k,
            ).buf[j] == buf[j] by {
                assert(next[j] == buf[j]);
            }
        }
    }
}

/// Formatting writes at most `size` characters.
pub proof fn law_format_stays_within_size(vals: Values, fmt: Seq<u8>, size: int, buf: Seq<u8>)
    ensures
        0 <= vals.run(fmt, size, 0, buf, 0, 0).ind,
        size < 0 ==> vals.run(fmt, size, 0, buf, 0, 0).ind == 0,
        size >= 0 ==> vals.run(fmt, size, 0, buf, 0, 0).ind <= size,
        vals.run(fmt, size, 0, buf, 0, 0).buf.len() == buf.len(),
        forall|j: int|
            size <= j < buf.len() ==> #[trigger] vals.run(fmt, size, 0, buf, 0, 0).buf[j]
                == buf[j],
{
    lemma_run_within(vals, fmt, size, 0, buf, 0, 0);
}

proof fn lemma_run_text(
    vals: Values,
    fmt: Seq<u8>,
    size: int,
    i: int,
    buf: Seq<u8>,
    ind: int,
    k: int,
)
    requires
        0 <= ind,
        size <= buf.len(),
        vals.accepts(fmt, i, k),
        ind + vals.text(fmt, i, k).len() <= size - 1,
    ensures
        ({
            let o = vals.run(fmt, size, i, buf, ind, k);
            &&& o.valid
            &&& o.ind == ind + vals.text(fmt, i, k).len()
            &&& o.buf.len() == buf.len()
            &&& o.buf.take(o.ind) == buf.take(ind) + vals.text(fmt, i, k)
        }),
    decreases fmt.len() - i,
{
    let text = vals.text(fmt, i, k);
    if 0 <= i < fmt.len() && ind < size - 1 {
        let item = item_at(fmt, i);
        let first = vals.expansion(item, k);
        let rest = vals.text(fmt, next_item(fmt, i), times_after(item, k));
        let w = vals.written(item, k, size - ind);
        let next = order::overwrite(buf, ind, w);
        assert(text =~= first + rest);
        assert(w.take(first.len() as int) =~= first);
        assert(next.take(ind + first.len()) =~= buf.take(ind) + first);
        lemma_run_text(
            vals,
            fmt,
            size,
            next_item(fmt, i),
            next,
            ind + first.len(),
            times_after(item, k),
        );
        assert((buf.take(ind) + first) + rest =~= buf.take(ind) + (first + rest));
    } else {
        assert(text =~= Seq::empty());
        assert(buf.take(ind) + text =~= buf.take(ind));
    }
}

/// Where there is room for all of it, the text is what the elements of the
/// format stand for, one after the other.
pub proof fn law_format_writes_whole_text(vals: Values, fmt: Seq<u8>, size: int, buf: Seq<u8>)
    requires
        size <= buf.len(),
        vals.accepts(fmt, 0, 0),
        vals.text(fmt, 0, 0).len() < size,
    ensures
        ({
            let o = vals.run(fmt, size, 0, buf, 0, 0);
            &&& o.valid
            &&& o.ind == vals.text(fmt, 0, 0).len()
            &&& o.buf.take(o.ind) == vals.text(fmt, 0, 0)
        }),
{
    lemma_run_text(vals, fmt, size, 0, buf, 0, 0);
    assert(buf.take(0) + vals.text(fmt, 0, 0) =~= vals.text(fmt, 0, 0));
}

proof fn lemma_text_shift(vals: Values, pre: Seq<u8>, fmt: Seq<u8>, i: int, k: int)
    requires
        0 <= i,
    ensures
        vals.text(pre + fmt, pre.len() + i, k) == vals.text(fmt, i, k),
    decreases fmt.len() - i,
{
    if i < fmt.len() {
        let all = pre + fmt;
        let at = pre.len() + i;
        assert(all[at] == fmt[i]);
        if i + 1 < fmt.len() {
            assert(all[at + 1] == fmt[i + 1]);
        }
        if i + 2 < fmt.len() {
            assert(all[at + 2] == fmt[i + 2]);
        }
        assert(item_at(all, at) == item_at(fmt, i));
        assert(next_item(all, at) == pre.len() + next_item(fmt, i));
        lemma_text_shift(vals, pre, fmt, next_item(fmt, i), times_after(item_at(fmt, i), k));
    }
}

/// A byte that begins or is a specifier of its own.
pub open spec fn is_specifier(c: u8) -> bool {
    c == '%' as u8 || c == '0' as u8 || c == 'n' as u8 || c == 'w' as u8 || c == 'f' as u8 || c
        == 'c' as u8 || c == 'e' as u8 || c == 'T' as u8
}

/// What each element of a format stands for, in front of any other: the
/// watched directory or file, the name of the file, the cookie, the event
/// names, and characters.
pub proof fn law_specifiers(vals: Values, rest: Seq<u8>, c: u8, k: int)
    ensures
        vals.text(Seq::empty(), 0, k) == Seq::<u8>::empty(),
        c != '%' as u8 ==> vals.text(seq![c] + rest, 0, k) == seq![c] + vals.text(rest, 0, k),
        vals.text(seq!['%' as u8, '%' as u8] + rest, 0, k) == seq!['%' as u8] + vals.text(
            rest,
            0,
            k,
        ),
        vals.text(seq!['%' as u8, '0' as u8] + rest, 0, k) == seq![0u8] + vals.text(rest, 0, k),
        vals.text(seq!['%' as u8, 'n' as u8] + rest, 0, k) == seq![10u8] + vals.text(rest, 0, k),
        vals.text(seq!['%' as u8, 'w' as u8] + rest, 0, k) == vals.path.filename.take(
            vals.path.dirnamelen,
        ) + vals.text(rest, 0, k),
        vals.text(seq!['%' as u8, 'f' as u8] + rest, 0, k) == vals.path.eventname + vals.text(
            rest,
            0,
            k,
        ),
        vals.text(seq!['%' as u8, 'e' as u8] + rest, 0, k) == events::shown_events(
            vals.mask as i32,
            ',' as u8,
        ) + vals.text(rest, 0, k),
        !is_specifier(c) ==> vals.text(seq!['%' as u8, c, 'e' as u8] + rest, 0, k)
            == events::shown_events(vals.mask as i32, c) + vals.text(rest, 0, k),
        !is_specifier(c) && (rest.len() == 0 || rest[0] != 'e' as u8) ==> vals.text(
            seq!['%' as u8, c] + rest,
            0,
            k,
        ) == seq!['%' as u8, c] + vals.text(rest, 0, k),
{
    lemma_element(vals, seq![c], rest, k);
    lemma_element(vals, seq!['%' as u8, '%' as u8], rest, k);
    lemma_element(vals, seq!['%' as u8, '0' as u8], rest, k);
    lemma_element(vals, seq!['%' as u8, 'n' as u8], rest, k);
    lemma_element(vals, seq!['%' as u8, 'w' as u8], rest, k);
    lemma_element(vals, seq!['%' as u8, 'f' as u8], rest, k);
    lemma_element(vals, seq!['%' as u8, 'e' as u8], rest, k);
    lemma_element(vals, seq!['%' as u8, c, 'e' as u8], rest, k);
    lemma_element(vals, seq!['%' as u8, c], rest, k);
}

/// The text of a format that begins with `one`.
proof fn lemma_element(vals: Values, one: Seq<u8>, rest: Seq<u8>, k: int)
    requires
        1 <= one.len() <= 3,
    ensures
        ({
            let all = one + rest;
            next_item(all, 0) == one.len() ==> vals.text(all, 0, k) == vals.expansion(
                item_at(all, 0),
                k,
            ) + vals.text(rest, 0, times_after(item_at(all, 0), k))
        }),
        forall|i: int| 0 <= i < one.len() ==> (one + rest)[i] == #[trigger] one[i],
        (one + rest).len() == one.len() + rest.len(),
        rest.len() > 0 ==> (one + rest)[one.len() as int] == rest[0],
{
    let all = one + rest;
    lemma_text_shift(vals, one, rest, 0, times_after(item_at(all, 0), k));
    assert forall|i: int| 0 <= i < one.len() implies all[i] == #[trigger] one[i] by {}
}

/// The cookie is written in hexadecimal, and reads back.
pub proof fn law_cookie_is_hexadecimal(vals: Values, rest: Seq<u8>, k: int)
    ensures
        ({
            let digits = bytes::numeral(vals.cookie as nat, 16);
            &&& vals.text(seq!['%' as u8, 'c' as u8] + rest, 0, k) == digits + vals.text(rest, 0, k)
            &&& bytes::number_of(digits, 16) == vals.cookie
        }),
{
    lemma_element(vals, seq!['%' as u8, 'c' as u8], rest, k);
    bytes::law_numeral_reads_back(vals.cookie as nat, 16);
}

/// The time is written where there is a time format, each `%T` with a time of
/// its own, and nothing where there is none.
pub proof fn law_times_are_written_in_turn(vals: Values, rest: Seq<u8>, k: int)
    ensures
        !vals.timed ==> vals.text(seq!['%' as u8, 'T' as u8] + rest, 0, k) == vals.text(
            rest,
            0,
            k + 1,
        ),
        vals.timed && 0 <= k < vals.times.len() && vals.times[k] is Some ==> vals.text(
            seq!['%' as u8, 'T' as u8] + rest,
            0,
            k,
        ) == vals.times[k]->0 + vals.text(rest, 0, k + 1),
{
    lemma_element(vals, seq!['%' as u8, 'T' as u8], rest, k);
    assert(Seq::<u8>::empty() + vals.text(rest, 0, k + 1) =~= vals.text(rest, 0, k + 1));
}

/// For any separator that is no other specifier, the names of the two events
/// of a mask are written with it in between.
pub proof fn law_event_names_are_written_with_separator(
    vals: Values,
    sep: u8,
    i: int,
    j: int,
    k: int,
)
    requires
        !is_specifier(sep),
        sep != 0,
        0 <= i < j < events::SHOWN_NAMES,
        forall|n: int|
            0 <= n < events::SHOWN_NAMES ==> ((#[trigger] events::event_flag(n)) & vals.mask as i32
                != 0 <==> n == i || n == j),
    ensures
        vals.text(seq!['%' as u8, sep, 'e' as u8], 0, k) == events::event_name(i) + seq![sep]
            + events::event_name(j),
        vals.text(seq!['%' as u8, 'e' as u8], 0, k) == events::event_name(i) + seq![',' as u8]
            + events::event_name(j),
{
    let none = Seq::<u8>::empty();
    law_specifiers(vals, none, sep, k);
    events::law_two_names_have_one_separator(vals.mask as i32, sep, i, j);
    events::law_two_names_have_one_separator(vals.mask as i32, ',' as u8, i, j);
    let a = seq!['%' as u8, sep, 'e' as u8];
    let b = seq!['%' as u8, 'e' as u8];
    assert(a + none =~= a);
    assert(b + none =~= b);
    let s = events::shown_events(vals.mask as i32, sep);
    let t = events::shown_events(vals.mask as i32, ',' as u8);
    assert(s + vals.text(none, 0, k) =~= s);
    assert(t + vals.text(none, 0, k) =~= t);
}

/// What is printed where there is room is the text of the format, the result
/// is its length minus one, and the handle stays as it is.
pub proof fn law_printing_gives_the_text(
    lib: LibState,
    buf: Seq<u8>,
    len: u32,
    size: i32,
    ev: EventState,
    fmt: Seq<u8>,
    resolved: Option<Seq<u8>>,
    times: Seq<Option<Seq<u8>>>,
)
    requires
        0 < fmt.len() <= 4096,
        size <= 4096,
        buf.len() == 4096,
        lib.values(ev, resolved, times).accepts(fmt, 0, 0),
        lib.values(ev, resolved, times).text(fmt, 0, 0).len() < size,
    ensures
        ({
            let text = lib.values(ev, resolved, times).text(fmt, 0, 0);
            let p = lib.printed(buf, len, size, ev, Some(fmt), resolved, times);
            &&& p.len == text.len()
            &&& p.ret == text.len() - 1
            &&& p.buf.take(p.len as int) == text
            &&& p.lib == lib
        }),
{
    law_format_writes_whole_text(lib.values(ev, resolved, times), fmt, size as int, buf);
}

/// The values that are printed are those of the event and of its watch.
pub proof fn law_printed_values(
    lib: LibState,
    ev: EventState,
    resolved: Option<Seq<u8>>,
    times: Seq<Option<Seq<u8>>>,
)
    requires
        !lib.fanotify_mode,
    ensures
        ({
            let v = lib.values(ev, resolved, times);
            &&& v.path.filename.take(v.path.dirnamelen) == lib.name_of_wd(ev.wd, resolved)
            &&& v.path.eventname == if ev.len > 0 {
                ev.name
            } else {
                Seq::empty()
            }
            &&& v.mask == ev.mask
            &&& v.cookie == ev.cookie
            &&& v.timed == lib.timefmt is Some
            &&& v.times == times
        }),
{
    crate::inotify::law_event_path_of_inotify(lib, ev.wd, ev.len, ev.name, resolved);
}

/// Without a format, or with an empty one, printing is an error; so it is
/// with one that is too long, or with too much room; nothing is written then.
pub proof fn law_formats_are_checked(
    lib: LibState,
    buf: Seq<u8>,
    len: u32,
    size: i32,
    ev: EventState,
    fmt: Option<Seq<u8>>,
    resolved: Option<Seq<u8>>,
    times: Seq<Option<Seq<u8>>>,
)
    ensures
        ({
            let p = lib.printed(buf, len, size, ev, fmt, resolved, times);
            let missing = fmt is None || fmt->0.len() == 0;
            let long = !missing && (fmt->0.len() > 4096 || size > 4096);
            &&& missing ==> p.lib.error == 22
            &&& long ==> p.lib.error == lib.numbers.emsgsize
            &&& missing || long ==> p.ret == -1 && p.buf == buf && p.len == len && p.lib
                == (LibState { error: p.lib.error, ..lib })
        }),
{
}

proof fn lemma_run_plain(vals: Values, fmt: Seq<u8>, size: int, i: int, buf: Seq<u8>, ind: int)
    requires
        0 <= i < fmt.len(),
        forall|j: int| 0 <= j < fmt.len() - 1 ==> fmt[j] != '%' as u8,
        fmt.last() == '%' as u8,
        ind + (fmt.len() - i) <= size - 1,
    ensures
        !vals.run(fmt, size, i, buf, ind, 0).valid,
    decreases fmt.len() - i,
{
    if i < fmt.len() - 1 {
        let w = vals.written(item_at(fmt, i), 0, size - ind);
        lemma_run_plain(vals, fmt, size, i + 1, order::overwrite(buf, ind, w), ind + 1);
    }
}

/// A lone '%' at the end of a format is an error.
pub proof fn law_lone_percent_is_an_error(
    lib: LibState,
    buf: Seq<u8>,
    len: u32,
    size: i32,
    ev: EventState,
    body: Seq<u8>,
    resolved: Option<Seq<u8>>,
    times: Seq<Option<Seq<u8>>>,
)
    requires
        !body.contains('%' as u8),
        body.len() + 2 <= size <= 4096,
    ensures
        ({
            let p = lib.printed(
                buf,
                len,
                size,
                ev,
                Some(body.push('%' as u8)),
                resolved,
                times,
            );
            &&& p.ret == -1
            &&& p.lib.error == 22
            &&& p.len == len
        }),
{
    let fmt = body.push('%' as u8);
    assert forall|j: int| 0 <= j < fmt.len() - 1 implies fmt[j] != '%' as u8 by {
        assert(body.contains(body[j]));
    }
    lemma_run_plain(lib.values(ev, resolved, times), fmt, size as int, 0, buf, 0);
}

/// A format none of whose elements is left out or ended early where there is
/// no room: no directory and no cookie.
pub open spec fn is_cut_plainly(fmt: Seq<u8>) -> bool {
    forall|i: int|
        0 <= i < fmt.len() - 1 && #[trigger] fmt[i] == '%' as u8 ==> fmt[i + 1] != 'w' as u8
            && fmt[i + 1] != 'c' as u8
}

proof fn lemma_run_cut(
    vals: Values,
    fmt: Seq<u8>,
    size: int,
    i: int,
    buf: Seq<u8>,
    ind: int,
    k: int,
)
    requires
        0 <= i,
        0 <= ind <= size <= buf.len(),
        is_cut_plainly(fmt),
    ensures
        ({
            let o = vals.run(fmt, size, i, buf, ind, k);
            let text = vals.text(fmt, i, k);
            o.valid ==> {
                &&& ind <= o.ind <= ind + text.len()
                &&& o.ind <= size
                &&& o.ind == ind + text.len() || o.ind >= size - 1
                &&& o.buf.len() == buf.len()
                &&& o.buf.take(o.ind) == buf.take(ind) + text.take(o.ind - ind)
            }
        }),
    decreases fmt.len() - i,
{
    let text = vals.text(fmt, i, k);
    if i < fmt.len() && ind < size - 1 {
        let item = item_at(fmt, i);
        if !(item is Dangling || (item is Time && vals.time(k) is None)) {
            let room = size - ind;
            let first = vals.expansion(item, k);
            let rest = vals.text(fmt, next_item(fmt, i), times_after(item, k));
            let w = vals.written(item, k, room);
            let n = vals.advance(item, k, room);
            let next = order::overwrite(buf, ind, w);
            assert(item !is Dir && item !is Cookie);
            assert(text =~= first + rest);
            assert(w.take(n) =~= first.take(n));
            assert(next.take(ind + n) =~= buf.take(ind) + first.take(n));
            lemma_run_cut(vals, fmt, size, next_item(fmt, i), next, ind + n, times_after(item, k));
            let o = vals.run(fmt, size, i, buf, ind, k);
            if o.valid {
                if n < first.len() {
                    assert(ind + n == size);
                    assert(text.take(n) =~= first.take(n));
                } else {
                    assert(first.take(n) =~= first);
                    assert(text.take(o.ind - ind) =~= first + rest.take(o.ind - ind - n));
                    assert(buf.take(ind) + first + rest.take(o.ind - ind - n) =~= buf.take(ind) + (
                    first + rest.take(o.ind - ind - n)));
                }
            }
        }
    } else {
        assert(buf.take(ind) + text.take(0) =~= buf.take(ind));
    }
}

/// What is printed where there is too little room is the beginning of the
/// text, up to the room or one less, unless a directory or cookie is part of
/// it, which are left out or ended early.
pub proof fn law_printing_cuts_the_text_off(
    lib: LibState,
    buf: Seq<u8>,
    len: u32,
    size: i32,
    ev: EventState,
    fmt: Seq<u8>,
    resolved: Option<Seq<u8>>,
    times: Seq<Option<Seq<u8>>>,
)
    requires
        0 < fmt.len() <= 4096,
        0 <= size <= 4096,
        buf.len() == 4096,
        is_cut_plainly(fmt),
        lib.values(ev, resolved, times).run(fmt, size as int, 0, buf, 0, 0).valid,
    ensures
        ({
            let text = lib.values(ev, resolved, times).text(fmt, 0, 0);
            let p = lib.printed(buf, len, size, ev, Some(fmt), resolved, times);
            &&& p.len <= size
            &&& p.len <= text.len()
            &&& p.len == text.len() || p.len >= size - 1
            &&& p.buf.take(p.len as int) == text.take(p.len as int)
            &&& p.ret == p.len - 1
            &&& p.lib == lib
        }),
{
    let vals = lib.values(ev, resolved, times);
    let text = vals.text(fmt, 0, 0);
    let o = vals.run(fmt, size as int, 0, buf, 0, 0);
    lemma_run_cut(vals, fmt, size as int, 0, buf, 0, 0);
    assert(buf.take(0) + text.take(o.ind) =~= text.take(o.ind));
}

/// Without a time format a time is valid and empty; with one, a time that
/// could not be written is an error.
pub proof fn law_times_need_a_format(vals: Values, rest: Seq<u8>, k: int, size: int, buf: Seq<u8>)
    requires
        size > 1,
        0 <= k,
    ensures
        ({
            let fmt = seq!['%' as u8, 'T' as u8] + rest;
            &&& !vals.timed ==> vals.accepts(fmt, 0, k) == vals.accepts(fmt, 2, k + 1)
            &&& vals.timed && (k >= vals.times.len() || vals.times[k] is None) ==> !vals.accepts(
                fmt,
                0,
                k,
            ) && !vals.run(fmt, size, 0, buf, 0, k).valid
        }),
{
    let fmt = seq!['%' as u8, 'T' as u8] + rest;
    assert(fmt[0] == '%' as u8 && fmt[1] == 'T' as u8);
}

/// A directory that has no room is left out whole.
pub proof fn law_directories_are_not_cut_off(vals: Values, size: int, buf: Seq<u8>)
    requires
        size > 1,
        buf.len() >= size,
        vals.path.dirname().len() > size,
    ensures
        ({
            let o = vals.run(seq!['%' as u8, 'w' as u8], size, 0, buf, 0, 0);
            o.valid && o.ind == 0 && o.buf == buf
        }),
{
    let fmt = seq!['%' as u8, 'w' as u8];
    assert(fmt[0] == '%' as u8 && fmt[1] == 'w' as u8);
    reveal_with_fuel(Values::run, 3);
    assert(order::overwrite(buf, 0, Seq::<u8>::empty()) =~= buf);
}

/// A cookie that has no room ends with a NUL in the last place.
pub proof fn law_cookies_are_cut_off_with_a_nul(vals: Values, size: int, buf: Seq<u8>)
    requires
        size > 1,
        buf.len() >= size,
        bytes::numeral(vals.cookie as nat, 16).len() >= size,
    ensures
        ({
            let digits = bytes::numeral(vals.cookie as nat, 16);
            let o = vals.run(seq!['%' as u8, 'c' as u8], size, 0, buf, 0, 0);
            o.valid && o.ind == size && o.buf.take(size) == digits.take(size - 1) + seq![0u8]
        }),
{
    let fmt = seq!['%' as u8, 'c' as u8];
    assert(fmt[0] == '%' as u8 && fmt[1] == 'c' as u8);
    reveal_with_fuel(Values::run, 3);
    let digits = bytes::numeral(vals.cookie as nat, 16);
    let text = digits.take(size - 1).push(0);
    assert(order::overwrite(buf, 0, text).take(size) =~= digits.take(size - 1) + seq![0u8]);
}

} // verus!
