//! The event buffer: raw kernel data in its first half, fanotify events in
//! inotify form in its second half.

use vstd::prelude::*;

use crate::bytes;
use crate::fid;
use crate::order;
use crate::order::ByteOrder;

verus! {

/// `sizeof(struct inotify_event)`
pub const EVENT_SIZE: usize = 16;

/// Number of events without a name that the buffer holds.
pub const MAX_EVENTS: usize = 4096;

/// Size of either half of the buffer.
pub const HALF: usize = 65536;

/// An inotify event (also used for fanotify events converted to inotify
/// form).  `name` holds the bytes of the name up to (excluding) the first
/// NUL; `len` is the raw `inotify_event.len` field.
#[derive(Clone, Debug, Default, PartialEq, Eq)]
pub struct Event {
    pub wd: i32,
    pub mask: u32,
    pub cookie: u32,
    pub len: u32,
    pub name: Vec<u8>,
}

/// What an [`Event`] holds.
#[verifier::ext_equal]
pub struct EventState {
    pub wd: i32,
    pub mask: u32,
    pub cookie: u32,
    pub len: u32,
    pub name: Seq<u8>,
}

impl View for Event {
    type V = EventState;

    open spec fn view(&self) -> EventState {
        EventState {
            wd: self.wd,
            mask: self.mask,
            cookie: self.cookie,
            len: self.len,
            name: self.name@,
        }
    }
}

/// The event that starts at `off`.
pub open spec fn event_at(buf: Seq<u8>, order: ByteOrder, off: int) -> EventState {
    let len = order.u32_at(buf, off + 12);
    let start = if off + EVENT_SIZE < buf.len() {
        off + EVENT_SIZE
    } else {
        buf.len() as int
    };
    let end = if start + len < buf.len() {
        start + len
    } else {
        buf.len() as int
    };
    EventState {
        wd: order.u32_at(buf, off) as i32,
        mask: order.u32_at(buf, off + 4),
        cookie: order.u32_at(buf, off + 8),
        len,
        name: bytes::c_str(buf.subrange(start, end)),
    }
}

/// A fanotify event found in the buffer.
pub struct FidRecord {
    /// Where the event starts.
    pub meta: usize,
    pub event_len: u32,
    pub fid_len: i32,
    /// Where the name starts.
    pub name_off: Option<usize>,
    pub name_len: i32,
    pub name: Vec<u8>,
    pub fid: Vec<u8>,
}

/// What a [`FidRecord`] holds.
#[verifier::ext_equal]
pub struct RecordState {
    pub meta: int,
    pub event_len: u32,
    pub fid_len: int,
    pub name_off: Option<int>,
    pub name_len: int,
    pub name: Seq<u8>,
    pub fid: Seq<u8>,
}

impl View for FidRecord {
    type V = RecordState;

    open spec fn view(&self) -> RecordState {
        RecordState {
            meta: self.meta as int,
            event_len: self.event_len,
            fid_len: self.fid_len as int,
            name_off: match self.name_off {
                Some(o) => Some(o as int),
                None => None,
            },
            name_len: self.name_len as int,
            name: self.name@,
            fid: self.fid@,
        }
    }
}

impl RecordState {
    /// The record lies in the first half of the buffer, and a name has a
    /// place.
    pub open spec fn fits(self) -> bool {
        &&& self.meta + fid::META_LEN <= HALF
        &&& self.name_len > 0 ==> self.name_off is Some
    }
}

/// What an [`EventBuffer`] holds.
#[verifier::ext_equal]
pub struct BufferState {
    pub buf: Seq<u8>,
    /// Where the next event starts.
    pub first_byte: i32,
    /// Number of bytes of the first half that hold events.
    pub bytes: int,
    /// Number of bytes read last.
    pub this_bytes: int,
    /// Where the current event starts.
    pub ret_off: int,
}

impl BufferState {
    /// There is (the start of) an event that was read before.
    pub open spec fn has_more(self) -> bool {
        self.first_byte != 0 && self.first_byte <= self.bytes - EVENT_SIZE
    }

    /// Only the start of the next event was read.
    pub open spec fn incomplete(self, fanotify: bool, order: ByteOrder) -> bool {
        self.has_more() && !fanotify && self.first_byte + EVENT_SIZE + order.u32_at(
            self.buf,
            self.first_byte + 12,
        ) > self.bytes
    }

    /// The next event needs no reading.
    pub open spec fn ready(self, fanotify: bool, order: ByteOrder) -> bool {
        self.has_more() && !self.incomplete(fanotify, order)
    }

    /// The buffer prepared for the next event: the start of an incomplete
    /// event is moved to the front, and a used up buffer is emptied.
    pub open spec fn begun(self, fanotify: bool, order: ByteOrder) -> BufferState {
        if self.incomplete(fanotify, order) {
            BufferState {
                buf: order::overwrite(
                    self.buf,
                    0,
                    self.buf.subrange(self.first_byte as int, self.bytes),
                ),
                bytes: self.bytes - self.first_byte,
                first_byte: 0,
                ret_off: self.first_byte as int,
                ..self
            }
        } else if self.has_more() {
            BufferState { ret_off: self.first_byte as int, this_bytes: 0, ..self }
        } else if self.first_byte == 0 {
            BufferState { bytes: 0, ..self }
        } else {
            self
        }
    }

    /// The buffer after `data` was read.
    pub open spec fn filled(self, data: Seq<u8>) -> BufferState {
        BufferState {
            buf: order::overwrite(self.buf, self.bytes, data),
            this_bytes: data.len() as int,
            ..self
        }
    }

    /// Where the event after the current inotify event starts.
    pub open spec fn after_event(self, order: ByteOrder) -> int {
        self.first_byte + EVENT_SIZE + (order.u32_at(self.buf, self.first_byte + 12) as i32)
    }

    /// The length of the current inotify event can be added to its position
    /// in C `int`s.
    pub open spec fn event_fits(self, order: ByteOrder) -> bool {
        &&& self.first_byte >= 0
        &&& EVENT_SIZE + (order.u32_at(self.buf, self.first_byte + 12) as i32) <= i32::MAX
        &&& i32::MIN <= self.after_event(order) <= i32::MAX
    }

    /// The buffer after the current inotify event was passed over.
    pub open spec fn passed(self, order: ByteOrder) -> BufferState {
        BufferState {
            ret_off: self.first_byte as int,
            first_byte: self.after_event(order) as i32,
            ..self
        }
    }

    /// The buffer with the bytes read last counted in.
    pub open spec fn settled(self) -> BufferState {
        let bytes = self.bytes + self.this_bytes;
        BufferState {
            bytes,
            first_byte: if self.first_byte == bytes {
                0
            } else {
                self.first_byte
            },
            ..self
        }
    }

    /// Where the information record of the current fanotify event starts.
    pub open spec fn info_off(self) -> int {
        self.first_byte + fid::META_LEN
    }

    /// The current fanotify event identifies a file.
    pub open spec fn has_fid(self, order: ByteOrder) -> bool {
        let t = bytes::at(self.buf, self.info_off());
        order.u32_at(self.buf, self.first_byte as int) > fid::META_LEN && (t
            == fid::FAN_EVENT_INFO_TYPE_FID || t == fid::FAN_EVENT_INFO_TYPE_DFID || t
            == fid::FAN_EVENT_INFO_TYPE_DFID_NAME)
    }

    /// The current fanotify event lies in the first half of the buffer, and
    /// the size of its file handle fits a C `int`.
    pub open spec fn record_fits(self, order: ByteOrder) -> bool {
        &&& self.first_byte >= 0
        &&& self.has_fid(order) ==> self.info_off() <= HALF && order.u32_at(
            self.buf,
            self.info_off() + fid::HANDLE_OFF,
        ) <= i32::MAX - fid::FID_HDR
    }

    /// Length of the record up to the name.
    pub open spec fn fid_len(self, order: ByteOrder) -> int {
        fid::FID_HDR + order.u32_at(self.buf, self.info_off() + fid::HANDLE_OFF)
    }

    /// Number of bytes of the record after the file handle, if a name may be
    /// there.
    pub open spec fn padded_name_len(self, order: ByteOrder) -> int {
        if bytes::at(self.buf, self.info_off()) == fid::FAN_EVENT_INFO_TYPE_DFID_NAME {
            order.u16_at(self.buf, self.info_off() + 2) - self.fid_len(order)
        } else {
            0
        }
    }

    /// Where the name starts.
    pub open spec fn name_off(self, order: ByteOrder) -> Option<int> {
        if self.padded_name_len(order) > 0 {
            Some(self.info_off() + self.fid_len(order))
        } else {
            None
        }
    }

    /// What follows the file handle is padding, or the name "." of the
    /// directory itself: it does not count as a name.
    pub open spec fn is_nameless(self, order: ByteOrder) -> bool {
        self.padded_name_len(order) != 0 && match self.name_off(order) {
            Some(o) => bytes::at(self.buf, o) == 0 || (bytes::at(self.buf, o) == '.' as u8
                && bytes::at(self.buf, o + 1) == 0),
            None => true,
        }
    }

    /// The buffer after the current fanotify event was looked at: a record
    /// without a name ends with the file handle.
    pub open spec fn examined(self, order: ByteOrder) -> BufferState {
        BufferState {
            buf: if self.has_fid(order) && self.is_nameless(order) {
                order::overwrite(
                    self.buf,
                    self.info_off() + 2,
                    order.u16_bytes(self.fid_len(order) as u16),
                )
            } else {
                self.buf
            },
            first_byte: wrapping_sum(
                self.first_byte,
                order.u32_at(self.buf, self.first_byte as int) as i32,
            ),
            ret_off: if self.has_fid(order) {
                HALF as int
            } else {
                self.first_byte as int
            },
            ..self
        }
    }

    /// What the current fanotify event tells.
    pub open spec fn record(self, order: ByteOrder) -> RecordState {
        let after = self.examined(order).buf;
        let end = self.info_off() + order.u16_at(after, self.info_off() + 2);
        RecordState {
            meta: self.first_byte as int,
            event_len: order.u32_at(self.buf, self.first_byte as int),
            fid_len: self.fid_len(order),
            name_off: self.name_off(order),
            name_len: if self.is_nameless(order) {
                0
            } else {
                self.padded_name_len(order)
            },
            name: match self.name_off(order) {
                Some(o) => if o < after.len() {
                    bytes::c_str(after.skip(o))
                } else {
                    Seq::empty()
                },
                None => Seq::empty(),
            },
            fid: after.subrange(
                self.info_off(),
                if end < HALF {
                    end
                } else {
                    HALF as int
                },
            ),
        }
    }

    /// The name bytes of a record as they are copied.
    pub open spec fn name_bytes(self, rec: RecordState) -> Seq<u8> {
        if rec.name_len > 0 {
            Seq::new(
                if rec.name_len < HALF - EVENT_SIZE {
                    rec.name_len as nat
                } else {
                    (HALF - EVENT_SIZE) as nat
                },
                |i: int|
                    if rec.name_off->0 + i < HALF {
                        self.buf[rec.name_off->0 + i]
                    } else {
                        0
                    },
            )
        } else {
            Seq::empty()
        }
    }

    /// The buffer after a fanotify event was written in inotify form.
    pub open spec fn converted(self, order: ByteOrder, rec: RecordState, wd: i32) -> BufferState {
        let at = self.ret_off;
        let mask = order.low_u32_at(self.buf, rec.meta + 8);
        let b1 = order::overwrite(self.buf, at, order.u32_bytes(wd as u32));
        let b2 = order::overwrite(b1, at + 4, order.u32_bytes(mask));
        let b3 = order::overwrite(b2, at + 12, order.u32_bytes(rec.name_len as u32));
        BufferState {
            buf: order::overwrite(b3, at + EVENT_SIZE, self.name_bytes(rec)),
            ..self
        }
    }

    /// The process that caused a fanotify event.
    pub open spec fn pid(self, order: ByteOrder, rec: RecordState) -> i32 {
        order.u32_at(self.buf, rec.meta + 20) as i32
    }
}

/// The sum of two C `int`s, wrapping around.
pub open spec fn wrapping_sum(a: i32, b: i32) -> i32 {
    if a + b > i32::MAX {
        (a + b - 0x1_0000_0000) as i32
    } else if a + b < i32::MIN {
        (a + b + 0x1_0000_0000) as i32
    } else {
        (a + b) as i32
    }
}

/// The buffer events are read into and taken from.
pub struct EventBuffer {
    buf: Vec<u8>,
    first_byte: i32,
    bytes: usize,
    this_bytes: usize,
    ret_off: usize,
}

impl View for EventBuffer {
    type V = BufferState;

    closed spec fn view(&self) -> BufferState {
        BufferState {
            buf: self.buf@,
            first_byte: self.first_byte,
            bytes: self.bytes as int,
            this_bytes: self.this_bytes as int,
            ret_off: self.ret_off as int,
        }
    }
}

impl EventBuffer {
    pub open spec fn wf(&self) -> bool {
        &&& self@.buf.len() == 2 * HALF
        &&& 0 <= self@.bytes <= HALF
        &&& 0 <= self@.this_bytes <= HALF
        &&& 0 <= self@.ret_off <= i32::MAX
    }

    pub fn new() -> (b: EventBuffer)
        ensures
            b.wf(),
            b@ == (BufferState {
                buf: Seq::new(2 * HALF as nat, |i: int| 0u8),
                first_byte: 0,
                bytes: 0,
                this_bytes: 0,
                ret_off: 0,
            }),
    {
        let b = EventBuffer {
            buf: vec![0u8;2 * HALF],
            first_byte: 0,
            bytes: 0,
            this_bytes: 0,
            ret_off: 0,
        };
        assert(b@.buf =~= Seq::new(2 * HALF as nat, |i: int| 0u8));
        b
    }

    /// Where the next event starts.
    pub fn first_byte(&self) -> (n: i32)
        ensures
            n == self@.first_byte,
    {
        self.first_byte
    }

    /// Where data is to be read to.
    pub fn read_offset(&self) -> (n: usize)
        ensures
            n == self@.bytes,
    {
        self.bytes
    }

    /// Number of bytes read last.
    pub fn this_bytes(&self) -> (n: usize)
        ensures
            n == self@.this_bytes,
    {
        self.this_bytes
    }

    /// Prepare for the next event.  Returns whether it needs no reading.
    pub fn begin(&mut self, fanotify: bool, order: ByteOrder) -> (ready: bool)
        requires
            old(self).wf(),
            old(self)@.first_byte >= 0,
        ensures
            final(self).wf(),
            ready == old(self)@.ready(fanotify, order),
            final(self)@ == old(self)@.begun(fanotify, order),
            final(self)@.first_byte >= 0,
            ready ==> final(self)@.bytes + final(self)@.this_bytes <= HALF,
    {
        let first = self.first_byte as usize;
        if first != 0 && first + EVENT_SIZE <= self.bytes {
            self.ret_off = first;
            let len: u64 = order.read_u32(self.buf.as_slice(), first + 12) as u64;
            if !fanotify && first as u64 + EVENT_SIZE as u64 + len > self.bytes as u64 {
                let start = bytes::copy_range(self.buf.as_slice(), first, self.bytes);
                put_bytes(&mut self.buf, 0, start.as_slice());
                self.bytes = start.len();
                self.first_byte = 0;
                false
            } else {
                self.this_bytes = 0;
                true
            }
        } else {
            if first == 0 {
                self.bytes = 0;
            }
            false
        }
    }

    /// Take in data that was read.
    pub fn fill(&mut self, data: &[u8])
        requires
            old(self).wf(),
            old(self)@.bytes + data@.len() <= HALF,
        ensures
            final(self).wf(),
            final(self)@ == old(self)@.filled(data@),
    {
        put_bytes(&mut self.buf, self.bytes, data);
        self.this_bytes = data.len();
    }

    /// Whether [`EventBuffer::pass`] can be called.
    pub fn event_fits(&self, order: ByteOrder) -> (yes: bool)
        requires
            self.wf(),
        ensures
            yes == self@.event_fits(order),
    {
        if self.first_byte < 0 {
            return false;
        }
        let len: i32 = order.read_u32(self.buf.as_slice(), self.first_byte as usize + 12) as i32;
        let next: i64 = self.first_byte as i64 + EVENT_SIZE as i64 + len as i64;
        EVENT_SIZE as i64 + len as i64 <= i32::MAX as i64 && i32::MIN as i64 <= next && next
            <= i32::MAX as i64
    }

    /// Make the inotify event at the current position the current event, and
    /// go on to the next.
    pub fn pass(&mut self, order: ByteOrder)
        requires
            old(self).wf(),
            old(self)@.event_fits(order),
        ensures
            final(self).wf(),
            final(self)@ == old(self)@.passed(order),
    {
        self.ret_off = self.first_byte as usize;
        let len: i32 = order.read_u32(self.buf.as_slice(), self.ret_off + 12) as i32;
        self.first_byte = self.first_byte + (EVENT_SIZE as i32 + len);
    }

    /// Count in the bytes read last.
    pub fn settle(&mut self)
        requires
            old(self).wf(),
            old(self)@.bytes + old(self)@.this_bytes <= HALF,
        ensures
            final(self).wf(),
            final(self)@ == old(self)@.settled(),
    {
        self.bytes = self.bytes + self.this_bytes;
        if self.first_byte >= 0 && self.first_byte as usize == self.bytes {
            self.first_byte = 0;
        }
    }

    /// Whether [`EventBuffer::examine`] can be called.
    pub fn record_fits(&self, order: ByteOrder) -> (yes: bool)
        requires
            self.wf(),
        ensures
            yes == self@.record_fits(order),
    {
        if self.first_byte < 0 {
            return false;
        }
        let info = self.first_byte as usize + fid::META_LEN;
        let t = bytes::get(self.buf.as_slice(), info);
        let event_len = order.read_u32(self.buf.as_slice(), self.first_byte as usize);
        if event_len as usize > fid::META_LEN && (t == fid::FAN_EVENT_INFO_TYPE_FID || t
            == fid::FAN_EVENT_INFO_TYPE_DFID || t == fid::FAN_EVENT_INFO_TYPE_DFID_NAME) {
            info <= HALF && order.read_u32(self.buf.as_slice(), info + fid::HANDLE_OFF)
                <= i32::MAX as u32 - fid::FID_HDR as u32
        } else {
            true
        }
    }

    /// Whether the fanotify event at the current position identifies a file.
    fn identifies_file(&self, order: ByteOrder) -> (yes: bool)
        requires
            self.wf(),
            self@.first_byte >= 0,
        ensures
            yes == self@.has_fid(order),
    {
        let meta = self.first_byte as usize;
        let t = bytes::get(self.buf.as_slice(), meta + fid::META_LEN);
        let event_len = order.read_u32(self.buf.as_slice(), meta);
        event_len as usize > fid::META_LEN && (t == fid::FAN_EVENT_INFO_TYPE_FID || t
            == fid::FAN_EVENT_INFO_TYPE_DFID || t == fid::FAN_EVENT_INFO_TYPE_DFID_NAME)
    }

    /// The length of the record at the current position up to the name, where
    /// the name starts, the number of bytes there, and whether they are no
    /// name.
    fn shape(&self, order: ByteOrder) -> (r: (i32, Option<usize>, i32, bool))
        requires
            self.wf(),
            self@.record_fits(order),
            self@.has_fid(order),
        ensures
            r.0 == self@.fid_len(order),
            match r.1 {
                Some(o) => self@.name_off(order) == Some(o as int),
                None => self@.name_off(order) is None,
            },
            r.2 == self@.padded_name_len(order),
            r.3 == self@.is_nameless(order),
    {
        let info = self.first_byte as usize + fid::META_LEN;
        let handle = order.read_u32(self.buf.as_slice(), info + fid::HANDLE_OFF);
        let fid_len: i32 = fid::FID_HDR as i32 + handle as i32;
        let mut name_len: i32 = 0;
        if bytes::get(self.buf.as_slice(), info) == fid::FAN_EVENT_INFO_TYPE_DFID_NAME {
            name_len = order.read_u16(self.buf.as_slice(), info + 2) as i32 - fid_len;
        }
        if name_len > 0 {
            let o = info + fid_len as usize;
            let n0 = bytes::get(self.buf.as_slice(), o);
            let n1 = bytes::get(self.buf.as_slice(), o + 1);
            (fid_len, Some(o), name_len, n0 == 0 || (n0 == '.' as u8 && n1 == 0))
        } else {
            (fid_len, None, name_len, name_len != 0)
        }
    }

    /// The bytes from `off` on up to a NUL.
    fn text_at(&self, off: Option<usize>) -> (s: Vec<u8>)
        ensures
            s@ == match off {
                Some(o) => if o < self@.buf.len() {
                    bytes::c_str(self@.buf.skip(o as int))
                } else {
                    Seq::empty()
                },
                None => Seq::empty(),
            },
    {
        let n = self.buf.len();
        match off {
            Some(o) => if o < n {
                let rest = bytes::copy_range(self.buf.as_slice(), o, n);
                proof {
                    assert(rest@ =~= self.buf@.skip(o as int));
                }
                bytes::cstring(rest.as_slice())
            } else {
                Vec::new()
            },
            None => Vec::new(),
        }
    }

    /// Look at the fanotify event at the current position, and go on to the
    /// next.  `None` if it identifies no file.
    pub fn examine(&mut self, order: ByteOrder) -> (rec: Option<FidRecord>)
        requires
            old(self).wf(),
            old(self)@.record_fits(order),
        ensures
            final(self).wf(),
            final(self)@ == old(self)@.examined(order),
            rec is Some <==> old(self)@.has_fid(order),
            rec matches Some(r) ==> r@ == old(self)@.record(order) && r@.fits(),
    {
        let ghost before = self@;
        let meta = self.first_byte as usize;
        let info = meta + fid::META_LEN;
        let event_len = order.read_u32(self.buf.as_slice(), meta);
        let next: i32 = self.first_byte.wrapping_add(event_len as i32);
        if !self.identifies_file(order) {
            self.ret_off = meta;
            self.first_byte = next;
            return None;
        }
        let (fid_len, name_off, padded_len, nameless) = self.shape(order);
        // Convert zero padding to zero name_len.  For some events on
        // directories, the fid is that of the dir and name is ".".  Do not
        // count "." as part of the fid, but keep it for debug print.
        if nameless {
            order.write_u16(self.buf.as_mut_slice(), info + 2, fid_len as u16);
        }
        self.first_byte = next;
        self.ret_off = HALF;
        assert(self@ =~= before.examined(order));
        let name_len: i32 = if nameless {
            0
        } else {
            padded_len
        };
        let name = self.text_at(name_off);
        let end = info + order.read_u16(self.buf.as_slice(), info + 2) as usize;
        let fid = bytes::copy_range(
            self.buf.as_slice(),
            info,
            if end < HALF {
                end
            } else {
                HALF
            },
        );
        let rec = FidRecord { meta, event_len, fid_len, name_off, name_len, name, fid };
        assert(rec@ =~= before.record(order));
        Some(rec)
    }

    /// Write the fanotify event of a record in inotify form.  Returns the
    /// process that caused it.
    pub fn convert(&mut self, order: ByteOrder, rec: &FidRecord, wd: i32) -> (pid: i32)
        requires
            old(self).wf(),
            old(self)@.ret_off == HALF,
            rec@.fits(),
        ensures
            final(self).wf(),
            final(self)@ == old(self)@.converted(order, rec@, wd),
            pid == old(self)@.pid(order, rec@),
    {
        let ret = self.ret_off;
        let pid = order.read_u32(self.buf.as_slice(), rec.meta + 20) as i32;
        let mask = order.read_low_u32(self.buf.as_slice(), rec.meta + 8);
        let name = self.name_bytes(rec);
        order.write_u32(self.buf.as_mut_slice(), ret, wd as u32);
        order.write_u32(self.buf.as_mut_slice(), ret + 4, mask);
        order.write_u32(self.buf.as_mut_slice(), ret + 12, rec.name_len as u32);
        put_bytes(&mut self.buf, ret + EVENT_SIZE, name.as_slice());
        pid
    }

    /// The name bytes of a record.
    fn name_bytes(&self, rec: &FidRecord) -> (v: Vec<u8>)
        requires
            self.wf(),
            rec@.fits(),
        ensures
            v@ == self@.name_bytes(rec@),
            v@.len() <= HALF - EVENT_SIZE,
    {
        let mut v: Vec<u8> = Vec::new();
        if rec.name_len > 0 {
            let src = match rec.name_off {
                Some(o) => o,
                None => 0,
            };
            let n = if (rec.name_len as usize) < HALF - EVENT_SIZE {
                rec.name_len as usize
            } else {
                HALF - EVENT_SIZE
            };
            let mut i: usize = 0;
            while i < n
                invariant
                    self.wf(),
                    i <= n,
                    n <= HALF - EVENT_SIZE,
                    rec@.name_off == Some(src as int),
                    rec.name_len > 0,
                    n == self@.name_bytes(rec@).len(),
                    v@ == self@.name_bytes(rec@).take(i as int),
                decreases n - i,
            {
                let c = if src < HALF && i < HALF - src {
                    self.buf[src + i]
                } else {
                    0
                };
                v.push(c);
                i = i + 1;
                assert(v@ =~= self@.name_bytes(rec@).take(i as int));
            }
            assert(v@ =~= self@.name_bytes(rec@));
        }
        v
    }

    /// The current event.
    pub fn current(&self, order: ByteOrder) -> (ev: Event)
        requires
            self.wf(),
        ensures
            ev@ == event_at(self@.buf, order, self@.ret_off),
    {
        let off = self.ret_off;
        let size = self.buf.len();
        let len = order.read_u32(self.buf.as_slice(), off + 12);
        let start = if off + EVENT_SIZE < size {
            off + EVENT_SIZE
        } else {
            size
        };
        let end = if (len as u64) < (size - start) as u64 {
            start + len as usize
        } else {
            size
        };
        let raw = bytes::copy_range(self.buf.as_slice(), start, end);
        let name = bytes::cstring(raw.as_slice());
        Event {
            wd: order.read_u32(self.buf.as_slice(), off) as i32,
            mask: order.read_u32(self.buf.as_slice(), off + 4),
            cookie: order.read_u32(self.buf.as_slice(), off + 8),
            len,
            name,
        }
    }

    /// The 32-bit value at `off`; 0 outside of the buffer.
    pub fn u32_at(&self, order: ByteOrder, off: usize) -> (v: u32)
        requires
            off + 3 <= usize::MAX,
        ensures
            v == order.u32_at(self@.buf, off as int),
    {
        order.read_u32(self.buf.as_slice(), off)
    }
}

/// Write `data` over `v` from `off` on.
fn put_bytes(v: &mut Vec<u8>, off: usize, data: &[u8])
    requires
        off + data@.len() <= old(v)@.len(),
    ensures
        final(v)@ == order::overwrite(old(v)@, off as int, data@),
{
    let ghost before = v@;
    let size = v.len();
    let mut i: usize = 0;
    while i < data.len()
        invariant
            i <= data@.len(),
            size == before.len(),
            off + data@.len() <= size,
            v@ == order::overwrite(before, off as int, data@.take(i as int)),
        decreases data@.len() - i,
    {
        v[off + i] = data[i];
        i = i + 1;
        assert(v@ =~= order::overwrite(before, off as int, data@.take(i as int)));
    }
    assert(data@.take(i as int) =~= data@);
}

/// A fanotify event on a named file in a directory.
pub struct FileEvent {
    /// Version and length of the metadata.
    pub version: Seq<u8>,
    pub mask_low: u32,
    pub mask_high: u32,
    pub fd: u32,
    pub pid: u32,
    pub fsid: Seq<u8>,
    pub handle_type: u32,
    /// The file handle of the directory.
    pub handle: Seq<u8>,
    pub name: Seq<u8>,
}

impl FileEvent {
    /// Length of the information record.
    pub open spec fn record_len(self) -> int {
        fid::FID_HDR + self.handle.len() + self.name.len() + 1
    }

    /// An event the kernel can write: fields have their sizes, and the name
    /// is proper.
    pub open spec fn is_proper(self) -> bool {
        &&& self.version.len() == 4
        &&& self.fsid.len() == 8
        &&& self.record_len() <= u16::MAX
        &&& bytes::c_str(self.name) == self.name
        &&& self.name.len() > 0
        &&& self.name != seq!['.' as u8]
    }

    /// The metadata as the kernel writes it.
    pub open spec fn metadata(self, order: ByteOrder) -> Seq<u8> {
        order.u32_bytes((fid::META_LEN + self.record_len()) as u32) + self.version + (match order {
            ByteOrder::Little => order.u32_bytes(self.mask_low) + order.u32_bytes(self.mask_high),
            ByteOrder::Big => order.u32_bytes(self.mask_high) + order.u32_bytes(self.mask_low),
        }) + order.u32_bytes(self.fd) + order.u32_bytes(self.pid)
    }

    /// The information record as the kernel writes it.
    pub open spec fn record(self, order: ByteOrder) -> Seq<u8> {
        seq![fid::FAN_EVENT_INFO_TYPE_DFID_NAME, 0] + order.u16_bytes(self.record_len() as u16)
            + self.fsid + order.u32_bytes(self.handle.len() as u32) + order.u32_bytes(
            self.handle_type,
        ) + self.handle + self.name + seq![0u8]
    }
}

/// A text that begins with a NUL-terminated string is that string in C.
proof fn lemma_terminated(s: Seq<u8>, name: Seq<u8>)
    requires
        bytes::c_str(name) == name,
        name.len() < s.len(),
        s.take(name.len() as int) == name,
        s[name.len() as int] == 0,
    ensures
        bytes::c_str(s) == name,
{
    bytes::lemma_first_at(name, 0);
    assert(bytes::first_at(name, 0) == name.len());
    assert forall|i: int| 0 <= i < name.len() implies s[i] != 0 by {
        assert(s[i] == s.take(name.len() as int)[i]);
        assert(name[i] != 0);
    }
    bytes::lemma_first_at_unique(s, 0, name.len() as int);
}

/// The fields of the metadata are read as they were written.
proof fn lemma_metadata(buf: Seq<u8>, order: ByteOrder, off: int, e: FileEvent)
    requires
        e.is_proper(),
        0 <= off,
        off + fid::META_LEN <= buf.len(),
        buf.subrange(off, off + fid::META_LEN) == e.metadata(order),
    ensures
        order.u32_at(buf, off) == fid::META_LEN + e.record_len(),
        order.low_u32_at(buf, off + 8) == e.mask_low,
        order.u32_at(buf, off + 20) == e.pid,
{
    let a = order.u32_bytes((fid::META_LEN + e.record_len()) as u32);
    let f = order.u32_bytes(e.fd);
    let p = order.u32_bytes(e.pid);
    let all = e.metadata(order);
    let (m1, m2) = match order {
        ByteOrder::Little => (e.mask_low, e.mask_high),
        ByteOrder::Big => (e.mask_high, e.mask_low),
    };
    let b = order.u32_bytes(m1);
    let c = order.u32_bytes(m2);
    assert(all =~= Seq::<u8>::empty() + a + (e.version + b + c + f + p));
    order::lemma_u32_in(
        order,
        buf,
        off,
        Seq::empty(),
        (fid::META_LEN + e.record_len()) as u32,
        e.version + b + c + f + p,
    );
    assert(all =~= (a + e.version) + b + (c + f + p));
    order::lemma_u32_in(order, buf, off, a + e.version, m1, c + f + p);
    assert(all =~= (a + e.version + b) + c + (f + p));
    order::lemma_u32_in(order, buf, off, a + e.version + b, m2, f + p);
    assert(all =~= (a + e.version + b + c + f) + p + Seq::<u8>::empty());
    order::lemma_u32_in(order, buf, off, a + e.version + b + c + f, e.pid, Seq::empty());
}

/// The fields of the information record are read as they were written.
proof fn lemma_record(buf: Seq<u8>, order: ByteOrder, info: int, e: FileEvent)
    requires
        e.is_proper(),
        0 <= info,
        info + e.record_len() <= buf.len(),
        buf.subrange(info, info + e.record_len()) == e.record(order),
    ensures
        bytes::at(buf, info) == fid::FAN_EVENT_INFO_TYPE_DFID_NAME,
        order.u16_at(buf, info + 2) == e.record_len(),
        order.u32_at(buf, info + fid::HANDLE_OFF) == e.handle.len(),
        ({
            let o = info + fid::FID_HDR + e.handle.len();
            &&& buf.subrange(o, o + e.name.len()) == e.name
            &&& buf[o + e.name.len()] == 0
        }),
{
    let rec = e.record(order);
    let text = buf.subrange(info, info + e.record_len());
    let k = seq![fid::FAN_EVENT_INFO_TYPE_DFID_NAME, 0];
    let l = order.u16_bytes(e.record_len() as u16);
    let h = order.u32_bytes(e.handle.len() as u32);
    let t = order.u32_bytes(e.handle_type);
    let z = seq![0u8];
    assert(rec.len() == e.record_len());
    assert(text[0] == buf[info] && rec[0] == k[0]);
    assert(text[2] == buf[info + 2] && rec[2] == l[0]);
    assert(text[3] == buf[info + 3] && rec[3] == l[1]);
    assert(rec =~= (k + l + e.fsid) + h + (t + e.handle + e.name + z));
    order::lemma_u32_in(
        order,
        buf,
        info,
        k + l + e.fsid,
        e.handle.len() as u32,
        t + e.handle + e.name + z,
    );
    let at = fid::FID_HDR + e.handle.len();
    let o = info + at;
    assert(rec.subrange(at as int, at + e.name.len()) =~= e.name);
    assert(buf.subrange(o, o + e.name.len()) =~= text.subrange(at as int, at + e.name.len()));
    assert(text[at + e.name.len()] == buf[o + e.name.len()]);
    assert(rec[at + e.name.len()] == 0);
}

/// What the kernel wrote as a fanotify event on a named file is read as that
/// event: its file identifier is the whole record, and its name, mask and
/// process are those that were written.
pub proof fn law_file_event_is_read_back(b: BufferState, order: ByteOrder, e: FileEvent)
    requires
        b.buf.len() == 2 * HALF,
        e.is_proper(),
        0 <= b.first_byte,
        b.info_off() + e.record_len() <= HALF,
        b.buf.subrange(b.first_byte as int, b.info_off() + e.record_len()) == e.metadata(order)
            + e.record(order),
    ensures
        b.record_fits(order),
        b.has_fid(order),
        ({
            let r = b.record(order);
            &&& r.fid == e.record(order)
            &&& r.name == e.name
            &&& r.name_len == e.name.len() + 1
            &&& r.fits()
            &&& b.examined(order).buf == b.buf
            &&& order.u32_at(b.buf, b.first_byte as int) == fid::META_LEN + e.record_len()
            &&& order.low_u32_at(b.buf, r.meta + 8) == e.mask_low
            &&& b.pid(order, r) == e.pid as i32
            &&& bytes::c_str(b.name_bytes(r)) == e.name
        }),
{
    let off = b.first_byte as int;
    let info = b.info_off();
    let n = e.record_len();
    let text = b.buf.subrange(off, info + n);
    let m = e.metadata(order);
    let rec = e.record(order);
    assert(m.len() == fid::META_LEN);
    assert(text.take(m.len() as int) =~= m);
    assert(b.buf.subrange(off, info) =~= text.take(m.len() as int));
    assert(text.skip(m.len() as int) =~= rec);
    assert(b.buf.subrange(info, info + n) =~= text.skip(m.len() as int));
    lemma_metadata(b.buf, order, off, e);
    lemma_record(b.buf, order, info, e);
    assert(b.has_fid(order));
    let o = info + fid::FID_HDR + e.handle.len();
    assert(b.fid_len(order) == fid::FID_HDR + e.handle.len());
    assert(b.padded_name_len(order) == e.name.len() + 1);
    assert(b.name_off(order) == Some(o));
    let name = b.buf.subrange(o, o + e.name.len());
    bytes::lemma_first_at(e.name, 0);
    assert(bytes::first_at(e.name, 0) == e.name.len());
    assert(name[0] == b.buf[o]);
    assert(e.name[0] != 0);
    assert(!b.is_nameless(order)) by {
        if b.buf[o] == '.' as u8 && b.buf[o + 1] == 0 {
            if e.name.len() > 1 {
                assert(name[1] == b.buf[o + 1]);
                assert(e.name[1] != 0);
            } else {
                assert(e.name =~= seq!['.' as u8]);
            }
        }
    }
    let r = b.record(order);
    let rest = b.buf.skip(o);
    assert(rest.take(e.name.len() as int) =~= name);
    lemma_terminated(rest, e.name);
    let copied = b.name_bytes(r);
    assert(copied.len() == e.name.len() + 1);
    assert(copied.take(e.name.len() as int) =~= name);
    lemma_terminated(copied, e.name);
}

/// A record has a name only if it is of the kind that has one, and what is
/// there is not padding or the directory itself; without a name it ends with
/// the file handle.
pub proof fn law_records_without_a_name(b: BufferState, order: ByteOrder)
    requires
        b.first_byte >= 0,
        b.first_byte + 24 + 20 <= b.buf.len(),
        order.u32_at(b.buf, b.first_byte as int) > 24,
    ensures
        ({
            let info = b.first_byte + 24;
            let kind = b.buf[info];
            let n = 20 + order.u32_at(b.buf, info + 12);
            let len = order.u16_at(b.buf, info + 2);
            let name = info + n;
            let r = b.record(order);
            let dot = name + 1 < b.buf.len() && b.buf[name] == '.' as u8 && b.buf[name + 1] == 0;
            let none = name < b.buf.len() && b.buf[name] == 0;
            &&& b.has_fid(order) == (kind == 1 || kind == 2 || kind == 3)
            &&& kind != 2 ==> r.name_len == 0 && r.name_off is None && b.examined(order).buf
                == b.buf
            &&& kind == 2 && len > n && (dot || none) ==> r.name_len == 0
            &&& kind == 2 && len > n && !dot && !none && name + 1 < b.buf.len() ==> r.name_len == len
                - n && r.name_off == Some(name) && b.examined(order).buf == b.buf
            &&& kind == 2 && len > n && (dot || none) ==> order.u16_at(
                b.examined(order).buf,
                info + 2,
            ) == n
            &&& kind == 2 && len == n ==> r.name_len == 0 && b.examined(order).buf == b.buf
        }),
{
    let info = b.first_byte + 24;
    let n = 20 + order.u32_at(b.buf, info + 12);
    let bytes = order.u16_bytes(n as u16);
    let after = b.examined(order).buf;
    if b.is_nameless(order) && b.has_fid(order) {
        assert(after[info + 2] == bytes[0] && after[info + 3] == bytes[1]);
    }
}

} // verus!
