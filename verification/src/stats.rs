//! Event counters.

use vstd::prelude::*;

use crate::consts;

verus! {

/// Per-watch (or total) event counters.
#[derive(Clone, Copy, Debug, PartialEq, Eq, Structural)]
pub struct WatchStats {
    pub access: u32,
    pub modify: u32,
    pub attrib: u32,
    pub close_write: u32,
    pub close_nowrite: u32,
    pub open: u32,
    pub moved_from: u32,
    pub moved_to: u32,
    pub create: u32,
    pub delete: u32,
    pub delete_self: u32,
    pub unmount: u32,
    pub move_self: u32,
    pub total: u32,
}

/// A counter one higher if `mask` holds the event, starting over at 0.
pub open spec fn bumped(c: u32, mask: u32, flag: i32) -> u32 {
    if (mask as i32) & flag != 0 {
        stepped(c)
    } else {
        c
    }
}

/// A counter one higher, starting over at 0.
pub open spec fn stepped(c: u32) -> u32 {
    if c == u32::MAX {
        0
    } else {
        (c + 1) as u32
    }
}

fn bump(c: u32, mask: u32, flag: i32) -> (r: u32)
    ensures
        r == bumped(c, mask, flag),
{
    if (mask as i32) & flag != 0 {
        c.wrapping_add(1)
    } else {
        c
    }
}

impl Default for WatchStats {
    fn default() -> (s: WatchStats)
        ensures
            s == WatchStats::zero(),
    {
        WatchStats {
            access: 0,
            modify: 0,
            attrib: 0,
            close_write: 0,
            close_nowrite: 0,
            open: 0,
            moved_from: 0,
            moved_to: 0,
            create: 0,
            delete: 0,
            delete_self: 0,
            unmount: 0,
            move_self: 0,
            total: 0,
        }
    }
}

impl WatchStats {
    pub open spec fn zero() -> WatchStats {
        WatchStats {
            access: 0,
            modify: 0,
            attrib: 0,
            close_write: 0,
            close_nowrite: 0,
            open: 0,
            moved_from: 0,
            moved_to: 0,
            create: 0,
            delete: 0,
            delete_self: 0,
            unmount: 0,
            move_self: 0,
            total: 0,
        }
    }

    /// The counter for a single event, or `total` for 0; `None` for anything
    /// else.
    pub open spec fn counter(self, event: i32) -> Option<u32> {
        if event == consts::IN_ACCESS {
            Some(self.access)
        } else if event == consts::IN_MODIFY {
            Some(self.modify)
        } else if event == consts::IN_ATTRIB {
            Some(self.attrib)
        } else if event == consts::IN_CLOSE_WRITE {
            Some(self.close_write)
        } else if event == consts::IN_CLOSE_NOWRITE {
            Some(self.close_nowrite)
        } else if event == consts::IN_OPEN {
            Some(self.open)
        } else if event == consts::IN_MOVED_FROM {
            Some(self.moved_from)
        } else if event == consts::IN_MOVED_TO {
            Some(self.moved_to)
        } else if event == consts::IN_CREATE {
            Some(self.create)
        } else if event == consts::IN_DELETE {
            Some(self.delete)
        } else if event == consts::IN_DELETE_SELF {
            Some(self.delete_self)
        } else if event == consts::IN_UNMOUNT {
            Some(self.unmount)
        } else if event == consts::IN_MOVE_SELF {
            Some(self.move_self)
        } else if event == 0 {
            Some(self.total)
        } else {
            None
        }
    }

    /// The counters after one more event.
    pub open spec fn recorded(self, mask: u32) -> WatchStats {
        WatchStats {
            access: bumped(self.access, mask, consts::IN_ACCESS),
            modify: bumped(self.modify, mask, consts::IN_MODIFY),
            attrib: bumped(self.attrib, mask, consts::IN_ATTRIB),
            close_write: bumped(self.close_write, mask, consts::IN_CLOSE_WRITE),
            close_nowrite: bumped(self.close_nowrite, mask, consts::IN_CLOSE_NOWRITE),
            open: bumped(self.open, mask, consts::IN_OPEN),
            moved_from: bumped(self.moved_from, mask, consts::IN_MOVED_FROM),
            moved_to: bumped(self.moved_to, mask, consts::IN_MOVED_TO),
            create: bumped(self.create, mask, consts::IN_CREATE),
            delete: bumped(self.delete, mask, consts::IN_DELETE),
            delete_self: bumped(self.delete_self, mask, consts::IN_DELETE_SELF),
            unmount: bumped(self.unmount, mask, consts::IN_UNMOUNT),
            move_self: bumped(self.move_self, mask, consts::IN_MOVE_SELF),
            total: stepped(self.total),
        }
    }

    /// The counter for a single event, or `total` for 0.  `None` for
    /// anything else.
    pub fn get(&self, event: i32) -> (c: Option<u32>)
        ensures
            c == self.counter(event),
    {
        if event == consts::IN_ACCESS {
            Some(self.access)
        } else if event == consts::IN_MODIFY {
            Some(self.modify)
        } else if event == consts::IN_ATTRIB {
            Some(self.attrib)
        } else if event == consts::IN_CLOSE_WRITE {
            Some(self.close_write)
        } else if event == consts::IN_CLOSE_NOWRITE {
            Some(self.close_nowrite)
        } else if event == consts::IN_OPEN {
            Some(self.open)
        } else if event == consts::IN_MOVED_FROM {
            Some(self.moved_from)
        } else if event == consts::IN_MOVED_TO {
            Some(self.moved_to)
        } else if event == consts::IN_CREATE {
            Some(self.create)
        } else if event == consts::IN_DELETE {
            Some(self.delete)
        } else if event == consts::IN_DELETE_SELF {
            Some(self.delete_self)
        } else if event == consts::IN_UNMOUNT {
            Some(self.unmount)
        } else if event == consts::IN_MOVE_SELF {
            Some(self.move_self)
        } else if event == 0 {
            Some(self.total)
        } else {
            None
        }
    }

    /// Count an event.
    pub fn record(&mut self, mask: u32)
        ensures
            *final(self) == old(self).recorded(mask),
    {
        self.access = bump(self.access, mask, consts::IN_ACCESS);
        self.modify = bump(self.modify, mask, consts::IN_MODIFY);
        self.attrib = bump(self.attrib, mask, consts::IN_ATTRIB);
        self.close_write = bump(self.close_write, mask, consts::IN_CLOSE_WRITE);
        self.close_nowrite = bump(self.close_nowrite, mask, consts::IN_CLOSE_NOWRITE);
        self.open = bump(self.open, mask, consts::IN_OPEN);
        self.moved_from = bump(self.moved_from, mask, consts::IN_MOVED_FROM);
        self.moved_to = bump(self.moved_to, mask, consts::IN_MOVED_TO);
        self.create = bump(self.create, mask, consts::IN_CREATE);
        self.delete = bump(self.delete, mask, consts::IN_DELETE);
        self.delete_self = bump(self.delete_self, mask, consts::IN_DELETE_SELF);
        self.unmount = bump(self.unmount, mask, consts::IN_UNMOUNT);
        self.move_self = bump(self.move_self, mask, consts::IN_MOVE_SELF);
        self.total = self.total.wrapping_add(1);
    }
}

/// Recording an event moves exactly the counters of the events in its mask,
/// and the total.
pub proof fn law_record_counts(s: WatchStats, mask: u32, event: i32)
    ensures
        s.counter(event) is Some <==> s.recorded(mask).counter(event) is Some,
        s.counter(event) matches Some(c) ==> s.recorded(mask).counter(event) == Some(
            if event == 0 {
                stepped(c)
            } else {
                bumped(c, mask, event)
            },
        ),
{
}

/// A counter for each event, and for 0 the total; nothing is counted for
/// combinations or other bits.
pub proof fn law_each_event_has_its_counter(s: WatchStats, event: i32)
    ensures
        s.counter(0x1) == Some(s.access),
        s.counter(0x2) == Some(s.modify),
        s.counter(0x4) == Some(s.attrib),
        s.counter(0x8) == Some(s.close_write),
        s.counter(0x10) == Some(s.close_nowrite),
        s.counter(0x20) == Some(s.open),
        s.counter(0x40) == Some(s.moved_from),
        s.counter(0x80) == Some(s.moved_to),
        s.counter(0x100) == Some(s.create),
        s.counter(0x200) == Some(s.delete),
        s.counter(0x400) == Some(s.delete_self),
        s.counter(0x800) == Some(s.move_self),
        s.counter(0x2000) == Some(s.unmount),
        s.counter(0) == Some(s.total),
        s.counter(0x18) is None,
        s.counter(0xc0) is None,
        s.counter(0xfff) is None,
        event < 0 || event > 0x2000 ==> s.counter(event) is None,
{
}

/// Recording an event raises the total by one, and each counter by one if
/// the mask has the bit of its event, as long as 32 bits can count it.
pub proof fn law_recording_raises_by_one(s: WatchStats, mask: u32, event: i32)
    requires
        s.counter(event) matches Some(c) && c < u32::MAX,
    ensures
        s.recorded(mask).counter(event) == Some(
            (s.counter(event)->0 + if event == 0 || (mask as i32) & event != 0 {
                1int
            } else {
                0
            }) as u32,
        ),
{
}

/// A counter that is at its highest starts over at 0.
pub proof fn law_counters_start_over(s: WatchStats, mask: u32, event: i32)
    requires
        s.counter(event) == Some(u32::MAX),
        event == 0 || (mask as i32) & event != 0,
    ensures
        s.recorded(mask).counter(event) == Some(0u32),
{
}

} // verus!
