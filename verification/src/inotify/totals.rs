//! How the counters of the watches and the counters over all watches hang
//! together.

use vstd::prelude::*;

use crate::inotify::reader::Reply;
use crate::inotify::setup::SetupReply;
use crate::inotify::setup::SetupState;
use crate::inotify::LibState;
use crate::keymap;
use crate::order::ByteOrder;
use crate::stats;
use crate::stats::WatchStats;
use crate::table;
use crate::table::TableState;

verus! {

/// What a watch descriptor adds to the occurrences of an event.
pub open spec fn share(t: TableState, event: i32, wd: i32) -> int {
    if t.by_wd.contains_key(wd) {
        t.count(t.by_wd[wd], event) as int
    } else {
        0
    }
}

/// The occurrences of an event on the watches with watch descriptors below
/// `n`.
pub open spec fn sum_below(t: TableState, event: i32, n: int) -> int
    decreases n - i32::MIN,
{
    if n <= i32::MIN {
        0
    } else {
        sum_below(t, event, n - 1) + share(t, event, (n - 1) as i32)
    }
}

/// The occurrences of an event on all watches.
pub open spec fn sum(t: TableState, event: i32) -> int {
    sum_below(t, event, i32::MAX + 1)
}

impl LibState {
    /// Each counter over all watches is the sum of that counter of the
    /// watches, as far as 32 bits can tell.
    pub open spec fn totals_are_sums(self) -> bool {
        forall|event: i32|
            match #[trigger] self.totals.counter(event) {
                Some(c) => c == sum(self.table, event) % 0x1_0000_0000,
                None => true,
            }
    }

    /// No watch has counted anything.
    pub open spec fn uncounted(self) -> bool {
        forall|wd: i32| #[trigger]
            self.table.by_wd.contains_key(wd) ==> self.table.watches[self.table.by_wd[wd]].stats
                == WatchStats::zero()
    }

    /// The totals are sums where events are counted, and elsewhere nothing
    /// has been counted.
    pub open spec fn counters_agree(self) -> bool {
        if self.collect_stats {
            self.totals_are_sums()
        } else {
            self.uncounted()
        }
    }

    /// The sum of what [`crate::inotify::Inotifytools::get_stat_by_wd`] says
    /// of an event, over the watches with watch descriptors below `n`.
    pub open spec fn stats_below(self, event: i32, n: int) -> int
        decreases n - i32::MIN,
    {
        if n <= i32::MIN {
            0
        } else {
            self.stats_below(event, n - 1) + match self.id_of_any_wd((n - 1) as i32) {
                Some(id) => self.stat_of(Some(id), event) as int,
                None => 0,
            }
        }
    }
}

/// A sum changes as the share of a single watch descriptor does.
proof fn lemma_sum_changes(t: TableState, u: TableState, event: i32, wd: i32, n: int)
    requires
        forall|w: i32| w != wd ==> #[trigger] share(u, event, w) == share(t, event, w),
        n <= i32::MAX + 1,
    ensures
        sum_below(u, event, n) == sum_below(t, event, n) + if n > wd {
            share(u, event, wd) - share(t, event, wd)
        } else {
            0
        },
    decreases n - i32::MIN,
{
    if n > i32::MIN {
        lemma_sum_changes(t, u, event, wd, n - 1);
        assert((n - 1) as i32 == n - 1);
    }
}

/// A sum stays where all shares do.
proof fn lemma_sum_stays(t: TableState, u: TableState, event: i32)
    requires
        forall|w: i32| #[trigger] share(u, event, w) == share(t, event, w),
    ensures
        sum(u, event) == sum(t, event),
{
    lemma_sum_changes(t, u, event, 0, i32::MAX + 1);
}

/// Nothing counted makes a sum of 0.
proof fn lemma_sum_of_nothing(t: TableState, event: i32, n: int)
    requires
        forall|w: i32| #[trigger] share(t, event, w) == 0,
    ensures
        sum_below(t, event, n) == 0,
    decreases n - i32::MIN,
{
    if n > i32::MIN {
        lemma_sum_of_nothing(t, event, n - 1);
    }
}

/// Where the watches found by watch descriptor keep their counters, and new
/// ones have counted nothing, all stays as it is.
proof fn lemma_counters_stay(s: LibState, u: LibState)
    requires
        s.counters_agree(),
        u.collect_stats == s.collect_stats,
        u.totals == s.totals,
        forall|w: i32|
            s.table.by_wd.contains_key(w) ==> #[trigger] u.table.by_wd.contains_key(w)
                && u.table.watches[u.table.by_wd[w]].stats
                == s.table.watches[s.table.by_wd[w]].stats,
        forall|w: i32| #[trigger]
            u.table.by_wd.contains_key(w) && !s.table.by_wd.contains_key(w)
                ==> u.table.watches[u.table.by_wd[w]].stats == WatchStats::zero(),
    ensures
        u.counters_agree(),
        forall|event: i32| #[trigger] sum(u.table, event) == sum(s.table, event),
{
    assert forall|event: i32| #[trigger] sum(u.table, event) == sum(s.table, event) by {
        assert forall|w: i32| #[trigger]
            share(u.table, event, w) == share(s.table, event, w) by {
            assert(u.table.by_wd.contains_key(w) || !s.table.by_wd.contains_key(w));
        }
        lemma_sum_stays(s.table, u.table, event);
    }
    if s.collect_stats {
        assert forall|event: i32|
            match #[trigger] u.totals.counter(event) {
                Some(c) => c == sum(u.table, event) % 0x1_0000_0000,
                None => true,
            } by {
            assert(s.totals.counter(event) == u.totals.counter(event));
        }
    } else {
        assert forall|w: i32| #[trigger]
            u.table.by_wd.contains_key(w) implies u.table.watches[u.table.by_wd[w]].stats
            == WatchStats::zero() by {
            assert(s.table.by_wd.contains_key(w) || !s.table.by_wd.contains_key(w));
        }
    }
}

/// A new handle, and one whose event group was set up or given up, has
/// counted nothing.
pub proof fn law_nothing_is_counted_at_first(s: LibState, order: ByteOrder)
    ensures
        LibState::fresh(order).counters_agree(),
        s.started().counters_agree(),
        s.cleaned().counters_agree(),
{
}

/// When statistics are initialised or reset, every count is 0, and the
/// totals are the sums of the counts.
pub proof fn law_counting_starts_at_zero(s: LibState)
    requires
        s.table.consistent(),
        s.counters_agree(),
    ensures
        s.counting().totals_are_sums(),
        s.counting().uncounted(),
        forall|event: i32| #[trigger] sum(s.counting().table, event) == 0,
{
    let u = s.counting();
    assert forall|wd: i32| #[trigger]
        u.table.by_wd.contains_key(wd) implies u.table.watches[u.table.by_wd[wd]].stats
        == WatchStats::zero() by {
        assert(s.table.by_wd.contains_key(wd));
        assert(s.table.found_by_wd(s.table.by_wd[wd]));
    }
    assert forall|event: i32| #[trigger] sum(u.table, event) == 0 by {
        assert forall|w: i32| #[trigger] share(u.table, event, w) == 0 by {
            if u.table.by_wd.contains_key(w) {
                assert(u.table.watches[u.table.by_wd[w]].stats == WatchStats::zero());
            }
        }
        lemma_sum_of_nothing(u.table, event, i32::MAX + 1);
    }
}

/// A total and a count in its sum go on together.
proof fn lemma_stepped(total: u32, c: u32, sum: int)
    requires
        total == sum % 0x1_0000_0000,
    ensures
        stats::stepped(total) == (sum + stats::stepped(c) - c) % 0x1_0000_0000,
{
}

/// How counting an event changes the sum of one counter.
proof fn lemma_counted_sum(s: LibState, wd: i32, mask: u32, event: i32)
    requires
        s.table.consistent(),
        s.table.by_wd.contains_key(wd),
    ensures
        ({
            let before = s.table.watches[s.table.by_wd[wd]].stats;
            let sum_before = sum(s.table, event);
            let sum_after = sum(s.counted(wd, mask).table, event);
            match (before.counter(event), before.recorded(mask).counter(event)) {
                (Some(c), Some(d)) => sum_after == sum_before + d - c,
                _ => sum_after == sum_before,
            }
        }),
{
    let t = s.table;
    let u = s.counted(wd, mask).table;
    let id = t.by_wd[wd];
    assert forall|w: i32| w != wd implies #[trigger] share(u, event, w) == share(t, event, w) by {
        if t.by_wd.contains_key(w) {
            assert(t.watches[t.by_wd[w]].wd == w);
            assert(t.watches[id].wd == wd);
        }
    }
    lemma_sum_changes(t, u, event, wd, i32::MAX + 1);
    stats::law_record_counts(t.watches[id].stats, mask, event);
}

proof fn lemma_counted(s: LibState, wd: i32, mask: u32, event: i32)
    requires
        s.table.consistent(),
        s.totals_are_sums(),
    ensures
        sum(s.counted(wd, mask).table, event) <= sum(s.table, event) + 1,
        match s.counted(wd, mask).totals.counter(event) {
            Some(c) => c == sum(s.counted(wd, mask).table, event) % 0x1_0000_0000,
            None => true,
        },
{
    assert(match s.totals.counter(event) {
        Some(c) => c == sum(s.table, event) % 0x1_0000_0000,
        None => true,
    });
    if s.table.by_wd.contains_key(wd) {
        let before = s.table.watches[s.table.by_wd[wd]].stats;
        lemma_counted_sum(s, wd, mask, event);
        stats::law_record_counts(s.totals, mask, event);
        stats::law_record_counts(before, mask, event);
        if let Some(total) = s.totals.counter(event) {
            lemma_stepped(total, before.counter(event)->0, sum(s.table, event));
        }
    }
}

/// When an event is counted, each total stays the sum of the counts.  No sum
/// grows by more than one.
pub proof fn law_counting_keeps_totals(s: LibState, wd: i32, mask: u32)
    requires
        s.table.consistent(),
        s.totals_are_sums(),
    ensures
        s.counted(wd, mask).totals_are_sums(),
        forall|event: i32| #[trigger]
            sum(s.counted(wd, mask).table, event) <= sum(s.table, event) + 1,
{
    let u = s.counted(wd, mask);
    assert forall|event: i32|
        match #[trigger] u.totals.counter(event) {
            Some(c) => c == sum(u.table, event) % 0x1_0000_0000,
            None => true,
        } by {
        lemma_counted(s, wd, mask, event);
    }
    assert forall|event: i32| #[trigger] sum(u.table, event) <= sum(s.table, event) + 1 by {
        lemma_counted(s, wd, mask, event);
    }
}

/// When a watch is registered or renamed, no count changes, and the totals
/// stay the sums of the counts.
pub proof fn law_watching_keeps_totals(
    s: LibState,
    id: u64,
    wd: i32,
    fid: Option<Seq<u8>>,
    name: Seq<u8>,
    dirf: i32,
)
    requires
        s.table.consistent(),
        s.counters_agree(),
    ensures
        ({
            let t = s.table.created(wd, fid, name, dirf);
            &&& (LibState { table: t, ..s }).counters_agree()
            &&& forall|event: i32| #[trigger] sum(t, event) == sum(s.table, event)
        }),
        s.table.watches.contains_key(id) ==> {
            let t = s.table.renamed(id, name);
            &&& (LibState { table: t, ..s }).counters_agree()
            &&& forall|event: i32| #[trigger] sum(t, event) == sum(s.table, event)
        },
{
    let t = s.table.created(wd, fid, name, dirf);
    assert forall|w: i32|
        s.table.by_wd.contains_key(w) implies #[trigger] t.by_wd.contains_key(w)
        && t.watches[t.by_wd[w]].stats == s.table.watches[s.table.by_wd[w]].stats by {
        assert(s.table.watches.contains_key(s.table.by_wd[w]));
    }
    lemma_counters_stay(s, LibState { table: t, ..s });
    if s.table.watches.contains_key(id) {
        lemma_counters_stay(s, LibState { table: s.table.renamed(id, name), ..s });
    }
}

proof fn lemma_replaced_by_wd(t: TableState, ids: Seq<u64>, oldname: Seq<u8>, newname: Seq<u8>)
    ensures
        t.replaced(ids, oldname, newname).by_wd == t.by_wd,
    decreases ids.len(),
{
    if ids.len() > 0 {
        let next = match TableState::replaced_name(t.watches[ids[0]].filename, oldname, newname) {
            Some(name) => t.renamed(ids[0], name),
            None => t,
        };
        lemma_replaced_by_wd(next, ids.skip(1), oldname, newname);
    }
}

/// When watches are renamed by prefix, no count changes, and the totals stay
/// the sums of the counts.
pub proof fn law_replacing_keeps_totals(s: LibState, oldname: Seq<u8>, newname: Seq<u8>)
    requires
        s.table.consistent(),
        s.table.by_filename.dom().finite(),
        s.counters_agree(),
    ensures
        ({
            let t = s.table.replaced(
                keymap::ids_in_order(s.table.by_filename),
                oldname,
                newname,
            );
            &&& (LibState { table: t, ..s }).counters_agree()
            &&& forall|event: i32| #[trigger] sum(t, event) == sum(s.table, event)
        }),
{
    let ids = keymap::ids_in_order(s.table.by_filename);
    let t = s.table.replaced(ids, oldname, newname);
    lemma_replaced_by_wd(s.table, ids, oldname, newname);
    assert forall|w: i32|
        s.table.by_wd.contains_key(w) implies #[trigger] t.by_wd.contains_key(w)
        && t.watches[t.by_wd[w]].stats == s.table.watches[s.table.by_wd[w]].stats by {
        table::law_replace_renames_by_prefix(s.table, oldname, newname, s.table.by_wd[w]);
    }
    lemma_counters_stay(s, LibState { table: t, ..s });
}

/// While files are set up to be watched, the totals stay the sums of the
/// counts.
pub proof fn law_setting_up_keeps_totals(s: LibState, setup: SetupState, reply: SetupReply)
    requires
        s.table.consistent(),
        s.counters_agree(),
    ensures
        s.set_up(setup, reply).0.counters_agree(),
        forall|event: i32| #[trigger]
            sum(s.set_up(setup, reply).0.table, event) == sum(s.table, event),
{
    let u = s.set_up(setup, reply).0;
    assert forall|wd: i32, fid: Option<Seq<u8>>, name: Seq<u8>, dirf: i32|
        u.table == #[trigger] s.table.created(wd, fid, name, dirf) && u.totals == s.totals
            && u.collect_stats == s.collect_stats implies u.counters_agree() && forall|event: i32|
        #[trigger] sum(u.table, event) == sum(s.table, event) by {
        law_watching_keeps_totals(s, 0, wd, fid, name, dirf);
    }
}

/// While events are read, each total stays the sum of the counts.  No sum
/// grows but when an event is handed out, and then by no more than one.
pub proof fn law_reading_keeps_totals(s: LibState, num_events: i32, reply: Reply)
    requires
        s.table.consistent(),
        s.counters_agree(),
        s.can_step(reply),
    ensures
        s.after(num_events, reply).0.counters_agree(),
        forall|event: i32| #[trigger]
            sum(s.after(num_events, reply).0.table, event) <= sum(s.table, event) + if s.after(
                num_events,
                reply,
            ).1 is Deliver {
                1int
            } else {
                0
            },
{
    let u = s.after(num_events, reply).0;
    match reply {
        Reply::Take => {
            let order = s.table.order;
            let v = LibState { buffer: s.buffer.passed(order).settled(), ..s };
            lemma_delivered(v);
        },
        Reply::Converted { rec, path } => {
            let p = crate::bytes::opt_bytes(path);
            if p is Some && s.id_of_fid(rec@.fid) is None {
                law_watching_keeps_totals(s, 0, 0, Some(rec@.fid), p->0, 0);
                table::law_indexes_stay_consistent(s.table, 0, 0, Some(rec@.fid), p->0, 0);
            }
            let v = s.converted(rec@, p);
            assert(v.table == s.known(rec@.fid, p).table);
            assert(v.counters_agree());
            lemma_delivered(v);
        },
        Reply::Matched(_) => {
            lemma_delivered(s);
        },
        _ => {},
    }
}

proof fn lemma_delivered(s: LibState)
    requires
        s.table.consistent(),
        s.counters_agree(),
    ensures
        s.delivered().counters_agree(),
        forall|event: i32| #[trigger]
            sum(s.delivered().table, event) <= sum(s.table, event) + 1,
{
    if s.collect_stats {
        law_counting_keeps_totals(s, s.event().wd, s.event().mask);
    }
}

/// While nothing is counted, watches can be removed.
pub proof fn law_removing_counts_nothing(s: LibState, id: Option<u64>, status: i32, errno: i32)
    requires
        s.table.consistent(),
        s.uncounted(),
        id matches Some(i) ==> s.table.watches.contains_key(i),
    ensures
        s.removed(id, status, errno).uncounted(),
{
    let u = s.removed(id, status, errno);
    assert forall|w: i32| #[trigger]
        u.table.by_wd.contains_key(w) implies u.table.watches[u.table.by_wd[w]].stats
        == WatchStats::zero() by {
        assert(s.table.by_wd.contains_key(w));
    }
}

/// No count is more than the sum of all.
proof fn lemma_share_in_sum(t: TableState, event: i32, wd: i32, n: int)
    requires
        n <= i32::MAX + 1,
    ensures
        0 <= sum_below(t, event, n),
        wd < n ==> share(t, event, wd) <= sum_below(t, event, n),
    decreases n - i32::MIN,
{
    if n > i32::MIN {
        lemma_share_in_sum(t, event, wd, n - 1);
        assert((n - 1) as i32 == n - 1);
    }
}

proof fn lemma_stats_are_shares(s: LibState, event: i32, n: int)
    requires
        s.collect_stats,
        s.totals.counter(event) is Some,
        sum(s.table, event) <= i32::MAX,
        n <= i32::MAX + 1,
    ensures
        s.stats_below(event, n) == sum_below(s.table, event, n),
    decreases n - i32::MIN,
{
    if n > i32::MIN {
        lemma_stats_are_shares(s, event, n - 1);
        lemma_share_in_sum(s.table, event, (n - 1) as i32, i32::MAX + 1);
        assert((n - 1) as i32 == n - 1);
    }
}

/// What is said of an event over all watches is the sum of what is said of
/// it on each, as long as a C `int` can count it; nothing is said of what is
/// not a single event.
pub proof fn law_stat_total_is_sum_of_stats(s: LibState, event: i32)
    requires
        s.collect_stats,
        s.totals_are_sums(),
        sum(s.table, event) <= i32::MAX,
    ensures
        s.totals.counter(event) is Some ==> s.stat_total(event) == s.stats_below(
            event,
            i32::MAX + 1,
        ),
        s.totals.counter(event) is None ==> s.stat_total(event) == -1,
{
    if s.totals.counter(event) is Some {
        lemma_stats_are_shares(s, event, i32::MAX + 1);
        lemma_share_in_sum(s.table, event, 0, i32::MAX + 1);
    }
}

/// What can happen to a handle.
pub enum Act {
    /// [`crate::inotify::Inotifytools::init`]
    Init {
        fanotify: bool,
        watch_filesystem: bool,
        verbose: i32,
        fd: i32,
        errno: i32,
        pid: i32,
    },
    /// [`crate::inotify::Inotifytools::cleanup`]
    Cleanup,
    /// [`crate::inotify::Inotifytools::initialize_stats`]
    InitializeStats,
    /// A step of [`crate::inotify::Inotifytools::watch_files`].
    SetUp { setup: SetupState, reply: SetupReply },
    /// A step of [`crate::inotify::Inotifytools::next_events`].
    Read { num_events: i32, reply: Reply },
    /// [`crate::inotify::Inotifytools::set_filename_by_wd`]
    SetName { wd: i32, name: Seq<u8> },
    /// [`crate::inotify::Inotifytools::set_filename_by_filename`]
    SetNameOf { oldname: Seq<u8>, newname: Seq<u8> },
    /// [`crate::inotify::Inotifytools::replace_filename`]
    Replace { oldname: Seq<u8>, newname: Seq<u8> },
    /// [`crate::inotify::Inotifytools::remove_watch_by_wd`]
    Remove { wd: i32, status: i32, errno: i32 },
    /// [`crate::inotify::Inotifytools::remove_watch_by_filename`]
    RemoveOf { name: Seq<u8>, status: i32, errno: i32 },
}

impl Act {
    /// The handle afterwards.
    pub open spec fn result(self, s: LibState) -> LibState {
        match self {
            Act::Init { fanotify, watch_filesystem, verbose, fd, errno, pid } => s.initialised(
                fanotify,
                watch_filesystem,
                verbose,
                fd,
                errno,
                pid,
            ),
            Act::Cleanup => if s.initialized {
                s.cleaned()
            } else {
                s
            },
            Act::InitializeStats => s.counting(),
            Act::SetUp { setup, reply } => s.set_up(setup, reply).0,
            Act::Read { num_events, reply } => s.after(num_events, reply).0,
            Act::SetName { wd, name } => s.named(s.id_of_any_wd(wd), name),
            Act::SetNameOf { oldname, newname } => s.named(s.id_of_name(oldname), newname),
            Act::Replace { oldname, newname } => s.replaced(oldname, newname),
            Act::Remove { wd, status, errno } => s.removed(s.id_of_any_wd(wd), status, errno),
            Act::RemoveOf { name, status, errno } => s.removed(s.id_of_name(name), status, errno),
        }
    }

    /// It can happen: what the operation needs is there, and no watch is
    /// removed while events are counted.
    pub open spec fn is_possible(self, s: LibState) -> bool {
        match self {
            Act::SetUp { setup, reply } => s.can_set_up(setup, reply),
            Act::Read { reply, .. } => s.can_step(reply),
            Act::Remove { .. } => !s.collect_stats,
            Act::RemoveOf { .. } => !s.collect_stats,
            _ => true,
        }
    }

    /// Number of events handed out.
    pub open spec fn events(self, s: LibState) -> int {
        match self {
            Act::Read { num_events, reply } => if s.after(num_events, reply).1 is Deliver {
                1
            } else {
                0
            },
            _ => 0,
        }
    }
}

/// The handle after all of `acts`.
pub open spec fn after_all(s: LibState, acts: Seq<Act>) -> LibState
    decreases acts.len(),
{
    if acts.len() == 0 {
        s
    } else {
        after_all(acts[0].result(s), acts.skip(1))
    }
}

/// All of `acts` can happen, one after the other.
pub open spec fn are_possible(s: LibState, acts: Seq<Act>) -> bool
    decreases acts.len(),
{
    acts.len() == 0 || (acts[0].is_possible(s) && are_possible(acts[0].result(s), acts.skip(1)))
}

/// Number of events handed out in the course of `acts`.
pub open spec fn events_in(s: LibState, acts: Seq<Act>) -> int
    decreases acts.len(),
{
    if acts.len() == 0 {
        0
    } else {
        acts[0].events(s) + events_in(acts[0].result(s), acts.skip(1))
    }
}

impl LibState {
    /// What holds of every handle: the indexes are consistent, and the
    /// counters agree.
    pub open spec fn is_sound(self) -> bool {
        &&& self.table.consistent()
        &&& self.table.by_filename.dom().finite()
        &&& self.counters_agree()
    }
}

/// Nothing counted means sums of 0.
proof fn lemma_uncounted(s: LibState)
    requires
        s.uncounted(),
    ensures
        forall|event: i32| #[trigger] sum(s.table, event) == 0,
{
    assert forall|event: i32| #[trigger] sum(s.table, event) == 0 by {
        assert forall|w: i32| #[trigger] share(s.table, event, w) == 0 by {
            if s.table.by_wd.contains_key(w) {
                assert(s.table.watches[s.table.by_wd[w]].stats == WatchStats::zero());
            }
        }
        lemma_sum_of_nothing(s.table, event, i32::MAX + 1);
    }
}

proof fn lemma_replaced_is_consistent(
    t: TableState,
    ids: Seq<u64>,
    oldname: Seq<u8>,
    newname: Seq<u8>,
)
    requires
        t.consistent(),
        t.by_filename.dom().finite(),
        forall|i: int| 0 <= i < ids.len() ==> t.watches.contains_key(#[trigger] ids[i]),
    ensures
        t.replaced(ids, oldname, newname).consistent(),
        t.replaced(ids, oldname, newname).by_filename.dom().finite(),
    decreases ids.len(),
{
    if ids.len() > 0 {
        let next = match TableState::replaced_name(t.watches[ids[0]].filename, oldname, newname) {
            Some(name) => {
                table::law_indexes_stay_consistent(t, ids[0], 0, None, name, 0);
                t.renamed(ids[0], name)
            },
            None => t,
        };
        let rest = ids.skip(1);
        assert forall|i: int| 0 <= i < rest.len() implies next.watches.contains_key(
            #[trigger] rest[i],
        ) by {
            assert(rest[i] == ids[i + 1]);
        }
        lemma_replaced_is_consistent(next, rest, oldname, newname);
    }
}

proof fn lemma_replacing(s: LibState, oldname: Seq<u8>, newname: Seq<u8>)
    requires
        s.is_sound(),
    ensures
        s.replaced(oldname, newname).is_sound(),
        forall|event: i32| #[trigger]
            sum(s.replaced(oldname, newname).table, event) == sum(s.table, event),
{
    let ids = keymap::ids_in_order(s.table.by_filename);
    law_replacing_keeps_totals(s, oldname, newname);
    keymap::lemma_ids_in_order(s.table.by_filename);
    assert forall|i: int| 0 <= i < ids.len() implies s.table.watches.contains_key(
        #[trigger] ids[i],
    ) by {
        assert(ids.contains(ids[i]));
    }
    lemma_replaced_is_consistent(s.table, ids, oldname, newname);
}

proof fn lemma_naming(s: LibState, id: Option<u64>, name: Seq<u8>)
    requires
        s.is_sound(),
        id matches Some(i) ==> s.table.watches.contains_key(i),
    ensures
        s.named(id, name).is_sound(),
        forall|event: i32| #[trigger] sum(s.named(id, name).table, event) == sum(s.table, event),
{
    if let Some(i) = id {
        law_watching_keeps_totals(s, i, 0, None, name, 0);
        table::law_indexes_stay_consistent(s.table, i, 0, None, name, 0);
    }
}

proof fn lemma_removing(s: LibState, id: Option<u64>, status: i32, errno: i32)
    requires
        s.is_sound(),
        !s.collect_stats,
        id matches Some(i) ==> s.table.watches.contains_key(i),
    ensures
        s.removed(id, status, errno).is_sound(),
        forall|event: i32| #[trigger] sum(s.removed(id, status, errno).table, event) == 0,
{
    law_removing_counts_nothing(s, id, status, errno);
    lemma_uncounted(s.removed(id, status, errno));
    if let Some(i) = id {
        table::law_indexes_stay_consistent(s.table, i, 0, None, Seq::empty(), 0);
    }
}

proof fn lemma_setting_up(s: LibState, setup: SetupState, reply: SetupReply)
    requires
        s.is_sound(),
        s.can_set_up(setup, reply),
    ensures
        s.set_up(setup, reply).0.is_sound(),
        forall|event: i32| #[trigger]
            sum(s.set_up(setup, reply).0.table, event) == sum(s.table, event),
{
    let u = s.set_up(setup, reply).0;
    law_setting_up_keeps_totals(s, setup, reply);
    assert forall|wd: i32, fid: Option<Seq<u8>>, name: Seq<u8>, dirf: i32|
        u.table == #[trigger] s.table.created(wd, fid, name, dirf) && s.table.next_id
            < u64::MAX implies u.table.consistent() && u.table.by_filename.dom().finite() by {
        table::law_indexes_stay_consistent(s.table, 0, wd, fid, name, dirf);
    }
}

proof fn lemma_reading(s: LibState, num_events: i32, reply: Reply)
    requires
        s.is_sound(),
        s.can_step(reply),
    ensures
        s.after(num_events, reply).0.is_sound(),
{
    law_reading_keeps_totals(s, num_events, reply);
    let u = s.after(num_events, reply).0;
    match reply {
        Reply::Converted { rec, path } => {
            let p = crate::bytes::opt_bytes(path);
            if p is Some && s.id_of_fid(rec@.fid) is None {
                table::law_indexes_stay_consistent(s.table, 0, 0, Some(rec@.fid), p->0, 0);
            }
            let v = s.converted(rec@, p);
            assert(v.table == s.known(rec@.fid, p).table);
            lemma_counted_consistent(v, v.event().wd, v.event().mask);
        },
        Reply::Take => {
            let v = LibState { buffer: s.buffer.passed(s.table.order).settled(), ..s };
            lemma_counted_consistent(v, v.event().wd, v.event().mask);
        },
        Reply::Matched(_) => {
            lemma_counted_consistent(s, s.event().wd, s.event().mask);
        },
        _ => {},
    }
}

proof fn lemma_counted_consistent(s: LibState, wd: i32, mask: u32)
    requires
        s.table.consistent(),
    ensures
        s.counted(wd, mask).table.consistent(),
        s.counted(wd, mask).table.by_filename == s.table.by_filename,
{
}

proof fn lemma_act(s: LibState, act: Act)
    requires
        s.is_sound(),
        act.is_possible(s),
    ensures
        act.result(s).is_sound(),
        forall|event: i32| #[trigger]
            sum(act.result(s).table, event) <= sum(s.table, event) + act.events(s),
{
    assert forall|event: i32| 0 <= #[trigger] sum(s.table, event) by {
        lemma_share_in_sum(s.table, event, 0, i32::MAX + 1);
    }
    match act {
        Act::Init { fanotify, watch_filesystem, verbose, fd, errno, pid } => {
            let v = s.starting(fanotify, watch_filesystem, verbose, fd, pid);
            law_nothing_is_counted_at_first(v, s.table.order);
            lemma_uncounted(v.started());
            let failed = LibState { error: errno, ..v };
            assert(failed.table == s.table);
            lemma_counters_stay(s, failed);
        },
        Act::Cleanup => {
            law_nothing_is_counted_at_first(s, s.table.order);
            lemma_uncounted(s.cleaned());
        },
        Act::InitializeStats => {
            law_counting_starts_at_zero(s);
        },
        Act::SetUp { setup, reply } => {
            lemma_setting_up(s, setup, reply);
        },
        Act::Read { num_events, reply } => {
            lemma_reading(s, num_events, reply);
            law_reading_keeps_totals(s, num_events, reply);
        },
        Act::SetName { wd, name } => {
            lemma_naming(s, s.id_of_any_wd(wd), name);
        },
        Act::SetNameOf { oldname, newname } => {
            lemma_naming(s, s.id_of_name(oldname), newname);
        },
        Act::Replace { oldname, newname } => {
            lemma_replacing(s, oldname, newname);
        },
        Act::Remove { wd, status, errno } => {
            lemma_removing(s, s.id_of_any_wd(wd), status, errno);
        },
        Act::RemoveOf { name, status, errno } => {
            lemma_removing(s, s.id_of_name(name), status, errno);
        },
    }
}

/// A new handle is sound.
pub proof fn law_new_handle_is_sound(order: ByteOrder)
    ensures
        LibState::fresh(order).is_sound(),
{
    law_nothing_is_counted_at_first(LibState::fresh(order), order);
}

/// Whatever happens to a handle, its indexes stay consistent and its
/// counters agree, and no sum grows by more than the number of events handed
/// out, as long as no watch is removed while events are counted.
pub proof fn law_history_keeps_totals(s: LibState, acts: Seq<Act>, event: i32)
    requires
        s.is_sound(),
        are_possible(s, acts),
    ensures
        after_all(s, acts).is_sound(),
        sum(after_all(s, acts).table, event) <= sum(s.table, event) + events_in(s, acts),
    decreases acts.len(),
{
    if acts.len() > 0 {
        lemma_act(s, acts[0]);
        let next = acts[0].result(s);
        assert(sum(next.table, event) <= sum(s.table, event) + acts[0].events(s));
        law_history_keeps_totals(next, acts.skip(1), event);
    }
}

/// Once statistics were initialised, and whatever happens then but that a
/// watch is removed, what is said of an event over all watches is the sum of
/// what is said of it on each, as long as no more events are handed out than
/// a C `int` can count; nothing is said of what is not a single event.
pub proof fn law_stat_total_is_sum_after_all(s: LibState, acts: Seq<Act>, event: i32)
    requires
        s.is_sound(),
        are_possible(s.counting(), acts),
        after_all(s.counting(), acts).collect_stats,
        events_in(s.counting(), acts) <= i32::MAX,
    ensures
        ({
            let u = after_all(s.counting(), acts);
            u.stat_total(event) == if u.totals.counter(event) is Some {
                u.stats_below(event, i32::MAX + 1)
            } else {
                -1
            }
        }),
{
    lemma_act(s, Act::InitializeStats);
    law_counting_starts_at_zero(s);
    assert(sum(s.counting().table, event) == 0);
    law_history_keeps_totals(s.counting(), acts, event);
    law_stat_total_is_sum_of_stats(after_all(s.counting(), acts), event);
}

} // verus!
