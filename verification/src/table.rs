//! The table of watches and the indexes into it.

use std::collections::BTreeMap;
use std::collections::HashMap;

use vstd::multiset::Multiset;
use vstd::prelude::*;
use vstd::std_specs::iter::IteratorSpec;

use crate::bytes;
use crate::fid;
use crate::fid::FidKey;
use crate::keymap;
use crate::keymap::KeyMap;
use crate::order::ByteOrder;
use crate::stats::WatchStats;

verus! {

/// A watched file or directory.
pub struct Watch {
    fid: Option<Vec<u8>>,
    filename: Vec<u8>,
    wd: i32,
    dirf: i32,
    stats: WatchStats,
}

/// What a [`Watch`] holds.
pub struct WatchState {
    /// The file identifier of a fanotify watch.
    pub fid: Option<Seq<u8>>,
    /// The name used to establish the watch.
    pub filename: Seq<u8>,
    /// The watch descriptor.
    pub wd: i32,
    /// A file descriptor held open for the watch, or 0.
    pub dirf: i32,
    pub stats: WatchStats,
}

impl View for Watch {
    type V = WatchState;

    closed spec fn view(&self) -> WatchState {
        WatchState {
            fid: bytes::opt_bytes(self.fid),
            filename: self.filename@,
            wd: self.wd,
            dirf: self.dirf,
            stats: self.stats,
        }
    }
}

/// All watches, found by watch descriptor, file identifier or name.
pub struct WatchTable {
    watches: HashMap<u64, Watch>,
    next_id: u64,
    next_fanotify_wd: i32,
    by_wd: BTreeMap<i32, u64>,
    by_fid: KeyMap,
    by_filename: KeyMap,
    released: Vec<i32>,
    order: ByteOrder,
}

/// What a [`WatchTable`] holds.
pub struct TableState {
    pub watches: Map<u64, WatchState>,
    /// The id the next watch gets.
    pub next_id: u64,
    /// The watch descriptor handed out last.
    pub next_fanotify_wd: i32,
    pub by_wd: Map<i32, u64>,
    pub by_fid: Map<Seq<u8>, u64>,
    pub by_filename: Map<Seq<u8>, u64>,
    /// File descriptors that no watch holds any more, to be closed.
    pub released: Seq<i32>,
    /// The byte order of file identifiers.
    pub order: ByteOrder,
}

/// The `k`-th watch descriptor to try after `w`: the positive ones in turn,
/// starting over at 1.
pub open spec fn wd_after(w: i32, k: int) -> i32 {
    (((if w < 0 {
        0
    } else {
        w as int
    }) + k - 1) % (i32::MAX as int) + 1) as i32
}

/// The first watch descriptor to try after `w` that is not in use comes at
/// try `k`.
pub open spec fn is_first_free(used: Map<i32, u64>, w: i32, k: int) -> bool {
    &&& 1 <= k
    &&& !used.contains_key(wd_after(w, k))
    &&& forall|j: int| 1 <= j < k ==> used.contains_key(#[trigger] wd_after(w, j))
}

/// The first watch descriptor to try after `w` that is not in use.
pub open spec fn first_free(used: Map<i32, u64>, w: i32) -> i32 {
    wd_after(w, choose|k: int| is_first_free(used, w, k))
}

/// The descriptors held by the watches with ids below `n`.
pub open spec fn held(watches: Map<u64, WatchState>, n: int) -> Seq<i32>
    decreases n,
{
    if n <= 0 {
        Seq::empty()
    } else {
        let rest = held(watches, n - 1);
        let id = (n - 1) as u64;
        if watches.contains_key(id) && watches[id].dirf != 0 {
            rest.push(watches[id].dirf)
        } else {
            rest
        }
    }
}

/// `m` with `k` added unless it is there.
pub open spec fn kept<K>(m: Map<K, u64>, k: K, id: u64) -> Map<K, u64> {
    if m.contains_key(k) {
        m
    } else {
        m.insert(k, id)
    }
}

/// `s` with a descriptor added, unless it is 0.
pub open spec fn with_fd(s: Seq<i32>, fd: i32) -> Seq<i32> {
    if fd != 0 {
        s.push(fd)
    } else {
        s
    }
}

impl TableState {
    /// Every index entry leads to a watch with that very key, and ids are
    /// used once.
    pub open spec fn consistent(self) -> bool {
        &&& forall|wd: i32| #[trigger]
            self.by_wd.contains_key(wd) ==> self.watches.contains_key(self.by_wd[wd])
                && self.watches[self.by_wd[wd]].wd == wd
        &&& forall|k: Seq<u8>| #[trigger]
            self.by_fid.contains_key(k) ==> self.watches.contains_key(self.by_fid[k])
                && self.watches[self.by_fid[k]].fid is Some && fid::key_of(
                self.watches[self.by_fid[k]].fid->0,
                self.order,
            ) == k
        &&& forall|k: Seq<u8>| #[trigger]
            self.by_filename.contains_key(k) ==> self.watches.contains_key(self.by_filename[k])
                && self.watches[self.by_filename[k]].filename == k
        &&& forall|id: u64| #[trigger] self.watches.contains_key(id) ==> id < self.next_id
        &&& forall|id: u64| #[trigger]
            self.watches.contains_key(id) ==> bytes::c_str(self.watches[id].filename)
                == self.watches[id].filename
    }

    /// Another watch can be added: there is an id left, and a watch
    /// descriptor.
    pub open spec fn has_room(self) -> bool {
        self.has_room_for(0)
    }

    /// A watch can be registered under `wd`: there is an id left, and a watch
    /// descriptor if one is to be found.
    pub open spec fn has_room_for(self, wd: i32) -> bool {
        wd < 0 || {
            &&& self.next_id < u64::MAX
            &&& wd == 0 ==> exists|w: i32| w > 0 && !self.by_wd.contains_key(w)
        }
    }

    /// The watch descriptor a watch created with `wd` gets.
    pub open spec fn assigned_wd(self, wd: i32) -> i32 {
        if wd != 0 {
            wd
        } else {
            first_free(self.by_wd, self.next_fanotify_wd)
        }
    }

    /// The table after a watch was created.
    pub open spec fn created(
        self,
        wd: i32,
        fid: Option<Seq<u8>>,
        filename: Seq<u8>,
        dirf: i32,
    ) -> TableState {
        let wd2 = self.assigned_wd(wd);
        let id = self.next_id;
        let name = bytes::c_str(filename);
        let fresh_fid = fid is Some && !self.by_fid.contains_key(fid::key_of(fid->0, self.order));
        let inserted = !self.by_wd.contains_key(wd2) || fresh_fid || !self.by_filename.contains_key(
            name,
        );
        TableState {
            watches: if inserted {
                self.watches.insert(
                    id,
                    WatchState {
                        fid,
                        filename: name,
                        wd: wd2,
                        dirf,
                        stats: WatchStats::zero(),
                    },
                )
            } else {
                self.watches
            },
            next_id: (id + 1) as u64,
            next_fanotify_wd: if wd != 0 {
                self.next_fanotify_wd
            } else {
                wd2
            },
            by_wd: kept(self.by_wd, wd2, id),
            by_fid: if fresh_fid {
                self.by_fid.insert(fid::key_of(fid->0, self.order), id)
            } else {
                self.by_fid
            },
            by_filename: kept(self.by_filename, name, id),
            released: if inserted {
                self.released
            } else {
                with_fd(self.released, dirf)
            },
            order: self.order,
        }
    }

    /// The table after a watch was registered, and the watch descriptor
    /// assigned.
    pub open spec fn registered(
        self,
        wd: i32,
        fid: Option<Seq<u8>>,
        filename: Seq<u8>,
        dirf: i32,
    ) -> (TableState, Option<i32>) {
        if wd < 0 {
            (self, None)
        } else {
            (self.created(wd, fid, filename, dirf), Some(self.assigned_wd(wd)))
        }
    }

    /// The table after watch `id` was removed from all indexes, by its keys,
    /// and destroyed.
    pub open spec fn destroyed(self, id: u64) -> TableState {
        let w = self.watches[id];
        TableState {
            watches: self.watches.remove(id),
            by_wd: self.by_wd.remove(w.wd),
            by_fid: if w.fid is Some {
                self.by_fid.remove(fid::key_of(w.fid->0, self.order))
            } else {
                self.by_fid
            },
            by_filename: self.by_filename.remove(w.filename),
            released: with_fd(self.released, w.dirf),
            ..self
        }
    }

    /// The table after watch `id` was given a new name.  The new name leads
    /// to it unless it already leads elsewhere.
    pub open spec fn renamed(self, id: u64, newname: Seq<u8>) -> TableState {
        let oldname = self.watches[id].filename;
        let name = bytes::c_str(newname);
        let without = if self.by_filename.contains_key(oldname) && self.by_filename[oldname] == id {
            self.by_filename.remove(oldname)
        } else {
            self.by_filename
        };
        TableState {
            watches: self.watches.insert(
                id,
                WatchState { filename: name, ..self.watches[id] },
            ),
            by_filename: kept(without, name, id),
            ..self
        }
    }

    /// The name `cur` becomes when the prefix `oldname` is replaced.
    pub open spec fn replaced_name(cur: Seq<u8>, oldname: Seq<u8>, newname: Seq<u8>) -> Option<
        Seq<u8>,
    > {
        if bytes::starts_with(cur, oldname) && cur != newname {
            Some(newname + cur.skip(oldname.len() as int))
        } else {
            None
        }
    }

    /// The table after the prefix `oldname` was replaced in the names of the
    /// watches `ids`, one after the other.
    pub open spec fn replaced(self, ids: Seq<u64>, oldname: Seq<u8>, newname: Seq<u8>) -> TableState
        decreases ids.len(),
    {
        if ids.len() == 0 {
            self
        } else {
            let next = match Self::replaced_name(self.watches[ids[0]].filename, oldname, newname) {
                Some(name) => self.renamed(ids[0], name),
                None => self,
            };
            next.replaced(ids.skip(1), oldname, newname)
        }
    }

    /// Watch `id` is the one its watch descriptor leads to.
    pub open spec fn found_by_wd(self, id: u64) -> bool {
        self.watches.contains_key(id) && self.by_wd.contains_key(self.watches[id].wd)
            && self.by_wd[self.watches[id].wd] == id
    }

    /// The table after the counters of all watches found by watch descriptor
    /// were reset.
    pub open spec fn reset(self) -> TableState {
        TableState {
            watches: Map::new(
                |id: u64| self.watches.contains_key(id),
                |id: u64|
                    if self.found_by_wd(id) {
                        WatchState { stats: WatchStats::zero(), ..self.watches[id] }
                    } else {
                        self.watches[id]
                    },
            ),
            ..self
        }
    }

    /// How often `event` occurred on watch `id`.
    pub open spec fn count(self, id: u64, event: i32) -> u32 {
        match self.watches[id].stats.counter(event) {
            Some(c) => c,
            None => 0,
        }
    }

    /// Watch `a` comes before watch `b`: by the count of `event`, then by
    /// watch descriptor.
    pub open spec fn before(self, a: u64, b: u64, event: i32, ascending: bool) -> bool {
        let c = self.count(a, event);
        let d = self.count(b, event);
        if c == d {
            self.watches[a].wd < self.watches[b].wd
        } else if ascending {
            c < d
        } else {
            d < c
        }
    }

    /// `ids` are the watches found by watch descriptor, each once, in order.
    pub open spec fn is_sorted(self, ids: Seq<u64>, event: i32, ascending: bool) -> bool {
        &&& forall|i: int| 0 <= i < ids.len() ==> self.found_by_wd(#[trigger] ids[i])
        &&& forall|wd: i32| #[trigger] self.by_wd.contains_key(wd) ==> ids.contains(self.by_wd[wd])
        &&& forall|i: int, j: int|
            0 <= i < j < ids.len() ==> self.before(
                #[trigger] ids[i],
                #[trigger] ids[j],
                event,
                ascending,
            )
    }

    /// The watches with the counters of `id` replaced.
    pub open spec fn with_stats(self, id: u64, stats: WatchStats) -> TableState {
        TableState {
            watches: self.watches.insert(id, WatchState { stats, ..self.watches[id] }),
            ..self
        }
    }
}

/// The contents of a map of watches.
spec fn states(m: Map<u64, Watch>) -> Map<u64, WatchState> {
    Map::new(|id: u64| m.contains_key(id), |id: u64| m[id]@)
}

impl View for WatchTable {
    type V = TableState;

    closed spec fn view(&self) -> TableState {
        TableState {
            watches: states(self.watches@),
            next_id: self.next_id,
            next_fanotify_wd: self.next_fanotify_wd,
            by_wd: self.by_wd@,
            by_fid: self.by_fid@,
            by_filename: self.by_filename@,
            released: self.released@,
            order: self.order,
        }
    }
}

impl WatchTable {
    pub closed spec fn wf(&self) -> bool {
        self.by_fid.wf() && self.by_filename.wf() && self@.consistent()
    }

    pub proof fn lemma_wf(&self)
        requires
            self.wf(),
        ensures
            self@.consistent(),
            self@.by_filename.dom().finite(),
    {
        self.by_filename.lemma_finite();
    }

    pub fn new(order: ByteOrder) -> (t: WatchTable)
        ensures
            t.wf(),
            t@ == (TableState {
                watches: Map::empty(),
                next_id: 1,
                next_fanotify_wd: 0,
                by_wd: Map::empty(),
                by_fid: Map::empty(),
                by_filename: Map::empty(),
                released: Seq::empty(),
                order,
            }),
    {
        let t = WatchTable {
            watches: HashMap::new(),
            next_id: 1,
            next_fanotify_wd: 0,
            by_wd: BTreeMap::new(),
            by_fid: KeyMap::new(),
            by_filename: KeyMap::new(),
            released: Vec::new(),
            order,
        };
        assert(t@.watches =~= Map::empty());
        t
    }

    pub fn order(&self) -> (order: ByteOrder)
        ensures
            order == self@.order,
    {
        self.order
    }

    pub fn id_by_wd(&self, wd: i32) -> (id: Option<u64>)
        requires
            self.wf(),
        ensures
            id == if self@.by_wd.contains_key(wd) {
                Some(self@.by_wd[wd])
            } else {
                None
            },
            id matches Some(i) ==> self@.watches.contains_key(i) && self@.watches[i].wd == wd,
    {
        match self.by_wd.get(&wd) {
            Some(id) => Some(*id),
            None => None,
        }
    }

    pub fn id_by_fid(&self, f: &[u8]) -> (id: Option<u64>)
        requires
            self.wf(),
        ensures
            id == if self@.by_fid.contains_key(fid::key_of(f@, self@.order)) {
                Some(self@.by_fid[fid::key_of(f@, self@.order)])
            } else {
                None
            },
            id matches Some(i) ==> self@.watches.contains_key(i) && self@.watches[i].fid is Some,
    {
        let key = FidKey::new(f, self.order).into_bytes();
        self.by_fid.get(key.as_slice())
    }

    pub fn id_by_filename(&self, filename: &[u8]) -> (id: Option<u64>)
        requires
            self.wf(),
        ensures
            id == if self@.by_filename.contains_key(filename@) {
                Some(self@.by_filename[filename@])
            } else {
                None
            },
            id matches Some(i) ==> self@.watches.contains_key(i) && self@.watches[i].filename
                == filename@,
    {
        self.by_filename.get(filename)
    }

    pub fn contains(&self, id: u64) -> (yes: bool)
        ensures
            yes == self@.watches.contains_key(id),
    {
        self.watches.contains_key(&id)
    }

    fn watch(&self, id: u64) -> (w: &Watch)
        requires
            self@.watches.contains_key(id),
        ensures
            w@ == self@.watches[id],
    {
        match self.watches.get(&id) {
            Some(w) => w,
            None => vstd::pervasive::unreached(),
        }
    }

    pub fn wd_of(&self, id: u64) -> (wd: i32)
        requires
            self@.watches.contains_key(id),
        ensures
            wd == self@.watches[id].wd,
    {
        self.watch(id).wd
    }

    pub fn dirf_of(&self, id: u64) -> (dirf: i32)
        requires
            self@.watches.contains_key(id),
        ensures
            dirf == self@.watches[id].dirf,
    {
        self.watch(id).dirf
    }

    pub fn filename_of(&self, id: u64) -> (name: Vec<u8>)
        requires
            self@.watches.contains_key(id),
        ensures
            name@ == self@.watches[id].filename,
    {
        self.watch(id).filename.clone()
    }

    pub fn fid_of(&self, id: u64) -> (f: Option<Vec<u8>>)
        requires
            self@.watches.contains_key(id),
        ensures
            bytes::opt_bytes(f) == self@.watches[id].fid,
    {
        match &self.watch(id).fid {
            Some(f) => Some(f.clone()),
            None => None,
        }
    }

    pub fn stats_of(&self, id: u64) -> (s: WatchStats)
        requires
            self@.watches.contains_key(id),
        ensures
            s == self@.watches[id].stats,
    {
        self.watch(id).stats
    }

    /// Number of names that lead to a watch.
    pub fn num_names(&self) -> (n: usize)
        requires
            self.wf(),
        ensures
            n == self@.by_filename.dom().len(),
    {
        self.by_filename.len()
    }

    /// Destroy a watch: remove it from all indexes, by its keys.
    pub fn destroy(&mut self, id: u64)
        requires
            old(self).wf(),
            old(self)@.watches.contains_key(id),
        ensures
            final(self).wf(),
            final(self)@ == old(self)@.destroyed(id),
    {
        let ghost before = self@;
        let ghost ws = self.watches@;
        match self.watches.remove(&id) {
            Some(w) => {
                assert(w@ == before.watches[id]);
                self.by_wd.remove(&w.wd);
                if let Some(f) = &w.fid {
                    let key = FidKey::new(f.as_slice(), self.order).into_bytes();
                    self.by_fid.remove(key.as_slice());
                }
                self.by_filename.remove(w.filename.as_slice());
                if w.dirf != 0 {
                    self.released.push(w.dirf);
                }
                assert(self@.watches =~= before.watches.remove(id));
            },
            None => {
                assert(false);
            },
        }
    }

    /// Give a watch a new name.
    pub fn rename(&mut self, id: u64, newname: &[u8])
        requires
            old(self).wf(),
            old(self)@.watches.contains_key(id),
        ensures
            final(self).wf(),
            final(self)@ == old(self)@.renamed(id, newname@),
    {
        let ghost before = self@;
        match self.watches.remove(&id) {
            Some(w) => {
                let mut w = w;
                assert(w@ == before.watches[id]);
                let owner = self.by_filename.get(w.filename.as_slice());
                match owner {
                    Some(o) => {
                        if o == id {
                            self.by_filename.remove(w.filename.as_slice());
                        }
                    },
                    None => {},
                }
                let name = bytes::cstring(newname);
                self.by_filename.insert_vacant(name.as_slice(), id);
                w.filename = name;
                proof {
                    bytes::lemma_c_str_idempotent(newname@);
                }
                self.watches.insert(id, w);
                assert(self@.watches =~= before.renamed(id, newname@).watches);
                assert(self@ == before.renamed(id, newname@));
            },
            None => {
                assert(false);
            },
        }
    }

    /// The next watch descriptor that is not in use, for watches that have
    /// none of their own.
    fn fresh_wd(&self) -> (wd: i32)
        requires
            exists|w: i32| w > 0 && !self@.by_wd.contains_key(w),
        ensures
            wd == first_free(self@.by_wd, self@.next_fanotify_wd),
            wd > 0,
            !self@.by_wd.contains_key(wd),
    {
        let ghost used = self@.by_wd;
        let ghost start = self@.next_fanotify_wd;
        let ghost free = choose|w: i32| w > 0 && !used.contains_key(w);
        let ghost last = tries_until(start, free);
        proof {
            lemma_tries(start, free);
        }
        let mut wd: i32 = self.next_fanotify_wd;
        let ghost mut k: int = 0;
        loop
            invariant
                used == self@.by_wd,
                start == self@.next_fanotify_wd,
                !used.contains_key(free),
                1 <= last,
                wd_after(start, last) == free,
                0 <= k < last,
                k == 0 ==> wd == start,
                k > 0 ==> wd == wd_after(start, k),
                forall|j: int| 1 <= j <= k ==> used.contains_key(#[trigger] wd_after(start, j)),
            decreases last - k,
        {
            proof {
                lemma_wd_after(start, k);
            }
            wd = if 0 <= wd && wd < i32::MAX {
                wd + 1
            } else {
                1
            };
            proof {
                k = k + 1;
                assert(wd == wd_after(start, k));
            }
            if !self.by_wd.contains_key(&wd) {
                proof {
                    assert(is_first_free(used, start, k));
                    let c = choose|c: int| is_first_free(used, start, c);
                    if c < k {
                        assert(used.contains_key(wd_after(start, c)));
                    } else if k < c {
                        assert(used.contains_key(wd_after(start, k)));
                    }
                }
                return wd;
            }
        }
    }

    /// Register a new watch.  An existing entry with the same key in any
    /// index is kept (not replaced).  Returns the watch descriptor assigned,
    /// or `None` for a negative `wd`.
    pub fn create(&mut self, wd: i32, fid: Option<Vec<u8>>, filename: &[u8], dirf: i32) -> (r: Option<
        i32,
    >)
        requires
            old(self).wf(),
            old(self)@.has_room_for(wd),
        ensures
            final(self).wf(),
            (final(self)@, r) == old(self)@.registered(
                wd,
                bytes::opt_bytes(fid),
                filename@,
                dirf,
            ),
    {
        if wd < 0 {
            return None;
        }
        let ghost before = self@;
        let wd2: i32 = if wd != 0 {
            wd
        } else {
            let fresh = self.fresh_wd();
            self.next_fanotify_wd = fresh;
            fresh
        };
        let id: u64 = self.next_id;
        self.next_id = id + 1;
        let name = bytes::cstring(filename);
        proof {
            bytes::lemma_c_str_idempotent(filename@);
        }
        let mut inserted = false;
        if !self.by_wd.contains_key(&wd2) {
            self.by_wd.insert(wd2, id);
            inserted = true;
        }
        if let Some(f) = &fid {
            let key = FidKey::new(f.as_slice(), self.order).into_bytes();
            if self.by_fid.insert_vacant(key.as_slice(), id) {
                inserted = true;
            }
        }
        if self.by_filename.insert_vacant(name.as_slice(), id) {
            inserted = true;
        }
        let ghost state = WatchState {
            fid: bytes::opt_bytes(fid),
            filename: name@,
            wd: wd2,
            dirf,
            stats: WatchStats::zero(),
        };
        if inserted {
            let w = Watch { fid, filename: name, wd: wd2, dirf, stats: WatchStats::default() };
            self.watches.insert(id, w);
            assert(self@.watches =~= before.watches.insert(id, state));
        } else if dirf != 0 {
            self.released.push(dirf);
        }
        proof {
            let after = before.created(wd, state.fid, filename@, dirf);
            assert(self@.by_wd =~= after.by_wd);
            assert(self@.by_filename =~= after.by_filename);
            assert(self@ == after);
            lemma_created_consistent(before, wd, state.fid, filename@, dirf);
        }
        Some(wd2)
    }

    /// Replace a prefix of the names of all watches that are found by name.
    pub fn replace_prefix(&mut self, oldname: &[u8], newname: &[u8])
        requires
            old(self).wf(),
        ensures
            final(self).wf(),
            final(self)@ == old(self)@.replaced(
                keymap::ids_in_order(old(self)@.by_filename),
                oldname@,
                newname@,
            ),
    {
        let ghost before = self@;
        let ids = self.by_filename.ids();
        proof {
            lemma_ids_exist(before.by_filename, before.watches.dom());
        }
        let mut i: usize = 0;
        assert(ids@.skip(0) =~= ids@);
        while i < ids.len()
            invariant
                i <= ids@.len(),
                self.wf(),
                forall|j: int|
                    0 <= j < ids@.len() ==> self@.watches.contains_key(#[trigger] ids@[j]),
                before.replaced(ids@, oldname@, newname@) == self@.replaced(
                    ids@.skip(i as int),
                    oldname@,
                    newname@,
                ),
            decreases ids@.len() - i,
        {
            let id: u64 = ids[i];
            let cur = self.filename_of(id);
            let ghost state = self@;
            assert(ids@.skip(i as int)[0] == id);
            assert(ids@.skip(i as int).skip(1) =~= ids@.skip(i + 1));
            if bytes::has_prefix(cur.as_slice(), oldname) && !bytes::bytes_eq(
                cur.as_slice(),
                newname,
            ) {
                let mut name = bytes::to_vec(newname);
                let tail = bytes::copy_range(cur.as_slice(), oldname.len(), cur.len());
                name.extend_from_slice(tail.as_slice());
                assert(name@ =~= newname@ + cur@.skip(oldname@.len() as int));
                self.rename(id, name.as_slice());
            }
            i = i + 1;
        }
        assert(ids@.skip(i as int) =~= Seq::empty());
    }

    /// Replace the counters of a watch.
    pub fn set_stats(&mut self, id: u64, stats: WatchStats)
        requires
            old(self).wf(),
            old(self)@.watches.contains_key(id),
        ensures
            final(self).wf(),
            final(self)@ == old(self)@.with_stats(id, stats),
    {
        let ghost before = self@;
        match self.watches.remove(&id) {
            Some(w) => {
                let mut w = w;
                w.stats = stats;
                self.watches.insert(id, w);
                assert(self@.watches =~= before.with_stats(id, stats).watches);
            },
            None => {
                assert(false);
            },
        }
    }

    /// The watch descriptors in use, in ascending order.
    fn wds(&self) -> (v: Vec<i32>)
        ensures
            v@.to_set() == self@.by_wd.dom(),
            v@.no_duplicates(),
    {
        let mut v: Vec<i32> = Vec::new();
        let keys = self.by_wd.keys();
        let ghost all = IteratorSpec::remaining(&keys).unref();
        assert(all.to_set() == self.by_wd@.dom());
        for wd in it: keys
            invariant
                it.seq().unref() == all,
                v@ == all.take(it.index() as int),
        {
            v.push(*wd);
            assert(v@ =~= all.take(it.index() as int + 1));
        }
        assert(v@ =~= all);
        v
    }

    /// Reset the counters of all watches found by watch descriptor.
    pub fn reset_stats(&mut self)
        requires
            old(self).wf(),
        ensures
            final(self).wf(),
            final(self)@ == old(self)@.reset(),
    {
        let ghost before = self@;
        let wds = self.wds();
        let mut i: usize = 0;
        while i < wds.len()
            invariant
                i <= wds@.len(),
                self.wf(),
                before.consistent(),
                wds@.to_set() == before.by_wd.dom(),
                self@ == (TableState { watches: self@.watches, ..before }),
                self@.watches.dom() == before.watches.dom(),
                forall|id: u64| #[trigger]
                    before.watches.contains_key(id) ==> self@.watches[id] == if before.found_by_wd(id)
                        && wds@.take(i as int).contains(before.watches[id].wd) {
                        WatchState { stats: WatchStats::zero(), ..before.watches[id] }
                    } else {
                        before.watches[id]
                    },
            decreases wds@.len() - i,
        {
            let wd: i32 = wds[i];
            assert(wds@.to_set().contains(wd));
            let ghost was = self@;
            match self.id_by_wd(wd) {
                Some(id) => {
                    self.set_stats(id, WatchStats::default());
                    assert forall|j: u64| #[trigger] before.watches.contains_key(j) implies self@.watches[j]
                        == if before.found_by_wd(j) && wds@.take(i + 1).contains(
                        before.watches[j].wd,
                    ) {
                        WatchState { stats: WatchStats::zero(), ..before.watches[j] }
                    } else {
                        before.watches[j]
                    } by {
                        assert(wds@.take(i + 1) =~= wds@.take(i as int).push(wd));
                        assert(was.watches.contains_key(j));
                        if before.watches[j].wd == wd {
                            assert(wds@.take(i + 1)[i as int] == wd);
                        } else if wds@.take(i as int).contains(before.watches[j].wd) {
                            let n = wds@.take(i as int).index_of(before.watches[j].wd);
                            assert(wds@.take(i + 1)[n] == before.watches[j].wd);
                        }
                    }
                    assert(self@.watches.dom() =~= before.watches.dom());
                },
                None => {
                    assert(false);
                },
            }
            i = i + 1;
        }
        proof {
            assert(wds@.take(i as int) =~= wds@);
            assert forall|id: u64| before.found_by_wd(id) implies wds@.contains(
                before.watches[id].wd,
            ) by {
                assert(wds@.to_set().contains(before.watches[id].wd));
            }
            assert(self@.watches =~= before.reset().watches);
        }
    }

    /// Whether watch `a` comes before watch `b`.
    fn comes_before(&self, a: u64, b: u64, event: i32, ascending: bool) -> (yes: bool)
        requires
            self@.watches.contains_key(a),
            self@.watches.contains_key(b),
        ensures
            yes == self@.before(a, b, event, ascending),
    {
        let c: u32 = match self.stats_of(a).get(event) {
            Some(c) => c,
            None => 0,
        };
        let d: u32 = match self.stats_of(b).get(event) {
            Some(d) => d,
            None => 0,
        };
        if c == d {
            self.wd_of(a) < self.wd_of(b)
        } else if ascending {
            c < d
        } else {
            d < c
        }
    }

    /// The watches found by watch descriptor, sorted by the count of an
    /// event, then by watch descriptor.
    pub fn sorted_ids(&self, event: i32, ascending: bool) -> (ids: Vec<u64>)
        requires
            self.wf(),
        ensures
            self@.is_sorted(ids@, event, ascending),
    {
        let wds = self.wds();
        let mut ids: Vec<u64> = Vec::new();
        let mut i: usize = 0;
        let ghost t = self@;
        while i < wds.len()
            invariant
                i <= wds@.len(),
                self.wf(),
                t == self@,
                wds@.to_set() == t.by_wd.dom(),
                wds@.no_duplicates(),
                forall|j: int|
                    0 <= j < ids@.len() ==> t.found_by_wd(#[trigger] ids@[j]) && wds@.take(
                        i as int,
                    ).contains(t.watches[ids@[j]].wd),
                forall|j: int|
                    0 <= j < i ==> ids@.contains(t.by_wd[#[trigger] wds@[j]]),
                forall|j: int, k: int|
                    0 <= j < k < ids@.len() ==> t.before(
                        #[trigger] ids@[j],
                        #[trigger] ids@[k],
                        event,
                        ascending,
                    ),
            decreases wds@.len() - i,
        {
            let wd: i32 = wds[i];
            assert(wds@.to_set().contains(wd));
            let id: u64 = match self.id_by_wd(wd) {
                Some(id) => id,
                None => vstd::pervasive::unreached(),
            };
            let ghost was = ids@;
            let mut n: usize = ids.len();
            while n > 0 && self.comes_before(id, ids[n - 1], event, ascending)
                invariant
                    n <= ids@.len(),
                    ids@ == was,
                    t == self@,
                    t.found_by_wd(id),
                    forall|j: int| 0 <= j < was.len() ==> t.found_by_wd(#[trigger] was[j]),
                    forall|j: int|
                        n <= j < was.len() ==> t.before(id, #[trigger] was[j], event, ascending),
                decreases n,
            {
                n = n - 1;
            }
            proof {
                assert forall|j: int| 0 <= j < n implies t.before(
                    #[trigger] was[j],
                    id,
                    event,
                    ascending,
                ) by {
                    let last = was[n - 1];
                    assert(!t.before(id, last, event, ascending));
                    assert(wds@.take(i as int).contains(t.watches[last].wd));
                    let k = wds@.take(i as int).index_of(t.watches[last].wd);
                    assert(wds@[k] == t.watches[last].wd);
                    assert(t.watches[last].wd != wd);
                    assert(t.before(last, id, event, ascending));
                    if j < n - 1 {
                        assert(t.before(was[j], last, event, ascending));
                    }
                }
            }
            ids.insert(n, id);
            proof {
                assert(ids@ =~= was.insert(n as int, id));
                assert forall|j: int| 0 <= j < ids@.len() implies t.found_by_wd(#[trigger] ids@[j])
                    && wds@.take(i + 1).contains(t.watches[ids@[j]].wd) by {
                    if j == n {
                        assert(wds@.take(i + 1)[i as int] == wd);
                    } else {
                        let o = was[if j < n {
                            j
                        } else {
                            j - 1
                        }];
                        assert(ids@[j] == o);
                        let k = wds@.take(i as int).index_of(t.watches[o].wd);
                        assert(wds@.take(i + 1)[k] == t.watches[o].wd);
                    }
                }
                assert forall|j: int| 0 <= j < i + 1 implies ids@.contains(
                    t.by_wd[#[trigger] wds@[j]],
                ) by {
                    if j == i {
                        assert(ids@[n as int] == id);
                    } else {
                        let k = was.index_of(t.by_wd[wds@[j]]);
                        assert(was.contains(t.by_wd[wds@[j]]));
                        assert(ids@[if k < n {
                            k
                        } else {
                            k + 1
                        }] == was[k]);
                    }
                }
                assert forall|j: int, k: int| 0 <= j < k < ids@.len() implies t.before(
                    #[trigger] ids@[j],
                    #[trigger] ids@[k],
                    event,
                    ascending,
                ) by {
                    let oj = if j < n {
                        j
                    } else {
                        j - 1
                    };
                    let ok = if k < n {
                        k
                    } else {
                        k - 1
                    };
                    if j == n {
                        assert(t.before(id, was[ok], event, ascending));
                    } else if k == n {
                        assert(t.before(was[oj], id, event, ascending));
                    } else {
                        assert(t.before(was[oj], was[ok], event, ascending));
                    }
                }
            }
            i = i + 1;
        }
        assert forall|wd: i32| #[trigger] t.by_wd.contains_key(wd) implies ids@.contains(
            t.by_wd[wd],
        ) by {
            assert(wds@.to_set().contains(wd));
            let j = wds@.index_of(wd);
            assert(wds@[j] == wd);
        }
        ids
    }

    /// Whether another watch can certainly be added.
    pub fn has_room(&self) -> (yes: bool)
        ensures
            yes ==> self@.has_room(),
            yes <==> self@.next_id < u64::MAX && self@.by_wd.dom().len() < i32::MAX,
    {
        let n: u64 = self.by_wd.len() as u64;
        let limit: u64 = i32::MAX as u64;
        if n < limit {
            proof {
                lemma_free_wd(self@.by_wd);
            }
            self.next_id < u64::MAX
        } else {
            false
        }
    }

    /// Forget which keys lead to which watch.
    pub fn clear_indexes(&mut self)
        requires
            old(self).wf(),
        ensures
            final(self).wf(),
            final(self)@ == (TableState {
                by_wd: Map::empty(),
                by_fid: Map::empty(),
                by_filename: Map::empty(),
                ..old(self)@
            }),
    {
        self.by_wd.clear();
        self.by_fid.clear();
        self.by_filename.clear();
    }

    /// Destroy all watches.
    pub fn clear(&mut self)
        requires
            old(self).wf(),
        ensures
            final(self).wf(),
            final(self)@ == (TableState {
                watches: Map::empty(),
                by_wd: Map::empty(),
                by_fid: Map::empty(),
                by_filename: Map::empty(),
                released: old(self)@.released + held(old(self)@.watches, old(self)@.next_id as int),
                ..old(self)@
            }),
    {
        let ghost before = self@;
        let mut id: u64 = 0;
        assert(before.released + held(before.watches, 0) =~= before.released);
        while id < self.next_id
            invariant
                id <= self.next_id,
                self.wf(),
                self@ == (TableState { released: self@.released, ..before }),
                self@.released == before.released + held(before.watches, id as int),
            decreases self.next_id - id,
        {
            if self.contains(id) {
                let dirf = self.dirf_of(id);
                if dirf != 0 {
                    self.released.push(dirf);
                }
            }
            id = id + 1;
            assert(self@.released =~= before.released + held(before.watches, id as int));
        }
        self.clear_indexes();
        self.watches.clear();
        assert(self@.watches =~= Map::empty());
    }

    /// Hand over the file descriptors that no watch holds any more, to be
    /// closed.
    pub fn take_released(&mut self) -> (fds: Vec<i32>)
        requires
            old(self).wf(),
        ensures
            final(self).wf(),
            fds@ == old(self)@.released,
            final(self)@ == (TableState { released: Seq::empty(), ..old(self)@ }),
    {
        let mut fds: Vec<i32> = Vec::new();
        fds.append(&mut self.released);
        assert(fds@ =~= old(self)@.released);
        fds
    }
}

/// Fewer watches than there are positive watch descriptors leave one free.
proof fn lemma_free_wd(used: Map<i32, u64>)
    requires
        used.dom().finite(),
        used.dom().len() < i32::MAX,
    ensures
        exists|w: i32| w > 0 && !used.contains_key(w),
{
    if forall|w: i32| w > 0 ==> used.contains_key(w) {
        let range = vstd::set_lib::set_int_range(1, i32::MAX + 1);
        vstd::set_lib::lemma_int_range(1, i32::MAX + 1);
        let ints = used.dom().map(|w: i32| w as int);
        vstd::set_lib::lemma_map_size_bound(used.dom(), ints, |w: i32| w as int);
        assert forall|i: int| range.contains(i) implies ints.contains(i) by {
            assert(used.contains_key(i as i32));
            assert(used.dom().contains(i as i32));
        }
        vstd::set_lib::lemma_len_subset(range, ints);
    }
}

/// The try at which `w` comes up after `start`.
spec fn tries_until(start: i32, w: i32) -> int {
    let s = if start < 0 {
        0
    } else {
        start as int
    };
    if w > s {
        w - s
    } else {
        w - s + i32::MAX
    }
}

proof fn lemma_tries(start: i32, w: i32)
    requires
        w > 0,
    ensures
        1 <= tries_until(start, w),
        wd_after(start, tries_until(start, w)) == w,
{
    let s = if start < 0 {
        0
    } else {
        start as int
    };
    let m = i32::MAX as int;
    if w > s {
        vstd::arithmetic::div_mod::lemma_small_mod((w - 1) as nat, m as nat);
    } else {
        vstd::arithmetic::div_mod::lemma_mod_add_multiples_vanish(w - 1, m);
        vstd::arithmetic::div_mod::lemma_small_mod((w - 1) as nat, m as nat);
        assert(s + tries_until(start, w) - 1 == m + (w - 1));
    }
}

/// The try after `wd_after(start, k)` is the next number, or 1.
proof fn lemma_wd_after(start: i32, k: int)
    requires
        0 <= k,
    ensures
        k == 0 ==> wd_after(start, 1) == if 0 <= start < i32::MAX {
            start + 1
        } else {
            1
        },
        k > 0 ==> 1 <= wd_after(start, k) <= i32::MAX && wd_after(start, k + 1) == if wd_after(
            start,
            k,
        ) < i32::MAX {
            wd_after(start, k) + 1
        } else {
            1
        },
{
    let s = if start < 0 {
        0
    } else {
        start as int
    };
    let m = i32::MAX as int;
    if k == 0 {
        if start == i32::MAX {
            vstd::arithmetic::div_mod::lemma_mod_self_0(m);
        } else {
            vstd::arithmetic::div_mod::lemma_small_mod(s as nat, m as nat);
        }
    } else {
        let x = s + k - 1;
        vstd::arithmetic::div_mod::lemma_fundamental_div_mod(x, m);
        vstd::arithmetic::div_mod::lemma_mod_division_less_than_divisor(x, m);
        let r = x % m;
        let q = x / m;
        if r < m - 1 {
            vstd::arithmetic::div_mod::lemma_fundamental_div_mod_converse(x + 1, m, q, r + 1);
        } else {
            assert(x + 1 == m * (q + 1) + 0) by (nonlinear_arith)
                requires
                    x == m * q + r,
                    r == m - 1,
            ;
            vstd::arithmetic::div_mod::lemma_fundamental_div_mod_converse(x + 1, m, q + 1, 0);
        }
    }
}

proof fn lemma_created_consistent(
    t: TableState,
    wd: i32,
    fid: Option<Seq<u8>>,
    filename: Seq<u8>,
    dirf: i32,
)
    requires
        t.consistent(),
        t.next_id < u64::MAX,
    ensures
        t.created(wd, fid, filename, dirf).consistent(),
{
    let u = t.created(wd, fid, filename, dirf);
    bytes::lemma_c_str_idempotent(filename);
    assert forall|w: i32| #[trigger] u.by_wd.contains_key(w) implies u.watches.contains_key(
        u.by_wd[w],
    ) && u.watches[u.by_wd[w]].wd == w by {
        if t.by_wd.contains_key(w) {
            assert(t.watches.contains_key(t.by_wd[w]));
        }
    }
    assert forall|k: Seq<u8>| #[trigger] u.by_fid.contains_key(k) implies u.watches.contains_key(
        u.by_fid[k],
    ) && u.watches[u.by_fid[k]].fid is Some && fid::key_of(
        u.watches[u.by_fid[k]].fid->0,
        u.order,
    ) == k by {
        if t.by_fid.contains_key(k) {
            assert(t.watches.contains_key(t.by_fid[k]));
        }
    }
    assert forall|k: Seq<u8>| #[trigger]
        u.by_filename.contains_key(k) implies u.watches.contains_key(u.by_filename[k])
        && u.watches[u.by_filename[k]].filename == k by {
        if t.by_filename.contains_key(k) {
            assert(t.watches.contains_key(t.by_filename[k]));
        }
    }
}

/// All ids of an index exist if each does.
proof fn lemma_ids_exist(m: Map<Seq<u8>, u64>, ids: Set<u64>)
    requires
        forall|k: Seq<u8>| #[trigger] m.contains_key(k) ==> ids.contains(m[k]),
    ensures
        forall|j: int|
            0 <= j < keymap::ids_in_order(m).len() ==> ids.contains(
                #[trigger] keymap::ids_in_order(m)[j],
            ),
    decreases m.dom().len(),
{
    if m.dom().finite() && exists|k: Seq<u8>| keymap::is_least(m, k) {
        let k = choose|k: Seq<u8>| keymap::is_least(m, k);
        let rest = keymap::ids_in_order(m.remove(k));
        lemma_ids_exist(m.remove(k), ids);
        assert forall|j: int| 0 <= j < keymap::ids_in_order(m).len() implies ids.contains(
            #[trigger] keymap::ids_in_order(m)[j],
        ) by {
            if j > 0 {
                assert(keymap::ids_in_order(m)[j] == rest[j - 1]);
            }
        }
    }
}

/// What was registered is found again: the first free key of each kind leads
/// to the new watch.
pub proof fn law_created_watch_is_found(
    t: TableState,
    wd: i32,
    fid: Option<Seq<u8>>,
    filename: Seq<u8>,
    dirf: i32,
)
    requires
        t.consistent(),
        t.has_room_for(wd),
        wd >= 0,
    ensures
        ({
            let u = t.created(wd, fid, filename, dirf);
            let w = WatchState {
                fid,
                filename: bytes::c_str(filename),
                wd: t.assigned_wd(wd),
                dirf,
                stats: WatchStats::zero(),
            };
            &&& u.by_wd.contains_key(w.wd) && u.by_filename.contains_key(w.filename)
            &&& !t.by_wd.contains_key(w.wd) ==> u.watches[u.by_wd[w.wd]] == w
            &&& !t.by_filename.contains_key(w.filename) ==> u.watches[u.by_filename[w.filename]] == w
            &&& fid matches Some(f) ==> u.by_fid.contains_key(fid::key_of(f, t.order)) && (
            !t.by_fid.contains_key(fid::key_of(f, t.order)) ==> u.watches[u.by_fid[fid::key_of(
                f,
                t.order,
            )]] == w)
            &&& wd == 0 ==> !t.by_wd.contains_key(w.wd) && w.wd > 0
        }),
{
    if wd == 0 {
        let free = choose|w: i32| w > 0 && !t.by_wd.contains_key(w);
        lemma_first_free(t.by_wd, t.next_fanotify_wd, free);
    }
}

/// Registering a watch changes nothing that was found before.
pub proof fn law_existing_keys_are_kept(
    t: TableState,
    wd: i32,
    fid: Option<Seq<u8>>,
    filename: Seq<u8>,
    dirf: i32,
)
    requires
        t.consistent(),
        t.next_id < u64::MAX,
    ensures
        ({
            let u = t.created(wd, fid, filename, dirf);
            &&& forall|k: i32| #[trigger]
                t.by_wd.contains_key(k) ==> u.by_wd.contains_key(k) && u.by_wd[k] == t.by_wd[k]
            &&& forall|k: Seq<u8>| #[trigger]
                t.by_fid.contains_key(k) ==> u.by_fid.contains_key(k) && u.by_fid[k] == t.by_fid[k]
            &&& forall|k: Seq<u8>| #[trigger]
                t.by_filename.contains_key(k) ==> u.by_filename.contains_key(k) && u.by_filename[k]
                    == t.by_filename[k]
            &&& forall|id: u64| #[trigger]
                t.watches.contains_key(id) ==> u.watches.contains_key(id) && u.watches[id]
                    == t.watches[id]
        }),
{
}

/// Destroying a watch right after it was registered under keys of its own
/// leaves the table as it was, but for the id and watch descriptor used up
/// and the descriptor released.
pub proof fn law_destroy_undoes_create(
    t: TableState,
    wd: i32,
    fid: Option<Seq<u8>>,
    filename: Seq<u8>,
    dirf: i32,
)
    requires
        t.consistent(),
        t.next_id < u64::MAX,
        !t.by_wd.contains_key(t.assigned_wd(wd)),
        fid matches Some(f) ==> !t.by_fid.contains_key(fid::key_of(f, t.order)),
        !t.by_filename.contains_key(bytes::c_str(filename)),
    ensures
        t.created(wd, fid, filename, dirf).destroyed(t.next_id) == (TableState {
            next_id: (t.next_id + 1) as u64,
            next_fanotify_wd: if wd != 0 {
                t.next_fanotify_wd
            } else {
                t.assigned_wd(wd)
            },
            released: with_fd(t.released, dirf),
            ..t
        }),
{
    let u = t.created(wd, fid, filename, dirf).destroyed(t.next_id);
    assert(u.watches =~= t.watches);
    assert(u.by_wd =~= t.by_wd);
    assert(u.by_fid =~= t.by_fid);
    assert(u.by_filename =~= t.by_filename);
}

/// Registering, destroying and renaming watches leaves the indexes
/// consistent, and a destroyed watch is there no more.
pub proof fn law_indexes_stay_consistent(
    t: TableState,
    id: u64,
    wd: i32,
    fid: Option<Seq<u8>>,
    name: Seq<u8>,
    dirf: i32,
)
    requires
        t.consistent(),
    ensures
        t.next_id < u64::MAX ==> t.created(wd, fid, name, dirf).consistent(),
        t.watches.contains_key(id) ==> {
            &&& t.destroyed(id).consistent()
            &&& !t.destroyed(id).watches.contains_key(id)
            &&& t.renamed(id, name).consistent()
        },
{
    bytes::lemma_c_str_idempotent(name);
    if t.watches.contains_key(id) {
        let u = t.renamed(id, name);
        assert forall|k: Seq<u8>| #[trigger]
            u.by_filename.contains_key(k) implies u.watches.contains_key(u.by_filename[k])
            && u.watches[u.by_filename[k]].filename == k by {
            if t.by_filename.contains_key(k) {
                assert(t.watches.contains_key(t.by_filename[k]));
            }
        }
    }
}

proof fn lemma_first_free(used: Map<i32, u64>, start: i32, free: i32)
    requires
        free > 0,
        !used.contains_key(free),
    ensures
        first_free(used, start) > 0,
        !used.contains_key(first_free(used, start)),
{
    lemma_tries(start, free);
    lemma_first_try(used, start, tries_until(start, free));
    let k = choose|k: int| is_first_free(used, start, k);
    lemma_wd_after(start, k);
}

/// If some try is free, there is a first one.
proof fn lemma_first_try(used: Map<i32, u64>, start: i32, n: int)
    requires
        1 <= n,
        !used.contains_key(wd_after(start, n)),
    ensures
        exists|k: int| is_first_free(used, start, k),
    decreases n,
{
    if exists|j: int| 1 <= j < n && !used.contains_key(#[trigger] wd_after(start, j)) {
        let j = choose|j: int| 1 <= j < n && !used.contains_key(#[trigger] wd_after(start, j));
        lemma_first_try(used, start, j);
    } else {
        assert(is_first_free(used, start, n));
    }
}

/// The name watch `id` has after a prefix was replaced.
pub open spec fn name_after_replace(
    t: TableState,
    id: u64,
    oldname: Seq<u8>,
    newname: Seq<u8>,
) -> Seq<u8> {
    let cur = t.watches[id].filename;
    match TableState::replaced_name(cur, oldname, newname) {
        Some(name) if t.by_filename.contains_key(cur) && t.by_filename[cur] == id => bytes::c_str(
            name,
        ),
        _ => cur,
    }
}

/// Replacing a prefix renames exactly the watches that are found by a name
/// with that prefix, and changes nothing else about any watch.
pub proof fn law_replace_renames_by_prefix(
    t: TableState,
    oldname: Seq<u8>,
    newname: Seq<u8>,
    id: u64,
)
    requires
        t.consistent(),
        t.by_filename.dom().finite(),
        t.watches.contains_key(id),
    ensures
        ({
            let u = t.replaced(keymap::ids_in_order(t.by_filename), oldname, newname);
            &&& u.watches.dom() == t.watches.dom()
            &&& u.watches[id] == (WatchState {
                filename: name_after_replace(t, id, oldname, newname),
                ..t.watches[id]
            })
            &&& u.by_wd == t.by_wd
            &&& u.by_fid == t.by_fid
        }),
{
    let ids = keymap::ids_in_order(t.by_filename);
    keymap::lemma_ids_in_order(t.by_filename);
    lemma_ids_exist(t.by_filename, t.watches.dom());
    lemma_replaced(t, ids, oldname, newname);
    let cur = t.watches[id].filename;
    if ids.contains(id) {
        let k = choose|k: Seq<u8>| #[trigger]
            t.by_filename.contains_key(k) && t.by_filename[k] == id;
        assert(t.watches[t.by_filename[k]].filename == k);
    } else if t.by_filename.contains_key(cur) && t.by_filename[cur] == id {
        assert(ids.contains(id));
    }
}

proof fn lemma_replaced(t: TableState, ids: Seq<u64>, oldname: Seq<u8>, newname: Seq<u8>)
    requires
        ids.no_duplicates(),
        forall|j: int| 0 <= j < ids.len() ==> t.watches.contains_key(#[trigger] ids[j]),
    ensures
        ({
            let u = t.replaced(ids, oldname, newname);
            &&& u.watches.dom() == t.watches.dom()
            &&& u.by_wd == t.by_wd
            &&& u.by_fid == t.by_fid
            &&& forall|id: u64| #[trigger]
                t.watches.contains_key(id) ==> u.watches[id] == (WatchState {
                    filename: match TableState::replaced_name(
                        t.watches[id].filename,
                        oldname,
                        newname,
                    ) {
                        Some(name) if ids.contains(id) => bytes::c_str(name),
                        _ => t.watches[id].filename,
                    },
                    ..t.watches[id]
                })
        }),
    decreases ids.len(),
{
    if ids.len() > 0 {
        let id0 = ids[0];
        let rest = ids.skip(1);
        let next = match TableState::replaced_name(t.watches[id0].filename, oldname, newname) {
            Some(name) => t.renamed(id0, name),
            None => t,
        };
        assert(next.watches.dom() =~= t.watches.dom());
        assert(rest.no_duplicates());
        assert forall|j: int| 0 <= j < rest.len() implies next.watches.contains_key(
            #[trigger] rest[j],
        ) by {
            assert(rest[j] == ids[j + 1]);
            assert(t.watches.contains_key(ids[j + 1]));
        }
        lemma_replaced(next, rest, oldname, newname);
        assert forall|id: u64| t.watches.contains_key(id) implies (ids.contains(id) <==> id == id0
            || rest.contains(id)) && !rest.contains(id0) by {
            if ids.contains(id) && id != id0 {
                let i = ids.index_of(id);
                assert(rest[i - 1] == id);
            }
            if rest.contains(id) {
                let i = rest.index_of(id);
                assert(ids[i + 1] == id);
            }
            if rest.contains(id0) {
                let i = rest.index_of(id0);
                assert(ids[i + 1] == id0);
            }
        }
        assert forall|id: u64| #[trigger] t.watches.contains_key(id) implies t.replaced(
            ids,
            oldname,
            newname,
        ).watches[id] == (WatchState {
            filename: match TableState::replaced_name(t.watches[id].filename, oldname, newname) {
                Some(name) if ids.contains(id) => bytes::c_str(name),
                _ => t.watches[id].filename,
            },
            ..t.watches[id]
        }) by {
            assert(next.watches.contains_key(id));
        }
    } else {
        assert forall|id: u64| !ids.contains(id) by {}
    }
}

/// There is only one sorted order of the watches.
pub proof fn law_sorted_order_is_unique(
    t: TableState,
    a: Seq<u64>,
    b: Seq<u64>,
    event: i32,
    ascending: bool,
)
    requires
        t.consistent(),
        t.is_sorted(a, event, ascending),
        t.is_sorted(b, event, ascending),
    ensures
        a == b,
{
    lemma_sorted_covers(t, a, b, event, ascending);
    lemma_sorted_covers(t, b, a, event, ascending);
    lemma_same_prefix(t, a, b, event, ascending, a.len() as int);
    lemma_same_prefix(t, b, a, event, ascending, b.len() as int);
    assert(a =~= b);
}

proof fn lemma_sorted_covers(t: TableState, a: Seq<u64>, b: Seq<u64>, event: i32, ascending: bool)
    requires
        t.is_sorted(a, event, ascending),
        t.is_sorted(b, event, ascending),
    ensures
        forall|i: int| 0 <= i < a.len() ==> b.contains(#[trigger] a[i]),
{
    assert forall|i: int| 0 <= i < a.len() implies b.contains(#[trigger] a[i]) by {
        assert(t.found_by_wd(a[i]));
        assert(t.by_wd.contains_key(t.watches[a[i]].wd));
    }
}

proof fn lemma_same_prefix(
    t: TableState,
    a: Seq<u64>,
    b: Seq<u64>,
    event: i32,
    ascending: bool,
    n: int,
)
    requires
        t.is_sorted(a, event, ascending),
        t.is_sorted(b, event, ascending),
        forall|i: int| 0 <= i < a.len() ==> b.contains(#[trigger] a[i]),
        forall|i: int| 0 <= i < b.len() ==> a.contains(#[trigger] b[i]),
        0 <= n <= a.len(),
    ensures
        n <= b.len(),
        forall|i: int| 0 <= i < n ==> #[trigger] a[i] == b[i],
    decreases n,
{
    if n > 0 {
        let m = n - 1;
        lemma_same_prefix(t, a, b, event, ascending, m);
        let p = b.index_of(a[m]);
        assert(b.contains(a[m]));
        if p < m {
            assert(a[p] == b[p]);
            assert(t.before(a[p], a[m], event, ascending));
        }
        if m < p {
            let q = a.index_of(b[m]);
            assert(a.contains(b[m]));
            assert(t.before(b[m], b[p], event, ascending));
            if q < m {
                assert(a[q] == b[q]);
                assert(t.before(b[q], b[m], event, ascending));
            } else if m < q {
                assert(t.before(a[m], a[q], event, ascending));
            }
        }
    }
}

impl TableState {
    /// All descriptors the table knows of: those held by watches, and those
    /// to be closed.
    pub open spec fn descriptors(self) -> Multiset<i32> {
        held(self.watches, self.next_id as int).to_multiset().add(self.released.to_multiset())
    }
}

/// A descriptor, unless it is 0.
pub open spec fn one_fd(fd: i32) -> Multiset<i32> {
    if fd != 0 {
        Multiset::singleton(fd)
    } else {
        Multiset::empty()
    }
}

proof fn lemma_with_fd(s: Seq<i32>, fd: i32)
    ensures
        with_fd(s, fd).to_multiset() =~= s.to_multiset().add(one_fd(fd)),
{
    broadcast use vstd::seq_lib::group_to_multiset_ensures;

}

proof fn lemma_held_remove(watches: Map<u64, WatchState>, id: u64, n: int)
    requires
        watches.contains_key(id),
        n <= u64::MAX,
    ensures
        held(watches, n).to_multiset() =~= held(watches.remove(id), n).to_multiset().add(
            if id < n {
                one_fd(watches[id].dirf)
            } else {
                Multiset::empty()
            },
        ),
    decreases n,
{
    broadcast use vstd::seq_lib::group_to_multiset_ensures;

    if n > 0 {
        lemma_held_remove(watches, id, n - 1);
    }
}

proof fn lemma_held_elsewhere(a: Map<u64, WatchState>, b: Map<u64, WatchState>, n: int)
    requires
        n <= u64::MAX,
        forall|id: u64|
            id < n ==> (#[trigger] a.contains_key(id) <==> b.contains_key(id)) && (a.contains_key(id)
                ==> a[id].dirf == b[id].dirf),
    ensures
        held(a, n) == held(b, n),
    decreases n,
{
    if n > 0 {
        lemma_held_elsewhere(a, b, n - 1);
        assert(a.contains_key((n - 1) as u64) <==> b.contains_key((n - 1) as u64));
    }
}

/// No descriptor is lost, and none is handed out to be closed twice: a new
/// watch adds its own, and whatever else happens to watches, a descriptor
/// is either held by a watch or to be closed.
pub proof fn law_descriptors_are_kept(
    t: TableState,
    wd: i32,
    fid: Option<Seq<u8>>,
    filename: Seq<u8>,
    dirf: i32,
    id: u64,
)
    requires
        t.consistent(),
        t.next_id < u64::MAX,
    ensures
        t.created(wd, fid, filename, dirf).descriptors() == t.descriptors().add(one_fd(dirf)),
        t.watches.contains_key(id) ==> t.destroyed(id).descriptors() == t.descriptors(),
        t.watches.contains_key(id) ==> t.renamed(id, filename).descriptors() == t.descriptors(),
{
    let n = t.next_id as int;
    let u = t.created(wd, fid, filename, dirf);
    assert(u.next_id == n + 1);
    assert(!t.watches.contains_key(t.next_id));
    lemma_with_fd(t.released, dirf);
    if u.watches == t.watches {
        assert(held(u.watches, n + 1) == held(t.watches, n));
    } else {
        lemma_held_elsewhere(u.watches, t.watches, n);
        assert(held(u.watches, n + 1) == with_fd(held(t.watches, n), dirf));
        lemma_with_fd(held(t.watches, n), dirf);
    }
    assert(u.descriptors() =~= t.descriptors().add(one_fd(dirf)));
    if t.watches.contains_key(id) {
        assert(id < t.next_id);
        lemma_held_remove(t.watches, id, n);
        lemma_with_fd(t.released, t.watches[id].dirf);
        assert(t.destroyed(id).descriptors() =~= t.descriptors());
        lemma_held_elsewhere(t.renamed(id, filename).watches, t.watches, n);
    }
}

/// The watches are listed each once, by how often the event occurred, and
/// where that is the same, by watch descriptor.
pub proof fn law_sorted_rows_are_ordered_by_count(
    t: TableState,
    ids: Seq<u64>,
    event: i32,
    ascending: bool,
    i: int,
    j: int,
)
    requires
        t.consistent(),
        t.is_sorted(ids, event, ascending),
        0 <= i < j < ids.len(),
    ensures
        ({
            let a = t.watches[ids[i]].stats.counter(event);
            let b = t.watches[ids[j]].stats.counter(event);
            &&& ids[i] != ids[j]
            &&& a matches Some(x) ==> (b matches Some(y) && if ascending {
                x <= y
            } else {
                x >= y
            })
            &&& a == b ==> t.watches[ids[i]].wd < t.watches[ids[j]].wd
        }),
        forall|wd: i32| #[trigger] t.by_wd.contains_key(wd) ==> ids.contains(t.by_wd[wd]),
{
    assert(t.before(ids[i], ids[j], event, ascending));
}

/// Replacing a prefix gives every watch below the old name the new one in
/// front of what follows, and leaves all others alone.
pub proof fn law_replace_keeps_what_follows(
    t: TableState,
    oldname: Seq<u8>,
    newname: Seq<u8>,
    rest: Seq<u8>,
    name: Seq<u8>,
)
    requires
        t.consistent(),
        t.by_filename.dom().finite(),
        bytes::c_str(newname + rest) == newname + rest,
    ensures
        ({
            let u = t.replaced(keymap::ids_in_order(t.by_filename), oldname, newname);
            &&& t.by_filename.contains_key(oldname + rest) && oldname + rest != newname
                ==> u.watches[t.by_filename[oldname + rest]].filename == newname + rest
            &&& t.by_filename.contains_key(name) && (name.len() < oldname.len() || name.take(
                oldname.len() as int,
            ) != oldname) ==> u.watches[t.by_filename[name]].filename == name
        }),
{
    let whole = oldname + rest;
    assert(whole.take(oldname.len() as int) =~= oldname);
    assert(whole.skip(oldname.len() as int) =~= rest);
    if t.by_filename.contains_key(whole) {
        law_replace_renames_by_prefix(t, oldname, newname, t.by_filename[whole]);
    }
    if t.by_filename.contains_key(name) {
        law_replace_renames_by_prefix(t, oldname, newname, t.by_filename[name]);
    }
}

/// Watches without a watch descriptor of their own get the next number that
/// is not in use, starting over at 1 after the greatest.
pub proof fn law_descriptors_are_handed_out_in_turn(t: TableState)
    ensures
        0 <= t.next_fanotify_wd < i32::MAX && !t.by_wd.contains_key((t.next_fanotify_wd + 1) as i32)
            ==> t.assigned_wd(0) == t.next_fanotify_wd + 1,
        t.next_fanotify_wd == i32::MAX && !t.by_wd.contains_key(1) ==> t.assigned_wd(0) == 1,
        forall|wd: i32| wd != 0 ==> #[trigger] t.assigned_wd(wd) == wd,
{
    let w = t.next_fanotify_wd;
    if w >= 0 && !t.by_wd.contains_key(wd_after(w, 1)) {
        assert(is_first_free(t.by_wd, w, 1));
        let k = choose|k: int| is_first_free(t.by_wd, w, k);
        if k > 1 {
            assert(t.by_wd.contains_key(wd_after(w, 1)));
        }
        assert(k == 1);
    }
}

/// Destroying a watch leaves all that is not found by its own keys.
pub proof fn law_destroying_leaves_the_others(t: TableState, id: u64, other: u64, wd: i32, name: Seq<u8>)
    requires
        t.consistent(),
        t.watches.contains_key(id),
    ensures
        ({
            let u = t.destroyed(id);
            let w = t.watches[id];
            &&& !u.watches.contains_key(id)
            &&& other != id && t.watches.contains_key(other) ==> u.watches.contains_key(other)
                && u.watches[other] == t.watches[other]
            &&& !u.by_wd.contains_key(w.wd) && !u.by_filename.contains_key(w.filename)
            &&& wd != w.wd && t.by_wd.contains_key(wd) ==> u.by_wd.contains_key(wd) && u.by_wd[wd]
                == t.by_wd[wd]
            &&& name != w.filename && t.by_filename.contains_key(name)
                ==> u.by_filename.contains_key(name) && u.by_filename[name] == t.by_filename[name]
            &&& w.dirf != 0 ==> u.released == t.released.push(w.dirf)
            &&& w.dirf == 0 ==> u.released == t.released
        }),
{
}

/// A watch that is given a name is found by it, unless the name is that of
/// another, and no more by its old one; nothing else about it changes.
pub proof fn law_renamed_watch_is_found(t: TableState, id: u64, name: Seq<u8>, other: Seq<u8>)
    requires
        t.consistent(),
        t.watches.contains_key(id),
        bytes::c_str(name) == name,
    ensures
        ({
            let u = t.renamed(id, name);
            let old_name = t.watches[id].filename;
            &&& u.watches[id] == (WatchState { filename: name, ..t.watches[id] })
            &&& u.by_wd == t.by_wd && u.by_fid == t.by_fid
            &&& !t.by_filename.contains_key(name) ==> u.by_filename.contains_key(name)
                && u.by_filename[name] == id
            &&& name != old_name && t.by_filename.contains_key(name) ==> u.by_filename[name]
                == t.by_filename[name]
            &&& name != old_name && t.by_filename.contains_key(old_name)
                && t.by_filename[old_name] == id ==> !u.by_filename.contains_key(old_name)
            &&& other != old_name && other != name ==> (u.by_filename.contains_key(other)
                <==> t.by_filename.contains_key(other))
        }),
{
}

/// A watch that already has the new name, or another beginning, keeps its
/// name; another with the old beginning gets the new one.
pub proof fn law_replaced_beginning(oldname: Seq<u8>, newname: Seq<u8>, rest: Seq<u8>, cur: Seq<u8>)
    ensures
        oldname + rest != newname ==> TableState::replaced_name(oldname + rest, oldname, newname)
            == Some(newname + rest),
        TableState::replaced_name(newname, oldname, newname) is None,
        cur.len() < oldname.len() ==> TableState::replaced_name(cur, oldname, newname) is None,
        cur.len() >= oldname.len() && cur.take(oldname.len() as int) != oldname
            ==> TableState::replaced_name(cur, oldname, newname) is None,
{
    let s = oldname + rest;
    assert(s.take(oldname.len() as int) =~= oldname);
    assert(s.skip(oldname.len() as int) =~= rest);
}

/// A watch is registered unless its watch descriptor is negative: under the
/// one given, or under a free one if that is 0.
pub proof fn law_registering_assigns_a_descriptor(
    t: TableState,
    wd: i32,
    fid: Option<Seq<u8>>,
    name: Seq<u8>,
    dirf: i32,
)
    ensures
        wd < 0 ==> t.registered(wd, fid, name, dirf) == (t, None::<i32>),
        wd > 0 ==> t.registered(wd, fid, name, dirf).1 == Some(wd),
        wd == 0 ==> t.registered(wd, fid, name, dirf).1 == Some(
            first_free(t.by_wd, t.next_fanotify_wd),
        ),
        wd >= 0 ==> t.registered(wd, fid, name, dirf).0.next_id == (t.next_id + 1) as u64,
        wd >= 0 ==> t.registered(wd, fid, name, dirf).0.by_filename.contains_key(bytes::c_str(name)),
{
}

/// Counting anew sets the counters of the watches that watch descriptors lead
/// to back to 0, and changes nothing else.
pub proof fn law_counters_are_reset(t: TableState, wd: i32, event: i32)
    requires
        t.consistent(),
        t.by_wd.contains_key(wd),
    ensures
        ({
            let id = t.by_wd[wd];
            let u = t.reset();
            &&& t.watches[id].stats.counter(event) is Some ==> u.watches[id].stats.counter(event)
                == Some(0u32)
            &&& u.watches[id].filename == t.watches[id].filename
            &&& u.watches[id].wd == t.watches[id].wd
            &&& u.watches[id].fid == t.watches[id].fid
            &&& u.watches[id].dirf == t.watches[id].dirf
            &&& u.by_wd == t.by_wd
            &&& u.by_filename == t.by_filename
            &&& u.by_fid == t.by_fid
        }),
{
}

} // verus!
