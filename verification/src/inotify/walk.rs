//! Setting up watches on a directory tree.
//!
//! The caller starts with [`WalkReply::Start`], does what each [`WalkAsk`]
//! says and hands the outcome back, until the walk is finished.

use vstd::prelude::*;

use crate::bytes;
use crate::bytes::Piece;
use crate::consts;
use crate::inotify::setup;
use crate::inotify::Inotifytools;
use crate::inotify::LibState;

verus! {

/// What the caller found out.
pub enum WalkReply {
    /// Nothing yet: a tree is to be watched.
    Start,
    /// The directory was opened, or `opendir()` failed.
    Opened(Result<(), i32>),
    /// The next entry of the innermost open directory.
    Entry(Option<Vec<u8>>),
    /// The mode `lstat()` gave, or its error.
    Stated(Result<u32, i32>),
    /// Whether the path came to be watched.
    Watched(bool),
}

/// What a [`WalkReply`] says.
#[verifier::ext_equal]
pub enum WalkReplyState {
    Start,
    Opened(Result<(), i32>),
    Entry(Option<Seq<u8>>),
    Stated(Result<u32, i32>),
    Watched(bool),
}

impl View for WalkReply {
    type V = WalkReplyState;

    open spec fn view(&self) -> WalkReplyState {
        match *self {
            WalkReply::Start => WalkReplyState::Start,
            WalkReply::Opened(opened) => WalkReplyState::Opened(opened),
            WalkReply::Entry(name) => WalkReplyState::Entry(bytes::opt_bytes(name)),
            WalkReply::Stated(stat) => WalkReplyState::Stated(stat),
            WalkReply::Watched(ok) => WalkReplyState::Watched(ok),
        }
    }
}

/// What the caller is to do next.
pub enum WalkAsk {
    /// `opendir()`
    Open(Vec<u8>),
    /// `readdir()` of the innermost open directory.
    Next,
    /// `lstat()`
    Stat(Vec<u8>),
    /// Watch the path.
    Watch(Vec<u8>),
    /// Close the innermost open directory and watch the path.
    Leave(Vec<u8>),
    /// Close the innermost open directory, and go on with `readdir()` of the
    /// one that is innermost then.
    Abandon,
    /// The walk is over; close all open directories.
    Finished(bool),
}

/// What a [`WalkAsk`] says.
#[verifier::ext_equal]
pub enum WalkAskState {
    Open(Seq<u8>),
    Next,
    Stat(Seq<u8>),
    Watch(Seq<u8>),
    Leave(Seq<u8>),
    Abandon,
    Finished(bool),
}

impl View for WalkAsk {
    type V = WalkAskState;

    open spec fn view(&self) -> WalkAskState {
        match *self {
            WalkAsk::Open(path) => WalkAskState::Open(path@),
            WalkAsk::Next => WalkAskState::Next,
            WalkAsk::Stat(path) => WalkAskState::Stat(path@),
            WalkAsk::Watch(path) => WalkAskState::Watch(path@),
            WalkAsk::Leave(path) => WalkAskState::Leave(path@),
            WalkAsk::Abandon => WalkAskState::Abandon,
            WalkAsk::Finished(ok) => WalkAskState::Finished(ok),
        }
    }
}

/// A walk through a directory tree.
pub struct TreeWalk {
    open: Vec<Vec<u8>>,
    pending: Vec<u8>,
    excluded: Vec<Vec<u8>>,
}

/// What a [`TreeWalk`] holds.
#[verifier::ext_equal]
pub struct WalkState {
    /// The open directories, the innermost last, each ending with '/'.
    pub open: Seq<Seq<u8>>,
    /// The path that is being looked at.
    pub pending: Seq<u8>,
    /// The directories that are left out.
    pub excluded: Seq<Seq<u8>>,
}

impl View for TreeWalk {
    type V = WalkState;

    closed spec fn view(&self) -> WalkState {
        WalkState {
            open: bytes::names(self.open@),
            pending: self.pending@,
            excluded: bytes::names(self.excluded@),
        }
    }
}

/// A directory name without '/' at its end.
pub open spec fn without_slash(name: Seq<u8>) -> Seq<u8> {
    if name.len() > 0 && name.last() == '/' as u8 {
        name.drop_last()
    } else {
        name
    }
}

/// Whether a directory, given with one '/' at its end, is among those left
/// out, with or without trailing '/'.
pub open spec fn is_excluded_in(dir: Seq<u8>, excluded: Seq<Seq<u8>>) -> bool {
    exists|i: int|
        0 <= i < excluded.len() && dir.len() > 0 && without_slash(#[trigger] excluded[i])
            == dir.drop_last()
}

/// The failure of a subdirectory that does not end the walk; `eloop` is the
/// system's number for too many symbolic links.
pub open spec fn is_tolerated(error: i32, eloop: i32) -> bool {
    error == consts::EACCES || error == consts::ENOENT || error == eloop
}

/// An entry that stands for the directory itself or its parent.
pub open spec fn is_dot(name: Seq<u8>) -> bool {
    name == bytes::lit(".") || name == bytes::lit("..")
}

/// The last error, the walk and what to do next.
#[verifier::ext_equal]
pub struct WalkStep {
    pub error: i32,
    pub walk: WalkState,
    pub ask: WalkAskState,
}

impl WalkState {
    /// On to the next entry.
    pub open spec fn go_on(self) -> WalkStep {
        WalkStep { error: 0, walk: self, ask: WalkAskState::Next }
    }

    /// Into a directory, or on to a file.
    pub open spec fn enter(self, path: Seq<u8>) -> WalkStep {
        let p = bytes::c_str(path);
        WalkStep {
            error: 0,
            walk: WalkState { pending: p, ..self },
            ask: WalkAskState::Open(p),
        }
    }

    /// Back from a file or directory, to the directory it is in.
    pub open spec fn came_back(self, error: i32, ok: bool, eloop: i32) -> WalkStep {
        if self.open.len() == 0 || (!ok && !is_tolerated(error, eloop)) {
            WalkStep { error, walk: self, ask: WalkAskState::Finished(ok) }
        } else {
            self.go_on()
        }
    }

    /// Out of the innermost directory, which is not watched, to the one it is
    /// in.
    pub open spec fn give_up(self, error: i32, eloop: i32) -> WalkStep {
        let step = WalkState { open: self.open.drop_last(), ..self }.came_back(error, false, eloop);
        if step.ask is Next {
            WalkStep { ask: WalkAskState::Abandon, ..step }
        } else {
            step
        }
    }

    /// The walk after a reply, `error` being the last error.
    pub open spec fn after(self, error: i32, reply: WalkReplyState, eloop: i32) -> WalkStep {
        match reply {
            WalkReplyState::Start => self.enter(self.pending),
            WalkReplyState::Opened(Ok(_)) => WalkStep {
                error,
                walk: WalkState {
                    open: self.open.push(setup::with_slash(self.pending)),
                    ..self
                },
                ask: WalkAskState::Next,
            },
            WalkReplyState::Opened(Err(e)) => if e == consts::ENOTDIR {
                WalkStep { error, walk: self, ask: WalkAskState::Watch(self.pending) }
            } else {
                self.came_back(e, false, eloop)
            },
            WalkReplyState::Entry(Some(name)) => if is_dot(name) {
                self.go_on()
            } else {
                let path = self.open.last() + name;
                WalkStep {
                    error,
                    walk: WalkState { pending: path, ..self },
                    ask: WalkAskState::Stat(bytes::c_str(path)),
                }
            },
            WalkReplyState::Entry(None) => WalkStep {
                error,
                walk: WalkState { open: self.open.drop_last(), ..self },
                ask: WalkAskState::Leave(self.open.last()),
            },
            WalkReplyState::Stated(Err(e)) => if e == consts::EACCES {
                self.go_on()
            } else {
                self.give_up(e, eloop)
            },
            WalkReplyState::Stated(Ok(mode)) => {
                let dir = self.pending + bytes::lit("/");
                if mode & setup::S_IFMT == setup::S_IFDIR && !is_excluded_in(dir, self.excluded) {
                    self.enter(dir)
                } else {
                    self.go_on()
                }
            },
            WalkReplyState::Watched(ok) => self.came_back(error, ok, eloop),
        }
    }

    /// A reply that fits the walk: there is a directory to read.
    pub open spec fn can_go_on(self, reply: WalkReplyState) -> bool {
        reply is Entry || reply is Stated ==> self.open.len() > 0
    }
}

/// Whether a directory, given with one '/' at its end, is left out.
fn is_excluded(next_file: &[u8], exclude_list: &Vec<Vec<u8>>) -> (yes: bool)
    requires
        next_file@.len() > 0,
    ensures
        yes == is_excluded_in(next_file@, bytes::names(exclude_list@)),
{
    let ghost all = bytes::names(exclude_list@);
    let mut i: usize = 0;
    while i < exclude_list.len()
        invariant
            i <= exclude_list@.len(),
            next_file@.len() > 0,
            all == bytes::names(exclude_list@),
            forall|j: int| 0 <= j < i ==> without_slash(#[trigger] all[j]) != next_file@.drop_last(),
        decreases exclude_list@.len() - i,
    {
        let ex = &exclude_list[i];
        assert(all[i as int] == ex@);
        let mut l: usize = ex.len();
        if l > 0 && ex[l - 1] == '/' as u8 {
            l = l - 1;
        }
        let ghost bare = ex@.take(l as int);
        assert(bare =~= without_slash(all[i as int]));
        if next_file.len() - 1 == l {
            let a = bytes::copy_range(ex.as_slice(), 0, l);
            let b = bytes::copy_range(next_file, 0, l);
            assert(a@ =~= bare);
            assert(b@ =~= next_file@.drop_last());
            if bytes::bytes_eq(a.as_slice(), b.as_slice()) {
                return true;
            }
        }
        i = i + 1;
    }
    false
}

impl TreeWalk {
    /// Walk through the tree at `path`, leaving some directories out.
    pub fn new(path: &[u8], excluded: &Vec<Vec<u8>>) -> (w: TreeWalk)
        ensures
            w@ == (WalkState {
                open: Seq::empty(),
                pending: path@,
                excluded: bytes::names(excluded@),
            }),
    {
        let copy = bytes::copy_names(excluded);
        let w = TreeWalk { open: Vec::new(), pending: bytes::to_vec(path), excluded: copy };
        assert(w@.excluded =~= bytes::names(excluded@));
        assert(w@.open =~= Seq::empty());
        w
    }
}

impl Inotifytools {
    /// Set up recursive watches on a directory tree, excluding some
    /// directories (with or without trailing '/'): take in what the caller
    /// found out, and say what to do next.
    pub fn watch_recursively_with_exclude(&mut self, walk: &mut TreeWalk, reply: WalkReply) -> (ask:
        WalkAsk)
        requires
            old(self).wf(),
            old(walk)@.can_go_on(reply@),
        ensures
            final(self).wf(),
            ({
                let step = old(walk)@.after(old(self)@.error, reply@, old(self)@.numbers.eloop);
                &&& final(self)@ == (LibState { error: step.error, ..old(self)@ })
                &&& final(walk)@ == step.walk
                &&& ask@ == step.ask
            }),
    {
        match reply {
            WalkReply::Start => {
                let path = bytes::to_vec(walk.pending.as_slice());
                self.enter(walk, path)
            },
            WalkReply::Opened(opened) => match opened {
                Ok(_) => {
                    let my_path = setup::slashed(walk.pending.as_slice());
                    walk.open.push(my_path);
                    assert(walk@.open =~= old(walk)@.open.push(
                        setup::with_slash(old(walk)@.pending),
                    ));
                    WalkAsk::Next
                },
                Err(e) => {
                    // If not a directory, don't need to do anything special
                    if e == consts::ENOTDIR {
                        return WalkAsk::Watch(bytes::to_vec(walk.pending.as_slice()));
                    }
                    self.error = e;
                    self.come_back(walk, false)
                },
            },
            WalkReply::Entry(entry) => self.look_at(walk, entry),
            WalkReply::Stated(stat) => match stat {
                Err(e) => {
                    if e == consts::EACCES {
                        self.error = 0;
                        return WalkAsk::Next;
                    }
                    self.error = e;
                    self.abandon(walk)
                },
                Ok(mode) => {
                    if mode & setup::S_IFMT == setup::S_IFDIR {
                        let mut dir = bytes::to_vec(walk.pending.as_slice());
                        "/".put(&mut dir);
                        proof {
                            reveal_strlit("/");
                            bytes::lemma_lit("/");
                        }
                        if !is_excluded(dir.as_slice(), &walk.excluded) {
                            return self.enter(walk, dir);
                        }
                    }
                    self.error = 0;
                    WalkAsk::Next
                },
            },
            WalkReply::Watched(ok) => self.come_back(walk, ok),
        }
    }

    fn enter(&mut self, walk: &mut TreeWalk, path: Vec<u8>) -> (ask: WalkAsk)
        requires
            old(self).wf(),
        ensures
            final(self).wf(),
            final(self)@ == (LibState { error: 0, ..old(self)@ }),
            final(walk)@ == old(walk)@.enter(path@).walk,
            ask@ == old(walk)@.enter(path@).ask,
    {
        self.error = 0;
        let p = bytes::cstring(path.as_slice());
        walk.pending = bytes::to_vec(p.as_slice());
        WalkAsk::Open(p)
    }

    fn come_back(&mut self, walk: &TreeWalk, ok: bool) -> (ask: WalkAsk)
        requires
            old(self).wf(),
        ensures
            final(self).wf(),
            ({
                let step = walk@.came_back(old(self)@.error, ok, old(self)@.numbers.eloop);
                &&& final(self)@ == (LibState { error: step.error, ..old(self)@ })
                &&& walk@ == step.walk
                &&& ask@ == step.ask
            }),
    {
        // For some errors, we will continue.
        if walk.open.len() == 0 || (!ok && self.error != consts::EACCES && self.error
            != consts::ENOENT && self.error != self.numbers.eloop) {
            return WalkAsk::Finished(ok);
        }
        self.error = 0;
        WalkAsk::Next
    }

    fn abandon(&mut self, walk: &mut TreeWalk) -> (ask: WalkAsk)
        requires
            old(self).wf(),
            old(walk)@.open.len() > 0,
        ensures
            final(self).wf(),
            ({
                let step = old(walk)@.give_up(old(self)@.error, old(self)@.numbers.eloop);
                &&& final(self)@ == (LibState { error: step.error, ..old(self)@ })
                &&& final(walk)@ == step.walk
                &&& ask@ == step.ask
            }),
    {
        let ghost before = walk.open@;
        walk.open.pop();
        assert(walk@.open =~= bytes::names(before).drop_last());
        match self.come_back(walk, false) {
            WalkAsk::Next => WalkAsk::Abandon,
            ask => ask,
        }
    }

    fn look_at(&mut self, walk: &mut TreeWalk, entry: Option<Vec<u8>>) -> (ask: WalkAsk)
        requires
            old(self).wf(),
            old(walk)@.open.len() > 0,
        ensures
            final(self).wf(),
            ({
                let step = old(walk)@.after(
                    old(self)@.error,
                    WalkReplyState::Entry(bytes::opt_bytes(entry)),
                    old(self)@.numbers.eloop,
                );
                &&& final(self)@ == (LibState { error: step.error, ..old(self)@ })
                &&& final(walk)@ == step.walk
                &&& ask@ == step.ask
            }),
    {
        match entry {
            Some(name) => {
                let dot = bytes::text(".");
                let dots = bytes::text("..");
                if bytes::bytes_eq(name.as_slice(), dot.as_slice()) || bytes::bytes_eq(
                    name.as_slice(),
                    dots.as_slice(),
                ) {
                    self.error = 0;
                    return WalkAsk::Next;
                }
                let n = walk.open.len();
                assert(walk@.open.last() == walk.open@[n - 1]@);
                let mut path = bytes::to_vec(walk.open[n - 1].as_slice());
                name.put(&mut path);
                let p = bytes::cstring(path.as_slice());
                walk.pending = path;
                WalkAsk::Stat(p)
            },
            None => {
                let ghost before = walk.open@;
                match walk.open.pop() {
                    Some(my_path) => {
                        assert(bytes::names(before).last() == my_path@);
                        assert(walk@.open =~= bytes::names(before).drop_last());
                        WalkAsk::Leave(my_path)
                    },
                    None => WalkAsk::Finished(false),
                }
            },
        }
    }
}

/// A directory can be left out with or without trailing '/'.
pub proof fn law_excluded_with_or_without_slash(dir: Seq<u8>, excluded: Seq<Seq<u8>>)
    requires
        dir.len() > 0,
        dir.last() != '/' as u8,
        excluded.contains(dir) || excluded.contains(dir + seq!['/' as u8]),
    ensures
        is_excluded_in(dir + seq!['/' as u8], excluded),
{
    let slashed = dir + seq!['/' as u8];
    assert(slashed.drop_last() =~= dir);
    let name = if excluded.contains(dir) {
        dir
    } else {
        slashed
    };
    let i = excluded.index_of(name);
    assert(without_slash(excluded[i]) == slashed.drop_last());
}

/// What is found in a file system.
pub enum Tree {
    /// A directory with its entries, and the error with which it fails to be
    /// watched.
    Dir { names: Seq<Seq<u8>>, nodes: Seq<Tree>, failure: Option<i32> },
    /// A directory that cannot be opened, with the error.
    Locked(i32),
    /// Something that cannot be examined, with the error.
    Hidden(i32),
    /// Anything else.
    Other,
}

/// What comes of walking through a tree.
#[verifier::ext_equal]
pub struct Outcome {
    /// The directories that came to be watched, in order.
    pub watched: Seq<Seq<u8>>,
    /// The error of a walk that failed.
    pub error: Option<i32>,
}

impl Tree {
    pub open spec fn names(self) -> Seq<Seq<u8>> {
        match self {
            Tree::Dir { names, .. } => names,
            _ => Seq::empty(),
        }
    }

    pub open spec fn nodes(self) -> Seq<Tree> {
        match self {
            Tree::Dir { nodes, .. } => nodes,
            _ => Seq::empty(),
        }
    }

    /// `lstat()` says that it is a directory.
    pub open spec fn is_dir(self) -> bool {
        self is Dir || self is Locked
    }

    /// The entries of all directories have proper names, and `opendir()`
    /// does not say of a directory that it is none.
    pub open spec fn is_proper(self) -> bool
        decreases self,
    {
        &&& self.names().len() == self.nodes().len()
        &&& forall|i: int|
            0 <= i < self.names().len() ==> bytes::c_str(#[trigger] self.names()[i])
                == self.names()[i] && !is_dot(self.names()[i])
        &&& match self {
            Tree::Dir { nodes, .. } => forall|i: int|
                0 <= i < nodes.len() ==> (#[trigger] nodes[i]).is_proper(),
            Tree::Locked(e) => e != consts::ENOTDIR,
            _ => true,
        }
    }

    /// Nothing in the tree fails.
    pub open spec fn is_sound(self) -> bool
        decreases self,
    {
        match self {
            Tree::Dir { nodes, failure, .. } => failure is None && forall|i: int|
                0 <= i < nodes.len() ==> (#[trigger] nodes[i]).is_sound(),
            Tree::Other => true,
            _ => false,
        }
    }

    /// What comes of a walk through the tree at `dir`: first all the entries,
    /// then the directory itself, unless an entry makes it fail.
    pub open spec fn outcome(self, dir: Seq<u8>, excluded: Seq<Seq<u8>>, eloop: i32) -> Outcome
        decreases self, self.nodes().len() + 1,
    {
        match self {
            Tree::Dir { failure, .. } => {
                let inside = self.outcome_from(dir, excluded, eloop, 0);
                if inside.error is Some {
                    inside
                } else if failure is Some {
                    Outcome { error: failure, ..inside }
                } else {
                    Outcome { watched: inside.watched.push(dir), ..inside }
                }
            },
            Tree::Locked(e) => Outcome { watched: Seq::empty(), error: Some(e) },
            _ => Outcome { watched: Seq::empty(), error: None },
        }
    }

    /// What comes of the entries from number `i` on.  An entry that cannot be
    /// examined makes the directory fail, unless access is denied; a
    /// subdirectory that fails does so too, unless its error is tolerated.
    pub open spec fn outcome_from(
        self,
        dir: Seq<u8>,
        excluded: Seq<Seq<u8>>,
        eloop: i32,
        i: int,
    ) -> Outcome
        decreases self, self.nodes().len() - i,
    {
        match self {
            Tree::Dir { names, nodes, .. } => if i < 0 || i >= nodes.len() {
                Outcome { watched: Seq::empty(), error: None }
            } else {
                let sub = dir + names[i] + bytes::lit("/");
                let rest = self.outcome_from(dir, excluded, eloop, i + 1);
                match nodes[i] {
                    Tree::Hidden(e) => if e == consts::EACCES {
                        rest
                    } else {
                        Outcome { watched: Seq::empty(), error: Some(e) }
                    },
                    Tree::Other => rest,
                    _ => if is_excluded_in(sub, excluded) {
                        rest
                    } else {
                        let below = nodes[i].outcome(sub, excluded, eloop);
                        match below.error {
                            Some(e) if !is_tolerated(e, eloop) => below,
                            _ => Outcome { watched: below.watched + rest.watched, ..rest },
                        }
                    },
                }
            },
            _ => Outcome { watched: Seq::empty(), error: None },
        }
    }

    /// The directories in the tree at `dir`, subdirectories first: all but
    /// those that are left out.
    pub open spec fn directories(self, dir: Seq<u8>, excluded: Seq<Seq<u8>>) -> Seq<Seq<u8>>
        decreases self, self.nodes().len() + 1,
    {
        self.directories_from(dir, excluded, 0).push(dir)
    }

    /// The directories in the entries from number `i` on.
    pub open spec fn directories_from(self, dir: Seq<u8>, excluded: Seq<Seq<u8>>, i: int) -> Seq<
        Seq<u8>,
    >
        decreases self, self.nodes().len() - i,
    {
        match self {
            Tree::Dir { names, nodes, .. } => if i < 0 || i >= nodes.len() {
                Seq::empty()
            } else {
                let sub = dir + names[i] + bytes::lit("/");
                let rest = self.directories_from(dir, excluded, i + 1);
                if nodes[i].is_dir() && !is_excluded_in(sub, excluded) {
                    nodes[i].directories(sub, excluded) + rest
                } else {
                    rest
                }
            },
            _ => Seq::empty(),
        }
    }
}

/// A walk that has come some way, and the paths that came to be watched.
pub struct Tour {
    pub step: WalkStep,
    pub watched: Seq<Seq<u8>>,
}

/// The walk once the caller has closed a directory that was abandoned.
pub open spec fn closed(step: WalkStep) -> WalkStep {
    if step.ask is Abandon {
        WalkStep { ask: WalkAskState::Next, ..step }
    } else {
        step
    }
}

/// The walk through a directory it wants to open.
pub open spec fn tour(step: WalkStep, t: Tree, eloop: i32) -> Tour
    decreases t, t.nodes().len() + 1,
{
    match t {
        Tree::Dir { failure, .. } => {
            let opened = step.walk.after(step.error, WalkReplyState::Opened(Ok(())), eloop);
            let inside = tour_from(opened, t, 0, eloop);
            if inside.step.ask is Next {
                let left = inside.step.walk.after(
                    inside.step.error,
                    WalkReplyState::Entry(None),
                    eloop,
                );
                match (left.ask, failure) {
                    (WalkAskState::Leave(path), None) => Tour {
                        step: left.walk.after(0, WalkReplyState::Watched(true), eloop),
                        watched: inside.watched.push(path),
                    },
                    (WalkAskState::Leave(path), Some(e)) => Tour {
                        step: left.walk.after(e, WalkReplyState::Watched(false), eloop),
                        watched: inside.watched,
                    },
                    _ => inside,
                }
            } else {
                inside
            }
        },
        Tree::Locked(e) => Tour {
            step: step.walk.after(step.error, WalkReplyState::Opened(Err(e)), eloop),
            watched: Seq::empty(),
        },
        _ => Tour { step, watched: Seq::empty() },
    }
}

/// What `lstat()` says of an entry.
pub open spec fn stat_of(t: Tree) -> Result<u32, i32> {
    match t {
        Tree::Hidden(e) => Err(e),
        Tree::Other => Ok(0),
        _ => Ok(setup::S_IFDIR),
    }
}

/// The walk through the entries of a directory from number `i` on.
pub open spec fn tour_from(step: WalkStep, t: Tree, i: int, eloop: i32) -> Tour
    decreases t, t.nodes().len() - i,
{
    match t {
        Tree::Dir { names, nodes, .. } => if i < 0 || i >= nodes.len() || step.ask !is Next {
            Tour { step, watched: Seq::empty() }
        } else {
            let found = step.walk.after(step.error, WalkReplyState::Entry(Some(names[i])), eloop);
            let stated = if found.ask is Stat {
                found.walk.after(found.error, WalkReplyState::Stated(stat_of(nodes[i])), eloop)
            } else {
                found
            };
            if stated.ask is Open {
                let below = tour(stated, nodes[i], eloop);
                let rest = tour_from(closed(below.step), t, i + 1, eloop);
                Tour { step: rest.step, watched: below.watched + rest.watched }
            } else {
                tour_from(stated, t, i + 1, eloop)
            }
        },
        _ => Tour { step, watched: Seq::empty() },
    }
}

/// The walk after the entries of a directory is where the outcome says.
spec fn is_after_entries(step: WalkStep, start: WalkState, error: Option<i32>, eloop: i32) -> bool {
    match error {
        None => {
            &&& step.ask is Next
            &&& step.error == 0
            &&& step.walk.open == start.open
            &&& step.walk.excluded == start.excluded
        },
        Some(e) => if is_tolerated(e, eloop) && start.open.len() > 1 {
            &&& step.ask is Abandon
            &&& step.error == 0
            &&& step.walk.open == start.open.drop_last()
            &&& step.walk.excluded == start.excluded
        } else {
            &&& step.ask == WalkAskState::Finished(false)
            &&& step.error == e
        },
    }
}

/// The walk after a directory is where the outcome says.
spec fn is_after_directory(step: WalkStep, start: WalkState, error: Option<i32>, eloop: i32) -> bool {
    if start.open.len() == 0 {
        &&& step.ask == WalkAskState::Finished(error is None)
        &&& step.error == match error {
            Some(e) => e,
            None => 0,
        }
    } else {
        match error {
            Some(e) if !is_tolerated(e, eloop) => {
                &&& step.ask == WalkAskState::Finished(false)
                &&& step.error == e
            },
            _ => {
                &&& closed(step).ask is Next
                &&& step.error == 0
                &&& step.walk.open == start.open
                &&& step.walk.excluded == start.excluded
            },
        }
    }
}

proof fn lemma_tour_from(step: WalkStep, t: Tree, i: int, eloop: i32)
    requires
        t is Dir,
        t.is_proper(),
        0 <= i <= t.nodes().len(),
        step.ask is Next,
        step.error == 0,
        step.walk.open.len() > 0,
        bytes::c_str(step.walk.open.last()) == step.walk.open.last(),
    ensures
        ({
            let end = tour_from(step, t, i, eloop);
            let out = t.outcome_from(step.walk.open.last(), step.walk.excluded, eloop, i);
            &&& is_after_entries(end.step, step.walk, out.error, eloop)
            &&& end.watched == out.watched
        }),
    decreases t, t.nodes().len() - i,
{
    match t {
        Tree::Dir { names, nodes, .. } => {
            if i < nodes.len() {
                let dir = step.walk.open.last();
                let name = t.names()[i];
                let found = step.walk.after(
                    step.error,
                    WalkReplyState::Entry(Some(names[i])),
                    eloop,
                );
                assert(bytes::c_str(name) == name && !is_dot(name));
                assert(found.ask is Stat);
                assert(setup::S_IFDIR & setup::S_IFMT == setup::S_IFDIR) by (bit_vector);
                assert(0u32 & setup::S_IFMT == 0) by (bit_vector);
                let stated = found.walk.after(
                    found.error,
                    WalkReplyState::Stated(stat_of(nodes[i])),
                    eloop,
                );
                let sub = dir + name + bytes::lit("/");
                let rest = t.outcome_from(dir, step.walk.excluded, eloop, i + 1);
                if stated.ask is Open {
                    bytes::lemma_c_str_concat(dir, name);
                    lemma_slash();
                    bytes::lemma_c_str_concat(dir + name, bytes::lit("/"));
                    assert(nodes[i].is_proper());
                    lemma_tour(stated, nodes[i], eloop);
                    assert(setup::with_slash(sub) =~= sub);
                    let below = tour(stated, nodes[i], eloop);
                    if closed(below.step).ask is Next {
                        lemma_tour_from(closed(below.step), t, i + 1, eloop);
                    } else {
                        assert(below.watched + Seq::empty() =~= below.watched);
                    }
                } else if stated.ask is Next {
                    lemma_tour_from(stated, t, i + 1, eloop);
                }
            }
        },
        _ => {},
    }
}

/// "/" is a single byte.
proof fn lemma_slash()
    ensures
        bytes::lit("/") == seq!['/' as u8],
        bytes::c_str(bytes::lit("/")) == bytes::lit("/"),
{
    reveal_strlit("/");
    bytes::lemma_lit("/");
    let s = bytes::lit("/");
    assert(s =~= seq!['/' as u8]);
    bytes::lemma_first_at_unique(s, 0, 1);
    assert(s.take(1) =~= s);
}

proof fn lemma_tour(step: WalkStep, t: Tree, eloop: i32)
    requires
        t.is_dir(),
        t.is_proper(),
        step.ask is Open,
        step.error == 0,
        bytes::c_str(step.walk.pending) == step.walk.pending,
    ensures
        ({
            let end = tour(step, t, eloop);
            let dir = setup::with_slash(step.walk.pending);
            let out = t.outcome(dir, step.walk.excluded, eloop);
            &&& is_after_directory(end.step, step.walk, out.error, eloop)
            &&& end.watched == out.watched
        }),
    decreases t, t.nodes().len() + 1,
{
    if t is Dir {
        let dir = setup::with_slash(step.walk.pending);
        lemma_slash();
        bytes::lemma_c_str_concat(step.walk.pending, bytes::lit("/"));
        let opened = step.walk.after(step.error, WalkReplyState::Opened(Ok(())), eloop);
        assert(opened.walk.open.last() == dir);
        lemma_tour_from(opened, t, 0, eloop);
        assert(opened.walk.open.drop_last() =~= step.walk.open);
    }
}

/// A walk does what the tree says: it goes through the entries of each
/// directory, has it watched after them, gives up a directory that fails and
/// goes on around it where the error is tolerated.
pub proof fn law_walk_follows_the_tree(
    path: Seq<u8>,
    excluded: Seq<Seq<u8>>,
    t: Tree,
    eloop: i32,
)
    requires
        t.is_dir(),
        t.is_proper(),
        bytes::c_str(path) == path,
    ensures
        ({
            let start = WalkState { open: Seq::empty(), pending: path, excluded };
            let end = tour(start.after(0, WalkReplyState::Start, eloop), t, eloop);
            let out = t.outcome(setup::with_slash(path), excluded, eloop);
            &&& end.step.ask == WalkAskState::Finished(out.error is None)
            &&& end.step.error == match out.error {
                Some(e) => e,
                None => 0,
            }
            &&& end.watched == out.watched
        }),
{
    let start = WalkState { open: Seq::empty(), pending: path, excluded };
    lemma_tour(start.after(0, WalkReplyState::Start, eloop), t, eloop);
}

proof fn lemma_sound(t: Tree, dir: Seq<u8>, excluded: Seq<Seq<u8>>, eloop: i32)
    requires
        t is Dir,
        t.is_sound(),
    ensures
        t.outcome(dir, excluded, eloop) == (Outcome {
            watched: t.directories(dir, excluded),
            error: None,
        }),
    decreases t, t.nodes().len() + 1,
{
    lemma_sound_from(t, dir, excluded, eloop, 0);
}

proof fn lemma_sound_from(t: Tree, dir: Seq<u8>, excluded: Seq<Seq<u8>>, eloop: i32, i: int)
    requires
        t is Dir,
        t.is_sound(),
        0 <= i <= t.nodes().len(),
    ensures
        t.outcome_from(dir, excluded, eloop, i) == (Outcome {
            watched: t.directories_from(dir, excluded, i),
            error: None,
        }),
    decreases t, t.nodes().len() - i,
{
    match t {
        Tree::Dir { names, nodes, .. } => {
            if i < nodes.len() {
                assert(nodes[i].is_sound());
                lemma_sound_from(t, dir, excluded, eloop, i + 1);
                if nodes[i] is Dir {
                    lemma_sound(nodes[i], dir + names[i] + bytes::lit("/"), excluded, eloop);
                }
            }
        },
        _ => {},
    }
}

/// Where all goes well, a walk has exactly the directories of the tree
/// watched that are not left out, each after its subdirectories, and
/// succeeds.
pub proof fn law_walk_watches_all_directories(
    path: Seq<u8>,
    excluded: Seq<Seq<u8>>,
    t: Tree,
    eloop: i32,
)
    requires
        t is Dir,
        t.is_proper(),
        t.is_sound(),
        bytes::c_str(path) == path,
    ensures
        ({
            let start = WalkState { open: Seq::empty(), pending: path, excluded };
            let end = tour(start.after(0, WalkReplyState::Start, eloop), t, eloop);
            &&& end.step.ask == WalkAskState::Finished(true)
            &&& end.step.error == 0
            &&& end.watched == t.directories(setup::with_slash(path), excluded)
        }),
{
    law_walk_follows_the_tree(path, excluded, t, eloop);
    lemma_sound(t, setup::with_slash(path), excluded, eloop);
}

/// What is watched lies at or below the directory, and below it as long as
/// it is not watched itself.
proof fn lemma_watched_below(t: Tree, dir: Seq<u8>, excluded: Seq<Seq<u8>>, eloop: i32)
    ensures
        ({
            let out = t.outcome(dir, excluded, eloop);
            &&& forall|k: int|
                0 <= k < out.watched.len() ==> (#[trigger] out.watched[k]).len() >= dir.len()
            &&& out.error is Some ==> !out.watched.contains(dir)
        }),
    decreases t, t.nodes().len() + 1,
{
    if t is Dir {
        lemma_watched_below_from(t, dir, excluded, eloop, 0);
    }
}

proof fn lemma_watched_below_from(t: Tree, dir: Seq<u8>, excluded: Seq<Seq<u8>>, eloop: i32, i: int)
    requires
        t is Dir,
        0 <= i,
    ensures
        ({
            let out = t.outcome_from(dir, excluded, eloop, i);
            forall|k: int|
                0 <= k < out.watched.len() ==> (#[trigger] out.watched[k]).len() > dir.len()
        }),
    decreases t, t.nodes().len() - i,
{
    match t {
        Tree::Dir { names, nodes, .. } => {
            if i < nodes.len() {
                lemma_slash();
                let sub = dir + names[i] + bytes::lit("/");
                lemma_watched_below_from(t, dir, excluded, eloop, i + 1);
                lemma_watched_below(nodes[i], sub, excluded, eloop);
            }
        },
        _ => {},
    }
}

/// A subdirectory whose failure is tolerated is left unwatched, and the walk
/// goes on with the entry after it, no matter how deep it is.
pub proof fn law_tolerated_failure_leaves_one_directory(
    t: Tree,
    dir: Seq<u8>,
    excluded: Seq<Seq<u8>>,
    eloop: i32,
    i: int,
)
    requires
        t is Dir,
        0 <= i < t.nodes().len(),
        t.nodes()[i].is_dir(),
        !is_excluded_in(dir + t.names()[i] + bytes::lit("/"), excluded),
        ({
            let sub = dir + t.names()[i] + bytes::lit("/");
            t.nodes()[i].outcome(sub, excluded, eloop).error matches Some(e) && is_tolerated(
                e,
                eloop,
            )
        }),
    ensures
        ({
            let sub = dir + t.names()[i] + bytes::lit("/");
            let below = t.nodes()[i].outcome(sub, excluded, eloop);
            let rest = t.outcome_from(dir, excluded, eloop, i + 1);
            &&& !below.watched.contains(sub)
            &&& t.outcome_from(dir, excluded, eloop, i) == (Outcome {
                watched: below.watched + rest.watched,
                error: rest.error,
            })
        }),
{
    let sub = dir + t.names()[i] + bytes::lit("/");
    lemma_watched_below(t.nodes()[i], sub, excluded, eloop);
}

/// A directory is left out only if it is one of those listed, with or
/// without a trailing '/'; the names of others may begin alike.
pub proof fn law_only_listed_directories_are_excluded(dir: Seq<u8>, excluded: Seq<Seq<u8>>)
    requires
        dir.len() > 0,
        dir.last() != '/' as u8,
    ensures
        is_excluded_in(dir + seq!['/' as u8], excluded) <==> excluded.contains(dir)
            || excluded.contains(dir + seq!['/' as u8]),
{
    let slashed = dir + seq!['/' as u8];
    assert(slashed.drop_last() =~= dir);
    if is_excluded_in(slashed, excluded) {
        let i = choose|i: int|
            0 <= i < excluded.len() && without_slash(#[trigger] excluded[i]) == dir;
        if excluded[i].len() > 0 && excluded[i].last() == '/' as u8 {
            assert(excluded[i] =~= slashed);
        }
    } else if excluded.contains(dir) || excluded.contains(slashed) {
        law_excluded_with_or_without_slash(dir, excluded);
    }
}

/// A directory that is found is entered, unless it is listed as left out; a
/// listed one, and whatever is no directory, is passed over.
pub proof fn law_walk_enters_directories_not_listed(
    w: WalkState,
    error: i32,
    mode: u32,
    eloop: i32,
)
    requires
        w.pending.len() > 0,
        w.pending.last() != '/' as u8,
        bytes::c_str(w.pending) == w.pending,
    ensures
        ({
            let step = w.after(error, WalkReplyState::Stated(Ok(mode)), eloop);
            let dir = w.pending + seq!['/' as u8];
            let listed = w.excluded.contains(w.pending) || w.excluded.contains(dir);
            &&& step.error == 0
            &&& step.walk.open == w.open
            &&& step.walk.excluded == w.excluded
            &&& mode & 0xf000 == 0x4000 && !listed ==> step.ask == WalkAskState::Open(dir)
            &&& mode & 0xf000 != 0x4000 || listed ==> step.ask == WalkAskState::Next
        }),
{
    lemma_slash();
    bytes::lemma_c_str_concat(w.pending, bytes::lit("/"));
    law_only_listed_directories_are_excluded(w.pending, w.excluded);
    assert(setup::S_IFMT == 0xf000 && setup::S_IFDIR == 0x4000);
}

/// The entries of a directory are looked at under its path, but for the
/// directory itself and its parent; at its end it is watched, under its path
/// with a trailing '/'.
pub proof fn law_walk_looks_at_entries(w: WalkState, error: i32, name: Seq<u8>, eloop: i32)
    requires
        w.open.len() > 0,
        bytes::c_str(w.open.last() + name) == w.open.last() + name,
    ensures
        ({
            let step = w.after(error, WalkReplyState::Entry(Some(name)), eloop);
            let dot = name == seq!['.' as u8] || name == seq!['.' as u8, '.' as u8];
            &&& dot ==> step.ask == WalkAskState::Next
            &&& !dot ==> step.ask == WalkAskState::Stat(w.open.last() + name) && step.walk.pending
                == w.open.last() + name
            &&& step.walk.open == w.open
        }),
        w.after(error, WalkReplyState::Entry(None), eloop).ask == WalkAskState::Leave(
            w.open.last(),
        ),
        w.after(error, WalkReplyState::Entry(None), eloop).walk.open == w.open.drop_last(),
{
    reveal_strlit(".");
    bytes::lemma_lit(".");
    reveal_strlit("..");
    bytes::lemma_lit("..");
    assert(bytes::lit(".") =~= seq!['.' as u8]);
    assert(bytes::lit("..") =~= seq!['.' as u8, '.' as u8]);
}

/// What is opened as a directory is gone through under its path with one '/'
/// at its end; what is none is watched as it is; any other error of the top
/// is the end.
pub proof fn law_walk_opens_directories(w: WalkState, error: i32, failure: i32, eloop: i32)
    requires
        w.pending.len() > 0,
    ensures
        ({
            let step = w.after(error, WalkReplyState::Opened(Ok(())), eloop);
            &&& step.ask == WalkAskState::Next
            &&& step.walk.open == w.open.push(
                if w.pending.last() == '/' as u8 {
                    w.pending
                } else {
                    w.pending + seq!['/' as u8]
                },
            )
        }),
        ({
            let step = w.after(error, WalkReplyState::Opened(Err(failure)), eloop);
            &&& failure == 20 ==> step.ask == WalkAskState::Watch(w.pending)
            &&& failure != 20 && w.open.len() == 0 ==> step.ask == WalkAskState::Finished(false)
                && step.error == failure
            &&& failure != 20 && w.open.len() > 0 && (failure == 13 || failure == 2 || failure
                == eloop) ==> step.ask == WalkAskState::Next && step.error == 0
            &&& failure != 20 && failure != 13 && failure != 2 && failure != eloop ==> step.ask
                == WalkAskState::Finished(false) && step.error == failure
        }),
{
    lemma_slash();
}

/// An entry that cannot be examined is passed over if access is denied;
/// otherwise its directory is given up, and the walk goes on around it if the
/// entry vanished or is a loop of links, and there is a directory around it.
pub proof fn law_walk_survives_lost_entries(w: WalkState, error: i32, failure: i32, eloop: i32)
    requires
        w.open.len() > 0,
        eloop != 13,
    ensures
        ({
            let step = w.after(error, WalkReplyState::Stated(Err(failure)), eloop);
            &&& failure == 13 ==> step.ask == WalkAskState::Next && step.error == 0
                && step.walk.open == w.open
            &&& (failure == 2 || failure == eloop) && w.open.len() > 1 ==> step.ask
                == WalkAskState::Abandon && step.error == 0 && step.walk.open == w.open.drop_last()
            &&& failure != 13 && (w.open.len() == 1 || (failure != 2 && failure != eloop))
                ==> step.ask == WalkAskState::Finished(false) && step.error == failure
        }),
{
}

/// A directory that could not be watched ends the walk, unless it is below
/// the top and its error is tolerated; one that was watched leads on to the
/// next entry, or at the top to the end.
pub proof fn law_walk_goes_on_after_watching(w: WalkState, error: i32, eloop: i32)
    ensures
        ({
            let done = w.after(error, WalkReplyState::Watched(true), eloop);
            let not = w.after(error, WalkReplyState::Watched(false), eloop);
            let fine = error == 13 || error == 2 || error == eloop;
            &&& w.open.len() == 0 ==> done.ask == WalkAskState::Finished(true) && not.ask
                == WalkAskState::Finished(false) && not.error == error
            &&& w.open.len() > 0 ==> done.ask == WalkAskState::Next && done.error == 0
            &&& w.open.len() > 0 && fine ==> not.ask == WalkAskState::Next && not.error == 0
            &&& w.open.len() > 0 && !fine ==> not.ask == WalkAskState::Finished(false) && not.error
                == error
        }),
{
}

/// A walk starts with the file it was given, up to a NUL.
pub proof fn law_walk_starts_with_its_file(w: WalkState, error: i32, eloop: i32, rest: Seq<u8>)
    requires
        !w.pending.contains(0),
    ensures
        ({
            let step = w.after(error, WalkReplyState::Start, eloop);
            &&& step.ask == WalkAskState::Open(w.pending)
            &&& step.walk == w
            &&& step.error == 0
        }),
        ({
            let long = WalkState { pending: w.pending + seq![0u8] + rest, ..w };
            let step = long.after(error, WalkReplyState::Start, eloop);
            &&& step.ask == WalkAskState::Open(w.pending)
            &&& step.walk == w
        }),
{
    bytes::law_c_string_ends_before_nul(w.pending, rest);
}

} // verus!
