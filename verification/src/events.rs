//! Event masks and their names.

use vstd::prelude::*;

use crate::bytes;
use crate::bytes::Piece;
use crate::consts;

verus! {

/// Number of event names that are understood.
pub const EVENT_NAMES: usize = 20;
/// Number of event names that are shown; they come first.
pub const SHOWN_NAMES: usize = 18;
/// All bits that have a name.
pub const NAMED_EVENTS: i32 = -0x3fff_1001;

/// The event names (without `IN_`), numbered from 0.
pub open spec fn event_name(i: int) -> Seq<u8> {
    if i == 0 {
        bytes::lit("ACCESS")
    } else if i == 1 {
        bytes::lit("MODIFY")
    } else if i == 2 {
        bytes::lit("ATTRIB")
    } else if i == 3 {
        bytes::lit("CLOSE_WRITE")
    } else if i == 4 {
        bytes::lit("CLOSE_NOWRITE")
    } else if i == 5 {
        bytes::lit("OPEN")
    } else if i == 6 {
        bytes::lit("MOVED_FROM")
    } else if i == 7 {
        bytes::lit("MOVED_TO")
    } else if i == 8 {
        bytes::lit("CREATE")
    } else if i == 9 {
        bytes::lit("DELETE")
    } else if i == 10 {
        bytes::lit("DELETE_SELF")
    } else if i == 11 {
        bytes::lit("UNMOUNT")
    } else if i == 12 {
        bytes::lit("Q_OVERFLOW")
    } else if i == 13 {
        bytes::lit("IGNORED")
    } else if i == 14 {
        bytes::lit("CLOSE")
    } else if i == 15 {
        bytes::lit("MOVE_SELF")
    } else if i == 16 {
        bytes::lit("ISDIR")
    } else if i == 17 {
        bytes::lit("ONESHOT")
    } else if i == 18 {
        bytes::lit("MOVE")
    } else if i == 19 {
        bytes::lit("ALL_EVENTS")
    } else {
        Seq::empty()
    }
}

/// The masks that belong to the event names.
pub open spec fn event_flag(i: int) -> i32 {
    if i == 0 {
        consts::IN_ACCESS
    } else if i == 1 {
        consts::IN_MODIFY
    } else if i == 2 {
        consts::IN_ATTRIB
    } else if i == 3 {
        consts::IN_CLOSE_WRITE
    } else if i == 4 {
        consts::IN_CLOSE_NOWRITE
    } else if i == 5 {
        consts::IN_OPEN
    } else if i == 6 {
        consts::IN_MOVED_FROM
    } else if i == 7 {
        consts::IN_MOVED_TO
    } else if i == 8 {
        consts::IN_CREATE
    } else if i == 9 {
        consts::IN_DELETE
    } else if i == 10 {
        consts::IN_DELETE_SELF
    } else if i == 11 {
        consts::IN_UNMOUNT
    } else if i == 12 {
        consts::IN_Q_OVERFLOW
    } else if i == 13 {
        consts::IN_IGNORED
    } else if i == 14 {
        consts::IN_CLOSE
    } else if i == 15 {
        consts::IN_MOVE_SELF
    } else if i == 16 {
        consts::IN_ISDIR
    } else if i == 17 {
        consts::IN_ONESHOT
    } else if i == 18 {
        consts::IN_MOVE
    } else if i == 19 {
        consts::IN_ALL_EVENTS
    } else {
        0
    }
}

/// The mask of the first name from number `i` on that is spelled like `e`,
/// up to case; -1 if there is none.
pub open spec fn flag_named(e: Seq<u8>, i: int) -> i32
    decreases EVENT_NAMES - i,
{
    if i >= EVENT_NAMES {
        (-1) as i32
    } else if bytes::same_letters(event_name(i), e) {
        event_flag(i)
    } else {
        flag_named(e, i + 1)
    }
}

/// The mask of a single event name; 0 for empty, -1 for unknown.
pub open spec fn one_event(e: Seq<u8>) -> i32 {
    if e.len() == 0 {
        0
    } else {
        flag_named(e, 0)
    }
}

/// Letters, '_' and NUL cannot separate event names.
pub open spec fn is_separator(sep: u8) -> bool {
    sep != 0 && sep != 95 && !(65 <= sep <= 90) && !(97 <= sep <= 122)
}

/// The masks of the `sep`-separated names in `s` and `acc` together, unless
/// one is empty or unknown: then what the first such name stands for.
pub open spec fn events_from(s: Seq<u8>, sep: u8, acc: i32) -> i32
    decreases s.len(),
{
    let n = bytes::first_at(s, sep);
    let v = one_event(s.take(n));
    if v == 0 || v == -1 {
        v
    } else if 0 <= n < s.len() {
        events_from(s.skip(n + 1), sep, acc | v)
    } else {
        acc | v
    }
}

/// What [`str_to_event_sep`] returns.
pub open spec fn events_of(event: Option<Seq<u8>>, sep: u8) -> i32 {
    match event {
        _ if !is_separator(sep) => (-1) as i32,
        None => 0,
        Some(s) => events_from(bytes::c_str(s), sep, 0),
    }
}

/// The names from number `i` on of the bits in `events`, each with `sep` in
/// front (NUL leaves no trace).
pub open spec fn shown_from(events: i32, sep: u8, i: int) -> Seq<u8>
    decreases SHOWN_NAMES - i,
{
    if i >= SHOWN_NAMES {
        Seq::empty()
    } else if event_flag(i) & events != 0 {
        (if sep == 0 {
            Seq::empty()
        } else {
            seq![sep]
        }) + event_name(i) + shown_from(events, sep, i + 1)
    } else {
        shown_from(events, sep, i + 1)
    }
}

/// The last `n` hexadecimal digits of `v`.
pub open spec fn hex_digits(v: nat, n: nat) -> Seq<u8>
    decreases n,
{
    if n == 0 {
        Seq::empty()
    } else {
        hex_digits(v / 16, (n - 1) as nat).push(bytes::digit(v % 16))
    }
}

/// What an event mask is shown as: its names separated by `sep`, or the mask
/// in hexadecimal if it has none.
pub open spec fn shown_events(events: i32, sep: u8) -> Seq<u8> {
    let s = shown_from(events, sep, 0);
    if s.len() == 0 {
        bytes::lit("0x") + hex_digits(events as u32 as nat, 8)
    } else {
        s.skip(1)
    }
}

/// The union of the masks from number `i` on that meet `events`.
pub open spec fn flags_from(events: i32, i: int) -> i32
    decreases SHOWN_NAMES - i,
{
    if i >= SHOWN_NAMES {
        0
    } else if event_flag(i) & events != 0 {
        event_flag(i) | flags_from(events, i + 1)
    } else {
        flags_from(events, i + 1)
    }
}

fn event_entry(i: usize) -> (e: (&'static str, i32))
    requires
        i < EVENT_NAMES,
    ensures
        bytes::lit(e.0) == event_name(i as int),
        e.1 == event_flag(i as int),
{
    if i == 0 {
        ("ACCESS", consts::IN_ACCESS)
    } else if i == 1 {
        ("MODIFY", consts::IN_MODIFY)
    } else if i == 2 {
        ("ATTRIB", consts::IN_ATTRIB)
    } else if i == 3 {
        ("CLOSE_WRITE", consts::IN_CLOSE_WRITE)
    } else if i == 4 {
        ("CLOSE_NOWRITE", consts::IN_CLOSE_NOWRITE)
    } else if i == 5 {
        ("OPEN", consts::IN_OPEN)
    } else if i == 6 {
        ("MOVED_FROM", consts::IN_MOVED_FROM)
    } else if i == 7 {
        ("MOVED_TO", consts::IN_MOVED_TO)
    } else if i == 8 {
        ("CREATE", consts::IN_CREATE)
    } else if i == 9 {
        ("DELETE", consts::IN_DELETE)
    } else if i == 10 {
        ("DELETE_SELF", consts::IN_DELETE_SELF)
    } else if i == 11 {
        ("UNMOUNT", consts::IN_UNMOUNT)
    } else if i == 12 {
        ("Q_OVERFLOW", consts::IN_Q_OVERFLOW)
    } else if i == 13 {
        ("IGNORED", consts::IN_IGNORED)
    } else if i == 14 {
        ("CLOSE", consts::IN_CLOSE)
    } else if i == 15 {
        ("MOVE_SELF", consts::IN_MOVE_SELF)
    } else if i == 16 {
        ("ISDIR", consts::IN_ISDIR)
    } else if i == 17 {
        ("ONESHOT", consts::IN_ONESHOT)
    } else if i == 18 {
        ("MOVE", consts::IN_MOVE)
    } else if i == 19 {
        ("ALL_EVENTS", consts::IN_ALL_EVENTS)
    } else {
        vstd::pervasive::unreached()
    }
}

/// Convert a single event name (case insensitive, without `IN_`) to its
/// mask; 0 for empty, -1 for unknown.
pub fn onestr_to_event(event: &[u8]) -> (mask: i32)
    ensures
        mask == one_event(event@),
{
    if event.len() == 0 {
        return 0;
    }
    let mut i: usize = 0;
    while i < EVENT_NAMES
        invariant
            i <= EVENT_NAMES,
            event@.len() > 0,
            flag_named(event@, 0) == flag_named(event@, i as int),
        decreases EVENT_NAMES - i,
    {
        let (name, flag) = event_entry(i);
        if bytes::eq_ignore_case(name.as_bytes(), event) {
            return flag;
        }
        i = i + 1;
    }
    -1
}

/// Convert `sep`-separated event names to a mask.  Returns 0 if `event` is
/// empty or contains an empty element, -1 if an element is unknown or `sep`
/// is a letter, '_' or NUL.
pub fn str_to_event_sep(event: Option<&[u8]>, sep: u8) -> (mask: i32)
    ensures
        mask == events_of(
            match event {
                Some(s) => Some(s@),
                None => None,
            },
            sep,
        ),
{
    if sep == 0 || sep == 95 || (65 <= sep && sep <= 90) || (97 <= sep && sep <= 122) {
        return -1;
    }
    let string = match event {
        Some(s) => bytes::cstring(s),
        None => return 0,
    };
    let s = string.as_slice();
    let mut ret: i32 = 0;
    let mut start: usize = 0;
    assert(s@.skip(0) =~= s@);
    loop
        invariant
            is_separator(sep),
            event is Some,
            s@ == bytes::c_str(event->0@),
            start <= s@.len(),
            events_from(s@, sep, 0) == events_from(s@.skip(start as int), sep, ret),
        decreases s@.len() - start,
    {
        let rest = &s[start..s.len()];
        assert(rest@ =~= s@.skip(start as int));
        let n = bytes::find_byte(rest, sep);
        let name = &rest[0..n];
        assert(name@ =~= rest@.take(n as int));
        let v = onestr_to_event(name);
        if v == 0 || v == -1 {
            return v;
        }
        if n == rest.len() {
            return ret | v;
        }
        assert(rest@.skip(n + 1) =~= s@.skip(start + n + 1));
        ret = ret | v;
        start = start + n + 1;
    }
}

/// Longest event name that is looked at, with a terminating NUL.
pub const EVENTSTR_SIZE: usize = 4096;

/// Parsing the names in `s` comes upon one that is too long, with another
/// behind it.
pub open spec fn has_long_name(s: Seq<u8>, sep: u8) -> bool
    decreases s.len(),
{
    let n = bytes::first_at(s, sep);
    let v = one_event(s.take(n));
    0 <= n < s.len() && (n >= EVENTSTR_SIZE || (v != 0 && v != -1 && has_long_name(
        s.skip(n + 1),
        sep,
    )))
}

/// Whether event names are malformed in a way that deserves a diagnostic:
/// one is very long.
pub fn is_malformed(event: Option<&[u8]>, sep: u8) -> (yes: bool)
    ensures
        yes == match event {
            Some(s) => is_separator(sep) && has_long_name(bytes::c_str(s@), sep),
            None => false,
        },
{
    if sep == 0 || sep == 95 || (65 <= sep && sep <= 90) || (97 <= sep && sep <= 122) {
        return false;
    }
    let string = match event {
        Some(s) => bytes::cstring(s),
        None => return false,
    };
    let s = string.as_slice();
    let mut start: usize = 0;
    assert(s@.skip(0) =~= s@);
    loop
        invariant
            is_separator(sep),
            event is Some,
            s@ == bytes::c_str(event->0@),
            start <= s@.len(),
            has_long_name(s@, sep) == has_long_name(s@.skip(start as int), sep),
        decreases s@.len() - start,
    {
        let rest = &s[start..s.len()];
        assert(rest@ =~= s@.skip(start as int));
        let n = bytes::find_byte(rest, sep);
        if n == rest.len() {
            return false;
        }
        if n >= EVENTSTR_SIZE {
            return true;
        }
        let name = &rest[0..n];
        assert(name@ =~= rest@.take(n as int));
        let v = onestr_to_event(name);
        if v == 0 || v == -1 {
            return false;
        }
        assert(rest@.skip(n + 1) =~= s@.skip(start + n + 1));
        start = start + n + 1;
    }
}

/// Convert comma-separated event names to a mask; see [`str_to_event_sep`].
pub fn str_to_event(event: Option<&[u8]>) -> (mask: i32)
    ensures
        mask == events_of(
            match event {
                Some(s) => Some(s@),
                None => None,
            },
            44,
        ),
{
    str_to_event_sep(event, 44)
}

/// Write the last `n` hexadecimal digits of `v` behind `out`.
pub fn put_hex_digits(out: &mut Vec<u8>, v: u32, n: usize)
    ensures
        final(out)@ == old(out)@ + hex_digits(v as nat, n as nat),
    decreases n,
{
    if n > 0 {
        put_hex_digits(out, v / 16, n - 1);
        let d: u8 = (v % 16) as u8;
        out.push(
            if d < 10 {
                48 + d
            } else {
                87 + d
            },
        );
    }
    assert(out@ =~= old(out)@ + hex_digits(v as nat, n as nat));
}

/// Convert an event mask to a string of event names separated by `sep`.
/// Masks without any named event are rendered in hexadecimal.
pub fn event_names_sep(events: i32, sep: u8) -> (s: Vec<u8>)
    ensures
        s@ == shown_events(events, sep),
{
    let mut out: Vec<u8> = Vec::new();
    let mut i: usize = 0;
    let ghost all = shown_from(events, sep, 0);
    assert(out@ + all =~= all);
    while i < SHOWN_NAMES
        invariant
            i <= SHOWN_NAMES,
            all == shown_from(events, sep, 0),
            out@ + shown_from(events, sep, i as int) == all,
        decreases SHOWN_NAMES - i,
    {
        let (name, flag) = event_entry(i);
        let ghost before = out@;
        let ghost rest = shown_from(events, sep, i + 1);
        if flag & events != 0 {
            if sep != 0 {
                out.push(sep);
            }
            name.put(&mut out);
            let ghost lead = if sep == 0 {
                Seq::empty()
            } else {
                seq![sep]
            };
            assert(out@ =~= before + lead + event_name(i as int));
            assert(out@ + rest =~= before + (lead + event_name(i as int) + rest));
        }
        i = i + 1;
    }
    assert(out@ =~= all);
    if out.len() == 0 {
        "0x".put(&mut out);
        put_hex_digits(&mut out, events as u32, 8);
        assert(out@ =~= shown_events(events, sep));
        out
    } else {
        let s = bytes::copy_range(out.as_slice(), 1, out.len());
        assert(s@ =~= all.skip(1));
        s
    }
}

/// How the event names are spelled.
proof fn lemma_spelling(i: int)
    requires
        0 <= i < EVENT_NAMES,
    ensures
        4 <= event_name(i).len() <= 13,
        forall|k: int|
            0 <= k < event_name(i).len() ==> (65 <= #[trigger] event_name(i)[k] <= 90
                || event_name(i)[k] == 95),
        i == 0 ==> event_name(i).len() == 6 && event_name(i)[0] == 65 && event_name(i)[1] == 67,
        i == 1 ==> event_name(i).len() == 6 && event_name(i)[0] == 77,
        i == 2 ==> event_name(i).len() == 6 && event_name(i)[0] == 65 && event_name(i)[1] == 84,
        i == 3 ==> event_name(i).len() == 11 && event_name(i)[0] == 67,
        i == 4 ==> event_name(i).len() == 13,
        i == 5 ==> event_name(i).len() == 4 && event_name(i)[0] == 79,
        i == 6 ==> event_name(i).len() == 10 && event_name(i)[0] == 77,
        i == 7 ==> event_name(i).len() == 8,
        i == 8 ==> event_name(i).len() == 6 && event_name(i)[0] == 67,
        i == 9 ==> event_name(i).len() == 6 && event_name(i)[0] == 68,
        i == 10 ==> event_name(i).len() == 11 && event_name(i)[0] == 68,
        i == 11 ==> event_name(i).len() == 7 && event_name(i)[0] == 85,
        i == 12 ==> event_name(i).len() == 10 && event_name(i)[0] == 81,
        i == 13 ==> event_name(i).len() == 7 && event_name(i)[0] == 73,
        i == 14 ==> event_name(i).len() == 5 && event_name(i)[0] == 67,
        i == 15 ==> event_name(i).len() == 9,
        i == 16 ==> event_name(i).len() == 5 && event_name(i)[0] == 73,
        i == 17 ==> event_name(i).len() == 7 && event_name(i)[0] == 79,
        i == 18 ==> event_name(i).len() == 4 && event_name(i)[0] == 77,
        i == 19 ==> event_name(i).len() == 10 && event_name(i)[0] == 65,
{
    if i == 0 {
        reveal_strlit("ACCESS");
        bytes::lemma_lit("ACCESS");
        assert(event_name(0) =~= seq![65u8, 67u8, 67u8, 69u8, 83u8, 83u8]);
    } else if i == 1 {
        reveal_strlit("MODIFY");
        bytes::lemma_lit("MODIFY");
        assert(event_name(1) =~= seq![77u8, 79u8, 68u8, 73u8, 70u8, 89u8]);
    } else if i == 2 {
        reveal_strlit("ATTRIB");
        bytes::lemma_lit("ATTRIB");
        assert(event_name(2) =~= seq![65u8, 84u8, 84u8, 82u8, 73u8, 66u8]);
    } else if i == 3 {
        reveal_strlit("CLOSE_WRITE");
        bytes::lemma_lit("CLOSE_WRITE");
        assert(event_name(3) =~= seq![67u8, 76u8, 79u8, 83u8, 69u8, 95u8, 87u8, 82u8, 73u8, 84u8, 69u8]);
    } else if i == 4 {
        reveal_strlit("CLOSE_NOWRITE");
        bytes::lemma_lit("CLOSE_NOWRITE");
        assert(event_name(4) =~= seq![67u8, 76u8, 79u8, 83u8, 69u8, 95u8, 78u8, 79u8, 87u8, 82u8, 73u8, 84u8, 69u8]);
    } else if i == 5 {
        reveal_strlit("OPEN");
        bytes::lemma_lit("OPEN");
        assert(event_name(5) =~= seq![79u8, 80u8, 69u8, 78u8]);
    } else if i == 6 {
        reveal_strlit("MOVED_FROM");
        bytes::lemma_lit("MOVED_FROM");
        assert(event_name(6) =~= seq![77u8, 79u8, 86u8, 69u8, 68u8, 95u8, 70u8, 82u8, 79u8, 77u8]);
    } else if i == 7 {
        reveal_strlit("MOVED_TO");
        bytes::lemma_lit("MOVED_TO");
        assert(event_name(7) =~= seq![77u8, 79u8, 86u8, 69u8, 68u8, 95u8, 84u8, 79u8]);
    } else if i == 8 {
        reveal_strlit("CREATE");
        bytes::lemma_lit("CREATE");
        assert(event_name(8) =~= seq![67u8, 82u8, 69u8, 65u8, 84u8, 69u8]);
    } else if i == 9 {
        reveal_strlit("DELETE");
        bytes::lemma_lit("DELETE");
        assert(event_name(9) =~= seq![68u8, 69u8, 76u8, 69u8, 84u8, 69u8]);
    } else if i == 10 {
        reveal_strlit("DELETE_SELF");
        bytes::lemma_lit("DELETE_SELF");
        assert(event_name(10) =~= seq![68u8, 69u8, 76u8, 69u8, 84u8, 69u8, 95u8, 83u8, 69u8, 76u8, 70u8]);
    } else if i == 11 {
        reveal_strlit("UNMOUNT");
        bytes::lemma_lit("UNMOUNT");
        assert(event_name(11) =~= seq![85u8, 78u8, 77u8, 79u8, 85u8, 78u8, 84u8]);
    } else if i == 12 {
        reveal_strlit("Q_OVERFLOW");
        bytes::lemma_lit("Q_OVERFLOW");
        assert(event_name(12) =~= seq![81u8, 95u8, 79u8, 86u8, 69u8, 82u8, 70u8, 76u8, 79u8, 87u8]);
    } else if i == 13 {
        reveal_strlit("IGNORED");
        bytes::lemma_lit("IGNORED");
        assert(event_name(13) =~= seq![73u8, 71u8, 78u8, 79u8, 82u8, 69u8, 68u8]);
    } else if i == 14 {
        reveal_strlit("CLOSE");
        bytes::lemma_lit("CLOSE");
        assert(event_name(14) =~= seq![67u8, 76u8, 79u8, 83u8, 69u8]);
    } else if i == 15 {
        reveal_strlit("MOVE_SELF");
        bytes::lemma_lit("MOVE_SELF");
        assert(event_name(15) =~= seq![77u8, 79u8, 86u8, 69u8, 95u8, 83u8, 69u8, 76u8, 70u8]);
    } else if i == 16 {
        reveal_strlit("ISDIR");
        bytes::lemma_lit("ISDIR");
        assert(event_name(16) =~= seq![73u8, 83u8, 68u8, 73u8, 82u8]);
    } else if i == 17 {
        reveal_strlit("ONESHOT");
        bytes::lemma_lit("ONESHOT");
        assert(event_name(17) =~= seq![79u8, 78u8, 69u8, 83u8, 72u8, 79u8, 84u8]);
    } else if i == 18 {
        reveal_strlit("MOVE");
        bytes::lemma_lit("MOVE");
        assert(event_name(18) =~= seq![77u8, 79u8, 86u8, 69u8]);
    } else if i == 19 {
        reveal_strlit("ALL_EVENTS");
        bytes::lemma_lit("ALL_EVENTS");
        assert(event_name(19) =~= seq![65u8, 76u8, 76u8, 95u8, 69u8, 86u8, 69u8, 78u8, 84u8, 83u8]);
    }
}

/// No two event names are spelled alike.
proof fn lemma_names_differ(i: int, j: int)
    requires
        0 <= i < EVENT_NAMES,
        0 <= j < EVENT_NAMES,
        i != j,
    ensures
        !bytes::same_letters(event_name(i), event_name(j)),
{
    lemma_spelling(i);
    lemma_spelling(j);
    let a = event_name(i);
    let b = event_name(j);
    if bytes::same_letters(a, b) {
        assert(bytes::lower(a[0]) == bytes::lower(b[0]));
        assert(bytes::lower(a[1]) == bytes::lower(b[1]));
    }
}

/// Each event name stands for its own mask.
pub proof fn law_name_means_flag(i: int)
    requires
        0 <= i < EVENT_NAMES,
    ensures
        one_event(event_name(i)) == event_flag(i),
{
    lemma_spelling(i);
    lemma_flag_named(i, 0);
}

proof fn lemma_flag_named(i: int, j: int)
    requires
        0 <= j <= i < EVENT_NAMES,
    ensures
        flag_named(event_name(i), j) == event_flag(i),
    decreases i - j,
{
    if j < i {
        lemma_names_differ(j, i);
        lemma_flag_named(i, j + 1);
    }
}

/// The shown names hold no separator but those between them, and no NUL.
proof fn lemma_parse_shown(events: i32, sep: u8, i: int, acc: i32)
    requires
        is_separator(sep),
        0 <= i <= SHOWN_NAMES,
        shown_from(events, sep, i).len() > 0,
    ensures
        shown_from(events, sep, i)[0] == sep,
        events_from(shown_from(events, sep, i).skip(1), sep, acc) == acc | flags_from(events, i),
        bytes::first_at(shown_from(events, sep, i), 0) == shown_from(events, sep, i).len(),
    decreases SHOWN_NAMES - i,
{
    let t = shown_from(events, sep, i);
    if event_flag(i) & events != 0 {
        let name = event_name(i);
        let flag = event_flag(i);
        let rest = shown_from(events, sep, i + 1);
        lemma_spelling(i);
        law_name_means_flag(i);
        assert(t.skip(1) =~= name + rest);
        bytes::lemma_first_at_unique(name, sep, name.len() as int);
        bytes::lemma_first_at_concat(name, rest, sep);
        assert((name + rest).take(name.len() as int) =~= name);
        let lead = seq![sep] + name;
        assert(t =~= lead + rest);
        bytes::lemma_first_at_unique(lead, 0, lead.len() as int);
        bytes::lemma_first_at_concat(lead, rest, 0);
        if rest.len() > 0 {
            lemma_parse_shown(events, sep, i + 1, acc | flag);
            assert((name + rest).skip(name.len() as int + 1) =~= rest.skip(1));
            let r = flags_from(events, i + 1);
            assert((acc | flag) | r == acc | (flag | r)) by (bit_vector);
        } else {
            lemma_nothing_shown(events, sep, i + 1);
            assert(acc | flag == acc | (flag | 0i32)) by (bit_vector);
        }
    } else {
        lemma_parse_shown(events, sep, i + 1, acc);
    }
}

proof fn lemma_nothing_shown(events: i32, sep: u8, i: int)
    requires
        is_separator(sep),
        0 <= i <= SHOWN_NAMES,
        shown_from(events, sep, i).len() == 0,
    ensures
        flags_from(events, i) == 0,
    decreases SHOWN_NAMES - i,
{
    if i < SHOWN_NAMES {
        lemma_nothing_shown(events, sep, i + 1);
    }
}

/// A mask of named events that was converted to names converts back to
/// itself, except that one kind of close brings in the other: "CLOSE" is
/// among the names of both.
pub proof fn law_event_names_round_trip(events: i32, sep: u8)
    requires
        is_separator(sep),
        events != 0,
        events & NAMED_EVENTS == events,
    ensures
        events_of(Some(shown_events(events, sep)), sep) == if events & consts::IN_CLOSE != 0 {
            events | consts::IN_CLOSE
        } else {
            events
        },
{
    lemma_flags_of_named(events);
    let t = shown_from(events, sep, 0);
    if t.len() == 0 {
        lemma_nothing_shown(events, sep, 0);
        assert(events | consts::IN_CLOSE != 0) by (bit_vector)
            requires
                events != 0,
        ;
    }
    lemma_parse_shown(events, sep, 0, 0);
    let s = t.skip(1);
    bytes::lemma_first_at(t, 0);
    bytes::lemma_first_at_unique(s, 0, s.len() as int);
    assert(bytes::c_str(s) =~= s);
    let f = flags_from(events, 0);
    assert(0i32 | f == f) by (bit_vector);
}

proof fn lemma_flags_of_named(events: i32)
    requires
        events & NAMED_EVENTS == events,
    ensures
        flags_from(events, 0) == if events & consts::IN_CLOSE != 0 {
            events | consts::IN_CLOSE
        } else {
            events
        },
{
    let r = flags_from(events, 12);
    let q = flags_from(events, 6);
    assert(flags_from(events, 18) == 0);
    assert(flags_from(events, 17) == join(event_flag(17), events, flags_from(events, 18)));
    assert(flags_from(events, 16) == join(event_flag(16), events, flags_from(events, 17)));
    assert(flags_from(events, 15) == join(event_flag(15), events, flags_from(events, 16)));
    assert(flags_from(events, 14) == join(event_flag(14), events, flags_from(events, 15)));
    assert(flags_from(events, 13) == join(event_flag(13), events, flags_from(events, 14)));
    assert(flags_from(events, 12) == join(event_flag(12), events, flags_from(events, 13)));
    assert(join(0x4000, events, join(0x8000, events, join(0x18, events, join(0x800, events, join(0x4000_0000, events, join((-0x8000_0000i32), events, 0)))))) == (events & (-0x3fff_3800i32)) | if events & 0x18 != 0 {
        0x18i32
    } else {
        0i32
    }) by (bit_vector);
    assert(flags_from(events, 11) == join(event_flag(11), events, flags_from(events, 12)));
    assert(flags_from(events, 10) == join(event_flag(10), events, flags_from(events, 11)));
    assert(flags_from(events, 9) == join(event_flag(9), events, flags_from(events, 10)));
    assert(flags_from(events, 8) == join(event_flag(8), events, flags_from(events, 9)));
    assert(flags_from(events, 7) == join(event_flag(7), events, flags_from(events, 8)));
    assert(flags_from(events, 6) == join(event_flag(6), events, flags_from(events, 7)));
    assert(join(0x40, events, join(0x80, events, join(0x100, events, join(0x200, events, join(0x400, events, join(0x2000, events, r)))))) == (events & 0x27c0) | r) by (bit_vector);
    assert(flags_from(events, 5) == join(event_flag(5), events, flags_from(events, 6)));
    assert(flags_from(events, 4) == join(event_flag(4), events, flags_from(events, 5)));
    assert(flags_from(events, 3) == join(event_flag(3), events, flags_from(events, 4)));
    assert(flags_from(events, 2) == join(event_flag(2), events, flags_from(events, 3)));
    assert(flags_from(events, 1) == join(event_flag(1), events, flags_from(events, 2)));
    assert(flags_from(events, 0) == join(event_flag(0), events, flags_from(events, 1)));
    assert(join(0x1, events, join(0x2, events, join(0x4, events, join(0x8, events, join(0x10, events, join(0x20, events, q)))))) == (events & 0x3f) | q) by (bit_vector);
    assert((events & 0x3f) | ((events & 0x27c0) | ((events & (-0x3fff_3800i32)) | if events & 0x18 != 0 {
        0x18i32
    } else {
        0i32
    })) == if events & 0x18 != 0 {
        events | 0x18
    } else {
        events
    }) by (bit_vector)
        requires
            events & -0x3fff_1001i32 == events,
    ;
}

/// `f | rest` if `f` meets `e`, else `rest`.
spec fn join(f: i32, e: i32, rest: i32) -> i32 {
    if f & e != 0 {
        f | rest
    } else {
        rest
    }
}

/// Names with `sep` in between.
pub open spec fn joined(list: Seq<Seq<u8>>, sep: u8) -> Seq<u8>
    decreases list.len(),
{
    if list.len() == 0 {
        Seq::empty()
    } else if list.len() == 1 {
        list[0]
    } else {
        list[0] + seq![sep] + joined(list.skip(1), sep)
    }
}

/// What a list of names stands for: `acc` and the masks of all of them, or 0
/// or -1 for the first that is empty or unknown.
pub open spec fn events_of_list(list: Seq<Seq<u8>>, acc: i32) -> i32
    decreases list.len(),
{
    if list.len() == 0 {
        acc
    } else {
        let v = one_event(list[0]);
        if v == 0 || v == -1 {
            v
        } else {
            events_of_list(list.skip(1), acc | v)
        }
    }
}

/// A name that holds neither a separator nor a NUL.
pub open spec fn is_plain(name: Seq<u8>, sep: u8) -> bool {
    !name.contains(sep) && !name.contains(0)
}

proof fn lemma_joined(list: Seq<Seq<u8>>, sep: u8, acc: i32)
    requires
        sep != 0,
        list.len() > 0,
        forall|i: int| 0 <= i < list.len() ==> is_plain(#[trigger] list[i], sep),
    ensures
        events_from(joined(list, sep), sep, acc) == events_of_list(list, acc),
        !joined(list, sep).contains(0),
    decreases list.len(),
{
    let s = joined(list, sep);
    let first = list[0];
    let rest = list.skip(1);
    assert(is_plain(list[0], sep));
    assert forall|i: int| 0 <= i < first.len() implies first[i] != sep && first[i] != 0 by {
        assert(first.contains(first[i]));
    }
    if list.len() == 1 {
        bytes::lemma_first_at_unique(s, sep, s.len() as int);
        assert(s.take(s.len() as int) =~= s);
        let v = one_event(first);
        assert(events_of_list(rest, acc | v) == acc | v);
    } else {
        let tail = joined(rest, sep);
        assert forall|i: int| 0 <= i < rest.len() implies is_plain(#[trigger] rest[i], sep) by {
            assert(rest[i] == list[i + 1]);
        }
        let v = one_event(first);
        lemma_joined(rest, sep, acc | v);
        bytes::lemma_first_at_unique(s, sep, first.len() as int);
        assert(s.take(first.len() as int) =~= first);
        assert(s.skip(first.len() as int + 1) =~= tail);
        assert forall|i: int| 0 <= i < s.len() implies s[i] != 0 by {
            if i < first.len() {
                assert(s[i] == first[i]);
            } else if i > first.len() {
                assert(s[i] == tail[i - first.len() - 1]);
                assert(tail.contains(tail[i - first.len() - 1]));
            }
        }
    }
}

/// A list of names stands for the masks of all of them, or for 0 or -1 if
/// one is empty or unknown, whichever comes first.
pub proof fn law_list_means_its_names(list: Seq<Seq<u8>>, sep: u8)
    requires
        is_separator(sep),
        list.len() > 0,
        forall|i: int| 0 <= i < list.len() ==> is_plain(#[trigger] list[i], sep),
    ensures
        events_of(Some(joined(list, sep)), sep) == events_of_list(list, 0),
{
    lemma_joined(list, sep, 0);
    let s = joined(list, sep);
    assert forall|i: int| 0 <= i < s.len() implies s[i] != 0 by {
        assert(s.contains(s[i]));
    }
    bytes::lemma_first_at_unique(s, 0, s.len() as int);
    assert(bytes::c_str(s) =~= s);
}

/// The names of a mask: those whose bits it has, in order, from number `i`
/// on.
pub open spec fn names_in(events: i32, i: int) -> Seq<Seq<u8>>
    decreases SHOWN_NAMES - i,
{
    if i >= SHOWN_NAMES {
        Seq::empty()
    } else if event_flag(i) & events != 0 {
        seq![event_name(i)] + names_in(events, i + 1)
    } else {
        names_in(events, i + 1)
    }
}

proof fn lemma_shown_joined(events: i32, sep: u8, i: int)
    requires
        sep != 0,
        0 <= i <= SHOWN_NAMES,
    ensures
        names_in(events, i).len() == 0 ==> shown_from(events, sep, i).len() == 0,
        names_in(events, i).len() > 0 ==> shown_from(events, sep, i) == seq![sep] + joined(
            names_in(events, i),
            sep,
        ),
    decreases SHOWN_NAMES - i,
{
    if i < SHOWN_NAMES {
        lemma_shown_joined(events, sep, i + 1);
        if event_flag(i) & events != 0 {
            let rest = names_in(events, i + 1);
            let all = names_in(events, i);
            assert(all.skip(1) =~= rest);
            assert(all[0] == event_name(i));
            if rest.len() == 0 {
                assert(shown_from(events, sep, i) =~= seq![sep] + event_name(i));
            } else {
                assert(shown_from(events, sep, i) =~= seq![sep] + (event_name(i) + seq![sep]
                    + joined(rest, sep)));
            }
        }
    }
}

/// A mask is shown as its names with the separator in between, whichever
/// separator that is.
pub proof fn law_names_are_separated(events: i32, sep: u8)
    requires
        sep != 0,
        names_in(events, 0).len() > 0,
    ensures
        shown_events(events, sep) == joined(names_in(events, 0), sep),
{
    lemma_shown_joined(events, sep, 0);
    assert(shown_from(events, sep, 0).skip(1) =~= joined(names_in(events, 0), sep));
}

/// A mask with exactly two named events is shown as the two names with the
/// separator in between, and one with a single named event as its name.
pub proof fn law_two_names_have_one_separator(events: i32, sep: u8, i: int, j: int)
    requires
        sep != 0,
        0 <= i <= j < SHOWN_NAMES,
        forall|k: int|
            0 <= k < SHOWN_NAMES ==> ((#[trigger] event_flag(k)) & events != 0 <==> k == i || k
                == j),
    ensures
        i < j ==> shown_events(events, sep) == event_name(i) + seq![sep] + event_name(j),
        i == j ==> shown_events(events, sep) == event_name(i),
{
    lemma_names_in(events, 0, i, j);
    law_names_are_separated(events, sep);
    let all = names_in(events, 0);
    if i < j {
        assert(all.skip(1) =~= seq![event_name(j)]);
        assert(all.skip(1)[0] == event_name(j));
        assert(joined(all.skip(1), sep) == event_name(j));
    }
}

proof fn lemma_names_in(events: i32, from: int, i: int, j: int)
    requires
        0 <= from <= SHOWN_NAMES,
        0 <= i <= j < SHOWN_NAMES,
        forall|k: int|
            0 <= k < SHOWN_NAMES ==> ((#[trigger] event_flag(k)) & events != 0 <==> k == i || k
                == j),
    ensures
        from > j ==> names_in(events, from) == Seq::<Seq<u8>>::empty(),
        i < from <= j || (i == j && from <= j) ==> names_in(events, from) == seq![event_name(j)],
        i < j && from <= i ==> names_in(events, from) == seq![event_name(i), event_name(j)],
    decreases SHOWN_NAMES - from,
{
    if from < SHOWN_NAMES {
        lemma_names_in(events, from + 1, i, j);
        assert(event_flag(from) & events != 0 <==> from == i || from == j);
        if from == j {
            assert(names_in(events, from) =~= seq![event_name(j)]);
        } else if from == i {
            assert(names_in(events, from) =~= seq![event_name(i), event_name(j)]);
        }
    }
}

/// The names and bits are those of inotify.
pub proof fn law_names_are_those_of_inotify()
    ensures
        one_event(bytes::lit("ACCESS")) == 0x1,
        one_event(bytes::lit("MODIFY")) == 0x2,
        one_event(bytes::lit("ATTRIB")) == 0x4,
        one_event(bytes::lit("CLOSE_WRITE")) == 0x8,
        one_event(bytes::lit("CLOSE_NOWRITE")) == 0x10,
        one_event(bytes::lit("CLOSE")) == 0x18,
        one_event(bytes::lit("OPEN")) == 0x20,
        one_event(bytes::lit("MOVED_FROM")) == 0x40,
        one_event(bytes::lit("MOVED_TO")) == 0x80,
        one_event(bytes::lit("MOVE")) == 0xc0,
        one_event(bytes::lit("CREATE")) == 0x100,
        one_event(bytes::lit("DELETE")) == 0x200,
        one_event(bytes::lit("DELETE_SELF")) == 0x400,
        one_event(bytes::lit("MOVE_SELF")) == 0x800,
        one_event(bytes::lit("UNMOUNT")) == 0x2000,
        one_event(bytes::lit("Q_OVERFLOW")) == 0x4000,
        one_event(bytes::lit("IGNORED")) == 0x8000,
        one_event(bytes::lit("ISDIR")) == 0x4000_0000,
        one_event(bytes::lit("ONESHOT")) == -0x8000_0000,
        one_event(bytes::lit("ALL_EVENTS")) == 0xfff,
{
    assert forall|i: int| 0 <= i < EVENT_NAMES implies one_event(#[trigger] event_name(i))
        == event_flag(i) by {
        law_name_means_flag(i);
    }
    assert(event_name(0) == bytes::lit("ACCESS"));
    assert(event_name(1) == bytes::lit("MODIFY"));
    assert(event_name(2) == bytes::lit("ATTRIB"));
    assert(event_name(3) == bytes::lit("CLOSE_WRITE"));
    assert(event_name(4) == bytes::lit("CLOSE_NOWRITE"));
    assert(event_name(5) == bytes::lit("OPEN"));
    assert(event_name(6) == bytes::lit("MOVED_FROM"));
    assert(event_name(7) == bytes::lit("MOVED_TO"));
    assert(event_name(8) == bytes::lit("CREATE"));
    assert(event_name(9) == bytes::lit("DELETE"));
    assert(event_name(10) == bytes::lit("DELETE_SELF"));
    assert(event_name(11) == bytes::lit("UNMOUNT"));
    assert(event_name(12) == bytes::lit("Q_OVERFLOW"));
    assert(event_name(13) == bytes::lit("IGNORED"));
    assert(event_name(14) == bytes::lit("CLOSE"));
    assert(event_name(15) == bytes::lit("MOVE_SELF"));
    assert(event_name(16) == bytes::lit("ISDIR"));
    assert(event_name(17) == bytes::lit("ONESHOT"));
    assert(event_name(18) == bytes::lit("MOVE"));
    assert(event_name(19) == bytes::lit("ALL_EVENTS"));
}

/// The events are shown in the order of the kernel's bits, but for those
/// that came later.
pub proof fn law_names_are_shown_in_order()
    ensures
        event_name(0) == bytes::lit("ACCESS"),
        event_name(1) == bytes::lit("MODIFY"),
        event_name(2) == bytes::lit("ATTRIB"),
        event_name(3) == bytes::lit("CLOSE_WRITE"),
        event_name(4) == bytes::lit("CLOSE_NOWRITE"),
        event_name(5) == bytes::lit("OPEN"),
        event_name(6) == bytes::lit("MOVED_FROM"),
        event_name(7) == bytes::lit("MOVED_TO"),
        event_name(8) == bytes::lit("CREATE"),
        event_name(9) == bytes::lit("DELETE"),
        event_name(10) == bytes::lit("DELETE_SELF"),
        event_name(11) == bytes::lit("UNMOUNT"),
        event_name(12) == bytes::lit("Q_OVERFLOW"),
        event_name(13) == bytes::lit("IGNORED"),
        event_name(14) == bytes::lit("CLOSE"),
        event_name(15) == bytes::lit("MOVE_SELF"),
        event_name(16) == bytes::lit("ISDIR"),
        event_name(17) == bytes::lit("ONESHOT"),
        SHOWN_NAMES == 18,
{
}

/// The case of a name does not matter.
pub proof fn law_case_of_a_name_does_not_matter(a: Seq<u8>, b: Seq<u8>)
    requires
        bytes::same_letters(a, b),
    ensures
        one_event(a) == one_event(b),
{
    lemma_case(a, b, 0);
}

proof fn lemma_case(a: Seq<u8>, b: Seq<u8>, i: int)
    requires
        bytes::same_letters(a, b),
        0 <= i <= EVENT_NAMES,
    ensures
        flag_named(a, i) == flag_named(b, i),
    decreases EVENT_NAMES - i,
{
    if i < EVENT_NAMES {
        lemma_case(a, b, i + 1);
        let n = event_name(i);
        if bytes::same_letters(n, a) {
            assert forall|k: int| 0 <= k < n.len() implies bytes::lower(#[trigger] n[k])
                == bytes::lower(b[k]) by {
                assert(bytes::lower(n[k]) == bytes::lower(a[k]));
                assert(bytes::lower(a[k]) == bytes::lower(b[k]));
            }
        }
        if bytes::same_letters(n, b) {
            assert forall|k: int| 0 <= k < n.len() implies bytes::lower(#[trigger] n[k])
                == bytes::lower(a[k]) by {
                assert(bytes::lower(n[k]) == bytes::lower(b[k]));
                assert(bytes::lower(a[k]) == bytes::lower(b[k]));
            }
        }
    }
}

/// A name that is none of the known ones, in any case, is refused with -1,
/// and an empty one gives 0.
pub proof fn law_other_names_are_unknown(name: Seq<u8>)
    requires
        forall|i: int|
            0 <= i < EVENT_NAMES ==> !bytes::same_letters(#[trigger] event_name(i), name),
    ensures
        name.len() > 0 ==> one_event(name) == -1,
        name.len() == 0 ==> one_event(name) == 0,
{
    lemma_unknown(name, 0);
}

proof fn lemma_unknown(name: Seq<u8>, i: int)
    requires
        0 <= i <= EVENT_NAMES,
        forall|k: int|
            0 <= k < EVENT_NAMES ==> !bytes::same_letters(#[trigger] event_name(k), name),
    ensures
        flag_named(name, i) == -1,
    decreases EVENT_NAMES - i,
{
    if i < EVENT_NAMES {
        assert(!bytes::same_letters(event_name(i), name));
        lemma_unknown(name, i + 1);
    }
}

/// A letter, '_' or NUL separates no names: with it any list is refused.
pub proof fn law_letters_do_not_separate(list: Option<Seq<u8>>, sep: u8)
    requires
        sep == 0 || sep == '_' as u8 || 'A' as u8 <= sep <= 'Z' as u8 || 'a' as u8 <= sep
            <= 'z' as u8,
    ensures
        events_of(list, sep) == -1,
{
}

proof fn lemma_hex_reads_back(v: nat, n: nat, bound: nat)
    requires
        n > 0 ==> bound >= 1,
        v < bound,
        bound == hex_bound(n),
    ensures
        bytes::number_of(hex_digits(v, n), 16) == v,
    decreases n,
{
    if n > 0 {
        let h = hex_digits(v, n);
        assert(h.drop_last() =~= hex_digits(v / 16, (n - 1) as nat));
        lemma_hex_reads_back(v / 16, (n - 1) as nat, hex_bound((n - 1) as nat));
    }
}

/// 16 to the `n`.
spec fn hex_bound(n: nat) -> nat
    decreases n,
{
    if n == 0 {
        1
    } else {
        16 * hex_bound((n - 1) as nat)
    }
}

proof fn lemma_hex_len(v: nat, n: nat)
    ensures
        hex_digits(v, n).len() == n,
    decreases n,
{
    if n > 0 {
        lemma_hex_len(v / 16, (n - 1) as nat);
    }
}

/// A mask without any named event is shown as "0x" and eight hexadecimal
/// digits from which it reads back.
pub proof fn law_unnamed_mask_is_hexadecimal(events: i32, sep: u8)
    requires
        forall|k: int| 0 <= k < SHOWN_NAMES ==> (#[trigger] event_flag(k)) & events == 0,
    ensures
        shown_events(events, sep).len() == 10,
        shown_events(events, sep)[0] == '0' as u8,
        shown_events(events, sep)[1] == 'x' as u8,
        bytes::number_of(shown_events(events, sep).skip(2), 16) == events as u32,
{
    lemma_nothing_named(events, sep, 0);
    reveal_strlit("0x");
    bytes::lemma_lit("0x");
    let v = events as u32 as nat;
    reveal_with_fuel(hex_bound, 9);
    assert(hex_bound(8) == 0x1_0000_0000);
    lemma_hex_len(v, 8);
    lemma_hex_reads_back(v, 8, hex_bound(8));
    assert(shown_events(events, sep).skip(2) =~= hex_digits(v, 8));
}

proof fn lemma_nothing_named(events: i32, sep: u8, i: int)
    requires
        0 <= i <= SHOWN_NAMES,
        forall|k: int| 0 <= k < SHOWN_NAMES ==> (#[trigger] event_flag(k)) & events == 0,
    ensures
        shown_from(events, sep, i).len() == 0,
    decreases SHOWN_NAMES - i,
{
    if i < SHOWN_NAMES {
        assert(event_flag(i) & events == 0);
        lemma_nothing_named(events, sep, i + 1);
    }
}

proof fn lemma_shown_from_len(events: i32, sep: u8, i: int)
    requires
        0 <= i <= SHOWN_NAMES,
    ensures
        shown_from(events, sep, i).len() <= 14 * (SHOWN_NAMES - i),
    decreases SHOWN_NAMES - i,
{
    if i < SHOWN_NAMES {
        lemma_spelling(i);
        lemma_shown_from_len(events, sep, i + 1);
    }
}

/// Event masks are shown briefly.
pub proof fn lemma_shown_short(events: i32, sep: u8)
    ensures
        0 < shown_events(events, sep).len() <= 252,
{
    lemma_shown_from_len(events, sep, 0);
    lemma_hex_len(events as u32 as nat, 8);
    reveal_strlit("0x");
    bytes::lemma_lit("0x");
    lemma_shown_first(events, sep, 0);
}

proof fn lemma_shown_first(events: i32, sep: u8, i: int)
    requires
        0 <= i <= SHOWN_NAMES,
    ensures
        shown_from(events, sep, i).len() != 1,
    decreases SHOWN_NAMES - i,
{
    if i < SHOWN_NAMES {
        lemma_spelling(i);
        lemma_shown_first(events, sep, i + 1);
    }
}

proof fn lemma_flags_are_not_zero(name: Seq<u8>, i: int)
    requires
        0 <= i <= EVENT_NAMES,
    ensures
        flag_named(name, i) != 0,
    decreases EVENT_NAMES - i,
{
    if i < EVENT_NAMES {
        lemma_flags_are_not_zero(name, i + 1);
    }
}

/// Two names stand for the bits of both.
pub proof fn law_two_names_mean_both(a: Seq<u8>, b: Seq<u8>, sep: u8)
    requires
        is_separator(sep),
        is_plain(a, sep),
        is_plain(b, sep),
        a.len() > 0,
        b.len() > 0,
    ensures
        ({
            let mask = events_of(Some(a + seq![sep] + b), sep);
            let m = one_event(a);
            let n = one_event(b);
            &&& m == -1 ==> mask == -1
            &&& m != -1 && n == -1 ==> mask == -1
            &&& m != -1 && n != -1 ==> mask == m | n
        }),
        events_of(Some(a), sep) == one_event(a),
        events_of(None, sep) == 0,
        events_of(Some(Seq::empty()), sep) == 0,
{
    let two = seq![a, b];
    let one = seq![a];
    law_list_means_its_names(two, sep);
    law_list_means_its_names(one, sep);
    assert(two.skip(1) =~= seq![b]);
    assert(one.skip(1) =~= Seq::empty());
    assert(two.skip(1).skip(1) =~= Seq::empty());
    assert(joined(two.skip(1), sep) == b);
    assert(joined(two, sep) == a + seq![sep] + b);
    assert(joined(one, sep) == a);
    reveal_with_fuel(events_of_list, 3);
    let m = one_event(a);
    let n = one_event(b);
    lemma_flags_are_not_zero(a, 0);
    lemma_flags_are_not_zero(b, 0);
    assert(0i32 | m == m) by (bit_vector);
    let none = Seq::<u8>::empty();
    assert(none.take(0) =~= none);
    assert(bytes::c_str(none) =~= none);
}

/// An empty name among others spoils the whole list: it gives 0.
pub proof fn law_empty_names_spoil_a_list(a: Seq<u8>, sep: u8)
    requires
        is_separator(sep),
        is_plain(a, sep),
        one_event(a) != -1,
        one_event(a) != 0,
    ensures
        events_of(Some(a.push(sep)), sep) == 0,
        events_of(Some(seq![sep] + a), sep) == 0,
{
    let none = Seq::<u8>::empty();
    let x = seq![a, none];
    let y = seq![none, a];
    assert(is_plain(none, sep));
    law_list_means_its_names(x, sep);
    law_list_means_its_names(y, sep);
    assert(x.skip(1) =~= seq![none]);
    assert(y.skip(1) =~= seq![a]);
    assert(joined(x.skip(1), sep) == none);
    assert(joined(y.skip(1), sep) == a);
    assert(joined(x, sep) =~= a.push(sep));
    assert(joined(y, sep) =~= seq![sep] + a);
    reveal_with_fuel(events_of_list, 3);
}

/// Texts one behind the other.
pub open spec fn run_together(list: Seq<Seq<u8>>) -> Seq<u8>
    decreases list.len(),
{
    if list.len() == 0 {
        Seq::empty()
    } else {
        list[0] + run_together(list.skip(1))
    }
}

proof fn lemma_run_together(events: i32, i: int)
    requires
        0 <= i <= SHOWN_NAMES,
    ensures
        shown_from(events, 0, i) == run_together(names_in(events, i)),
    decreases SHOWN_NAMES - i,
{
    if i < SHOWN_NAMES {
        lemma_run_together(events, i + 1);
        if event_flag(i) & events != 0 {
            let rest = names_in(events, i + 1);
            let all = names_in(events, i);
            assert(all.skip(1) =~= rest);
            assert(Seq::<u8>::empty() + event_name(i) =~= event_name(i));
        }
    }
}

/// NUL does not separate names: they run together, and what stands first in
/// place of a separator is left out.
pub proof fn law_nul_does_not_separate_names(events: i32)
    ensures
        ({
            let text = run_together(names_in(events, 0));
            text.len() > 0 ==> shown_events(events, 0) == text.skip(1)
        }),
{
    lemma_run_together(events, 0);
}

} // verus!
