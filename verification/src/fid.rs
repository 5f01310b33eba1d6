//! Byte-level helpers for fanotify file identifiers.
//!
//! A "fid" here is the raw bytes of a kernel `fanotify_event_info_fid`
//! record:
//!
//! ```text
//! offset  size  field
//!      0     1  info.hdr.info_type
//!      1     1  info.hdr.pad
//!      2     2  info.hdr.len        (length of the whole record)
//!      4     8  info.fsid           (two 32-bit ints)
//!     12     4  handle.handle_bytes
//!     16     4  handle.handle_type
//!     20     *  handle.f_handle     (handle_bytes bytes, then an optional
//!                                    NUL-terminated name for DFID_NAME)
//! ```
//!
//! Integers are in the byte order of the machine, which every function here
//! takes as an argument.  Watches are keyed by the first `hdr.len` bytes,
//! ordered by length then bytes.

use vstd::prelude::*;

use crate::bytes;
use crate::order;
use crate::order::ByteOrder;

verus! {

pub const FAN_REPORT_FID: u32 = 0x0000_0200;
/// `FAN_REPORT_DIR_FID | FAN_REPORT_NAME`
pub const FAN_REPORT_DFID_NAME: u32 = 0x0000_0c00;
pub const FAN_MARK_ADD: u32 = 0x0000_0001;
pub const FAN_MARK_DONT_FOLLOW: u32 = 0x0000_0004;
pub const FAN_MARK_INODE: u32 = 0x0000_0000;
pub const FAN_MARK_FILESYSTEM: u32 = 0x0000_0100;
pub const FAN_EVENT_ON_CHILD: i32 = 0x0800_0000;

pub const FAN_EVENT_INFO_TYPE_FID: u8 = 1;
pub const FAN_EVENT_INFO_TYPE_DFID_NAME: u8 = 2;
pub const FAN_EVENT_INFO_TYPE_DFID: u8 = 3;

/// Length of a fid up to the handle itself.
pub const FID_HDR: usize = 20;
/// Offset of the `struct file_handle` inside a fid.
pub const HANDLE_OFF: usize = 12;
/// Maximum file handle size we encode ourselves.
pub const MAX_FID_LEN: usize = 20;
/// `sizeof(struct fanotify_event_metadata)`
pub const META_LEN: usize = 24;

/// The `hdr.len` field of a fid.
pub open spec fn len_of(f: Seq<u8>, order: ByteOrder) -> u16 {
    order.u16_at(f, 2)
}

/// The `handle.handle_bytes` field of a fid.
pub open spec fn handle_of(f: Seq<u8>, order: ByteOrder) -> u32 {
    order.u32_at(f, 12)
}

/// The bytes a fid is looked up by: its first `hdr.len` bytes, completed
/// with zeros if the fid is shorter.
pub open spec fn key_of(f: Seq<u8>, order: ByteOrder) -> Seq<u8> {
    Seq::new(len_of(f, order) as nat, |i: int| bytes::at(f, i))
}

/// The fid that identifies just the filesystem of `f`.
pub open spec fn fsid_key_of(f: Seq<u8>, order: ByteOrder) -> Seq<u8> {
    seq![FAN_EVENT_INFO_TYPE_FID, 0] + order.u16_bytes(FID_HDR as u16) + Seq::new(
        8,
        |i: int| bytes::at(f, 4 + i),
    ) + Seq::new(8, |i: int| 0u8)
}

/// Whether a file handle is short enough for its length to be counted in a C
/// `int`, header included.
pub open spec fn handle_fits(f: Seq<u8>, order: ByteOrder) -> bool {
    handle_of(f, order) <= i32::MAX - FID_HDR
}

pub fn info_type(f: &[u8]) -> (t: u8)
    ensures
        t == bytes::at(f@, 0),
{
    bytes::get(f, 0)
}

pub fn set_info_type(f: &mut [u8], t: u8)
    requires
        old(f)@.len() > 0,
    ensures
        final(f)@ == old(f)@.update(0, t),
{
    f[0] = t;
}

pub fn hdr_len(f: &[u8], order: ByteOrder) -> (len: u16)
    ensures
        len == len_of(f@, order),
{
    order.read_u16(f, 2)
}

pub fn set_hdr_len(f: &mut [u8], len: u16, order: ByteOrder)
    requires
        old(f)@.len() >= 4,
    ensures
        final(f)@ == order::overwrite(old(f)@, 2, order.u16_bytes(len)),
        len_of(final(f)@, order) == len,
{
    order.write_u16(f, 2, len);
}

/// The first (`i` = 0) or second (`i` = 1) half of the filesystem id.
pub fn fsid_val(f: &[u8], i: usize, order: ByteOrder) -> (v: u32)
    requires
        4 + 4 * i + 3 <= usize::MAX,
    ensures
        v == order.u32_at(f@, 4 + 4 * i),
{
    order.read_u32(f, 4 + 4 * i)
}

pub fn handle_bytes(f: &[u8], order: ByteOrder) -> (n: u32)
    ensures
        n == handle_of(f@, order),
{
    order.read_u32(f, 12)
}

/// Lookup key for a fid: `(hdr.len, first hdr.len bytes)`.
#[derive(Clone, PartialEq, Eq, PartialOrd, Ord, Debug)]
pub struct FidKey {
    len: u16,
    bytes: Vec<u8>,
}

impl View for FidKey {
    type V = Seq<u8>;

    closed spec fn view(&self) -> Seq<u8> {
        self.bytes@
    }
}

impl FidKey {
    pub closed spec fn spec_len(&self) -> u16 {
        self.len
    }

    pub fn new(f: &[u8], order: ByteOrder) -> (key: FidKey)
        ensures
            key@ == key_of(f@, order),
            key.spec_len() == len_of(f@, order),
    {
        let len = hdr_len(f, order);
        let n: usize = len as usize;
        let mut b: Vec<u8> = Vec::new();
        let mut i: usize = 0;
        while i < n
            invariant
                i <= n,
                b@ == Seq::new(i as nat, |j: int| bytes::at(f@, j)),
            decreases n - i,
        {
            b.push(bytes::get(f, i));
            i = i + 1;
            assert(b@ =~= Seq::new(i as nat, |j: int| bytes::at(f@, j)));
        }
        FidKey { len, bytes: b }
    }

    /// The key's bytes.
    pub fn into_bytes(self) -> (b: Vec<u8>)
        ensures
            b@ == self@,
    {
        self.bytes
    }
}

/// A fid 20 bytes long identifying just a filesystem (fsid with a null file
/// handle); used to look up the mount fd of a filesystem.
pub fn fsid_key(f: &[u8], order: ByteOrder) -> (k: Vec<u8>)
    ensures
        k@ == fsid_key_of(f@, order),
        key_of(k@, order) == k@,
{
    let mut k: Vec<u8> = vec![0u8;FID_HDR];
    let mut i: usize = 0;
    while i < 8
        invariant
            i <= 8,
            k@.len() == FID_HDR,
            forall|j: int| 0 <= j < 4 ==> k@[j] == 0,
            forall|j: int| 4 <= j < 4 + i ==> #[trigger] k@[j] == bytes::at(f@, j),
            forall|j: int| 4 + i <= j < k@.len() ==> k@[j] == 0,
        decreases 8 - i,
    {
        k[4 + i] = bytes::get(f, 4 + i);
        i = i + 1;
    }
    k[0] = FAN_EVENT_INFO_TYPE_FID;
    order.write_u16(k.as_mut_slice(), 2, FID_HDR as u16);
    assert(k@ =~= fsid_key_of(f@, order));
    assert(len_of(k@, order) == FID_HDR);
    assert(key_of(k@, order) =~= k@);
    k
}

/// Number of 32-bit words that hold the `struct file_handle` of a fid, with
/// one word to spare.
pub open spec fn handle_words(f: Seq<u8>, order: ByteOrder) -> int {
    (8 + handle_of(f, order) + 3) / 4 + 1
}

/// The `struct file_handle` part of a fid, completed with zeros.
pub open spec fn handle_part(f: Seq<u8>, order: ByteOrder) -> Seq<u8> {
    Seq::new((8 + handle_of(f, order)) as nat, |i: int| bytes::at(f, HANDLE_OFF + i))
}

/// The `struct file_handle` part of a fid in 32-bit words.
pub open spec fn aligned(f: Seq<u8>, order: ByteOrder) -> Seq<u32> {
    Seq::new(
        handle_words(f, order) as nat,
        |i: int| order.u32_at(handle_part(f, order), 4 * i),
    )
}

/// Copy the `struct file_handle` part of a fid into 32-bit words, so that it
/// is suitably aligned for `open_by_handle_at()`.
pub fn aligned_handle(f: &[u8], order: ByteOrder) -> (h: Vec<u32>)
    requires
        FID_HDR + handle_of(f@, order) <= usize::MAX,
    ensures
        h@ == aligned(f@, order),
{
    let n: usize = 8 + handle_bytes(f, order) as usize;
    let words: usize = (n + 3) / 4 + 1;
    let mut part: Vec<u8> = Vec::new();
    let mut i: usize = 0;
    while i < n
        invariant
            i <= n,
            n == 8 + handle_of(f@, order),
            HANDLE_OFF + n <= usize::MAX,
            part@ == Seq::new(i as nat, |j: int| bytes::at(f@, HANDLE_OFF + j)),
        decreases n - i,
    {
        part.push(bytes::get(f, HANDLE_OFF + i));
        i = i + 1;
        assert(part@ =~= Seq::new(i as nat, |j: int| bytes::at(f@, HANDLE_OFF + j)));
    }
    assert(part@ =~= handle_part(f@, order));
    let mut h: Vec<u32> = Vec::new();
    let mut w: usize = 0;
    while w < words
        invariant
            w <= words,
            HANDLE_OFF + n <= usize::MAX,
            words == (n + 3) / 4 + 1,
            part@ == handle_part(f@, order),
            h@ == Seq::new(w as nat, |j: int| order.u32_at(part@, 4 * j)),
        decreases words - w,
    {
        h.push(order.read_u32(part.as_slice(), 4 * w));
        w = w + 1;
        assert(h@ =~= Seq::new(w as nat, |j: int| order.u32_at(part@, 4 * j)));
    }
    assert(h@ =~= aligned(f@, order));
    h
}

/// Two fids have the same key exactly when their keys have the same bytes:
/// the length adds nothing, it is that of the bytes.
pub proof fn law_fid_key_is_its_bytes(a: FidKey, b: FidKey, f: Seq<u8>, g: Seq<u8>, order: ByteOrder)
    requires
        a@ == key_of(f, order),
        a.spec_len() == len_of(f, order),
        b@ == key_of(g, order),
        b.spec_len() == len_of(g, order),
    ensures
        a@ == b@ ==> a.spec_len() == b.spec_len(),
        a@.len() == a.spec_len(),
{
}

/// Fids of one filesystem share the key that identifies it, and fids of
/// different filesystems do not.
pub proof fn law_fsid_key_identifies_filesystem(f: Seq<u8>, g: Seq<u8>, order: ByteOrder)
    ensures
        fsid_key_of(f, order) == fsid_key_of(g, order) <==> forall|i: int|
            4 <= i < 12 ==> bytes::at(f, i) == bytes::at(g, i),
{
    let kf = fsid_key_of(f, order);
    let kg = fsid_key_of(g, order);
    if kf == kg {
        assert forall|i: int| 4 <= i < 12 implies bytes::at(f, i) == bytes::at(g, i) by {
            assert(kf[i] == kg[i]);
        }
    } else {
        if forall|i: int| 4 <= i < 12 ==> bytes::at(f, i) == bytes::at(g, i) {
            assert forall|i: int| 0 <= i < kf.len() implies kf[i] == kg[i] by {
                if 4 <= i < 12 {
                    assert(bytes::at(f, i) == bytes::at(g, i));
                }
            }
            assert(kf =~= kg);
        }
    }
}

/// A file handle in words has the bytes of the file identifier, in their
/// order.
pub proof fn law_aligned_handle_has_the_bytes(f: Seq<u8>, order: ByteOrder, i: int)
    requires
        f.len() >= FID_HDR + handle_of(f, order),
        0 <= i,
        4 * i + 4 <= 8 + handle_of(f, order),
    ensures
        4 * aligned(f, order).len() >= 8 + handle_of(f, order),
        order.u32_bytes(aligned(f, order)[i]) == f.subrange(12 + 4 * i, 16 + 4 * i),
{
    let part = handle_part(f, order);
    let at = 4 * i;
    let v = order.u32_at(part, at);
    assert(aligned(f, order)[i] == v);
    let s = f.subrange(12 + at, 16 + at);
    assert(part.subrange(at, at + 4) =~= s);
    order::lemma_u32_bytes(order, part, at);
}

/// The key of a file identifier is as much of it as its length says.
pub proof fn law_key_is_as_long_as_said(f: Seq<u8>, order: ByteOrder)
    requires
        f.len() >= len_of(f, order),
    ensures
        key_of(f, order) == f.take(len_of(f, order) as int),
{
    assert(key_of(f, order) =~= f.take(len_of(f, order) as int));
}

/// The identifier of a filesystem is 20 bytes: of the kind of a file, with
/// the filesystem and an empty file handle.
pub proof fn law_filesystem_identifier(f: Seq<u8>, order: ByteOrder)
    requires
        f.len() >= 12,
    ensures
        ({
            let k = fsid_key_of(f, order);
            &&& k.len() == 20
            &&& k[0] == 1
            &&& len_of(k, order) == 20
            &&& k.subrange(4, 12) == f.subrange(4, 12)
            &&& k.skip(12) == Seq::new(8, |i: int| 0u8)
        }),
{
    let k = fsid_key_of(f, order);
    assert(k.subrange(4, 12) =~= f.subrange(4, 12));
    assert(k.skip(12) =~= Seq::new(8, |i: int| 0u8));
    let b = order.u16_bytes(FID_HDR as u16);
    assert(k[2] == b[0] && k[3] == b[1]);
}

/// A file handle in words has just the words it needs and one to spare, and
/// behind its bytes there are zeros.
pub proof fn law_aligned_handle_has_a_word_to_spare(f: Seq<u8>, order: ByteOrder)
    ensures
        ({
            let n = 8 + handle_of(f, order);
            let words = aligned(f, order).len();
            &&& 4 * (words - 1) >= n
            &&& 4 * (words - 2) < n
            &&& aligned(f, order)[words - 1] == 0
        }),
{
    let part = handle_part(f, order);
    let at = 4 * (aligned(f, order).len() - 1);
    assert(bytes::at(part, at) == 0 && bytes::at(part, at + 1) == 0 && bytes::at(part, at + 2) == 0
        && bytes::at(part, at + 3) == 0);
}

} // verus!
