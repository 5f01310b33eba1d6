//! File identifiers and message pieces.

use inotifytools::bytes::cstring;
use inotifytools::bytes::put_numeral;
use inotifytools::bytes::Piece;
use inotifytools::fid::aligned_handle;
use inotifytools::fid::fsid_key;
use inotifytools::fid::fsid_val;
use inotifytools::fid::handle_bytes;
use inotifytools::fid::hdr_len;
use inotifytools::fid::info_type;
use inotifytools::fid::set_hdr_len;
use inotifytools::fid::set_info_type;
use inotifytools::fid::FidKey;
use inotifytools::order::ByteOrder;

/// A fid with an eight byte handle and a name.
fn sample() -> Vec<u8> {
    let mut f = vec![2, 0, 33, 0, 1, 2, 3, 4, 5, 6, 7, 8, 8, 0, 0, 0, 1, 0, 0, 0];
    f.extend_from_slice(&[9; 8]);
    f.extend_from_slice(b"name\0");
    f
}

#[test]
fn fields_of_a_fid() {
    let mut f = sample();
    assert_eq!(info_type(&f), 2);
    assert_eq!(hdr_len(&f, ByteOrder::Little), 33);
    assert_eq!(hdr_len(&f, ByteOrder::Big), 33 << 8);
    assert_eq!(fsid_val(&f, 0, ByteOrder::Little), 0x0403_0201);
    assert_eq!(fsid_val(&f, 1, ByteOrder::Big), 0x0506_0708);
    assert_eq!(handle_bytes(&f, ByteOrder::Little), 8);
    set_info_type(&mut f, 3);
    set_hdr_len(&mut f, 0x0102, ByteOrder::Big);
    assert_eq!(&f[..4], &[3, 0, 1, 2]);
    assert_eq!(info_type(&[]), 0);
    assert_eq!(hdr_len(&[1, 0, 7], ByteOrder::Little), 7);
}

#[test]
fn keys_are_the_first_bytes() {
    let f = sample();
    let mut longer = f.clone();
    longer.extend_from_slice(b"ignored");
    assert_eq!(FidKey::new(&f, ByteOrder::Little), FidKey::new(&longer, ByteOrder::Little));
    let mut other = f.clone();
    other[20] = 8;
    assert_ne!(FidKey::new(&f, ByteOrder::Little), FidKey::new(&other, ByteOrder::Little));
    // A key is completed with zeros.
    assert_eq!(FidKey::new(&[1, 0, 6, 0, 5], ByteOrder::Little).into_bytes(), [1, 0, 6, 0, 5, 0]);
}

#[test]
fn filesystems_have_keys() {
    let f = sample();
    let mut g = f.clone();
    g[0] = 1;
    g[25] = 0;
    assert_eq!(fsid_key(&f, ByteOrder::Little), fsid_key(&g, ByteOrder::Little));
    g[5] = 0;
    assert_ne!(fsid_key(&f, ByteOrder::Little), fsid_key(&g, ByteOrder::Little));
    assert_eq!(
        fsid_key(&f, ByteOrder::Little),
        [1, 0, 20, 0, 1, 2, 3, 4, 5, 6, 7, 8, 0, 0, 0, 0, 0, 0, 0, 0]
    );
}

#[test]
fn handles_are_aligned() {
    let f = sample();
    assert_eq!(
        aligned_handle(&f, ByteOrder::Little),
        vec![8, 1, 0x0909_0909, 0x0909_0909, 0]
    );
    assert_eq!(aligned_handle(&[0; 4], ByteOrder::Little), vec![0, 0, 0]);
}

#[test]
fn pieces_of_messages() {
    let mut v = Vec::new();
    "a".put(&mut v);
    String::from("b").put(&mut v);
    b"c"[..].put(&mut v);
    b"de".put(&mut v);
    vec![b'f'].put(&mut v);
    (&"g").put(&mut v);
    'h'.put(&mut v);
    (-12i32).put(&mut v);
    i64::MIN.put(&mut v);
    0u32.put(&mut v);
    u64::MAX.put(&mut v);
    7usize.put(&mut v);
    (-7isize).put(&mut v);
    65535u16.put(&mut v);
    255u8.put(&mut v);
    '\u{e9}'.put(&mut v);
    assert_eq!(
        v,
        "abcdefgh-12-9223372036854775808018446744073709551615\
7-765535255\u{e9}"
            .as_bytes()
    );
    let mut v = Vec::new();
    put_numeral(&mut v, 0xbeef, 16);
    assert_eq!(v, b"beef");
    assert_eq!(cstring(b"a\0b"), b"a");
}
