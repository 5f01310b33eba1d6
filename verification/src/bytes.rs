//! Byte strings.  Paths are arbitrary bytes (not necessarily UTF-8), so names
//! and messages are handled and assembled as bytes.

use vstd::prelude::*;
use vstd::utf8::*;

verus! {

/// The bytes of a string literal.
pub open spec fn lit(s: &str) -> Seq<u8> {
    encode_utf8(s@)
}

/// Byte `i` of `s`, or 0 outside of it.
pub open spec fn at(s: Seq<u8>, i: int) -> u8 {
    if 0 <= i < s.len() {
        s[i]
    } else {
        0
    }
}

/// Position of the first `c` in `s`, or the length of `s`.
pub open spec fn first_at(s: Seq<u8>, c: u8) -> int
    decreases s.len(),
{
    if s.len() == 0 || s[0] == c {
        0
    } else {
        1 + first_at(s.skip(1), c)
    }
}

/// Position of the last `c` in `s`, or -1.
pub open spec fn last_at(s: Seq<u8>, c: u8) -> int
    decreases s.len(),
{
    if s.len() == 0 {
        -1
    } else if s.last() == c {
        s.len() - 1
    } else {
        last_at(s.drop_last(), c)
    }
}

/// What a C string function sees of `s`: the bytes before the first NUL.
pub open spec fn c_str(s: Seq<u8>) -> Seq<u8> {
    s.take(first_at(s, 0))
}

pub open spec fn starts_with(s: Seq<u8>, prefix: Seq<u8>) -> bool {
    prefix.len() <= s.len() && s.take(prefix.len() as int) == prefix
}

/// ASCII lower case.
pub open spec fn lower(c: u8) -> u8 {
    if 65 <= c <= 90 {
        (c + 32) as u8
    } else {
        c
    }
}

/// Equality up to ASCII case.
pub open spec fn same_letters(a: Seq<u8>, b: Seq<u8>) -> bool {
    a.len() == b.len() && forall|i: int|
        0 <= i < a.len() ==> lower(#[trigger] a[i]) == lower(b[i])
}

/// ASCII digit of a value below 16.
pub open spec fn digit(d: nat) -> u8 {
    if d < 10 {
        (48 + d) as u8
    } else {
        (87 + d) as u8
    }
}

/// `n` in the given base, most significant digit first, without leading
/// zeros (0 is "0").
pub open spec fn numeral(n: nat, base: nat) -> Seq<u8>
    decreases n,
{
    if base < 2 || n < base {
        seq![digit(n)]
    } else {
        proof {
            vstd::arithmetic::div_mod::lemma_div_decreases(n as int, base as int);
        }
        numeral(n / base, base).push(digit(n % base))
    }
}

pub open spec fn decimal(n: int) -> Seq<u8> {
    if n < 0 {
        seq![45u8] + numeral((-n) as nat, 10)
    } else {
        numeral(n as nat, 10)
    }
}

pub open spec fn spaces(n: int) -> Seq<u8> {
    Seq::new(
        if n < 0 {
            0
        } else {
            n as nat
        },
        |i: int| 32u8,
    )
}

/// The plain bytes of an optional byte vector.
pub open spec fn opt_bytes(o: Option<Vec<u8>>) -> Option<Seq<u8>> {
    match o {
        Some(v) => Some(v@),
        None => None,
    }
}

/// The contents of a list of byte vectors.
pub open spec fn names(v: Seq<Vec<u8>>) -> Seq<Seq<u8>> {
    v.map_values(|n: Vec<u8>| n@)
}

/// The bytes of an ASCII literal are its characters.
pub proof fn lemma_lit(s: &str)
    requires
        is_ascii_chars(s@),
    ensures
        lit(s).len() == s@.len(),
        forall|i: int| 0 <= i < s@.len() ==> #[trigger] lit(s)[i] == s@[i] as u8,
{
    is_ascii_chars_encode_utf8(s@);
}

/// `first_at` is the first position: nothing before it matches, and it either
/// matches or is the end.
pub proof fn lemma_first_at(s: Seq<u8>, c: u8)
    ensures
        0 <= first_at(s, c) <= s.len(),
        forall|i: int| 0 <= i < first_at(s, c) ==> s[i] != c,
        first_at(s, c) < s.len() ==> s[first_at(s, c)] == c,
    decreases s.len(),
{
    if s.len() == 0 || s[0] == c {
    } else {
        let t = s.skip(1);
        lemma_first_at(t, c);
        assert forall|i: int| 0 <= i < first_at(s, c) implies s[i] != c by {
            if i > 0 {
                assert(t[i - 1] == s[i]);
            }
        }
    }
}

/// The only position with the properties of `first_at` is `first_at`.
pub proof fn lemma_first_at_unique(s: Seq<u8>, c: u8, n: int)
    requires
        0 <= n <= s.len(),
        forall|i: int| 0 <= i < n ==> s[i] != c,
        n < s.len() ==> s[n] == c,
    ensures
        first_at(s, c) == n,
{
    lemma_first_at(s, c);
    let k = first_at(s, c);
    if k < n {
        assert(s[k] == c);
    } else if n < k {
        assert(s[n] == c);
    }
}

/// Adding bytes behind a `c` does not move the first `c`.
pub proof fn lemma_first_at_concat(a: Seq<u8>, b: Seq<u8>, c: u8)
    requires
        first_at(a, c) == a.len(),
    ensures
        first_at(a + b, c) == a.len() + first_at(b, c),
{
    lemma_first_at(a, c);
    lemma_first_at(b, c);
    let n = a.len() + first_at(b, c);
    assert forall|i: int| 0 <= i < n implies (a + b)[i] != c by {
        if i < a.len() {
            assert((a + b)[i] == a[i]);
        } else {
            assert((a + b)[i] == b[i - a.len()]);
        }
    }
    lemma_first_at_unique(a + b, c, n);
}

/// A C string holds no NUL, so cutting it again changes nothing.
pub proof fn lemma_c_str_idempotent(s: Seq<u8>)
    ensures
        c_str(c_str(s)) == c_str(s),
        forall|i: int| 0 <= i < c_str(s).len() ==> c_str(s)[i] != 0,
{
    lemma_first_at(s, 0);
    lemma_first_at_unique(c_str(s), 0, c_str(s).len() as int);
    assert(c_str(c_str(s)) =~= c_str(s));
}

/// Strings without a NUL have none when put together.
pub proof fn lemma_c_str_concat(a: Seq<u8>, b: Seq<u8>)
    requires
        c_str(a) == a,
        c_str(b) == b,
    ensures
        c_str(a + b) == a + b,
{
    lemma_first_at(a, 0);
    lemma_first_at(b, 0);
    assert(first_at(a, 0) == a.len());
    assert(first_at(b, 0) == b.len());
    assert forall|j: int| 0 <= j < (a + b).len() implies (a + b)[j] != 0 by {
        if j < a.len() {
            assert(a[j] != 0);
        } else {
            assert(b[j - a.len()] != 0);
        }
    }
    lemma_first_at_unique(a + b, 0, (a + b).len() as int);
    assert((a + b).take((a + b).len() as int) =~= a + b);
}

/// `last_at` is the last position: it matches, and nothing behind it does.
pub proof fn lemma_last_at(s: Seq<u8>, c: u8)
    ensures
        -1 <= last_at(s, c) < s.len(),
        last_at(s, c) >= 0 ==> s[last_at(s, c)] == c,
        forall|i: int| last_at(s, c) < i < s.len() ==> s[i] != c,
    decreases s.len(),
{
    if s.len() == 0 || s.last() == c {
    } else {
        let t = s.drop_last();
        lemma_last_at(t, c);
        assert forall|i: int| last_at(s, c) < i < s.len() implies s[i] != c by {
            if i < s.len() - 1 {
                assert(t[i] == s[i]);
            }
        }
    }
}

/// The only position with the properties of `last_at` is `last_at`.
pub proof fn lemma_last_at_unique(s: Seq<u8>, c: u8, n: int)
    requires
        -1 <= n < s.len(),
        n >= 0 ==> s[n] == c,
        forall|i: int| n < i < s.len() ==> s[i] != c,
    ensures
        last_at(s, c) == n,
{
    lemma_last_at(s, c);
    let k = last_at(s, c);
    if k < n {
        assert(s[n] != c);
    } else if n < k {
        assert(s[k] != c);
    }
}

/// Position of the first `c` in `s`, or the length of `s`.
pub fn find_byte(s: &[u8], c: u8) -> (n: usize)
    ensures
        n == first_at(s@, c),
        n <= s@.len(),
{
    let mut i: usize = 0;
    while i < s.len() && s[i] != c
        invariant
            i <= s.len(),
            forall|j: int| 0 <= j < i ==> s@[j] != c,
        decreases s.len() - i,
    {
        i = i + 1;
    }
    proof {
        lemma_first_at_unique(s@, c, i as int);
    }
    i
}

/// Position of the last `c` in `s`.
pub fn rfind_byte(s: &[u8], c: u8) -> (n: Option<usize>)
    ensures
        n is None <==> last_at(s@, c) == -1,
        n matches Some(k) ==> k == last_at(s@, c) && k < s@.len(),
{
    let mut i: usize = s.len();
    while i > 0
        invariant
            i <= s.len(),
            forall|j: int| i <= j < s.len() ==> s@[j] != c,
        decreases i,
    {
        if s[i - 1] == c {
            proof {
                lemma_last_at_unique(s@, c, i - 1);
            }
            return Some(i - 1);
        }
        i = i - 1;
    }
    proof {
        lemma_last_at_unique(s@, c, -1);
    }
    None
}

/// Byte `off` of `f`, or 0 outside of it.
pub fn get(f: &[u8], off: usize) -> (b: u8)
    ensures
        b == at(f@, off as int),
{
    if off < f.len() {
        f[off]
    } else {
        0
    }
}

/// A copy of `b[from..to]`.
pub fn copy_range(b: &[u8], from: usize, to: usize) -> (v: Vec<u8>)
    requires
        from <= to <= b@.len(),
    ensures
        v@ == b@.subrange(from as int, to as int),
{
    let mut v: Vec<u8> = Vec::new();
    v.extend_from_slice(&b[from..to]);
    v
}

pub fn to_vec(b: &[u8]) -> (v: Vec<u8>)
    ensures
        v@ == b@,
{
    let mut v: Vec<u8> = Vec::new();
    v.extend_from_slice(b);
    v
}

/// The bytes of `b` before the first NUL, as a C string copy would take
/// them.
pub fn cstring(b: &[u8]) -> (v: Vec<u8>)
    ensures
        v@ == c_str(b@),
{
    let end = find_byte(b, 0);
    let v = copy_range(b, 0, end);
    assert(v@ =~= c_str(b@));
    v
}

pub fn bytes_eq(a: &[u8], b: &[u8]) -> (same: bool)
    ensures
        same == (a@ == b@),
{
    if a.len() != b.len() {
        return false;
    }
    let mut i: usize = 0;
    while i < a.len()
        invariant
            i <= a.len(),
            a.len() == b.len(),
            forall|j: int| 0 <= j < i ==> a@[j] == b@[j],
        decreases a.len() - i,
    {
        if a[i] != b[i] {
            return false;
        }
        i = i + 1;
    }
    assert(a@ =~= b@);
    true
}

pub fn has_prefix(s: &[u8], prefix: &[u8]) -> (yes: bool)
    ensures
        yes == starts_with(s@, prefix@),
{
    if prefix.len() > s.len() {
        return false;
    }
    let n: usize = prefix.len();
    let yes = bytes_eq(&s[0..n], prefix);
    assert(s@.subrange(0, n as int) =~= s@.take(n as int));
    yes
}

pub fn to_lower(c: u8) -> (l: u8)
    ensures
        l == lower(c),
{
    if 65 <= c && c <= 90 {
        c + 32
    } else {
        c
    }
}

/// Equality up to ASCII case.
pub fn eq_ignore_case(a: &[u8], b: &[u8]) -> (same: bool)
    ensures
        same == same_letters(a@, b@),
{
    if a.len() != b.len() {
        return false;
    }
    let mut i: usize = 0;
    while i < a.len()
        invariant
            i <= a.len(),
            a.len() == b.len(),
            forall|j: int| 0 <= j < i ==> lower(#[trigger] a@[j]) == lower(b@[j]),
        decreases a.len() - i,
    {
        if to_lower(a[i]) != to_lower(b[i]) {
            assert(lower(a@[i as int]) != lower(b@[i as int]));
            return false;
        }
        i = i + 1;
    }
    true
}

/// Write `n` in base `base` behind `v`.
pub fn put_numeral(v: &mut Vec<u8>, n: u64, base: u64)
    requires
        2 <= base <= 16,
    ensures
        final(v)@ == old(v)@ + numeral(n as nat, base as nat),
    decreases n,
{
    let d: u64 = n % base;
    if n >= base {
        proof {
            vstd::arithmetic::div_mod::lemma_div_decreases(n as int, base as int);
        }
        put_numeral(v, n / base, base);
    }
    let c: u8 = if d < 10 {
        48 + d as u8
    } else {
        87 + d as u8
    };
    proof {
        if n < base {
            vstd::arithmetic::div_mod::lemma_small_mod(n as nat, base as nat);
        }
    }
    v.push(c);
    assert(v@ =~= old(v)@ + numeral(n as nat, base as nat));
}

/// A copy of a list of byte strings.
pub fn copy_names(v: &Vec<Vec<u8>>) -> (copy: Vec<Vec<u8>>)
    ensures
        names(copy@) == names(v@),
{
    let mut copy: Vec<Vec<u8>> = Vec::new();
    let mut i: usize = 0;
    while i < v.len()
        invariant
            i <= v@.len(),
            copy@.len() == i,
            forall|j: int| 0 <= j < i ==> (#[trigger] copy@[j])@ == v@[j]@,
        decreases v@.len() - i,
    {
        copy.push(to_vec(v[i].as_slice()));
        i = i + 1;
    }
    assert(names(copy@) =~= names(v@));
    copy
}

/// The start of a message.
pub fn text(s: &str) -> (v: Vec<u8>)
    ensures
        v@ == lit(s),
{
    let mut v: Vec<u8> = Vec::new();
    v.extend_from_slice(s.as_bytes());
    assert(v@ =~= lit(s));
    v
}

/// Something that can be appended to a byte message.
pub trait Piece {
    /// The bytes this piece contributes.
    spec fn piece(&self) -> Seq<u8>;

    fn put(&self, v: &mut Vec<u8>)
        ensures
            final(v)@ == old(v)@ + self.piece(),
    ;
}

impl Piece for str {
    open spec fn piece(&self) -> Seq<u8> {
        lit(self)
    }

    fn put(&self, v: &mut Vec<u8>) {
        v.extend_from_slice(self.as_bytes());
        assert(v@ =~= old(v)@ + self.piece());
    }
}

impl Piece for String {
    open spec fn piece(&self) -> Seq<u8> {
        encode_utf8(self@)
    }

    fn put(&self, v: &mut Vec<u8>) {
        v.extend_from_slice(self.as_str().as_bytes());
        assert(v@ =~= old(v)@ + self.piece());
    }
}

impl Piece for [u8] {
    open spec fn piece(&self) -> Seq<u8> {
        self@
    }

    fn put(&self, v: &mut Vec<u8>) {
        v.extend_from_slice(self);
        assert(v@ =~= old(v)@ + self.piece());
    }
}

impl<const N: usize> Piece for [u8; N] {
    open spec fn piece(&self) -> Seq<u8> {
        self@
    }

    fn put(&self, v: &mut Vec<u8>) {
        v.extend_from_slice(self.as_slice());
        assert(v@ =~= old(v)@ + self.piece());
    }
}

impl Piece for Vec<u8> {
    open spec fn piece(&self) -> Seq<u8> {
        self@
    }

    fn put(&self, v: &mut Vec<u8>) {
        v.extend_from_slice(self.as_slice());
        assert(v@ =~= old(v)@ + self.piece());
    }
}

impl<T: Piece + ?Sized> Piece for &T {
    open spec fn piece(&self) -> Seq<u8> {
        (**self).piece()
    }

    fn put(&self, v: &mut Vec<u8>) {
        (**self).put(v);
    }
}

impl Piece for u64 {
    open spec fn piece(&self) -> Seq<u8> {
        decimal(*self as int)
    }

    fn put(&self, v: &mut Vec<u8>) {
        put_numeral(v, *self, 10);
    }
}

impl Piece for usize {
    open spec fn piece(&self) -> Seq<u8> {
        decimal(*self as int)
    }

    fn put(&self, v: &mut Vec<u8>) {
        put_numeral(v, *self as u64, 10);
    }
}

impl Piece for u32 {
    open spec fn piece(&self) -> Seq<u8> {
        decimal(*self as int)
    }

    fn put(&self, v: &mut Vec<u8>) {
        put_numeral(v, *self as u64, 10);
    }
}

impl Piece for u16 {
    open spec fn piece(&self) -> Seq<u8> {
        decimal(*self as int)
    }

    fn put(&self, v: &mut Vec<u8>) {
        put_numeral(v, *self as u64, 10);
    }
}

impl Piece for u8 {
    open spec fn piece(&self) -> Seq<u8> {
        decimal(*self as int)
    }

    fn put(&self, v: &mut Vec<u8>) {
        put_numeral(v, *self as u64, 10);
    }
}

impl Piece for i64 {
    open spec fn piece(&self) -> Seq<u8> {
        decimal(*self as int)
    }

    fn put(&self, v: &mut Vec<u8>) {
        if *self < 0 {
            v.push(45);
            let m: u64 = if *self == i64::MIN {
                0x8000_0000_0000_0000
            } else {
                (-*self) as u64
            };
            put_numeral(v, m, 10);
        } else {
            put_numeral(v, *self as u64, 10);
        }
        assert(v@ =~= old(v)@ + self.piece());
    }
}

impl Piece for isize {
    open spec fn piece(&self) -> Seq<u8> {
        decimal(*self as int)
    }

    fn put(&self, v: &mut Vec<u8>) {
        let n: i64 = *self as i64;
        n.put(v);
    }
}

impl Piece for i32 {
    open spec fn piece(&self) -> Seq<u8> {
        decimal(*self as int)
    }

    fn put(&self, v: &mut Vec<u8>) {
        let n: i64 = *self as i64;
        n.put(v);
    }
}

impl Piece for char {
    open spec fn piece(&self) -> Seq<u8> {
        encode_utf8(seq![*self])
    }

    fn put(&self, v: &mut Vec<u8>) {
        let c: u32 = *self as u32;
        proof {
            char_is_scalar(*self);
        }
        if c <= 0x7f {
            v.push((c & 0x7f) as u8);
        } else if c <= 0x7ff {
            v.push(0xc0 | ((c >> 6) & 0x1f) as u8);
            v.push(0x80 | (c & 0x3f) as u8);
        } else if c <= 0xffff {
            v.push(0xe0 | ((c >> 12) & 0xf) as u8);
            v.push(0x80 | ((c >> 6) & 0x3f) as u8);
            v.push(0x80 | (c & 0x3f) as u8);
        } else {
            v.push(0xf0 | ((c >> 18) & 0x7) as u8);
            v.push(0x80 | ((c >> 12) & 0x3f) as u8);
            v.push(0x80 | ((c >> 6) & 0x3f) as u8);
            v.push(0x80 | (c & 0x3f) as u8);
        }
        assert(seq![*self].drop_first() =~= Seq::<char>::empty());
        assert(encode_utf8(seq![*self].drop_first()) =~= Seq::<u8>::empty());
        assert(self.piece() =~= encode_scalar(c));
        assert(v@ =~= old(v)@ + self.piece());
    }
}

/// The value of a digit.
pub open spec fn digit_value(c: u8) -> int {
    if '0' as u8 <= c <= '9' as u8 {
        c - '0' as u8
    } else {
        c - 'a' as u8 + 10
    }
}

/// The number that digits stand for.
pub open spec fn number_of(digits: Seq<u8>, base: int) -> int
    decreases digits.len(),
{
    if digits.len() == 0 {
        0
    } else {
        number_of(digits.drop_last(), base) * base + digit_value(digits.last())
    }
}

/// A number reads back from its digits, which are digits of the base and do
/// not begin with a zero, but for 0 itself.
pub proof fn law_numeral_reads_back(n: nat, base: nat)
    requires
        2 <= base <= 16,
    ensures
        number_of(numeral(n, base), base as int) == n,
        numeral(n, base).len() > 0,
        n > 0 ==> numeral(n, base)[0] != '0' as u8,
        forall|i: int|
            0 <= i < numeral(n, base).len() ==> ('0' as u8 <= #[trigger] numeral(n, base)[i] <= '9' as u8
                || 'a' as u8 <= numeral(n, base)[i] <= 'f' as u8) && 0 <= digit_value(
                numeral(n, base)[i],
            ) < base,
    decreases n,
{
    let s = numeral(n, base);
    if n < base {
        assert(s.drop_last() =~= Seq::empty());
        assert(number_of(s.drop_last(), base as int) == 0);
        assert(0 * base == 0) by (nonlinear_arith);
    } else {
        vstd::arithmetic::div_mod::lemma_div_decreases(n as int, base as int);
        law_numeral_reads_back(n / base, base);
        let d = n % base;
        assert(s.drop_last() =~= numeral(n / base, base));
        vstd::arithmetic::div_mod::lemma_fundamental_div_mod(n as int, base as int);
        assert(n / base >= 1) by (nonlinear_arith)
            requires
                n >= base,
                base >= 2,
        ;
        assert((n / base) * base == base * (n / base)) by (nonlinear_arith);
        assert(0 <= d < base) by (nonlinear_arith)
            requires
                base >= 2,
                d == n % base,
        ;
        assert(s[0] == numeral(n / base, base)[0]);
        assert forall|i: int| 0 <= i < s.len() implies ('0' as u8 <= #[trigger] s[i] <= '9' as u8
            || 'a' as u8 <= s[i] <= 'f' as u8) && 0 <= digit_value(s[i]) < base by {
            if i < s.len() - 1 {
                assert(s[i] == numeral(n / base, base)[i]);
            }
        }
    }
}

/// A number in decimal reads back, its sign from a '-' in front.
pub proof fn law_decimal_reads_back(n: int)
    ensures
        n >= 0 ==> number_of(decimal(n), 10) == n && decimal(n)[0] != '-' as u8,
        n < 0 ==> decimal(n)[0] == '-' as u8 && number_of(decimal(n).skip(1), 10) == -n,
{
    if n >= 0 {
        law_numeral_reads_back(n as nat, 10);
        let s = numeral(n as nat, 10);
        assert('0' as u8 <= s[0] || 'a' as u8 <= s[0]);
    } else {
        law_numeral_reads_back((-n) as nat, 10);
        assert(decimal(n).skip(1) =~= numeral((-n) as nat, 10));
    }
}

/// What a C string function sees of a text is the text up to its first NUL,
/// or all of it if there is none.
pub proof fn law_c_string_ends_before_nul(text: Seq<u8>, rest: Seq<u8>)
    requires
        !text.contains(0),
    ensures
        c_str(text) == text,
        c_str(text + seq![0u8] + rest) == text,
{
    assert forall|i: int| 0 <= i < text.len() implies text[i] != 0 by {
        assert(text.contains(text[i]));
    }
    let all = text + seq![0u8] + rest;
    lemma_first_at_unique(text, 0, text.len() as int);
    lemma_first_at_unique(all, 0, text.len() as int);
    assert(text.take(text.len() as int) =~= text);
    assert(all.take(text.len() as int) =~= text);
}

/// Two texts are the same up to case if each letter is the same, or the one
/// is the capital of the other; no other bytes are taken for each other.
pub proof fn law_case_is_that_of_letters(a: u8, b: u8)
    ensures
        same_letters(seq![a], seq![b]) <==> {
            ||| a == b
            ||| 'A' as u8 <= a <= 'Z' as u8 && b == a + 32
            ||| 'A' as u8 <= b <= 'Z' as u8 && a == b + 32
        },
{
    let s = seq![a];
    let t = seq![b];
    assert(s[0] == a && t[0] == b);
    if lower(a) == lower(b) {
        assert(same_letters(s, t));
    } else {
        assert(!same_letters(s, t)) by {
            if same_letters(s, t) {
                assert(lower(s[0]) == lower(t[0]));
            }
        }
    }
}

/// Texts are compared up to case letter by letter.
pub proof fn law_case_is_compared_letter_by_letter(a: Seq<u8>, b: Seq<u8>)
    ensures
        same_letters(a, b) <==> a.len() == b.len() && forall|i: int|
            0 <= i < a.len() ==> same_letters(seq![#[trigger] a[i]], seq![b[i]]),
{
    if a.len() == b.len() {
        assert forall|i: int| 0 <= i < a.len() implies (lower(#[trigger] a[i]) == lower(b[i])
            <==> same_letters(seq![a[i]], seq![b[i]])) by {
            law_case_is_that_of_letters(a[i], b[i]);
        }
        if forall|i: int|
            0 <= i < a.len() ==> same_letters(seq![#[trigger] a[i]], seq![b[i]]) {
            assert forall|i: int| 0 <= i < a.len() implies lower(#[trigger] a[i]) == lower(
                b[i],
            ) by {
                assert(same_letters(seq![a[i]], seq![b[i]]));
            }
        }
    }
}

} // verus!
