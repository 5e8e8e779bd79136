//! Numbers as text: writing and reading decimals, and sizes for people.
use crate::text::{chars_of, fill, push_fill};
use vstd::prelude::*;
use vstd::slice::slice_subrange;

verus! {

/// The digit that stands for `d`.
pub open spec fn digit(d: nat) -> char {
    ('0' as int + d) as char
}

/// `n` in decimal.
pub open spec fn dec(n: nat) -> Seq<char>
    decreases n,
{
    if n < 10 {
        seq![digit(n)]
    } else {
        dec(n / 10).push(digit(n % 10))
    }
}

/// `n` in decimal, with zeros in front where it has fewer than `w` digits.
pub open spec fn dec_zeros(n: nat, w: int) -> Seq<char> {
    fill('0', w - dec(n).len()) + dec(n)
}

/// `n` in decimal, a sign in front where it is negative, filled up with zeros to
/// `w` characters.
pub open spec fn int_zeros(n: int, w: int) -> Seq<char> {
    if n < 0 {
        seq!['-'] + dec_zeros((-n) as nat, w - 1)
    } else {
        dec_zeros(n as nat, w)
    }
}

/// Whether `c` is one of the ten digits.
pub open spec fn is_digit(c: char) -> bool {
    '0' <= c <= '9'
}

/// Whether `s` is one or more digits.
pub open spec fn all_digits(s: Seq<char>) -> bool {
    s.len() > 0 && forall|i: int| 0 <= i < s.len() ==> is_digit(#[trigger] s[i])
}

/// The number that the digits `s` write.
pub open spec fn digits_value(s: Seq<char>) -> nat
    decreases s.len(),
{
    if s.len() == 0 {
        0
    } else {
        digits_value(s.drop_last()) * 10 + (s.last() as nat - '0' as nat) as nat
    }
}

/// The number that `s` writes: digits, with or without one sign in front.
pub open spec fn int_text(s: Seq<char>) -> Option<int> {
    if s.len() > 0 && s[0] == '-' {
        if all_digits(s.skip(1)) {
            Some(-(digits_value(s.skip(1)) as int))
        } else {
            None
        }
    } else if s.len() > 0 && s[0] == '+' {
        if all_digits(s.skip(1)) {
            Some(digits_value(s.skip(1)) as int)
        } else {
            None
        }
    } else if all_digits(s) {
        Some(digits_value(s) as int)
    } else {
        None
    }
}

/// The `i64` that `s` writes, where one can hold it.
pub open spec fn i64_text(s: Seq<char>) -> Option<i64> {
    match int_text(s) {
        Some(v) => if i64::MIN <= v <= i64::MAX {
            Some(v as i64)
        } else {
            None
        },
        None => None,
    }
}

/// The `u8` that `s` writes, where one can hold it; no minus sign is allowed.
pub open spec fn u8_text(s: Seq<char>) -> Option<u8> {
    if s.len() > 0 && s[0] == '-' {
        None
    } else {
        match int_text(s) {
            Some(v) => if v <= u8::MAX {
                Some(v as u8)
            } else {
                None
            },
            None => None,
        }
    }
}

/// Writing a number in decimal and reading it back gives the number.
pub proof fn lemma_dec_reads_back(n: nat)
    ensures
        all_digits(dec(n)),
        digits_value(dec(n)) == n,
        int_text(dec(n)) == Some(n as int),
    decreases n,
{
    reveal_with_fuel(digits_value, 2);
    if n >= 10 {
        lemma_dec_reads_back(n / 10);
        let s = dec(n);
        assert(s.drop_last() == dec(n / 10));
        assert forall|i: int| 0 <= i < s.len() implies is_digit(#[trigger] s[i]) by {
            if i < s.len() - 1 {
                assert(s[i] == dec(n / 10)[i]);
            }
        }
        assert(is_digit(s[0]));
    } else {
        assert(dec(n).drop_last() == Seq::<char>::empty());
        assert(is_digit(dec(n)[0]));
    }
}

/// Two numbers that are written alike are the same.
pub proof fn lemma_dec_injective(a: nat, b: nat)
    requires
        dec(a) == dec(b),
    ensures
        a == b,
{
    lemma_dec_reads_back(a);
    lemma_dec_reads_back(b);
}

/// Appends `n` in decimal.
pub fn push_dec(s: &mut String, n: u64)
    ensures
        final(s)@ == old(s)@ + dec(n as nat),
    decreases n,
{
    if n >= 10 {
        push_dec(s, n / 10);
    }
    let d: u8 = (n % 10) as u8;
    s.push((48 + d) as char);
}

/// `n` in decimal.
pub fn decimal(n: u64) -> (s: String)
    ensures
        s@ == dec(n as nat),
{
    let mut s: String = String::new();
    push_dec(&mut s, n);
    s
}

/// `n` in decimal with at least `w` digits.
pub fn zero_padded(n: u64, w: usize) -> (s: String)
    ensures
        s@ == dec_zeros(n as nat, w as int),
{
    let t = decimal(n);
    let k: usize = t.as_str().unicode_len();
    let mut s: String = String::new();
    if k < w {
        push_fill(&mut s, '0', w - k);
    }
    s.append(t.as_str());
    s
}

/// `n` in decimal with its sign, filled up with zeros to `w` characters.
pub fn zero_padded_int(n: i64, w: usize) -> (s: String)
    requires
        w > 0,
    ensures
        s@ == int_zeros(n as int, w as int),
{
    if n < 0 {
        let m: u64 = (-(n + 1)) as u64 + 1;
        let mut s: String = String::new();
        s.push('-');
        let t = zero_padded(m, w - 1);
        s.append(t.as_str());
        assert(s@ == seq!['-'] + t@);
        s
    } else {
        zero_padded(n as u64, w)
    }
}

/// Whether `c` is a digit.
pub fn digit_char(c: char) -> (b: bool)
    ensures
        b == is_digit(c),
{
    '0' <= c && c <= '9'
}

/// The value of the digits `v`, or the largest `u64` where that is less; nothing where
/// `v` is not digits throughout.
fn digits_capped(v: &[char]) -> (r: Option<u64>)
    ensures
        r is Some <==> all_digits(v@),
        r matches Some(x) ==> x == if digits_value(v@) <= u64::MAX { digits_value(v@) } else { u64::MAX as nat },
{
    if v.len() == 0 {
        return None;
    }
    let mut acc: u64 = 0;
    let mut i: usize = 0;
    assert(v@.take(0) == Seq::<char>::empty());
    while i < v.len()
        invariant
            i <= v.len(),
            forall|j: int| 0 <= j < i ==> is_digit(#[trigger] v@[j]),
            acc == if digits_value(v@.take(i as int)) <= u64::MAX { digits_value(v@.take(i as int)) } else {
                u64::MAX as nat
            },
        decreases v.len() - i,
    {
        if !digit_char(v[i]) {
            assert(!is_digit(v@[i as int]));
            return None;
        }
        let d: u64 = v[i] as u64 - 48;
        let wide: u128 = acc as u128 * 10 + d as u128;
        assert(v@.take(i + 1).drop_last() == v@.take(i as int));
        acc = if wide <= u64::MAX as u128 { wide as u64 } else { u64::MAX };
        i += 1;
    }
    assert(v@.take(i as int) == v@);
    Some(acc)
}

/// Reads an `i64`.
pub fn parse_i64(s: &str) -> (r: Option<i64>)
    ensures
        r == i64_text(s@),
{
    let v = chars_of(s);
    if v.len() > 0 && v[0] == '-' {
        match digits_capped(slice_subrange(v.as_slice(), 1, v.len())) {
            Some(x) => {
                assert(v@.subrange(1, v@.len() as int) == s@.skip(1));
                if x < 0x8000_0000_0000_0000 {
                    Some(-(x as i64))
                } else if x == 0x8000_0000_0000_0000 {
                    Some(i64::MIN)
                } else {
                    None
                }
            },
            None => None,
        }
    } else {
        let from: usize = if v.len() > 0 && v[0] == '+' { 1 } else { 0 };
        assert(v@.subrange(0, v@.len() as int) == s@);
        match digits_capped(slice_subrange(v.as_slice(), from, v.len())) {
            Some(x) => {
                if x < 0x8000_0000_0000_0000 {
                    Some(x as i64)
                } else {
                    None
                }
            },
            None => None,
        }
    }
}

/// Reads a `u8`.
pub fn parse_u8(s: &str) -> (r: Option<u8>)
    ensures
        r == u8_text(s@),
{
    let v = chars_of(s);
    let from: usize = if v.len() > 0 && v[0] == '+' { 1 } else { 0 };
    assert(v@.subrange(0, v@.len() as int) == s@);
    match digits_capped(slice_subrange(v.as_slice(), from, v.len())) {
        Some(x) => {
            if x <= 255 {
                proof {
                    if s@[0] == '-' {
                        assert(!is_digit(s@[0]));
                    }
                }
                Some(x as u8)
            } else {
                None
            }
        },
        None => None,
    }
}

/// How far apart the double precision numbers next to `n` lie, for `n` below 2^64.
pub open spec fn double_spacing(n: nat) -> nat {
    if n < 0x20000000000000 {
        1
    } else if n < 0x40000000000000 {
        2
    } else if n < 0x80000000000000 {
        4
    } else if n < 0x100000000000000 {
        8
    } else if n < 0x200000000000000 {
        16
    } else if n < 0x400000000000000 {
        32
    } else if n < 0x800000000000000 {
        64
    } else if n < 0x1000000000000000 {
        128
    } else if n < 0x2000000000000000 {
        256
    } else if n < 0x4000000000000000 {
        512
    } else if n < 0x8000000000000000 {
        1024
    } else {
        2048
    }
}

/// `a / b` to the nearest whole number; halfway, to the even one.
pub open spec fn div_nearest(a: nat, b: nat) -> nat {
    let q = a / b;
    let r = a % b;
    if 2 * r > b || (2 * r == b && q % 2 == 1) {
        q + 1
    } else {
        q
    }
}

/// The double precision number nearest to `n`, for `n` below 2^64.
pub open spec fn double_nearest(n: nat) -> nat {
    div_nearest(n, double_spacing(n)) * double_spacing(n)
}

/// The bytes in the unit `i`: byte, KiB, MiB, GiB, TiB.
pub open spec fn unit_bytes(i: int) -> nat {
    if i <= 0 {
        1
    } else if i == 1 {
        1024
    } else if i == 2 {
        1048576
    } else if i == 3 {
        1073741824
    } else {
        1099511627776
    }
}

/// The largest unit of which `n` bytes hold at least one.
pub open spec fn unit_of(n: nat) -> int {
    if n < unit_bytes(1) {
        0
    } else if n < unit_bytes(2) {
        1
    } else if n < unit_bytes(3) {
        2
    } else if n < unit_bytes(4) {
        3
    } else {
        4
    }
}

/// The name of the unit `i`.
pub open spec fn unit_name(i: int) -> Seq<char> {
    if i <= 0 {
        " B"@
    } else if i == 1 {
        " KiB"@
    } else if i == 2 {
        " MiB"@
    } else if i == 3 {
        " GiB"@
    } else {
        " TiB"@
    }
}

/// `bytes` for people: below one KiB the number of bytes, else the number of the largest
/// fitting unit with one decimal, to the nearest (halfway to the even digit). The number is
/// taken as a double precision number first, which matters from 2^53 bytes on.
pub open spec fn size_text(bytes: nat) -> Seq<char> {
    let v = double_nearest(bytes);
    let i = unit_of(v);
    if i == 0 {
        dec(bytes) + " B"@
    } else {
        let tenths = div_nearest(10 * v, unit_bytes(i));
        dec(tenths / 10) + "."@ + dec(tenths % 10) + unit_name(i)
    }
}

/// `a / b` to the nearest whole number; halfway, to the even one.
fn nearest_quotient(a: u128, b: u128) -> (r: u128)
    requires
        0 < b <= 0x1_0000_0000_0000,
    ensures
        r == div_nearest(a as nat, b as nat),
        r <= a + 1,
{
    let q: u128 = a / b;
    let r: u128 = a % b;
    proof {
        assert(q <= a) by (nonlinear_arith)
            requires
                b > 0,
                q == a / b,
        ;
        if q == u128::MAX {
            assert(r == 0) by (nonlinear_arith)
                requires
                    q == a / b,
                    r == a % b,
                    b > 0,
                    q == u128::MAX,
            ;
        }
    }
    if 2 * r > b || (2 * r == b && q % 2 == 1) {
        q + 1
    } else {
        q
    }
}

/// The double precision number nearest to `n`.
fn nearest_double(n: u64) -> (r: u128)
    ensures
        r == double_nearest(n as nat),
        r <= n + 2048,
        n < 1024 ==> r == n,
{
    let p: u128 = if n < 0x20000000000000 {
        1
    } else if n < 0x40000000000000 {
        2
    } else if n < 0x80000000000000 {
        4
    } else if n < 0x100000000000000 {
        8
    } else if n < 0x200000000000000 {
        16
    } else if n < 0x400000000000000 {
        32
    } else if n < 0x800000000000000 {
        64
    } else if n < 0x1000000000000000 {
        128
    } else if n < 0x2000000000000000 {
        256
    } else if n < 0x4000000000000000 {
        512
    } else if n < 0x8000000000000000 {
        1024
    } else {
        2048
    };
    let q: u128 = nearest_quotient(n as u128, p);
    proof {
        assert(div_nearest(n as nat, 1) == n);
        assert(q * p <= n + p) by (nonlinear_arith)
            requires
                p > 0,
                q <= n as nat / p as nat + 1,
        ;
    }
    q * p
}

/// `bytes` for people.
pub fn human_size(bytes: u64) -> (s: String)
    ensures
        s@ == size_text(bytes as nat),
{
    let v: u128 = nearest_double(bytes);
    if v < 1024 {
        let mut s = decimal(bytes);
        s.append(" B");
        return s;
    }
    let (unit, name): (u128, &str) = if v < 1048576 {
        (1024, " KiB")
    } else if v < 1073741824 {
        (1048576, " MiB")
    } else if v < 1099511627776 {
        (1073741824, " GiB")
    } else {
        (1099511627776, " TiB")
    };
    let tenths: u128 = nearest_quotient(10 * v, unit);
    let mut s = decimal((tenths / 10) as u64);
    s.append(".");
    push_dec(&mut s, (tenths % 10) as u64);
    s.append(name);
    s
}

/// Decimals are written place by place: behind the digits of `q` stands the digit `d`, which is
/// the one that is `d` behind the character 0.
pub proof fn lemma_dec_places(q: nat, d: nat, c: char)
    requires
        d < 10,
        c as int == 48 + d,
    ensures
        dec(d) == seq![c],
        q > 0 ==> dec(10 * q + d) == dec(q).push(c),
{
    if q > 0 {
        let n = 10 * q + d;
        assert(n / 10 == q && n % 10 == d);
    }
}

proof fn lemma_zeros_value(k: nat, s: Seq<char>)
    requires
        all_digits(s),
    ensures
        all_digits(fill('0', k as int) + s),
        digits_value(fill('0', k as int) + s) == digits_value(s),
    decreases s.len(),
{
    let z = fill('0', k as int);
    let t = z + s;
    assert forall|i: int| 0 <= i < t.len() implies is_digit(#[trigger] t[i]) by {
        if i >= k {
            assert(t[i] == s[i - k]);
        }
    }
    let f = s.drop_last();
    assert(t.drop_last() == z + f);
    if f.len() > 0 {
        assert forall|i: int| 0 <= i < f.len() implies is_digit(#[trigger] f[i]) by {
            assert(f[i] == s[i]);
        }
        lemma_zeros_value(k, f);
    } else {
        assert(z + f == z);
        lemma_zeros(k);
        assert(digits_value(f) == 0);
    }
}

proof fn lemma_zeros(k: nat)
    ensures
        digits_value(fill('0', k as int)) == 0,
    decreases k,
{
    if k > 0 {
        assert(fill('0', k as int).drop_last() == fill('0', k - 1));
        lemma_zeros((k - 1) as nat);
    }
}

/// A number is read with its sign, with as many zeros in front as there are.
pub proof fn lemma_signed_number(n: nat, k: nat)
    ensures
        ({
            let s = fill('0', k as int) + dec(n);
            &&& int_text(s) == Some(n as int)
            &&& int_text(seq!['+'] + s) == Some(n as int)
            &&& int_text(seq!['-'] + s) == Some(-(n as int))
            &&& n <= u8::MAX ==> u8_text(s) == Some(n as u8) && u8_text(seq!['+'] + s) == Some(n as u8)
            &&& n > u8::MAX ==> u8_text(s) is None
            &&& u8_text(seq!['-'] + s) is None
            &&& n <= i64::MAX ==> i64_text(s) == Some(n as i64) && i64_text(seq!['-'] + s) == Some(
                (-(n as int)) as i64,
            )
            &&& n > i64::MAX ==> i64_text(s) is None
        }),
{
    lemma_dec_reads_back(n);
    lemma_zeros_value(k, dec(n));
    let s = fill('0', k as int) + dec(n);
    assert(is_digit(s[0]));
    assert((seq!['+'] + s).skip(1) == s);
    assert((seq!['-'] + s).skip(1) == s);
}

/// Text with a character that is neither a digit nor a sign in front is no number, and neither
/// is no text nor a sign alone.
pub proof fn lemma_no_number(s: Seq<char>, i: int)
    requires
        s.len() == 0 || (0 <= i < s.len() && !('0' <= s[i] <= '9') && (i > 0 || (s[0] != '-' && s[0]
            != '+') || s.len() == 1)),
    ensures
        int_text(s) is None,
        i64_text(s) is None,
        u8_text(s) is None,
{
    if s.len() > 0 {
        assert(!is_digit(s[i]));
        if i > 0 {
            assert(s.skip(1)[i - 1] == s[i]);
        }
    }
}

/// Whether `t` tenths of the unit of `u` bytes are what `bytes` come to, to the nearest tenth;
/// halfway between two, to the even one.
pub open spec fn nearest_tenths(t: nat, bytes: nat, u: nat) -> bool {
    &&& 2 * (t * u - 10 * bytes) <= u
    &&& 2 * (10 * bytes - t * u) <= u
    &&& (2 * (t * u - 10 * bytes) == u || 2 * (10 * bytes - t * u) == u) ==> t % 2 == 0
}

/// Whether `name` names the unit of `u` bytes.
pub open spec fn is_unit(u: nat, name: Seq<char>) -> bool {
    ||| u == 1 && name == " B"@
    ||| u == 1024 && name == " KiB"@
    ||| u == 1024 * 1024 && name == " MiB"@
    ||| u == 1024 * 1024 * 1024 && name == " GiB"@
    ||| u == 1024 * 1024 * 1024 * 1024 && name == " TiB"@
}

/// A size below 2^53 bytes is told in the largest unit that it fills, in steps of 1024, with one
/// decimal that is the nearest; below 1024 bytes it is the number itself.
pub proof fn lemma_size_told(bytes: nat, u: nat, name: Seq<char>)
    requires
        bytes < 0x20000000000000,
        is_unit(u, name),
        u == 1 || u <= bytes,
        u < 0x10000000000 ==> bytes < 1024 * u,
    ensures
        u == 1 ==> size_text(bytes) == dec(bytes) + name,
        u > 1 ==> exists|t: nat| #[trigger]
            nearest_tenths(t, bytes, u) && size_text(bytes) == dec(t / 10) + "."@ + dec(t % 10)
                + name,
{
    assert(double_spacing(bytes) == 1);
    assert(double_nearest(bytes) == bytes);
    if u > 1 {
        let t = div_nearest(10 * bytes, u);
        let q = 10 * bytes / u;
        let r = 10 * bytes % u;
        assert(10 * bytes == q * u + r) by (nonlinear_arith)
            requires
                u > 1,
                q == 10 * bytes / u,
                r == 10 * bytes % u,
        ;
        assert((q + 1) * u == q * u + u) by (nonlinear_arith);
        assert(nearest_tenths(t, bytes, u));
    }
}

/// A number that is filled up with zeros is still that number, and as wide as it is to be, or as
/// it must.
pub proof fn lemma_zeros_read_back(n: int, w: int)
    ensures
        int_text(int_zeros(n, w)) == Some(n),
        int_zeros(n, w).len() >= w,
        n >= 0 ==> int_zeros(n, w) == dec_zeros(n as nat, w),
        n >= 0 && w <= dec(n as nat).len() ==> int_zeros(n, w) == dec(n as nat),
        n >= 0 && w >= dec(n as nat).len() ==> int_zeros(n, w).len() == w,
        n < 0 && w > dec((-n) as nat).len() ==> int_zeros(n, w).len() == w,
{
    let m = if n < 0 {
        (-n) as nat
    } else {
        n as nat
    };
    let v = if n < 0 {
        w - 1
    } else {
        w
    };
    let k = v - dec(m).len();
    let z: nat = if k > 0 {
        k as nat
    } else {
        0
    };
    assert(fill('0', k) == fill('0', z as int));
    lemma_signed_number(m, z);
    if k <= 0 {
        assert(fill('0', k) + dec(m) == dec(m));
    }
}

/// 2 to the power of `k`.
pub open spec fn two_to(k: nat) -> nat
    decreases k,
{
    if k == 0 {
        1
    } else {
        2 * two_to((k - 1) as nat)
    }
}

/// A number of 53 bits and `k` more is taken to the nearest multiple of 2^k, halfway to the even
/// one, before its size is told in TiB.
pub proof fn lemma_large_sizes(n: nat, k: nat)
    requires
        1 <= k <= 11,
        0x10000000000000 * two_to(k) <= n < 0x20000000000000 * two_to(k),
    ensures
        ({
            let v = double_nearest(n);
            let s = two_to(k);
            &&& v % s == 0
            &&& 2 * (v - n) <= s && 2 * (n - v) <= s
            &&& (2 * (v - n) == s || 2 * (n - v) == s) ==> v / s % 2 == 0
            &&& exists|t: nat| #[trigger]
                nearest_tenths(t, v, 1099511627776) && size_text(n) == dec(t / 10) + "."@ + dec(
                    t % 10,
                ) + " TiB"@
        }),
{
    reveal_with_fuel(two_to, 13);
    let s = two_to(k);
    assert(k == 1 || k == 2 || k == 3 || k == 4 || k == 5 || k == 6 || k == 7 || k == 8 || k == 9 || k
        == 10 || k == 11);
    assert(double_spacing(n) == s);
    let q = n / s;
    let r = n % s;
    let v = double_nearest(n);
    let m = div_nearest(n, s);
    assert(v == m * s);
    assert(n == q * s + r && 0 <= r < s) by (nonlinear_arith)
        requires
            s > 0,
            q == n / s,
            r == n % s,
    ;
    assert((q + 1) * s == q * s + s) by (nonlinear_arith);
    assert(v % s == 0 && v / s == m) by (nonlinear_arith)
        requires
            s > 0,
            v == m * s,
    ;
    let u: nat = 1099511627776;
    assert(v >= u);
    let t = div_nearest(10 * v, u);
    let a = 10 * v / u;
    let b = 10 * v % u;
    assert(nearest_tenths(t, v, u));
}

} // verus!
