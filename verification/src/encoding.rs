//! Byte-level encodings of the two field kinds.
//!
//! An epoch is stored as sixteen bytes, least significant first. A name is
//! stored as sixty-four raw bytes: shorter names are padded on the right with
//! zero bytes, longer names lose everything after the sixty-fourth byte.

use vstd::prelude::*;
use vstd::string::StringExecFns;

verus! {

/// The `n` low-order base-256 digits of `x`, least significant first.
pub open spec fn le_bytes(x: nat, n: nat) -> Seq<u8>
    decreases n,
{
    if n == 0 {
        Seq::empty()
    } else {
        seq![(x % 256) as u8] + le_bytes(x / 256, (n - 1) as nat)
    }
}

/// The number whose base-256 digits, least significant first, are `s`.
pub open spec fn le_value(s: Seq<u8>) -> nat
    decreases s.len(),
{
    if s.len() == 0 {
        0
    } else {
        s[0] as nat + 256 * le_value(s.drop_first())
    }
}

/// `256` to the power `n`.
pub open spec fn radix_pow(n: nat) -> nat
    decreases n,
{
    if n == 0 {
        1
    } else {
        256 * radix_pow((n - 1) as nat)
    }
}

/// A name as it is stored: the first 64 bytes of `s`, then zeros up to 64.
pub open spec fn padded(s: Seq<u8>) -> Seq<u8> {
    Seq::new(
        64,
        |i: int|
            if i < s.len() {
                s[i]
            } else {
                0u8
            },
    )
}

/// `s` without the zero bytes at its end.
pub open spec fn stripped(s: Seq<u8>) -> Seq<u8>
    decreases s.len(),
{
    if s.len() > 0 && s.last() == 0 {
        stripped(s.drop_last())
    } else {
        s
    }
}

/// The decimal digits of `n`, most significant first; `"0"` for zero.
pub open spec fn decimal(n: nat) -> Seq<char>
    decreases n,
{
    if n < 10 {
        seq![digit_char(n)]
    } else {
        decimal(n / 10).push(digit_char(n % 10))
    }
}

/// The character of one decimal digit.
pub open spec fn digit_char(d: nat) -> char {
    if d == 0 {
        '0'
    } else if d == 1 {
        '1'
    } else if d == 2 {
        '2'
    } else if d == 3 {
        '3'
    } else if d == 4 {
        '4'
    } else if d == 5 {
        '5'
    } else if d == 6 {
        '6'
    } else if d == 7 {
        '7'
    } else if d == 8 {
        '8'
    } else {
        '9'
    }
}

/// `le_bytes(x, n)` has `n` bytes.
pub proof fn lemma_le_bytes_len(x: nat, n: nat)
    ensures
        le_bytes(x, n).len() == n,
    decreases n,
{
    if n > 0 {
        lemma_le_bytes_len(x / 256, (n - 1) as nat);
    }
}

/// Digit `i` of `le_bytes(x, n)` is `x / 256^i mod 256`.
proof fn lemma_le_bytes_index(x: nat, n: nat, i: nat)
    requires
        i < n,
    ensures
        le_bytes(x, n).len() == n,
        le_bytes(x, n)[i as int] == ((x / radix_pow(i)) % 256) as u8,
    decreases n,
{
    lemma_le_bytes_len(x, n);
    lemma_le_bytes_len(x / 256, (n - 1) as nat);
    if i == 0 {
        assert(radix_pow(0) == 1);
    } else {
        lemma_le_bytes_index(x / 256, (n - 1) as nat, (i - 1) as nat);
        lemma_radix_pow_positive((i - 1) as nat);
        let p = radix_pow((i - 1) as nat);
        assert(radix_pow(i) == 256 * p);
        vstd::arithmetic::div_mod::lemma_div_denominator(x as int, 256, p as int);
        assert((x / 256) / p == x / (256 * p));
    }
}

/// Powers of 256 are positive.
proof fn lemma_radix_pow_positive(n: nat)
    ensures
        radix_pow(n) > 0,
    decreases n,
{
    if n > 0 {
        lemma_radix_pow_positive((n - 1) as nat);
    }
}

/// Decoding what was encoded gives the number back, as long as it fits.
pub proof fn lemma_le_value_of_bytes(x: nat, n: nat)
    requires
        x < radix_pow(n),
    ensures
        le_value(le_bytes(x, n)) == x,
    decreases n,
{
    if n == 0 {
    } else {
        let rest = le_bytes(x / 256, (n - 1) as nat);
        let s = le_bytes(x, n);
        assert(s.drop_first() =~= rest);
        assert(s[0] == (x % 256) as u8);
        assert(x / 256 < radix_pow((n - 1) as nat)) by {
            let p = radix_pow((n - 1) as nat);
            assert(x < 256 * p);
        }
        lemma_le_value_of_bytes(x / 256, (n - 1) as nat);
    }
}

/// Encoding what was decoded gives the bytes back.
proof fn lemma_le_bytes_of_value(s: Seq<u8>)
    ensures
        le_value(s) < radix_pow(s.len()),
        le_bytes(le_value(s), s.len()) == s,
    decreases s.len(),
{
    if s.len() == 0 {
    } else {
        let t = s.drop_first();
        lemma_le_bytes_of_value(t);
        let v = le_value(t);
        let x = le_value(s);
        assert(x == s[0] as nat + 256 * v);
        assert(x % 256 == s[0] as nat && x / 256 == v) by {
            vstd::arithmetic::div_mod::lemma_fundamental_div_mod_converse(
                x as int,
                256,
                v as int,
                s[0] as int,
            );
        }
        assert(radix_pow(s.len()) == 256 * radix_pow(t.len()));
        assert(le_bytes(x, s.len()) =~= s);
    }
}

/// Sixteen base-256 digits hold every 128-bit number.
pub proof fn lemma_radix_pow_16()
    ensures
        radix_pow(16) == 0x1_0000_0000_0000_0000_0000_0000_0000_0000,
{
    reveal_with_fuel(radix_pow, 17);
}

/// An epoch that was encoded and is decoded again is the same epoch.
pub proof fn lemma_epoch_round_trip(x: u128)
    ensures
        le_bytes(x as nat, 16).len() == 16,
        le_value(le_bytes(x as nat, 16)) == x,
{
    lemma_radix_pow_16();
    lemma_le_bytes_len(x as nat, 16);
    lemma_le_value_of_bytes(x as nat, 16);
}

/// The sixteen bytes of an epoch, least significant first.
pub fn epoch_to_bytes(x: u128) -> (out: [u8; 16])
    ensures
        out@ == le_bytes(x as nat, 16),
{
    let mut out: [u8; 16] = [0u8; 16];
    let mut v: u128 = x;
    let mut i: usize = 0;
    assert(radix_pow(0) == 1);
    while i < 16
        invariant
            i <= 16,
            forall|j: int| 0 <= j < i ==> out[j] == ((x as nat / radix_pow(j as nat)) % 256) as u8,
            v as nat == x as nat / radix_pow(i as nat),
        decreases 16 - i,
    {
        proof {
            lemma_radix_pow_positive(i as nat);
            vstd::arithmetic::div_mod::lemma_div_denominator(
                x as int,
                radix_pow(i as nat) as int,
                256,
            );
            assert(radix_pow((i + 1) as nat) == 256 * radix_pow(i as nat));
        }
        out[i] = (v % 256) as u8;
        v = v / 256;
        i += 1;
    }
    proof {
        lemma_le_bytes_len(x as nat, 16);
        assert forall|j: int| 0 <= j < 16 implies out@[j] == le_bytes(x as nat, 16)[j] by {
            lemma_le_bytes_index(x as nat, 16, j as nat);
        }
        assert(out@ =~= le_bytes(x as nat, 16));
    }
    out
}

/// The epoch stored in sixteen bytes of `data`, starting at `at`.
pub fn epoch_from_bytes(data: &[u8], at: usize) -> (x: u128)
    requires
        at + 16 <= data.len(),
    ensures
        x as nat == le_value(data@.subrange(at as int, at + 16)),
        le_bytes(x as nat, 16) == data@.subrange(at as int, at + 16),
{
    let ghost s = data@.subrange(at as int, at + 16);
    let mut acc: u128 = 0;
    let mut i: usize = 16;
    while i > 0
        invariant
            i <= 16,
            at + 16 <= data.len(),
            s == data@.subrange(at as int, at + 16),
            acc as nat == le_value(s.subrange(i as int, 16)),
            (acc as nat) < radix_pow((16 - i) as nat),
        decreases i,
    {
        i -= 1;
        let b = data[at + i];
        proof {
            let t = s.subrange(i as int, 16);
            assert(t.drop_first() =~= s.subrange(i + 1, 16));
            assert(t[0] == b);
            lemma_radix_pow_16();
            lemma_radix_pow_monotonic((16 - i) as nat, 16);
            assert(radix_pow((16 - i) as nat) == 256 * radix_pow((16 - i - 1) as nat));
        }
        acc = acc * 256 + (b as u128);
    }
    proof {
        assert(s.subrange(0, 16) =~= s);
        lemma_le_bytes_of_value(s);
    }
    acc
}

/// Powers of 256 grow with the exponent.
proof fn lemma_radix_pow_monotonic(a: nat, b: nat)
    requires
        a <= b,
    ensures
        radix_pow(a) <= radix_pow(b),
    decreases b,
{
    if a < b {
        lemma_radix_pow_monotonic(a, (b - 1) as nat);
        lemma_radix_pow_positive((b - 1) as nat);
    }
}

/// An array that agrees with `padded(s)` in its first `n` bytes.
pub open spec fn name_prefix(s: Seq<u8>, n: nat) -> [u8; 64]
    decreases n,
{
    if n == 0 {
        vstd::array::spec_array_fill_for_copy_type::<u8, 64>(0u8)
    } else {
        vstd::array::spec_array_update(name_prefix(s, (n - 1) as nat), n - 1, padded(s)[n - 1])
    }
}

/// The stored form of the name `s`, as an array: its bytes are `padded(s)`.
pub open spec fn stored_name(s: Seq<u8>) -> [u8; 64] {
    name_prefix(s, 64)
}

/// The first `n` bytes of `name_prefix(s, n)` are those of `padded(s)`.
proof fn lemma_name_prefix(s: Seq<u8>, n: nat)
    requires
        n <= 64,
    ensures
        forall|i: int| 0 <= i < n ==> name_prefix(s, n)@[i] == padded(s)[i],
    decreases n,
{
    broadcast use vstd::array::group_array_axioms;

    if n > 0 {
        lemma_name_prefix(s, (n - 1) as nat);
    }
}

/// The bytes of `stored_name(s)` are `padded(s)`.
pub proof fn lemma_stored_name(s: Seq<u8>)
    ensures
        stored_name(s)@ == padded(s),
{
    lemma_name_prefix(s, 64);
    assert(stored_name(s)@ =~= padded(s));
}

/// A name as it is stored: truncated to 64 bytes or padded with zeros.
pub fn pad_name(bytes: &[u8]) -> (out: [u8; 64])
    ensures
        out@ == padded(bytes@),
        out == stored_name(bytes@),
{
    let mut out: [u8; 64] = [0u8; 64];
    let mut i: usize = 0;
    while i < 64 && i < bytes.len()
        invariant
            i <= 64,
            i <= bytes.len(),
            forall|j: int| 0 <= j < i ==> out[j] == bytes[j],
            forall|j: int| i <= j < 64 ==> out[j] == 0u8,
        decreases 64 - i,
    {
        out[i] = bytes[i];
        i += 1;
    }
    proof {
        assert(out@ =~= padded(bytes@));
        lemma_stored_name(bytes@);
        assert(out =~= stored_name(bytes@));
    }
    out
}

/// Stripping gives a prefix that does not end in zero and is followed by
/// zeros only.
proof fn lemma_stripped_is_prefix(s: Seq<u8>)
    ensures
        stripped(s).len() <= s.len(),
        stripped(s) == s.subrange(0, stripped(s).len() as int),
        stripped(s).len() > 0 ==> stripped(s).last() != 0,
        forall|j: int| stripped(s).len() <= j < s.len() ==> s[j] == 0,
    decreases s.len(),
{
    if s.len() > 0 && s.last() == 0 {
        let t = s.drop_last();
        lemma_stripped_is_prefix(t);
        assert(stripped(s) == stripped(t));
        assert(t.subrange(0, stripped(t).len() as int) =~= s.subrange(
            0,
            stripped(t).len() as int,
        ));
        assert forall|j: int| stripped(s).len() <= j < s.len() implies s[j] == 0 by {
            if j < t.len() {
                assert(t[j] == s[j]);
            }
        }
    } else {
        assert(s.subrange(0, s.len() as int) =~= s);
    }
}

/// A prefix of `s` that ends in a non-zero byte and is followed by zeros
/// only is `stripped(s)`.
proof fn lemma_stripped_unique(s: Seq<u8>, n: int)
    requires
        0 <= n <= s.len(),
        n > 0 ==> s[n - 1] != 0,
        forall|j: int| n <= j < s.len() ==> s[j] == 0,
    ensures
        stripped(s) == s.subrange(0, n),
    decreases s.len(),
{
    if s.len() > 0 && s.last() == 0 {
        let t = s.drop_last();
        assert(n < s.len());
        lemma_stripped_unique(t, n);
        assert(t.subrange(0, n) =~= s.subrange(0, n));
    } else {
        assert(n == s.len());
        assert(s.subrange(0, n) =~= s);
    }
}

/// What storing a name keeps of it: a name of exactly 64 bytes is stored as
/// it is, a longer name as its first 64 bytes, and a shorter name so that
/// stripping the stored form gives the name without the zero bytes at its
/// end.
pub proof fn lemma_name_round_trip(s: Seq<u8>)
    ensures
        s.len() == 64 ==> padded(s) == s,
        s.len() >= 64 ==> padded(s) == s.take(64),
        s.len() <= 64 ==> stripped(padded(s)) == stripped(s),
        stripped(padded(s)).len() <= 64,
{
    if s.len() >= 64 {
        assert(padded(s) =~= s.take(64));
        if s.len() == 64 {
            assert(s.take(64) =~= s);
        }
    }
    if s.len() <= 64 {
        lemma_stripped_of_padding(s, padded(s));
    }
    lemma_stripped_is_prefix(padded(s));
}

/// Zero bytes at the end do not change what stripping gives.
proof fn lemma_stripped_of_padding(s: Seq<u8>, t: Seq<u8>)
    requires
        s.len() <= t.len(),
        forall|i: int| 0 <= i < s.len() ==> t[i] == s[i],
        forall|i: int| s.len() <= i < t.len() ==> t[i] == 0,
    ensures
        stripped(t) == stripped(s),
    decreases t.len(),
{
    if t.len() == s.len() {
        assert(t =~= s);
    } else {
        let shorter = t.drop_last();
        assert(t.last() == 0);
        lemma_stripped_of_padding(s, shorter);
    }
}

/// The bytes of a stored name without the padding at its end.
pub fn strip_name(name: &[u8; 64]) -> (out: Vec<u8>)
    ensures
        out@ == stripped(name@),
{
    let mut n: usize = 64;
    while n > 0 && name[n - 1] == 0
        invariant
            n <= 64,
            forall|j: int| n <= j < 64 ==> name[j] == 0u8,
        decreases n,
    {
        n -= 1;
    }
    let mut out: Vec<u8> = Vec::new();
    let mut i: usize = 0;
    while i < n
        invariant
            i <= n <= 64,
            out@ == name@.subrange(0, i as int),
        decreases n - i,
    {
        out.push(name[i]);
        proof {
            assert(out@ =~= name@.subrange(0, i + 1));
        }
        i += 1;
    }
    proof {
        lemma_stripped_unique(name@, n as int);
    }
    out
}

/// Whether `c` is a decimal digit.
pub open spec fn is_digit(c: char) -> bool {
    c == '0' || c == '1' || c == '2' || c == '3' || c == '4' || c == '5' || c == '6' || c == '7'
        || c == '8' || c == '9'
}

/// The number that a decimal digit stands for.
pub open spec fn digit_value(c: char) -> nat {
    if c == '0' {
        0
    } else if c == '1' {
        1
    } else if c == '2' {
        2
    } else if c == '3' {
        3
    } else if c == '4' {
        4
    } else if c == '5' {
        5
    } else if c == '6' {
        6
    } else if c == '7' {
        7
    } else if c == '8' {
        8
    } else {
        9
    }
}

/// The number that the digits `s` spell, most significant first.
pub open spec fn decimal_value(s: Seq<char>) -> nat
    decreases s.len(),
{
    if s.len() == 0 {
        0
    } else {
        decimal_value(s.drop_last()) * 10 + digit_value(s.last())
    }
}

/// Whether `s` is the decimal form of a number: at least one digit, digits
/// only, and no zero in front of other digits.
pub open spec fn is_decimal(s: Seq<char>) -> bool {
    &&& s.len() > 0
    &&& forall|i: int| 0 <= i < s.len() ==> is_digit(#[trigger] s[i])
    &&& s.len() > 1 ==> s[0] != '0'
}

/// The decimal form of a number is decimal, and spells the number.
pub proof fn lemma_decimal_spells(n: nat)
    ensures
        is_decimal(decimal(n)),
        decimal_value(decimal(n)) == n,
        n > 0 ==> decimal(n)[0] != '0',
    decreases n,
{
    if n < 10 {
        let s = decimal(n);
        assert(s.drop_last() =~= Seq::<char>::empty());
        assert(decimal_value(s.drop_last()) == 0);
    } else {
        lemma_decimal_spells(n / 10);
        let front = decimal(n / 10);
        let s = decimal(n);
        assert(s.drop_last() =~= front);
        assert(s[0] == front[0]);
        assert forall|i: int| 0 <= i < s.len() implies is_digit(#[trigger] s[i]) by {
            if i < front.len() {
                assert(s[i] == front[i]);
            }
        }
    }
}

/// Digits that do not start with zero spell a positive number.
proof fn lemma_decimal_value_positive(s: Seq<char>)
    requires
        s.len() > 0,
        forall|i: int| 0 <= i < s.len() ==> is_digit(#[trigger] s[i]),
        s[0] != '0',
    ensures
        decimal_value(s) >= 1,
    decreases s.len(),
{
    if s.len() > 1 {
        let front = s.drop_last();
        assert forall|i: int| 0 <= i < front.len() implies is_digit(#[trigger] front[i]) by {
            assert(front[i] == s[i]);
        }
        lemma_decimal_value_positive(front);
    } else {
        assert(s.last() == s[0]);
        assert(is_digit(s[0]));
    }
}

/// A decimal form is the decimal form of the number that it spells.
pub proof fn lemma_decimal_of_value(s: Seq<char>)
    requires
        is_decimal(s),
    ensures
        decimal(decimal_value(s)) == s,
    decreases s.len(),
{
    let last = s.last();
    assert(is_digit(s[s.len() - 1]));
    assert(digit_char(digit_value(last)) == last);
    if s.len() == 1 {
        assert(s.drop_last() =~= Seq::<char>::empty());
        assert(decimal_value(s.drop_last()) == 0);
        assert(decimal(decimal_value(s)) =~= s);
    } else {
        let front = s.drop_last();
        assert forall|i: int| 0 <= i < front.len() implies is_digit(#[trigger] front[i]) by {
            assert(front[i] == s[i]);
        }
        assert(front[0] == s[0]);
        lemma_decimal_of_value(front);
        lemma_decimal_value_positive(front);
        let v = decimal_value(s);
        assert(v == decimal_value(front) * 10 + digit_value(last));
        assert(v / 10 == decimal_value(front) && v % 10 == digit_value(last));
        assert(decimal(v) =~= s);
    }
}

/// More digits spell no smaller number.
pub proof fn lemma_decimal_value_grows(s: Seq<char>, k: int)
    requires
        0 <= k <= s.len(),
    ensures
        decimal_value(s.take(k)) <= decimal_value(s),
    decreases s.len() - k,
{
    if k == s.len() {
        assert(s.take(k) =~= s);
    } else {
        lemma_decimal_value_grows(s, k + 1);
        assert(s.take(k + 1).drop_last() =~= s.take(k));
    }
}

/// The one-character string of a decimal digit.
fn digit_str(d: u8) -> (s: &'static str)
    requires
        d < 10,
    ensures
        s@ == seq![digit_char(d as nat)],
{
    proof {
        reveal_strlit("0");
        reveal_strlit("1");
        reveal_strlit("2");
        reveal_strlit("3");
        reveal_strlit("4");
        reveal_strlit("5");
        reveal_strlit("6");
        reveal_strlit("7");
        reveal_strlit("8");
        reveal_strlit("9");
    }
    let s = if d == 0 {
        "0"
    } else if d == 1 {
        "1"
    } else if d == 2 {
        "2"
    } else if d == 3 {
        "3"
    } else if d == 4 {
        "4"
    } else if d == 5 {
        "5"
    } else if d == 6 {
        "6"
    } else if d == 7 {
        "7"
    } else if d == 8 {
        "8"
    } else {
        "9"
    };
    assert(s@ =~= seq![digit_char(d as nat)]);
    s
}

/// Appends the decimal digits of `n` to `out`.
pub fn write_decimal(n: u128, out: &mut String)
    ensures
        final(out)@ == old(out)@ + decimal(n as nat),
    decreases n,
{
    if n >= 10 {
        write_decimal(n / 10, out);
    }
    let d = (n % 10) as u8;
    out.append(digit_str(d));
    proof {
        assert(out@ =~= old(out)@ + decimal(n as nat));
    }
}

} // verus!
