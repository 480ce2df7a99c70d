//! The content fingerprint: a 31-multiplier rolling hash over the characters
//! of a string, folded in a signed 32-bit window with wrap-around, printed in
//! base 36.  The remote peer computes the same value, so the digit-for-digit
//! form matters: it is the precondition token for applying a diff.

use vstd::prelude::*;

verus! {

/// One wrap-around step of the rolling hash, on the unsigned 32-bit
/// representation: `h * 31 + c`, reduced mod 2^32.
pub open spec fn hash_step(h: nat, c: char) -> nat {
    (h * 31 + (c as nat)) % 0x1_0000_0000
}

/// The rolling hash of a character sequence, as an unsigned 32-bit value
/// (the two's-complement image of the signed value the peer computes).
pub open spec fn hash32(s: Seq<char>) -> nat
    decreases s.len(),
{
    if s.len() == 0 {
        0
    } else {
        hash_step(hash32(s.drop_last()), s.last())
    }
}

/// The digit characters of `v` in the given base, most significant first,
/// empty for zero.
pub open spec fn spec_radix_digits(v: nat, base: nat) -> Seq<char>
    decreases v,
    via spec_radix_digits_decreases
{
    if v == 0 || base < 2 {
        Seq::<char>::empty()
    } else {
        spec_radix_digits(v / base, base).push(spec_digit_char(v % base))
    }
}

#[via_fn]
proof fn spec_radix_digits_decreases(v: nat, base: nat) {
    if v > 0 && base >= 2 {
        assert(v / base < v) by (nonlinear_arith)
            requires
                v > 0,
                base >= 2,
        ;
    }
}

/// Digit characters `0`-`9` then `a`-`z`, as JavaScript's `toString(36)`
/// prints them.
pub open spec fn spec_digit_char(d: nat) -> char {
    if d < 10 {
        ((('0' as nat) + d) as u8) as char
    } else {
        ((('a' as nat) + d - 10) as u8) as char
    }
}

/// The base-36 form of a signed 32-bit value given by its unsigned image `u`:
/// a `-` prefix for values with the top bit set, `"0"` for zero.
pub open spec fn spec_base36_i32(u: nat) -> Seq<char> {
    if u == 0 {
        seq!['0']
    } else if u >= 0x8000_0000 {
        seq!['-'] + spec_radix_digits((0x1_0000_0000 - u) as nat, 36)
    } else {
        spec_radix_digits(u, 36)
    }
}

/// The fingerprint of a string: rolling hash, then base 36.
pub open spec fn spec_fingerprint(s: Seq<char>) -> Seq<char> {
    spec_base36_i32(hash32(s))
}

/// The digit character for `d`, which must be below 36.
fn radix_digit(d: u8) -> (c: char)
    requires
        d < 36,
    ensures
        c == spec_digit_char(d as nat),
{
    if d < 10 {
        (48 + d) as char
    } else {
        (87 + d) as char
    }
}

/// The digits of `v` in base `base`, most significant first; empty for zero.
pub fn radix_digits(v: u64, base: u64) -> (r: String)
    requires
        2 <= base <= 36,
    ensures
        r@ == spec_radix_digits(v as nat, base as nat),
{
    let mut rev: Vec<char> = Vec::new();
    let mut x: u64 = v;
    while x > 0
        invariant
            2 <= base <= 36,
            spec_radix_digits(v as nat, base as nat) == spec_radix_digits(x as nat, base as nat)
                + rev@.reverse(),
        decreases x,
    {
        let d = (x % base) as u8;
        rev.push(radix_digit(d));
        proof {
            assert(rev@.reverse() =~= seq![spec_digit_char((x % base) as nat)]
                + rev@.drop_last().reverse());
            assert(spec_radix_digits(x as nat, base as nat) == spec_radix_digits(
                (x as nat) / (base as nat), base as nat).push(spec_digit_char((x % base) as nat)));
            assert(spec_radix_digits((x as nat) / (base as nat), base as nat)
                + seq![spec_digit_char((x % base) as nat)] + rev@.drop_last().reverse()
                =~= spec_radix_digits((x as nat) / (base as nat), base as nat)
                + (seq![spec_digit_char((x % base) as nat)] + rev@.drop_last().reverse()));
        }
        x = x / base;
    }
    let mut out = String::new();
    let mut i: usize = rev.len();
    proof {
        assert(spec_radix_digits(v as nat, base as nat) =~= rev@.reverse());
    }
    while i > 0
        invariant
            i <= rev@.len(),
            out@ =~= rev@.subrange(i as int, rev@.len() as int).reverse(),
        decreases i,
    {
        i = i - 1;
        crate::strutil::push_char(&mut out, rev[i]);
        proof {
            assert(rev@.subrange(i as int, rev@.len() as int).reverse()
                =~= rev@.subrange(i + 1, rev@.len() as int).reverse().push(rev@[i as int]));
        }
    }
    proof {
        assert(rev@.subrange(0, rev@.len() as int) =~= rev@);
    }
    out
}

/// The base-36 string of a signed 32-bit value, sign included, matching
/// JavaScript's `Number.prototype.toString(36)`.
pub fn to_base36(n: i32) -> (r: String)
    ensures
        r@ == spec_base36_i32(if n >= 0 { n as nat } else { (n + 0x1_0000_0000) as nat }),
{
    if n == 0 {
        let mut out = String::new();
        crate::strutil::push_char(&mut out, '0');
        proof {
            assert(out@ =~= seq!['0']);
        }
        return out;
    }
    if n < 0 {
        let mag: u64 = (-(n as i64)) as u64;
        let mut out = String::new();
        crate::strutil::push_char(&mut out, '-');
        let digits = radix_digits(mag, 36);
        out.append(digits.as_str());
        proof {
            assert(mag == 0x1_0000_0000 - (n + 0x1_0000_0000));
            assert(out@ =~= seq!['-'] + spec_radix_digits(mag as nat, 36));
        }
        out
    } else {
        radix_digits(n as u64, 36)
    }
}

/// The fingerprint of a string: the rolling hash of its characters, printed
/// in base 36 with a `-` prefix for negative signed values.
pub fn fingerprint_str(s: &str) -> (r: String)
    ensures
        r@ == spec_fingerprint(s@),
{
    let len = s.unicode_len();
    let mut h: u64 = 0;
    let mut i: usize = 0;
    while i < len
        invariant
            len == s@.len(),
            0 <= i <= len,
            h < 0x1_0000_0000,
            h as nat == hash32(s@.subrange(0, i as int)),
        decreases len - i,
    {
        let c = s.get_char(i);
        let cv: u64 = c as u64;
        let t: u64 = h * 31 + cv;
        h = t % 0x1_0000_0000;
        proof {
            assert(s@.subrange(0, i + 1).drop_last() =~= s@.subrange(0, i as int));
            assert(s@.subrange(0, i + 1).last() == s@[i as int]);
        }
        i = i + 1;
    }
    proof {
        assert(s@.subrange(0, len as int) =~= s@);
    }
    if h >= 0x8000_0000 {
        let mag: u64 = 0x1_0000_0000 - h;
        let mut out = String::new();
        crate::strutil::push_char(&mut out, '-');
        let digits = radix_digits(mag, 36);
        out.append(digits.as_str());
        proof {
            assert(out@ =~= seq!['-'] + spec_radix_digits(mag as nat, 36));
        }
        out
    } else if h == 0 {
        let mut out = String::new();
        crate::strutil::push_char(&mut out, '0');
        proof {
            assert(out@ =~= seq!['0']);
        }
        out
    } else {
        radix_digits(h, 36)
    }
}

/// Two fingerprints of equal content are equal: the fingerprint is a function
/// of the characters alone.
pub proof fn lemma_fingerprint_deterministic(a: Seq<char>, b: Seq<char>)
    requires
        a == b,
    ensures
        spec_fingerprint(a) == spec_fingerprint(b),
{
}

/// Every character of a fingerprint is a base-36 digit, except for a leading
/// `-` on negative values.
pub proof fn lemma_fingerprint_shape(s: Seq<char>)
    ensures
        spec_fingerprint(s).len() > 0,
        forall|i: int|
            0 <= i < spec_fingerprint(s).len() ==> is_base36_char(#[trigger] spec_fingerprint(s)[i])
                || (i == 0 && spec_fingerprint(s)[i] == '-'),
{
    let u = hash32(s);
    if u == 0 {
    } else if u >= 0x8000_0000 {
        lemma_radix_digits_shape((0x1_0000_0000 - u) as nat, 36);
        assert forall|i: int|
            0 <= i < spec_fingerprint(s).len() implies is_base36_char(
            #[trigger] spec_fingerprint(s)[i]) || (i == 0 && spec_fingerprint(s)[i] == '-') by {
            if i > 0 {
                assert(spec_fingerprint(s)[i] == spec_radix_digits((0x1_0000_0000 - u) as nat, 36)[
                    i - 1]);
            }
        }
    } else {
        lemma_radix_digits_shape(u, 36);
        lemma_radix_digits_nonzero(u, 36);
    }
}

/// A character `0`-`9` or `a`-`z`.
pub open spec fn is_base36_char(c: char) -> bool {
    ('0' <= c && c <= '9') || ('a' <= c && c <= 'z')
}

/// A positive value has at least one digit.
pub proof fn lemma_radix_digits_nonzero(v: nat, base: nat)
    requires
        2 <= base <= 36,
        v > 0,
    ensures
        spec_radix_digits(v, base).len() > 0,
{
}

proof fn lemma_radix_digits_shape(v: nat, base: nat)
    requires
        2 <= base <= 36,
    ensures
        forall|i: int|
            0 <= i < spec_radix_digits(v, base).len() ==> is_base36_char(
                #[trigger] spec_radix_digits(v, base)[i]),
    decreases v,
{
    if v > 0 {
        assert(v / base < v) by (nonlinear_arith)
            requires
                v > 0,
                base >= 2,
        ;
        lemma_radix_digits_shape(v / base, base);
        assert(is_base36_char(spec_digit_char(v % base)));
        let d = spec_radix_digits(v, base);
        let p = spec_radix_digits(v / base, base);
        assert forall|i: int| 0 <= i < d.len() implies is_base36_char(#[trigger] d[i]) by {
            if i < p.len() {
                assert(d[i] == p[i]);
            } else {
                assert(d[i] == spec_digit_char(v % base));
            }
        }
    }
}

} // verus!
