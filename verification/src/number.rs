//! Decimal integer text: a verified parser and renderer used for every
//! fixed-width integer literal kind, together with big-endian decoding of
//! 128-bit decimal backing values.

use vstd::prelude::*;
use vstd::string::*;
use crate::text::push_char;

verus! {

broadcast use vstd::arithmetic::div_mod::lemma_fundamental_div_mod,
    vstd::arithmetic::div_mod::lemma_mod_bound;

/// Numeric value of a decimal digit character; 10 marks a non-digit.
pub open spec fn digit_of_char(c: char) -> int {
    match c {
        '0' => 0,
        '1' => 1,
        '2' => 2,
        '3' => 3,
        '4' => 4,
        '5' => 5,
        '6' => 6,
        '7' => 7,
        '8' => 8,
        '9' => 9,
        _ => 10,
    }
}

pub open spec fn is_digit(c: char) -> bool {
    digit_of_char(c) < 10
}

/// Digit character for a value below ten.
pub open spec fn char_of_digit(d: int) -> char {
    if d == 0 {
        '0'
    } else if d == 1 {
        '1'
    } else if d == 2 {
        '2'
    } else if d == 3 {
        '3'
    } else if d == 4 {
        '4'
    } else if d == 5 {
        '5'
    } else if d == 6 {
        '6'
    } else if d == 7 {
        '7'
    } else if d == 8 {
        '8'
    } else {
        '9'
    }
}

fn digit_value(c: char) -> (r: u8)
    ensures
        r as int == digit_of_char(c),
{
    match c {
        '0' => 0,
        '1' => 1,
        '2' => 2,
        '3' => 3,
        '4' => 4,
        '5' => 5,
        '6' => 6,
        '7' => 7,
        '8' => 8,
        '9' => 9,
        _ => 10,
    }
}

fn digit_char(d: u8) -> (r: char)
    requires
        d < 10,
    ensures
        r == char_of_digit(d as int),
{
    match d {
        0 => '0',
        1 => '1',
        2 => '2',
        3 => '3',
        4 => '4',
        5 => '5',
        6 => '6',
        7 => '7',
        8 => '8',
        _ => '9',
    }
}

/// All characters are digits; an empty sequence qualifies.
pub open spec fn are_digits(s: Seq<char>) -> bool {
    forall|i: int| 0 <= i < s.len() ==> is_digit(s[i])
}

/// A non-empty run of digits.
pub open spec fn is_digits(s: Seq<char>) -> bool {
    s.len() > 0 && are_digits(s)
}

/// Value of a digit run, most significant first.
pub open spec fn digits_val(s: Seq<char>) -> int
    decreases s.len(),
{
    if s.len() == 0 {
        0
    } else {
        digits_val(s.drop_last()) * 10 + digit_of_char(s.last())
    }
}

/// Decimal integer text: an optional sign followed by digits, exactly the
/// textual form the standard integer parsers accept.
pub open spec fn is_int_text(s: Seq<char>) -> bool {
    if s.len() > 0 && (s[0] == '-' || s[0] == '+') {
        is_digits(s.drop_first())
    } else {
        is_digits(s)
    }
}

/// Signed value of decimal integer text.
pub open spec fn int_text_val(s: Seq<char>) -> int {
    if s.len() > 0 && s[0] == '-' {
        -digits_val(s.drop_first())
    } else if s.len() > 0 && s[0] == '+' {
        digits_val(s.drop_first())
    } else {
        digits_val(s)
    }
}

pub proof fn lemma_digits_val_nonneg(s: Seq<char>)
    requires
        are_digits(s),
    ensures
        digits_val(s) >= 0,
    decreases s.len(),
{
    if s.len() > 0 {
        lemma_digits_val_nonneg(s.drop_last());
    }
}

proof fn lemma_digits_val_take_step(s: Seq<char>, i: int)
    requires
        0 <= i < s.len(),
    ensures
        digits_val(s.take(i + 1)) == digits_val(s.take(i)) * 10 + digit_of_char(s[i]),
{
    assert(s.take(i + 1).drop_last() =~= s.take(i));
    assert(s.take(i + 1).last() == s[i]);
}

proof fn proof_take_nonneg(s: Seq<char>, i: int)
    requires
        are_digits(s.take(i)),
        0 <= i <= s.len(),
    ensures
        digits_val(s.take(i)) >= 0,
{
    lemma_digits_val_nonneg(s.take(i));
}

/// Parses decimal integer text whose value lies in `[lo, hi]`.
///
/// Returns the value exactly when the text is well-formed integer text and
/// its value lies in the range; distinguishing the two failure causes is not
/// needed by any caller.
pub fn parse_int_in_range(s: &str, lo: i128, hi: i128) -> (r: Option<i128>)
    requires
        lo <= hi,
    ensures
        match r {
            Some(v) => is_int_text(s@) && lo <= v <= hi && v as int == int_text_val(s@),
            None => !is_int_text(s@) || int_text_val(s@) < lo || int_text_val(s@) > hi,
        },
{
    let n = s.unicode_len();
    if n == 0 {
        return None;
    }
    let c0 = s.get_char(0);
    let neg = c0 == '-';
    let has_sign = neg || c0 == '+';
    let start: usize = if has_sign {
        1
    } else {
        0
    };
    let ghost d = s@.subrange(start as int, n as int);
    proof {
        if has_sign {
            assert(s@.drop_first() =~= d);
        } else {
            assert(s@ =~= d);
        }
    }
    if start == n {
        return None;
    }
    let mut acc: u128 = 0;
    let mut over = false;
    let mut i = start;
    while i < n
        invariant
            start <= i <= n,
            start < n,
            n == s@.len(),
            neg == (s@[0] == '-'),
            has_sign == (s@[0] == '-' || s@[0] == '+'),
            start == if has_sign { 1int } else { 0int },
            d == s@.subrange(start as int, n as int),
            has_sign ==> d == s@.drop_first(),
            !has_sign ==> d == s@,
            are_digits(d.take(i - start)),
            !over ==> acc as int == digits_val(d.take(i - start)),
            over ==> digits_val(d.take(i - start)) > u128::MAX as int,
        decreases n - i,
    {
        let c = s.get_char(i);
        let dv = digit_value(c);
        if dv >= 10 {
            proof {
                assert(d[i - start] == s@[i as int]);
                assert(!is_digit(d[i - start]));
                assert(!is_digits(d));
                assert(!is_int_text(s@));
            }
            return None;
        }
        proof {
            assert(d.take(i - start + 1) =~= d.take(i - start).push(s@[i as int]));
            lemma_digits_val_take_step(d, i - start);
        }
        if !over {
            if acc > (u128::MAX - dv as u128) / 10 {
                proof {
                    let m = u128::MAX as int;
                    let x = m - dv;
                    assert(x == 10 * (x / 10) + x % 10);
                    assert(acc as int * 10 + dv > m) by {
                        assert(acc as int >= x / 10 + 1);
                        assert(acc as int * 10 >= (x / 10 + 1) * 10);
                    }
                }
                over = true;
            } else {
                proof {
                    let m = u128::MAX as int;
                    let x = m - dv;
                    assert(x == 10 * (x / 10) + x % 10);
                    assert(acc as int * 10 + dv <= m) by {
                        assert(acc as int <= x / 10);
                        assert(acc as int * 10 <= (x / 10) * 10);
                    }
                }
                acc = acc * 10 + dv as u128;
            }
        } else {
            proof {
                let prev = digits_val(d.take(i - start));
                proof_take_nonneg(d, i - start);
                assert(prev * 10 >= prev);
            }
        }
        i = i + 1;
    }
    proof {
        assert(d.take(n - start) =~= d);
        assert(is_digits(d));
        assert(is_int_text(s@));
    }
    let half: u128 = (i128::MAX as u128) + 1;
    if over {
        proof {
            assert(digits_val(d) > u128::MAX as int);
            assert(u128::MAX as int >= hi);
            assert(-digits_val(d) < lo);
        }
        return None;
    }
    if neg {
        if acc > half {
            return None;
        }
        let v = if acc == half {
            i128::MIN
        } else {
            -(acc as i128)
        };
        if v < lo || v > hi {
            return None;
        }
        Some(v)
    } else {
        if acc > i128::MAX as u128 {
            return None;
        }
        let v = acc as i128;
        if v < lo || v > hi {
            return None;
        }
        Some(v)
    }
}

/// Digit characters of a non-negative value, most significant first.
pub open spec fn dec_digits(n: int) -> Seq<char>
    recommends
        n >= 0,
    decreases n,
{
    if n < 10 {
        seq![char_of_digit(n)]
    } else {
        dec_digits(n / 10).push(char_of_digit(n % 10))
    }
}

/// Canonical decimal rendering of an integer.
pub open spec fn spec_render_int(v: int) -> Seq<char> {
    if v < 0 {
        seq!['-'] + dec_digits(-v)
    } else {
        dec_digits(v)
    }
}

pub proof fn lemma_dec_digits_are_digits(n: int)
    requires
        n >= 0,
    ensures
        is_digits(dec_digits(n)),
        dec_digits(n)[0] != '-',
        dec_digits(n)[0] != '+',
    decreases n,
{
    if n >= 10 {
        lemma_dec_digits_are_digits(n / 10);
    }
}

pub proof fn lemma_dec_digits_val(n: int)
    requires
        n >= 0,
    ensures
        digits_val(dec_digits(n)) == n,
    decreases n,
{
    if n < 10 {
        assert(dec_digits(n).drop_last() =~= Seq::<char>::empty());
        assert(dec_digits(n).last() == char_of_digit(n));
        assert(digit_of_char(char_of_digit(n)) == n);
        assert(digits_val(dec_digits(n)) == digits_val(Seq::<char>::empty()) * 10
            + digit_of_char(char_of_digit(n)));
    } else {
        lemma_dec_digits_val(n / 10);
        assert(dec_digits(n).drop_last() =~= dec_digits(n / 10));
        assert(0 <= n % 10 < 10);
        assert(dec_digits(n).last() == char_of_digit(n % 10));
        assert(digit_of_char(char_of_digit(n % 10)) == n % 10);
        assert(n == 10 * (n / 10) + n % 10);
    }
}

/// The canonical rendering parses back to the same value.
pub proof fn lemma_render_int_roundtrip(v: int)
    ensures
        is_int_text(spec_render_int(v)),
        int_text_val(spec_render_int(v)) == v,
{
    if v < 0 {
        lemma_dec_digits_are_digits(-v);
        lemma_dec_digits_val(-v);
        assert(spec_render_int(v).drop_first() =~= dec_digits(-v));
        assert(spec_render_int(v)[0] == '-');
    } else {
        lemma_dec_digits_are_digits(v);
        lemma_dec_digits_val(v);
    }
}

/// Unsigned value of a big-endian byte sequence.
pub open spec fn be_val(bs: Seq<u8>) -> int
    decreases bs.len(),
{
    if bs.len() == 0 {
        0
    } else {
        be_val(bs.drop_last()) * 256 + bs.last()
    }
}

pub open spec fn pow256(n: nat) -> int
    decreases n,
{
    if n == 0 {
        1
    } else {
        256 * pow256((n - 1) as nat)
    }
}

/// Two's-complement reading of a 16-byte big-endian encoding.
pub open spec fn i128_of_be(bs: Seq<u8>) -> int
    recommends
        bs.len() == 16,
{
    let u = be_val(bs);
    if u >= 0x80000000000000000000000000000000 {
        u - 0x100000000000000000000000000000000
    } else {
        u
    }
}

/// A byte sequence right-aligned into 16 bytes with zero padding.
pub open spec fn zero_extended_16(bs: Seq<u8>) -> Seq<u8>
    recommends
        bs.len() <= 16,
{
    Seq::new((16 - bs.len()) as nat, |i: int| 0u8) + bs
}

proof fn lemma_pow256_16()
    ensures
        pow256(16) == 0x100000000000000000000000000000000,
{
    reveal_with_fuel(pow256, 17);
}

/// Reads a right-aligned, zero-padded big-endian byte array as a signed
/// 128-bit integer.
pub fn i128_from_be_padded(bs: &Vec<u8>) -> (r: i128)
    requires
        bs@.len() <= 16,
    ensures
        r as int == i128_of_be(zero_extended_16(bs@)),
{
    let ghost full = zero_extended_16(bs@);
    let pad = 16 - bs.len();
    let mut acc: u128 = 0;
    let mut i: usize = 0;
    proof {
        lemma_pow256_16();
        lemma_pow256_mono(0, pad as nat);
        assert(full.take(pad as int) =~= Seq::new(pad as nat, |k: int| 0u8));
        lemma_zero_prefix_val(Seq::new(pad as nat, |k: int| 0u8));
    }
    while i < bs.len()
        invariant
            0 <= i <= bs@.len(),
            bs@.len() <= 16,
            pad == 16 - bs@.len(),
            full == zero_extended_16(bs@),
            full.len() == 16,
            acc as int == be_val(full.take(pad + i)),
            (acc as int) < pow256((i + pad) as nat),
            pow256(16) == 0x100000000000000000000000000000000,
        decreases bs@.len() - i,
    {
        let b = bs[i];
        proof {
            assert(full.take(pad + i + 1).drop_last() =~= full.take(pad + i));
            assert(full.take(pad + i + 1).last() == bs@[i as int]);
            lemma_pow256_mono((i + pad + 1) as nat, 16);
            assert(acc as int * 256 + b <= (pow256((i + pad) as nat) - 1) * 256 + 255)
                by (nonlinear_arith)
                requires
                    acc as int <= pow256((i + pad) as nat) - 1,
                    b <= 255,
            ;
            assert((pow256((i + pad) as nat) - 1) * 256 + 255 == pow256((i + pad + 1) as nat)
                - 1);
        }
        acc = acc * 256 + b as u128;
        i = i + 1;
    }
    proof {
        assert(full.take(16) =~= full);
    }
    let half: u128 = (i128::MAX as u128) + 1;
    if acc >= half {
        let diff = u128::MAX - acc;
        -(diff as i128) - 1
    } else {
        acc as i128
    }
}

proof fn lemma_zero_prefix_val(zs: Seq<u8>)
    requires
        forall|i: int| 0 <= i < zs.len() ==> zs[i] == 0u8,
    ensures
        be_val(zs) == 0,
    decreases zs.len(),
{
    if zs.len() > 0 {
        lemma_zero_prefix_val(zs.drop_last());
    }
}

proof fn lemma_pow256_mono(a: nat, b: nat)
    requires
        a <= b,
    ensures
        pow256(a) <= pow256(b),
        pow256(a) >= 1,
    decreases b,
{
    if a < b {
        lemma_pow256_mono(a, (b - 1) as nat);
        assert(pow256(b) == 256 * pow256((b - 1) as nat));
    } else if b > 0 {
        lemma_pow256_mono((a - 1) as nat, (b - 1) as nat);
    }
}

/// Big-endian 16-byte encoding of a signed 128-bit integer.
pub fn i128_to_be(v: i128) -> (r: Vec<u8>)
    ensures
        r@.len() == 16,
        i128_of_be(r@) == v as int,
{
    let u: u128 = if v >= 0 {
        v as u128
    } else {
        u128::MAX - ((-(v + 1)) as u128)
    };
    let ghost u0 = u as int;
    proof {
        lemma_pow256_16();
    }
    let mut le: Vec<u8> = Vec::new();
    let mut cur: u128 = u;
    let mut k: usize = 0;
    while k < 16
        invariant
            0 <= k <= 16,
            le@.len() == k,
            u0 == le_val(le@) + cur as int * pow256(k as nat),
            pow256(16) == 0x100000000000000000000000000000000,
        decreases 16 - k,
    {
        let ghost oldle = le@;
        let ghost oldcur = cur as int;
        le.push((cur % 256) as u8);
        cur = cur / 256;
        proof {
            lemma_le_val_push(oldle, ((oldcur % 256) as u8));
            assert(oldcur == 256 * (oldcur / 256) + oldcur % 256);
            assert(le_val(oldle) + (oldcur % 256) * pow256(k as nat) + (oldcur / 256) * (256
                * pow256(k as nat)) == le_val(oldle) + oldcur * pow256(k as nat))
                by (nonlinear_arith)
                requires
                    oldcur == 256 * (oldcur / 256) + oldcur % 256,
            ;
        }
        k = k + 1;
    }
    proof {
        lemma_le_val_bound(le@);
        if cur > 0 {
            assert(cur as int * pow256(16) >= pow256(16)) by (nonlinear_arith)
                requires
                    cur as int >= 1,
                    pow256(16) > 0,
            ;
        }
        assert(u0 == le_val(le@));
    }
    let mut be: Vec<u8> = Vec::new();
    let mut i: usize = 0;
    while i < 16
        invariant
            0 <= i <= 16,
            le@.len() == 16,
            be@.len() == i,
            forall|j: int| 0 <= j < i ==> be@[j] == le@[15 - j],
        decreases 16 - i,
    {
        be.push(le[15 - i]);
        i = i + 1;
    }
    proof {
        lemma_be_of_reversed(le@, be@);
        assert(be_val(be@) == u0);
        lemma_pow256_16();
        if v >= 0 {
            assert(i128_of_be(be@) == v as int);
        } else {
            assert(u0 == 0x100000000000000000000000000000000 + v);
            assert(i128_of_be(be@) == v as int);
        }
    }
    be
}

/// Unsigned value of a little-endian byte sequence.
spec fn le_val(bs: Seq<u8>) -> int
    decreases bs.len(),
{
    if bs.len() == 0 {
        0
    } else {
        bs.first() + 256 * le_val(bs.drop_first())
    }
}

proof fn lemma_le_val_push(bs: Seq<u8>, b: u8)
    ensures
        le_val(bs.push(b)) == le_val(bs) + b * pow256(bs.len()),
    decreases bs.len(),
{
    if bs.len() == 0 {
        assert(bs.push(b).drop_first() =~= Seq::<u8>::empty());
        assert(le_val(bs.push(b)) == b + 256 * le_val(Seq::<u8>::empty()));
    } else {
        assert(bs.push(b).drop_first() =~= bs.drop_first().push(b));
        lemma_le_val_push(bs.drop_first(), b);
        assert(le_val(bs.push(b)) == bs.first() + 256 * (le_val(bs.drop_first()) + b * pow256(
            (bs.len() - 1) as nat,
        )));
        assert(256 * (le_val(bs.drop_first()) + b * pow256((bs.len() - 1) as nat)) == 256
            * le_val(bs.drop_first()) + b * (256 * pow256((bs.len() - 1) as nat)))
            by (nonlinear_arith);
    }
}

proof fn lemma_le_val_bound(bs: Seq<u8>)
    ensures
        le_val(bs) >= 0,
    decreases bs.len(),
{
    if bs.len() > 0 {
        lemma_le_val_bound(bs.drop_first());
    }
}

/// A byte sequence read big-endian equals its reversal read little-endian.
proof fn lemma_be_of_reversed(le: Seq<u8>, be: Seq<u8>)
    requires
        le.len() == be.len(),
        forall|j: int| 0 <= j < be.len() ==> be[j] == le[le.len() - 1 - j],
    ensures
        be_val(be) == le_val(le),
    decreases le.len(),
{
    if le.len() > 0 {
        let le2 = le.drop_first();
        let be2 = be.drop_last();
        assert(forall|j: int| 0 <= j < be2.len() ==> be2[j] == le2[le2.len() - 1 - j]);
        lemma_be_of_reversed(le2, be2);
        assert(be.last() == le.first());
        assert(le_val(le) == le.first() + 256 * le_val(le2));
    }
}

/// Renders an integer in its canonical decimal form.
pub fn render_int(v: i128) -> (r: String)
    ensures
        r@ == spec_render_int(v as int),
{
    let mut out = String::new();
    let neg = v < 0;
    if neg {
        push_char(&mut out, '-');
    }
    let half: u128 = (i128::MAX as u128) + 1;
    let mut cur: u128 = if v < 0 {
        if v == i128::MIN {
            half
        } else {
            (-v) as u128
        }
    } else {
        v as u128
    };
    let ghost m0 = cur as int;
    let ghost pre = out@;
    if cur == 0 {
        push_char(&mut out, '0');
        proof {
            assert(out@ =~= pre + dec_digits(0));
        }
        return out;
    }
    let mut digits: Vec<char> = Vec::new();
    while cur > 0
        invariant
            cur as int >= 0,
            m0 > 0,
            cur > 0 ==> dec_digits(m0) == dec_digits(cur as int) + digits@.reverse(),
            cur == 0 ==> dec_digits(m0) == digits@.reverse(),
        decreases cur,
    {
        let dv = (cur % 10) as u8;
        let c = digit_char(dv);
        let ghost olddigits = digits@;
        let ghost oldcur = cur as int;
        digits.push(c);
        cur = cur / 10;
        proof {
            assert(oldcur == 10 * (oldcur / 10) + oldcur % 10);
            assert(digits@.reverse() =~= seq![c] + olddigits.reverse());
            if cur == 0 {
                assert(dec_digits(oldcur) =~= seq![c]);
                assert(dec_digits(m0) =~= digits@.reverse());
            } else {
                assert(dec_digits(oldcur) == dec_digits(oldcur / 10).push(c));
                assert(dec_digits(oldcur) + olddigits.reverse() =~= dec_digits(cur as int)
                    + digits@.reverse());
            }
        }
    }
    let dlen = digits.len();
    let mut k: usize = 0;
    while k < dlen
        invariant
            0 <= k <= dlen,
            dlen == digits@.len(),
            digits@.len() > 0,
            out@ == pre + digits@.reverse().take(k as int),
        decreases dlen - k,
    {
        push_char(&mut out, digits[dlen - 1 - k]);
        proof {
            assert(digits@.reverse().take(k + 1) =~= digits@.reverse().take(k as int).push(
                digits@[dlen - 1 - k],
            ));
            assert(out@ =~= pre + digits@.reverse().take(k + 1));
        }
        k = k + 1;
    }
    proof {
        assert(digits@.reverse().take(dlen as int) =~= digits@.reverse());
        if neg {
            assert(out@ =~= spec_render_int(v as int));
        } else {
            assert(pre =~= Seq::<char>::empty());
            assert(out@ =~= spec_render_int(v as int));
        }
    }
    out
}

} // verus!
