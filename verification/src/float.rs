//! Recognizer for floating-point literal text.
//!
//! The library never holds a floating-point value: a float literal is kept as
//! its text and materialized by the execution engine outside the library.
//! Coercion still has to reject text that is not a valid float encoding, so
//! the accepted grammar — optional sign, then `inf`, `infinity`, `nan` (any
//! case) or digits with an optional point and an optional signed exponent —
//! is recognized here, character by character.

use vstd::prelude::*;
use vstd::string::*;
use crate::number::{are_digits, is_digit, is_digits, is_int_text};
use crate::text::first_index_of;

verus! {

/// Case-insensitive equality with a lower-case letter and its upper-case form.
pub open spec fn char_ci(c: char, l: char, u: char) -> bool {
    c == l || c == u
}

/// `inf`, `infinity` or `nan`, in any case.
pub open spec fn is_special_float(t: Seq<char>) -> bool {
    (t.len() == 3 && char_ci(t[0], 'i', 'I') && char_ci(t[1], 'n', 'N') && char_ci(t[2], 'f', 'F'))
        || (t.len() == 8 && char_ci(t[0], 'i', 'I') && char_ci(t[1], 'n', 'N') && char_ci(
        t[2],
        'f',
        'F',
    ) && char_ci(t[3], 'i', 'I') && char_ci(t[4], 'n', 'N') && char_ci(t[5], 'i', 'I') && char_ci(
        t[6],
        't',
        'T',
    ) && char_ci(t[7], 'y', 'Y')) || (t.len() == 3 && char_ci(t[0], 'n', 'N') && char_ci(
        t[1],
        'a',
        'A',
    ) && char_ci(t[2], 'n', 'N'))
}

pub open spec fn is_exp_char(c: char) -> bool {
    c == 'e' || c == 'E'
}

/// Index of the first exponent marker, or -1 when absent.
pub open spec fn first_exp_index(s: Seq<char>) -> int
    decreases s.len(),
{
    if s.len() == 0 {
        -1
    } else if is_exp_char(s[0]) {
        0
    } else {
        let sub = first_exp_index(s.drop_first());
        if sub == -1 {
            -1
        } else {
            sub + 1
        }
    }
}

proof fn lemma_first_exp_index_found(s: Seq<char>, k: int)
    requires
        0 <= k < s.len(),
        is_exp_char(s[k]),
        forall|i: int| 0 <= i < k ==> !is_exp_char(s[i]),
    ensures
        first_exp_index(s) == k,
    decreases k,
{
    if k > 0 {
        lemma_first_exp_index_found(s.drop_first(), k - 1);
    }
}

proof fn lemma_first_exp_index_absent(s: Seq<char>)
    requires
        forall|i: int| 0 <= i < s.len() ==> !is_exp_char(s[i]),
    ensures
        first_exp_index(s) == -1,
    decreases s.len(),
{
    if s.len() > 0 {
        lemma_first_exp_index_absent(s.drop_first());
    }
}

/// Digits with an optional decimal point; at least one digit in all.
pub open spec fn is_mantissa(m: Seq<char>) -> bool {
    let dp = first_index_of(m, '.');
    if dp == -1 {
        is_digits(m)
    } else {
        let a = m.take(dp);
        let b = m.subrange(dp + 1, m.len() as int);
        are_digits(a) && are_digits(b) && a.len() + b.len() > 0
    }
}

/// The input with one leading sign removed.
pub open spec fn strip_sign(s: Seq<char>) -> Seq<char> {
    if s.len() > 0 && (s[0] == '+' || s[0] == '-') {
        s.drop_first()
    } else {
        s
    }
}

/// Floating-point literal text, exactly the textual forms the standard
/// float parsers accept.
pub open spec fn is_float_text(s: Seq<char>) -> bool {
    let t = strip_sign(s);
    is_special_float(t) || {
        let ep = first_exp_index(t);
        if ep == -1 {
            is_mantissa(t)
        } else {
            is_mantissa(t.take(ep)) && is_int_text(t.subrange(ep + 1, t.len() as int))
        }
    }
}

fn exp_char(c: char) -> (r: bool)
    ensures
        r == is_exp_char(c),
{
    c == 'e' || c == 'E'
}

fn digit(c: char) -> (r: bool)
    ensures
        r == is_digit(c),
{
    match c {
        '0' | '1' | '2' | '3' | '4' | '5' | '6' | '7' | '8' | '9' => true,
        _ => false,
    }
}

/// True when every character of `s@` in `[from, to)` is a digit.
fn all_digits_range(s: &str, from: usize, to: usize) -> (r: bool)
    requires
        from <= to <= s@.len(),
    ensures
        r == are_digits(s@.subrange(from as int, to as int)),
{
    let ghost sub = s@.subrange(from as int, to as int);
    let mut i = from;
    while i < to
        invariant
            from <= i <= to <= s@.len(),
            sub == s@.subrange(from as int, to as int),
            forall|j: int| 0 <= j < i - from ==> is_digit(sub[j]),
        decreases to - i,
    {
        if !digit(s.get_char(i)) {
            proof {
                assert(sub[i - from] == s@[i as int]);
            }
            return false;
        }
        i = i + 1;
    }
    true
}

/// True when `s@` in `[from, to)` is optionally signed digit text.
fn int_text_range(s: &str, from: usize, to: usize) -> (r: bool)
    requires
        from <= to <= s@.len(),
    ensures
        r == is_int_text(s@.subrange(from as int, to as int)),
{
    let ghost sub = s@.subrange(from as int, to as int);
    if from == to {
        return false;
    }
    let c0 = s.get_char(from);
    let start = if c0 == '+' || c0 == '-' {
        from + 1
    } else {
        from
    };
    proof {
        assert(sub[0] == s@[from as int]);
        if start > from {
            assert(sub.drop_first() =~= s@.subrange(start as int, to as int));
        }
    }
    if start == to {
        return false;
    }
    all_digits_range(s, start, to)
}

/// True when `s@` in `[from, to)` is mantissa text.
fn mantissa_range(s: &str, from: usize, to: usize) -> (r: bool)
    requires
        from <= to <= s@.len(),
    ensures
        r == is_mantissa(s@.subrange(from as int, to as int)),
{
    let ghost sub = s@.subrange(from as int, to as int);
    let mut i = from;
    while i < to && s.get_char(i) != '.'
        invariant
            from <= i <= to <= s@.len(),
            sub == s@.subrange(from as int, to as int),
            forall|j: int| 0 <= j < i - from ==> sub[j] != '.',
        decreases to - i,
    {
        proof {
            assert(sub[i - from] == s@[i as int]);
        }
        i = i + 1;
    }
    if i == to {
        proof {
            crate::text::lemma_first_index_of_absent(sub, '.');
        }
        if from == to {
            return false;
        }
        all_digits_range(s, from, to)
    } else {
        proof {
            assert(sub[i - from] == s@[i as int]);
            crate::text::lemma_first_index_of_found(sub, '.', i - from);
            assert(sub.take(i - from) =~= s@.subrange(from as int, i as int));
            assert(sub.subrange(i - from + 1, sub.len() as int) =~= s@.subrange(
                i + 1,
                to as int,
            ));
        }
        let a = all_digits_range(s, from, i);
        let b = all_digits_range(s, i + 1, to);
        a && b && (i > from || to > i + 1)
    }
}

/// True when the whole string is floating-point literal text.
pub fn is_float_literal(s: &str) -> (r: bool)
    ensures
        r == is_float_text(s@),
{
    let n = s.unicode_len();
    let start: usize = if n > 0 {
        let c0 = s.get_char(0);
        if c0 == '+' || c0 == '-' {
            1
        } else {
            0
        }
    } else {
        0
    };
    let ghost t = strip_sign(s@);
    proof {
        if start == 1 {
            assert(t =~= s@.subrange(1, n as int));
        } else {
            assert(t =~= s@.subrange(0, n as int));
        }
    }
    let m = n - start;
    // special spellings first
    if m == 3 || m == 8 {
        let c0 = s.get_char(start);
        let c1 = s.get_char(start + 1);
        let c2 = s.get_char(start + 2);
        proof {
            assert(t[0] == s@[start as int]);
            assert(t[1] == s@[start + 1]);
            assert(t[2] == s@[start + 2]);
        }
        if m == 3 {
            if ((c0 == 'i' || c0 == 'I') && (c1 == 'n' || c1 == 'N') && (c2 == 'f' || c2 == 'F'))
                || ((c0 == 'n' || c0 == 'N') && (c1 == 'a' || c1 == 'A') && (c2 == 'n' || c2
                == 'N')) {
                return true;
            }
        } else {
            let c3 = s.get_char(start + 3);
            let c4 = s.get_char(start + 4);
            let c5 = s.get_char(start + 5);
            let c6 = s.get_char(start + 6);
            let c7 = s.get_char(start + 7);
            proof {
                assert(t[3] == s@[start + 3]);
                assert(t[4] == s@[start + 4]);
                assert(t[5] == s@[start + 5]);
                assert(t[6] == s@[start + 6]);
                assert(t[7] == s@[start + 7]);
            }
            if (c0 == 'i' || c0 == 'I') && (c1 == 'n' || c1 == 'N') && (c2 == 'f' || c2 == 'F')
                && (c3 == 'i' || c3 == 'I') && (c4 == 'n' || c4 == 'N') && (c5 == 'i' || c5
                == 'I') && (c6 == 't' || c6 == 'T') && (c7 == 'y' || c7 == 'Y') {
                return true;
            }
        }
    }
    // find the first exponent marker within the unsigned part
    let mut i = start;
    while i < n && !exp_char(s.get_char(i))
        invariant
            start <= i <= n,
            n == s@.len(),
            t == s@.subrange(start as int, n as int),
            forall|j: int| 0 <= j < i - start ==> !is_exp_char(t[j]),
        decreases n - i,
    {
        proof {
            assert(t[i - start] == s@[i as int]);
        }
        i = i + 1;
    }
    if i == n {
        proof {
            lemma_first_exp_index_absent(t);
        }
        mantissa_range(s, start, n)
    } else {
        proof {
            assert(t[i - start] == s@[i as int]);
            lemma_first_exp_index_found(t, i - start);
            assert(t.take(i - start) =~= s@.subrange(start as int, i as int));
            assert(t.subrange(i - start + 1, t.len() as int) =~= s@.subrange(i + 1, n as int));
        }
        let a = mantissa_range(s, start, i);
        let b = int_text_range(s, i + 1, n);
        a && b
    }
}

} // verus!
