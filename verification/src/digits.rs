//! Decimal and hexadecimal numerals: what a numeral denotes, how a number
//! is written, and that reading what was written gives the number back.

use vstd::prelude::*;

verus! {

/// Whether a character is one of `0` to `9`.
pub open spec fn is_decimal_digit(c: char) -> bool {
    '0' <= c && c <= '9'
}

/// The number that a decimal digit denotes.
pub open spec fn decimal_digit_value(c: char) -> nat {
    (c as u8 - 48) as nat
}

/// The character for a digit below ten.
pub open spec fn decimal_digit(d: nat) -> char {
    ((48 + d) as u8) as char
}

/// Whether a text holds decimal digits only.
pub open spec fn all_decimal_digits(s: Seq<char>) -> bool {
    forall|i: int| 0 <= i < s.len() ==> is_decimal_digit(#[trigger] s[i])
}

/// The number that a string of decimal digits denotes, most significant first.
pub open spec fn decimal_value(s: Seq<char>) -> nat
    decreases s.len(),
{
    if s.len() == 0 {
        0
    } else {
        decimal_value(s.drop_last()) * 10 + decimal_digit_value(s.last())
    }
}

/// A decimal numeral is one digit or more, and nothing else.
pub open spec fn parse_decimal(s: Seq<char>) -> Option<nat> {
    if s.len() > 0 && all_decimal_digits(s) {
        Some(decimal_value(s))
    } else {
        None
    }
}

/// The shortest decimal numeral for `n`.
pub open spec fn decimal(n: nat) -> Seq<char>
    decreases n,
{
    if n < 10 {
        seq![decimal_digit(n)]
    } else {
        decimal(n / 10).push(decimal_digit(n % 10))
    }
}

/// Whether a byte is one of `0` to `9`, `a` to `f` or `A` to `F`.
pub open spec fn is_hex_digit(b: u8) -> bool {
    (48 <= b <= 57) || (97 <= b <= 102) || (65 <= b <= 70)
}

/// The number that a hexadecimal digit denotes.
pub open spec fn hex_digit_value(b: u8) -> nat {
    if 48 <= b <= 57 {
        (b - 48) as nat
    } else if 97 <= b <= 102 {
        (b - 87) as nat
    } else {
        (b - 55) as nat
    }
}

/// The lower-case ASCII byte for a digit below sixteen.
pub open spec fn hex_digit(d: nat) -> u8 {
    if d < 10 {
        (48 + d) as u8
    } else {
        (87 + d) as u8
    }
}

/// Whether the bytes are hexadecimal digits only.
pub open spec fn all_hex_digits(s: Seq<u8>) -> bool {
    forall|i: int| 0 <= i < s.len() ==> is_hex_digit(#[trigger] s[i])
}

/// The number that a string of hexadecimal digits denotes, most significant
/// first, in either case.
pub open spec fn hex_value(s: Seq<u8>) -> nat
    decreases s.len(),
{
    if s.len() == 0 {
        0
    } else {
        hex_value(s.drop_last()) * 16 + hex_digit_value(s.last())
    }
}

/// A hexadecimal numeral is one digit or more, and nothing else.
pub open spec fn parse_hex(s: Seq<u8>) -> Option<nat> {
    if s.len() > 0 && all_hex_digits(s) {
        Some(hex_value(s))
    } else {
        None
    }
}

/// The shortest lower-case hexadecimal numeral for `n`.
pub open spec fn hex(n: nat) -> Seq<u8>
    decreases n,
{
    if n < 16 {
        seq![hex_digit(n)]
    } else {
        hex(n / 16).push(hex_digit(n % 16))
    }
}

/// Reading the decimal numeral of `n` gives `n`.
pub proof fn lemma_decimal_round_trip(n: nat)
    ensures
        parse_decimal(decimal(n)) == Some(n),
    decreases n,
{
    if n < 10 {
        assert(decimal(n).drop_last() =~= Seq::<char>::empty());
        assert(decimal_value(decimal(n).drop_last()) == 0);
    } else {
        lemma_decimal_round_trip(n / 10);
        assert(decimal(n).drop_last() =~= decimal(n / 10));
    }
}

/// Reading the hexadecimal numeral of `n` gives `n`.
pub proof fn lemma_hex_round_trip(n: nat)
    ensures
        parse_hex(hex(n)) == Some(n),
    decreases n,
{
    if n < 16 {
        assert(hex(n).drop_last() =~= Seq::<u8>::empty());
        assert(hex_value(hex(n).drop_last()) == 0);
    } else {
        lemma_hex_round_trip(n / 16);
        assert(hex(n).drop_last() =~= hex(n / 16));
    }
}

/// A numeral denotes at least what any of its prefixes denotes.
pub proof fn lemma_hex_value_prefix(s: Seq<u8>, k: int)
    requires
        0 <= k <= s.len(),
    ensures
        hex_value(s.take(k)) <= hex_value(s),
    decreases s.len() - k,
{
    if k == s.len() {
        assert(s.take(k) =~= s);
    } else {
        lemma_hex_value_prefix(s, k + 1);
        assert(s.take(k + 1).drop_last() =~= s.take(k));
    }
}

/// A numeral denotes at least what any of its prefixes denotes.
pub proof fn lemma_decimal_value_prefix(s: Seq<char>, k: int)
    requires
        0 <= k <= s.len(),
    ensures
        decimal_value(s.take(k)) <= decimal_value(s),
    decreases s.len() - k,
{
    if k == s.len() {
        assert(s.take(k) =~= s);
    } else {
        lemma_decimal_value_prefix(s, k + 1);
        assert(s.take(k + 1).drop_last() =~= s.take(k));
    }
}

/// Reads a decimal numeral. `None` where `s` is no numeral or denotes more
/// than a `usize` holds.
pub fn parse_decimal_usize(s: &[char]) -> (r: Option<usize>)
    ensures
        r == match parse_decimal(s@) {
            Some(v) => if v <= usize::MAX {
                Some(v as usize)
            } else {
                None
            },
            None => None,
        },
{
    if s.len() == 0 {
        return None;
    }
    let mut acc: usize = 0;
    let mut i: usize = 0;
    while i < s.len()
        invariant
            i <= s.len(),
            all_decimal_digits(s@.take(i as int)),
            acc == decimal_value(s@.take(i as int)),
        decreases s.len() - i,
    {
        let c = s[i];
        if !('0' <= c && c <= '9') {
            assert(!is_decimal_digit(s@[i as int]));
            return None;
        }
        let d: usize = (c as u8 - 48) as usize;
        assert(s@.take(i + 1).drop_last() =~= s@.take(i as int));
        assert(decimal_value(s@.take(i + 1)) == acc * 10 + d);
        if acc > (usize::MAX - d) / 10 {
            proof {
                if all_decimal_digits(s@) {
                    lemma_decimal_value_prefix(s@, i + 1);
                }
            }
            return None;
        }
        acc = acc * 10 + d;
        i += 1;
    }
    assert(s@.take(i as int) =~= s@);
    Some(acc)
}

/// Writes `n` in decimal.
pub fn format_decimal(n: usize) -> (v: Vec<char>)
    ensures
        v@ == decimal(n as nat),
    decreases n,
{
    let d: u8 = (n % 10) as u8;
    let c: char = (48 + d) as char;
    if n < 10 {
        let mut v: Vec<char> = Vec::new();
        v.push(c);
        assert(v@ =~= decimal(n as nat));
        v
    } else {
        let mut v = format_decimal(n / 10);
        v.push(c);
        v
    }
}

/// Reads a hexadecimal numeral. `None` where `s` is no numeral or denotes
/// more than a `usize` holds.
pub fn parse_hex_usize(s: &[u8]) -> (r: Option<usize>)
    ensures
        r == match parse_hex(s@) {
            Some(v) => if v <= usize::MAX {
                Some(v as usize)
            } else {
                None
            },
            None => None,
        },
{
    if s.len() == 0 {
        return None;
    }
    let mut acc: usize = 0;
    let mut i: usize = 0;
    while i < s.len()
        invariant
            i <= s.len(),
            all_hex_digits(s@.take(i as int)),
            acc == hex_value(s@.take(i as int)),
        decreases s.len() - i,
    {
        let b = s[i];
        let d: usize = if 48 <= b && b <= 57 {
            (b - 48) as usize
        } else if 97 <= b && b <= 102 {
            (b - 87) as usize
        } else if 65 <= b && b <= 70 {
            (b - 55) as usize
        } else {
            assert(!is_hex_digit(s@[i as int]));
            return None;
        };
        assert(s@.take(i + 1).drop_last() =~= s@.take(i as int));
        assert(hex_value(s@.take(i + 1)) == acc * 16 + d);
        if acc > (usize::MAX - d) / 16 {
            proof {
                if all_hex_digits(s@) {
                    lemma_hex_value_prefix(s@, i + 1);
                }
            }
            return None;
        }
        acc = acc * 16 + d;
        i += 1;
    }
    assert(s@.take(i as int) =~= s@);
    Some(acc)
}

/// Writes `n` in lower-case hexadecimal.
pub fn format_hex(n: usize) -> (v: Vec<u8>)
    ensures
        v@ == hex(n as nat),
    decreases n,
{
    let d: u8 = (n % 16) as u8;
    let b: u8 = if d < 10 {
        48 + d
    } else {
        87 + d
    };
    if n < 16 {
        let mut v: Vec<u8> = Vec::new();
        v.push(b);
        assert(v@ =~= hex(n as nat));
        v
    } else {
        let mut v = format_hex(n / 16);
        v.push(b);
        v
    }
}

/// The decimal numeral of a number is made of digits, and of one at least.
pub proof fn lemma_decimal_is_numeral(n: nat)
    ensures
        decimal(n).len() > 0,
        all_decimal_digits(decimal(n)),
{
    lemma_decimal_round_trip(n);
}

} // verus!
