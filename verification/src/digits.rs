//! Canonical decimal renderings of integers, and the value a digit string
//! denotes.  Both the chunk key format and the chunk file format write
//! numbers this way, so the facts proved here back the injectivity of keys
//! and the round trip of the file codec.

use vstd::prelude::*;
use vstd::string::StringExecFns;

verus! {

/// `'0'` through `'9'`.
pub open spec fn is_dec_digit(c: char) -> bool {
    48 <= c as u32 && c as u32 <= 57
}

/// The numeric value of a single digit character.
pub open spec fn digit_val(c: char) -> int {
    c as u32 - 48
}

/// The digit character for a value in `0..10`.
pub open spec fn digit_char(d: int) -> char {
    if d == 0 {
        '0'
    } else if d == 1 {
        '1'
    } else if d == 2 {
        '2'
    } else if d == 3 {
        '3'
    } else if d == 4 {
        '4'
    } else if d == 5 {
        '5'
    } else if d == 6 {
        '6'
    } else if d == 7 {
        '7'
    } else if d == 8 {
        '8'
    } else {
        '9'
    }
}

/// The canonical decimal digit string of a natural number, most significant
/// digit first, with no leading zeros (`0` renders as `"0"`).
pub open spec fn dec_digits(n: nat) -> Seq<char>
    decreases n,
{
    if n < 10 {
        seq![digit_char(n as int)]
    } else {
        dec_digits(n / 10).push(digit_char((n % 10) as int))
    }
}

/// The canonical rendering of a signed integer: a `-` sign for negative
/// values, then the digits of the magnitude.
pub open spec fn int_chars(n: int) -> Seq<char> {
    if n < 0 {
        seq!['-'] + dec_digits((-n) as nat)
    } else {
        dec_digits(n as nat)
    }
}

/// The value denoted by a string of decimal digits (most significant first).
pub open spec fn seq_val(s: Seq<char>) -> int
    decreases s.len(),
{
    if s.len() == 0 {
        0
    } else {
        seq_val(s.drop_last()) * 10 + digit_val(s.last())
    }
}

/// Shape of a canonical digit string: nonempty, all digits, and no leading
/// zero unless the value is zero itself.
pub proof fn lemma_dec_digits_form(n: nat)
    ensures
        dec_digits(n).len() >= 1,
        forall|i: int| 0 <= i < dec_digits(n).len() ==> is_dec_digit(#[trigger] dec_digits(n)[i]),
        n == 0 ==> dec_digits(n) =~= seq!['0'],
        n > 0 ==> dec_digits(n)[0] != '0',
    decreases n,
{
    if n < 10 {
        assert(is_dec_digit(digit_char(n as int)));
    } else {
        lemma_dec_digits_form(n / 10);
        assert(dec_digits(n)[0] == dec_digits(n / 10)[0]);
        assert(is_dec_digit(digit_char((n % 10) as int)));
        assert(forall|i: int|
            0 <= i < dec_digits(n).len() ==> is_dec_digit(#[trigger] dec_digits(n)[i])) by {
            assert(forall|i: int|
                0 <= i < dec_digits(n / 10).len() ==> dec_digits(n)[i] == #[trigger] dec_digits(
                    n / 10,
                )[i]);
        }
    }
}

/// The canonical digit string of `n` denotes `n`.
pub proof fn lemma_seq_val_dec_digits(n: nat)
    ensures
        seq_val(dec_digits(n)) == n,
    decreases n,
{
    if n < 10 {
        let s = dec_digits(n);
        assert(s =~= seq![digit_char(n as int)]);
        assert(s.drop_last() =~= Seq::<char>::empty());
        assert(seq_val(Seq::<char>::empty()) == 0);
        assert(s.last() == digit_char(n as int));
        assert(seq_val(s) == seq_val(s.drop_last()) * 10 + digit_val(s.last()));
        assert(digit_val(digit_char(n as int)) == n);
    } else {
        lemma_seq_val_dec_digits(n / 10);
        assert(dec_digits(n).drop_last() =~= dec_digits(n / 10));
        assert(dec_digits(n).last() == digit_char((n % 10) as int));
        assert(digit_val(digit_char((n % 10) as int)) == n % 10);
        assert(seq_val(dec_digits(n)) == seq_val(dec_digits(n / 10)) * 10 + n % 10);
        assert(n / 10 * 10 + n % 10 == n);
    }
}

/// Distinct naturals have distinct canonical digit strings.
pub proof fn lemma_dec_digits_injective(a: nat, b: nat)
    requires
        dec_digits(a) == dec_digits(b),
    ensures
        a == b,
{
    lemma_seq_val_dec_digits(a);
    lemma_seq_val_dec_digits(b);
}

/// Digit strings denote nonnegative values.
pub proof fn lemma_seq_val_nonneg(s: Seq<char>)
    requires
        forall|i: int| 0 <= i < s.len() ==> is_dec_digit(#[trigger] s[i]),
    ensures
        seq_val(s) >= 0,
    decreases s.len(),
{
    if s.len() > 0 {
        lemma_seq_val_nonneg(s.drop_last());
        assert(is_dec_digit(s.last()));
    }
}

/// Extending a digit string to the right can only grow the value it denotes.
pub proof fn lemma_seq_val_prefix_le(s: Seq<char>, n: int)
    requires
        forall|i: int| 0 <= i < s.len() ==> is_dec_digit(#[trigger] s[i]),
        0 <= n <= s.len(),
    ensures
        seq_val(s.subrange(0, n)) <= seq_val(s),
    decreases s.len() - n,
{
    if n == s.len() {
        assert(s.subrange(0, n) =~= s);
    } else {
        lemma_seq_val_prefix_le(s, n + 1);
        let p = s.subrange(0, n);
        let q = s.subrange(0, n + 1);
        assert(q.drop_last() =~= p);
        assert(is_dec_digit(q.last()));
        lemma_seq_val_nonneg(p);
        assert(seq_val(q) == seq_val(p) * 10 + digit_val(q.last()));
        assert(seq_val(p) * 10 >= seq_val(p));
    }
}

/// A one-character string slice for a digit value.
pub fn digit_str(d: u8) -> (r: &'static str)
    requires
        d < 10,
    ensures
        r@ == seq![digit_char(d as int)],
{
    proof {
        reveal_strlit("0");
        reveal_strlit("1");
        reveal_strlit("2");
        reveal_strlit("3");
        reveal_strlit("4");
        reveal_strlit("5");
        reveal_strlit("6");
        reveal_strlit("7");
        reveal_strlit("8");
        reveal_strlit("9");
    }
    let r: &'static str = match d {
        0 => "0",
        1 => "1",
        2 => "2",
        3 => "3",
        4 => "4",
        5 => "5",
        6 => "6",
        7 => "7",
        8 => "8",
        _ => "9",
    };
    proof {
        assert(r@ =~= seq![digit_char(d as int)]);
    }
    r
}

/// The digit character for a value in `0..10`, as executable code.
pub fn digit_char_exec(d: u8) -> (r: char)
    requires
        d < 10,
    ensures
        r == digit_char(d as int),
{
    match d {
        0 => '0',
        1 => '1',
        2 => '2',
        3 => '3',
        4 => '4',
        5 => '5',
        6 => '6',
        7 => '7',
        8 => '8',
        _ => '9',
    }
}

/// Appends the canonical decimal digits of `n` to a character vector.
pub fn push_dec_chars(v: &mut Vec<char>, n: u64)
    ensures
        final(v)@ == old(v)@ + dec_digits(n as nat),
    decreases n,
{
    if n < 10 {
        v.push(digit_char_exec(n as u8));
        proof {
            assert(v@ =~= old(v)@ + dec_digits(n as nat));
        }
    } else {
        push_dec_chars(v, n / 10);
        v.push(digit_char_exec((n % 10) as u8));
        proof {
            assert((n / 10) as nat == (n as nat) / 10);
            assert((n % 10) as nat == (n as nat) % 10);
            assert(dec_digits(n as nat) =~= dec_digits((n as nat) / 10) + seq![
                digit_char(((n as nat) % 10) as int),
            ]);
            assert(v@ =~= old(v)@ + dec_digits(n as nat));
        }
    }
}

/// Appends the canonical rendering of a signed 32-bit integer to a
/// character vector.
pub fn push_i32_chars(v: &mut Vec<char>, x: i32)
    ensures
        final(v)@ == old(v)@ + int_chars(x as int),
{
    if x < 0 {
        let ghost pre = v@;
        v.push('-');
        let mag: u64 = (-(x as i64)) as u64;
        proof {
            assert(mag as int == -(x as int));
        }
        push_dec_chars(v, mag);
        proof {
            assert(v@ =~= pre + int_chars(x as int));
        }
    } else {
        push_dec_chars(v, x as u64);
    }
}

/// Appends the canonical decimal digits of `n` to `s`.
pub fn push_dec(s: &mut String, n: u64)
    ensures
        final(s)@ == old(s)@ + dec_digits(n as nat),
    decreases n,
{
    if n < 10 {
        s.append(digit_str(n as u8));
        proof {
            assert(s@ =~= old(s)@ + dec_digits(n as nat));
        }
    } else {
        push_dec(s, n / 10);
        s.append(digit_str((n % 10) as u8));
        proof {
            assert((n / 10) as nat == (n as nat) / 10);
            assert((n % 10) as nat == (n as nat) % 10);
            assert(dec_digits(n as nat) =~= dec_digits((n as nat) / 10) + seq![
                digit_char(((n as nat) % 10) as int),
            ]);
            assert(s@ =~= old(s)@ + dec_digits(n as nat));
        }
    }
}

/// Appends the canonical rendering of a signed 32-bit integer to `s`.
pub fn push_i32(s: &mut String, v: i32)
    ensures
        final(s)@ == old(s)@ + int_chars(v as int),
{
    proof {
        reveal_strlit("-");
    }
    if v < 0 {
        let ghost pre = s@;
        s.append("-");
        let mag: u64 = (-(v as i64)) as u64;
        proof {
            assert(mag as int == -(v as int));
        }
        push_dec(s, mag);
        proof {
            assert("-"@ =~= seq!['-']);
            assert(s@ =~= pre + int_chars(v as int));
        }
    } else {
        push_dec(s, v as u64);
    }
}

} // verus!
