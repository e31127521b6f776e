//! Decoding of integer values written as text in an ARXML description.

use vstd::prelude::*;

verus! {

/// The value of `c` as a digit, or 36 when it is no digit in any radix.
pub open spec fn digit_value(c: char) -> nat {
    if '0' <= c && c <= '9' {
        (c as int - '0' as int) as nat
    } else if 'a' <= c && c <= 'z' {
        (c as int - 'a' as int + 10) as nat
    } else if 'A' <= c && c <= 'Z' {
        (c as int - 'A' as int + 10) as nat
    } else {
        36
    }
}

pub open spec fn all_digits(d: Seq<char>, radix: nat) -> bool {
    forall|i: int| 0 <= i < d.len() ==> digit_value(#[trigger] d[i]) < radix
}

/// The number that the digits `d` stand for in base `radix`.
pub open spec fn digits_number(d: Seq<char>, radix: nat) -> nat
    decreases d.len(),
{
    if d.len() == 0 {
        0
    } else {
        digits_number(d.drop_last(), radix) * radix + digit_value(d.last())
    }
}

/// An unsigned integer in base `radix`, as `u64::from_str_radix` reads it:
/// an optional `+` followed by at least one digit, and a value that fits.
pub open spec fn radix_parse(s: Seq<char>, radix: nat) -> Option<u64> {
    let d = if s.len() > 1 && s[0] == '+' {
        s.skip(1)
    } else {
        s
    };
    if d.len() > 0 && all_digits(d, radix) && digits_number(d, radix) <= u64::MAX {
        Some(digits_number(d, radix) as u64)
    } else {
        None
    }
}

pub open spec fn ascii_lower(c: char) -> char {
    if 'A' <= c && c <= 'Z' {
        (c as int + 32) as char
    } else {
        c
    }
}

pub open spec fn ascii_lower_eq(s: Seq<char>, word: Seq<char>) -> bool {
    s.len() == word.len() && forall|i: int| 0 <= i < s.len() ==> ascii_lower(#[trigger] s[i]) == word[i]
}

/// The integer that an ARXML text stands for: `0`, hexadecimal after `0x`/`0X`,
/// binary after `0b`/`0B`, octal after a leading `0`, `false`/`true` in any ASCII
/// case as 0/1, decimal otherwise.
pub open spec fn decoded_integer(t: Seq<char>) -> Option<u64> {
    if t =~= seq!['0'] {
        Some(0)
    } else if t.len() >= 2 && t[0] == '0' && (t[1] == 'x' || t[1] == 'X') {
        radix_parse(t.skip(2), 16)
    } else if t.len() >= 2 && t[0] == '0' && (t[1] == 'b' || t[1] == 'B') {
        radix_parse(t.skip(2), 2)
    } else if t.len() >= 1 && t[0] == '0' {
        radix_parse(t.skip(1), 8)
    } else if ascii_lower_eq(t, seq!['f', 'a', 'l', 's', 'e']) {
        Some(0)
    } else if ascii_lower_eq(t, seq!['t', 'r', 'u', 'e']) {
        Some(1)
    } else {
        radix_parse(t, 10)
    }
}

/// The characters of `text`.
pub fn text_chars(text: &str) -> (out: Vec<char>)
    ensures
        out@ == text@,
{
    let n = text.unicode_len();
    let mut out: Vec<char> = Vec::new();
    let mut i: usize = 0;
    while i < n
        invariant
            i <= n,
            n == text@.len(),
            out@ == text@.take(i as int),
        decreases n - i,
    {
        out.push(text.get_char(i));
        i = i + 1;
        assert(out@ =~= text@.take(i as int));
    }
    assert(text@.take(n as int) =~= text@);
    out
}

fn char_digit(c: char) -> (d: u32)
    ensures
        d as nat == digit_value(c),
{
    if '0' <= c && c <= '9' {
        (c as u32) - ('0' as u32)
    } else if 'a' <= c && c <= 'z' {
        (c as u32) - ('a' as u32) + 10
    } else if 'A' <= c && c <= 'Z' {
        (c as u32) - ('A' as u32) + 10
    } else {
        36
    }
}

proof fn lemma_digits_number_grows(d: Seq<char>, k: int, radix: nat)
    requires
        0 <= k <= d.len(),
        radix >= 1,
    ensures
        digits_number(d.take(k), radix) <= digits_number(d, radix),
    decreases d.len() - k,
{
    if k < d.len() {
        lemma_digits_number_grows(d, k + 1, radix);
        assert(d.take(k + 1).drop_last() =~= d.take(k));
        let n = digits_number(d.take(k), radix);
        assert(n * radix >= n) by (nonlinear_arith)
            requires
                radix >= 1,
        ;
    } else {
        assert(d.take(k) =~= d);
    }
}

/// Reads `chars[from..]` as an unsigned integer in base `radix`.
fn parse_radix(chars: &Vec<char>, from: usize, radix: u32) -> (r: Option<u64>)
    requires
        from <= chars.len(),
        2 <= radix <= 36,
    ensures
        r == radix_parse(chars@.skip(from as int), radix as nat),
{
    let ghost s = chars@.skip(from as int);
    let mut start = from;
    if chars.len() - from > 1 && chars[from] == '+' {
        start = from + 1;
    }
    let ghost d = chars@.skip(start as int);
    assert(d =~= if s.len() > 1 && s[0] == '+' {
        s.skip(1)
    } else {
        s
    });
    if start == chars.len() {
        return None;
    }
    let mut acc: u64 = 0;
    let mut i: usize = start;
    while i < chars.len()
        invariant
            start <= i <= chars.len(),
            2 <= radix <= 36,
            d == chars@.skip(start as int),
            s == chars@.skip(from as int),
            d == if s.len() > 1 && s[0] == '+' {
                s.skip(1)
            } else {
                s
            },
            d.len() > 0,
            all_digits(d.take(i - start), radix as nat),
            acc as nat == digits_number(d.take(i - start), radix as nat),
        decreases chars.len() - i,
    {
        let ghost k = (i - start) as int;
        assert(d.take(k + 1).drop_last() =~= d.take(k));
        assert(d[k] == chars@[i as int]);
        let digit = char_digit(chars[i]);
        if digit >= radix {
            assert(!all_digits(d, radix as nat));
            return None;
        }
        match acc.checked_mul(radix as u64) {
            None => {
                proof {
                    lemma_digits_number_grows(d, k + 1, radix as nat);
                }
                return None;
            },
            Some(m) => match m.checked_add(digit as u64) {
                None => {
                    proof {
                        lemma_digits_number_grows(d, k + 1, radix as nat);
                    }
                    return None;
                },
                Some(next) => {
                    acc = next;
                },
            },
        }
        i = i + 1;
        assert(all_digits(d.take(i - start), radix as nat)) by {
            assert forall|j: int| 0 <= j < i - start implies digit_value(
                #[trigger] d.take(i - start)[j],
            ) < radix as nat by {
                if j < k {
                    assert(d.take(i - start)[j] == d.take(k)[j]);
                }
            }
        }
    }
    assert(d.take(d.len() as int) =~= d);
    Some(acc)
}

pub(crate) fn lower_equals(chars: &Vec<char>, word: &Vec<char>) -> (r: bool)
    ensures
        r == ascii_lower_eq(chars@, word@),
{
    if chars.len() != word.len() {
        return false;
    }
    let mut i: usize = 0;
    while i < chars.len()
        invariant
            i <= chars.len(),
            chars.len() == word.len(),
            forall|j: int| 0 <= j < i ==> ascii_lower(#[trigger] chars@[j]) == word@[j],
        decreases chars.len() - i,
    {
        let c = chars[i];
        let lower = if 'A' <= c && c <= 'Z' {
            ((c as u8) + 32) as char
        } else {
            c
        };
        if lower != word[i] {
            return false;
        }
        i = i + 1;
    }
    true
}

/// Decodes the integer that `text` stands for, as [`decoded_integer`] says.
pub fn decode_integer_text(text: &str) -> (r: Option<u64>)
    ensures
        r == decoded_integer(text@),
{
    let t = text_chars(text);
    if t.len() == 1 && t[0] == '0' {
        assert(t@ =~= seq!['0']);
        Some(0)
    } else if t.len() >= 2 && t[0] == '0' && (t[1] == 'x' || t[1] == 'X') {
        parse_radix(&t, 2, 16)
    } else if t.len() >= 2 && t[0] == '0' && (t[1] == 'b' || t[1] == 'B') {
        parse_radix(&t, 2, 2)
    } else if t.len() >= 1 && t[0] == '0' {
        parse_radix(&t, 1, 8)
    } else if lower_equals(&t, &vec!['f', 'a', 'l', 's', 'e']) {
        Some(0)
    } else if lower_equals(&t, &vec!['t', 'r', 'u', 'e']) {
        Some(1)
    } else {
        proof {
            assert(t@.skip(0) =~= t@);
        }
        parse_radix(&t, 0, 10)
    }
}

} // verus!
