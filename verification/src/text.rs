//! Small verified routines on character sequences: conversion between
//! strings and character vectors, case-insensitive matching, number parsing
//! and printing, and lexicographic order.

use vstd::prelude::*;
use vstd::string::*;

verus! {

/// `String::push` appends one character to the string.
pub assume_specification[ std::string::String::push ](s: &mut std::string::String, ch: char)
    ensures
        final(s)@ == old(s)@.push(ch),
;

/// The characters of `s`, one vector element per character.
pub fn chars_of(s: &str) -> (out: Vec<char>)
    ensures
        out@ == s@,
{
    let n = s.unicode_len();
    let mut out: Vec<char> = Vec::new();
    let mut i: usize = 0;
    while i < n
        invariant
            n == s@.len(),
            i <= n,
            out@ == s@.subrange(0, i as int),
        decreases n - i,
    {
        let c = s.get_char(i);
        out.push(c);
        i = i + 1;
        assert(out@ =~= s@.subrange(0, i as int));
    }
    assert(s@.subrange(0, n as int) =~= s@);
    out
}

/// The string whose characters are those of `chars`, in order.
pub fn string_of(chars: &Vec<char>) -> (out: String)
    ensures
        out@ == chars@,
{
    let mut out = String::new();
    let mut i: usize = 0;
    while i < chars.len()
        invariant
            i <= chars.len(),
            out@ == chars@.subrange(0, i as int),
        decreases chars.len() - i,
    {
        out.push(chars[i]);
        i = i + 1;
        assert(out@ =~= chars@.subrange(0, i as int));
    }
    assert(chars@.subrange(0, chars.len() as int) =~= chars@);
    out
}

/// The code point of `c` with ASCII lower-case letters folded to upper case.
pub open spec fn upper_code(c: char) -> int {
    if 'a' as int <= c as int && c as int <= 'z' as int {
        c as int - 32
    } else {
        c as int
    }
}

/// `a` and `b` are the same text up to the case of ASCII letters.
pub open spec fn same_ignoring_case(a: Seq<char>, b: Seq<char>) -> bool {
    &&& a.len() == b.len()
    &&& forall|i: int| 0 <= i < a.len() ==> upper_code(#[trigger] a[i]) == upper_code(b[i])
}

/// Computes [`upper_code`].
pub fn fold_upper(c: char) -> (code: u32)
    ensures
        code == upper_code(c),
{
    let code: u32 = c as u32;
    if 97 <= code && code <= 122 {
        code - 32
    } else {
        code
    }
}

/// Decides [`same_ignoring_case`] of a character vector and a string.
pub fn matches_ignoring_case(a: &Vec<char>, b: &str) -> (same: bool)
    ensures
        same == same_ignoring_case(a@, b@),
{
    let n = b.unicode_len();
    if a.len() != n {
        return false;
    }
    let mut i: usize = 0;
    while i < n
        invariant
            n == b@.len(),
            n == a@.len(),
            i <= n,
            forall|j: int| 0 <= j < i ==> upper_code(#[trigger] a@[j]) == upper_code(b@[j]),
        decreases n - i,
    {
        if fold_upper(a[i]) != fold_upper(b.get_char(i)) {
            return false;
        }
        i = i + 1;
    }
    true
}

/// The value of `c` as a digit in the given radix, if it is one: `0`-`9`
/// count 0 to 9, and letters of either case count from 10.
pub open spec fn digit_value(c: char, radix: int) -> Option<int> {
    let code = c as int;
    let v = if '0' as int <= code && code <= '9' as int {
        code - '0' as int
    } else if 'a' as int <= code && code <= 'z' as int {
        code - 'a' as int + 10
    } else if 'A' as int <= code && code <= 'Z' as int {
        code - 'A' as int + 10
    } else {
        36
    };
    if v < radix {
        Some(v)
    } else {
        None
    }
}

/// Every character of `s` is a digit in the given radix.
pub open spec fn all_digits(s: Seq<char>, radix: int) -> bool {
    forall|i: int| 0 <= i < s.len() ==> (#[trigger] digit_value(s[i], radix)).is_some()
}

/// The number that the digit string `s` denotes, most significant digit first.
pub open spec fn digits_number(s: Seq<char>, radix: int) -> int
    decreases s.len(),
{
    if s.len() == 0 {
        0
    } else {
        digits_number(s.drop_last(), radix) * radix + digit_value(s.last(), radix).unwrap_or(0)
    }
}

/// The digits of a numeral: the text without one leading `+`, if it has one.
pub open spec fn numeral_digits(s: Seq<char>) -> Seq<char> {
    if s.len() > 0 && s[0] == '+' {
        s.subrange(1, s.len() as int)
    } else {
        s
    }
}

/// The unsigned number that `s` denotes in the given radix: an optional `+`,
/// then at least one digit, with a value that fits in `usize`.
pub open spec fn parse_number(s: Seq<char>, radix: int) -> Option<usize> {
    let digits = numeral_digits(s);
    if digits.len() > 0 && all_digits(digits, radix) && digits_number(digits, radix)
        <= usize::MAX {
        Some(digits_number(digits, radix) as usize)
    } else {
        None
    }
}

/// Computes [`digit_value`].
pub fn digit_of(c: char, radix: u32) -> (d: Option<u32>)
    requires
        2 <= radix <= 36,
    ensures
        d.is_some() == digit_value(c, radix as int).is_some(),
        d.is_some() ==> d.unwrap() == digit_value(c, radix as int).unwrap(),
{
    let code: u32 = c as u32;
    let v: u32 = if 48 <= code && code <= 57 {
        code - 48
    } else if 97 <= code && code <= 122 {
        code - 97 + 10
    } else if 65 <= code && code <= 90 {
        code - 65 + 10
    } else {
        36
    };
    if v < radix {
        Some(v)
    } else {
        None
    }
}

proof fn lemma_digits_number_bounds(s: Seq<char>, radix: int)
    requires
        2 <= radix <= 36,
    ensures
        0 <= digits_number(s, radix),
    decreases s.len(),
{
    if s.len() > 0 {
        lemma_digits_number_bounds(s.drop_last(), radix);
        assert(digits_number(s.drop_last(), radix) * radix >= 0) by (nonlinear_arith)
            requires
                digits_number(s.drop_last(), radix) >= 0,
                radix >= 2,
        ;
    }
}

proof fn lemma_digits_number_grows(s: Seq<char>, k: int, radix: int)
    requires
        2 <= radix <= 36,
        0 <= k <= s.len(),
    ensures
        digits_number(s.subrange(0, k), radix) <= digits_number(s, radix),
    decreases s.len() - k,
{
    if k < s.len() {
        let longer = s.subrange(0, k + 1);
        assert(longer.drop_last() =~= s.subrange(0, k));
        lemma_digits_number_bounds(s.subrange(0, k), radix);
        assert(digits_number(s.subrange(0, k), radix) * radix >= digits_number(
            s.subrange(0, k),
            radix,
        )) by (nonlinear_arith)
            requires
                digits_number(s.subrange(0, k), radix) >= 0,
                radix >= 2,
        ;
        lemma_digits_number_grows(s, k + 1, radix);
    } else {
        assert(s.subrange(0, k) =~= s);
    }
}

/// Reads an unsigned number in the given radix.
pub fn parse_unsigned(s: &Vec<char>, radix: u32) -> (value: Option<usize>)
    requires
        2 <= radix <= 36,
    ensures
        value == parse_number(s@, radix as int),
{
    let n = s.len();
    let start: usize = if n > 0 && s[0] == '+' {
        1
    } else {
        0
    };
    let ghost digits = numeral_digits(s@);
    assert(digits =~= s@.subrange(start as int, n as int));
    if start == n {
        return None;
    }
    let mut acc: usize = 0;
    let mut i: usize = start;
    while i < n
        invariant
            2 <= radix <= 36,
            n == s.len(),
            start <= i <= n,
            digits == s@.subrange(start as int, n as int),
            digits == numeral_digits(s@),
            all_digits(digits.subrange(0, i - start), radix as int),
            acc == digits_number(digits.subrange(0, i - start), radix as int),
        decreases n - i,
    {
        let ghost prefix = digits.subrange(0, i - start);
        let ghost longer = digits.subrange(0, i - start + 1);
        assert(longer.drop_last() =~= prefix);
        assert(longer.last() == s@[i as int]);
        assert(digits[i - start] == s@[i as int]);
        assert(digits_number(longer, radix as int) == acc * radix + digit_value(
            s@[i as int],
            radix as int,
        ).unwrap_or(0));
        match digit_of(s[i], radix) {
            None => {
                assert(digit_value(digits[i - start], radix as int).is_none());
                return None;
            },
            Some(d) => {
                let scaled = match acc.checked_mul(radix as usize) {
                    Some(v) => v,
                    None => {
                        proof {
                            lemma_digits_number_grows(digits, i - start + 1, radix as int);
                        }
                        return None;
                    },
                };
                let next = match scaled.checked_add(d as usize) {
                    Some(v) => v,
                    None => {
                        proof {
                            lemma_digits_number_grows(digits, i - start + 1, radix as int);
                        }
                        return None;
                    },
                };
                acc = next;
                i = i + 1;
                assert forall|j: int| 0 <= j < longer.len() implies (#[trigger] digit_value(
                    longer[j],
                    radix as int,
                )).is_some() by {
                    if j < prefix.len() {
                        assert(longer[j] == prefix[j]);
                    }
                }
            },
        }
    }
    assert(digits.subrange(0, n - start) =~= digits);
    Some(acc)
}

/// The character of a decimal digit.
pub open spec fn digit_char(d: int) -> char {
    if d == 0 {
        '0'
    } else if d == 1 {
        '1'
    } else if d == 2 {
        '2'
    } else if d == 3 {
        '3'
    } else if d == 4 {
        '4'
    } else if d == 5 {
        '5'
    } else if d == 6 {
        '6'
    } else if d == 7 {
        '7'
    } else if d == 8 {
        '8'
    } else {
        '9'
    }
}

/// The decimal numeral of `n`, without leading zeros.
pub open spec fn decimal_text(n: nat) -> Seq<char>
    decreases n,
{
    if n < 10 {
        seq![digit_char(n as int)]
    } else {
        decimal_text(n / 10).push(digit_char((n % 10) as int))
    }
}

/// Computes [`digit_char`].
pub fn digit_to_char(d: usize) -> (c: char)
    requires
        d < 10,
    ensures
        c == digit_char(d as int),
{
    if d == 0 {
        '0'
    } else if d == 1 {
        '1'
    } else if d == 2 {
        '2'
    } else if d == 3 {
        '3'
    } else if d == 4 {
        '4'
    } else if d == 5 {
        '5'
    } else if d == 6 {
        '6'
    } else if d == 7 {
        '7'
    } else if d == 8 {
        '8'
    } else {
        '9'
    }
}

/// Appends the decimal numeral of `n` to `out`.
pub fn push_decimal(out: &mut Vec<char>, n: usize)
    ensures
        final(out)@ == old(out)@ + decimal_text(n as nat),
    decreases n,
{
    if n >= 10 {
        push_decimal(out, n / 10);
    }
    out.push(digit_to_char(n % 10));
    assert(out@ =~= old(out)@ + decimal_text(n as nat));
}

/// Appends the characters of `more` to `out`.
pub fn push_all(out: &mut Vec<char>, more: &Vec<char>, from: usize, to: usize)
    requires
        from <= to <= more@.len(),
    ensures
        final(out)@ == old(out)@ + more@.subrange(from as int, to as int),
{
    let mut i: usize = from;
    assert(out@ =~= old(out)@ + more@.subrange(from as int, from as int));
    while i < to
        invariant
            from <= i <= to,
            to <= more@.len(),
            out@ == old(out)@ + more@.subrange(from as int, i as int),
        decreases to - i,
    {
        out.push(more[i]);
        i = i + 1;
        assert(out@ =~= old(out)@ + more@.subrange(from as int, i as int));
    }
}

/// The position of the last `[` before `upto`, or the length of the name
/// when there is none.
pub open spec fn bracket_cut(name: Seq<char>, upto: int) -> int
    decreases upto,
{
    if upto <= 0 {
        name.len() as int
    } else if name[upto - 1] == '[' {
        upto - 1
    } else {
        bracket_cut(name, upto - 1)
    }
}

/// Computes [`bracket_cut`] of the whole name.
pub fn find_bracket(name: &Vec<char>) -> (cut: usize)
    ensures
        cut == bracket_cut(name@, name@.len() as int),
        cut <= name@.len(),
{
    let mut i: usize = name.len();
    while i > 0
        invariant
            i <= name@.len(),
            bracket_cut(name@, name@.len() as int) == bracket_cut(name@, i as int),
        decreases i,
    {
        if name[i - 1] == '[' {
            return i - 1;
        }
        i = i - 1;
    }
    name.len()
}

/// `a` comes before `b` in the order of strings: at the first position where
/// they differ `a` has the smaller character, or `a` is a proper prefix of
/// `b`.
pub open spec fn text_before(a: Seq<char>, b: Seq<char>) -> bool
    decreases a.len(),
{
    if b.len() == 0 {
        false
    } else if a.len() == 0 {
        true
    } else if a[0] != b[0] {
        (a[0] as int) < (b[0] as int)
    } else {
        text_before(a.drop_first(), b.drop_first())
    }
}

/// The code point of a character.
pub fn code_of(c: char) -> (code: u32)
    ensures
        code == c as int,
{
    let code: u32 = c as u32;
    code
}

/// Decides [`text_before`].
pub fn comes_before(a: &Vec<char>, b: &Vec<char>) -> (before: bool)
    ensures
        before == text_before(a@, b@),
{
    let mut i: usize = 0;
    assert(a@.subrange(0, a@.len() as int) =~= a@);
    assert(b@.subrange(0, b@.len() as int) =~= b@);
    while i < a.len() && i < b.len()
        invariant
            i <= a@.len(),
            i <= b@.len(),
            text_before(a@, b@) == text_before(
                a@.subrange(i as int, a@.len() as int),
                b@.subrange(i as int, b@.len() as int),
            ),
        decreases a.len() - i,
    {
        let ghost ra = a@.subrange(i as int, a@.len() as int);
        let ghost rb = b@.subrange(i as int, b@.len() as int);
        assert(ra[0] == a@[i as int] && rb[0] == b@[i as int]);
        assert(ra.drop_first() =~= a@.subrange(i + 1, a@.len() as int));
        assert(rb.drop_first() =~= b@.subrange(i + 1, b@.len() as int));
        if a[i] != b[i] {
            assert(ra.len() > 0 && rb.len() > 0 && ra[0] != rb[0]);
            assert(text_before(ra, rb) == ((ra[0] as int) < (rb[0] as int)));
            let x: u32 = code_of(a[i]);
            let y: u32 = code_of(b[i]);
            return x < y;
        }
        assert(text_before(ra, rb) == text_before(ra.drop_first(), rb.drop_first()));
        i = i + 1;
    }
    i < b.len()
}

/// Of two different texts one comes before the other.
pub proof fn lemma_text_before_total(a: Seq<char>, b: Seq<char>)
    requires
        a != b,
    ensures
        text_before(a, b) || text_before(b, a),
    decreases a.len(),
{
    if a.len() > 0 && b.len() > 0 && a[0] == b[0] {
        assert(a.drop_first() != b.drop_first()) by {
            if a.drop_first() == b.drop_first() {
                assert(a =~= seq![a[0]] + a.drop_first());
                assert(b =~= seq![b[0]] + b.drop_first());
            }
        }
        lemma_text_before_total(a.drop_first(), b.drop_first());
    } else if a.len() == 0 && b.len() == 0 {
        assert(a =~= b);
    }
}

/// The order of texts is transitive.
pub proof fn lemma_text_before_trans(a: Seq<char>, b: Seq<char>, c: Seq<char>)
    requires
        text_before(a, b),
        text_before(b, c),
    ensures
        text_before(a, c),
    decreases a.len(),
{
    if a.len() > 0 && b.len() > 0 && c.len() > 0 {
        if a[0] == b[0] && b[0] == c[0] {
            lemma_text_before_trans(a.drop_first(), b.drop_first(), c.drop_first());
        }
    }
}

} // verus!
