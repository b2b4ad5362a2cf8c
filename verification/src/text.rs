//! Characters, decimal numbers and scanning.

use vstd::prelude::*;

verus! {

/// `String::push` of the standard library: appends one character to the end
/// of the string.
pub assume_specification[ String::push ](s: &mut String, ch: char)
    ensures
        final(s)@ == old(s)@.push(ch),
;

/// The characters of a string.
pub fn to_chars(s: &str) -> (chars: Vec<char>)
    ensures
        chars@ == s@,
{
    let mut chars: Vec<char> = Vec::new();
    for c in it: s.chars()
        invariant
            it.seq() == s@,
            chars@ == it.seq().take(it.index() as int),
    {
        chars.push(c);
        proof {
            assert(it.seq().take(it.index() + 1) =~= it.seq().take(it.index() as int).push(c));
        }
    }
    proof {
        assert(s@.take(s@.len() as int) =~= s@);
    }
    chars
}

/// The string made of the characters `chars[from..to]`.
pub fn to_string(chars: &[char], from: usize, to: usize) -> (s: String)
    requires
        from <= to <= chars@.len(),
    ensures
        s@ == chars@.subrange(from as int, to as int),
{
    let mut s = String::new();
    let mut i: usize = from;
    while i < to
        invariant
            from <= i <= to <= chars@.len(),
            s@ == chars@.subrange(from as int, i as int),
        decreases to - i,
    {
        s.push(chars[i]);
        proof {
            assert(chars@.subrange(from as int, i + 1) =~= chars@.subrange(from as int, i as int).push(
                chars@[i as int],
            ));
        }
        i = i + 1;
    }
    s
}

/// A decimal digit.
pub open spec fn is_digit(c: char) -> bool {
    '0' <= c <= '9'
}

/// A capital letter `A` to `Z`.
pub open spec fn is_upper(c: char) -> bool {
    'A' <= c <= 'Z'
}

/// A letter `A` to `Z` or `a` to `z`.
pub open spec fn is_letter(c: char) -> bool {
    'A' <= c <= 'Z' || 'a' <= c <= 'z'
}

/// Exec form of [`is_digit`].
pub fn digit(c: char) -> (b: bool)
    ensures
        b == is_digit(c),
{
    '0' <= c && c <= '9'
}

/// Exec form of [`is_upper`].
pub fn upper(c: char) -> (b: bool)
    ensures
        b == is_upper(c),
{
    'A' <= c && c <= 'Z'
}

/// Exec form of [`is_letter`].
pub fn letter(c: char) -> (b: bool)
    ensures
        b == is_letter(c),
{
    ('A' <= c && c <= 'Z') || ('a' <= c && c <= 'z')
}

/// Every character of `s` is a decimal digit.
pub open spec fn all_digits(s: Seq<char>) -> bool {
    forall|i: int| 0 <= i < s.len() ==> is_digit(#[trigger] s[i])
}

/// The number that the decimal digits `s` write.
pub open spec fn decimal(s: Seq<char>) -> int
    decreases s.len(),
{
    if s.len() == 0 {
        0
    } else {
        decimal(s.drop_last()) * 10 + (s.last() as int - '0' as int)
    }
}

/// The 32-bit integer that `s` writes in decimal, with an optional sign in
/// front; nothing if `s` is anything else or the number does not fit.
pub open spec fn parse_int(s: Seq<char>) -> Option<int> {
    let signed = s.len() > 0 && (s[0] == '-' || s[0] == '+');
    let body = if signed {
        s.skip(1)
    } else {
        s
    };
    let value = if s.len() > 0 && s[0] == '-' {
        -decimal(body)
    } else {
        decimal(body)
    };
    if body.len() > 0 && all_digits(body) && i32::MIN <= value <= i32::MAX {
        Some(value)
    } else {
        None
    }
}

/// A number is no smaller than what its leading digits write.
pub proof fn lemma_decimal_grows(s: Seq<char>, k: int)
    requires
        all_digits(s),
        0 <= k <= s.len(),
    ensures
        0 <= decimal(s.take(k)) <= decimal(s),
    decreases s.len() - k,
{
    if k < s.len() {
        lemma_decimal_grows(s, k + 1);
        assert(s.take(k + 1).drop_last() =~= s.take(k));
        assert(is_digit(s[k]));
        lemma_decimal_nonnegative(s.take(k));
    } else {
        assert(s.take(k) =~= s);
        lemma_decimal_nonnegative(s);
    }
}

/// Decimal digits write no negative number.
proof fn lemma_decimal_nonnegative(s: Seq<char>)
    requires
        all_digits(s),
    ensures
        decimal(s) >= 0,
    decreases s.len(),
{
    if s.len() > 0 {
        assert(is_digit(s[s.len() - 1]));
        lemma_decimal_nonnegative(s.drop_last());
    }
}

/// Reads a 32-bit integer written in decimal, with an optional sign in front.
pub fn parse_i32(chars: &[char], from: usize, to: usize) -> (parsed: Option<i32>)
    requires
        from <= to <= chars@.len(),
    ensures
        parsed is Some <==> parse_int(chars@.subrange(from as int, to as int)) is Some,
        parsed is Some ==> parsed->0 == parse_int(chars@.subrange(from as int, to as int))->0,
{
    let ghost s = chars@.subrange(from as int, to as int);
    if from == to {
        return None;
    }
    let first: char = chars[from];
    assert(s[0] == first);
    let negative: bool = first == '-';
    let start: usize = if first == '-' || first == '+' {
        from + 1
    } else {
        from
    };
    let ghost body = chars@.subrange(start as int, to as int);
    proof {
        if start == from {
            assert(body =~= s);
        } else {
            assert(body =~= s.skip(1));
        }
    }
    if start == to {
        return None;
    }
    let mut value: i64 = 0;
    let mut i: usize = start;
    proof {
        assert(body.take(0) =~= Seq::<char>::empty());
    }
    while i < to
        invariant
            start <= i <= to <= chars@.len(),
            from < to,
            start < to,
            s == chars@.subrange(from as int, to as int),
            body == chars@.subrange(start as int, to as int),
            body == if s[0] == '-' || s[0] == '+' {
                s.skip(1)
            } else {
                s
            },
            negative == (s[0] == '-'),
            all_digits(body.take(i - start)),
            value == decimal(body.take(i - start)),
            0 <= value <= 0x8000_0000,
        decreases to - i,
    {
        let c: char = chars[i];
        assert(body[i - start] == c);
        if !digit(c) {
            assert(!all_digits(body));
            return None;
        }
        let ghost before = body.take(i - start);
        let ghost after = body.take(i - start + 1);
        proof {
            assert(after.drop_last() =~= before);
            assert(after.last() == c);
            assert forall|j: int| 0 <= j < after.len() implies is_digit(#[trigger] after[j]) by {
                if j < before.len() {
                    assert(after[j] == before[j]);
                }
            }
        }
        value = value * 10 + (c as i64 - '0' as i64);
        if value > 0x8000_0000 {
            proof {
                if all_digits(body) {
                    lemma_decimal_grows(body, i - start + 1);
                }
            }
            return None;
        }
        i = i + 1;
    }
    proof {
        assert(body.take(to - start) =~= body);
    }
    if negative {
        Some((-value) as i32)
    } else if value > 0x7fff_ffff {
        None
    } else {
        Some(value as i32)
    }
}

/// What a scan looks for.
#[derive(Clone, Copy, Debug, PartialEq, Eq)]
pub enum Stop {
    /// The given character.
    At(char),
    /// Any character but the given one.
    Not(char),
    /// One of `*`, `/`, `+`, `-`.
    Operator,
    /// Any character that is no letter.
    NotLetter,
    /// Any character that is no capital letter.
    NotUpper,
    /// Any character that is neither `+` nor `-`.
    NotSign,
}

/// Whether the scan for `stop` ends at the character `c`.
pub open spec fn stops(stop: Stop, c: char) -> bool {
    match stop {
        Stop::At(wanted) => c == wanted,
        Stop::Not(skipped) => c != skipped,
        Stop::Operator => c == '*' || c == '/' || c == '+' || c == '-',
        Stop::NotLetter => !is_letter(c),
        Stop::NotUpper => !is_upper(c),
        Stop::NotSign => c != '+' && c != '-',
    }
}

/// The first position at or after `from` at which the scan for `stop` ends:
/// the position of the first such character, or the length of `s` if there
/// is none.
pub open spec fn scan(s: Seq<char>, from: int, stop: Stop) -> int
    decreases s.len() - from,
{
    if from >= s.len() {
        from
    } else if stops(stop, s[from]) {
        from
    } else {
        scan(s, from + 1, stop)
    }
}

/// A scan passes over characters at which it does not end, and ends at the
/// first at which it does.
pub proof fn lemma_scan(s: Seq<char>, from: int, stop: Stop)
    requires
        0 <= from <= s.len(),
    ensures
        from <= scan(s, from, stop) <= s.len(),
        forall|j: int| from <= j < scan(s, from, stop) ==> !stops(stop, #[trigger] s[j]),
        scan(s, from, stop) < s.len() ==> stops(stop, s[scan(s, from, stop)]),
    decreases s.len() - from,
{
    if from < s.len() && !stops(stop, s[from]) {
        lemma_scan(s, from + 1, stop);
    }
}

/// Exec form of [`stops`].
pub fn ends(stop: Stop, c: char) -> (b: bool)
    ensures
        b == stops(stop, c),
{
    match stop {
        Stop::At(wanted) => c == wanted,
        Stop::Not(skipped) => c != skipped,
        Stop::Operator => c == '*' || c == '/' || c == '+' || c == '-',
        Stop::NotLetter => !letter(c),
        Stop::NotUpper => !upper(c),
        Stop::NotSign => c != '+' && c != '-',
    }
}

/// Exec form of [`scan`].
pub fn find(chars: &[char], from: usize, stop: Stop) -> (at: usize)
    requires
        from <= chars@.len(),
    ensures
        at == scan(chars@, from as int, stop),
        from <= at <= chars@.len(),
{
    let mut i: usize = from;
    while i < chars.len() && !ends(stop, chars[i])
        invariant
            from <= i <= chars@.len(),
            scan(chars@, from as int, stop) == scan(chars@, i as int, stop),
        decreases chars@.len() - i,
    {
        i = i + 1;
    }
    i
}


/// The characters `s[from..to]`, or nothing if that is no part of `s`.
pub open spec fn piece(s: Seq<char>, from: int, to: int) -> Seq<char> {
    if 0 <= from <= to <= s.len() {
        s.subrange(from, to)
    } else {
        Seq::<char>::empty()
    }
}

/// Exec form of [`piece`].
pub fn cut(chars: &[char], from: usize, to: usize) -> (s: String)
    ensures
        s@ == piece(chars@, from as int, to as int),
{
    if from <= to && to <= chars.len() {
        to_string(chars, from, to)
    } else {
        String::new()
    }
}

/// Whether every character from `from` on is a decimal digit.
pub fn digits_from(chars: &[char], from: usize) -> (b: bool)
    requires
        from <= chars@.len(),
    ensures
        b == all_digits(chars@.skip(from as int)),
{
    let ghost rest = chars@.skip(from as int);
    let mut i: usize = from;
    while i < chars.len()
        invariant
            from <= i <= chars@.len(),
            rest == chars@.skip(from as int),
            forall|j: int| 0 <= j < i - from ==> is_digit(#[trigger] rest[j]),
        decreases chars@.len() - i,
    {
        if !digit(chars[i]) {
            assert(!is_digit(rest[i - from]));
            return false;
        }
        i = i + 1;
    }
    true
}

/// A scan that finds nothing is a scan of characters at none of which it
/// ends.
pub proof fn lemma_scan_misses(s: Seq<char>, c: char)
    ensures
        s.contains(c) <==> scan(s, 0, Stop::At(c)) < s.len(),
{
    lemma_scan(s, 0, Stop::At(c));
    if s.contains(c) {
        let i = choose|i: int| 0 <= i < s.len() && s[i] == c;
        if scan(s, 0, Stop::At(c)) >= s.len() {
            assert(!stops(Stop::At(c), s[i]));
        }
    }
    if scan(s, 0, Stop::At(c)) < s.len() {
        assert(s[scan(s, 0, Stop::At(c))] == c);
    }
}


} // verus!
