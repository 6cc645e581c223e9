//! Character and string helpers shared by the parsers and printers.
use vstd::prelude::*;

verus! {

/// The Unicode `White_Space` property, as used by `str::trim`.
pub open spec fn is_white_space(c: char) -> bool {
    let u = c as u32;
    ||| 0x09 <= u <= 0x0D
    ||| u == 0x20
    ||| u == 0x85
    ||| u == 0xA0
    ||| u == 0x1680
    ||| 0x2000 <= u <= 0x200A
    ||| u == 0x2028
    ||| u == 0x2029
    ||| u == 0x202F
    ||| u == 0x205F
    ||| u == 0x3000
}

/// Every character of `s` is white space, that is, `s.trim()` is empty.
pub open spec fn all_white_space(s: Seq<char>) -> bool {
    forall|i: int| 0 <= i < s.len() ==> is_white_space(#[trigger] s[i])
}

/// Returns whether `c` has the Unicode `White_Space` property.
pub fn is_whitespace_char(c: char) -> (r: bool)
    ensures
        r == is_white_space(c),
{
    let u = c as u32;
    (0x09 <= u && u <= 0x0D) || u == 0x20 || u == 0x85 || u == 0xA0 || u == 0x1680 || (0x2000
        <= u && u <= 0x200A) || u == 0x2028 || u == 0x2029 || u == 0x202F || u == 0x205F || u
        == 0x3000
}

/// Returns whether every character of `s[from..]` is white space.
pub fn all_whitespace_from(s: &Vec<char>, from: usize) -> (r: bool)
    requires
        from <= s@.len(),
    ensures
        r == all_white_space(s@.subrange(from as int, s@.len() as int)),
{
    let mut i = from;
    while i < s.len()
        invariant
            from <= i <= s@.len(),
            forall|j: int| from <= j < i ==> is_white_space(#[trigger] s@[j]),
        decreases s@.len() - i,
    {
        if !is_whitespace_char(s[i]) {
            assert(s@.subrange(from as int, s@.len() as int)[i - from] == s@[i as int]);
            return false;
        }
        i += 1;
    }
    proof {
        let t = s@.subrange(from as int, s@.len() as int);
        assert forall|j: int| 0 <= j < t.len() implies is_white_space(#[trigger] t[j]) by {
            assert(t[j] == s@[from + j]);
        }
    }
    true
}

pub open spec fn is_ascii_digit(c: char) -> bool {
    '0' <= c <= '9'
}

pub open spec fn is_ascii_alpha(c: char) -> bool {
    ('a' <= c <= 'z') || ('A' <= c <= 'Z')
}

pub open spec fn is_ascii_alnum(c: char) -> bool {
    is_ascii_digit(c) || is_ascii_alpha(c)
}

pub fn ascii_digit(c: char) -> (r: bool)
    ensures
        r == is_ascii_digit(c),
{
    '0' <= c && c <= '9'
}

pub fn ascii_alnum(c: char) -> (r: bool)
    ensures
        r == is_ascii_alnum(c),
{
    ('0' <= c && c <= '9') || ('a' <= c && c <= 'z') || ('A' <= c && c <= 'Z')
}

/// The Unicode `Lowercase` property of a character, as computed by
/// `char::is_lowercase`.
pub uninterp spec fn lowercase_char(c: char) -> bool;

/// Calls `char::is_lowercase`. The contract names the result and states what
/// the Unicode `Lowercase` property is on ASCII: exactly the letters `a`-`z`.
/// Outside ASCII it says nothing of the value.
#[verifier::external_body]
pub fn char_is_lowercase(c: char) -> (r: bool)
    ensures
        r == lowercase_char(c),
        (c as u32) < 128 ==> (r <==> ('a' <= c <= 'z')),
{
    c.is_lowercase()
}

/// Appends one character to a string with `String::push`.
#[verifier::external_body]
pub fn push_char(s: &mut String, c: char)
    ensures
        final(s)@ == old(s)@.push(c),
{
    s.push(c)
}

/// Returns the characters of `s`, in order.
pub fn str_chars(s: &str) -> (r: Vec<char>)
    ensures
        r@ == s@,
{
    let mut r: Vec<char> = Vec::new();
    for c in it: s.chars()
        invariant
            r@ == it.seq().take(it.index() as int),
            it.seq() == s@,
    {
        r.push(c);
    }
    r
}

/// Builds a string from a slice of characters.
pub fn string_from_chars(v: &Vec<char>, from: usize, to: usize) -> (r: String)
    requires
        from <= to <= v@.len(),
    ensures
        r@ == v@.subrange(from as int, to as int),
{
    let mut r = String::new();
    let mut i = from;
    while i < to
        invariant
            from <= i <= to <= v@.len(),
            r@ == v@.subrange(from as int, i as int),
        decreases to - i,
    {
        push_char(&mut r, v[i]);
        assert(v@.subrange(from as int, i + 1) == v@.subrange(from as int, i as int).push(v@[i as int]));
        i += 1;
    }
    r
}

} // verus!

verus! {

/// The character for a decimal digit `d < 10`.
pub open spec fn digit_char(d: nat) -> char {
    (48 + d) as char
}

/// The value of a decimal digit character.
pub open spec fn digit_value(c: char) -> nat {
    ((c as u32) - 48) as nat
}

/// The decimal representation of `n`, without leading zeros, as printed by
/// `u32`'s `Display`.
pub open spec fn decimal(n: nat) -> Seq<char>
    decreases n,
{
    if n < 10 {
        seq![digit_char(n)]
    } else {
        decimal(n / 10).push(digit_char(n % 10))
    }
}

/// The numeric value of the digit characters `s[i..j]`.
pub open spec fn digits_value(s: Seq<char>, i: int, j: int) -> nat
    decreases j - i,
{
    if j <= i {
        0
    } else {
        digits_value(s, i, j - 1) * 10 + digit_value(s[j - 1])
    }
}

pub proof fn lemma_decimal_digits(n: nat)
    ensures
        decimal(n).len() >= 1,
        forall|k: int| 0 <= k < decimal(n).len() ==> is_ascii_digit(#[trigger] decimal(n)[k]),
        digits_value(decimal(n), 0, decimal(n).len() as int) == n,
    decreases n,
{
    if n < 10 {
        assert(digits_value(decimal(n), 0, 0) == 0);
    } else {
        lemma_decimal_digits(n / 10);
        let p = decimal(n / 10);
        let s = decimal(n);
        assert(s == p.push(digit_char(n % 10)));
        lemma_digits_value_prefix(p, s, 0, p.len() as int);
    }
}

/// `digits_value` only reads the characters in its range.
pub proof fn lemma_digits_value_prefix(p: Seq<char>, s: Seq<char>, i: int, j: int)
    requires
        0 <= i <= j <= p.len(),
        j <= s.len(),
        forall|k: int| i <= k < j ==> p[k] == s[k],
    ensures
        digits_value(p, i, j) == digits_value(s, i, j),
    decreases j - i,
{
    if j > i {
        lemma_digits_value_prefix(p, s, i, j - 1);
    }
}

/// `digits_value` only depends on the characters in its range, at any offset.
pub proof fn lemma_digits_value_shift(p: Seq<char>, s: Seq<char>, i: int, j: int, off: int)
    requires
        0 <= i <= j <= p.len(),
        0 <= i + off,
        j + off <= s.len(),
        forall|k: int| i <= k < j ==> p[k] == s[k + off],
    ensures
        digits_value(p, i, j) == digits_value(s, i + off, j + off),
    decreases j - i,
{
    if j > i {
        lemma_digits_value_shift(p, s, i, j - 1, off);
    }
}

/// Extending a run of digits never lowers its value.
pub proof fn lemma_digits_value_mono(s: Seq<char>, i: int, j: int, k: int)
    requires
        i <= j <= k,
    ensures
        digits_value(s, i, j) <= digits_value(s, i, k),
    decreases k - j,
{
    if k > j {
        lemma_digits_value_mono(s, i, j, k - 1);
        if k - 1 >= i {
            assert(digits_value(s, i, k) == digits_value(s, i, k - 1) * 10 + digit_value(s[k - 1]));
        }
    }
}

/// Appends the decimal representation of `n` to `s`.
pub fn push_decimal(s: &mut String, n: u32)
    ensures
        final(s)@ == old(s)@ + decimal(n as nat),
    decreases n,
{
    if n >= 10 {
        push_decimal(s, n / 10);
    }
    let d: u32 = n % 10;
    let c: char = ((48u8 + (d as u8)) as char);
    assert(c == digit_char((n % 10) as nat));
    push_char(s, c);
    proof {
        if n >= 10 {
            assert(decimal(n as nat) == decimal((n / 10) as nat).push(digit_char((n % 10) as nat)));
        }
    }
}

} // verus!
