//! Building text: numbers in decimal, and the few string operations of the
//! standard library that the library needs beyond what `vstd` specifies.

use vstd::prelude::*;
use vstd::string::StrSliceExecFns;

verus! {

/// `String::push` appends one character to the string.
pub assume_specification[ String::push ](s: &mut String, c: char)
    ensures
        final(s)@ == old(s)@.push(c),
;

/// Whether the number is a Unicode scalar value: at most 0x10FFFF and no
/// surrogate.
pub open spec fn is_scalar(u: u32) -> bool {
    u < 0xD800 || 0xE000 <= u <= 0x10FFFF
}

/// `char::from_u32` gives the character with the given scalar value, and
/// none for a number that is no scalar value.
pub assume_specification[ char::from_u32 ](i: u32) -> (c: Option<char>)
    ensures
        is_scalar(i) ==> c == Some(i as char),
        !is_scalar(i) ==> c is None,
;

/// The character of the decimal digit `d`.
pub open spec fn digit(d: int) -> char
    recommends
        0 <= d < 10,
{
    ((48 + d) as u8) as char
}

/// The decimal digits of `n`, without leading zeros.
pub open spec fn decimal(n: nat) -> Seq<char>
    decreases n,
{
    if n < 10 {
        seq![digit(n as int)]
    } else {
        decimal(n / 10).push(digit((n % 10) as int))
    }
}

/// The decimal digits of `n`, with a leading zero where there is but one.
pub open spec fn two_digits(n: nat) -> Seq<char> {
    if n < 10 {
        seq!['0'] + decimal(n)
    } else {
        decimal(n)
    }
}

/// The decimal form of a signed number: a minus sign before the digits of a
/// negative one.
pub open spec fn signed_decimal(n: int) -> Seq<char> {
    if n < 0 {
        seq!['-'] + decimal((-n) as nat)
    } else {
        decimal(n as nat)
    }
}

/// Appends the decimal digits of `n`.
pub fn push_decimal(s: &mut String, n: u64)
    ensures
        final(s)@ == old(s)@ + decimal(n as nat),
    decreases n,
{
    if n >= 10 {
        push_decimal(s, n / 10);
    }
    let d = (n % 10) as u8;
    s.push((48 + d) as char);
    proof {
        if n >= 10 {
            assert(old(s)@ + decimal(n as nat / 10).push(digit(n as int % 10)) =~= (old(s)@
                + decimal(n as nat / 10)).push(digit(n as int % 10)));
        } else {
            assert(old(s)@ + seq![digit(n as int)] =~= old(s)@.push(digit(n as int)));
        }
    }
}

/// Appends the decimal digits of `n`, with a leading zero where there is
/// but one.
pub fn push_two_digits(s: &mut String, n: u64)
    ensures
        final(s)@ == old(s)@ + two_digits(n as nat),
{
    if n < 10 {
        s.push('0');
    }
    push_decimal(s, n);
    proof {
        if n < 10 {
            assert(old(s)@.push('0') + decimal(n as nat) =~= old(s)@ + (seq!['0'] + decimal(
                n as nat,
            )));
        }
    }
}

/// Appends the decimal form of a signed number.
pub fn push_signed(s: &mut String, n: i32)
    ensures
        final(s)@ == old(s)@ + signed_decimal(n as int),
{
    if n < 0 {
        s.push('-');
        push_decimal(s, (0 - n as i64) as u64);
        proof {
            assert(old(s)@.push('-') + decimal((-n) as nat) =~= old(s)@ + (seq!['-'] + decimal(
                (-n) as nat,
            )));
        }
    } else {
        push_decimal(s, n as u64);
    }
}

/// Whether the character is white space, as `char::is_whitespace` has it.
pub open spec fn is_space(c: char) -> bool {
    let u = c as u32;
    ||| 0x09 <= u <= 0x0D
    ||| u == 0x20
    ||| u == 0x85
    ||| u == 0xA0
    ||| u == 0x1680
    ||| 0x2000 <= u <= 0x200A
    ||| u == 0x2028
    ||| u == 0x2029
    ||| u == 0x202F
    ||| u == 0x205F
    ||| u == 0x3000
}

/// Tells whether the character is white space.
pub fn space(c: char) -> (yes: bool)
    ensures
        yes == is_space(c),
{
    let u = c as u32;
    (0x09 <= u && u <= 0x0D) || u == 0x20 || u == 0x85 || u == 0xA0 || u == 0x1680 || (0x2000 <= u
        && u <= 0x200A) || u == 0x2028 || u == 0x2029 || u == 0x202F || u == 0x205F || u == 0x3000
}

/// The small letter of a capital letter of the Latin alphabet; every other
/// character as it is.
pub open spec fn lower(c: char) -> char {
    if 'A' <= c <= 'Z' {
        ((c as u8) + 32) as char
    } else {
        c
    }
}

/// The small letter of a capital letter of the Latin alphabet; every other
/// character as it is.
pub fn lower_ascii(c: char) -> (l: char)
    ensures
        l == lower(c),
{
    if 'A' <= c && c <= 'Z' {
        ((c as u8) + 32) as char
    } else {
        c
    }
}

/// The text without the white space at its beginning.
pub open spec fn trim_start(s: Seq<char>) -> Seq<char>
    decreases s.len(),
{
    if s.len() > 0 && is_space(s.first()) {
        trim_start(s.drop_first())
    } else {
        s
    }
}

/// The text without the white space at its end.
pub open spec fn trim_end(s: Seq<char>) -> Seq<char>
    decreases s.len(),
{
    if s.len() > 0 && is_space(s.last()) {
        trim_end(s.drop_last())
    } else {
        s
    }
}

/// The text without the white space at its beginning and its end.
pub open spec fn trimmed(s: Seq<char>) -> Seq<char> {
    trim_end(trim_start(s))
}

/// The two texts are the same but for capital and small letters of the
/// Latin alphabet.
pub open spec fn same_ignoring_case(a: Seq<char>, b: Seq<char>) -> bool {
    &&& a.len() == b.len()
    &&& forall|i: int| 0 <= i < a.len() ==> lower(#[trigger] a[i]) == lower(b[i])
}

/// The characters of a text.
pub fn to_chars(s: &str) -> (chars: Vec<char>)
    ensures
        chars@ == s@,
{
    let n = s.unicode_len();
    let mut chars: Vec<char> = Vec::new();
    let mut i: usize = 0;
    while i < n
        invariant
            i <= n,
            n == s@.len(),
            chars@ == s@.take(i as int),
        decreases n - i,
    {
        chars.push(s.get_char(i));
        assert(s@.take(i as int + 1) =~= s@.take(i as int).push(s@[i as int]));
        i += 1;
    }
    assert(s@.take(n as int) =~= s@);
    chars
}

proof fn lemma_trim_start(s: Seq<char>, k: int)
    requires
        0 <= k <= s.len(),
        forall|i: int| 0 <= i < k ==> is_space(s[i]),
        k < s.len() ==> !is_space(s[k]),
    ensures
        trim_start(s) == s.skip(k),
    decreases k,
{
    if k > 0 {
        assert(s.drop_first().skip(k - 1) =~= s.skip(k));
        lemma_trim_start(s.drop_first(), k - 1);
    } else {
        assert(s.skip(0) =~= s);
    }
}

proof fn lemma_trim_end(s: Seq<char>, k: int)
    requires
        0 <= k <= s.len(),
        forall|i: int| k <= i < s.len() ==> is_space(s[i]),
        k > 0 ==> !is_space(s[k - 1]),
    ensures
        trim_end(s) == s.take(k),
    decreases s.len() - k,
{
    if k < s.len() {
        assert(s.drop_last().take(k) =~= s.take(k));
        lemma_trim_end(s.drop_last(), k);
    } else {
        assert(s.take(k) =~= s);
    }
}

/// The text without the white space at its beginning and its end.
pub fn trim(chars: &Vec<char>) -> (out: Vec<char>)
    ensures
        out@ == trimmed(chars@),
{
    let n = chars.len();
    let mut start: usize = 0;
    while start < n && space(chars[start])
        invariant
            start <= n,
            n == chars@.len(),
            forall|i: int| 0 <= i < start ==> is_space(chars@[i]),
        decreases n - start,
    {
        start += 1;
    }
    let mut end: usize = n;
    while end > start && space(chars[end - 1])
        invariant
            start <= end <= n,
            n == chars@.len(),
            forall|i: int| end <= i < n ==> is_space(chars@[i]),
        decreases end,
    {
        end -= 1;
    }
    let mut out: Vec<char> = Vec::new();
    let mut i: usize = start;
    while i < end
        invariant
            start <= i <= end <= n,
            n == chars@.len(),
            out@ == chars@.subrange(start as int, i as int),
        decreases end - i,
    {
        out.push(chars[i]);
        assert(chars@.subrange(start as int, i as int + 1) =~= chars@.subrange(
            start as int,
            i as int,
        ).push(chars@[i as int]));
        i += 1;
    }
    proof {
        lemma_trim_start(chars@, start as int);
        let rest = chars@.skip(start as int);
        assert forall|i: int| end - start <= i < rest.len() implies is_space(rest[i]) by {
            assert(rest[i] == chars@[i + start]);
        }
        if end > start {
            assert(rest[end - start - 1] == chars@[end - 1]);
        }
        lemma_trim_end(rest, end - start);
        assert(rest.take(end - start) =~= chars@.subrange(start as int, end as int));
    }
    out
}

/// Tells whether `text` is `name` but for capital and small letters of the
/// Latin alphabet.
pub fn is_name(text: &Vec<char>, name: &str) -> (same: bool)
    ensures
        same == same_ignoring_case(text@, name@),
{
    let n = name.unicode_len();
    if text.len() != n {
        return false;
    }
    let mut i: usize = 0;
    while i < n
        invariant
            i <= n,
            n == name@.len(),
            n == text@.len(),
            forall|k: int| 0 <= k < i ==> lower(#[trigger] text@[k]) == lower(name@[k]),
        decreases n - i,
    {
        if lower_ascii(text[i]) != lower_ascii(name.get_char(i)) {
            return false;
        }
        i += 1;
    }
    true
}

} // verus!
