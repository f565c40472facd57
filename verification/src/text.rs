//! Building decimal, hexadecimal and padded text.

use vstd::prelude::*;

verus! {

/// `String::push` appends one character at the end of the text.
pub assume_specification[ String::push ](s: &mut String, c: char)
    ensures
        final(s)@ == old(s)@.push(c),
;

/// Every character of `s` is an ASCII one.
pub open spec fn all_ascii(s: Seq<char>) -> bool {
    forall|i: int| 0 <= i < s.len() ==> #[trigger] (s[i] as int) < 0x80
}

/// The ASCII character `c` in lower case: a letter from `A` to `Z` becomes the one of `a` to `z`,
/// any other character stays.
pub open spec fn ascii_lower(c: char) -> char {
    if 'A' <= c <= 'Z' {
        (c as int + 32) as char
    } else {
        c
    }
}

/// ASCII text in lower case, character by character.
pub open spec fn ascii_lowered(s: Seq<char>) -> Seq<char> {
    s.map_values(|c: char| ascii_lower(c))
}

/// Text that is not all ASCII in lower case.
pub uninterp spec fn unicode_lowered(s: Seq<char>) -> Seq<char>;

/// `s` in lower case.
pub open spec fn lowered(s: Seq<char>) -> Seq<char> {
    if all_ascii(s) {
        ascii_lowered(s)
    } else {
        unicode_lowered(s)
    }
}

/// `str::to_lowercase`: the text in lower case as Unicode defines it. Claims that ASCII text is
/// lowered character by character; of other text only that the result is a function of it.
pub assume_specification[ str::to_lowercase ](s: &str) -> (res: String)
    ensures
        all_ascii(s@) ==> res@ == ascii_lowered(s@),
        !all_ascii(s@) ==> res@ == unicode_lowered(s@),
;

/// One more ASCII character lengthens the lower-case text by that character's lower case.
pub proof fn law_ascii_lowers_by_character(s: Seq<char>, c: char)
    requires
        all_ascii(s.push(c)),
    ensures
        all_ascii(s),
        lowered(s.push(c)) == lowered(s).push(ascii_lower(c)),
{
    assert forall|i: int| 0 <= i < s.len() implies #[trigger] (s[i] as int) < 0x80 by {
        assert((s.push(c)[i] as int) < 0x80);
    }
    assert(lowered(s.push(c)) =~= lowered(s).push(ascii_lower(c)));
}

/// `part` stands in `s` from place `i` on.
pub open spec fn stands_at(s: Seq<char>, part: Seq<char>, i: int) -> bool {
    0 <= i && i + part.len() <= s.len() && s.subrange(i, i + part.len()) == part
}

/// `part` stands somewhere in `s`.
pub open spec fn contains(s: Seq<char>, part: Seq<char>) -> bool {
    exists|i: int| stands_at(s, part, i)
}

/// Whether `part` stands in `s` from place `i` on.
fn matches_at(s: &str, part: &str, i: usize) -> (res: bool)
    requires
        i + part@.len() <= s@.len() <= usize::MAX,
    ensures
        res == stands_at(s@, part@, i as int),
{
    let len: usize = part.unicode_len();
    let mut k: usize = 0;
    while k < len
        invariant
            k <= len == part@.len(),
            i + part@.len() <= s@.len() <= usize::MAX,
            s@.subrange(i as int, i + k) == part@.take(k as int),
        decreases len - k,
    {
        if s.get_char(i + k) != part.get_char(k) {
            proof {
                assert(s@.subrange(i as int, i + part@.len())[k as int] != part@[k as int]);
            }
            return false;
        }
        k = k + 1;
        proof {
            assert(s@.subrange(i as int, i + k) =~= part@.take(k as int));
        }
    }
    proof {
        assert(part@.take(k as int) =~= part@);
    }
    true
}

/// Whether `part` stands somewhere in `s`.
#[must_use]
pub fn contains_text(s: &str, part: &str) -> (res: bool)
    ensures
        res == contains(s@, part@),
{
    let n: usize = s.unicode_len();
    let m: usize = part.unicode_len();
    if m > n {
        return false;
    }
    let mut i: usize = 0;
    while i <= n - m
        invariant
            m <= n,
            i <= n - m + 1,
            n == s@.len(),
            m == part@.len(),
            forall|j: int| 0 <= j < i ==> !stands_at(s@, part@, j),
        decreases n - m + 1 - i,
    {
        if matches_at(s, part, i) {
            return true;
        }
        if i == n - m {
            return false;
        }
        i = i + 1;
    }
    false
}

/// The character that writes the digit `d` in bases up to sixteen, in lower case.
pub open spec fn digit(d: nat) -> char {
    if d < 10 {
        (48 + d) as char
    } else {
        (87 + d) as char
    }
}

/// `n` written in decimal, without leading zeros.
pub open spec fn decimal(n: nat) -> Seq<char>
    decreases n,
{
    if n < 10 {
        seq![digit(n)]
    } else {
        decimal(n / 10).push(digit(n % 10))
    }
}

/// `n` written in lower-case hexadecimal, without leading zeros.
pub open spec fn hexadecimal(n: nat) -> Seq<char>
    decreases n,
{
    if n < 16 {
        seq![digit(n)]
    } else {
        hexadecimal(n / 16).push(digit(n % 16))
    }
}

/// `count` copies of `c`.
pub open spec fn repeated(c: char, count: int) -> Seq<char> {
    Seq::new(
        if count > 0 {
            count as nat
        } else {
            0
        },
        |i: int| c,
    )
}

/// `n` in decimal, filled with zeros on the left up to `width` characters.
pub open spec fn padded(n: nat, width: nat) -> Seq<char> {
    repeated('0', width - decimal(n).len()) + decimal(n)
}

/// `s` filled with blanks on the left up to `width` characters.
pub open spec fn right_aligned(s: Seq<char>, width: nat) -> Seq<char> {
    repeated(' ', width - s.len()) + s
}

/// `n` with a sign in front when it is negative.
pub open spec fn signed_decimal(n: int) -> Seq<char> {
    if n < 0 {
        seq!['-'] + decimal((-n) as nat)
    } else {
        decimal(n as nat)
    }
}

/// The decimal digit for `d`.
fn digit_char(d: u8) -> (c: char)
    requires
        d < 16,
    ensures
        c == digit(d as nat),
{
    if d < 10 {
        (48 + d) as char
    } else {
        (87 + d) as char
    }
}

/// Appends `n` in decimal.
pub fn append_decimal(out: &mut String, n: u64)
    ensures
        final(out)@ == old(out)@ + decimal(n as nat),
    decreases n,
{
    if n >= 10 {
        append_decimal(out, n / 10);
    }
    let d: u8 = (n % 10) as u8;
    out.push(digit_char(d));
    proof {
        assert(out@ == old(out)@ + decimal(n as nat));
    }
}

/// Appends `n` in hexadecimal.
pub fn append_hexadecimal(out: &mut String, n: u16)
    ensures
        final(out)@ == old(out)@ + hexadecimal(n as nat),
    decreases n,
{
    if n >= 16 {
        append_hexadecimal(out, n / 16);
    }
    let d: u8 = (n % 16) as u8;
    out.push(digit_char(d));
    proof {
        assert(out@ == old(out)@ + hexadecimal(n as nat));
    }
}

/// Appends a signed number.
pub fn append_signed(out: &mut String, n: i64)
    ensures
        final(out)@ == old(out)@ + signed_decimal(n as int),
{
    if n < 0 {
        out.push('-');
        let magnitude: u64 = (-(n as i128)) as u64;
        append_decimal(out, magnitude);
    } else {
        append_decimal(out, n as u64);
    }
    proof {
        assert(out@ == old(out)@ + signed_decimal(n as int));
    }
}

/// Appends `count` copies of `c`.
pub fn append_repeated(out: &mut String, c: char, count: usize)
    ensures
        final(out)@ == old(out)@ + repeated(c, count as int),
{
    let ghost start = out@;
    let mut done: usize = 0;
    while done < count
        invariant
            done <= count,
            out@ == start + repeated(c, done as int),
        decreases count - done,
    {
        out.push(c);
        done = done + 1;
        proof {
            assert(out@ =~= start + repeated(c, done as int));
        }
    }
    proof {
        assert(out@ =~= start + repeated(c, count as int));
    }
}

/// The number of decimal digits of a 64-bit number fits any string.
proof fn lemma_decimal_len(n: nat)
    requires
        n <= u64::MAX,
    ensures
        1 <= decimal(n).len() <= 20,
{
    reveal_with_fuel(decimal, 21);
}

/// Appends `n` in decimal, zero-filled up to `width`.
pub fn append_padded(out: &mut String, n: u64, width: usize)
    ensures
        final(out)@ == old(out)@ + padded(n as nat, width as nat),
{
    let mut digits = String::new();
    append_decimal(&mut digits, n);
    proof {
        lemma_decimal_len(n as nat);
        assert(digits@ == decimal(n as nat));
    }
    let used: usize = digits.as_str().unicode_len();
    if used < width {
        append_repeated(out, '0', width - used);
    }
    out.append(digits.as_str());
    proof {
        assert(out@ =~= old(out)@ + padded(n as nat, width as nat));
    }
}

/// Appends `s`, blank-filled on the left up to `width` characters.
pub fn append_right_aligned(out: &mut String, s: &str, width: usize)
    ensures
        final(out)@ == old(out)@ + right_aligned(s@, width as nat),
{
    let used: usize = s.unicode_len();
    if used < width {
        append_repeated(out, ' ', width - used);
    }
    out.append(s);
    proof {
        assert(out@ =~= old(out)@ + right_aligned(s@, width as nat));
    }
}

} // verus!
