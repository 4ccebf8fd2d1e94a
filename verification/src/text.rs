//! Text as sequences of characters, with their UTF-8 widths.

use vstd::prelude::*;
use vstd::utf8::encode_scalar;
use vstd::utf8::encode_utf8;

verus! {

/// `String::push` appends the character to the end of the string.
pub assume_specification[ String::push ](s: &mut String, c: char)
    ensures
        final(s)@ == old(s)@.push(c),
;

/// How many bytes UTF-8 spends on `s`.
pub open spec fn byte_len(s: Seq<char>) -> nat {
    encode_utf8(s).len()
}

/// How many bytes UTF-8 spends on one character.
pub open spec fn char_width(c: char) -> nat {
    if (c as u32) <= 0x7f {
        1
    } else if (c as u32) <= 0x7ff {
        2
    } else if (c as u32) <= 0xffff {
        3
    } else {
        4
    }
}

pub proof fn lemma_byte_len_push(s: Seq<char>, c: char)
    ensures
        byte_len(s.push(c)) == byte_len(s) + char_width(c),
    decreases s.len(),
{
    let t = s.push(c);
    assert(encode_scalar(c as u32).len() == char_width(c)) by {
        vstd::utf8::char_is_scalar(c);
    }
    if s.len() == 0 {
        assert(t.drop_first() =~= Seq::<char>::empty());
        assert(encode_utf8(t.drop_first()) =~= Seq::<u8>::empty());
        assert(t[0] == c);
        assert(encode_utf8(t) == encode_scalar(c as u32) + encode_utf8(t.drop_first()));
    } else {
        lemma_byte_len_push(s.drop_first(), c);
        assert(t.drop_first() =~= s.drop_first().push(c));
        assert(t[0] == s[0]);
    }
}

pub proof fn lemma_byte_len_take(s: Seq<char>, n: int)
    requires
        0 <= n < s.len(),
    ensures
        byte_len(s.take(n + 1)) == byte_len(s.take(n)) + char_width(s[n]),
{
    assert(s.take(n + 1) =~= s.take(n).push(s[n]));
    lemma_byte_len_push(s.take(n), s[n]);
}

pub proof fn lemma_byte_len_monotone(s: Seq<char>, m: int, n: int)
    requires
        0 <= m <= n <= s.len(),
    ensures
        byte_len(s.take(m)) <= byte_len(s.take(n)),
        n - m <= byte_len(s.take(n)) - byte_len(s.take(m)),
    decreases n - m,
{
    if m < n {
        lemma_byte_len_monotone(s, m, n - 1);
        lemma_byte_len_take(s, n - 1);
    }
}

/// How many bytes UTF-8 spends on `c`.
pub fn width_of(c: char) -> (w: usize)
    ensures
        w == char_width(c),
        1 <= w <= 4,
{
    let v: u32 = c as u32;
    if v <= 0x7f {
        1
    } else if v <= 0x7ff {
        2
    } else if v <= 0xffff {
        3
    } else {
        4
    }
}

/// How many bytes UTF-8 spends on `s`.
pub fn byte_length(s: &str) -> (n: usize)
    ensures
        n == byte_len(s@),
{
    let b = s.as_bytes();
    b.len()
}

/// The characters of `s`, one by one.
pub fn chars_of(s: &str) -> (r: Vec<char>)
    ensures
        r@ == s@,
{
    let mut r: Vec<char> = Vec::new();
    for c in it: s.chars()
        invariant
            r@ == it.seq().take(it.index()),
            it.seq() == s@,
    {
        assert(it.seq().take(it.index() + 1) =~= it.seq().take(it.index()).push(c));
        r.push(c);
    }
    assert(s@.take(s@.len() as int) =~= s@);
    r
}

/// The characters from `from` up to `to`, as a string.
pub fn string_between(chars: &Vec<char>, from: usize, to: usize) -> (r: String)
    requires
        from <= to <= chars@.len(),
    ensures
        r@ == chars@.subrange(from as int, to as int),
{
    let mut r = String::new();
    let mut i: usize = from;
    while i < to
        invariant
            from <= i <= to <= chars@.len(),
            r@ == chars@.subrange(from as int, i as int),
        decreases to - i,
    {
        r.push(chars[i]);
        assert(chars@.subrange(from as int, i + 1) =~= chars@.subrange(from as int, i as int).push(chars@[i as int]));
        i = i + 1;
    }
    r
}

pub fn string_of(chars: &Vec<char>) -> (r: String)
    ensures
        r@ == chars@,
{
    let r = string_between(chars, 0, chars.len());
    assert(chars@.subrange(0, chars@.len() as int) =~= chars@);
    r
}

/// Whether two texts are the same.
pub fn same_text(a: &str, b: &str) -> (r: bool)
    ensures
        r == (a@ == b@),
{
    let x = a.as_bytes();
    let y = b.as_bytes();
    let r = crate::order::bytes_equal(x, y);
    proof {
        vstd::utf8::encode_utf8_decode_utf8(a@);
        vstd::utf8::encode_utf8_decode_utf8(b@);
    }
    r
}

pub open spec fn is_ascii_letter(c: char) -> bool {
    ('a' <= c && c <= 'z') || ('A' <= c && c <= 'Z')
}

pub open spec fn is_digit(c: char) -> bool {
    '0' <= c && c <= '9'
}

/// Printable ASCII other than the space.
pub open spec fn is_graphic(c: char) -> bool {
    '!' <= c && c <= '~'
}

/// The control characters: C0, DEL and C1.
pub open spec fn is_control(c: char) -> bool {
    (c as u32) <= 0x1f || (0x7f <= (c as u32) && (c as u32) <= 0x9f)
}

/// ASCII capitals become small letters; all else stays.
pub open spec fn lower(c: char) -> char {
    if 'A' <= c && c <= 'Z' {
        ((c as u8) + 32) as char
    } else {
        c
    }
}

pub open spec fn lower_all(s: Seq<char>) -> Seq<char> {
    Seq::new(s.len(), |i: int| lower(s[i]))
}

pub fn control_char(c: char) -> (r: bool)
    ensures
        r == is_control(c),
{
    let v: u32 = c as u32;
    v <= 0x1f || (0x7f <= v && v <= 0x9f)
}

/// Some character of `s` is a control character.
pub open spec fn has_control(s: Seq<char>) -> bool {
    exists|i: int| 0 <= i < s.len() && is_control(#[trigger] s[i])
}

/// Whether some character of `s` is a control character.
pub fn any_control(s: &str) -> (r: bool)
    ensures
        r == has_control(s@),
{
    let chars: Vec<char> = chars_of(s);
    let mut i: usize = 0;
    while i < chars.len()
        invariant
            i <= chars@.len(),
            chars@ == s@,
            forall|j: int| 0 <= j < i ==> !is_control(#[trigger] s@[j]),
        decreases chars@.len() - i,
    {
        if control_char(chars[i]) {
            assert(is_control(s@[i as int]));
            return true;
        }
        i = i + 1;
    }
    false
}

/// Whether `c` occurs in `s`.
pub fn holds_char(s: &str, c: char) -> (r: bool)
    ensures
        r == s@.contains(c),
{
    let chars: Vec<char> = chars_of(s);
    let mut i: usize = 0;
    while i < chars.len()
        invariant
            i <= chars@.len(),
            chars@ == s@,
            forall|j: int| 0 <= j < i ==> s@[j] != c,
        decreases chars@.len() - i,
    {
        if chars[i] == c {
            assert(s@[i as int] == c);
            return true;
        }
        i = i + 1;
    }
    false
}

/// Whether `s` begins with `c`.
pub fn opens_with(s: &str, c: char) -> (r: bool)
    ensures
        r == (s@.len() > 0 && s@[0] == c),
{
    if s.is_empty() {
        return false;
    }
    s.get_char(0) == c
}

pub fn letter_char(c: char) -> (r: bool)
    ensures
        r == is_ascii_letter(c),
{
    ('a' <= c && c <= 'z') || ('A' <= c && c <= 'Z')
}

pub fn lower_char(c: char) -> (r: char)
    ensures
        r == lower(c),
{
    if 'A' <= c && c <= 'Z' {
        let v: u8 = c as u8;
        (v + 32) as char
    } else {
        c
    }
}

pub fn lower_string(s: &str) -> (r: String)
    ensures
        r@ == lower_all(s@),
{
    let chars: Vec<char> = chars_of(s);
    let mut r = String::new();
    let mut i: usize = 0;
    while i < chars.len()
        invariant
            i <= chars@.len(),
            chars@ == s@,
            r@ == lower_all(s@).take(i as int),
        decreases chars@.len() - i,
    {
        r.push(lower_char(chars[i]));
        assert(lower_all(s@).take(i + 1) =~= lower_all(s@).take(i as int).push(lower_all(s@)[i as int]));
        i = i + 1;
    }
    assert(lower_all(s@).take(i as int) =~= lower_all(s@));
    r
}

/// The hexadecimal digit for `n`.
pub open spec fn hex_digit(n: int) -> char {
    "0123456789abcdef"@[n]
}

/// Two lower-case hexadecimal digits for each byte.
pub open spec fn hex_text(bytes: Seq<u8>) -> Seq<char> {
    Seq::new(
        2 * bytes.len(),
        |i: int|
            if i % 2 == 0 {
                hex_digit(bytes[i / 2] as int / 16)
            } else {
                hex_digit(bytes[i / 2] as int % 16)
            },
    )
}

fn hex_digit_of(n: u8) -> (c: char)
    requires
        n < 16,
    ensures
        c == hex_digit(n as int),
{
    proof {
        reveal_strlit("0123456789abcdef");
    }
    "0123456789abcdef".get_char(n as usize)
}

/// Renders bytes as lower-case hexadecimal.
pub fn hex_of(bytes: &[u8]) -> (r: String)
    ensures
        r@ == hex_text(bytes@),
{
    let mut r = String::new();
    let mut i: usize = 0;
    while i < bytes.len()
        invariant
            i <= bytes@.len(),
            r@ == hex_text(bytes@).take(2 * i),
        decreases bytes@.len() - i,
    {
        let b: u8 = bytes[i];
        r.push(hex_digit_of(b / 16));
        r.push(hex_digit_of(b % 16));
        proof {
            let h = hex_text(bytes@);
            assert(h.take(2 * (i + 1)) =~= h.take(2 * i).push(h[2 * i]).push(h[2 * i + 1]));
            assert((2 * i) / 2 == i && (2 * i + 1) / 2 == i);
        }
        i = i + 1;
    }
    assert(hex_text(bytes@).take(2 * i) =~= hex_text(bytes@));
    r
}

/// White space in the sense of Unicode's `White_Space` property.
pub open spec fn is_space(c: char) -> bool {
    let v = c as u32;
    ||| 0x09 <= v <= 0x0d
    ||| v == 0x20
    ||| v == 0x85
    ||| v == 0xa0
    ||| v == 0x1680
    ||| 0x2000 <= v <= 0x200a
    ||| v == 0x2028
    ||| v == 0x2029
    ||| v == 0x202f
    ||| v == 0x205f
    ||| v == 0x3000
}

pub fn space_char(c: char) -> (r: bool)
    ensures
        r == is_space(c),
{
    let v: u32 = c as u32;
    (0x09 <= v && v <= 0x0d) || v == 0x20 || v == 0x85 || v == 0xa0 || v == 0x1680 || (0x2000 <= v && v
        <= 0x200a) || v == 0x2028 || v == 0x2029 || v == 0x202f || v == 0x205f || v == 0x3000
}

/// `s` without its leading white space.
pub open spec fn trim_start(s: Seq<char>) -> Seq<char>
    decreases s.len(),
{
    if s.len() > 0 && is_space(s[0]) {
        trim_start(s.drop_first())
    } else {
        s
    }
}

/// `s` without its trailing white space.
pub open spec fn trim_end(s: Seq<char>) -> Seq<char>
    decreases s.len(),
{
    if s.len() > 0 && is_space(s.last()) {
        trim_end(s.drop_last())
    } else {
        s
    }
}

/// `s` without white space at either end.
pub open spec fn trimmed(s: Seq<char>) -> Seq<char> {
    trim_end(trim_start(s))
}

/// The text without white space at either end, as characters.
pub fn trim(s: &str) -> (r: Vec<char>)
    ensures
        r@ == trimmed(s@),
{
    let chars: Vec<char> = chars_of(s);
    let mut from: usize = 0;
    assert(chars@.skip(0) =~= chars@);
    while from < chars.len() && space_char(chars[from])
        invariant
            from <= chars@.len(),
            chars@ == s@,
            trim_start(chars@.skip(from as int)) == trim_start(s@),
        decreases chars@.len() - from,
    {
        assert(chars@.skip(from as int).drop_first() =~= chars@.skip(from + 1));
        from = from + 1;
    }
    let mut to: usize = chars.len();
    let ghost rest = chars@.skip(from as int);
    assert(chars@.subrange(from as int, to as int) =~= rest);
    while to > from && space_char(chars[to - 1])
        invariant
            from <= to <= chars@.len(),
            trim_end(chars@.subrange(from as int, to as int)) == trim_end(rest),
        decreases to - from,
    {
        assert(chars@.subrange(from as int, to as int).drop_last() =~= chars@.subrange(from as int, to - 1));
        to = to - 1;
    }
    let mut r: Vec<char> = Vec::new();
    let mut i: usize = from;
    while i < to
        invariant
            from <= i <= to <= chars@.len(),
            r@ == chars@.subrange(from as int, i as int),
        decreases to - i,
    {
        r.push(chars[i]);
        assert(chars@.subrange(from as int, i + 1) =~= chars@.subrange(from as int, i as int).push(chars@[i as int]));
        i = i + 1;
    }
    r
}

/// ASCII small letters become capitals; all else stays.
pub open spec fn upper(c: char) -> char {
    if 'a' <= c && c <= 'z' {
        ((c as u8) - 32) as char
    } else {
        c
    }
}

pub open spec fn upper_all(s: Seq<char>) -> Seq<char> {
    Seq::new(s.len(), |i: int| upper(s[i]))
}

pub fn upper_char(c: char) -> (r: char)
    ensures
        r == upper(c),
{
    if 'a' <= c && c <= 'z' {
        let v: u8 = c as u8;
        (v - 32) as char
    } else {
        c
    }
}

/// Whether the two read the same when ASCII case is ignored.
pub fn same_ignoring_case(a: &str, b: &str) -> (r: bool)
    ensures
        r == (lower_all(a@) == lower_all(b@)),
{
    let x: String = lower_string(a);
    let y: String = lower_string(b);
    x == y
}

/// `n` in decimal digits, without leading zeros.
pub open spec fn decimal(n: nat) -> Seq<char>
    decreases n,
{
    if n < 10 {
        seq![hex_digit(n as int)]
    } else {
        decimal(n / 10).push(hex_digit(n as int % 10))
    }
}

/// `n` in decimal digits, with zeros in front up to `width` digits.
pub open spec fn padded(n: nat, width: nat) -> Seq<char> {
    let digits = decimal(n);
    let missing: nat = if digits.len() < width {
        (width - digits.len()) as nat
    } else {
        0
    };
    Seq::new(missing, |i: int| '0') + digits
}

/// Renders `n` in decimal digits.
pub fn decimal_of(n: u64) -> (r: String)
    ensures
        r@ == decimal(n as nat),
    decreases n,
{
    let mut r: String = if n >= 10 {
        decimal_of(n / 10)
    } else {
        String::new()
    };
    let ghost before = r@;
    r.push(hex_digit_of((n % 10) as u8));
    if n < 10 {
        assert(r@ =~= seq![hex_digit(n as int)]);
    }
    r
}

/// Renders `n` in decimal digits, with zeros in front up to `width` digits.
pub fn padded_of(n: u64, width: usize) -> (r: String)
    ensures
        r@ == padded(n as nat, width as nat),
{
    let digits: String = decimal_of(n);
    let len: usize = chars_of(digits.as_str()).len();
    let mut r = String::new();
    let mut i: usize = len;
    while i < width
        invariant
            len <= i,
            i <= width || i == len,
            r@ == Seq::new((i - len) as nat, |i: int| '0'),
        decreases width - i,
    {
        r.push('0');
        i = i + 1;
        assert(r@ =~= Seq::new((i - len) as nat, |i: int| '0'));
    }
    r.append(digits.as_str());
    assert(r@ =~= padded(n as nat, width as nat));
    r
}

/// Case is a matter of writing: small letters and capitals of one text are one text in
/// either, and neither changes what is neither.
pub proof fn law_case_is_a_matter_of_writing(s: Seq<char>)
    ensures
        lower_all(upper_all(s)) == lower_all(s),
        upper_all(lower_all(s)) == upper_all(s),
        lower_all(lower_all(s)) == lower_all(s),
        lower_all(s).len() == s.len(),
        forall|i: int|
            0 <= i < s.len() && !is_ascii_letter(#[trigger] s[i]) ==> lower_all(s)[i] == s[i]
                && upper_all(s)[i] == s[i],
        forall|i: int|
            0 <= i < s.len() && is_ascii_letter(#[trigger] s[i]) ==> 'a' <= lower_all(s)[i]
                && lower_all(s)[i] <= 'z' && 'A' <= upper_all(s)[i] && upper_all(s)[i] <= 'Z',
{
    assert(lower_all(upper_all(s)) =~= lower_all(s));
    assert(upper_all(lower_all(s)) =~= upper_all(s));
    assert(lower_all(lower_all(s)) =~= lower_all(s));
}

/// What decimal digits are worth.
pub open spec fn worth(digits: Seq<char>) -> int
    decreases digits.len(),
{
    if digits.len() == 0 {
        0
    } else {
        10 * worth(digits.drop_last()) + (digits.last() as int - '0' as int)
    }
}

/// A number in decimal is worth what it is, in digits alone, and opens with a zero only if
/// it is none.
pub proof fn law_decimals_read_back(n: nat)
    ensures
        worth(decimal(n)) == n,
        decimal(n).len() > 0,
        forall|i: int| 0 <= i < decimal(n).len() ==> is_digit(#[trigger] decimal(n)[i]),
        n > 0 ==> decimal(n)[0] != '0',
    decreases n,
{
    reveal_strlit("0123456789abcdef");
    assert(forall|k: int|
        0 <= k < 10 ==> (#[trigger] hex_digit(k)) as int == '0' as int + k && is_digit(hex_digit(k)));
    if n < 10 {
        let d = decimal(n);
        assert(d.drop_last() =~= Seq::<char>::empty());
        assert(worth(d.drop_last()) == 0);
        assert(d.last() == hex_digit(n as int));
    } else {
        law_decimals_read_back(n / 10);
        let d = decimal(n);
        assert(d.drop_last() =~= decimal(n / 10));
        assert(d.last() == hex_digit(n as int % 10));
    }
}

/// White space goes from both ends of a text, and from nowhere else.
pub proof fn law_trimming_takes_only_the_ends(s: Seq<char>)
    ensures
        trimmed(s).len() <= s.len(),
        trimmed(s).len() > 0 ==> !is_space(trimmed(s)[0]) && !is_space(trimmed(s).last()),
        s.len() > 0 && !is_space(s[0]) && !is_space(s.last()) ==> trimmed(s) == s,
{
    lemma_trim_start_shape(s);
    lemma_trim_end_shape(trim_start(s));
}

proof fn lemma_trim_start_shape(s: Seq<char>)
    ensures
        trim_start(s).len() <= s.len(),
        trim_start(s).len() > 0 ==> !is_space(trim_start(s)[0]),
    decreases s.len(),
{
    if s.len() > 0 && is_space(s[0]) {
        lemma_trim_start_shape(s.drop_first());
    }
}

proof fn lemma_trim_end_shape(s: Seq<char>)
    ensures
        trim_end(s).len() <= s.len(),
        trim_end(s).len() > 0 ==> !is_space(trim_end(s).last()) && trim_end(s)[0] == s[0],
    decreases s.len(),
{
    if s.len() > 0 && is_space(s.last()) {
        lemma_trim_end_shape(s.drop_last());
    }
}

} // verus!
