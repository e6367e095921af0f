//! Facts about strings as sequences of characters and about their length in
//! bytes, which is what match lengths and token spans are measured in.

use vstd::prelude::*;
use vstd::utf8::{encode_scalar, encode_utf8};

verus! {

/// The number of bytes that the UTF-8 encoding of `c` takes.
pub open spec fn char_width(c: char) -> nat {
    encode_scalar(c as u32).len()
}

/// The number of bytes that the UTF-8 encoding of `s` takes.
pub open spec fn utf8_len(s: Seq<char>) -> nat {
    encode_utf8(s).len()
}

/// Every character takes between one and four bytes.
pub proof fn lemma_char_width_bounds(c: char)
    ensures
        1 <= char_width(c) <= 4,
{
}

/// The encoding of a concatenation is the concatenation of the encodings.
pub proof fn lemma_encode_concat(a: Seq<char>, b: Seq<char>)
    ensures
        encode_utf8(a + b) == encode_utf8(a) + encode_utf8(b),
    decreases a.len(),
{
    if a.len() == 0 {
        assert(a + b == b);
        assert(encode_utf8(a) + encode_utf8(b) == encode_utf8(b));
    } else {
        lemma_encode_concat(a.drop_first(), b);
        assert((a + b).drop_first() == a.drop_first() + b);
        assert(encode_scalar(a[0] as u32) + (encode_utf8(a.drop_first()) + encode_utf8(b))
            == (encode_scalar(a[0] as u32) + encode_utf8(a.drop_first())) + encode_utf8(b));
    }
}

/// The encoding of a single character.
pub proof fn lemma_encode_single(c: char)
    ensures
        encode_utf8(seq![c]) == encode_scalar(c as u32),
{
    assert(seq![c].drop_first() == Seq::<char>::empty());
    assert(encode_utf8(seq![c]) == encode_scalar(c as u32) + encode_utf8(Seq::<char>::empty()));
    assert(encode_utf8(Seq::<char>::empty()) == Seq::<u8>::empty());
    assert(encode_scalar(c as u32) + Seq::<u8>::empty() == encode_scalar(c as u32));
}

/// One more character adds its own width to the length in bytes.
pub proof fn lemma_utf8_len_push(s: Seq<char>, c: char)
    ensures
        utf8_len(s.push(c)) == utf8_len(s) + char_width(c),
{
    lemma_encode_concat(s, seq![c]);
    assert(s.push(c) == s + seq![c]);
    lemma_encode_single(c);
}

/// A prefix is no longer in bytes than the whole, and no shorter than its
/// number of characters.
pub proof fn lemma_utf8_len_prefix(s: Seq<char>, j: int, k: int)
    requires
        0 <= j <= k <= s.len(),
    ensures
        utf8_len(s.take(j)) <= utf8_len(s.take(k)),
        k - j <= utf8_len(s.take(k)) - utf8_len(s.take(j)),
        j == k ==> utf8_len(s.take(j)) == utf8_len(s.take(k)),
    decreases k - j,
{
    if j < k {
        lemma_utf8_len_prefix(s, j, k - 1);
        assert(s.take(k) == s.take(k - 1).push(s[k - 1]));
        lemma_utf8_len_push(s.take(k - 1), s[k - 1]);
        lemma_char_width_bounds(s[k - 1]);
    }
}

/// The number of bytes that `c` takes in UTF-8.
pub fn len_utf8(c: char) -> (n: usize)
    ensures
        n == char_width(c),
        1 <= n <= 4,
{
    let v: u32 = c as u32;
    if v < 0x80 {
        1
    } else if v < 0x800 {
        2
    } else if v < 0x10000 {
        3
    } else {
        4
    }
}

/// The length of `s` in bytes.
pub fn byte_len(s: &str) -> (n: usize)
    ensures
        n == utf8_len(s@),
{
    s.as_bytes().len()
}

/// Whether two strings hold the same characters.
pub fn str_eq(a: &str, b: &str) -> (r: bool)
    ensures
        r == (a@ == b@),
{
    let x = a.as_bytes();
    let y = b.as_bytes();
    proof {
        vstd::utf8::encode_utf8_decode_utf8(a@);
        vstd::utf8::encode_utf8_decode_utf8(b@);
    }
    if x.len() != y.len() {
        return false;
    }
    let n = x.len();
    let mut i: usize = 0;
    while i < n
        invariant
            n == x@.len(),
            n == y@.len(),
            x@ == encode_utf8(a@),
            y@ == encode_utf8(b@),
            i <= n,
            forall|j: int| 0 <= j < i ==> x@[j] == y@[j],
        decreases n - i,
    {
        if x[i] != y[i] {
            return false;
        }
        i = i + 1;
    }
    assert(x@ =~= y@);
    true
}

/// `String::push` of the standard library appends the character to the end
/// of the string and leaves the rest as it was.
pub assume_specification[ String::push ](s: &mut String, ch: char)
    ensures
        final(s)@ == old(s)@.push(ch),
;

/// Whether `c` is white space: the characters that Unicode gives the
/// property `White_Space`.
pub open spec fn is_whitespace(c: char) -> bool {
    let v = c as u32;
    ||| 0x09 <= v <= 0x0d
    ||| v == 0x20
    ||| v == 0x85
    ||| v == 0xa0
    ||| v == 0x1680
    ||| 0x2000 <= v <= 0x200a
    ||| v == 0x2028
    ||| v == 0x2029
    ||| v == 0x202f
    ||| v == 0x205f
    ||| v == 0x3000
}

/// Whether `c` is white space.
pub fn is_whitespace_char(c: char) -> (r: bool)
    ensures
        r == is_whitespace(c),
{
    let v: u32 = c as u32;
    (0x09 <= v && v <= 0x0d) || v == 0x20 || v == 0x85 || v == 0xa0 || v == 0x1680 || (0x2000 <= v
        && v <= 0x200a) || v == 0x2028 || v == 0x2029 || v == 0x202f || v == 0x205f || v == 0x3000
}

/// The lower-case hexadecimal digit of a value below sixteen.
pub open spec fn hex_digit(d: nat) -> char {
    if d == 0 {
        '0'
    } else if d == 1 {
        '1'
    } else if d == 2 {
        '2'
    } else if d == 3 {
        '3'
    } else if d == 4 {
        '4'
    } else if d == 5 {
        '5'
    } else if d == 6 {
        '6'
    } else if d == 7 {
        '7'
    } else if d == 8 {
        '8'
    } else if d == 9 {
        '9'
    } else if d == 10 {
        'a'
    } else if d == 11 {
        'b'
    } else if d == 12 {
        'c'
    } else if d == 13 {
        'd'
    } else if d == 14 {
        'e'
    } else {
        'f'
    }
}

/// The digits of `v` to the given base, without leading zeros.
pub open spec fn digits(v: nat, base: nat) -> Seq<char>
    decreases v,
{
    if base < 2 || v < base {
        seq![hex_digit(v)]
    } else {
        proof {
            assert(v / base < v) by (nonlinear_arith)
                requires
                    base >= 2,
                    v >= base,
            ;
        }
        digits(v / base, base).push(hex_digit(v % base))
    }
}

/// The hexadecimal digits of `v`, without leading zeros.
pub open spec fn hex_digits(v: nat) -> Seq<char> {
    digits(v, 16)
}

/// The decimal digits of `v`, without leading zeros.
pub open spec fn dec_digits(v: nat) -> Seq<char> {
    digits(v, 10)
}

/// How a character is written so that it can be read back: the usual
/// backslash escapes for tab, carriage return, line feed, the two quotes and
/// the backslash; printable ASCII as it is; everything else as its code
/// point in hexadecimal between `\u{` and `}`.
pub open spec fn escape_default(c: char) -> Seq<char> {
    if c == '\t' {
        seq!['\\', 't']
    } else if c == '\r' {
        seq!['\\', 'r']
    } else if c == '\n' {
        seq!['\\', 'n']
    } else if c == '\'' {
        seq!['\\', '\'']
    } else if c == '"' {
        seq!['\\', '"']
    } else if c == '\\' {
        seq!['\\', '\\']
    } else if 0x20 <= c as u32 <= 0x7e {
        seq![c]
    } else {
        seq!['\\', 'u', '{'] + hex_digits(c as u32 as nat) + seq!['}']
    }
}

/// The digit of a value below sixteen.
fn digit_char(d: u32) -> (c: char)
    requires
        d < 16,
    ensures
        c == hex_digit(d as nat),
{
    if d == 0 {
        '0'
    } else if d == 1 {
        '1'
    } else if d == 2 {
        '2'
    } else if d == 3 {
        '3'
    } else if d == 4 {
        '4'
    } else if d == 5 {
        '5'
    } else if d == 6 {
        '6'
    } else if d == 7 {
        '7'
    } else if d == 8 {
        '8'
    } else if d == 9 {
        '9'
    } else if d == 10 {
        'a'
    } else if d == 11 {
        'b'
    } else if d == 12 {
        'c'
    } else if d == 13 {
        'd'
    } else if d == 14 {
        'e'
    } else {
        'f'
    }
}

/// Appends the digits of `v` to the base `base`, which is ten or sixteen.
fn push_digits(out: &mut String, v: usize, base: u32)
    requires
        base == 10 || base == 16,
    ensures
        final(out)@ == old(out)@ + digits(v as nat, base as nat),
{
    let mut buf: Vec<char> = Vec::new();
    let mut x: usize = v;
    while x >= base as usize
        invariant
            base == 10 || base == 16,
            digits(v as nat, base as nat) == digits(x as nat, base as nat) + buf@.reverse(),
        decreases x,
    {
        let d = (x % (base as usize)) as u32;
        let ghost before = buf@;
        buf.push(digit_char(d));
        proof {
            let c = hex_digit(d as nat);
            assert(buf@.reverse() =~= seq![c] + before.reverse());
            assert(digits(x as nat, base as nat) == digits((x / base as usize) as nat, base as nat).push(c));
            assert(digits((x / base as usize) as nat, base as nat).push(c) + before.reverse()
                =~= digits((x / base as usize) as nat, base as nat) + (seq![c] + before.reverse()));
        }
        x = x / (base as usize);
    }
    let ghost before = buf@;
    buf.push(digit_char(x as u32));
    proof {
        assert(buf@.reverse() =~= seq![hex_digit(x as nat)] + before.reverse());
        assert(digits(v as nat, base as nat) =~= buf@.reverse());
    }
    let n = buf.len();
    let mut i: usize = n;
    while i > 0
        invariant
            i <= n,
            n == buf@.len(),
            out@ == old(out)@ + buf@.reverse().take(n - i),
        decreases i,
    {
        i = i - 1;
        out.push(buf[i]);
        proof {
            let r = buf@.reverse();
            assert(r.take(n - i) =~= r.take(n - i - 1).push(r[n - i - 1]));
            assert(r[n - i - 1] == buf@[i as int]);
        }
    }
    assert(buf@.reverse().take(n as int) =~= buf@.reverse());
}

/// Appends `v` in decimal.
pub fn push_decimal(out: &mut String, v: usize)
    ensures
        final(out)@ == old(out)@ + dec_digits(v as nat),
{
    push_digits(out, v, 10);
}

/// Appends `c` as `escape_default` writes it.
pub fn push_escaped(out: &mut String, c: char)
    ensures
        final(out)@ == old(out)@ + escape_default(c),
{
    let v: u32 = c as u32;
    if c == '\t' {
        out.push('\\');
        out.push('t');
    } else if c == '\r' {
        out.push('\\');
        out.push('r');
    } else if c == '\n' {
        out.push('\\');
        out.push('n');
    } else if c == '\'' {
        out.push('\\');
        out.push('\'');
    } else if c == '"' {
        out.push('\\');
        out.push('"');
    } else if c == '\\' {
        out.push('\\');
        out.push('\\');
    } else if 0x20 <= v && v <= 0x7e {
        out.push(c);
    } else {
        out.push('\\');
        out.push('u');
        out.push('{');
        push_digits(out, v as usize, 16);
        out.push('}');
    }
    assert(out@ =~= old(out)@ + escape_default(c));
}

/// Appends the characters of `s`.
pub fn push_text(out: &mut String, s: &str)
    ensures
        final(out)@ == old(out)@ + s@,
{
    for c in it: s.chars()
        invariant
            it.seq() == s@,
            out@ == old(out)@ + s@.take(it.index()),
    {
        out.push(c);
        assert(s@.take(it.index() + 1) =~= s@.take(it.index()).push(c));
    }
}

/// Whether `n` is the length in bytes of a prefix of `s`.
pub open spec fn is_prefix_len(s: Seq<char>, n: int) -> bool {
    exists|j: int| 0 <= j <= s.len() && n == #[trigger] utf8_len(s.take(j))
}

/// The bytes of a string fall apart into those of a prefix and those of the
/// rest.
pub proof fn lemma_utf8_len_split(s: Seq<char>, j: int)
    requires
        0 <= j <= s.len(),
    ensures
        encode_utf8(s) == encode_utf8(s.take(j)) + encode_utf8(s.skip(j)),
        utf8_len(s) == utf8_len(s.take(j)) + utf8_len(s.skip(j)),
{
    assert(s == s.take(j) + s.skip(j));
    lemma_encode_concat(s.take(j), s.skip(j));
}

/// Where a prefix ends in bytes, a character ends.
proof fn lemma_prefix_boundary(s: Seq<char>, j: int)
    requires
        0 <= j <= s.len(),
    ensures
        vstd::utf8::is_char_boundary(encode_utf8(s), utf8_len(s.take(j)) as int),
    decreases j,
{
    vstd::utf8::encode_utf8_valid_utf8(s);
    if j == 0 {
        assert(s.take(0) =~= Seq::<char>::empty());
    } else {
        let rest = s.drop_first();
        vstd::utf8::encode_utf8_first_scalar(s);
        assert(vstd::utf8::pop_first_scalar(encode_utf8(s)) =~= encode_utf8(rest));
        lemma_prefix_boundary(rest, j - 1);
        assert(s.take(j) =~= seq![s[0]] + rest.take(j - 1));
        lemma_encode_concat(seq![s[0]], rest.take(j - 1));
        lemma_encode_single(s[0]);
        lemma_char_width_bounds(s[0]);
        lemma_utf8_len_split(s, j);
    }
}

/// The string without its first `n` bytes, which are those of its first `j`
/// characters.
pub(crate) fn skip_bytes<'a>(s: &'a str, n: usize, Ghost(j): Ghost<int>) -> (rest: &'a str)
    requires
        0 <= j <= s@.len(),
        n == utf8_len(s@.take(j)),
    ensures
        rest@ == s@.skip(j),
{
    proof {
        lemma_prefix_boundary(s@, j);
        lemma_utf8_len_split(s@, j);
    }
    let (_, rest) = s.split_at(n);
    proof {
        let bytes = encode_utf8(s@);
        assert(bytes.subrange(n as int, bytes.len() as int) =~= encode_utf8(s@.skip(j)));
        vstd::utf8::encode_utf8_decode_utf8(rest@);
        vstd::utf8::encode_utf8_decode_utf8(s@.skip(j));
    }
    rest
}

/// The first character of a string, if it has one.
pub fn first_char(s: &str) -> (r: Option<char>)
    ensures
        match r {
            Some(c) => s@.len() > 0 && c == s@[0],
            None => s@.len() == 0,
        },
{
    let mut chars = s.chars();
    chars.next()
}

} // verus!
