//! Characters and strings: Unicode classification, UTF-8 decoding and
//! encoding, and number formatting used by the scanner and the formatter.
use vstd::prelude::*;
use vstd::utf8::*;
use vstd::std_specs::iter::IteratorSpec;

verus! {

broadcast use vstd::string::group_string_axioms;

/// `String::push` appends one character.
pub assume_specification[ std::string::String::push ](s: &mut String, ch: char)
    ensures
        final(s)@ == old(s)@.push(ch),
;

/// `char::from_u32` gives the character with the given scalar value, and
/// `None` for a surrogate or a value above `0x10FFFF`.
pub assume_specification[ core::char::from_u32 ](i: u32) -> (r: Option<char>)
    ensures
        r == (if is_scalar(i) { Some(i as char) } else { None::<char> }),
;

/// Unicode `White_Space`: the characters for which `char::is_whitespace` holds.
pub open spec fn is_white_space(c: char) -> bool {
    let u = c as u32;
    ||| 0x09 <= u <= 0x0D
    ||| u == 0x20
    ||| u == 0x85
    ||| u == 0xA0
    ||| u == 0x1680
    ||| 0x2000 <= u <= 0x200A
    ||| u == 0x2028
    ||| u == 0x2029
    ||| u == 0x202F
    ||| u == 0x205F
    ||| u == 0x3000
}

/// Unicode general category `Cc`: the characters for which `char::is_control` holds.
pub open spec fn is_control_char(c: char) -> bool {
    let u = c as u32;
    u < 0x20 || (0x7F <= u <= 0x9F)
}

/// ASCII hexadecimal digit, as `char::is_ascii_hexdigit`.
pub open spec fn is_hex_digit(c: char) -> bool {
    ('0' <= c <= '9') || ('a' <= c <= 'f') || ('A' <= c <= 'F')
}

/// The value of one hexadecimal digit.
pub open spec fn hex_digit_value(c: char) -> nat {
    if '0' <= c <= '9' {
        (c as u32 - '0' as u32) as nat
    } else if 'a' <= c <= 'f' {
        (c as u32 - 'a' as u32 + 10) as nat
    } else {
        (c as u32 - 'A' as u32 + 10) as nat
    }
}

/// The number that a string of hexadecimal digits denotes, most significant first.
pub open spec fn hex_value(s: Seq<char>) -> nat
    decreases s.len(),
{
    if s.len() == 0 {
        0
    } else {
        hex_value(s.drop_last()) * 16 + hex_digit_value(s.last())
    }
}

/// The ASCII digit of a value below ten.
pub open spec fn decimal_digit(d: nat) -> char {
    ((d + '0' as u32) as u32) as char
}

/// The shortest decimal representation of `n`, as `usize::to_string` writes it.
pub open spec fn decimal(n: nat) -> Seq<char>
    decreases n,
{
    if n < 10 {
        seq![decimal_digit(n)]
    } else {
        decimal(n / 10).push(decimal_digit(n % 10))
    }
}

/// The lowercase hexadecimal digit of a value below sixteen.
pub open spec fn lower_hex_digit(d: nat) -> char {
    if d < 10 {
        decimal_digit(d)
    } else {
        ((d - 10 + 'a' as u32) as u32) as char
    }
}

/// The shortest lowercase hexadecimal representation of `n`, as `{:x}` writes it.
pub open spec fn lower_hex(n: nat) -> Seq<char>
    decreases n,
{
    if n < 16 {
        seq![lower_hex_digit(n)]
    } else {
        lower_hex(n / 16).push(lower_hex_digit(n % 16))
    }
}

/// Whether `c` is a Unicode white-space character.
pub fn char_is_whitespace(c: char) -> (b: bool)
    ensures
        b == is_white_space(c),
{
    let u = c as u32;
    (0x09 <= u && u <= 0x0D) || u == 0x20 || u == 0x85 || u == 0xA0 || u == 0x1680 || (0x2000
        <= u && u <= 0x200A) || u == 0x2028 || u == 0x2029 || u == 0x202F || u == 0x205F || u
        == 0x3000
}

/// Whether `c` is a control character.
pub fn char_is_control(c: char) -> (b: bool)
    ensures
        b == is_control_char(c),
{
    let u = c as u32;
    u < 0x20 || (0x7F <= u && u <= 0x9F)
}

/// Whether `c` is an ASCII hexadecimal digit.
pub fn char_is_hex_digit(c: char) -> (b: bool)
    ensures
        b == is_hex_digit(c),
{
    ('0' <= c && c <= '9') || ('a' <= c && c <= 'f') || ('A' <= c && c <= 'F')
}

/// Sixteen to the power `n`.
pub open spec fn pow16(n: nat) -> nat
    decreases n,
{
    if n == 0 {
        1
    } else {
        16 * pow16((n - 1) as nat)
    }
}

/// The value of a string of one to six hexadecimal digits, as
/// `u32::from_str_radix(s, 16)` computes it (which cannot fail on such input).
pub fn hex_digits_value(s: &Vec<char>) -> (v: u32)
    requires
        1 <= s@.len() <= 6,
        forall|i: int| 0 <= i < s@.len() ==> is_hex_digit(#[trigger] s@[i]),
    ensures
        v == hex_value(s@),
{
    let mut v: u32 = 0;
    let mut i: usize = 0;
    while i < s.len()
        invariant
            0 <= i <= s@.len() <= 6,
            forall|j: int| 0 <= j < s@.len() ==> is_hex_digit(#[trigger] s@[j]),
            v == hex_value(s@.take(i as int)),
            v < pow16(i as nat),
        decreases s@.len() - i,
    {
        let c = s[i];
        let d: u32 = if '0' <= c && c <= '9' {
            (c as u32) - ('0' as u32)
        } else if 'a' <= c && c <= 'f' {
            (c as u32) - ('a' as u32) + 10
        } else {
            (c as u32) - ('A' as u32) + 10
        };
        assert(pow16((i + 1) as nat) == 16 * pow16(i as nat));
        assert(pow16(i as nat) <= pow16(5)) by {
            lemma_pow16_mono(i as nat, 5);
            reveal_with_fuel(pow16, 6);
        }
        assert(pow16(5) == 1048576) by {
            reveal_with_fuel(pow16, 6);
        }
        v = v * 16 + d;
        assert(s@.take(i + 1).drop_last() =~= s@.take(i as int));
        i = i + 1;
    }
    assert(s@.take(s@.len() as int) =~= s@);
    v
}

proof fn lemma_pow16_mono(a: nat, b: nat)
    requires
        a <= b,
    ensures
        pow16(a) <= pow16(b),
    decreases b,
{
    if a < b {
        lemma_pow16_mono(a, (b - 1) as nat);
    }
}

/// The decimal representation of `n`.
pub fn usize_to_decimal(n: usize) -> (s: String)
    ensures
        s@ == decimal(n as nat),
{
    let mut digits: Vec<char> = Vec::new();
    let mut m: usize = n;
    // digits holds the low-order digits of n, least significant first
    while m >= 10
        invariant
            decimal(n as nat) == decimal(m as nat) + digits@.reverse(),
        decreases m,
    {
        let d = m % 10;
        let c = core::char::from_u32((d as u32) + ('0' as u32)).unwrap();
        let ghost old_digits = digits@;
        assert(decimal(m as nat) == decimal((m / 10) as nat).push(decimal_digit((m % 10) as nat)));
        digits.push(c);
        assert(digits@.reverse() =~= seq![c] + old_digits.reverse());
        m = m / 10;
    }
    let mut s = String::new();
    s.push(core::char::from_u32((m as u32) + ('0' as u32)).unwrap());
    let mut i: usize = digits.len();
    while i > 0
        invariant
            i <= digits@.len(),
            decimal(n as nat) == s@ + digits@.take(i as int).reverse(),
        decreases i,
    {
        let ghost prev = s@;
        s.push(digits[i - 1]);
        assert(digits@.take(i as int).reverse() =~= seq![digits@[i - 1]] + digits@.take(
            i - 1,
        ).reverse());
        i = i - 1;
    }
    assert(digits@.take(0).reverse() =~= Seq::<char>::empty());
    s
}


/// The characters of `s`, in order.
pub fn str_chars(s: &str) -> (v: Vec<char>)
    ensures
        v@ == s@,
{
    let mut v: Vec<char> = Vec::new();
    let mut it = s.chars();
    let ghost mut i: int = 0;
    loop
        invariant
            0 <= i <= s@.len(),
            v@ == s@.take(i),
            it.remaining() == s@.skip(i),
            it.obeys_prophetic_iter_laws(),
        ensures
            v@ == s@,
        decreases s@.len() - i,
    {
        let ghost before = it.remaining();
        match it.next() {
            Some(c) => {
                assert(before.len() > 0);
                assert(c == s@[i]);
                v.push(c);
                proof {
                    i = i + 1;
                }
                assert(v@ =~= s@.take(i));
                assert(it.remaining() =~= s@.skip(i));
            },
            None => {
                assert(before.len() == 0);
                assert(v@ =~= s@);
                break ;
            },
        }
    }
    v
}

/// The bytes of a string of ASCII characters.
pub open spec fn ascii_bytes(cs: Seq<char>) -> Seq<u8> {
    cs.map_values(|c: char| c as u8)
}

/// Appends the UTF-8 encoding of `c`.
pub fn push_utf8(w: &mut Vec<u8>, c: char)
    ensures
        final(w)@ == old(w)@ + encode_scalar(c as u32),
{
    let u = c as u32;
    proof {
        char_is_scalar(c);
    }
    if u <= 0x7F {
        w.push((u & 0x7F) as u8);
    } else if u <= 0x7FF {
        w.push(0xC0 | ((u >> 6) & 0x1F) as u8);
        w.push(0x80 | (u & 0x3F) as u8);
    } else if u <= 0xFFFF {
        w.push(0xE0 | ((u >> 12) & 0x0F) as u8);
        w.push(0x80 | ((u >> 6) & 0x3F) as u8);
        w.push(0x80 | (u & 0x3F) as u8);
    } else {
        w.push(0xF0 | ((u >> 18) & 0x7) as u8);
        w.push(0x80 | ((u >> 12) & 0x3F) as u8);
        w.push(0x80 | ((u >> 6) & 0x3F) as u8);
        w.push(0x80 | (u & 0x3F) as u8);
    }
    assert(final(w)@ =~= old(w)@ + encode_scalar(c as u32));
}

/// Appends the lowercase hexadecimal digits of `n`.
#[verifier::rlimit(30)]
pub fn push_lower_hex(w: &mut Vec<u8>, n: u32)
    ensures
        final(w)@ == old(w)@ + ascii_bytes(lower_hex(n as nat)),
{
    let mut digits: Vec<u8> = Vec::new();
    let mut m: u32 = n;
    while m >= 16
        invariant
            ascii_bytes(lower_hex(n as nat)) == ascii_bytes(lower_hex(m as nat)) + digits@.reverse(),
        decreases m,
    {
        let d = m % 16;
        let b: u8 = if d < 10 { (d as u8) + 48 } else { (d as u8) - 10 + 97 };
        let ghost old_digits = digits@;
        assert(lower_hex(m as nat) == lower_hex((m / 16) as nat).push(lower_hex_digit((m % 16) as nat)));
        assert(ascii_bytes(lower_hex(m as nat)) =~= ascii_bytes(lower_hex((m / 16) as nat)).push(b));
        digits.push(b);
        assert(digits@.reverse() =~= seq![b] + old_digits.reverse());
        m = m / 16;
    }
    let b: u8 = if m < 10 { (m as u8) + 48 } else { (m as u8) - 10 + 97 };
    assert(ascii_bytes(lower_hex(m as nat)) =~= seq![b]);
    let ghost start = w@;
    w.push(b);
    let mut i: usize = digits.len();
    while i > 0
        invariant
            i <= digits@.len(),
            start + ascii_bytes(lower_hex(n as nat)) == w@ + digits@.take(i as int).reverse(),
        decreases i,
    {
        let ghost prev = w@;
        w.push(digits[i - 1]);
        assert(digits@.take(i as int).reverse() =~= seq![digits@[i - 1]] + digits@.take(i - 1).reverse());
        assert(prev + digits@.take(i as int).reverse() =~= w@ + digits@.take(i - 1).reverse());
        i = i - 1;
    }
    assert(digits@.take(0).reverse() =~= Seq::<u8>::empty());
    assert(w@ + Seq::<u8>::empty() =~= w@);
}

/// Encoding a string one character further appends that character's encoding.
pub proof fn lemma_encode_utf8_push(s: Seq<char>, c: char)
    ensures
        encode_utf8(s.push(c)) == encode_utf8(s) + encode_scalar(c as u32),
    decreases s.len(),
{
    if s.len() == 0 {
        assert(s.push(c).drop_first() =~= Seq::<char>::empty());
        assert(encode_utf8(s.push(c)) =~= encode_scalar(c as u32) + encode_utf8(Seq::<char>::empty()));
    } else {
        lemma_encode_utf8_push(s.drop_first(), c);
        assert(s.push(c).drop_first() =~= s.drop_first().push(c));
        assert(s.push(c)[0] == s[0]);
        assert(encode_utf8(s.push(c)) =~= encode_scalar(s[0] as u32) + encode_utf8(s.drop_first().push(c)));
    }
}

/// A lowercase hexadecimal digit is an ASCII hex digit worth its value.
pub proof fn lemma_hex_digit(d: nat)
    requires
        d < 16,
    ensures
        is_hex_digit(lower_hex_digit(d)),
        (lower_hex_digit(d) as u32) < 0x80,
        hex_digit_value(lower_hex_digit(d)) == d,
{
}

/// Reading back lowercase hexadecimal: the digits that `lower_hex` writes
/// for `n` are hexadecimal digits, and together they are worth `n`.
pub proof fn lemma_lower_hex_value(n: nat)
    ensures
        hex_value(lower_hex(n)) == n,
        forall|i: int| 0 <= i < lower_hex(n).len() ==> is_hex_digit(#[trigger] lower_hex(n)[i]),
    decreases n,
{
    if n < 16 {
        lemma_hex_digit(n);
        assert(lower_hex(n).drop_last() =~= Seq::<char>::empty());
        assert(hex_value(Seq::<char>::empty()) == 0);
        assert(hex_value(lower_hex(n)) == hex_value(Seq::<char>::empty()) * 16 + hex_digit_value(lower_hex_digit(n)));
    } else {
        lemma_hex_digit(n % 16);
        lemma_lower_hex_value(n / 16);
        let h = lower_hex(n);
        assert(h.drop_last() =~= lower_hex(n / 16));
        assert(h.last() == lower_hex_digit(n % 16));
        assert((n / 16) * 16 + n % 16 == n);
        assert forall|i: int| 0 <= i < h.len() implies is_hex_digit(#[trigger] h[i]) by {
            if i < h.len() - 1 {
                assert(h[i] == lower_hex(n / 16)[i]);
            }
        }
    }
}

/// Hexadecimal digits are read in either case: an uppercase letter digit
/// is a digit and is worth as much as the same letter in lowercase.
pub proof fn lemma_hex_case(i: nat)
    requires
        i < 6,
    ensures
        is_hex_digit((('a' as u32) + i) as char),
        is_hex_digit((('A' as u32) + i) as char),
        hex_digit_value((('a' as u32) + i) as char) == 10 + i,
        hex_digit_value((('A' as u32) + i) as char) == 10 + i,
{
}

/// The number that a string of decimal digits denotes, most significant first.
pub open spec fn decimal_value(s: Seq<char>) -> nat
    decreases s.len(),
{
    if s.len() == 0 {
        0
    } else {
        decimal_value(s.drop_last()) * 10 + (s.last() as u32 - '0' as u32) as nat
    }
}

/// `decimal` writes the usual decimal numeral: ASCII digits only, worth
/// `n`, with no leading zero (the numeral of zero is `0`).
pub proof fn lemma_decimal_numeral(n: nat)
    ensures
        decimal_value(decimal(n)) == n,
        decimal(n).len() >= 1,
        forall|i: int| 0 <= i < decimal(n).len() ==> '0' <= #[trigger] decimal(n)[i] <= '9',
        n > 0 ==> decimal(n)[0] != '0',
        n == 0 ==> decimal(n) == seq!['0'],
    decreases n,
{
    if n < 10 {
        assert(decimal(n).drop_last() =~= Seq::<char>::empty());
        assert(decimal_value(Seq::<char>::empty()) == 0);
    } else {
        lemma_decimal_numeral(n / 10);
        let d = decimal(n);
        assert(d.drop_last() =~= decimal(n / 10));
        assert(d.last() == decimal_digit(n % 10));
        assert((n / 10) * 10 + n % 10 == n);
        assert(d[0] == decimal(n / 10)[0]);
        assert forall|i: int| 0 <= i < d.len() implies '0' <= #[trigger] d[i] <= '9' by {
            if i < d.len() - 1 {
                assert(d[i] == decimal(n / 10)[i]);
            }
        }
    }
}

} // verus!
