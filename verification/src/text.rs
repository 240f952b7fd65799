//! Shared text utilities: finding and splitting on a delimiter, decimal
//! 16-bit numbers, and turning ASCII byte runs back into strings.

use vstd::prelude::*;
use vstd::string::StrSliceExecFns;
use vstd::string::StringExecFns;
use vstd::utf8::{decode_utf8, encode_utf8, is_ascii_chars, valid_utf8};

use crate::errors::ProtoError;

verus! {

/// The index of the first `d` in `s`, or `s.len()` when none occurs.
pub open spec fn spec_find(s: Seq<char>, d: char) -> int
    decreases s.len(),
{
    if s.len() == 0 {
        0
    } else if s[0] == d {
        0
    } else {
        1 + spec_find(s.drop_first(), d)
    }
}

/// `spec_find` is exactly the first position holding `d`.
pub proof fn lemma_find_at(s: Seq<char>, d: char, n: int)
    requires
        0 <= n <= s.len(),
        forall|m: int| 0 <= m < n ==> s[m] != d,
        n < s.len() ==> s[n] == d,
    ensures
        spec_find(s, d) == n,
    decreases s.len(),
{
    if s.len() == 0 {
    } else if s[0] == d {
        assert(n == 0);
    } else {
        assert(n >= 1);
        lemma_find_at(s.drop_first(), d, n - 1);
    }
}

/// `spec_find` stays within `s` and finds only `d`.
pub proof fn lemma_find_bounds(s: Seq<char>, d: char)
    ensures
        0 <= spec_find(s, d) <= s.len(),
        forall|m: int| 0 <= m < spec_find(s, d) ==> s[m] != d,
        spec_find(s, d) < s.len() ==> s[spec_find(s, d)] == d,
    decreases s.len(),
{
    if s.len() == 0 {
    } else if s[0] == d {
    } else {
        lemma_find_bounds(s.drop_first(), d);
        assert forall|m: int| 0 <= m < spec_find(s, d) implies s[m] != d by {
            if m > 0 {
                assert(s.drop_first()[m - 1] == s[m]);
            }
        }
    }
}

/// The first position at or after `from` holding `d`, or the text's length
/// when `d` does not occur there.
pub fn find_char(s: &str, from: usize, d: char) -> (r: usize)
    requires
        from <= s@.len(),
    ensures
        from <= r <= s@.len(),
        forall|m: int| from <= m < r ==> s@[m] != d,
        r < s@.len() ==> s@[r as int] == d,
{
    let n = s.unicode_len();
    let mut i = from;
    while i < n
        invariant
            from <= i <= n,
            n == s@.len(),
            forall|m: int| from <= m < i ==> s@[m] != d,
        decreases n - i,
    {
        if s.get_char(i) == d {
            return i;
        }
        i = i + 1;
    }
    n
}

/// The value of the decimal digit `d`.
pub open spec fn spec_digit_char(d: int) -> char {
    if d == 0 {
        '0'
    } else if d == 1 {
        '1'
    } else if d == 2 {
        '2'
    } else if d == 3 {
        '3'
    } else if d == 4 {
        '4'
    } else if d == 5 {
        '5'
    } else if d == 6 {
        '6'
    } else if d == 7 {
        '7'
    } else if d == 8 {
        '8'
    } else {
        '9'
    }
}

/// True on the ten decimal digit characters.
pub open spec fn spec_is_digit(c: char) -> bool {
    48 <= c as u32 <= 57
}

/// The digit value of `c`.
pub open spec fn spec_char_digit(c: char) -> int {
    c as u32 - 48
}

/// The decimal rendering of a 16-bit value: most significant digit first,
/// no sign, no leading zeros.
pub open spec fn spec_dec_chars(v: u16) -> Seq<char>
    decreases v,
{
    if v < 10 {
        seq![spec_digit_char(v as int)]
    } else {
        spec_dec_chars(v / 10) + seq![spec_digit_char((v % 10) as int)]
    }
}

/// The number a digit run denotes, most significant digit first.
pub open spec fn spec_dec_value(s: Seq<char>) -> int
    decreases s.len(),
{
    if s.len() == 0 {
        0
    } else {
        spec_dec_value(s.drop_last()) * 10 + spec_char_digit(s.last())
    }
}

/// True when every character of `s` is a decimal digit.
pub open spec fn spec_all_digits(s: Seq<char>) -> bool {
    forall|i: int| 0 <= i < s.len() ==> spec_is_digit(#[trigger] s[i])
}

/// What parsing `s` as an unsigned 16-bit decimal yields: the value when
/// `s` is a nonempty digit run denoting at most 65535, nothing otherwise.
pub open spec fn spec_parse_u16(s: Seq<char>) -> Option<u16> {
    if s.len() > 0 && spec_all_digits(s) && spec_dec_value(s) <= 0xffff {
        Some(spec_dec_value(s) as u16)
    } else {
        None
    }
}

/// A digit run denotes a nonnegative number.
pub proof fn lemma_dec_value_nonneg(s: Seq<char>)
    requires
        spec_all_digits(s),
    ensures
        spec_dec_value(s) >= 0,
    decreases s.len(),
{
    if s.len() > 0 {
        assert(spec_all_digits(s.drop_last()));
        lemma_dec_value_nonneg(s.drop_last());
    }
}

/// Dropping trailing digits never increases the denoted number.
pub proof fn lemma_dec_value_prefix_le(s: Seq<char>, i: int)
    requires
        spec_all_digits(s),
        0 <= i <= s.len(),
    ensures
        spec_dec_value(s.take(i)) <= spec_dec_value(s),
    decreases s.len() - i,
{
    if i == s.len() {
        assert(s.take(i) =~= s);
    } else {
        assert(s.take(i + 1).drop_last() =~= s.take(i));
        assert(s.take(i + 1).last() == s[i]);
        assert(spec_all_digits(s.take(i)));
        lemma_dec_value_nonneg(s.take(i));
        assert(spec_dec_value(s.take(i + 1)) == spec_dec_value(s.take(i)) * 10 + spec_char_digit(
            s[i],
        ));
        lemma_dec_value_prefix_le(s, i + 1);
    }
}

/// One decimal digit as text.
fn digit_str(d: u16) -> (r: &'static str)
    requires
        d < 10,
    ensures
        r@ == seq![spec_digit_char(d as int)],
{
    proof {
        reveal_strlit("0");
        reveal_strlit("1");
        reveal_strlit("2");
        reveal_strlit("3");
        reveal_strlit("4");
        reveal_strlit("5");
        reveal_strlit("6");
        reveal_strlit("7");
        reveal_strlit("8");
        reveal_strlit("9");
    }
    let r = if d == 0 {
        "0"
    } else if d == 1 {
        "1"
    } else if d == 2 {
        "2"
    } else if d == 3 {
        "3"
    } else if d == 4 {
        "4"
    } else if d == 5 {
        "5"
    } else if d == 6 {
        "6"
    } else if d == 7 {
        "7"
    } else if d == 8 {
        "8"
    } else {
        "9"
    };
    proof {
        assert(r@ =~= seq![spec_digit_char(d as int)]);
    }
    r
}

/// The decimal rendering of a 16-bit value.
pub fn u16_dec_string(v: u16) -> (r: String)
    ensures
        r@ == spec_dec_chars(v),
    decreases v,
{
    if v < 10 {
        digit_str(v).to_owned()
    } else {
        let mut s = u16_dec_string(v / 10);
        s.append(digit_str(v % 10));
        s
    }
}

/// Parses an unsigned 16-bit decimal, failing on the empty text, any
/// non-digit, or a value over 65535.
pub fn parse_u16(s: &str) -> (r: Result<u16, ProtoError>)
    ensures
        match spec_parse_u16(s@) {
            Some(v) => r matches Ok(x) && x == v,
            None => r matches Err(e) && e == ProtoError::MalformedNumber,
        },
{
    let n = s.unicode_len();
    if n == 0 {
        return Err(ProtoError::MalformedNumber);
    }
    let mut acc: u32 = 0;
    let mut i: usize = 0;
    while i < n
        invariant
            0 <= i <= n,
            n == s@.len(),
            spec_all_digits(s@.take(i as int)),
            acc == spec_dec_value(s@.take(i as int)),
            acc <= 0xffff,
        decreases n - i,
    {
        let c = s.get_char(i);
        let u = c as u32;
        if u < 48 || u > 57 {
            proof {
                assert(!spec_is_digit(s@[i as int]));
            }
            return Err(ProtoError::MalformedNumber);
        }
        let next = acc * 10 + (u - 48);
        proof {
            assert(s@.take(i + 1).drop_last() =~= s@.take(i as int));
            assert(s@.take(i + 1).last() == s@[i as int]);
            assert(spec_dec_value(s@.take(i + 1)) == next);
        }
        if next > 0xffff {
            proof {
                if spec_all_digits(s@) {
                    lemma_dec_value_prefix_le(s@, i + 1);
                }
            }
            return Err(ProtoError::MalformedNumber);
        }
        acc = next;
        i = i + 1;
    }
    proof {
        assert(s@.take(n as int) =~= s@);
    }
    Ok(acc as u16)
}

/// Reading a rendered decimal back yields the value: the digits are
/// digits, and they denote the value itself.
pub proof fn lemma_u16_dec_round_trip(v: u16)
    ensures
        spec_parse_u16(spec_dec_chars(v)) == Some(v),
        spec_all_digits(spec_dec_chars(v)),
        spec_dec_chars(v).len() > 0,
    decreases v,
{
    let s = spec_dec_chars(v);
    if v < 10 {
        assert(spec_is_digit(spec_digit_char(v as int)));
        assert(s.drop_last() =~= Seq::<char>::empty());
        assert(spec_dec_value(Seq::<char>::empty()) == 0);
        assert(spec_dec_value(s) == v);
    } else {
        lemma_u16_dec_round_trip(v / 10);
        let head = spec_dec_chars(v / 10);
        assert(s =~= head + seq![spec_digit_char((v % 10) as int)]);
        assert(s.drop_last() =~= head);
        assert(s.last() == spec_digit_char((v % 10) as int));
        assert(spec_is_digit(s.last()));
        assert(spec_all_digits(s));
        assert(spec_dec_value(s) == spec_dec_value(head) * 10 + (v % 10));
        lemma_dec_value_nonneg(head);
        assert(spec_dec_value(head) == (v / 10) as int);
        assert(spec_dec_value(s) == v);
    }
}

/// Relies on `String::from_utf8` from std: it succeeds exactly on valid
/// UTF-8 input, and then returns the string those bytes encode, as vstd's
/// own `valid_utf8` and `decode_utf8` define them.
#[verifier::external_body]
fn string_from_utf8(bytes: Vec<u8>) -> (r: Option<String>)
    ensures
        r is Some <==> valid_utf8(bytes@),
        r matches Some(s) ==> s@ == decode_utf8(bytes@),
{
    String::from_utf8(bytes).ok()
}

/// A run of plain ASCII bytes is valid UTF-8 and decodes to itself,
/// character for character.
pub proof fn lemma_ascii_bytes_decode(bytes: Seq<u8>)
    requires
        forall|i: int| 0 <= i < bytes.len() ==> (#[trigger] bytes[i]) < 0x80,
    ensures
        valid_utf8(bytes),
        decode_utf8(bytes) == bytes.map_values(|b: u8| b as char),
{
    let chars = bytes.map_values(|b: u8| b as char);
    assert(is_ascii_chars(chars)) by {
        assert forall|i: int| 0 <= i < chars.len() implies '\0' <= #[trigger] chars[i]
            <= '\u{7f}' by {
            assert(chars[i] == bytes[i] as char);
            assert(chars[i] as u32 == bytes[i]);
        }
    }
    vstd::utf8::is_ascii_chars_encode_utf8(chars);
    assert(encode_utf8(chars) =~= bytes);
    vstd::utf8::encode_utf8_valid_utf8(chars);
    vstd::utf8::encode_utf8_decode_utf8(chars);
}

/// The string spelt by a run of plain ASCII bytes, one character per byte.
pub fn ascii_bytes_to_string(bytes: Vec<u8>) -> (r: String)
    requires
        forall|i: int| 0 <= i < bytes@.len() ==> (#[trigger] bytes@[i]) < 0x80,
    ensures
        r@ == bytes@.map_values(|b: u8| b as char),
{
    proof {
        lemma_ascii_bytes_decode(bytes@);
    }
    match string_from_utf8(bytes) {
        Some(s) => s,
        None => String::new(),
    }
}

} // verus!

