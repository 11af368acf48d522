//! Decoding of packets written as hexadecimal text.
use vstd::prelude::*;
use vstd::string::StringExecFns;
use vstd::utf8::{encode_scalar, encode_utf8};

use crate::text::{digit_char, push_char};

verus! {

/// The bytes that `char::is_ascii_whitespace` accepts: space, tab, line
/// feed, form feed and carriage return.
pub open spec fn is_ascii_whitespace_byte(b: u8) -> bool {
    b == 0x20 || b == 0x09 || b == 0x0a || b == 0x0c || b == 0x0d
}

/// `bytes` with every ASCII whitespace byte removed, the rest in order.
pub open spec fn strip_whitespace(bytes: Seq<u8>) -> Seq<u8>
    decreases bytes.len(),
{
    if bytes.len() == 0 {
        bytes
    } else if is_ascii_whitespace_byte(bytes.last()) {
        strip_whitespace(bytes.drop_last())
    } else {
        strip_whitespace(bytes.drop_last()).push(bytes.last())
    }
}

/// The value of a hexadecimal digit, in either case; `None` for any other byte.
pub open spec fn spec_hex_value(b: u8) -> Option<u8> {
    if 0x30 <= b <= 0x39 {
        Some((b - 0x30) as u8)
    } else if 0x61 <= b <= 0x66 {
        Some((b - 0x61 + 10) as u8)
    } else if 0x41 <= b <= 0x46 {
        Some((b - 0x41 + 10) as u8)
    } else {
        None
    }
}

/// The error text for a byte that is no hexadecimal digit: the byte is shown
/// as the character with the same number.
pub open spec fn invalid_character_message(b: u8) -> Seq<char> {
    "invalid hex character: "@.push(b as char)
}

/// The error text for an odd number of digits.
pub open spec fn odd_length_message() -> Seq<char> {
    "packet_hex must contain an even number of hex digits"@
}

/// The first byte of `s` that is no hexadecimal digit, if there is one.
pub open spec fn first_non_hex(s: Seq<u8>) -> Option<u8>
    decreases s.len(),
{
    if s.len() == 0 {
        None
    } else {
        match first_non_hex(s.drop_last()) {
            Some(b) => Some(b),
            None => if spec_hex_value(s.last()) is None {
                Some(s.last())
            } else {
                None
            },
        }
    }
}

/// The bytes that consecutive pairs of hexadecimal digits spell, high digit first.
pub open spec fn hex_pairs(s: Seq<u8>) -> Seq<u8> {
    Seq::new(
        s.len() / 2,
        |i: int|
            (spec_hex_value(s[2 * i]).unwrap() * 16 + spec_hex_value(s[2 * i + 1]).unwrap()) as u8,
    )
}

/// What decoding `text` gives: the digits are the UTF-8 bytes of `text` without
/// ASCII whitespace; an odd count is refused first, then the first byte that is
/// no hexadecimal digit; otherwise each pair of digits is one byte.
pub open spec fn spec_decode_hex(text: Seq<char>) -> Result<Seq<u8>, Seq<char>> {
    let digits = strip_whitespace(encode_utf8(text));
    if digits.len() % 2 != 0 {
        Err(odd_length_message())
    } else {
        match first_non_hex(digits) {
            Some(b) => Err(invalid_character_message(b)),
            None => Ok(hex_pairs(digits)),
        }
    }
}

/// The value of the hexadecimal digit `byte`, or an error that names it.
pub fn hex_value(byte: u8) -> (res: Result<u8, String>)
    ensures
        match res {
            Ok(v) => spec_hex_value(byte) == Some(v),
            Err(e) => spec_hex_value(byte) is None && e@ == invalid_character_message(byte),
        },
{
    if 0x30 <= byte && byte <= 0x39 {
        Ok(byte - 0x30)
    } else if 0x61 <= byte && byte <= 0x66 {
        Ok(byte - 0x61 + 10)
    } else if 0x41 <= byte && byte <= 0x46 {
        Ok(byte - 0x41 + 10)
    } else {
        let mut message = String::from_str("invalid hex character: ");
        push_char(&mut message, byte as char);
        Err(message)
    }
}

proof fn lemma_first_non_hex_prefix(s: Seq<u8>, k: int)
    requires
        0 <= k <= s.len(),
        first_non_hex(s.take(k)) is Some,
    ensures
        first_non_hex(s) == first_non_hex(s.take(k)),
    decreases s.len(),
{
    if k < s.len() {
        assert(s.drop_last().take(k) =~= s.take(k));
        lemma_first_non_hex_prefix(s.drop_last(), k);
    } else {
        assert(s.take(k) =~= s);
    }
}

/// Decodes hexadecimal text into bytes. ASCII whitespace anywhere is ignored;
/// digits may be upper or lower case.
pub fn decode_hex(text: &str) -> (res: Result<Vec<u8>, String>)
    ensures
        match res {
            Ok(v) => spec_decode_hex(text@) == Ok::<Seq<u8>, Seq<char>>(v@),
            Err(e) => spec_decode_hex(text@) == Err::<Seq<u8>, Seq<char>>(e@),
        },
{
    let raw = text.as_bytes();
    let mut cleaned: Vec<u8> = Vec::new();
    let mut i: usize = 0;
    while i < raw.len()
        invariant
            i <= raw@.len(),
            cleaned@ == strip_whitespace(raw@.take(i as int)),
        decreases raw@.len() - i,
    {
        assert(raw@.take(i + 1).drop_last() =~= raw@.take(i as int));
        let b = raw[i];
        if !(b == 0x20 || b == 0x09 || b == 0x0a || b == 0x0c || b == 0x0d) {
            cleaned.push(b);
        }
        i += 1;
    }
    assert(raw@.take(raw@.len() as int) =~= raw@);
    let ghost digits = cleaned@;
    assert(digits == strip_whitespace(encode_utf8(text@)));
    if cleaned.len() % 2 != 0 {
        return Err(String::from_str("packet_hex must contain an even number of hex digits"));
    }
    let mut bytes: Vec<u8> = Vec::with_capacity(cleaned.len() / 2);
    let mut j: usize = 0;
    assert(digits.take(0) =~= Seq::<u8>::empty());
    assert(hex_pairs(digits.take(0)) =~= bytes@);
    while j < cleaned.len()
        invariant
            digits == cleaned@,
            digits == strip_whitespace(encode_utf8(text@)),
            digits.len() % 2 == 0,
            j % 2 == 0,
            j <= digits.len(),
            first_non_hex(digits.take(j as int)) is None,
            bytes@ == hex_pairs(digits.take(j as int)),
        decreases digits.len() - j,
    {
        assert(digits.take(j + 1).drop_last() =~= digits.take(j as int));
        assert(digits.take(j + 2).drop_last() =~= digits.take(j + 1));
        let hi = match hex_value(cleaned[j]) {
            Ok(v) => v,
            Err(e) => {
                proof {
                    lemma_first_non_hex_prefix(digits, j + 1);
                }
                return Err(e);
            },
        };
        let lo = match hex_value(cleaned[j + 1]) {
            Ok(v) => v,
            Err(e) => {
                proof {
                    lemma_first_non_hex_prefix(digits, j + 2);
                }
                return Err(e);
            },
        };
        assert((hi << 4u8) | lo == hi * 16 + lo) by (bit_vector)
            requires
                hi < 16,
                lo < 16,
        ;
        bytes.push((hi << 4) | lo);
        j += 2;
        assert(bytes@ =~= hex_pairs(digits.take(j as int)));
    }
    assert(digits.take(j as int) =~= digits);
    Ok(bytes)
}


/// The two-digit lowercase hexadecimal spelling of each byte of `v`, in order.
pub open spec fn hex_spelling(v: Seq<u8>) -> Seq<char>
    decreases v.len(),
{
    if v.len() == 0 {
        Seq::empty()
    } else {
        hex_spelling(v.drop_last()) + seq![
            digit_char((v.last() / 16) as nat),
            digit_char((v.last() % 16) as nat),
        ]
    }
}

/// The bytes of `hex_spelling(v)`.
spec fn hex_spelling_bytes(v: Seq<u8>) -> Seq<u8>
    decreases v.len(),
{
    if v.len() == 0 {
        Seq::empty()
    } else {
        hex_spelling_bytes(v.drop_last()) + seq![
            digit_char((v.last() / 16) as nat) as u8,
            digit_char((v.last() % 16) as nat) as u8,
        ]
    }
}

/// UTF-8 encoding distributes over concatenation.
proof fn lemma_encode_utf8_concat(a: Seq<char>, b: Seq<char>)
    ensures
        encode_utf8(a + b) == encode_utf8(a) + encode_utf8(b),
    decreases a.len(),
{
    if a.len() == 0 {
        assert(a + b =~= b);
        assert(encode_utf8(a) =~= Seq::<u8>::empty());
        assert(encode_utf8(a) + encode_utf8(b) =~= encode_utf8(b));
    } else {
        assert((a + b).drop_first() =~= a.drop_first() + b);
        assert((a + b)[0] == a[0]);
        lemma_encode_utf8_concat(a.drop_first(), b);
        assert(encode_utf8(a + b) =~= encode_utf8(a) + encode_utf8(b));
    }
}

/// Removing whitespace distributes over concatenation.
proof fn lemma_strip_whitespace_concat(a: Seq<u8>, b: Seq<u8>)
    ensures
        strip_whitespace(a + b) == strip_whitespace(a) + strip_whitespace(b),
    decreases b.len(),
{
    if b.len() == 0 {
        assert(a + b =~= a);
        assert(strip_whitespace(a) + strip_whitespace(b) =~= strip_whitespace(a));
    } else {
        assert((a + b).drop_last() =~= a + b.drop_last());
        assert((a + b).last() == b.last());
        lemma_strip_whitespace_concat(a, b.drop_last());
        assert(strip_whitespace(a + b) =~= strip_whitespace(a) + strip_whitespace(b));
    }
}

/// The UTF-8 bytes of an ASCII character are that character's number.
proof fn lemma_encode_ascii_chars(chars: Seq<char>)
    requires
        forall|i: int| 0 <= i < chars.len() ==> 0 <= (#[trigger] chars[i] as int) < 128,
    ensures
        encode_utf8(chars) == Seq::new(chars.len(), |i: int| chars[i] as u8),
{
    assert forall|i: int| #![trigger chars[i]] 0 <= i < chars.len() implies '\0' <= chars[i] && chars[i] <= '\u{7f}' by {
        let c = chars[i];
        assert(0 <= (c as int) < 128);
        assert('\0' <= c);
        assert(c <= '\u{7f}');
    }
    assert(vstd::utf8::is_ascii_chars(chars));
    vstd::utf8::is_ascii_chars_encode_utf8(chars);
    assert(encode_utf8(chars) =~= Seq::new(chars.len(), |i: int| chars[i] as u8));
}

proof fn lemma_digit_char_value(d: nat)
    requires
        d < 16,
    ensures
        0 <= (digit_char(d) as int) < 128,
        spec_hex_value(digit_char(d) as u8) == Some(d as u8),
        !is_ascii_whitespace_byte(digit_char(d) as u8),
{
}

proof fn lemma_hex_spelling_bytes(v: Seq<u8>)
    ensures
        encode_utf8(hex_spelling(v)) == hex_spelling_bytes(v),
        strip_whitespace(hex_spelling_bytes(v)) == hex_spelling_bytes(v),
        hex_spelling_bytes(v).len() == 2 * v.len(),
        first_non_hex(hex_spelling_bytes(v)) is None,
        hex_pairs(hex_spelling_bytes(v)) == v,
    decreases v.len(),
{
    if v.len() == 0 {
        assert(encode_utf8(hex_spelling(v)) =~= hex_spelling_bytes(v));
        assert(hex_pairs(hex_spelling_bytes(v)) =~= v);
    } else {
        let p = v.drop_last();
        let x = v.last();
        let hi = digit_char((x / 16) as nat);
        let lo = digit_char((x % 16) as nat);
        lemma_hex_spelling_bytes(p);
        lemma_digit_char_value((x / 16) as nat);
        lemma_digit_char_value((x % 16) as nat);
        let pair = seq![hi, lo];
        lemma_encode_utf8_concat(hex_spelling(p), pair);
        lemma_encode_ascii_chars(pair);
        assert(encode_utf8(pair) =~= seq![hi as u8, lo as u8]);
        assert(encode_utf8(hex_spelling(v)) =~= hex_spelling_bytes(v));
        let d = hex_spelling_bytes(v);
        let dp = hex_spelling_bytes(p);
        assert(d.drop_last() =~= dp.push(hi as u8));
        assert(d.drop_last().drop_last() =~= dp);
        assert(d.len() > 0 && d.last() == lo as u8);
        assert(d.drop_last().len() > 0 && d.drop_last().last() == hi as u8);
        assert(strip_whitespace(d.drop_last()) == strip_whitespace(dp).push(hi as u8));
        assert(strip_whitespace(d) == strip_whitespace(d.drop_last()).push(lo as u8));
        assert(strip_whitespace(d) =~= d);
        assert(first_non_hex(d.drop_last()) is None);
        assert(first_non_hex(d) is None);
        assert(x == (x / 16) * 16 + x % 16);
        assert forall|i: int| 0 <= i < v.len() implies #[trigger] hex_pairs(d)[i] == v[i] by {
            if i < p.len() {
                assert(d[2 * i] == dp[2 * i]);
                assert(d[2 * i + 1] == dp[2 * i + 1]);
                assert(hex_pairs(dp)[i] == p[i]);
            } else {
                assert(d[2 * i] == hi as u8);
                assert(d[2 * i + 1] == lo as u8);
            }
        }
        assert(hex_pairs(d) =~= v);
    }
}

/// Decoding the hexadecimal spelling of any bytes gives those bytes back.
pub proof fn lemma_decode_hex_spelling(v: Seq<u8>)
    ensures
        spec_decode_hex(hex_spelling(v)) == Ok::<Seq<u8>, Seq<char>>(v),
{
    lemma_hex_spelling_bytes(v);
}

/// Whether `c` is one of the characters that `char::is_ascii_whitespace` accepts.
pub open spec fn is_ascii_whitespace_char(c: char) -> bool {
    c == ' ' || c == '\t' || c == '\n' || c == '\x0C' || c == '\r'
}

/// ASCII whitespace anywhere in the text changes nothing: inserting one such
/// character gives the same result, success or error.
pub proof fn lemma_decode_ignores_whitespace(before: Seq<char>, w: char, after: Seq<char>)
    requires
        is_ascii_whitespace_char(w),
    ensures
        spec_decode_hex(before + seq![w] + after) == spec_decode_hex(before + after),
{
    lemma_encode_utf8_concat(before + seq![w], after);
    lemma_encode_utf8_concat(before, seq![w]);
    lemma_encode_utf8_concat(before, after);
    lemma_encode_ascii_chars(seq![w]);
    let eb = encode_utf8(before);
    let ea = encode_utf8(after);
    let ew = encode_utf8(seq![w]);
    assert(ew =~= seq![w as u8]);
    assert(is_ascii_whitespace_byte(w as u8));
    lemma_strip_whitespace_concat(eb + ew, ea);
    lemma_strip_whitespace_concat(eb, ew);
    lemma_strip_whitespace_concat(eb, ea);
    assert(ew.drop_last() =~= Seq::<u8>::empty());
    assert(ew.len() == 1 && ew.last() == w as u8);
    assert(strip_whitespace(ew) == strip_whitespace(ew.drop_last()));
    assert(strip_whitespace(ew) =~= Seq::<u8>::empty());
    assert(strip_whitespace(eb) + strip_whitespace(ew) =~= strip_whitespace(eb));
}


/// `c` with an ASCII lowercase letter turned into its uppercase form.
pub open spec fn ascii_uppercase_char(c: char) -> char {
    if 'a' <= c <= 'z' {
        ((c as u32) - 32) as char
    } else {
        c
    }
}

/// `text` with every ASCII lowercase letter turned into its uppercase form.
pub open spec fn ascii_uppercase(text: Seq<char>) -> Seq<char> {
    Seq::new(text.len(), |i: int| ascii_uppercase_char(text[i]))
}

spec fn ascii_uppercase_byte(b: u8) -> u8 {
    if 0x61 <= b <= 0x7a {
        (b - 32) as u8
    } else {
        b
    }
}

spec fn uppercase_bytes(s: Seq<u8>) -> Seq<u8> {
    Seq::new(s.len(), |i: int| ascii_uppercase_byte(s[i]))
}

proof fn lemma_encode_scalar_uppercase(c: char)
    ensures
        encode_scalar(ascii_uppercase_char(c) as u32) == uppercase_bytes(encode_scalar(c as u32)),
{
    let x = c as u32;
    let e = encode_scalar(x);
    if 0 <= x <= 0x7f {
        assert((x & 0x7f) as u8 == x as u8) by (bit_vector)
            requires
                x <= 0x7f,
        ;
        if 'a' <= c <= 'z' {
            let y = ascii_uppercase_char(c) as u32;
            assert(y == x - 32);
            assert((y & 0x7f) as u8 == y as u8) by (bit_vector)
                requires
                    y <= 0x7f,
            ;
        }
        assert(encode_scalar(ascii_uppercase_char(c) as u32) =~= uppercase_bytes(e));
    } else {
        assert(ascii_uppercase_char(c) == c);
        assert forall|b: u8, y: u8| #![trigger (b | y)] b >= 0x80 ==> (b | y) >= 0x80 by {
            assert(b >= 0x80 ==> (b | y) >= 0x80) by (bit_vector);
        }
        assert forall|i: int| 0 <= i < e.len() implies e[i] >= 0x80 by {
            assert((0xC0u8 | ((x >> 6) & 0x1F) as u8) >= 0x80);
            assert((0xE0u8 | ((x >> 12) & 0x0F) as u8) >= 0x80);
            assert((0xF0u8 | ((x >> 18) & 0x7) as u8) >= 0x80);
            assert((0x80u8 | (x & 0x3F) as u8) >= 0x80);
            assert((0x80u8 | ((x >> 6) & 0x3F) as u8) >= 0x80);
            assert((0x80u8 | ((x >> 12) & 0x3F) as u8) >= 0x80);
        }
        assert(uppercase_bytes(e) =~= e);
    }
}

proof fn lemma_encode_uppercase(text: Seq<char>)
    ensures
        encode_utf8(ascii_uppercase(text)) == uppercase_bytes(encode_utf8(text)),
    decreases text.len(),
{
    let u = ascii_uppercase(text);
    if text.len() == 0 {
        assert(uppercase_bytes(encode_utf8(text)) =~= Seq::<u8>::empty());
    } else {
        assert(u.drop_first() =~= ascii_uppercase(text.drop_first()));
        assert(u[0] == ascii_uppercase_char(text[0]));
        lemma_encode_uppercase(text.drop_first());
        lemma_encode_scalar_uppercase(text[0]);
        let a = encode_scalar(text[0] as u32);
        let b = encode_utf8(text.drop_first());
        assert(uppercase_bytes(a + b) =~= uppercase_bytes(a) + uppercase_bytes(b));
    }
}

proof fn lemma_strip_uppercase(s: Seq<u8>)
    ensures
        strip_whitespace(uppercase_bytes(s)) == uppercase_bytes(strip_whitespace(s)),
    decreases s.len(),
{
    let u = uppercase_bytes(s);
    if s.len() == 0 {
        assert(u =~= s);
    } else {
        assert(u.drop_last() =~= uppercase_bytes(s.drop_last()));
        assert(u.last() == ascii_uppercase_byte(s.last()));
        lemma_strip_uppercase(s.drop_last());
        let r = strip_whitespace(s.drop_last());
        assert(uppercase_bytes(r.push(s.last())) =~= uppercase_bytes(r).push(
            ascii_uppercase_byte(s.last()),
        ));
    }
}

proof fn lemma_first_non_hex_uppercase(s: Seq<u8>)
    ensures
        (first_non_hex(uppercase_bytes(s)) is None) == (first_non_hex(s) is None),
    decreases s.len(),
{
    if s.len() > 0 {
        let u = uppercase_bytes(s);
        assert(u.drop_last() =~= uppercase_bytes(s.drop_last()));
        assert(u.last() == ascii_uppercase_byte(s.last()));
        lemma_first_non_hex_uppercase(s.drop_last());
    }
}

proof fn lemma_first_non_hex_none(s: Seq<u8>)
    requires
        first_non_hex(s) is None,
    ensures
        forall|i: int| 0 <= i < s.len() ==> #[trigger] spec_hex_value(s[i]) is Some,
    decreases s.len(),
{
    if s.len() > 0 {
        lemma_first_non_hex_none(s.drop_last());
        assert forall|i: int| 0 <= i < s.len() implies #[trigger] spec_hex_value(s[i]) is Some by {
            if i < s.len() - 1 {
                assert(s[i] == s.drop_last()[i]);
            }
        }
    }
}

/// Hexadecimal digits are read the same in either case: turning the
/// lowercase letters of the text into uppercase keeps a success with the same
/// bytes, and keeps a failure a failure.
pub proof fn lemma_decode_hex_ignores_case(text: Seq<char>)
    ensures
        match spec_decode_hex(text) {
            Ok(v) => spec_decode_hex(ascii_uppercase(text)) == Ok::<Seq<u8>, Seq<char>>(v),
            Err(_) => spec_decode_hex(ascii_uppercase(text)) is Err,
        },
{
    let d = strip_whitespace(encode_utf8(text));
    lemma_encode_uppercase(text);
    lemma_strip_uppercase(encode_utf8(text));
    let du = uppercase_bytes(d);
    assert(strip_whitespace(encode_utf8(ascii_uppercase(text))) == du);
    lemma_first_non_hex_uppercase(d);
    if d.len() % 2 == 0 && first_non_hex(d) is None {
        lemma_first_non_hex_none(d);
        assert forall|i: int| 0 <= i < d.len() / 2 implies #[trigger] hex_pairs(du)[i] == hex_pairs(
            d,
        )[i] by {
            assert(spec_hex_value(d[2 * i]) is Some);
            assert(spec_hex_value(d[2 * i + 1]) is Some);
        }
        assert(hex_pairs(du) =~= hex_pairs(d));
    }
}


/// `text` without its ASCII whitespace characters, the rest in order.
pub open spec fn remove_ascii_whitespace(text: Seq<char>) -> Seq<char>
    decreases text.len(),
{
    if text.len() == 0 {
        text
    } else if is_ascii_whitespace_char(text.last()) {
        remove_ascii_whitespace(text.drop_last())
    } else {
        remove_ascii_whitespace(text.drop_last()).push(text.last())
    }
}

proof fn lemma_strip_encode_scalar(c: char)
    ensures
        strip_whitespace(encode_scalar(c as u32)) == (if is_ascii_whitespace_char(c) {
            Seq::<u8>::empty()
        } else {
            encode_scalar(c as u32)
        }),
{
    let x = c as u32;
    let e = encode_scalar(x);
    if 0 <= x <= 0x7f {
        assert((x & 0x7f) as u8 == x as u8) by (bit_vector)
            requires
                x <= 0x7f,
        ;
        assert(e =~= seq![x as u8]);
        assert(e.drop_last() =~= Seq::<u8>::empty());
        assert(is_ascii_whitespace_char(c) == is_ascii_whitespace_byte(x as u8));
        assert(strip_whitespace(e) == strip_whitespace(e.drop_last()) || strip_whitespace(e)
            == strip_whitespace(e.drop_last()).push(e.last()));
        assert(strip_whitespace(e) =~= (if is_ascii_whitespace_char(c) {
            Seq::<u8>::empty()
        } else {
            e
        }));
    } else {
        assert forall|b: u8, y: u8| #![trigger (b | y)] b >= 0x80 ==> (b | y) >= 0x80 by {
            assert(b >= 0x80 ==> (b | y) >= 0x80) by (bit_vector);
        }
        assert((0xC0u8 | ((x >> 6) & 0x1F) as u8) >= 0x80);
        assert((0xE0u8 | ((x >> 12) & 0x0F) as u8) >= 0x80);
        assert((0xF0u8 | ((x >> 18) & 0x7) as u8) >= 0x80);
        assert((0x80u8 | (x & 0x3F) as u8) >= 0x80);
        assert((0x80u8 | ((x >> 6) & 0x3F) as u8) >= 0x80);
        assert((0x80u8 | ((x >> 12) & 0x3F) as u8) >= 0x80);
        assert forall|k: int| 0 <= k <= e.len() implies #[trigger] strip_whitespace(e.take(k))
            == e.take(k) by {
            lemma_strip_no_whitespace(e, k);
        }
        assert(e.take(e.len() as int) =~= e);
    }
}

proof fn lemma_strip_no_whitespace(e: Seq<u8>, k: int)
    requires
        0 <= k <= e.len(),
        forall|i: int| 0 <= i < e.len() ==> #[trigger] e[i] >= 0x80,
    ensures
        strip_whitespace(e.take(k)) == e.take(k),
    decreases k,
{
    if k > 0 {
        lemma_strip_no_whitespace(e, k - 1);
        assert(e.take(k).drop_last() =~= e.take(k - 1));
        assert(e.take(k).last() == e[k - 1]);
        assert(e.take(k - 1).push(e[k - 1]) =~= e.take(k));
    } else {
        assert(e.take(0) =~= Seq::<u8>::empty());
    }
}

/// Removing the whitespace bytes from the UTF-8 bytes of a text gives the
/// bytes of the text without its ASCII whitespace characters: the digits that
/// decoding reads are those of the text with its whitespace removed.
pub proof fn lemma_whitespace_bytes_are_whitespace_chars(text: Seq<char>)
    ensures
        strip_whitespace(encode_utf8(text)) == encode_utf8(remove_ascii_whitespace(text)),
    decreases text.len(),
{
    if text.len() > 0 {
        let p = text.drop_last();
        let c = text.last();
        assert(p + seq![c] =~= text);
        lemma_encode_utf8_concat(p, seq![c]);
        let single = seq![c];
        assert(single.drop_first() =~= Seq::<char>::empty());
        assert(single[0] == c);
        assert(encode_utf8(single.drop_first()) =~= Seq::<u8>::empty());
        assert(encode_utf8(single) == encode_scalar(c as u32) + encode_utf8(single.drop_first()));
        assert(encode_utf8(single) =~= encode_scalar(c as u32));
        lemma_strip_whitespace_concat(encode_utf8(p), encode_scalar(c as u32));
        lemma_strip_encode_scalar(c);
        lemma_whitespace_bytes_are_whitespace_chars(p);
        if !is_ascii_whitespace_char(c) {
            lemma_encode_utf8_concat(remove_ascii_whitespace(p), seq![c]);
            assert(remove_ascii_whitespace(p) + seq![c] =~= remove_ascii_whitespace(p).push(c));
        }
        assert(strip_whitespace(encode_utf8(text)) =~= encode_utf8(remove_ascii_whitespace(text)));
    } else {
        assert(encode_utf8(text) =~= Seq::<u8>::empty());
    }
}


/// Whether `b` is the byte of a hexadecimal digit character: one of the
/// sixteen digit characters in lowercase, or in uppercase.
pub open spec fn is_digit_character_byte(b: u8, v: nat) -> bool {
    v < 16 && (b == digit_char(v) as u8 || b == ascii_uppercase_char(digit_char(v)) as u8)
}

/// A byte is read as a hexadecimal digit exactly when it is the lowercase or
/// uppercase character of one of the digits 0..15, and then it is read as
/// that digit.
pub proof fn lemma_hex_digit_bytes_are_digit_characters(b: u8)
    ensures
        (spec_hex_value(b) is Some) == (exists|v: nat| #[trigger] is_digit_character_byte(b, v)),
        forall|v: nat| #[trigger] is_digit_character_byte(b, v) ==> spec_hex_value(b) == Some(
            v as u8,
        ),
{
    assert forall|v: nat| #[trigger] is_digit_character_byte(b, v) implies spec_hex_value(b)
        == Some(v as u8) by {
        if v < 10 {
            assert(digit_char(v) as u8 == v + 48);
        } else {
            assert(digit_char(v) as u8 == v + 87);
            assert(ascii_uppercase_char(digit_char(v)) as u8 == v + 55);
        }
    }
    if spec_hex_value(b) is Some {
        let v = spec_hex_value(b).unwrap() as nat;
        if 0x30 <= b <= 0x39 {
            assert(digit_char(v) as u8 == b);
        } else if 0x61 <= b <= 0x66 {
            assert(digit_char(v) as u8 == b);
        } else {
            assert(digit_char(v) as u8 == b + 32);
            assert(ascii_uppercase_char(digit_char(v)) as u8 == b);
        }
        assert(is_digit_character_byte(b, v));
    }
}

proof fn lemma_strip_keeps_byte(e: Seq<u8>, i: int)
    requires
        0 <= i < e.len(),
        !is_ascii_whitespace_byte(e[i]),
    ensures
        exists|j: int| 0 <= j < strip_whitespace(e).len() && #[trigger] strip_whitespace(e)[j] == e[i],
    decreases e.len(),
{
    let p = e.drop_last();
    if i == e.len() - 1 {
        let j = strip_whitespace(p).len() as int;
        assert(strip_whitespace(e)[j] == e[i]);
    } else {
        assert(p[i] == e[i]);
        lemma_strip_keeps_byte(p, i);
        let j = choose|j: int| 0 <= j < strip_whitespace(p).len() && #[trigger] strip_whitespace(p)[j] == p[i];
        assert(strip_whitespace(e)[j] == e[i]);
    }
}

/// Decoding fails on any text that holds a character which is neither ASCII
/// whitespace nor a hexadecimal digit, in either case.
pub proof fn lemma_decode_rejects_other_characters(text: Seq<char>, i: int)
    requires
        0 <= i < text.len(),
        !is_ascii_whitespace_char(text[i]),
        forall|v: nat|
            v < 16 ==> text[i] != #[trigger] digit_char(v) && text[i] != ascii_uppercase_char(
                digit_char(v),
            ),
    ensures
        spec_decode_hex(text) is Err,
{
    let c = text[i];
    let before = text.take(i);
    let rest = text.skip(i);
    assert(before + rest =~= text);
    lemma_encode_utf8_concat(before, rest);
    assert(rest[0] == c);
    let e = encode_utf8(text);
    let k = encode_utf8(before).len() as int;
    let sc = encode_scalar(c as u32);
    assert(encode_utf8(rest) == sc + encode_utf8(rest.drop_first()));
    let x = c as u32;
    assert(sc.len() >= 1);
    assert(e[k] == sc[0]);
    let b = e[k];
    if x <= 0x7f {
        assert((x & 0x7f) as u8 == x as u8) by (bit_vector)
            requires
                x <= 0x7f,
        ;
        assert(b == x as u8);
        vstd::utf8::char_u32_cast(c, x);
        assert(x as char == c);
        assert(b as int == x as int);
        if is_ascii_whitespace_byte(b) {
            assert(c == ' ' || c == '\t' || c == '\n' || c == '\x0C' || c == '\r');
        }
        assert(!is_ascii_whitespace_byte(b));
        assert forall|v: nat| !#[trigger] is_digit_character_byte(b, v) by {
            if v < 16 {
                assert(digit_char(v) != c);
                assert(ascii_uppercase_char(digit_char(v)) != c);
                if v < 10 {
                    assert(digit_char(v) as u8 == v + 48);
                    if b == v + 48 {
                        assert(c == (x as int) as char);
                        assert(digit_char(v) == ((v + 48) as int) as char);
                    }
                } else {
                    assert(digit_char(v) as u8 == v + 87);
                    assert(ascii_uppercase_char(digit_char(v)) as u8 == v + 55);
                    if b == v + 87 {
                        assert(c == (x as int) as char);
                        assert(digit_char(v) == ((v + 87) as int) as char);
                    }
                    if b == v + 55 {
                        assert(c == (x as int) as char);
                        assert(ascii_uppercase_char(digit_char(v)) == ((v + 55) as int) as char);
                    }
                }
            }
        }
    } else {
        assert forall|p: u8, q: u8| #![trigger (p | q)] p >= 0x80 ==> (p | q) >= 0x80 by {
            assert(p >= 0x80 ==> (p | q) >= 0x80) by (bit_vector);
        }
        assert((0xC0u8 | ((x >> 6) & 0x1F) as u8) >= 0x80);
        assert((0xE0u8 | ((x >> 12) & 0x0F) as u8) >= 0x80);
        assert((0xF0u8 | ((x >> 18) & 0x7) as u8) >= 0x80);
        assert(b >= 0x80);
        assert forall|v: nat| !#[trigger] is_digit_character_byte(b, v) by {
            if v < 10 {
                assert(digit_char(v) as u8 == v + 48);
            } else if v < 16 {
                assert(digit_char(v) as u8 == v + 87);
                assert(ascii_uppercase_char(digit_char(v)) as u8 == v + 55);
            }
        }
    }
    lemma_hex_digit_bytes_are_digit_characters(b);
    assert(spec_hex_value(b) is None);
    lemma_strip_keeps_byte(e, k);
    let d = strip_whitespace(e);
    if d.len() % 2 == 0 && first_non_hex(d) is None {
        lemma_first_non_hex_none(d);
        let j = choose|j: int| 0 <= j < d.len() && #[trigger] d[j] == e[k];
        assert(spec_hex_value(d[j]) is Some);
    }
}

} // verus!
