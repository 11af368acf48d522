//! Rendering of numbers as text: decimal for ports, versions and IPv4
//! octets, lowercase hexadecimal for IPv6 groups.
use vstd::prelude::*;

verus! {

/// The character of the digit `d` (`0`..`9`, then `a`..`f` for 10..15).
pub open spec fn digit_char(d: nat) -> char {
    if d < 10 {
        (d + 48) as char
    } else {
        (d + 87) as char
    }
}

/// The numeric value of a digit character produced by `digit_char`.
pub open spec fn digit_value(c: char) -> int {
    if (c as int) < 97 {
        (c as int) - 48
    } else {
        (c as int) - 87
    }
}

/// `n` written in base `radix`, most significant digit first, without
/// leading zeros (zero is the single digit `0`).
pub open spec fn radix_text(n: nat, radix: nat) -> Seq<char>
    recommends
        2 <= radix <= 16,
    decreases n,
{
    if radix < 2 || n < radix {
        seq![digit_char(n)]
    } else {
        proof {
            assert(n / radix < n) by (nonlinear_arith)
                requires
                    n >= radix,
                    radix >= 2,
            ;
        }
        radix_text(n / radix, radix).push(digit_char(n % radix))
    }
}

/// `n` in decimal, as `format!("{}", n)` renders an unsigned integer.
pub open spec fn decimal_text(n: nat) -> Seq<char> {
    radix_text(n, 10)
}

/// `n` in lowercase hexadecimal, as `format!("{:x}", n)` renders it.
pub open spec fn hex_text(n: nat) -> Seq<char> {
    radix_text(n, 16)
}

/// The number that a sequence of digits in base `radix` spells.
pub open spec fn radix_value(s: Seq<char>, radix: nat) -> int
    decreases s.len(),
{
    if s.len() == 0 {
        0
    } else {
        radix_value(s.drop_last(), radix) * radix + digit_value(s.last())
    }
}

/// Appends `c` to `text`.
///
/// Calls `String::push`, which appends one character; the contract states
/// exactly that.
#[verifier::external_body]
pub(crate) fn push_char(text: &mut String, c: char)
    ensures
        final(text)@ == old(text)@.push(c),
{
    text.push(c);
}

/// Appends `n` written in base `radix` (10 or 16) to `text`.
fn push_radix(text: &mut String, n: u16, radix: u16)
    requires
        radix == 10 || radix == 16,
    ensures
        final(text)@ == old(text)@ + radix_text(n as nat, radix as nat),
    decreases n,
{
    let ghost start = text@;
    if n >= radix {
        push_radix(text, n / radix, radix);
    }
    let d: u16 = n % radix;
    let c: char = if d < 10 {
        ((d as u8) + 48) as char
    } else {
        ((d as u8) + 87) as char
    };
    push_char(text, c);
    assert(text@ =~= start + radix_text(n as nat, radix as nat));
}

/// Appends the decimal rendering of `n` to `text`.
pub fn push_decimal(text: &mut String, n: u16)
    ensures
        final(text)@ == old(text)@ + decimal_text(n as nat),
{
    push_radix(text, n, 10);
}

/// Appends the lowercase hexadecimal rendering of `n` to `text`.
pub fn push_hex(text: &mut String, n: u16)
    ensures
        final(text)@ == old(text)@ + hex_text(n as nat),
{
    push_radix(text, n, 16);
}

/// The rendering is positional notation: every character is a digit of the
/// base, the digits spell `n` back, and there is no leading zero.
pub proof fn lemma_radix_text_spells_value(n: nat, radix: nat)
    requires
        2 <= radix <= 16,
    ensures
        radix_value(radix_text(n, radix), radix) == n,
        radix_text(n, radix).len() >= 1,
        forall|i: int|
            0 <= i < radix_text(n, radix).len() ==> 0 <= #[trigger] digit_value(
                radix_text(n, radix)[i],
            ) < radix,
        n > 0 ==> radix_text(n, radix)[0] != '0',
    decreases n,
{
    let s = radix_text(n, radix);
    if n < radix {
        assert(s =~= seq![digit_char(n)]);
        assert(s.drop_last() =~= Seq::<char>::empty());
        assert(digit_value(digit_char(n)) == n);
        assert(radix_value(s, radix) == radix_value(s.drop_last(), radix) * radix + digit_value(
            s.last(),
        ));
    } else {
        assert(n / radix < n && n / radix > 0) by (nonlinear_arith)
            requires
                n >= radix,
                radix >= 2,
        ;
        lemma_radix_text_spells_value(n / radix, radix);
        let prefix = radix_text(n / radix, radix);
        assert(s =~= prefix.push(digit_char(n % radix)));
        assert(s.drop_last() =~= prefix);
        assert(n == (n / radix) * radix + n % radix) by (nonlinear_arith)
            requires
                radix > 0,
        ;
        assert(digit_value(digit_char(n % radix)) == n % radix);
        assert(radix_value(s, radix) == radix_value(prefix, radix) * radix + digit_value(
            s.last(),
        ));
        assert forall|i: int| 0 <= i < s.len() implies 0 <= #[trigger] digit_value(s[i]) < radix by {
            if i < prefix.len() {
                assert(s[i] == prefix[i]);
            }
        }
        assert(s[0] == prefix[0]);
    }
}

} // verus!
