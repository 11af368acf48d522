//! Text forms of IP addresses: dotted decimal for IPv4, and for IPv6 the
//! canonical form of RFC 5952 (lowercase hexadecimal groups without leading
//! zeros, the first longest run of two or more zero groups written `::`, and
//! IPv4-mapped addresses written `::ffff:a.b.c.d`).
use vstd::prelude::*;
use vstd::string::StringExecFns;

use crate::text::{decimal_text, hex_text, push_char, push_decimal, push_hex};

verus! {

/// `a.b.c.d` for the four octets of `octets`.
pub open spec fn ipv4_text(octets: Seq<u8>) -> Seq<char>
    recommends
        octets.len() == 4,
{
    decimal_text(octets[0] as nat) + seq!['.'] + decimal_text(octets[1] as nat) + seq!['.']
        + decimal_text(octets[2] as nat) + seq!['.'] + decimal_text(octets[3] as nat)
}

/// The 16-bit groups of `octets`, each read big-endian from two bytes.
pub open spec fn groups(octets: Seq<u8>) -> Seq<u16> {
    Seq::new(octets.len() / 2, |i: int| (octets[2 * i] * 256 + octets[2 * i + 1]) as u16)
}

/// How many groups from index `i` on are zero, in a row.
pub open spec fn zero_run_at(g: Seq<u16>, i: int) -> nat
    decreases g.len() - i,
{
    if 0 <= i < g.len() && g[i] == 0 {
        1 + zero_run_at(g, i + 1)
    } else {
        0
    }
}

/// Start and length of the longest run of zero groups that starts before
/// index `k`; among runs of equal length the one that starts first.
pub open spec fn longest_zero_run(g: Seq<u16>, k: int) -> (int, nat)
    decreases k,
{
    if k <= 0 {
        (0, 0)
    } else {
        let best = longest_zero_run(g, k - 1);
        let r = zero_run_at(g, k - 1);
        if r > best.1 {
            (k - 1, r)
        } else {
            best
        }
    }
}

/// The groups in hexadecimal, separated by colons.
pub open spec fn colon_joined(g: Seq<u16>) -> Seq<char>
    decreases g.len(),
{
    if g.len() == 0 {
        Seq::empty()
    } else if g.len() == 1 {
        hex_text(g[0] as nat)
    } else {
        colon_joined(g.drop_last()) + seq![':'] + hex_text(g.last() as nat)
    }
}

/// Whether the groups are those of an IPv4-mapped address `::ffff:a.b.c.d`.
pub open spec fn is_ipv4_mapped(g: Seq<u16>) -> bool {
    &&& g[0] == 0 && g[1] == 0 && g[2] == 0 && g[3] == 0 && g[4] == 0
    &&& g[5] == 0xffff
}

/// The canonical text of the IPv6 address whose 16 bytes are `octets`.
pub open spec fn ipv6_text(octets: Seq<u8>) -> Seq<char>
    recommends
        octets.len() == 16,
{
    let g = groups(octets);
    if is_ipv4_mapped(g) {
        "::ffff:"@ + ipv4_text(octets.subrange(12, 16))
    } else {
        let run = longest_zero_run(g, 8);
        if run.1 > 1 {
            colon_joined(g.subrange(0, run.0)) + seq![':', ':'] + colon_joined(
                g.subrange(run.0 + run.1, 8),
            )
        } else {
            colon_joined(g)
        }
    }
}

/// Appends the dotted-decimal text of the four bytes of `bytes` from `at` on.
fn push_ipv4(text: &mut String, bytes: &[u8], at: usize)
    requires
        at + 4 <= bytes@.len(),
    ensures
        final(text)@ == old(text)@ + ipv4_text(bytes@.subrange(at as int, at + 4)),
{
    let ghost start = text@;
    let ghost o = bytes@.subrange(at as int, at + 4);
    push_decimal(text, bytes[at] as u16);
    push_char(text, '.');
    push_decimal(text, bytes[at + 1] as u16);
    push_char(text, '.');
    push_decimal(text, bytes[at + 2] as u16);
    push_char(text, '.');
    push_decimal(text, bytes[at + 3] as u16);
    assert(o[0] == bytes@[at as int] && o[1] == bytes@[at + 1] && o[2] == bytes@[at + 2] && o[3]
        == bytes@[at + 3]);
    assert(text@ =~= start + ipv4_text(o));
}

/// The dotted-decimal text `a.b.c.d` of an IPv4 address.
pub fn ipv4_address_text(octets: &[u8]) -> (text: String)
    requires
        octets@.len() == 4,
    ensures
        text@ == ipv4_text(octets@),
{
    let mut text = String::new();
    push_ipv4(&mut text, octets, 0);
    assert(octets@.subrange(0, 4) =~= octets@);
    assert(text@ =~= ipv4_text(octets@));
    text
}

/// The number of zero groups in a row from index `k` on.
fn zero_run_length(g: &Vec<u16>, k: usize) -> (r: usize)
    requires
        k <= g@.len(),
    ensures
        r == zero_run_at(g@, k as int),
{
    let mut j: usize = k;
    while j < g.len() && g[j] == 0
        invariant
            k <= j <= g@.len(),
            zero_run_at(g@, k as int) == (j - k) + zero_run_at(g@, j as int),
        decreases g@.len() - j,
    {
        j += 1;
    }
    j - k
}

/// Appends the groups `g[from..to]` in hexadecimal, separated by colons.
fn push_groups(text: &mut String, g: &Vec<u16>, from: usize, to: usize)
    requires
        from <= to <= g@.len(),
    ensures
        final(text)@ == old(text)@ + colon_joined(g@.subrange(from as int, to as int)),
{
    let ghost start = text@;
    let mut m: usize = from;
    assert(g@.subrange(from as int, from as int) =~= Seq::<u16>::empty());
    assert(text@ =~= start + colon_joined(g@.subrange(from as int, from as int)));
    while m < to
        invariant
            from <= m <= to,
            to <= g@.len(),
            text@ == start + colon_joined(g@.subrange(from as int, m as int)),
        decreases to - m,
    {
        let ghost before = text@;
        let ghost done = g@.subrange(from as int, m as int);
        let ghost next = g@.subrange(from as int, m + 1);
        assert(next.drop_last() =~= done);
        assert(next.last() == g@[m as int]);
        if m > from {
            push_char(text, ':');
        }
        push_hex(text, g[m]);
        if m == from {
            assert(next.len() == 1);
            assert(next[0] == g@[m as int]);
            assert(done =~= Seq::<u16>::empty());
        }
        assert(text@ =~= start + colon_joined(next));
        m += 1;
    }
}

/// The canonical text of an IPv6 address given as its 16 bytes.
pub fn ipv6_address_text(octets: &[u8]) -> (text: String)
    requires
        octets@.len() == 16,
    ensures
        text@ == ipv6_text(octets@),
{
    let ghost all = groups(octets@);
    let mut g: Vec<u16> = Vec::new();
    let mut i: usize = 0;
    while i < 8
        invariant
            i <= 8,
            octets@.len() == 16,
            all == groups(octets@),
            g@ == all.subrange(0, i as int),
        decreases 8 - i,
    {
        let hi: u16 = octets[2 * i] as u16;
        let lo: u16 = octets[2 * i + 1] as u16;
        g.push(hi * 256 + lo);
        i += 1;
        assert(g@ =~= all.subrange(0, i as int));
    }
    assert(g@ =~= all);
    if g[0] == 0 && g[1] == 0 && g[2] == 0 && g[3] == 0 && g[4] == 0 && g[5] == 0xffff {
        let mut text = String::from_str("::ffff:");
        push_ipv4(&mut text, octets, 12);
        return text;
    }
    let mut best_start: usize = 0;
    let mut best_len: usize = 0;
    let mut k: usize = 0;
    while k < 8
        invariant
            k <= 8,
            g@.len() == 8,
            best_start < 8,
            best_len <= 8,
            longest_zero_run(g@, k as int) == (best_start as int, best_len as nat),
        decreases 8 - k,
    {
        proof {
            lemma_zero_run_bounded(g@, k as int);
        }
        let r = zero_run_length(&g, k);
        if r > best_len {
            best_start = k;
            best_len = r;
        }
        k += 1;
    }
    let mut text = String::new();
    if best_len > 1 {
        proof {
            lemma_zero_run_bounded(g@, best_start as int);
            lemma_longest_zero_run(g@, 8);
        }
        push_groups(&mut text, &g, 0, best_start);
        text.append("::");
        push_groups(&mut text, &g, best_start + best_len, 8);
        proof {
            reveal_strlit("::");
        }
        assert("::"@ =~= seq![':', ':']);
        assert(!is_ipv4_mapped(all));
        assert(text@ =~= ipv6_text(octets@));
    } else {
        push_groups(&mut text, &g, 0, 8);
        assert(g@.subrange(0, 8) =~= g@);
    }
    text
}

/// A run of zero groups stays inside the address.
proof fn lemma_zero_run_bounded(g: Seq<u16>, i: int)
    requires
        0 <= i,
    ensures
        i + zero_run_at(g, i) <= (if i <= g.len() {
            g.len() as int
        } else {
            i
        }),
        forall|j: int| i <= j < i + zero_run_at(g, i) ==> g[j] == 0,
    decreases g.len() - i,
{
    if 0 <= i < g.len() && g[i] == 0 {
        lemma_zero_run_bounded(g, i + 1);
    }
}

/// The run that `longest_zero_run` picks is a run of zeros, no run is longer,
/// and every run that starts before it is shorter.
proof fn lemma_longest_zero_run(g: Seq<u16>, k: int)
    requires
        1 <= k <= g.len(),
    ensures
        0 <= longest_zero_run(g, k).0 < k,
        longest_zero_run(g, k).1 == zero_run_at(g, longest_zero_run(g, k).0),
        forall|i: int| 0 <= i < k ==> #[trigger] zero_run_at(g, i) <= longest_zero_run(g, k).1,
        forall|i: int|
            0 <= i < longest_zero_run(g, k).0 ==> #[trigger] zero_run_at(g, i) < longest_zero_run(
                g,
                k,
            ).1,
    decreases k,
{
    if k > 1 {
        lemma_longest_zero_run(g, k - 1);
    } else {
        assert(longest_zero_run(g, 0) == (0int, 0nat));
    }
}

/// In the canonical text of an IPv6 address, the groups written as `::` are
/// zeros, they form the longest run of zero groups, and no run of the same
/// length starts earlier.
pub proof fn lemma_ipv6_compresses_first_longest_zero_run(octets: Seq<u8>)
    requires
        octets.len() == 16,
    ensures
        ({
            let g = groups(octets);
            let run = longest_zero_run(g, 8);
            &&& 0 <= run.0 && run.0 + run.1 <= 8
            &&& forall|j: int| run.0 <= j < run.0 + run.1 ==> g[j] == 0
            &&& forall|i: int| 0 <= i < 8 ==> #[trigger] zero_run_at(g, i) <= run.1
            &&& forall|i: int| 0 <= i < run.0 ==> #[trigger] zero_run_at(g, i) < run.1
        }),
{
    let g = groups(octets);
    lemma_longest_zero_run(g, 8);
    lemma_zero_run_bounded(g, longest_zero_run(g, 8).0);
}

} // verus!
