//! The text of a peer address, as the standard library writes IPv4 and IPv6
//! addresses: dotted decimal, and colon-separated hexadecimal groups with the
//! first longest run of two or more zero groups shortened to "::" (an
//! IPv4-mapped address is written "::ffff:" and its IPv4 part).
use vstd::prelude::*;
use crate::common::Addr;
use crate::text::{decimal, hex, push_decimal, push_hex, string_from_chars};

verus! {

/// Dotted-decimal text of four octets.
pub open spec fn ipv4_text(a: u8, b: u8, c: u8, d: u8) -> Seq<char> {
    decimal(a as nat) + seq!['.'] + decimal(b as nat) + seq!['.'] + decimal(c as nat) + seq!['.'] + decimal(d as nat)
}

/// The four octets of a 32-bit value, most significant first.
pub open spec fn octets_be(v: u32) -> (u8, u8, u8, u8) {
    ((v / 0x100_0000) as u8, ((v / 0x1_0000) % 0x100) as u8, ((v / 0x100) % 0x100) as u8, (v % 0x100) as u8)
}

/// The eight 16-bit groups of an IPv6 address.
pub open spec fn segments(o: Seq<u8>) -> Seq<u16> {
    Seq::new(8, |i: int| (o[2 * i] as nat * 256 + o[2 * i + 1] as nat) as u16)
}

/// Groups `[s, s + l)` form a run of zero groups.
pub open spec fn zero_run(seg: Seq<u16>, s: int, l: int) -> bool {
    &&& 0 <= s
    &&& 1 <= l
    &&& s + l <= seg.len()
    &&& forall|i: int| s <= i < s + l ==> seg[i] == 0
}

/// `[s, s + l)` is the longest run of zero groups, and the first of the longest.
pub open spec fn first_longest_run(seg: Seq<u16>, s: int, l: int) -> bool {
    &&& zero_run(seg, s, l)
    &&& forall|s2: int, l2: int| zero_run(seg, s2, l2) ==> l2 <= l
    &&& forall|s2: int| zero_run(seg, s2, l) ==> s <= s2
}

/// Groups as lower-case hexadecimal numbers separated by colons.
pub open spec fn join_hex(seg: Seq<u16>) -> Seq<char>
    decreases seg.len(),
{
    if seg.len() == 0 {
        seq![]
    } else if seg.len() == 1 {
        hex(seg[0] as nat)
    } else {
        join_hex(seg.drop_last()) + seq![':'] + hex(seg.last() as nat)
    }
}

/// The text of an IPv6 address given as 16 octets.
pub open spec fn ipv6_text(o: Seq<u8>) -> Seq<char> {
    let seg = segments(o);
    if ipv4_mapped(seg) {
        seq![':', ':', 'f', 'f', 'f', 'f', ':'] + ipv4_text(o[12], o[13], o[14], o[15])
    } else if exists|s: int, l: int| first_longest_run(seg, s, l) && l > 1 {
        let (s, l) = choose|s: int, l: int| first_longest_run(seg, s, l) && l > 1;
        join_hex(seg.take(s)) + seq![':', ':'] + join_hex(seg.skip(s + l))
    } else {
        join_hex(seg)
    }
}

/// The text of a peer address: dotted decimal for the four octets of an IPv4
/// address, the standard library's text for an IPv6 address.
pub open spec fn addr_text(addr: Addr) -> Seq<char> {
    match addr {
        Addr::Addr4(o) => ipv4_text(o[0], o[1], o[2], o[3]),
        Addr::Addr6(o) => ipv6_text(o@),
    }
}

fn push_ipv4(out: &mut Vec<char>, v: u32)
    ensures
        final(out)@ == old(out)@ + ({
            let (a, b, c, d) = octets_be(v);
            ipv4_text(a, b, c, d)
        }),
{
    push_decimal(out, (v / 0x100_0000) as u128);
    out.push('.');
    push_decimal(out, ((v / 0x1_0000) % 0x100) as u128);
    out.push('.');
    push_decimal(out, ((v / 0x100) % 0x100) as u128);
    out.push('.');
    push_decimal(out, (v % 0x100) as u128);
    proof {
        let (a, b, c, d) = octets_be(v);
        assert(final(out)@ =~= old(out)@ + ipv4_text(a, b, c, d));
    }
}

fn push_groups(out: &mut Vec<char>, seg: &Vec<u16>, from: usize, to: usize)
    requires
        from <= to <= seg@.len(),
    ensures
        final(out)@ == old(out)@ + join_hex(seg@.subrange(from as int, to as int)),
{
    let ghost start = out@;
    let mut i = from;
    while i < to
        invariant
            from <= i <= to <= seg@.len(),
            out@ == start + join_hex(seg@.subrange(from as int, i as int)),
        decreases to - i,
    {
        if i > from {
            out.push(':');
        }
        push_hex(out, seg[i] as u32);
        proof {
            let sub = seg@.subrange(from as int, i + 1);
            assert(sub.drop_last() =~= seg@.subrange(from as int, i as int));
            if i == from {
                assert(seg@.subrange(from as int, i as int) =~= Seq::<u16>::empty());
                assert(out@ =~= start + join_hex(sub));
            } else {
                assert(out@ =~= start + join_hex(sub));
            }
        }
        i = i + 1;
    }
}

/// The first longest run of zero groups, as `(start, length)`; length 0 when there is none.
fn find_zero_run(seg: &Vec<u16>) -> (r: (usize, usize))
    requires
        seg@.len() == 8,
    ensures
        r.1 == 0 ==> forall|s2: int, l2: int| !zero_run(seg@, s2, l2),
        r.1 > 0 ==> first_longest_run(seg@, r.0 as int, r.1 as int),
{
    let mut longest_start: usize = 0;
    let mut longest_len: usize = 0;
    let mut cur_start: usize = 0;
    let mut cur_len: usize = 0;
    let mut i: usize = 0;
    while i < 8
        invariant
            seg@.len() == 8,
            0 <= i <= 8,
            cur_len <= i,
            cur_start == i - cur_len,
            forall|j: int| cur_start <= j < i ==> seg@[j] == 0,
            cur_start > 0 ==> seg@[cur_start - 1] != 0,
            longest_len == 0 ==> forall|s2: int, l2: int| s2 + l2 <= i ==> !zero_run(seg@, s2, l2),
            longest_len > 0 ==> zero_run(seg@, longest_start as int, longest_len as int) && longest_start + longest_len <= i,
            forall|s2: int, l2: int| zero_run(seg@, s2, l2) && s2 + l2 <= i ==> l2 <= longest_len,
            longest_len > 0 ==> forall|s2: int| zero_run(seg@, s2, longest_len as int) && s2 + longest_len <= i ==> longest_start <= s2,
            cur_len <= longest_len,
        decreases 8 - i,
    {
        if seg[i] == 0 {
            if cur_len == 0 {
                cur_start = i;
            }
            cur_len = cur_len + 1;
            if cur_len > longest_len {
                longest_start = cur_start;
                longest_len = cur_len;
            }
            proof {
                assert forall|s2: int, l2: int| zero_run(seg@, s2, l2) && s2 + l2 <= i + 1 implies l2 <= longest_len by {
                    if s2 + l2 == i + 1 && s2 < cur_start {
                        assert(seg@[cur_start - 1] == 0);
                    }
                }
                assert forall|s2: int| zero_run(seg@, s2, longest_len as int) && s2 + longest_len <= i + 1 implies longest_start <= s2 by {
                    if s2 + longest_len == i + 1 && s2 < cur_start {
                        assert(seg@[cur_start - 1] == 0);
                    }
                }
            }
        } else {
            cur_len = 0;
            cur_start = i + 1;
            proof {
                assert forall|s2: int, l2: int| zero_run(seg@, s2, l2) && s2 + l2 <= i + 1 implies s2 + l2 <= i by {
                    if s2 + l2 == i + 1 {
                        assert(seg@[i as int] == 0);
                    }
                }
            }
        }
        i = i + 1;
    }
    (longest_start, longest_len)
}

fn ipv6_segments(o: &[u8; 16]) -> (seg: Vec<u16>)
    ensures
        seg@ == segments(o@),
{
    let mut seg: Vec<u16> = Vec::new();
    let mut i: usize = 0;
    while i < 8
        invariant
            0 <= i <= 8,
            o@.len() == 16,
            seg@.len() == i,
            forall|j: int| 0 <= j < i ==> seg@[j] == segments(o@)[j],
        decreases 8 - i,
    {
        seg.push((o[2 * i] as u16) * 256 + (o[2 * i + 1] as u16));
        i = i + 1;
    }
    proof {
        assert(seg@ =~= segments(o@));
    }
    seg
}

/// The 32-bit value whose octets, most significant first, are `a`, `b`, `c`, `d`.
fn word_of_octets(a: u8, b: u8, c: u8, d: u8) -> (v: u32)
    ensures
        octets_be(v) == (a, b, c, d),
{
    let v: u32 = (a as u32) * 0x100_0000 + (b as u32) * 0x1_0000 + (c as u32) * 0x100 + (d as u32);
    assert(v / 0x100_0000 == a && (v / 0x1_0000) % 0x100 == b && (v / 0x100) % 0x100 == c && v % 0x100 == d) by (nonlinear_arith)
        requires v == a * 0x100_0000 + b * 0x1_0000 + c * 0x100 + d, a < 256, b < 256, c < 256, d < 256;
    v
}

pub open spec fn ipv4_mapped(seg: Seq<u16>) -> bool {
    seg[0] == 0 && seg[1] == 0 && seg[2] == 0 && seg[3] == 0 && seg[4] == 0 && seg[5] == 0xffff
}

proof fn lemma_text_compressed(o: Seq<u8>, zs: int, zl: int)
    requires
        !ipv4_mapped(segments(o)),
        first_longest_run(segments(o), zs, zl),
        zl > 1,
    ensures
        ipv6_text(o) == join_hex(segments(o).take(zs)) + seq![':', ':'] + join_hex(segments(o).skip(zs + zl)),
{
    let seg = segments(o);
    assert(exists|s: int, l: int| first_longest_run(seg, s, l) && l > 1);
    let (s, l) = choose|s: int, l: int| first_longest_run(seg, s, l) && l > 1;
    assert(l <= zl && zl <= l);
    assert(s <= zs && zs <= s);
}

proof fn lemma_text_plain(o: Seq<u8>)
    requires
        !ipv4_mapped(segments(o)),
        forall|s: int, l: int| first_longest_run(segments(o), s, l) ==> l <= 1,
    ensures
        ipv6_text(o) == join_hex(segments(o)),
{
}

/// The text of an IPv6 address given as 16 octets.
fn ipv6_to_text(o: &[u8; 16]) -> (s: Vec<char>)
    ensures
        s@ == ipv6_text(o@),
{
    let seg = ipv6_segments(o);
    let mut out: Vec<char> = Vec::new();
    if seg[0] == 0 && seg[1] == 0 && seg[2] == 0 && seg[3] == 0 && seg[4] == 0 && seg[5] == 0xffff {
        out.push(':');
        out.push(':');
        out.push('f');
        out.push('f');
        out.push('f');
        out.push('f');
        out.push(':');
        let v = word_of_octets(o[12], o[13], o[14], o[15]);
        push_ipv4(&mut out, v);
        proof {
            assert(out@ =~= ipv6_text(o@));
        }
        return out;
    }
    let (zs, zl) = find_zero_run(&seg);
    if zl > 1 {
        push_groups(&mut out, &seg, 0, zs);
        out.push(':');
        out.push(':');
        push_groups(&mut out, &seg, zs + zl, 8);
        proof {
            lemma_text_compressed(o@, zs as int, zl as int);
            assert(seg@.subrange(0, zs as int) =~= seg@.take(zs as int));
            assert(seg@.subrange(zs + zl, 8) =~= seg@.skip(zs + zl));
            assert(out@ =~= ipv6_text(o@));
        }
    } else {
        push_groups(&mut out, &seg, 0, 8);
        proof {
            assert forall|s: int, l: int| first_longest_run(seg@, s, l) implies l <= 1 by {
                if zl == 0 {
                    assert(zero_run(seg@, s, l));
                }
            }
            lemma_text_plain(o@);
            assert(seg@.subrange(0, 8) =~= seg@);
        }
    }
    out
}

/// The text of a peer address, as the standard library writes `Ipv4Addr` and
/// `Ipv6Addr`.
pub fn parse_addr(addr: &Addr) -> (s: String)
    ensures
        s@ == addr_text(*addr),
{
    match addr {
        Addr::Addr4(o) => {
            let v = word_of_octets(o[0], o[1], o[2], o[3]);
            let mut out: Vec<char> = Vec::new();
            push_ipv4(&mut out, v);
            proof {
                assert(out@ =~= addr_text(*addr));
            }
            string_from_chars(&out)
        },
        Addr::Addr6(o) => {
            let out = ipv6_to_text(o);
            string_from_chars(&out)
        },
    }
}

} // verus!
