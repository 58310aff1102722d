use vstd::prelude::*;

use crate::address::Address;
use crate::model::neighbors_of;
use crate::outcome::CrawlOutcome;
use crate::outcome::OutcomeView;

verus! {

// The textual shape of a finished crawl: one line per visited address,
// the address followed by a bracketed, comma-separated list of the
// neighbors it reported — empty brackets for an unreachable peer or a
// reachable one that reported none. An IPv4 address is laid out as
// `o1.o2.o3.o4:port`; an IPv6 address as `[host]:port` with the host in
// the standard compressed textual form. Writing the bytes to storage is
// the caller's business; this module only lays them out.

/// The decimal digits of `n`, most significant first, as ASCII bytes.
pub open spec fn spec_digits(n: nat) -> Seq<u8>
    decreases n,
{
    if n < 10 {
        seq![(48 + n) as u8]
    } else {
        spec_digits(n / 10).push((48 + n % 10) as u8)
    }
}

/// One lowercase hexadecimal digit as an ASCII byte.
pub open spec fn spec_hex_digit(d: nat) -> u8 {
    if d < 10 {
        (48 + d) as u8
    } else {
        (87 + d) as u8
    }
}

/// The lowercase hexadecimal digits of `n`, most significant first,
/// without leading zeros.
pub open spec fn spec_hex(n: nat) -> Seq<u8>
    decreases n,
{
    if n < 16 {
        seq![spec_hex_digit(n)]
    } else {
        spec_hex(n / 16).push(spec_hex_digit(n % 16))
    }
}

/// The groups in lowercase hex, joined by colons.
pub open spec fn spec_groups_hex(g: Seq<u16>) -> Seq<u8>
    decreases g.len(),
{
    if g.len() == 0 {
        Seq::empty()
    } else if g.len() == 1 {
        spec_hex(g[0] as nat)
    } else {
        spec_groups_hex(g.drop_last()) + seq![58u8] + spec_hex(g.last() as nat)
    }
}

/// How many consecutive zero groups start at `i`.
pub open spec fn zero_run_at(g: Seq<u16>, i: int) -> int
    decreases g.len() - i,
{
    if i < 0 || i >= g.len() {
        0
    } else if g[i] != 0 {
        0
    } else {
        1 + zero_run_at(g, i + 1)
    }
}

/// The longest zero run starting at or after `i`.
pub open spec fn max_zero_run(g: Seq<u16>, i: int) -> int
    decreases g.len() - i,
{
    if i >= g.len() {
        0
    } else {
        let r = zero_run_at(g, i);
        let m = max_zero_run(g, i + 1);
        if r >= m {
            r
        } else {
            m
        }
    }
}

/// The leftmost position at or after `i` whose zero run is exactly `m`;
/// the length of `g` when there is none.
pub open spec fn first_run_start(g: Seq<u16>, i: int, m: int) -> int
    decreases g.len() - i,
{
    if i >= g.len() {
        g.len() as int
    } else if zero_run_at(g, i) == m {
        i
    } else {
        first_run_start(g, i + 1, m)
    }
}

/// The group pattern of an IPv4-mapped address: five zero groups, then
/// `ffff`, then the embedded host.
pub open spec fn is_v4_mapped(g: Seq<u16>) -> bool {
    g.len() == 8 && g[0] == 0 && g[1] == 0 && g[2] == 0 && g[3] == 0 && g[4] == 0 && g[5] == 0xffff
}

/// The dotted-quad bytes of the host embedded in the last two groups of
/// an IPv4-mapped address.
pub open spec fn spec_mapped_v4_bytes(hi: u16, lo: u16) -> Seq<u8> {
    spec_digits((hi / 256) as nat) + seq![46u8] + spec_digits((hi % 256) as nat) + seq![46u8]
        + spec_digits((lo / 256) as nat) + seq![46u8] + spec_digits((lo % 256) as nat)
}

/// The bytes of an IPv6 host in its standard textual form: an
/// IPv4-mapped address as `::ffff:a.b.c.d`; otherwise lowercase hex
/// groups joined by colons, with the longest run of two or more zero
/// groups — the leftmost among equals — collapsed to `::`.
pub open spec fn spec_v6_host_bytes(g: Seq<u16>) -> Seq<u8> {
    if is_v4_mapped(g) {
        seq![58u8, 58u8, 102u8, 102u8, 102u8, 102u8, 58u8] + spec_mapped_v4_bytes(g[6], g[7])
    } else {
        let m = max_zero_run(g, 0);
        if m < 2 {
            spec_groups_hex(g)
        } else {
            let s = first_run_start(g, 0, m);
            spec_groups_hex(g.subrange(0, s)) + seq![58u8, 58u8] + spec_groups_hex(
                g.subrange(s + m, g.len() as int),
            )
        }
    }
}

/// The bytes of one address: `o1.o2.o3.o4:port`, or `[host]:port`.
pub open spec fn spec_address_bytes(a: Address) -> Seq<u8> {
    match a {
        Address::V4 { o1, o2, o3, o4, port } => spec_digits(o1 as nat) + seq![46u8] + spec_digits(
            o2 as nat,
        ) + seq![46u8] + spec_digits(o3 as nat) + seq![46u8] + spec_digits(o4 as nat) + seq![58u8]
            + spec_digits(port as nat),
        Address::V6 { s1, s2, s3, s4, s5, s6, s7, s8, port } => seq![91u8] + spec_v6_host_bytes(
            seq![s1, s2, s3, s4, s5, s6, s7, s8],
        ) + seq![93u8, 58u8] + spec_digits(port as nat),
    }
}

/// The bytes of the addresses joined by commas.
pub open spec fn spec_neighbor_bytes(ns: Seq<Address>) -> Seq<u8>
    decreases ns.len(),
{
    if ns.len() == 0 {
        Seq::empty()
    } else if ns.len() == 1 {
        spec_address_bytes(ns[0])
    } else {
        spec_neighbor_bytes(ns.drop_last()) + seq![44u8] + spec_address_bytes(ns.last())
    }
}

/// One exported line: the address, a comma, the bracketed neighbor
/// list, and a line feed.
pub open spec fn spec_line_bytes(a: Address, o: OutcomeView) -> Seq<u8> {
    spec_address_bytes(a) + seq![44u8, 91u8] + spec_neighbor_bytes(neighbors_of(o)) + seq![
        93u8,
        10u8,
    ]
}

/// The whole export: the entries' lines in order.
pub open spec fn spec_export_bytes(es: Seq<(Address, CrawlOutcome)>) -> Seq<u8>
    decreases es.len(),
{
    if es.len() == 0 {
        Seq::empty()
    } else {
        spec_export_bytes(es.drop_last()) + spec_line_bytes(es.last().0, es.last().1@)
    }
}

/// Appends the decimal digits of `n`.
fn push_digits(out: &mut Vec<u8>, n: u16)
    ensures
        final(out)@ == old(out)@ + spec_digits(n as nat),
    decreases n,
{
    if n < 10 {
        out.push(48 + n as u8);
        proof {
            assert(out@ =~= old(out)@ + spec_digits(n as nat));
        }
    } else {
        push_digits(out, n / 10);
        out.push((48 + n % 10) as u8);
        proof {
            assert((48 + n % 10) as u8 == (48 + (n as nat) % 10) as u8);
            assert(out@ =~= old(out)@ + spec_digits(n as nat));
        }
    }
}

/// Appends the lowercase hexadecimal digits of `n`.
fn push_hex(out: &mut Vec<u8>, n: u16)
    ensures
        final(out)@ == old(out)@ + spec_hex(n as nat),
    decreases n,
{
    if n < 16 {
        let d = if n < 10 {
            48 + n as u8
        } else {
            87 + n as u8
        };
        out.push(d);
        proof {
            assert(d == spec_hex_digit(n as nat));
            assert(out@ =~= old(out)@ + spec_hex(n as nat));
        }
    } else {
        push_hex(out, n / 16);
        let r = n % 16;
        let d = if r < 10 {
            48 + r as u8
        } else {
            87 + r as u8
        };
        out.push(d);
        proof {
            assert(r as nat == (n as nat) % 16);
            assert(d == spec_hex_digit((n as nat) % 16));
            assert(out@ =~= old(out)@ + spec_hex(n as nat));
        }
    }
}

/// Appends the groups `g[from..to]` in lowercase hex, joined by colons.
fn push_groups_hex(out: &mut Vec<u8>, g: &Vec<u16>, from: usize, to: usize)
    requires
        from <= to <= g@.len(),
    ensures
        final(out)@ == old(out)@ + spec_groups_hex(g@.subrange(from as int, to as int)),
{
    let ghost base = out@;
    let mut i: usize = from;
    while i < to
        invariant
            from <= i <= to <= g@.len(),
            out@ == base + spec_groups_hex(g@.subrange(from as int, i as int)),
        decreases to - i,
    {
        if i > from {
            out.push(58);
        }
        push_hex(out, g[i]);
        proof {
            let sub = g@.subrange(from as int, i + 1);
            assert(sub.drop_last() =~= g@.subrange(from as int, i as int));
            assert(sub.last() == g@[i as int]);
            if i == from {
                assert(spec_groups_hex(g@.subrange(from as int, from as int)) == Seq::<
                    u8,
                >::empty());
                assert(out@ =~= base + spec_groups_hex(sub));
            } else {
                assert(spec_groups_hex(sub) == spec_groups_hex(sub.drop_last()) + seq![58u8]
                    + spec_hex(sub.last() as nat));
                assert(out@ =~= base + spec_groups_hex(sub));
            }
        }
        i = i + 1;
    }
}

/// The zero run starting at `i`, measured.
fn zero_run_len(g: &Vec<u16>, i: usize) -> (r: usize)
    requires
        i <= g@.len(),
    ensures
        r == zero_run_at(g@, i as int),
        r <= g@.len() - i,
    decreases g@.len() - i,
{
    if i == g.len() {
        0
    } else if g[i] != 0 {
        0
    } else {
        1 + zero_run_len(g, i + 1)
    }
}

/// A positive maximal zero run is reached somewhere: the leftmost
/// position with that run lies in the groups, and its run extends no
/// further than their end.
proof fn lemma_first_run_found(g: Seq<u16>, i: int)
    requires
        0 <= i <= g.len(),
        max_zero_run(g, i) > 0,
    ensures
        i <= first_run_start(g, i, max_zero_run(g, i)) < g.len(),
        zero_run_at(g, first_run_start(g, i, max_zero_run(g, i))) == max_zero_run(g, i),
    decreases g.len() - i,
{
    let m = max_zero_run(g, i);
    let r = zero_run_at(g, i);
    if r == m {
        assert(first_run_start(g, i, m) == i);
    } else {
        assert(max_zero_run(g, i + 1) == m);
        lemma_first_run_found(g, i + 1);
        assert(first_run_start(g, i, m) == first_run_start(g, i + 1, m));
    }
}

/// The leftmost position with a given run never lies before where the
/// search began.
proof fn lemma_first_run_ge(g: Seq<u16>, i: int, m: int)
    requires
        0 <= i <= g.len(),
    ensures
        first_run_start(g, i, m) >= i,
    decreases g.len() - i,
{
    if i < g.len() && zero_run_at(g, i) != m {
        lemma_first_run_ge(g, i + 1, m);
    }
}

/// A zero run never runs past the end of the groups.
proof fn lemma_zero_run_bounded(g: Seq<u16>, i: int)
    requires
        0 <= i,
    ensures
        zero_run_at(g, i) <= g.len() - i || zero_run_at(g, i) == 0,
    decreases g.len() - i,
{
    if 0 <= i < g.len() && g[i] == 0 {
        lemma_zero_run_bounded(g, i + 1);
    }
}

/// Appends an IPv6 host in its standard compressed textual form.
fn push_v6_host(out: &mut Vec<u8>, g: &Vec<u16>)
    requires
        g@.len() == 8,
    ensures
        final(out)@ == old(out)@ + spec_v6_host_bytes(g@),
{
    let ghost base = out@;
    if g[0] == 0 && g[1] == 0 && g[2] == 0 && g[3] == 0 && g[4] == 0 && g[5] == 0xffff {
        out.push(58);
        out.push(58);
        out.push(102);
        out.push(102);
        out.push(102);
        out.push(102);
        out.push(58);
        let hi = g[6];
        let lo = g[7];
        push_digits(out, hi / 256);
        out.push(46);
        push_digits(out, hi % 256);
        out.push(46);
        push_digits(out, lo / 256);
        out.push(46);
        push_digits(out, lo % 256);
        proof {
            assert(is_v4_mapped(g@));
            assert(out@ =~= base + spec_v6_host_bytes(g@));
        }
        return;
    }
    proof {
        assert(!is_v4_mapped(g@));
    }
    let mut m: usize = 0;
    let mut i: usize = 8;
    while i > 0
        invariant
            g@.len() == 8,
            i <= 8,
            m == max_zero_run(g@, i as int),
        decreases i,
    {
        i = i - 1;
        let r = zero_run_len(g, i);
        if r >= m {
            m = r;
        }
    }
    if m < 2 {
        push_groups_hex(out, g, 0, 8);
        proof {
            assert(g@.subrange(0, 8) =~= g@);
            assert(out@ =~= base + spec_v6_host_bytes(g@));
        }
    } else {
        proof {
            lemma_first_run_found(g@, 0);
            lemma_zero_run_bounded(g@, first_run_start(g@, 0, m as int));
        }
        let ghost target = first_run_start(g@, 0, m as int);
        let mut s: usize = 0;
        while zero_run_len(g, s) != m
            invariant
                g@.len() == 8,
                m == max_zero_run(g@, 0),
                m >= 2,
                target == first_run_start(g@, 0, m as int),
                0 <= target < 8,
                s <= target,
                first_run_start(g@, s as int, m as int) == target,
            decreases 8 - s,
        {
            proof {
                assert(zero_run_at(g@, s as int) != m);
                assert(first_run_start(g@, s as int, m as int) == first_run_start(
                    g@,
                    s + 1,
                    m as int,
                ));
                lemma_first_run_ge(g@, s + 1, m as int);
            }
            s = s + 1;
        }
        proof {
            assert(first_run_start(g@, s as int, m as int) == s);
            assert(s == target);
            assert(s + m <= 8);
        }
        push_groups_hex(out, g, 0, s);
        out.push(58);
        out.push(58);
        push_groups_hex(out, g, s + m, 8);
        proof {
            assert(out@ =~= base + spec_v6_host_bytes(g@));
        }
    }
}

/// Appends the bytes of one address.
fn push_address(out: &mut Vec<u8>, a: Address)
    ensures
        final(out)@ == old(out)@ + spec_address_bytes(a),
{
    match a {
        Address::V4 { o1, o2, o3, o4, port } => {
            push_digits(out, o1 as u16);
            out.push(46);
            push_digits(out, o2 as u16);
            out.push(46);
            push_digits(out, o3 as u16);
            out.push(46);
            push_digits(out, o4 as u16);
            out.push(58);
            push_digits(out, port);
            proof {
                assert(out@ =~= old(out)@ + spec_address_bytes(a));
            }
        },
        Address::V6 { s1, s2, s3, s4, s5, s6, s7, s8, port } => {
            out.push(91);
            let mut groups: Vec<u16> = Vec::new();
            groups.push(s1);
            groups.push(s2);
            groups.push(s3);
            groups.push(s4);
            groups.push(s5);
            groups.push(s6);
            groups.push(s7);
            groups.push(s8);
            proof {
                assert(groups@ =~= seq![s1, s2, s3, s4, s5, s6, s7, s8]);
            }
            push_v6_host(out, &groups);
            out.push(93);
            out.push(58);
            push_digits(out, port);
            proof {
                assert(out@ =~= old(out)@ + spec_address_bytes(a));
            }
        },
    }
}

/// Appends the neighbor addresses joined by commas.
fn push_neighbors(out: &mut Vec<u8>, ns: &Vec<Address>)
    ensures
        final(out)@ == old(out)@ + spec_neighbor_bytes(ns@),
{
    let ghost base = out@;
    let mut i: usize = 0;
    while i < ns.len()
        invariant
            i <= ns@.len(),
            out@ == base + spec_neighbor_bytes(ns@.subrange(0, i as int)),
        decreases ns@.len() - i,
    {
        if i > 0 {
            out.push(44);
        }
        push_address(out, ns[i]);
        proof {
            let sub = ns@.subrange(0, i + 1);
            assert(sub.drop_last() =~= ns@.subrange(0, i as int));
            assert(sub.last() == ns@[i as int]);
            if i == 0 {
                assert(spec_neighbor_bytes(ns@.subrange(0, 0)) == Seq::<u8>::empty());
                assert(out@ =~= base + spec_neighbor_bytes(sub));
            } else {
                assert(spec_neighbor_bytes(sub) == spec_neighbor_bytes(sub.drop_last()) + seq![
                    44u8,
                ] + spec_address_bytes(sub.last()));
                assert(out@ =~= base + spec_neighbor_bytes(sub));
            }
        }
        i = i + 1;
    }
    proof {
        assert(ns@.subrange(0, ns@.len() as int) =~= ns@);
    }
}

/// Lays out a snapshot of the visited store as lines of bytes, one per
/// entry, in the snapshot's order.
pub fn export_csv(entries: &Vec<(Address, CrawlOutcome)>) -> (out: Vec<u8>)
    ensures
        out@ == spec_export_bytes(entries@),
{
    let mut out: Vec<u8> = Vec::new();
    let mut i: usize = 0;
    while i < entries.len()
        invariant
            i <= entries@.len(),
            out@ == spec_export_bytes(entries@.subrange(0, i as int)),
        decreases entries@.len() - i,
    {
        let ghost line_base = out@;
        let a = entries[i].0;
        push_address(&mut out, a);
        out.push(44);
        out.push(91);
        match &entries[i].1 {
            CrawlOutcome::Discovered(ns) => {
                push_neighbors(&mut out, ns);
            },
            CrawlOutcome::Unreachable => {},
        }
        out.push(93);
        out.push(10);
        proof {
            let sub = entries@.subrange(0, i + 1);
            assert(sub.drop_last() =~= entries@.subrange(0, i as int));
            assert(sub.last() == entries@[i as int]);
            assert(out@ =~= line_base + spec_line_bytes(
                entries@[i as int].0,
                entries@[i as int].1@,
            ));
            assert(out@ =~= spec_export_bytes(sub));
        }
        i = i + 1;
    }
    proof {
        assert(entries@.subrange(0, entries@.len() as int) =~= entries@);
    }
    out
}

} // verus!
