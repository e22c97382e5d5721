//! Rendering a structured socket address back to a literal, and the proof
//! that the rendered form parses back to the same address.
//!
//! The rendered form is canonical: decimal without leading zeros, lowercase
//! hexadecimal, and all eight IPv6 groups written out.

use vstd::prelude::*;
use crate::addr::IpAddress;
use crate::addr::SocketAddress;
use crate::addr::dec_value;
use crate::addr::digit_run;
use crate::addr::digit_value;
use crate::addr::hex_digit_value;
use crate::addr::hex_run;
use crate::addr::hex_value;
use crate::addr::is_ascii_digit;
use crate::addr::is_hex_digit;

verus! {

/// The byte of one decimal digit.
pub open spec fn dec_digit(v: int) -> u8
    recommends
        0 <= v <= 9,
{
    (0x30 + v) as u8
}

/// The byte of one lowercase hexadecimal digit.
pub open spec fn hex_digit_byte(v: int) -> u8
    recommends
        0 <= v <= 15,
{
    if v < 10 {
        (0x30 + v) as u8
    } else {
        (0x61 + v - 10) as u8
    }
}

/// The decimal numeral of `v`, most significant digit first, no leading
/// zeros.
pub open spec fn dec_render(v: int) -> Seq<u8>
    recommends
        0 <= v,
    decreases v,
{
    if v <= 9 {
        seq![dec_digit(v)]
    } else {
        dec_render(v / 10) + seq![dec_digit(v % 10)]
    }
}

/// The lowercase hexadecimal numeral of `v`, no leading zeros.
pub open spec fn hex_render(v: int) -> Seq<u8>
    recommends
        0 <= v,
    decreases v,
{
    if v <= 15 {
        seq![hex_digit_byte(v)]
    } else {
        hex_render(v / 16) + seq![hex_digit_byte(v % 16)]
    }
}

/// `gs` rendered as colon-separated hexadecimal groups; a `:` precedes every
/// group except, when `first` holds, the foremost.
pub open spec fn render_groups(gs: Seq<u16>, first: bool) -> Seq<u8>
    decreases gs.len(),
{
    if gs.len() == 0 {
        Seq::empty()
    } else {
        (if first {
            Seq::empty()
        } else {
            seq![0x3Au8]
        }) + hex_render(gs[0] as int) + render_groups(gs.skip(1), false)
    }
}

/// The canonical dotted-decimal literal of four octets.
pub open spec fn ipv4_render(a: u8, b: u8, c: u8, d: u8) -> Seq<u8> {
    dec_render(a as int) + seq![0x2Eu8] + dec_render(b as int) + seq![0x2Eu8] + dec_render(
        c as int,
    ) + seq![0x2Eu8] + dec_render(d as int)
}

/// The canonical literal of a socket address.
pub open spec fn rendered_address(sa: SocketAddress) -> Seq<u8> {
    match sa.ip {
        IpAddress::V4 { a, b, c, d } => ipv4_render(a, b, c, d) + seq![0x3Au8] + dec_render(
            sa.port as int,
        ),
        IpAddress::V6 { g0, g1, g2, g3, g4, g5, g6, g7 } => seq![0x5Bu8] + render_groups(
            seq![g0, g1, g2, g3, g4, g5, g6, g7],
            true,
        ) + seq![0x5Du8, 0x3Au8] + dec_render(sa.port as int),
    }
}

/// Appends the decimal numeral of `v`.
fn push_dec(out: &mut Vec<u8>, v: u16)
    ensures
        final(out)@ == old(out)@ + dec_render(v as int),
    decreases v,
{
    let ghost before = out@;
    if v >= 10 {
        push_dec(out, v / 10);
    }
    out.push(0x30 + ((v % 10) as u8));
    proof {
        if v <= 9 {
            assert(out@ =~= before + dec_render(v as int));
        } else {
            assert(out@ =~= before + (dec_render(v as int / 10) + seq![
                dec_digit(v as int % 10),
            ]));
        }
    }
}

/// Appends the lowercase hexadecimal numeral of `v`.
fn push_hex(out: &mut Vec<u8>, v: u16)
    ensures
        final(out)@ == old(out)@ + hex_render(v as int),
    decreases v,
{
    let ghost before = out@;
    if v >= 16 {
        push_hex(out, v / 16);
    }
    let d = (v % 16) as u8;
    let byte = if d < 10 {
        0x30 + d
    } else {
        0x61 + (d - 10)
    };
    out.push(byte);
    proof {
        if v <= 15 {
            assert(out@ =~= before + hex_render(v as int));
        } else {
            assert(out@ =~= before + (hex_render(v as int / 16) + seq![
                hex_digit_byte(v as int % 16),
            ]));
        }
    }
}

/// Renders a socket address as its canonical literal.
#[verifier::rlimit(60)]
pub fn render_address(sa: &SocketAddress) -> (r: Vec<u8>)
    ensures
        r@ == rendered_address(*sa),
{
    let mut out: Vec<u8> = Vec::new();
    match sa.ip {
        IpAddress::V4 { a, b, c, d } => {
            push_dec(&mut out, a as u16);
            out.push(0x2E);
            push_dec(&mut out, b as u16);
            out.push(0x2E);
            push_dec(&mut out, c as u16);
            out.push(0x2E);
            push_dec(&mut out, d as u16);
            out.push(0x3A);
            push_dec(&mut out, sa.port);
            proof {
                assert(out@ =~= rendered_address(*sa));
            }
        },
        IpAddress::V6 { g0, g1, g2, g3, g4, g5, g6, g7 } => {
            out.push(0x5B);
            push_hex(&mut out, g0);
            out.push(0x3A);
            push_hex(&mut out, g1);
            out.push(0x3A);
            push_hex(&mut out, g2);
            out.push(0x3A);
            push_hex(&mut out, g3);
            out.push(0x3A);
            push_hex(&mut out, g4);
            out.push(0x3A);
            push_hex(&mut out, g5);
            out.push(0x3A);
            push_hex(&mut out, g6);
            out.push(0x3A);
            push_hex(&mut out, g7);
            out.push(0x5D);
            out.push(0x3A);
            push_dec(&mut out, sa.port);
            proof {
                reveal_with_fuel(render_groups, 9);
                let gs = seq![g0, g1, g2, g3, g4, g5, g6, g7];
                assert(gs.skip(1) =~= seq![g1, g2, g3, g4, g5, g6, g7]);
                assert(gs.skip(1).skip(1) =~= seq![g2, g3, g4, g5, g6, g7]);
                assert(gs.skip(1).skip(1).skip(1) =~= seq![g3, g4, g5, g6, g7]);
                assert(gs.skip(1).skip(1).skip(1).skip(1) =~= seq![g4, g5, g6, g7]);
                assert(gs.skip(1).skip(1).skip(1).skip(1).skip(1) =~= seq![g5, g6, g7]);
                assert(gs.skip(1).skip(1).skip(1).skip(1).skip(1).skip(1) =~= seq![g6, g7]);
                assert(gs.skip(1).skip(1).skip(1).skip(1).skip(1).skip(1).skip(1) =~= seq![g7]);
                assert(gs.skip(1).skip(1).skip(1).skip(1).skip(1).skip(1).skip(1).skip(1)
                    =~= Seq::<u16>::empty());
                assert(out@ =~= rendered_address(*sa));
            }
        },
    }
    out
}

/// A decimal rendering is all digits, nonempty, free of leading zeros, and
/// short for small values.
pub proof fn lemma_dec_render_props(v: int)
    requires
        0 <= v,
    ensures
        dec_render(v).len() >= 1,
        forall|k: int| 0 <= k < dec_render(v).len() ==> is_ascii_digit(#[trigger] dec_render(v)[k]),
        v >= 1 ==> dec_render(v)[0] != 0x30,
        v <= 9 ==> dec_render(v).len() == 1,
        v <= 99 ==> dec_render(v).len() <= 2,
        v <= 999 ==> dec_render(v).len() <= 3,
    decreases v,
{
    if v <= 9 {
        assert(is_ascii_digit(dec_digit(v)));
    } else {
        lemma_dec_render_props(v / 10);
        let d = dec_render(v / 10);
        let w = dec_render(v);
        assert(w == d + seq![dec_digit(v % 10)]);
        assert(is_ascii_digit(dec_digit(v % 10)));
        assert forall|k: int| 0 <= k < w.len() implies is_ascii_digit(#[trigger] w[k]) by {
            if k < d.len() {
                assert(w[k] == d[k]);
            } else {
                assert(w[k] == dec_digit(v % 10));
            }
        }
        assert(w[0] == d[0]);
    }
}

/// A hexadecimal rendering is all hex digits, nonempty, and at most four
/// digits for any 16-bit value.
pub proof fn lemma_hex_render_props(v: int)
    requires
        0 <= v,
    ensures
        hex_render(v).len() >= 1,
        forall|k: int| 0 <= k < hex_render(v).len() ==> is_hex_digit(#[trigger] hex_render(v)[k]),
        v <= 15 ==> hex_render(v).len() == 1,
        v <= 255 ==> hex_render(v).len() <= 2,
        v <= 4095 ==> hex_render(v).len() <= 3,
        v <= 65535 ==> hex_render(v).len() <= 4,
    decreases v,
{
    if v <= 15 {
        assert(is_hex_digit(hex_digit_byte(v)));
    } else {
        lemma_hex_render_props(v / 16);
        let d = hex_render(v / 16);
        let w = hex_render(v);
        assert(w == d + seq![hex_digit_byte(v % 16)]);
        assert(is_hex_digit(hex_digit_byte(v % 16)));
        assert forall|k: int| 0 <= k < w.len() implies is_hex_digit(#[trigger] w[k]) by {
            if k < d.len() {
                assert(w[k] == d[k]);
            } else {
                assert(w[k] == hex_digit_byte(v % 16));
            }
        }
    }
}

/// A run of digits followed by a non-digit scans as exactly that run.
pub proof fn lemma_digit_run_append(d: Seq<u8>, rest: Seq<u8>)
    requires
        forall|k: int| 0 <= k < d.len() ==> is_ascii_digit(#[trigger] d[k]),
        rest.len() == 0 || !is_ascii_digit(rest[0]),
    ensures
        digit_run(d + rest) == d.len(),
    decreases d.len(),
{
    if d.len() == 0 {
        assert(d + rest =~= rest);
    } else {
        assert((d + rest)[0] == d[0]);
        assert((d + rest).skip(1) =~= d.skip(1) + rest);
        lemma_digit_run_append(d.skip(1), rest);
    }
}

/// The hexadecimal counterpart of `lemma_digit_run_append`.
pub proof fn lemma_hex_run_append(d: Seq<u8>, rest: Seq<u8>)
    requires
        forall|k: int| 0 <= k < d.len() ==> is_hex_digit(#[trigger] d[k]),
        rest.len() == 0 || !is_hex_digit(rest[0]),
    ensures
        hex_run(d + rest) == d.len(),
    decreases d.len(),
{
    if d.len() == 0 {
        assert(d + rest =~= rest);
    } else {
        assert((d + rest)[0] == d[0]);
        assert((d + rest).skip(1) =~= d.skip(1) + rest);
        lemma_hex_run_append(d.skip(1), rest);
    }
}

/// Reading back a decimal rendering yields the value it was rendered from.
pub proof fn lemma_dec_value_render(v: int, rest: Seq<u8>)
    requires
        0 <= v,
    ensures
        dec_value(dec_render(v) + rest, dec_render(v).len() as int) == v,
    decreases v,
{
    let d = dec_render(v);
    let s = d + rest;
    if v <= 9 {
        assert(dec_value(s, 1) == dec_value(s, 0) * 10 + digit_value(s[0]));
        assert(s[0] == dec_digit(v));
        assert(digit_value(dec_digit(v)) == v);
    } else {
        let last = dec_digit(v % 10);
        let dp = dec_render(v / 10);
        lemma_dec_value_render(v / 10, seq![last] + rest);
        assert(s =~= dp + (seq![last] + rest));
        let n = d.len() as int;
        assert(n == dp.len() + 1);
        assert(dec_value(s, n) == dec_value(s, n - 1) * 10 + digit_value(s[n - 1]));
        assert(s[n - 1] == last);
        assert(digit_value(last) == v % 10);
        assert(v / 10 * 10 + v % 10 == v);
    }
}

/// The hexadecimal counterpart of `lemma_dec_value_render`.
pub proof fn lemma_hex_value_render(v: int, rest: Seq<u8>)
    requires
        0 <= v,
    ensures
        hex_value(hex_render(v) + rest, hex_render(v).len() as int) == v,
    decreases v,
{
    let d = hex_render(v);
    let s = d + rest;
    if v <= 15 {
        assert(hex_value(s, 1) == hex_value(s, 0) * 16 + hex_digit_value(s[0]));
        assert(s[0] == hex_digit_byte(v));
        assert(hex_digit_value(hex_digit_byte(v)) == v);
    } else {
        let last = hex_digit_byte(v % 16);
        let dp = hex_render(v / 16);
        lemma_hex_value_render(v / 16, seq![last] + rest);
        assert(s =~= dp + (seq![last] + rest));
        let n = d.len() as int;
        assert(n == dp.len() + 1);
        assert(hex_value(s, n) == hex_value(s, n - 1) * 16 + hex_digit_value(s[n - 1]));
        assert(s[n - 1] == last);
        assert(hex_digit_value(last) == v % 16);
        assert(v / 16 * 16 + v % 16 == v);
    }
}

/// A rendered octet, followed by anything that is not a digit, parses as
/// exactly that octet.
pub proof fn lemma_octet_render(v: u8, rest: Seq<u8>)
    requires
        rest.len() == 0 || !is_ascii_digit(rest[0]),
    ensures
        crate::addr::spec_octet(dec_render(v as int) + rest) == Some(
            (v, dec_render(v as int).len() as int),
        ),
{
    let d = dec_render(v as int);
    let s = d + rest;
    lemma_dec_render_props(v as int);
    lemma_digit_run_append(d, rest);
    lemma_dec_value_render(v as int, rest);
    assert(s[0] == d[0]);
}

/// A rendered port numeral, followed by anything that is not a digit, parses
/// as exactly that port.
pub proof fn lemma_port_render(v: u16, rest: Seq<u8>)
    requires
        rest.len() == 0 || !is_ascii_digit(rest[0]),
    ensures
        crate::addr::spec_port(dec_render(v as int) + rest) == Some(
            (v, dec_render(v as int).len() as int),
        ),
{
    let d = dec_render(v as int);
    lemma_dec_render_props(v as int);
    lemma_digit_run_append(d, rest);
    lemma_dec_value_render(v as int, rest);
}

/// A rendered hexadecimal group, followed by anything that is not a hex
/// digit, parses as exactly that group.
pub proof fn lemma_group_render(v: u16, rest: Seq<u8>)
    requires
        rest.len() == 0 || !is_hex_digit(rest[0]),
    ensures
        crate::addr::spec_group(hex_render(v as int) + rest) == Some(
            (v, hex_render(v as int).len() as int),
        ),
{
    let d = hex_render(v as int);
    lemma_hex_render_props(v as int);
    lemma_hex_run_append(d, rest);
    lemma_hex_value_render(v as int, rest);
}

/// A rendered dotted quad, followed by anything that is not a digit, parses
/// as exactly those four octets.
#[verifier::rlimit(100)]
pub proof fn lemma_ipv4_render(a: u8, b: u8, c: u8, d: u8, rest: Seq<u8>)
    requires
        rest.len() == 0 || !is_ascii_digit(rest[0]),
    ensures
        crate::addr::spec_ipv4(ipv4_render(a, b, c, d) + rest) == Some(
            ((a, b, c, d), ipv4_render(a, b, c, d).len() as int),
        ),
{
    let ra = dec_render(a as int);
    let rb = dec_render(b as int);
    let rc = dec_render(c as int);
    let rd = dec_render(d as int);
    let s = ipv4_render(a, b, c, d) + rest;
    let r1 = seq![0x2Eu8] + rb + seq![0x2Eu8] + rc + seq![0x2Eu8] + rd + rest;
    let r2 = seq![0x2Eu8] + rc + seq![0x2Eu8] + rd + rest;
    let r3 = seq![0x2Eu8] + rd + rest;
    assert(r1[0] == 0x2E && r2[0] == 0x2E && r3[0] == 0x2E);
    assert(s == ra + r1) by {
        assert(s =~= ra + r1);
    }
    assert(s.skip(ra.len() as int) == r1) by {
        assert(s.skip(ra.len() as int) =~= r1);
    }
    assert(r1.skip(1) == rb + r2) by {
        assert(r1.skip(1) =~= rb + r2);
    }
    assert(r1.skip(1 + rb.len() as int) == r2) by {
        assert(r1.skip(1 + rb.len() as int) =~= r2);
    }
    assert(r2.skip(1) == rc + r3) by {
        assert(r2.skip(1) =~= rc + r3);
    }
    assert(r2.skip(1 + rc.len() as int) == r3) by {
        assert(r2.skip(1 + rc.len() as int) =~= r3);
    }
    assert(r3.skip(1) == rd + rest) by {
        assert(r3.skip(1) =~= rd + rest);
    }
    lemma_octet_render(a, r1);
    lemma_octet_render(b, r2);
    lemma_octet_render(c, r3);
    lemma_octet_render(d, rest);
}

/// Every byte of rendered groups is a colon or a hexadecimal digit.
pub proof fn lemma_render_groups_bytes(gs: Seq<u16>, first: bool)
    ensures
        forall|k: int|
            0 <= k < render_groups(gs, first).len() ==> (#[trigger] render_groups(gs, first)[k]
                == 0x3A || is_hex_digit(render_groups(gs, first)[k])),
    decreases gs.len(),
{
    if gs.len() > 0 {
        lemma_hex_render_props(gs[0] as int);
        lemma_render_groups_bytes(gs.skip(1), false);
        let sep: Seq<u8> = if first {
            Seq::empty()
        } else {
            seq![0x3Au8]
        };
        let hg = hex_render(gs[0] as int);
        let tl = render_groups(gs.skip(1), false);
        let w = render_groups(gs, first);
        assert(w == sep + hg + tl);
        assert forall|k: int| 0 <= k < w.len() implies (#[trigger] w[k] == 0x3A || is_hex_digit(
            w[k],
        )) by {
            if k < sep.len() {
                assert(w[k] == 0x3Au8);
            } else if k < sep.len() + hg.len() {
                assert(w[k] == hg[k - sep.len()]);
            } else {
                assert(w[k] == tl[k - sep.len() - hg.len()]);
            }
        }
    }
}

/// Rendered groups, followed by anything that opens with neither a colon nor
/// a hex digit, parse as exactly those groups when their number fills the
/// remaining limit.
pub proof fn lemma_groups_render(gs: Seq<u16>, rest: Seq<u8>, idx: int, limit: int)
    requires
        0 <= idx,
        limit - idx == gs.len(),
        rest.len() >= 1,
        rest[0] != 0x3A,
        !is_hex_digit(rest[0]),
        forall|k: int| 0 <= k < rest.len() ==> rest[k] != 0x2E,
    ensures
        crate::addr::spec_groups(render_groups(gs, idx == 0) + rest, idx, limit) == (
            gs,
            render_groups(gs, idx == 0).len() as int,
            false,
        ),
    decreases gs.len(),
{
    let rg = render_groups(gs, idx == 0);
    let s = rg + rest;
    if gs.len() == 0 {
        assert(rg =~= Seq::<u8>::empty());
        assert(s =~= rest);
        assert(gs =~= Seq::<u16>::empty());
    } else {
        let sepn: int = if idx == 0 {
            0
        } else {
            1
        };
        let hg = hex_render(gs[0] as int);
        let tailr = render_groups(gs.skip(1), false);
        assert(rg == (if idx == 0 {
            Seq::<u8>::empty()
        } else {
            seq![0x3Au8]
        }) + hg + tailr);
        let srest = tailr + rest;
        if idx > 0 {
            assert(s[0] == 0x3A);
        }
        assert(s.skip(sepn) =~= hg + srest);
        if gs.len() > 1 {
            assert(tailr == seq![0x3Au8] + hex_render(gs.skip(1)[0] as int) + render_groups(
                gs.skip(1).skip(1),
                false,
            ));
            assert(srest[0] == 0x3A);
            assert(!is_hex_digit(0x3A));
        } else {
            assert(tailr =~= Seq::<u8>::empty());
            assert(srest =~= rest);
        }
        lemma_hex_render_props(gs[0] as int);
        lemma_render_groups_bytes(gs.skip(1), false);
        assert forall|k: int| 0 <= k < (hg + srest).len() implies (hg + srest)[k] != 0x2E by {
            if k < hg.len() {
                assert((hg + srest)[k] == hg[k]);
            } else if k < hg.len() + tailr.len() {
                assert((hg + srest)[k] == tailr[k - hg.len()]);
            } else {
                assert((hg + srest)[k] == rest[k - hg.len() - tailr.len()]);
            }
        }
        crate::addr::lemma_ipv4_needs_dot(hg + srest);
        lemma_group_render(gs[0], srest);
        lemma_groups_render(gs.skip(1), rest, idx + 1, limit);
        assert(s.skip(sepn + hg.len() as int) =~= tailr + rest);
        assert(seq![gs[0]] + gs.skip(1) =~= gs);
    }
}

/// A full eight-group rendering, followed by anything that opens with
/// neither a colon nor a hex digit, parses as exactly those groups.
pub proof fn lemma_ipv6_render(gs: Seq<u16>, rest: Seq<u8>)
    requires
        gs.len() == 8,
        rest.len() >= 1,
        rest[0] != 0x3A,
        !is_hex_digit(rest[0]),
        forall|k: int| 0 <= k < rest.len() ==> rest[k] != 0x2E,
    ensures
        crate::addr::spec_ipv6(render_groups(gs, true) + rest) == Some(
            (gs, render_groups(gs, true).len() as int),
        ),
{
    lemma_groups_render(gs, rest, 0, 8);
}

#[verifier::rlimit(100)]
#[verifier::spinoff_prover]
proof fn lemma_round_trip_v4(sa: SocketAddress)
    requires
        sa.ip is V4,
    ensures
        crate::addr::spec_socket_address(rendered_address(sa)) == Some(sa),
{
    let s = rendered_address(sa);
    let rp = dec_render(sa.port as int);
    lemma_dec_render_props(sa.port as int);
    match sa.ip {
        IpAddress::V4 { a, b, c, d } => {
            let lit = ipv4_render(a, b, c, d);
            let rest = seq![0x3Au8] + rp;
            assert(s =~= lit + rest);
            lemma_ipv4_render(a, b, c, d, rest);
            lemma_dec_render_props(a as int);
            assert(s[0] == dec_render(a as int)[0]);
            assert(s[0] != 0x5B);
            assert(s.skip(lit.len() as int) =~= rest);
            assert(rest[0] == 0x3A);
            assert(rest.skip(1) =~= rp + Seq::<u8>::empty());
            lemma_port_render(sa.port, Seq::empty());
        },
        IpAddress::V6 { .. } => {},
    }
}

#[verifier::rlimit(100)]
#[verifier::spinoff_prover]
proof fn lemma_round_trip_v6(sa: SocketAddress)
    requires
        sa.ip is V6,
    ensures
        crate::addr::spec_socket_address(rendered_address(sa)) == Some(sa),
{
    let s = rendered_address(sa);
    let rp = dec_render(sa.port as int);
    lemma_dec_render_props(sa.port as int);
    match sa.ip {
        IpAddress::V4 { .. } => {},
        IpAddress::V6 { g0, g1, g2, g3, g4, g5, g6, g7 } => {
            let gs = seq![g0, g1, g2, g3, g4, g5, g6, g7];
            let rg = render_groups(gs, true);
            let rest = seq![0x5Du8, 0x3Au8] + rp;
            assert(s =~= seq![0x5Bu8] + (rg + rest));
            assert(s[0] == 0x5B);
            assert(s.skip(1) =~= rg + rest);
            assert(!is_hex_digit(0x5D));
            assert forall|k: int| 0 <= k < rest.len() implies rest[k] != 0x2E by {
                if k >= 2 {
                    assert(rest[k] == rp[k - 2]);
                }
            }
            lemma_ipv6_render(gs, rest);
            assert(s.skip(1 + rg.len() as int) =~= rest);
            assert(rest[0] == 0x5D);
            assert(rest[1] == 0x3A);
            assert(rest.skip(2) =~= rp + Seq::<u8>::empty());
            lemma_port_render(sa.port, Seq::empty());
        },
    }
}

/// Round trip: every socket address parses back, unchanged, from its own
/// rendering. Together with the parser's exactness this says the rendered
/// form is semantically equivalent to the literal it came from — same
/// address family, same address, same port.
pub proof fn lemma_render_parse_round_trip(sa: SocketAddress)
    ensures
        crate::addr::spec_socket_address(rendered_address(sa)) == Some(sa),
{
    match sa.ip {
        IpAddress::V4 { .. } => lemma_round_trip_v4(sa),
        IpAddress::V6 { .. } => lemma_round_trip_v6(sa),
    }
}

} // verus!
