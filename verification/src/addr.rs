//! Socket-address literals: the structured address type and a parser for the
//! standard literal grammar — dotted-decimal IPv4 (`a.b.c.d:port`) and
//! bracketed IPv6 (`[groups]:port`, with one optional `::` compression).
//!
//! The grammar is deterministic, so it is stated as a spec-level parser over
//! byte sequences, and the executable parser returns exactly its result.

use vstd::prelude::*;

verus! {

/// A structured IP address: four octets, or eight 16-bit groups.
#[derive(Clone, Copy, Debug, PartialEq, Eq, Structural)]
pub enum IpAddress {
    V4 { a: u8, b: u8, c: u8, d: u8 },
    V6 { g0: u16, g1: u16, g2: u16, g3: u16, g4: u16, g5: u16, g6: u16, g7: u16 },
}

/// A structured socket address: an IP address and a port (port 0 is a valid
/// request for an ephemeral port).
#[derive(Clone, Copy, Debug, PartialEq, Eq, Structural)]
pub struct SocketAddress {
    pub ip: IpAddress,
    pub port: u16,
}

/// An ASCII decimal digit.
pub open spec fn is_ascii_digit(b: u8) -> bool {
    0x30 <= b && b <= 0x39
}

/// An ASCII hexadecimal digit, either case.
pub open spec fn is_hex_digit(b: u8) -> bool {
    is_ascii_digit(b) || (0x61 <= b && b <= 0x66) || (0x41 <= b && b <= 0x46)
}

pub open spec fn digit_value(b: u8) -> int
    recommends
        is_ascii_digit(b),
{
    b - 0x30
}

pub open spec fn hex_digit_value(b: u8) -> int
    recommends
        is_hex_digit(b),
{
    if is_ascii_digit(b) {
        b - 0x30
    } else if 0x61 <= b && b <= 0x66 {
        b - 0x61 + 10
    } else {
        b - 0x41 + 10
    }
}

/// The number of leading decimal digits of `s`.
pub open spec fn digit_run(s: Seq<u8>) -> int
    decreases s.len(),
{
    if s.len() == 0 || !is_ascii_digit(s[0]) {
        0
    } else {
        1 + digit_run(s.skip(1))
    }
}

/// The number of leading hexadecimal digits of `s`.
pub open spec fn hex_run(s: Seq<u8>) -> int
    decreases s.len(),
{
    if s.len() == 0 || !is_hex_digit(s[0]) {
        0
    } else {
        1 + hex_run(s.skip(1))
    }
}

/// The value of the first `n` bytes of `s` read as a decimal numeral.
pub open spec fn dec_value(s: Seq<u8>, n: int) -> int
    recommends
        0 <= n <= s.len(),
    decreases n,
{
    if n <= 0 {
        0
    } else {
        dec_value(s, n - 1) * 10 + digit_value(s[n - 1])
    }
}

/// The value of the first `n` bytes of `s` read as a hexadecimal numeral.
pub open spec fn hex_value(s: Seq<u8>, n: int) -> int
    recommends
        0 <= n <= s.len(),
    decreases n,
{
    if n <= 0 {
        0
    } else {
        hex_value(s, n - 1) * 16 + hex_digit_value(s[n - 1])
    }
}

proof fn lemma_skip_skip(s: Seq<u8>, a: int, b: int)
    requires
        0 <= a,
        0 <= b,
        a + b <= s.len(),
    ensures
        s.skip(a).skip(b) == s.skip(a + b),
{
    assert(s.skip(a).skip(b) =~= s.skip(a + b));
}

/// `digit_run` and `hex_run` never pass the end of the sequence.
pub proof fn lemma_runs_bounded(s: Seq<u8>)
    ensures
        0 <= digit_run(s) <= s.len(),
        0 <= hex_run(s) <= s.len(),
    decreases s.len(),
{
    if s.len() > 0 {
        lemma_runs_bounded(s.skip(1));
    }
}

/// Every byte inside a digit run is a digit; the same for hexadecimal runs.
pub proof fn lemma_run_digits(s: Seq<u8>)
    ensures
        forall|k: int| 0 <= k < digit_run(s) ==> is_ascii_digit(s[k]),
        forall|k: int| 0 <= k < hex_run(s) ==> is_hex_digit(s[k]),
    decreases s.len(),
{
    lemma_runs_bounded(s);
    if s.len() > 0 {
        lemma_run_digits(s.skip(1));
        lemma_runs_bounded(s.skip(1));
        assert forall|k: int| 0 <= k < digit_run(s) implies is_ascii_digit(s[k]) by {
            if k >= 1 {
                assert(s.skip(1)[k - 1] == s[k]);
            }
        }
        assert forall|k: int| 0 <= k < hex_run(s) implies is_hex_digit(s[k]) by {
            if k >= 1 {
                assert(s.skip(1)[k - 1] == s[k]);
            }
        }
    }
}

/// The end of the run of decimal digits that starts at `i`.
fn scan_digits(s: &Vec<u8>, i: usize) -> (j: usize)
    requires
        i <= s@.len(),
    ensures
        i <= j <= s@.len(),
        j - i == digit_run(s@.skip(i as int)),
{
    let n = s.len();
    let mut j = i;
    while j < n && s[j] >= 0x30 && s[j] <= 0x39
        invariant
            i <= j <= n,
            n == s@.len(),
            digit_run(s@.skip(i as int)) == (j - i) + digit_run(s@.skip(j as int)),
        decreases n - j,
    {
        proof {
            lemma_skip_skip(s@, j as int, 1);
            assert(s@.skip(j as int)[0] == s@[j as int]);
            assert(digit_run(s@.skip(j as int)) == 1 + digit_run(s@.skip(j + 1)));
        }
        j = j + 1;
    }
    proof {
        assert(s@.skip(j as int).len() == s@.len() - j);
        if j < n {
            assert(s@.skip(j as int)[0] == s@[j as int]);
        }
        assert(digit_run(s@.skip(j as int)) == 0);
    }
    j
}

/// The end of the run of hexadecimal digits that starts at `i`.
fn scan_hex_digits(s: &Vec<u8>, i: usize) -> (j: usize)
    requires
        i <= s@.len(),
    ensures
        i <= j <= s@.len(),
        j - i == hex_run(s@.skip(i as int)),
{
    let n = s.len();
    let mut j = i;
    while j < n && ((s[j] >= 0x30 && s[j] <= 0x39) || (s[j] >= 0x61 && s[j] <= 0x66) || (s[j]
        >= 0x41 && s[j] <= 0x46))
        invariant
            i <= j <= n,
            n == s@.len(),
            hex_run(s@.skip(i as int)) == (j - i) + hex_run(s@.skip(j as int)),
        decreases n - j,
    {
        proof {
            lemma_skip_skip(s@, j as int, 1);
            assert(s@.skip(j as int)[0] == s@[j as int]);
            assert(hex_run(s@.skip(j as int)) == 1 + hex_run(s@.skip(j + 1)));
        }
        j = j + 1;
    }
    proof {
        assert(s@.skip(j as int).len() == s@.len() - j);
        if j < n {
            assert(s@.skip(j as int)[0] == s@[j as int]);
        }
        assert(hex_run(s@.skip(j as int)) == 0);
    }
    j
}

/// A decimal octet of an IPv4 literal: one to three digits, no leading zero
/// unless the octet is `0` itself, value at most 255. Yields the value and
/// the number of bytes consumed.
pub open spec fn spec_octet(s: Seq<u8>) -> Option<(u8, int)> {
    let n = digit_run(s);
    if 1 <= n && n <= 3 && !(n > 1 && s[0] == 0x30) && dec_value(s, n) <= 255 {
        Some(((dec_value(s, n) as u8), n))
    } else {
        None
    }
}

/// A port numeral: at least one digit, leading zeros permitted, value at
/// most 65535. Yields the value and the number of bytes consumed.
pub open spec fn spec_port(s: Seq<u8>) -> Option<(u16, int)> {
    let n = digit_run(s);
    if n >= 1 && dec_value(s, n) <= 65535 {
        Some(((dec_value(s, n) as u16), n))
    } else {
        None
    }
}

/// One hexadecimal group of an IPv6 literal: one to four hex digits, leading
/// zeros permitted. Yields the value and the number of bytes consumed.
pub open spec fn spec_group(s: Seq<u8>) -> Option<(u16, int)> {
    let n = hex_run(s);
    if 1 <= n && n <= 4 {
        Some(((hex_value(s, n) as u16), n))
    } else {
        None
    }
}

proof fn lemma_dec_value_small(t: Seq<u8>, n: int)
    requires
        0 <= n <= 3,
        n <= t.len(),
        forall|k: int| 0 <= k < n ==> is_ascii_digit(t[k]),
    ensures
        0 <= dec_value(t, n) <= 999,
{
    assert(dec_value(t, 0) == 0);
    if n >= 1 {
        assert(dec_value(t, 1) == digit_value(t[0]));
    }
    if n >= 2 {
        assert(dec_value(t, 2) == dec_value(t, 1) * 10 + digit_value(t[1]));
    }
    if n >= 3 {
        assert(dec_value(t, 3) == dec_value(t, 2) * 10 + digit_value(t[2]));
    }
}

/// The value of the digit run `s[i..j]`, or `None` when it exceeds 65535.
fn dec_run_value(s: &Vec<u8>, i: usize, j: usize) -> (r: Option<u16>)
    requires
        i <= j <= s@.len(),
        forall|k: int| 0 <= k < j - i ==> is_ascii_digit(s@.skip(i as int)[k]),
    ensures
        dec_value(s@.skip(i as int), j - i) <= 65535 ==> r == Some(
            (dec_value(s@.skip(i as int), j - i) as u16),
        ),
        dec_value(s@.skip(i as int), j - i) > 65535 ==> r is None,
{
    let ghost t = s@.skip(i as int);
    let mut acc: u16 = 0;
    let mut big: bool = false;
    let mut k: usize = i;
    while k < j
        invariant
            i <= k <= j <= s@.len(),
            t == s@.skip(i as int),
            forall|m: int| 0 <= m < j - i ==> is_ascii_digit(t[m]),
            !big ==> acc as int == dec_value(t, k - i) && acc <= 65535,
            big ==> dec_value(t, k - i) > 65535,
        decreases j - k,
    {
        proof {
            assert(t[k - i] == s@[k as int]);
        }
        let d = s[k] - 0x30;
        proof {
            assert(dec_value(t, k - i + 1) == dec_value(t, k - i) * 10 + digit_value(
                t[k - i],
            ));
        }
        if big || acc > 6553 || (acc == 6553 && d > 5) {
            big = true;
        } else {
            acc = acc * 10 + (d as u16);
        }
        k = k + 1;
    }
    if big {
        None
    } else {
        Some(acc)
    }
}

/// The value of the hexadecimal run `s[i..j]` of at most four digits.
fn hex_run_value(s: &Vec<u8>, i: usize, j: usize) -> (r: u16)
    requires
        i <= j <= s@.len(),
        j - i <= 4,
        forall|k: int| 0 <= k < j - i ==> is_hex_digit(s@.skip(i as int)[k]),
    ensures
        r as int == hex_value(s@.skip(i as int), j - i),
{
    let ghost t = s@.skip(i as int);
    let mut acc: u16 = 0;
    let mut k: usize = i;
    while k < j
        invariant
            i <= k <= j <= s@.len(),
            j - i <= 4,
            t == s@.skip(i as int),
            forall|m: int| 0 <= m < j - i ==> is_hex_digit(t[m]),
            acc as int == hex_value(t, k - i),
            acc as int <= (if k - i == 0 {
                0int
            } else if k - i == 1 {
                0xfint
            } else if k - i == 2 {
                0xffint
            } else if k - i == 3 {
                0xfffint
            } else {
                0xffffint
            }),
        decreases j - k,
    {
        proof {
            assert(t[k - i] == s@[k as int]);
        }
        let b = s[k];
        let d: u16 = if b <= 0x39 {
            (b - 0x30) as u16
        } else if b >= 0x61 {
            (b - 0x61 + 10) as u16
        } else {
            (b - 0x41 + 10) as u16
        };
        proof {
            assert(d as int == hex_digit_value(t[k - i]));
            assert(hex_value(t, k - i + 1) == hex_value(t, k - i) * 16 + hex_digit_value(
                t[k - i],
            ));
        }
        acc = acc * 16 + d;
        k = k + 1;
    }
    acc
}

/// The decimal octet starting at `i`, and the index just past it.
fn parse_octet_at(s: &Vec<u8>, i: usize) -> (r: Option<(u8, usize)>)
    requires
        i <= s@.len(),
    ensures
        spec_octet(s@.skip(i as int)) is None ==> r is None,
        spec_octet(s@.skip(i as int)) matches Some(p) ==> r matches Some(q) && q.0 == p.0
            && q.1 == i + p.1,
        r matches Some(q) ==> i <= q.1 <= s@.len(),
{
    let ghost t = s@.skip(i as int);
    proof {
        lemma_run_digits(t);
    }
    let j = scan_digits(s, i);
    let n = j - i;
    if n < 1 || n > 3 {
        return None;
    }
    if n > 1 && s[i] == 0x30 {
        proof {
            assert(t[0] == s@[i as int]);
        }
        return None;
    }
    proof {
        assert(t[0] == s@[i as int]);
        lemma_dec_value_small(t, n as int);
    }
    let v = match dec_run_value(s, i, j) {
        Some(v) => v,
        None => {
            assert(false);
            0
        },
    };
    if v <= 255 {
        Some(((v as u8), j))
    } else {
        None
    }
}

/// The port numeral starting at `i`, and the index just past it.
fn parse_port_at(s: &Vec<u8>, i: usize) -> (r: Option<(u16, usize)>)
    requires
        i <= s@.len(),
    ensures
        spec_port(s@.skip(i as int)) is None ==> r is None,
        spec_port(s@.skip(i as int)) matches Some(p) ==> r matches Some(q) && q.0 == p.0
            && q.1 == i + p.1,
        r matches Some(q) ==> i <= q.1 <= s@.len(),
{
    let ghost t = s@.skip(i as int);
    proof {
        lemma_run_digits(t);
    }
    let j = scan_digits(s, i);
    let n = j - i;
    if n < 1 {
        return None;
    }
    match dec_run_value(s, i, j) {
        Some(v) => Some((v, j)),
        None => None,
    }
}

/// The hexadecimal group starting at `i`, and the index just past it.
fn parse_group_at(s: &Vec<u8>, i: usize) -> (r: Option<(u16, usize)>)
    requires
        i <= s@.len(),
    ensures
        spec_group(s@.skip(i as int)) is None ==> r is None,
        spec_group(s@.skip(i as int)) matches Some(p) ==> r matches Some(q) && q.0 == p.0
            && q.1 == i + p.1,
        r matches Some(q) ==> i <= q.1 <= s@.len(),
{
    let ghost t = s@.skip(i as int);
    proof {
        lemma_run_digits(t);
    }
    let j = scan_hex_digits(s, i);
    let n = j - i;
    if n < 1 || n > 4 {
        return None;
    }
    let v = hex_run_value(s, i, j);
    Some((v, j))
}

/// A dotted-decimal IPv4 literal: four octets separated by `.` (0x2E).
/// Yields the octets and the number of bytes consumed.
pub open spec fn spec_ipv4(s: Seq<u8>) -> Option<((u8, u8, u8, u8), int)> {
    match spec_octet(s) {
        None => None,
        Some((a, n1)) => {
            let s1 = s.skip(n1);
            if s1.len() >= 1 && s1[0] == 0x2E {
                match spec_octet(s1.skip(1)) {
                    None => None,
                    Some((b, n2)) => {
                        let s2 = s1.skip(1 + n2);
                        if s2.len() >= 1 && s2[0] == 0x2E {
                            match spec_octet(s2.skip(1)) {
                                None => None,
                                Some((c, n3)) => {
                                    let s3 = s2.skip(1 + n3);
                                    if s3.len() >= 1 && s3[0] == 0x2E {
                                        match spec_octet(s3.skip(1)) {
                                            None => None,
                                            Some((d, n4)) => Some(
                                                ((a, b, c, d), n1 + 1 + n2 + 1 + n3 + 1 + n4),
                                            ),
                                        }
                                    } else {
                                        None
                                    }
                                },
                            }
                        } else {
                            None
                        }
                    },
                }
            } else {
                None
            }
        },
    }
}

/// Up to `limit - idx` further colon-separated hexadecimal groups, a `:`
/// (0x3A) before each group except the first (`idx` counts the groups already
/// read). Where at least two slots remain, a trailing dotted-decimal IPv4
/// literal may stand in place of the last two groups; it ends the reading.
/// Yields the groups read, the number of bytes consumed, and whether reading
/// ended on such an embedded IPv4 literal; reading stops, consuming nothing
/// further, at the first position where no separator-and-group follows.
pub open spec fn spec_groups(s: Seq<u8>, idx: int, limit: int) -> (Seq<u16>, int, bool)
    decreases limit - idx,
{
    if idx >= limit {
        (Seq::empty(), 0, false)
    } else if idx > 0 && !(s.len() >= 1 && s[0] == 0x3A) {
        (Seq::empty(), 0, false)
    } else {
        let sep: int = if idx == 0 {
            0
        } else {
            1
        };
        if limit - idx >= 2 && spec_ipv4(s.skip(sep)) is Some {
            let (o, n) = spec_ipv4(s.skip(sep)).unwrap();
            (
                seq![((o.0 as u16) * 256 + (o.1 as u16)) as u16, ((o.2 as u16) * 256 + (o.3 as u16)) as u16],
                sep + n,
                true,
            )
        } else {
            match spec_group(s.skip(sep)) {
                None => (Seq::empty(), 0, false),
                Some((g, n)) => {
                    let rest = spec_groups(s.skip(sep + n), idx + 1, limit);
                    (seq![g] + rest.0, sep + n + rest.1, rest.2)
                },
            }
        }
    }
}

/// `n` all-zero groups.
pub open spec fn zero_groups(n: int) -> Seq<u16> {
    Seq::new(n as nat, |k: int| 0u16)
}

/// A bracketless IPv6 literal: eight hexadecimal groups, or fewer with one
/// `::` standing for the omitted all-zero groups (at least one); the last two
/// groups may be written as an embedded dotted-decimal IPv4 literal. Yields
/// the eight groups and the number of bytes consumed.
pub open spec fn spec_ipv6(s: Seq<u8>) -> Option<(Seq<u16>, int)> {
    let head = spec_groups(s, 0, 8);
    if head.0.len() == 8 {
        Some((head.0, head.1))
    } else if head.2 {
        None
    } else {
        let t = s.skip(head.1);
        if t.len() >= 2 && t[0] == 0x3A && t[1] == 0x3A {
            let tail = spec_groups(t.skip(2), 0, 8 - head.0.len() - 1);
            Some(
                (
                    head.0 + zero_groups(8 - head.0.len() - tail.0.len()) + tail.0,
                    head.1 + 2 + tail.1,
                ),
            )
        } else {
            None
        }
    }
}

/// A whole socket-address literal: either `a.b.c.d:port`, or `[ipv6]:port`
/// with the bracketed form required for IPv6; nothing may follow the port.
pub open spec fn spec_socket_address(s: Seq<u8>) -> Option<SocketAddress> {
    if s.len() >= 1 && s[0] == 0x5B {
        match spec_ipv6(s.skip(1)) {
            None => None,
            Some((gs, n)) => {
                let t = s.skip(1 + n);
                if t.len() >= 2 && t[0] == 0x5D && t[1] == 0x3A {
                    match spec_port(t.skip(2)) {
                        None => None,
                        Some((p, m)) => {
                            if t.len() == 2 + m {
                                Some(
                                    SocketAddress {
                                        ip: IpAddress::V6 {
                                            g0: gs[0],
                                            g1: gs[1],
                                            g2: gs[2],
                                            g3: gs[3],
                                            g4: gs[4],
                                            g5: gs[5],
                                            g6: gs[6],
                                            g7: gs[7],
                                        },
                                        port: p,
                                    },
                                )
                            } else {
                                None
                            }
                        },
                    }
                } else {
                    None
                }
            },
        }
    } else {
        match spec_ipv4(s) {
            None => None,
            Some((o, n)) => {
                let t = s.skip(n);
                if t.len() >= 1 && t[0] == 0x3A {
                    match spec_port(t.skip(1)) {
                        None => None,
                        Some((p, m)) => {
                            if t.len() == 1 + m {
                                Some(
                                    SocketAddress {
                                        ip: IpAddress::V4 { a: o.0, b: o.1, c: o.2, d: o.3 },
                                        port: p,
                                    },
                                )
                            } else {
                                None
                            }
                        },
                    }
                } else {
                    None
                }
            },
        }
    }
}

/// A byte sequence without any `.` (0x2E) holds no dotted-decimal IPv4
/// literal.
pub proof fn lemma_ipv4_needs_dot(s: Seq<u8>)
    requires
        forall|k: int| 0 <= k < s.len() ==> s[k] != 0x2E,
    ensures
        spec_ipv4(s) is None,
{
    lemma_runs_bounded(s);
    match spec_octet(s) {
        None => {},
        Some((a, n1)) => {
            let s1 = s.skip(n1);
            if s1.len() >= 1 {
                assert(s1[0] == s[n1]);
            }
        },
    }
}

/// The dotted-decimal IPv4 literal starting at `i`, and the index just past
/// it.
fn parse_ipv4_at(s: &Vec<u8>, i: usize) -> (r: Option<((u8, u8, u8, u8), usize)>)
    requires
        i <= s@.len(),
    ensures
        spec_ipv4(s@.skip(i as int)) is None ==> r is None,
        spec_ipv4(s@.skip(i as int)) matches Some(p) ==> r matches Some(q) && q.0 == p.0
            && q.1 == i + p.1,
        r matches Some(q) ==> i <= q.1 <= s@.len(),
{
    let ghost t = s@.skip(i as int);
    let (a, i1) = match parse_octet_at(s, i) {
        Some(x) => x,
        None => {
            return None;
        },
    };
    proof {
        lemma_skip_skip(s@, i as int, i1 - i);
    }
    if !(i1 < s.len() && s[i1] == 0x2E) {
        proof {
            if i1 < s@.len() {
                assert(s@.skip(i1 as int)[0] == s@[i1 as int]);
            }
        }
        return None;
    }
    proof {
        assert(s@.skip(i1 as int)[0] == s@[i1 as int]);
        lemma_skip_skip(s@, i1 as int, 1);
    }
    let (b, i2) = match parse_octet_at(s, i1 + 1) {
        Some(x) => x,
        None => {
            return None;
        },
    };
    proof {
        lemma_skip_skip(s@, i1 as int, i2 - i1);
    }
    if !(i2 < s.len() && s[i2] == 0x2E) {
        proof {
            if i2 < s@.len() {
                assert(s@.skip(i2 as int)[0] == s@[i2 as int]);
            }
        }
        return None;
    }
    proof {
        assert(s@.skip(i2 as int)[0] == s@[i2 as int]);
        lemma_skip_skip(s@, i2 as int, 1);
    }
    let (c, i3) = match parse_octet_at(s, i2 + 1) {
        Some(x) => x,
        None => {
            return None;
        },
    };
    proof {
        lemma_skip_skip(s@, i2 as int, i3 - i2);
    }
    if !(i3 < s.len() && s[i3] == 0x2E) {
        proof {
            if i3 < s@.len() {
                assert(s@.skip(i3 as int)[0] == s@[i3 as int]);
            }
        }
        return None;
    }
    proof {
        assert(s@.skip(i3 as int)[0] == s@[i3 as int]);
        lemma_skip_skip(s@, i3 as int, 1);
    }
    let (d, i4) = match parse_octet_at(s, i3 + 1) {
        Some(x) => x,
        None => {
            return None;
        },
    };
    proof {
        lemma_skip_skip(s@, i3 as int, i4 - i3);
    }
    Some(((a, b, c, d), i4))
}

/// Reads colon-separated hexadecimal groups starting at `i` into `out`, at
/// most `limit` of them; returns the index just past what was read and
/// whether reading ended on an embedded IPv4 literal.
#[verifier::rlimit(80)]
fn parse_groups_at(s: &Vec<u8>, i: usize, limit: usize, out: &mut Vec<u16>) -> (r: (usize, bool))
    requires
        i <= s@.len(),
        limit <= 8,
        old(out)@.len() == 0,
    ensures
        i <= r.0 <= s@.len(),
        final(out)@ == spec_groups(s@.skip(i as int), 0, limit as int).0,
        final(out)@.len() <= limit,
        r.0 - i == spec_groups(s@.skip(i as int), 0, limit as int).1,
        r.1 == spec_groups(s@.skip(i as int), 0, limit as int).2,
{
    let ghost t0 = s@.skip(i as int);
    let mut cur = i;
    let mut idx: usize = 0;
    while idx < limit
        invariant
            i <= cur <= s@.len(),
            idx <= limit <= 8,
            idx == out@.len(),
            t0 == s@.skip(i as int),
            spec_groups(t0, 0, limit as int).0 == out@ + spec_groups(
                s@.skip(cur as int),
                idx as int,
                limit as int,
            ).0,
            spec_groups(t0, 0, limit as int).1 == (cur - i) + spec_groups(
                s@.skip(cur as int),
                idx as int,
                limit as int,
            ).1,
            spec_groups(t0, 0, limit as int).2 == spec_groups(
                s@.skip(cur as int),
                idx as int,
                limit as int,
            ).2,
        decreases limit - idx,
    {
        let ghost u = s@.skip(cur as int);
        let sep: usize = if idx == 0 {
            0
        } else {
            1
        };
        if idx > 0 && !(cur < s.len() && s[cur] == 0x3A) {
            proof {
                if cur < s@.len() {
                    assert(u[0] == s@[cur as int]);
                }
                assert(spec_groups(u, idx as int, limit as int) == (
                    Seq::<u16>::empty(),
                    0int,
                    false,
                ));
                assert(out@ + Seq::<u16>::empty() =~= out@);
            }
            return (cur, false);
        }
        proof {
            if idx > 0 {
                assert(u[0] == s@[cur as int]);
            }
            lemma_skip_skip(s@, cur as int, sep as int);
        }
        if limit - idx >= 2 {
            match parse_ipv4_at(s, cur + sep) {
                Some(((a4, b4, c4, d4), nxt)) => {
                    let hi = (a4 as u16) * 256 + (b4 as u16);
                    let lo = (c4 as u16) * 256 + (d4 as u16);
                    let ghost n = nxt - (cur + sep);
                    let ghost prefix = out@;
                    proof {
                        assert(spec_groups(u, idx as int, limit as int) == (
                            seq![hi, lo],
                            sep + n,
                            true,
                        ));
                    }
                    out.push(hi);
                    out.push(lo);
                    proof {
                        assert(out@ =~= prefix + seq![hi, lo]);
                    }
                    return (nxt, true);
                },
                None => {},
            }
        }
        match parse_group_at(s, cur + sep) {
            None => {
                proof {
                    assert(spec_groups(u, idx as int, limit as int) == (
                        Seq::<u16>::empty(),
                        0int,
                        false,
                    ));
                    assert(out@ + Seq::<u16>::empty() =~= out@);
                }
                return (cur, false);
            },
            Some((g, nxt)) => {
                let ghost n = nxt - (cur + sep);
                proof {
                    lemma_skip_skip(s@, cur as int, sep + n);
                    let rest = spec_groups(s@.skip(nxt as int), idx + 1, limit as int);
                    assert(spec_groups(u, idx as int, limit as int) == (
                        seq![g] + rest.0,
                        sep + n + rest.1,
                        rest.2,
                    ));
                    assert(out@ + (seq![g] + rest.0) =~= out@.push(g) + rest.0);
                }
                out.push(g);
                cur = nxt;
                idx = idx + 1;
            },
        }
    }
    proof {
        assert(spec_groups(s@.skip(cur as int), idx as int, limit as int) == (
            Seq::<u16>::empty(),
            0int,
            false,
        ));
        assert(out@ + Seq::<u16>::empty() =~= out@);
    }
    (cur, false)
}

/// The bracketless IPv6 literal starting at `i`: its eight groups and the
/// index just past it.
fn parse_ipv6_at(s: &Vec<u8>, i: usize) -> (r: Option<(Vec<u16>, usize)>)
    requires
        i <= s@.len(),
    ensures
        spec_ipv6(s@.skip(i as int)) is None ==> r is None,
        spec_ipv6(s@.skip(i as int)) matches Some(p) ==> r matches Some(q) && q.0@ == p.0 && q.1
            == i + p.1 && q.0@.len() == 8,
        r matches Some(q) ==> i <= q.1 <= s@.len(),
{
    let ghost t = s@.skip(i as int);
    let mut head: Vec<u16> = Vec::new();
    let (j, embedded) = parse_groups_at(s, i, 8, &mut head);
    let ghost hspec = spec_groups(t, 0, 8);
    if head.len() == 8 {
        return Some((head, j));
    }
    if embedded {
        return None;
    }
    proof {
        lemma_skip_skip(s@, i as int, j - i);
    }
    if !(j < s.len() && s[j] == 0x3A && j + 1 < s.len() && s[j + 1] == 0x3A) {
        proof {
            let u = t.skip(j - i);
            assert(u.len() == s@.len() - j);
            if j < s@.len() {
                assert(u[0] == s@[j as int]);
            }
            if j + 1 < s@.len() {
                assert(u[1] == s@[j + 1]);
            }
        }
        return None;
    }
    proof {
        let u = t.skip(j - i);
        assert(u[0] == s@[j as int]);
        assert(u[1] == s@[j + 1]);
        lemma_skip_skip(s@, i as int, j + 2 - i);
        lemma_skip_skip(s@, j as int, 2);
    }
    let limit = 8 - head.len() - 1;
    let mut tail: Vec<u16> = Vec::new();
    let (q, _) = parse_groups_at(s, j + 2, limit, &mut tail);
    let ghost tspec = spec_groups(s@.skip(j + 2), 0, limit as int);
    let zcount = 8 - head.len() - tail.len();
    let mut groups = head;
    let mut z: usize = 0;
    while z < zcount
        invariant
            z <= zcount,
            groups@ == hspec.0 + zero_groups(z as int),
        decreases zcount - z,
    {
        proof {
            assert(hspec.0 + zero_groups(z + 1) =~= (hspec.0 + zero_groups(z as int)).push(
                0u16,
            ));
        }
        groups.push(0);
        z = z + 1;
    }
    let mut m: usize = 0;
    let tail_len = tail.len();
    while m < tail_len
        invariant
            m <= tail_len,
            tail_len == tail@.len(),
            tail@ == tspec.0,
            groups@ == hspec.0 + zero_groups(zcount as int) + tspec.0.take(m as int),
        decreases tail_len - m,
    {
        proof {
            assert(hspec.0 + zero_groups(zcount as int) + tspec.0.take(m + 1) =~= (hspec.0
                + zero_groups(zcount as int) + tspec.0.take(m as int)).push(tspec.0[m as int]));
        }
        let gm = tail[m];
        groups.push(gm);
        m = m + 1;
    }
    proof {
        assert(tspec.0.take(tspec.0.len() as int) =~= tspec.0);
    }
    Some((groups, q))
}

/// Parses one whole socket-address literal; returns `None` exactly when the
/// bytes do not form one.
pub fn parse_socket_address(s: &Vec<u8>) -> (r: Option<SocketAddress>)
    ensures
        r == spec_socket_address(s@),
{
    proof {
        assert(s@.skip(0) =~= s@);
    }
    if s.len() >= 1 && s[0] == 0x5B {
        proof {
            lemma_skip_skip(s@, 0, 1);
        }
        let (groups, j) = match parse_ipv6_at(s, 1) {
            Some(x) => x,
            None => {
                return None;
            },
        };
        let ghost n = j - 1;
        proof {
            lemma_skip_skip(s@, 1, n);
        }
        let ghost t = s@.skip(j as int);
        if !(j < s.len() && s[j] == 0x5D && j + 1 < s.len() && s[j + 1] == 0x3A) {
            proof {
                assert(t.len() == s@.len() - j);
                if j < s@.len() {
                    assert(t[0] == s@[j as int]);
                }
                if j + 1 < s@.len() {
                    assert(t[1] == s@[j + 1]);
                }
            }
            return None;
        }
        proof {
            assert(t[0] == s@[j as int]);
            assert(t[1] == s@[j + 1]);
            lemma_skip_skip(s@, j as int, 2);
        }
        let (port, e) = match parse_port_at(s, j + 2) {
            Some(x) => x,
            None => {
                return None;
            },
        };
        if e != s.len() {
            return None;
        }
        Some(
            SocketAddress {
                ip: IpAddress::V6 {
                    g0: groups[0],
                    g1: groups[1],
                    g2: groups[2],
                    g3: groups[3],
                    g4: groups[4],
                    g5: groups[5],
                    g6: groups[6],
                    g7: groups[7],
                },
                port,
            },
        )
    } else {
        let (o, j) = match parse_ipv4_at(s, 0) {
            Some(x) => x,
            None => {
                return None;
            },
        };
        let ghost t = s@.skip(j as int);
        if !(j < s.len() && s[j] == 0x3A) {
            proof {
                assert(t.len() == s@.len() - j);
                if j < s@.len() {
                    assert(t[0] == s@[j as int]);
                }
            }
            return None;
        }
        proof {
            assert(t[0] == s@[j as int]);
            lemma_skip_skip(s@, j as int, 1);
        }
        let (port, e) = match parse_port_at(s, j + 1) {
            Some(x) => x,
            None => {
                return None;
            },
        };
        if e != s.len() {
            return None;
        }
        Some(SocketAddress { ip: IpAddress::V4 { a: o.0, b: o.1, c: o.2, d: o.3 }, port })
    }
}

} // verus!
