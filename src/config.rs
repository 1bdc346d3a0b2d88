use vstd::prelude::*;
use vstd::utf8::encode_utf8;

verus! {

/// Port on which the service listens when no address is configured.
pub const DEFAULT_PORT: u16 = 3000;

/// A socket address: an IPv4 host and port, or an IPv6 host (its 128 bits,
/// first segment highest), scope id and port.
#[derive(Clone, Copy, Debug, PartialEq, Eq, Structural)]
pub enum SocketAddress {
    V4 { a: u8, b: u8, c: u8, d: u8, port: u16 },
    V6 { ip: u128, scope_id: u32, port: u16 },
}

/// The value of `c` as a digit in base `radix` (10 or 16, either case).
pub open spec fn digit_of(c: u8, radix: nat) -> Option<nat> {
    if 48 <= c && c <= 57 {
        Some((c - 48) as nat)
    } else if radix == 16 && 97 <= c && c <= 102 {
        Some((c - 87) as nat)
    } else if radix == 16 && 65 <= c && c <= 70 {
        Some((c - 55) as nat)
    } else {
        None
    }
}

pub open spec fn digit_val(c: u8, radix: nat) -> nat {
    match digit_of(c, radix) {
        Some(d) => d,
        None => 0,
    }
}

/// The end of the run of digits that starts at `p`.
pub open spec fn digit_run_end(s: Seq<u8>, p: int, radix: nat) -> int
    decreases s.len() - p,
{
    if p < 0 || p >= s.len() || digit_of(s[p], radix) is None {
        p
    } else {
        digit_run_end(s, p + 1, radix)
    }
}

/// The number that the digits `s[p..q]` denote.
pub open spec fn run_value(s: Seq<u8>, p: int, q: int, radix: nat) -> nat
    decreases q - p,
{
    if q <= p {
        0
    } else {
        run_value(s, p, q - 1, radix) * radix + digit_val(s[q - 1], radix)
    }
}

/// The number written at `p` and the position after it: at least one digit,
/// at most `max_digits` of them (0: no bound), no leading zero unless
/// `zero_prefix_ok`, and a value at most `max`.
pub open spec fn read_number(
    s: Seq<u8>,
    p: int,
    radix: nat,
    max_digits: nat,
    zero_prefix_ok: bool,
    max: nat,
) -> Option<(nat, int)> {
    let q = digit_run_end(s, p, radix);
    if q <= p || (max_digits > 0 && q - p > max_digits) || (!zero_prefix_ok && s[p] == 48 && q
        - p > 1) || run_value(s, p, q, radix) > max {
        None
    } else {
        Some((run_value(s, p, q, radix), q))
    }
}

/// The position after the character `c` at `p`, if it stands there.
pub open spec fn after_char(s: Seq<u8>, p: int, c: u8) -> Option<int> {
    if 0 <= p < s.len() && s[p] == c {
        Some(p + 1)
    } else {
        None
    }
}

pub open spec fn read_octet(s: Seq<u8>, p: int) -> Option<(nat, int)> {
    read_number(s, p, 10, 3, false, 255)
}

pub open spec fn read_dot_octet(s: Seq<u8>, p: int) -> Option<(nat, int)> {
    match after_char(s, p, 46) {
        Some(q) => read_octet(s, q),
        None => None,
    }
}

/// The IPv4 address `a.b.c.d` written at `p`, and the position after it.
pub open spec fn read_ipv4(s: Seq<u8>, p: int) -> Option<(nat, nat, nat, nat, int)> {
    match read_octet(s, p) {
        None => None,
        Some((a, p1)) => match read_dot_octet(s, p1) {
            None => None,
            Some((b, p2)) => match read_dot_octet(s, p2) {
                None => None,
                Some((c, p3)) => match read_dot_octet(s, p3) {
                    None => None,
                    Some((d, p4)) => Some((a, b, c, d, p4)),
                },
            },
        },
    }
}

/// Reads up to `limit - i` more groups of an IPv6 address from `p`; group `i`
/// follows a `:` unless it is the first. A group is one to four hex digits,
/// or, while two slots are left, an IPv4 address that fills both and ends
/// the run. Gives the groups, whether an IPv4 address ended them, and the
/// position after the last one read.
pub open spec fn read_groups(s: Seq<u8>, p: int, i: nat, limit: nat) -> (Seq<u16>, bool, int)
    decreases limit - i,
{
    if i >= limit {
        (Seq::empty(), false, p)
    } else {
        let start = if i > 0 {
            after_char(s, p, 58)
        } else {
            Some(p)
        };
        match start {
            None => (Seq::empty(), false, p),
            Some(q) => {
                let v4 = if i + 1 < limit {
                    read_ipv4(s, q)
                } else {
                    None
                };
                match v4 {
                    Some((a, b, c, d, r)) => (
                        seq![(a * 256 + b) as u16, (c * 256 + d) as u16],
                        true,
                        r,
                    ),
                    None => match read_number(s, q, 16, 4, true, 65535) {
                        None => (Seq::empty(), false, p),
                        Some((g, r)) => {
                            let rest = read_groups(s, r, i + 1, limit);
                            (seq![g as u16] + rest.0, rest.1, rest.2)
                        },
                    },
                }
            },
        }
    }
}

/// The eight segments of the IPv6 address written at `p`, and the position
/// after it: eight groups, or fewer around one `::` that stands for at least
/// one zero segment; an IPv4 tail only at the very end.
pub open spec fn read_ipv6(s: Seq<u8>, p: int) -> Option<(Seq<u16>, int)> {
    let head = read_groups(s, p, 0, 8);
    if head.0.len() == 8 {
        Some((head.0, head.2))
    } else if head.1 {
        None
    } else {
        match after_char(s, head.2, 58) {
            None => None,
            Some(q1) => match after_char(s, q1, 58) {
                None => None,
                Some(q2) => {
                    let tail = read_groups(s, q2, 0, (7 - head.0.len()) as nat);
                    Some(
                        (
                            head.0 + Seq::new((8 - head.0.len() - tail.0.len()) as nat, |k: int| 0u16)
                                + tail.0,
                            tail.2,
                        ),
                    )
                },
            },
        }
    }
}

/// The number whose base-65536 digits are `segs`, first highest.
pub open spec fn segments_value(segs: Seq<u16>) -> nat
    decreases segs.len(),
{
    if segs.len() == 0 {
        0
    } else {
        segments_value(segs.drop_last()) * 65536 + segs.last() as nat
    }
}

pub open spec fn read_port(s: Seq<u8>, p: int) -> Option<(nat, int)> {
    match after_char(s, p, 58) {
        Some(q) => read_number(s, q, 10, 0, true, 65535),
        None => None,
    }
}

/// `a.b.c.d:port`, all of `s`.
pub open spec fn parse_v4(s: Seq<u8>) -> Option<SocketAddress> {
    match read_ipv4(s, 0) {
        None => None,
        Some((a, b, c, d, p1)) => match read_port(s, p1) {
            Some((port, p2)) => if p2 == s.len() {
                Some(SocketAddress::V4 { a: a as u8, b: b as u8, c: c as u8, d: d as u8, port: port as u16 })
            } else {
                None
            },
            None => None,
        },
    }
}

/// `[ipv6%scope]:port`, the scope optional, all of `s`.
pub open spec fn parse_v6(s: Seq<u8>) -> Option<SocketAddress> {
    match after_char(s, 0, 91) {
        None => None,
        Some(p0) => match read_ipv6(s, p0) {
            None => None,
            Some((segs, p1)) => {
                let scope = match after_char(s, p1, 37) {
                    Some(q) => match read_number(s, q, 10, 0, true, 0xffff_ffff) {
                        Some((v, r)) => (v, r),
                        None => (0nat, p1),
                    },
                    None => (0nat, p1),
                };
                match after_char(s, scope.1, 93) {
                    None => None,
                    Some(p3) => match read_port(s, p3) {
                        Some((port, p4)) => if p4 == s.len() {
                            Some(
                                SocketAddress::V6 {
                                    ip: segments_value(segs) as u128,
                                    scope_id: scope.0 as u32,
                                    port: port as u16,
                                },
                            )
                        } else {
                            None
                        },
                        None => None,
                    },
                }
            },
        },
    }
}

/// The socket address that `s` writes, if it writes one.
pub open spec fn parse_socket_address(s: Seq<u8>) -> Option<SocketAddress> {
    match parse_v4(s) {
        Some(a) => Some(a),
        None => parse_v6(s),
    }
}

pub open spec fn default_listen_spec() -> SocketAddress {
    SocketAddress::V4 { a: 0, b: 0, c: 0, d: 0, port: DEFAULT_PORT }
}

/// The wildcard address on the default port, `0.0.0.0:3000`.
pub fn default_listen() -> (r: SocketAddress)
    ensures
        r == default_listen_spec(),
{
    SocketAddress::V4 { a: 0, b: 0, c: 0, d: 0, port: DEFAULT_PORT }
}

fn digit_at(c: u8, radix: u64) -> (r: Option<u64>)
    requires
        radix == 10 || radix == 16,
    ensures
        match r {
            Some(d) => digit_of(c, radix as nat) == Some(d as nat) && d < radix,
            None => digit_of(c, radix as nat) is None,
        },
{
    if 48 <= c && c <= 57 {
        Some((c - 48) as u64)
    } else if radix == 16 && 97 <= c && c <= 102 {
        Some((c - 87) as u64)
    } else if radix == 16 && 65 <= c && c <= 70 {
        Some((c - 55) as u64)
    } else {
        None
    }
}

proof fn lemma_run_value_grows(s: Seq<u8>, p: int, i: int, q: int, radix: nat)
    requires
        p <= i <= q,
        radix >= 1,
    ensures
        run_value(s, p, i, radix) <= run_value(s, p, q, radix),
    decreases q - i,
{
    if i < q {
        lemma_run_value_grows(s, p, i, q - 1, radix);
        let v = run_value(s, p, q - 1, radix);
        assert(v * radix >= v) by (nonlinear_arith)
            requires
                radix >= 1,
        ;
    }
}

/// Reads a number at `p`, as `read_number` says.
fn read_number_at(
    b: &[u8],
    p: usize,
    radix: u64,
    max_digits: usize,
    zero_prefix_ok: bool,
    max: u64,
) -> (r: Option<(u64, usize)>)
    requires
        p <= b@.len(),
        radix == 10 || radix == 16,
        max <= 0xffff_ffff,
    ensures
        match r {
            Some((v, q)) => read_number(b@, p as int, radix as nat, max_digits as nat, zero_prefix_ok, max as nat)
                == Some((v as nat, q as int)) && q <= b@.len(),
            None => read_number(b@, p as int, radix as nat, max_digits as nat, zero_prefix_ok, max as nat) is None,
        },
{
    let ghost rd = radix as nat;
    let mut q: usize = p;
    let mut going = true;
    while going && q < b.len()
        invariant
            p <= q <= b@.len(),
            radix == 10 || radix == 16,
            rd == radix as nat,
            going ==> digit_run_end(b@, p as int, rd) == digit_run_end(b@, q as int, rd),
            !going ==> digit_run_end(b@, p as int, rd) == q,
            forall|j: int| p <= j < q ==> digit_of(#[trigger] b@[j], rd) is Some,
        decreases b@.len() - q + (if going { 1int } else { 0int }),
    {
        let ch = b[q];
        let dg = digit_at(ch, radix);
        assert(ch == b@[q as int]);
        match dg {
            Some(_) => {
                assert(digit_of(b@[q as int], rd) is Some);
                q = q + 1;
            },
            None => {
                going = false;
            },
        }
    }
    if q == p {
        return None;
    }
    if max_digits > 0 && q - p > max_digits {
        return None;
    }
    if !zero_prefix_ok && b[p] == 48 && q - p > 1 {
        return None;
    }
    let mut acc: u64 = 0;
    let mut i: usize = p;
    while i < q
        invariant
            p <= i <= q <= b@.len(),
            radix == 10 || radix == 16,
            rd == radix as nat,
            max <= 0xffff_ffff,
            q as int == digit_run_end(b@, p as int, rd),
            forall|j: int| p <= j < q ==> digit_of(#[trigger] b@[j], rd) is Some,
            acc as nat == run_value(b@, p as int, i as int, rd),
            acc <= max,
        decreases q - i,
    {
        let ch = b[i];
        assert(ch == b@[i as int]);
        let d = match digit_at(ch, radix) {
            Some(d) => d,
            None => 0,
        };
        assert(digit_of(b@[i as int], rd) is Some);
        assert(d as nat == digit_val(b@[i as int], rd));
        let next: u64 = acc * radix + d;
        if next > max {
            proof {
                lemma_run_value_grows(b@, p as int, i + 1, q as int, rd);
            }
            return None;
        }
        acc = next;
        i = i + 1;
    }
    Some((acc, q))
}

fn after_char_at(b: &[u8], p: usize, c: u8) -> (r: Option<usize>)
    requires
        p <= b@.len(),
    ensures
        match r {
            Some(q) => after_char(b@, p as int, c) == Some(q as int) && q <= b@.len(),
            None => after_char(b@, p as int, c) is None,
        },
{
    if p < b.len() && b[p] == c {
        Some(p + 1)
    } else {
        None
    }
}

fn read_dot_octet_at(b: &[u8], p: usize) -> (r: Option<(u64, usize)>)
    requires
        p <= b@.len(),
    ensures
        match r {
            Some((v, q)) => read_dot_octet(b@, p as int) == Some((v as nat, q as int)) && q
                <= b@.len() && v <= 255,
            None => read_dot_octet(b@, p as int) is None,
        },
{
    match after_char_at(b, p, 46) {
        Some(q) => read_number_at(b, q, 10, 3, false, 255),
        None => None,
    }
}

fn read_ipv4_at(b: &[u8], p: usize) -> (r: Option<(u8, u8, u8, u8, usize)>)
    requires
        p <= b@.len(),
    ensures
        match r {
            Some((a, bb, c, d, q)) => read_ipv4(b@, p as int) == Some(
                (a as nat, bb as nat, c as nat, d as nat, q as int),
            ) && q <= b@.len(),
            None => read_ipv4(b@, p as int) is None,
        },
{
    let (a, p1) = match read_number_at(b, p, 10, 3, false, 255) {
        Some(x) => x,
        None => return None,
    };
    let (bb, p2) = match read_dot_octet_at(b, p1) {
        Some(x) => x,
        None => return None,
    };
    let (c, p3) = match read_dot_octet_at(b, p2) {
        Some(x) => x,
        None => return None,
    };
    let (d, p4) = match read_dot_octet_at(b, p3) {
        Some(x) => x,
        None => return None,
    };
    Some((a as u8, bb as u8, c as u8, d as u8, p4))
}

/// Reads groups as `read_groups(b@, p, 0, limit)` says.
fn read_groups_at(b: &[u8], p: usize, limit: usize) -> (r: (Vec<u16>, bool, usize))
    requires
        p <= b@.len(),
        limit <= 8,
    ensures
        (r.0@, r.1, r.2 as int) == read_groups(b@, p as int, 0, limit as nat),
        r.0@.len() <= limit,
        r.2 <= b@.len(),
{
    let mut groups: Vec<u16> = Vec::new();
    let mut pos: usize = p;
    let mut i: usize = 0;
    while i < limit
        invariant
            p <= pos <= b@.len(),
            i <= limit <= 8,
            groups@.len() == i,
            ({
                let rest = read_groups(b@, pos as int, i as nat, limit as nat);
                read_groups(b@, p as int, 0, limit as nat) == (groups@ + rest.0, rest.1, rest.2)
            }),
        decreases limit - i,
    {
        let ghost rest = read_groups(b@, pos as int, i as nat, limit as nat);
        let start = if i > 0 {
            after_char_at(b, pos, 58)
        } else {
            Some(pos)
        };
        let q = match start {
            Some(q) => q,
            None => {
                assert(groups@ + Seq::<u16>::empty() =~= groups@);
                return (groups, false, pos);
            },
        };
        if i + 1 < limit {
            match read_ipv4_at(b, q) {
                Some((a, bb, c, d, r)) => {
                    let ghost before = groups@;
                    let hi: u16 = (a as u16) * 256 + bb as u16;
                    let lo: u16 = (c as u16) * 256 + d as u16;
                    groups.push(hi);
                    groups.push(lo);
                    proof {
                        assert(rest == (seq![hi, lo], true, r as int));
                        assert(before + seq![hi, lo] =~= groups@);
                    }
                    return (groups, true, r);
                },
                None => {},
            }
        }
        match read_number_at(b, q, 16, 4, true, 65535) {
            None => {
                assert(groups@ + Seq::<u16>::empty() =~= groups@);
                return (groups, false, pos);
            },
            Some((g, r)) => {
                let ghost before = groups@;
                groups.push(g as u16);
                proof {
                    let more = read_groups(b@, r as int, (i + 1) as nat, limit as nat);
                    assert(rest == (seq![g as u16] + more.0, more.1, more.2));
                    assert(before + (seq![g as u16] + more.0) =~= groups@ + more.0);
                }
                pos = r;
                i = i + 1;
            },
        }
    }
    assert(groups@ + Seq::<u16>::empty() =~= groups@);
    (groups, false, pos)
}

proof fn lemma_segments_value_bound(segs: Seq<u16>)
    ensures
        segments_value(segs) < pow65536(segs.len()),
    decreases segs.len(),
{
    if segs.len() > 0 {
        lemma_segments_value_bound(segs.drop_last());
        let v = segments_value(segs.drop_last());
        let m = pow65536((segs.len() - 1) as nat);
        let l = segs.last() as nat;
        assert(v * 65536 + l < m * 65536) by (nonlinear_arith)
            requires
                v < m,
                l < 65536,
        ;
    }
}

pub open spec fn pow65536(n: nat) -> nat
    decreases n,
{
    if n == 0 {
        1
    } else {
        pow65536((n - 1) as nat) * 65536
    }
}

proof fn lemma_pow65536_mono(i: nat, j: nat)
    requires
        i <= j,
    ensures
        pow65536(i) <= pow65536(j),
    decreases j - i,
{
    if i < j {
        lemma_pow65536_mono(i, (j - 1) as nat);
        let m = pow65536((j - 1) as nat);
        assert(m * 65536 >= m) by (nonlinear_arith);
    }
}

proof fn lemma_pow65536_eight()
    ensures
        pow65536(8) == 0x1_0000_0000_0000_0000_0000_0000_0000_0000nat,
{
    assert(pow65536(0) == 1);
    assert(pow65536(1) == 0x1_0000nat);
    assert(pow65536(2) == 0x1_0000_0000nat);
    assert(pow65536(3) == 0x1_0000_0000_0000nat);
    assert(pow65536(4) == 0x1_0000_0000_0000_0000nat);
    assert(pow65536(5) == 0x1_0000_0000_0000_0000_0000nat);
    assert(pow65536(6) == 0x1_0000_0000_0000_0000_0000_0000nat);
    assert(pow65536(7) == 0x1_0000_0000_0000_0000_0000_0000_0000nat);
}

/// Reads an IPv6 address as `read_ipv6` says; its bits come as one number.
fn read_ipv6_at(b: &[u8], p: usize) -> (r: Option<(u128, usize)>)
    requires
        p <= b@.len(),
    ensures
        match r {
            Some((ip, q)) => match read_ipv6(b@, p as int) {
                Some((segs, q2)) => segments_value(segs) == ip as nat && q2 == q as int && q
                    <= b@.len(),
                None => false,
            },
            None => read_ipv6(b@, p as int) is None,
        },
{
    let (head, head_v4, p1) = read_groups_at(b, p, 8);
    let mut segs: Vec<u16> = Vec::new();
    let mut end: usize = p1;
    if head.len() == 8 {
        segs = head;
    } else if head_v4 {
        return None;
    } else {
        let q1 = match after_char_at(b, p1, 58) {
            Some(q) => q,
            None => return None,
        };
        let q2 = match after_char_at(b, q1, 58) {
            Some(q) => q,
            None => return None,
        };
        let (tail, _tail_v4, p2) = read_groups_at(b, q2, 7 - head.len());
        let zeros: usize = 8 - head.len() - tail.len();
        let mut k: usize = 0;
        while k < head.len()
            invariant
                k <= head@.len(),
                segs@ == head@.subrange(0, k as int),
            decreases head@.len() - k,
        {
            segs.push(head[k]);
            assert(segs@ =~= head@.subrange(0, k + 1));
            k = k + 1;
        }
        let ghost zseq = Seq::new(zeros as nat, |j: int| 0u16);
        let mut z: usize = 0;
        while z < zeros
            invariant
                z <= zeros,
                head@.len() <= 8,
                segs@ == head@ + Seq::new(z as nat, |j: int| 0u16),
            decreases zeros - z,
        {
            segs.push(0u16);
            assert(segs@ =~= head@ + Seq::new((z + 1) as nat, |j: int| 0u16));
            z = z + 1;
        }
        let mut t: usize = 0;
        while t < tail.len()
            invariant
                t <= tail@.len(),
                segs@ == head@ + zseq + tail@.subrange(0, t as int),
            decreases tail@.len() - t,
        {
            segs.push(tail[t]);
            assert(segs@ =~= head@ + zseq + tail@.subrange(0, t + 1));
            t = t + 1;
        }
        assert(tail@.subrange(0, tail@.len() as int) =~= tail@);
        end = p2;
    }
    assert(segs@.len() == 8);
    let mut ip: u128 = 0;
    let mut j: usize = 0;
    while j < 8
        invariant
            j <= 8,
            segs@.len() == 8,
            ip as nat == segments_value(segs@.subrange(0, j as int)),
        decreases 8 - j,
    {
        proof {
            let pre = segs@.subrange(0, j + 1);
            assert(pre.drop_last() =~= segs@.subrange(0, j as int));
            lemma_segments_value_bound(pre);
            lemma_pow65536_mono((j + 1) as nat, 8);
            lemma_pow65536_eight();
        }
        ip = ip * 65536 + segs[j] as u128;
        j = j + 1;
    }
    assert(segs@.subrange(0, 8) =~= segs@);
    Some((ip, end))
}

fn read_port_at(b: &[u8], p: usize) -> (r: Option<(u64, usize)>)
    requires
        p <= b@.len(),
    ensures
        match r {
            Some((v, q)) => read_port(b@, p as int) == Some((v as nat, q as int)) && q <= b@.len()
                && v <= 65535,
            None => read_port(b@, p as int) is None,
        },
{
    match after_char_at(b, p, 58) {
        Some(q) => read_number_at(b, q, 10, 0, true, 65535),
        None => None,
    }
}

fn parse_v4_at(b: &[u8]) -> (r: Option<SocketAddress>)
    ensures
        r == parse_v4(b@),
{
    let (a, bb, c, d, p1) = match read_ipv4_at(b, 0) {
        Some(x) => x,
        None => return None,
    };
    let (port, p2) = match read_port_at(b, p1) {
        Some(x) => x,
        None => return None,
    };
    if p2 == b.len() {
        Some(SocketAddress::V4 { a, b: bb, c, d, port: port as u16 })
    } else {
        None
    }
}

fn parse_v6_at(b: &[u8]) -> (r: Option<SocketAddress>)
    ensures
        r == parse_v6(b@),
{
    let p0 = match after_char_at(b, 0, 91) {
        Some(q) => q,
        None => return None,
    };
    let (ip, p1) = match read_ipv6_at(b, p0) {
        Some(x) => x,
        None => return None,
    };
    let (scope_id, p2): (u64, usize) = match after_char_at(b, p1, 37) {
        Some(q) => match read_number_at(b, q, 10, 0, true, 0xffff_ffff) {
            Some((v, r)) => (v, r),
            None => (0, p1),
        },
        None => (0, p1),
    };
    let p3 = match after_char_at(b, p2, 93) {
        Some(q) => q,
        None => return None,
    };
    let (port, p4) = match read_port_at(b, p3) {
        Some(x) => x,
        None => return None,
    };
    if p4 == b.len() {
        Some(SocketAddress::V6 { ip, scope_id: scope_id as u32, port: port as u16 })
    } else {
        None
    }
}

/// Parses a socket address: `a.b.c.d:port` or `[ipv6%scope]:port`, the scope
/// optional; any other text gives `None`.
pub fn parse_socket_address_bytes(b: &[u8]) -> (r: Option<SocketAddress>)
    ensures
        r == parse_socket_address(b@),
{
    match parse_v4_at(b) {
        Some(a) => Some(a),
        None => parse_v6_at(b),
    }
}

/// Parses the text of a listen address.
pub fn parse_socket_address_str(s: &str) -> (r: Option<SocketAddress>)
    ensures
        r == parse_socket_address(encode_utf8(s@)),
{
    parse_socket_address_bytes(s.as_bytes())
}

/// The kinds of backend capability that a service can declare.
#[derive(Clone, Copy, Debug, PartialEq, Eq, Structural)]
pub enum CapabilityKind {
    /// A pooled database connection.
    Database,
}

/// What is read from the environment before anything else is loaded.
#[derive(Clone, Debug)]
pub struct Bootstrap {
    pub listen: SocketAddress,
    /// Connection string of the database capability, from `DATABASE_URL`.
    pub database_url: Option<String>,
}

/// Configuration loaded once the bootstrap record is known.
#[derive(Clone, Debug)]
pub struct Runtime {
    /// The capabilities that the service is to be built with.
    pub capabilities: Vec<CapabilityKind>,
}

#[derive(Clone, Debug)]
pub struct Config {
    pub bootstrap: Bootstrap,
    pub runtime: Runtime,
}

#[derive(Clone, Debug)]
pub enum ConfigError {
    /// `LISTEN` holds text that is no socket address.
    LoadConfig { value: String },
    /// The runtime configuration could not be fetched.
    RuntimeFetch,
}

pub open spec fn listen_key() -> Seq<char> {
    seq!['L', 'I', 'S', 'T', 'E', 'N']
}

pub open spec fn database_url_key() -> Seq<char> {
    seq!['D', 'A', 'T', 'A', 'B', 'A', 'S', 'E', '_', 'U', 'R', 'L']
}

/// The value of the first variable named `key`, if any.
pub open spec fn env_lookup(vars: Seq<(String, String)>, key: Seq<char>) -> Option<Seq<char>>
    decreases vars.len(),
{
    if vars.len() == 0 {
        None
    } else if vars[0].0@ == key {
        Some(vars[0].1@)
    } else {
        env_lookup(vars.drop_first(), key)
    }
}

/// The listen address that the environment asks for: the default when `LISTEN`
/// is unset or empty, `None` when its text is no socket address.
pub open spec fn listen_of(vars: Seq<(String, String)>) -> Option<SocketAddress> {
    match env_lookup(vars, listen_key()) {
        None => Some(default_listen_spec()),
        Some(v) => if v.len() == 0 {
            Some(default_listen_spec())
        } else {
            parse_socket_address(encode_utf8(v))
        },
    }
}

/// `b` holds what the environment gives: its listen address and database URL.
pub open spec fn bootstrap_from(vars: Seq<(String, String)>, b: Bootstrap) -> bool {
    &&& listen_of(vars) == Some(b.listen)
    &&& match b.database_url {
        Some(u) => env_lookup(vars, database_url_key()) == Some(u@),
        None => env_lookup(vars, database_url_key()) is None,
    }
}

/// `LISTEN` is set to text that is no socket address, and `e` carries that text.
pub open spec fn listen_error(vars: Seq<(String, String)>, e: ConfigError) -> bool {
    &&& listen_of(vars) is None
    &&& match (env_lookup(vars, listen_key()), e) {
        (Some(v), ConfigError::LoadConfig { value }) => value@ == v,
        _ => false,
    }
}

fn lookup(vars: &Vec<(String, String)>, key: &String) -> (r: Option<String>)
    ensures
        match r {
            Some(v) => env_lookup(vars@, key@) == Some(v@),
            None => env_lookup(vars@, key@) is None,
        },
{
    let mut i: usize = 0;
    assert(vars@.subrange(0, vars@.len() as int) =~= vars@);
    while i < vars.len()
        invariant
            0 <= i <= vars@.len(),
            env_lookup(vars@, key@) == env_lookup(vars@.subrange(i as int, vars@.len() as int), key@),
        decreases vars@.len() - i,
    {
        proof {
            let rest = vars@.subrange(i as int, vars@.len() as int);
            assert(rest.drop_first() =~= vars@.subrange(i + 1, vars@.len() as int));
        }
        if vars[i].0 == *key {
            return Some(vars[i].1.clone());
        }
        i = i + 1;
    }
    None
}

/// Reads the bootstrap record from the variables of the environment.
pub fn load_bootstrap(vars: &Vec<(String, String)>) -> (r: Result<Bootstrap, ConfigError>)
    ensures
        match r {
            Ok(b) => bootstrap_from(vars@, b),
            Err(e) => listen_error(vars@, e),
        },
{
    let listen_name = "LISTEN".to_owned();
    let url_name = "DATABASE_URL".to_owned();
    proof {
        reveal_strlit("LISTEN");
        reveal_strlit("DATABASE_URL");
        assert(listen_name@ =~= listen_key());
        assert(url_name@ =~= database_url_key());
    }
    let listen = match lookup(vars, &listen_name) {
        None => default_listen(),
        Some(v) => {
            if v.as_str().is_empty() {
                default_listen()
            } else {
                match parse_socket_address_str(v.as_str()) {
                    Some(a) => a,
                    None => return Err(ConfigError::LoadConfig { value: v }),
                }
            }
        },
    };
    let database_url = lookup(vars, &url_name);
    Ok(Bootstrap { listen, database_url })
}

/// Without `LISTEN` in the environment, the listen address is `0.0.0.0:3000`.
pub proof fn lemma_listen_defaults(vars: Seq<(String, String)>)
    requires
        env_lookup(vars, listen_key()) is None,
    ensures
        listen_of(vars) == Some(default_listen_spec()),
{
}

/// A `LISTEN` value that is no socket address makes the bootstrap record fail
/// to load, so no listen address exists to bind.
pub proof fn lemma_invalid_listen_rejected(vars: Seq<(String, String)>, v: Seq<char>)
    requires
        env_lookup(vars, listen_key()) == Some(v),
        v.len() > 0,
        parse_socket_address(encode_utf8(v)) is None,
    ensures
        listen_of(vars) is None,
{
}

/// Loads the runtime configuration; this service declares no capability.
pub fn load_runtime(bootstrap: &Bootstrap) -> (r: Result<Runtime, ConfigError>)
    ensures
        r matches Ok(rt) && rt.capabilities@.len() == 0,
{
    Ok(Runtime { capabilities: Vec::new() })
}

impl Config {
    /// Loads the bootstrap record from the environment, then the runtime
    /// configuration from it.
    pub fn from_env(vars: &Vec<(String, String)>) -> (r: Result<Config, ConfigError>)
        ensures
            match r {
                Ok(c) => bootstrap_from(vars@, c.bootstrap) && c.runtime.capabilities@.len() == 0,
                Err(e) => listen_error(vars@, e),
            },
    {
        let bootstrap = match load_bootstrap(vars) {
            Ok(b) => b,
            Err(e) => return Err(e),
        };
        let runtime = match load_runtime(&bootstrap) {
            Ok(rt) => rt,
            Err(e) => return Err(e),
        };
        Ok(Config { bootstrap, runtime })
    }
}

} // verus!
