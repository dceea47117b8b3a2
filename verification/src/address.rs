//! Socket addresses as plain values, and the address-string parser.
//!
//! The grammar accepted is `a.b.c.d:port` for IPv4 and `[segments]:port`
//! for IPv6, where the segments are eight colon-separated groups of one to
//! four hexadecimal digits, or fewer groups with one `::` standing for the
//! missing all-zero groups.  Decimal octets and the port carry no leading
//! zeros (a lone `0` is allowed); octets are at most 255 and the port at
//! most 65535.

use vstd::prelude::*;
use vstd::string::StringSliceAdditionalSpecFns;
use crate::error::ServerError;

verus! {

/// An IP address held as plain integers: either four IPv4 octets or the
/// eight 16-bit segments of an IPv6 address.
#[derive(Clone, Copy, Debug, PartialEq, Eq, Structural)]
pub enum IpAddress {
    V4 { a: u8, b: u8, c: u8, d: u8 },
    V6 { s0: u16, s1: u16, s2: u16, s3: u16, s4: u16, s5: u16, s6: u16, s7: u16 },
}

/// A socket address: an IP address and a port.
#[derive(Clone, Copy, Debug, PartialEq, Eq, Structural)]
pub struct SocketAddress {
    pub ip: IpAddress,
    pub port: u16,
}

/// ASCII code of `.`.
pub const DOT: u8 = 46;

/// ASCII code of `:`.
pub const COLON: u8 = 58;

/// ASCII code of `[`.
pub const LBRACKET: u8 = 91;

/// ASCII code of `]`.
pub const RBRACKET: u8 = 93;

/// ASCII code of `0`.
pub const ZERO: u8 = 48;

pub open spec fn is_digit(b: u8) -> bool {
    48 <= b && b <= 57
}

pub open spec fn digit_val(b: u8) -> int {
    b as int - 48
}

pub open spec fn all_digits(s: Seq<u8>) -> bool {
    forall|i: int| 0 <= i < s.len() ==> is_digit(#[trigger] s[i])
}

/// Value of a decimal digit string.
pub open spec fn dec_val(s: Seq<u8>) -> int
    decreases s.len(),
{
    if s.len() == 0 {
        0
    } else {
        dec_val(s.drop_last()) * 10 + digit_val(s.last())
    }
}

pub open spec fn is_hex_digit(b: u8) -> bool {
    is_digit(b) || (97 <= b && b <= 102) || (65 <= b && b <= 70)
}

pub open spec fn hex_digit_val(b: u8) -> int {
    if is_digit(b) {
        b as int - 48
    } else if 97 <= b && b <= 102 {
        b as int - 87
    } else {
        b as int - 55
    }
}

pub open spec fn all_hex(s: Seq<u8>) -> bool {
    forall|i: int| 0 <= i < s.len() ==> is_hex_digit(#[trigger] s[i])
}

/// Value of a hexadecimal digit string.
pub open spec fn hex_val(s: Seq<u8>) -> int
    decreases s.len(),
{
    if s.len() == 0 {
        0
    } else {
        hex_val(s.drop_last()) * 16 + hex_digit_val(s.last())
    }
}

/// A decimal number written with at most `max_len` digits, no leading zero,
/// and value at most `max_val`.
pub open spec fn is_dec_seq(s: Seq<u8>, max_len: int, max_val: int) -> bool {
    &&& 1 <= s.len() <= max_len
    &&& all_digits(s)
    &&& dec_val(s) <= max_val
    &&& (s.len() > 1 ==> s[0] != ZERO)
}

/// A decimal IPv4 octet: one to three digits, no leading zero, at most 255.
pub open spec fn is_octet_seq(s: Seq<u8>) -> bool {
    is_dec_seq(s, 3, 255)
}

/// A decimal port: one to five digits, no leading zero, at most 65535.
pub open spec fn is_port_seq(s: Seq<u8>) -> bool {
    is_dec_seq(s, 5, 65535)
}

/// An IPv6 segment: one to four hexadecimal digits.
pub open spec fn is_group_seq(s: Seq<u8>) -> bool {
    1 <= s.len() <= 4 && all_hex(s)
}

/// The fields of `s` between occurrences of the delimiter `d`, in order.
/// The empty string has one empty field; `n` delimiters give `n + 1` fields.
pub open spec fn split_on(s: Seq<u8>, d: u8) -> Seq<Seq<u8>>
    decreases s.len(),
{
    if s.len() == 0 {
        seq![Seq::empty()]
    } else if s.last() == d {
        split_on(s.drop_last(), d).push(Seq::empty())
    } else {
        let p = split_on(s.drop_last(), d);
        p.update(p.len() - 1, p.last().push(s.last()))
    }
}

/// Index of the first occurrence of `d` in `s`, or -1 if there is none.
pub open spec fn first_byte(s: Seq<u8>, d: u8) -> int
    decreases s.len(),
{
    if s.len() == 0 {
        -1
    } else if s[0] == d {
        0
    } else {
        let r = first_byte(s.subrange(1, s.len() as int), d);
        if r == -1 {
            -1
        } else {
            r + 1
        }
    }
}

/// Index of the first occurrence of `::` in `s`, or -1 if there is none.
pub open spec fn first_dcolon(s: Seq<u8>) -> int
    decreases s.len(),
{
    if s.len() < 2 {
        -1
    } else if s[0] == COLON && s[1] == COLON {
        0
    } else {
        let r = first_dcolon(s.subrange(1, s.len() as int));
        if r == -1 {
            -1
        } else {
            r + 1
        }
    }
}

pub open spec fn all_groups(gs: Seq<Seq<u8>>) -> bool {
    forall|i: int| 0 <= i < gs.len() ==> is_group_seq(#[trigger] gs[i])
}

pub open spec fn group_vals(gs: Seq<Seq<u8>>) -> Seq<u16> {
    gs.map_values(|g: Seq<u8>| hex_val(g) as u16)
}

/// The IPv6 address whose eight segments are `g` (which must have length 8).
pub open spec fn v6_from(g: Seq<u16>) -> IpAddress {
    IpAddress::V6 {
        s0: g[0],
        s1: g[1],
        s2: g[2],
        s3: g[3],
        s4: g[4],
        s5: g[5],
        s6: g[6],
        s7: g[7],
    }
}

/// Parse the dotted-quad form: four octets separated by dots.
pub open spec fn parse_ipv4(s: Seq<u8>) -> Option<IpAddress> {
    let ps = split_on(s, DOT);
    if ps.len() == 4 && is_octet_seq(ps[0]) && is_octet_seq(ps[1]) && is_octet_seq(ps[2])
        && is_octet_seq(ps[3]) {
        Some(
            IpAddress::V4 {
                a: dec_val(ps[0]) as u8,
                b: dec_val(ps[1]) as u8,
                c: dec_val(ps[2]) as u8,
                d: dec_val(ps[3]) as u8,
            },
        )
    } else {
        None
    }
}

/// The colon-separated groups of `s`, where the empty string has no groups.
pub open spec fn groups_of(s: Seq<u8>) -> Seq<Seq<u8>> {
    if s.len() == 0 {
        Seq::empty()
    } else {
        split_on(s, COLON)
    }
}

/// Parse the text between the brackets of an IPv6 socket address: either
/// eight groups, or a single `::` standing for the absent zero groups.
pub open spec fn parse_ipv6(s: Seq<u8>) -> Option<IpAddress> {
    let i = first_dcolon(s);
    if i == -1 {
        let gs = split_on(s, COLON);
        if gs.len() == 8 && all_groups(gs) {
            Some(v6_from(group_vals(gs)))
        } else {
            None
        }
    } else {
        let lg = groups_of(s.subrange(0, i));
        let rg = groups_of(s.subrange(i + 2, s.len() as int));
        if all_groups(lg) && all_groups(rg) && lg.len() + rg.len() <= 7 {
            Some(
                v6_from(
                    group_vals(lg) + Seq::new((8 - lg.len() - rg.len()) as nat, |j: int| 0u16)
                        + group_vals(rg),
                ),
            )
        } else {
            None
        }
    }
}

/// Parse a socket address string held as bytes: `a.b.c.d:port` or
/// `[segments]:port`.
pub open spec fn parse_socket_addr(s: Seq<u8>) -> Option<SocketAddress> {
    if s.len() > 0 && s[0] == LBRACKET {
        let j = first_byte(s, RBRACKET);
        if j != -1 && j + 1 < s.len() && s[j + 1] == COLON && is_port_seq(
            s.subrange(j + 2, s.len() as int),
        ) {
            match parse_ipv6(s.subrange(1, j)) {
                Some(ip) => Some(
                    SocketAddress { ip, port: dec_val(s.subrange(j + 2, s.len() as int)) as u16 },
                ),
                None => None,
            }
        } else {
            None
        }
    } else {
        let k = first_byte(s, COLON);
        if k != -1 && first_byte(s.subrange(k + 1, s.len() as int), COLON) == -1 && is_port_seq(
            s.subrange(k + 1, s.len() as int),
        ) {
            match parse_ipv4(s.subrange(0, k)) {
                Some(ip) => Some(
                    SocketAddress { ip, port: dec_val(s.subrange(k + 1, s.len() as int)) as u16 },
                ),
                None => None,
            }
        } else {
            None
        }
    }
}

pub proof fn lemma_dec_val_bound(s: Seq<u8>)
    requires
        all_digits(s),
        s.len() <= 5,
    ensures
        0 <= dec_val(s),
        dec_val(s) < 100000,
        s.len() <= 4 ==> dec_val(s) < 10000,
        s.len() <= 3 ==> dec_val(s) < 1000,
        s.len() <= 2 ==> dec_val(s) < 100,
        s.len() <= 1 ==> dec_val(s) < 10,
        s.len() == 0 ==> dec_val(s) == 0,
    decreases s.len(),
{
    if s.len() > 0 {
        assert(all_digits(s.drop_last()));
        lemma_dec_val_bound(s.drop_last());
    }
}

pub proof fn lemma_hex_val_bound(s: Seq<u8>)
    requires
        all_hex(s),
        s.len() <= 4,
    ensures
        0 <= hex_val(s),
        hex_val(s) < 65536,
        s.len() <= 3 ==> hex_val(s) < 4096,
        s.len() <= 2 ==> hex_val(s) < 256,
        s.len() <= 1 ==> hex_val(s) < 16,
        s.len() == 0 ==> hex_val(s) == 0,
    decreases s.len(),
{
    if s.len() > 0 {
        assert(all_hex(s.drop_last()));
        lemma_hex_val_bound(s.drop_last());
    }
}

pub proof fn lemma_first_byte(s: Seq<u8>, d: u8)
    ensures
        first_byte(s, d) == -1 ==> (forall|i: int| 0 <= i < s.len() ==> #[trigger] s[i] != d),
        first_byte(s, d) != -1 ==> {
            &&& 0 <= first_byte(s, d) < s.len()
            &&& s[first_byte(s, d)] == d
            &&& (forall|i: int| 0 <= i < first_byte(s, d) ==> #[trigger] s[i] != d)
        },
    decreases s.len(),
{
    if s.len() == 0 {
    } else if s[0] == d {
    } else {
        let t = s.subrange(1, s.len() as int);
        lemma_first_byte(t, d);
        if first_byte(s, d) == -1 {
            assert forall|i: int| 0 <= i < s.len() implies #[trigger] s[i] != d by {
                if i > 0 {
                    assert(s[i] == t[i - 1]);
                }
            }
        } else {
            let f = first_byte(s, d);
            assert(s[f] == t[f - 1]);
            assert forall|i: int| 0 <= i < f implies #[trigger] s[i] != d by {
                if i > 0 {
                    assert(s[i] == t[i - 1]);
                }
            }
        }
    }
}

pub proof fn lemma_first_dcolon(s: Seq<u8>)
    ensures
        first_dcolon(s) == -1 ==> (forall|i: int|
            0 <= i < s.len() - 1 ==> !(#[trigger] s[i] == COLON && s[i + 1] == COLON)),
        first_dcolon(s) != -1 ==> {
            &&& 0 <= first_dcolon(s) < s.len() - 1
            &&& s[first_dcolon(s)] == COLON
            &&& s[first_dcolon(s) + 1] == COLON
            &&& (forall|i: int|
                0 <= i < first_dcolon(s) ==> !(#[trigger] s[i] == COLON && s[i + 1] == COLON))
        },
    decreases s.len(),
{
    if s.len() < 2 {
    } else if s[0] == COLON && s[1] == COLON {
    } else {
        let t = s.subrange(1, s.len() as int);
        lemma_first_dcolon(t);
        if first_dcolon(s) == -1 {
            assert forall|i: int| 0 <= i < s.len() - 1 implies !(#[trigger] s[i] == COLON && s[i
                + 1] == COLON) by {
                if i > 0 {
                    assert(s[i] == t[i - 1]);
                    assert(s[i + 1] == t[i]);
                }
            }
        } else {
            let f = first_dcolon(s);
            assert(s[f] == t[f - 1]);
            assert(s[f + 1] == t[f]);
            assert forall|i: int| 0 <= i < f implies !(#[trigger] s[i] == COLON && s[i + 1]
                == COLON) by {
                if i > 0 {
                    assert(s[i] == t[i - 1]);
                    assert(s[i + 1] == t[i]);
                }
            }
        }
    }
}

/// Index of the first occurrence of `d`, found by a scan.
#[verifier::loop_isolation(false)]
fn find_first(s: &[u8], d: u8) -> (r: Option<usize>)
    ensures
        match r {
            Some(i) => first_byte(s@, d) == i as int,
            None => first_byte(s@, d) == -1,
        },
{
    proof {
        lemma_first_byte(s@, d);
    }
    let n = s.len();
    let mut i: usize = 0;
    while i < n
        invariant
            n == s@.len(),
            i <= n,
            forall|j: int| 0 <= j < i ==> #[trigger] s@[j] != d,
        decreases n - i,
    {
        if *vstd::slice::slice_index_get(s, i) == d {
            return Some(i);
        }
        i = i + 1;
    }
    None
}

/// Index of the first `::`, found by a scan.
#[verifier::loop_isolation(false)]
fn find_dcolon(s: &[u8]) -> (r: Option<usize>)
    ensures
        match r {
            Some(i) => first_dcolon(s@) == i as int,
            None => first_dcolon(s@) == -1,
        },
{
    proof {
        lemma_first_dcolon(s@);
    }
    let n = s.len();
    if n < 2 {
        return None;
    }
    let mut i: usize = 0;
    while i < n - 1
        invariant
            n == s@.len(),
            2 <= n,
            i <= n - 1,
            forall|j: int| 0 <= j < i ==> !(#[trigger] s@[j] == COLON && s@[j + 1] == COLON),
        decreases n - i,
    {
        if *vstd::slice::slice_index_get(s, i) == COLON && *vstd::slice::slice_index_get(s, i + 1)
            == COLON {
            return Some(i);
        }
        i = i + 1;
    }
    None
}

/// The fields of `s` between occurrences of `d`, by a single scan.
fn split_on_exec(s: &[u8], d: u8) -> (parts: Vec<Vec<u8>>)
    ensures
        parts@.map_values(|p: Vec<u8>| p@) == split_on(s@, d),
{
    let n = s.len();
    let mut parts: Vec<Vec<u8>> = Vec::new();
    let mut cur: Vec<u8> = Vec::new();
    let mut i: usize = 0;
    while i < n
        invariant
            n == s@.len(),
            i <= n,
            parts@.map_values(|p: Vec<u8>| p@).push(cur@) == split_on(s@.subrange(0, i as int), d),
        decreases n - i,
    {
        let ghost prefix = s@.subrange(0, i as int);
        let ghost prefix1 = s@.subrange(0, i as int + 1);
        proof {
            assert(prefix1.drop_last() =~= prefix);
            assert(prefix1.last() == s@[i as int]);
        }
        let b = *vstd::slice::slice_index_get(s, i);
        if b == d {
            parts.push(cur);
            cur = Vec::new();
            proof {
                assert(split_on(prefix1, d) == split_on(prefix, d).push(Seq::<u8>::empty()));
                assert(parts@.map_values(|p: Vec<u8>| p@).push(cur@) =~= split_on(prefix1, d));
            }
        } else {
            let ghost old_cur = cur@;
            cur.push(b);
            proof {
                let m = parts@.map_values(|p: Vec<u8>| p@);
                let p = m.push(old_cur);
                assert(split_on(prefix1, d) == p.update(p.len() - 1, p.last().push(s@[i as int])));
                assert(m.push(cur@) =~= p.update(p.len() - 1, p.last().push(s@[i as int])));
            }
        }
        i = i + 1;
    }
    proof {
        assert(s@.subrange(0, n as int) =~= s@);
    }
    parts.push(cur);
    proof {
        assert(parts@.map_values(|p: Vec<u8>| p@) =~= split_on(s@, d));
    }
    parts
}

/// Parse a decimal number of at most `max_len` digits, without leading
/// zeros, of value at most `max_val`.
fn parse_dec(s: &[u8], max_len: usize, max_val: u16) -> (r: Option<u16>)
    requires
        max_len <= 5,
    ensures
        match r {
            Some(v) => is_dec_seq(s@, max_len as int, max_val as int) && v as int == dec_val(s@),
            None => !is_dec_seq(s@, max_len as int, max_val as int),
        },
{
    let n = s.len();
    if n == 0 || n > max_len {
        return None;
    }
    if n > 1 && *vstd::slice::slice_index_get(s, 0) == ZERO {
        return None;
    }
    let mut acc: u32 = 0;
    let mut i: usize = 0;
    while i < n
        invariant
            n == s@.len(),
            1 <= n <= max_len <= 5,
            i <= n,
            all_digits(s@.subrange(0, i as int)),
            acc as int == dec_val(s@.subrange(0, i as int)),
            acc < 100000,
        decreases n - i,
    {
        let ghost prefix = s@.subrange(0, i as int);
        let ghost prefix1 = s@.subrange(0, i as int + 1);
        let b = *vstd::slice::slice_index_get(s, i);
        if b < 48 || b > 57 {
            proof {
                assert(!is_digit(s@[i as int]));
                assert(!all_digits(s@));
            }
            return None;
        }
        proof {
            assert(prefix1.drop_last() =~= prefix);
            assert(all_digits(prefix1));
            lemma_dec_val_bound(prefix);
            assert(dec_val(prefix1) == dec_val(prefix) * 10 + digit_val(s@[i as int]));
        }
        acc = acc * 10 + ((b - 48) as u32);
        i = i + 1;
        proof {
            lemma_dec_val_bound(prefix1);
        }
    }
    proof {
        assert(s@.subrange(0, n as int) =~= s@);
    }
    if acc > max_val as u32 {
        return None;
    }
    Some(acc as u16)
}

/// Parse a hexadecimal IPv6 segment of one to four digits.
fn parse_group(s: &[u8]) -> (r: Option<u16>)
    ensures
        match r {
            Some(v) => is_group_seq(s@) && v as int == hex_val(s@),
            None => !is_group_seq(s@),
        },
{
    let n = s.len();
    if n == 0 || n > 4 {
        return None;
    }
    let mut acc: u32 = 0;
    let mut i: usize = 0;
    while i < n
        invariant
            n == s@.len(),
            1 <= n <= 4,
            i <= n,
            all_hex(s@.subrange(0, i as int)),
            acc as int == hex_val(s@.subrange(0, i as int)),
            acc < 65536,
        decreases n - i,
    {
        let ghost prefix = s@.subrange(0, i as int);
        let ghost prefix1 = s@.subrange(0, i as int + 1);
        let b = *vstd::slice::slice_index_get(s, i);
        let v: u32 = if 48 <= b && b <= 57 {
            (b - 48) as u32
        } else if 97 <= b && b <= 102 {
            (b - 87) as u32
        } else if 65 <= b && b <= 70 {
            (b - 55) as u32
        } else {
            proof {
                assert(!is_hex_digit(s@[i as int]));
                assert(!all_hex(s@));
            }
            return None;
        };
        proof {
            assert(prefix1.drop_last() =~= prefix);
            assert(all_hex(prefix1));
            lemma_hex_val_bound(prefix);
            assert(hex_val(prefix1) == hex_val(prefix) * 16 + hex_digit_val(s@[i as int]));
        }
        acc = acc * 16 + v;
        i = i + 1;
        proof {
            lemma_hex_val_bound(prefix1);
        }
    }
    proof {
        assert(s@.subrange(0, n as int) =~= s@);
    }
    Some(acc as u16)
}

/// Parse the dotted-quad form of an IPv4 address.
#[verifier::loop_isolation(false)]
fn parse_ipv4_exec(s: &[u8]) -> (r: Option<IpAddress>)
    ensures
        r == parse_ipv4(s@),
{
    let parts = split_on_exec(s, DOT);
    let ghost ps = split_on(s@, DOT);
    if parts.len() != 4 {
        return None;
    }
    let mut vals: [u8; 4] = [0; 4];
    let mut j: usize = 0;
    while j < 4
        invariant
            parts@.map_values(|p: Vec<u8>| p@) == ps,
            parts@.len() == 4,
            j <= 4,
            forall|k: int| 0 <= k < j ==> is_octet_seq(#[trigger] ps[k]),
            forall|k: int| 0 <= k < j ==> vals@[k] as int == dec_val(ps[k]),
        decreases 4 - j,
    {
        match parse_dec(parts[j].as_slice(), 3, 255) {
            Some(v) => {
                vals[j] = v as u8;
            },
            None => {
                proof {
                    assert(!is_octet_seq(ps[j as int]));
                }
                return None;
            },
        }
        j = j + 1;
    }
    Some(IpAddress::V4 { a: vals[0], b: vals[1], c: vals[2], d: vals[3] })
}

/// Parse the text between the brackets of an IPv6 socket address.
#[verifier::loop_isolation(false)]
#[verifier::rlimit(50)]
fn parse_ipv6_exec(s: &[u8]) -> (r: Option<IpAddress>)
    ensures
        r == parse_ipv6(s@),
{
    match find_dcolon(s) {
        None => {
            let parts = split_on_exec(s, COLON);
            let ghost gs = split_on(s@, COLON);
            if parts.len() != 8 {
                return None;
            }
            let mut vals: [u16; 8] = [0; 8];
            let mut j: usize = 0;
            while j < 8
                invariant
                    parts@.map_values(|p: Vec<u8>| p@) == gs,
                    parts@.len() == 8,
                    j <= 8,
                    forall|k: int| 0 <= k < j ==> is_group_seq(#[trigger] gs[k]),
                    forall|k: int| 0 <= k < j ==> vals@[k] as int == hex_val(gs[k]),
                decreases 8 - j,
            {
                match parse_group(parts[j].as_slice()) {
                    Some(v) => {
                        vals[j] = v;
                    },
                    None => {
                        proof {
                            assert(!is_group_seq(gs[j as int]));
                        }
                        return None;
                    },
                }
                j = j + 1;
            }
            proof {
                assert(all_groups(gs));
                assert forall|k: int| 0 <= k < 8 implies #[trigger] group_vals(gs)[k]
                    == vals@[k] by {
                    lemma_hex_val_bound(gs[k]);
                }
            }
            Some(
                IpAddress::V6 {
                    s0: vals[0],
                    s1: vals[1],
                    s2: vals[2],
                    s3: vals[3],
                    s4: vals[4],
                    s5: vals[5],
                    s6: vals[6],
                    s7: vals[7],
                },
            )
        },
        Some(i) => {
            proof {
                lemma_first_dcolon(s@);
            }
            let n = s.len();
            let left = vstd::slice::slice_subrange(s, 0, i);
            let right = vstd::slice::slice_subrange(s, i + 2, n);
            let ghost lg = groups_of(left@);
            let ghost rg = groups_of(right@);
            let lparts: Vec<Vec<u8>> = if left.len() == 0 {
                Vec::new()
            } else {
                split_on_exec(left, COLON)
            };
            let rparts: Vec<Vec<u8>> = if right.len() == 0 {
                Vec::new()
            } else {
                split_on_exec(right, COLON)
            };
            proof {
                assert(lparts@.map_values(|p: Vec<u8>| p@) =~= lg);
                assert(rparts@.map_values(|p: Vec<u8>| p@) =~= rg);
            }
            let nl = lparts.len();
            let nr = rparts.len();
            if nl > 7 || nr > 7 - nl {
                return None;
            }
            let mut vals: Vec<u16> = Vec::new();
            let mut j: usize = 0;
            while j < nl
                invariant
                    lparts@.map_values(|p: Vec<u8>| p@) == lg,
                    nl == lparts@.len(),
                    j <= nl,
                    vals@.len() == j,
                    forall|k: int| 0 <= k < j ==> is_group_seq(#[trigger] lg[k]),
                    forall|k: int| 0 <= k < j ==> vals@[k] as int == hex_val(lg[k]),
                decreases nl - j,
            {
                match parse_group(lparts[j].as_slice()) {
                    Some(v) => {
                        vals.push(v);
                    },
                    None => {
                        proof {
                            assert(!is_group_seq(lg[j as int]));
                        }
                        return None;
                    },
                }
                j = j + 1;
            }
            let nz = 8 - nl - nr;
            let mut z: usize = 0;
            while z < nz
                invariant
                    vals@.len() == nl + z,
                    z <= nz,
                    nl == lparts@.len(),
                    lparts@.map_values(|p: Vec<u8>| p@) == lg,
                    forall|k: int| 0 <= k < nl ==> is_group_seq(#[trigger] lg[k]),
                    forall|k: int| 0 <= k < nl ==> vals@[k] as int == hex_val(lg[k]),
                    forall|k: int| nl <= k < nl + z ==> vals@[k] == 0u16,
                decreases nz - z,
            {
                vals.push(0);
                z = z + 1;
            }
            let mut q: usize = 0;
            while q < nr
                invariant
                    vals@.len() == nl + nz + q,
                    q <= nr,
                    nl == lparts@.len(),
                    nr == rparts@.len(),
                    nl + nr + nz == 8,
                    lparts@.map_values(|p: Vec<u8>| p@) == lg,
                    rparts@.map_values(|p: Vec<u8>| p@) == rg,
                    forall|k: int| 0 <= k < nl ==> is_group_seq(#[trigger] lg[k]),
                    forall|k: int| 0 <= k < nl ==> vals@[k] as int == hex_val(lg[k]),
                    forall|k: int| nl <= k < nl + nz ==> vals@[k] == 0u16,
                    forall|k: int| 0 <= k < q ==> is_group_seq(#[trigger] rg[k]),
                    forall|k: int| 0 <= k < q ==> vals@[nl + nz + k] as int == hex_val(rg[k]),
                decreases nr - q,
            {
                match parse_group(rparts[q].as_slice()) {
                    Some(v) => {
                        vals.push(v);
                    },
                    None => {
                        proof {
                            assert(!is_group_seq(rg[q as int]));
                        }
                        return None;
                    },
                }
                q = q + 1;
            }
            proof {
                assert(all_groups(lg));
                assert(all_groups(rg));
                let g = group_vals(lg) + Seq::new((8 - lg.len() - rg.len()) as nat, |j: int| 0u16)
                    + group_vals(rg);
                assert forall|k: int| 0 <= k < 8 implies #[trigger] g[k] == vals@[k] by {
                    if k < nl {
                        lemma_hex_val_bound(lg[k]);
                        assert(g[k] == group_vals(lg)[k]);
                    } else if k < nl + nz {
                        assert(g[k] == Seq::new((8 - lg.len() - rg.len()) as nat, |j: int| 0u16)[k
                            - nl]);
                    } else {
                        lemma_hex_val_bound(rg[k - nl - nz]);
                        assert(g[k] == group_vals(rg)[k - nl - nz]);
                    }
                }
            }
            Some(
                IpAddress::V6 {
                    s0: vals[0],
                    s1: vals[1],
                    s2: vals[2],
                    s3: vals[3],
                    s4: vals[4],
                    s5: vals[5],
                    s6: vals[6],
                    s7: vals[7],
                },
            )
        },
    }
}

/// Validate and parse an address string with no side effect.
///
/// Accepts exactly the strings of the grammar in `parse_socket_addr` and
/// returns the address they denote; everything else is an `AddressError`.
pub fn check_server(address: &str) -> (r: Result<SocketAddress, ServerError>)
    ensures
        match r {
            Ok(a) => parse_socket_addr(address.spec_bytes()) == Some(a),
            Err(e) => parse_socket_addr(address.spec_bytes()) is None && e@
                == crate::error::ServerErrorModel::AddressError("invalid socket address syntax"@),
        },
{
    let s = address.as_bytes();
    if s.len() > 0 && *vstd::slice::slice_index_get(s, 0) == LBRACKET {
        match find_first(s, RBRACKET) {
            Some(j) => {
                proof {
                    lemma_first_byte(s@, RBRACKET);
                }
                if j + 1 < s.len() && *vstd::slice::slice_index_get(s, j + 1) == COLON {
                    let portpart = vstd::slice::slice_subrange(s, j + 2, s.len());
                    match parse_dec(portpart, 5, 65535) {
                        Some(port) => {
                            let inner = vstd::slice::slice_subrange(s, 1, j);
                            match parse_ipv6_exec(inner) {
                                Some(ip) => Ok(SocketAddress { ip, port }),
                                None => Err(address_error()),
                            }
                        },
                        None => Err(address_error()),
                    }
                } else {
                    Err(address_error())
                }
            },
            None => Err(address_error()),
        }
    } else {
        match find_first(s, COLON) {
            Some(k) => {
                proof {
                    lemma_first_byte(s@, COLON);
                }
                let portpart = vstd::slice::slice_subrange(s, k + 1, s.len());
                match find_first(portpart, COLON) {
                    Some(_) => Err(address_error()),
                    None => {
                        match parse_dec(portpart, 5, 65535) {
                            Some(port) => {
                                let host = vstd::slice::slice_subrange(s, 0, k);
                                match parse_ipv4_exec(host) {
                                    Some(ip) => Ok(SocketAddress { ip, port }),
                                    None => Err(address_error()),
                                }
                            },
                            None => Err(address_error()),
                        }
                    },
                }
            },
            None => Err(address_error()),
        }
    }
}

/// The one error a malformed address string yields.
fn address_error() -> (e: ServerError)
    ensures
        e@ == crate::error::ServerErrorModel::AddressError("invalid socket address syntax"@),
{
    ServerError::AddressError("invalid socket address syntax".to_owned())
}

} // verus!
