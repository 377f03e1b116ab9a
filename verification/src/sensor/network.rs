//! Network sensor: parsing of `/proc/net/tcp` and `/proc/net/tcp6`, and the
//! bookkeeping that reports each outbound connection once.

use vstd::prelude::*;
use crate::text::{
    chars_of, decimal, hex2, lines_of, parse_radix, parse_unsigned, push_char, push_decimal,
    push_hex2, split_char, split_lines, split_pieces, split_whitespace, string_of, views,
    ws_fields, split_scan, all_digits, digits_value, digit_value, unsigned_digits,
};

verus! {

/// The four bytes of `n`, least significant first (`u32::to_le_bytes`).
pub open spec fn le_byte(n: u32, i: nat) -> u8 {
    if i == 0 {
        (n % 256) as u8
    } else if i == 1 {
        ((n / 256) % 256) as u8
    } else if i == 2 {
        ((n / 65536) % 256) as u8
    } else {
        ((n / 16777216) % 256) as u8
    }
}

/// The dotted-decimal text of an IPv4 address stored little-endian in `n`.
pub open spec fn ipv4_text(n: u32) -> Seq<char> {
    decimal(le_byte(n, 0) as nat) + seq!['.'] + decimal(le_byte(n, 1) as nat) + seq!['.']
        + decimal(le_byte(n, 2) as nat) + seq!['.'] + decimal(le_byte(n, 3) as nat)
}

/// The text of one 32-bit word of an IPv6 address that `/proc/net/tcp6`
/// writes little-endian: its bytes in memory order, two per group.
pub open spec fn ipv6_group(n: u32) -> Seq<char> {
    hex2(le_byte(n, 0)) + hex2(le_byte(n, 1)) + seq![':'] + hex2(le_byte(n, 2)) + hex2(
        le_byte(n, 3),
    )
}

/// The number written in hexadecimal by `s[lo..hi]`.
pub open spec fn hex_word(s: Seq<char>, lo: int, hi: int) -> Option<nat> {
    parse_unsigned(s.subrange(lo, hi), 16, u32::MAX as nat)
}

/// The address text that a `/proc/net/tcp` hex address gives: 8 hex digits
/// for IPv4 and 32 for IPv6 (lengths in characters; input that is not ASCII
/// holds no hex digit and gives none either way).
pub open spec fn ip_text(ip: Seq<char>) -> Option<Seq<char>> {
    if ip.len() == 8 {
        match hex_word(ip, 0, 8) {
            Some(n) => Some(ipv4_text(n as u32)),
            None => None,
        }
    } else if ip.len() == 32 {
        match (hex_word(ip, 0, 8), hex_word(ip, 8, 16), hex_word(ip, 16, 24), hex_word(ip, 24, 32)) {
            (Some(a), Some(b), Some(c), Some(d)) => Some(
                ipv6_group(a as u32) + seq![':'] + ipv6_group(b as u32) + seq![':'] + ipv6_group(
                    c as u32,
                ) + seq![':'] + ipv6_group(d as u32),
            ),
            _ => None,
        }
    } else {
        None
    }
}

/// What a `/proc/net/tcp` address field `IP:PORT` (both in hex) decodes to.
#[verifier::opaque]
pub open spec fn decoded_addr(hex: Seq<char>) -> Option<(Seq<char>, u16)> {
    let parts = split_pieces(hex, ':');
    if parts.len() != 2 {
        None
    } else {
        match parse_unsigned(parts[1], 16, 0xffff) {
            Some(port) => match ip_text(parts[0]) {
                Some(ip) => Some((ip, port as u16)),
                None => None,
            },
            None => None,
        }
    }
}

/// The upper-case hexadecimal digit for `d` (`d < 16`).
pub open spec fn upper_hex_char(d: nat) -> char {
    if d == 0 { '0' }
    else if d == 1 { '1' }
    else if d == 2 { '2' }
    else if d == 3 { '3' }
    else if d == 4 { '4' }
    else if d == 5 { '5' }
    else if d == 6 { '6' }
    else if d == 7 { '7' }
    else if d == 8 { '8' }
    else if d == 9 { '9' }
    else if d == 10 { 'A' }
    else if d == 11 { 'B' }
    else if d == 12 { 'C' }
    else if d == 13 { 'D' }
    else if d == 14 { 'E' }
    else { 'F' }
}

/// `x` written with `w` upper-case hexadecimal digits, zero-padded (`%0wX`),
/// as the kernel writes the fields of `/proc/net/tcp`.
pub open spec fn upper_hex(x: nat, w: nat) -> Seq<char>
    decreases w,
{
    if w == 0 {
        seq![]
    } else {
        upper_hex(x / 16, (w - 1) as nat).push(upper_hex_char(x % 16))
    }
}

/// `16` to the power `w`.
pub open spec fn pow16(w: nat) -> nat
    decreases w,
{
    if w == 0 {
        1
    } else {
        16 * pow16((w - 1) as nat)
    }
}

proof fn lemma_upper_hex(x: nat, w: nat)
    requires
        x < pow16(w),
    ensures
        upper_hex(x, w).len() == w,
        all_digits(upper_hex(x, w), 16),
        digits_value(upper_hex(x, w), 16) == x,
        forall|i: int| 0 <= i < w ==> upper_hex(x, w)[i] != ':' && upper_hex(x, w)[i] != '+',
    decreases w,
{
    if w > 0 {
        let u = upper_hex(x / 16, (w - 1) as nat);
        lemma_upper_hex(x / 16, (w - 1) as nat);
        let c = upper_hex_char(x % 16);
        assert(digit_value(c, 16) == Some(x % 16));
        let v = u.push(c);
        assert(v.drop_last() == u);
        assert forall|i: int| 0 <= i < v.len() implies (#[trigger] digit_value(v[i], 16)) is Some by {
            if i < u.len() {
                assert(v[i] == u[i]);
            }
        }
    }
}

proof fn lemma_split_without_sep(s: Seq<char>, sep: char)
    requires
        forall|i: int| 0 <= i < s.len() ==> s[i] != sep,
    ensures
        split_scan(s, sep) == (Seq::<Seq<char>>::empty(), s),
    decreases s.len(),
{
    if s.len() > 0 {
        lemma_split_without_sep(s.drop_last(), sep);
        assert(s.drop_last().push(s.last()) =~= s);
    }
}

proof fn lemma_split_once(a: Seq<char>, b: Seq<char>, sep: char)
    requires
        forall|i: int| 0 <= i < a.len() ==> a[i] != sep,
        forall|i: int| 0 <= i < b.len() ==> b[i] != sep,
    ensures
        split_scan(a + seq![sep] + b, sep) == (seq![a], b),
    decreases b.len(),
{
    if b.len() == 0 {
        lemma_split_without_sep(a, sep);
        assert((a + seq![sep] + b).drop_last() =~= a);
        assert(Seq::<Seq<char>>::empty().push(a) =~= seq![a]);
    } else {
        lemma_split_once(a, b.drop_last(), sep);
        assert((a + seq![sep] + b).drop_last() =~= a + seq![sep] + b.drop_last());
        assert(b.drop_last().push(b.last()) =~= b);
    }
}

/// `decode_addr` reads what the kernel writes: an IPv4 address field
/// `%08X:%04X` of the 32-bit word `n` and the port `port` decodes to the
/// dotted-decimal text of `n` and `port`.
pub proof fn lemma_decode_reads_kernel_ipv4(n: u32, port: u16)
    ensures
        decoded_addr(upper_hex(n as nat, 8) + seq![':'] + upper_hex(port as nat, 4)) == Some(
            (ipv4_text(n), port),
        ),
{
    reveal(decoded_addr);
    reveal_with_fuel(pow16, 9);
    let a = upper_hex(n as nat, 8);
    let b = upper_hex(port as nat, 4);
    lemma_upper_hex(n as nat, 8);
    lemma_upper_hex(port as nat, 4);
    lemma_split_once(a, b, ':');
    let parts = split_pieces(a + seq![':'] + b, ':');
    assert(parts =~= seq![a, b]);
    assert(unsigned_digits(b) == b);
    assert(unsigned_digits(a) == a);
    assert(a.subrange(0, 8) =~= a);
}

proof fn lemma_upper_hex_len(x: nat, w: nat)
    ensures
        upper_hex(x, w).len() == w,
    decreases w,
{
    if w > 0 {
        lemma_upper_hex_len(x / 16, (w - 1) as nat);
    }
}

proof fn lemma_word_at(a: Seq<char>, lo: int, w: u32)
    requires
        0 <= lo,
        lo + 8 <= a.len(),
        a.subrange(lo, lo + 8) == upper_hex(w as nat, 8),
    ensures
        hex_word(a, lo, lo + 8) == Some(w as nat),
{
    reveal_with_fuel(pow16, 9);
    lemma_upper_hex(w as nat, 8);
    assert(unsigned_digits(upper_hex(w as nat, 8)) == upper_hex(w as nat, 8));
}

proof fn lemma_port_field(port: u16)
    ensures
        parse_unsigned(upper_hex(port as nat, 4), 16, 0xffff) == Some(port as nat),
        forall|i: int| 0 <= i < 4 ==> upper_hex(port as nat, 4)[i] != ':',
{
    reveal_with_fuel(pow16, 5);
    lemma_upper_hex(port as nat, 4);
    assert(unsigned_digits(upper_hex(port as nat, 4)) == upper_hex(port as nat, 4));
}

/// `decode_addr` reads what the kernel writes for IPv6: four 32-bit words
/// `w0`..`w3` as `%08X` each, then `:%04X` with the port, decode to the
/// groups of the four words and `port`.
#[verifier::spinoff_prover]
pub proof fn lemma_decode_reads_kernel_ipv6(w0: u32, w1: u32, w2: u32, w3: u32, port: u16)
    ensures
        decoded_addr(
            upper_hex(w0 as nat, 8) + upper_hex(w1 as nat, 8) + upper_hex(w2 as nat, 8) + upper_hex(
                w3 as nat,
                8,
            ) + seq![':'] + upper_hex(port as nat, 4),
        ) == Some(
            (
                ipv6_group(w0) + seq![':'] + ipv6_group(w1) + seq![':'] + ipv6_group(w2) + seq![':']
                    + ipv6_group(w3),
                port,
            ),
        ),
{
    let h0 = upper_hex(w0 as nat, 8);
    let h1 = upper_hex(w1 as nat, 8);
    let h2 = upper_hex(w2 as nat, 8);
    let h3 = upper_hex(w3 as nat, 8);
    let a = h0 + h1 + h2 + h3;
    let b = upper_hex(port as nat, 4);
    lemma_upper_hex_len(w0 as nat, 8);
    lemma_upper_hex_len(w1 as nat, 8);
    lemma_upper_hex_len(w2 as nat, 8);
    lemma_upper_hex_len(w3 as nat, 8);
    lemma_upper_hex_len(port as nat, 4);
    assert(a.subrange(0, 8) =~= h0);
    assert(a.subrange(8, 16) =~= h1);
    assert(a.subrange(16, 24) =~= h2);
    assert(a.subrange(24, 32) =~= h3);
    lemma_word_at(a, 0, w0);
    lemma_word_at(a, 8, w1);
    lemma_word_at(a, 16, w2);
    lemma_word_at(a, 24, w3);
    lemma_port_field(port);
    lemma_no_colon(w0, w1, w2, w3);
    lemma_split_once(a, b, ':');
    assert(split_pieces(a + seq![':'] + b, ':') =~= seq![a, b]);
    assert(ip_text(a) == Some(
        ipv6_group(w0) + seq![':'] + ipv6_group(w1) + seq![':'] + ipv6_group(w2) + seq![':']
            + ipv6_group(w3),
    ));
    reveal(decoded_addr);
}

proof fn lemma_no_colon(w0: u32, w1: u32, w2: u32, w3: u32)
    ensures
        ({
            let a = upper_hex(w0 as nat, 8) + upper_hex(w1 as nat, 8) + upper_hex(w2 as nat, 8)
                + upper_hex(w3 as nat, 8);
            forall|i: int| 0 <= i < a.len() ==> a[i] != ':'
        }),
{
    reveal_with_fuel(pow16, 9);
    let h0 = upper_hex(w0 as nat, 8);
    let h1 = upper_hex(w1 as nat, 8);
    let h2 = upper_hex(w2 as nat, 8);
    let h3 = upper_hex(w3 as nat, 8);
    lemma_upper_hex(w0 as nat, 8);
    lemma_upper_hex(w1 as nat, 8);
    lemma_upper_hex(w2 as nat, 8);
    lemma_upper_hex(w3 as nat, 8);
    let a = h0 + h1 + h2 + h3;
    assert forall|i: int| 0 <= i < a.len() implies a[i] != ':' by {
        if i < 8 {
            assert(a[i] == h0[i]);
        } else if i < 16 {
            assert(a[i] == h1[i - 8]);
        } else if i < 24 {
            assert(a[i] == h2[i - 16]);
        } else {
            assert(a[i] == h3[i - 24]);
        }
    }
}

fn push_ipv4(s: &mut String, n: u32)
    ensures
        final(s)@ == old(s)@ + ipv4_text(n),
{
    push_decimal(s, (n % 256) as u64);
    push_char(s, '.');
    push_decimal(s, ((n / 256) % 256) as u64);
    push_char(s, '.');
    push_decimal(s, ((n / 65536) % 256) as u64);
    push_char(s, '.');
    push_decimal(s, ((n / 16777216) % 256) as u64);
    assert(final(s)@ =~= old(s)@ + ipv4_text(n));
}


fn push_ipv6_group(s: &mut String, n: u32)
    ensures
        final(s)@ == old(s)@ + ipv6_group(n),
{
    push_hex2(s, (n % 256) as u8);
    push_hex2(s, ((n / 256) % 256) as u8);
    push_char(s, ':');
    push_hex2(s, ((n / 65536) % 256) as u8);
    push_hex2(s, ((n / 16777216) % 256) as u8);
    assert(final(s)@ =~= old(s)@ + ipv6_group(n));
}

fn hex_word_at(v: &Vec<char>, lo: usize, hi: usize) -> (r: Option<u32>)
    requires
        lo <= hi <= v.len(),
    ensures
        match hex_word(v@, lo as int, hi as int) {
            Some(n) => r == Some(n as u32),
            None => r is None,
        },
{
    let piece = crate::text::slice_chars(v, lo, hi);
    match parse_radix(&piece, 16, 0xffff_ffff) {
        Some(n) => Some(n as u32),
        None => None,
    }
}

fn ip_text_of(ip: &Vec<char>) -> (r: Option<String>)
    ensures
        match ip_text(ip@) {
            Some(t) => r matches Some(x) && x@ == t,
            None => r is None,
        },
{
    if ip.len() == 8 {
        match hex_word_at(ip, 0, 8) {
            Some(n) => {
                let mut s = String::new();
                push_ipv4(&mut s, n);
                Some(s)
            },
            None => None,
        }
    } else if ip.len() == 32 {
        let a = hex_word_at(ip, 0, 8);
        let b = hex_word_at(ip, 8, 16);
        let c = hex_word_at(ip, 16, 24);
        let d = hex_word_at(ip, 24, 32);
        match (a, b, c, d) {
            (Some(a), Some(b), Some(c), Some(d)) => {
                let mut s = String::new();
                push_ipv6_group(&mut s, a);
                push_char(&mut s, ':');
                push_ipv6_group(&mut s, b);
                push_char(&mut s, ':');
                push_ipv6_group(&mut s, c);
                push_char(&mut s, ':');
                push_ipv6_group(&mut s, d);
                proof {
                    let t = ipv6_group(a) + seq![':'] + ipv6_group(b) + seq![':'] + ipv6_group(c)
                        + seq![':'] + ipv6_group(d);
                    assert(s@ =~= t);
                }
                Some(s)
            },
            _ => None,
        }
    } else {
        None
    }
}

/// Decodes a `/proc/net/tcp` address field (`IP:PORT`, both in hex, the IP
/// little-endian) to a printable IP and the port.
pub fn decode_addr(hex: &str) -> (r: Option<(String, u16)>)
    ensures
        match decoded_addr(hex@) {
            Some((ip, port)) => r matches Some((x, p)) && x@ == ip && p == port,
            None => r is None,
        },
{
    reveal(decoded_addr);
    let v = chars_of(hex);
    let parts = split_char(&v, ':');
    if parts.len() != 2 {
        return None;
    }
    assert(views(parts@)[0] == parts@[0]@ && views(parts@)[1] == parts@[1]@);
    let port = match parse_radix(&parts[1], 16, 0xffff) {
        Some(p) => p as u16,
        None => {
            return None;
        },
    };
    match ip_text_of(&parts[0]) {
        Some(ip) => Some((ip, port)),
        None => None,
    }
}


/// One connection line of `/proc/net/tcp`.
pub struct TcpEntry {
    pub inode: u64,
    pub src_ip: String,
    pub dst_ip: String,
    pub dst_port: u16,
    /// The connection state, two hex digits (`01` established, `02` SYN sent).
    pub state: String,
}

/// The mathematical value of a [`TcpEntry`].
pub struct TcpEntryView {
    pub inode: u64,
    pub src_ip: Seq<char>,
    pub dst_ip: Seq<char>,
    pub dst_port: u16,
    pub state: Seq<char>,
}

impl View for TcpEntry {
    type V = TcpEntryView;

    open spec fn view(&self) -> TcpEntryView {
        TcpEntryView {
            inode: self.inode,
            src_ip: self.src_ip@,
            dst_ip: self.dst_ip@,
            dst_port: self.dst_port,
            state: self.state@,
        }
    }
}

/// The values of a list of entries.
pub open spec fn entry_views(s: Seq<TcpEntry>) -> Seq<TcpEntryView> {
    s.map_values(|e: TcpEntry| e@)
}

/// The entry one line of `/proc/net/tcp` gives: at least ten white-space
/// separated columns, a decimal inode in the tenth, and decodable local and
/// remote addresses in the second and third.
#[verifier::opaque]
pub open spec fn tcp_line_entry(line: Seq<char>) -> Option<TcpEntryView> {
    let cols = ws_fields(line);
    if cols.len() < 10 {
        None
    } else {
        match (
            parse_unsigned(cols[9], 10, u64::MAX as nat),
            decoded_addr(cols[1]),
            decoded_addr(cols[2]),
        ) {
            (Some(inode), Some((src_ip, _)), Some((dst_ip, dst_port))) => Some(
                TcpEntryView { inode: inode as u64, src_ip, dst_ip, dst_port, state: cols[3] },
            ),
            _ => None,
        }
    }
}

/// The entries that a sequence of lines gives, in order.
pub open spec fn tcp_entries(lines: Seq<Seq<char>>) -> Seq<TcpEntryView>
    decreases lines.len(),
{
    if lines.len() == 0 {
        seq![]
    } else {
        match tcp_line_entry(lines.last()) {
            Some(e) => tcp_entries(lines.drop_last()).push(e),
            None => tcp_entries(lines.drop_last()),
        }
    }
}

/// The connections a `/proc/net/tcp` (or `tcp6`) text lists: every line after
/// the header that parses.
pub open spec fn tcp_table(content: Seq<char>) -> Seq<TcpEntryView> {
    let ls = lines_of(content);
    if ls.len() == 0 {
        seq![]
    } else {
        tcp_entries(ls.skip(1))
    }
}

fn parse_tcp_line(line: &Vec<char>) -> (r: Option<TcpEntry>)
    ensures
        match tcp_line_entry(line@) {
            Some(e) => r matches Some(x) && x@ == e,
            None => r is None,
        },
{
    reveal(tcp_line_entry);
    let cols = split_whitespace(line);
    if cols.len() < 10 {
        return None;
    }
    assert(views(cols@)[9] == cols@[9]@ && views(cols@)[1] == cols@[1]@ && views(cols@)[2]
        == cols@[2]@ && views(cols@)[3] == cols@[3]@);
    let inode = parse_radix(&cols[9], 10, u64::MAX);
    let src = decode_addr(string_of(&cols[1]).as_str());
    let dst = decode_addr(string_of(&cols[2]).as_str());
    match (inode, src, dst) {
        (Some(inode), Some((src_ip, _)), Some((dst_ip, dst_port))) => Some(
            TcpEntry { inode, src_ip, dst_ip, dst_port, state: string_of(&cols[3]) },
        ),
        _ => None,
    }
}

/// Parses the text of `/proc/net/tcp` or `/proc/net/tcp6`: skips the header
/// line and every line that does not parse.
pub fn parse_tcp(content: &str) -> (r: Vec<TcpEntry>)
    ensures
        entry_views(r@) == tcp_table(content@),
{
    let text = chars_of(content);
    let lines = split_lines(&text);
    let mut out: Vec<TcpEntry> = Vec::new();
    if lines.len() == 0 {
        assert(entry_views(out@) =~= Seq::<TcpEntryView>::empty());
        return out;
    }
    let ghost ls = views(lines@).skip(1);
    let mut i: usize = 1;
    while i < lines.len()
        invariant
            1 <= i <= lines.len(),
            ls == views(lines@).skip(1),
            entry_views(out@) == tcp_entries(ls.take(i - 1)),
        decreases lines.len() - i,
    {
        assert(ls.take(i as int) == ls.take(i - 1).push(lines@[i as int]@));
        assert(ls.take(i as int).drop_last() == ls.take(i - 1));
        match parse_tcp_line(&lines[i]) {
            Some(e) => {
                let ghost before = out@;
                out.push(e);
                assert(entry_views(out@) =~= entry_views(before).push(e@));
            },
            None => {},
        }
        i = i + 1;
    }
    assert(ls.take(lines.len() - 1) == ls);
    out
}

/// The inodes of the connections in a list of entries.
pub open spec fn entry_inodes(t: Seq<TcpEntryView>) -> Set<u64> {
    Set::new(|i: u64| exists|k: int| 0 <= k < t.len() && #[trigger] t[k].inode == i)
}

/// The inodes of the connections that `/proc/net/tcp` and `/proc/net/tcp6`
/// list.
pub open spec fn inodes_of(tcp: Seq<char>, tcp6: Seq<char>) -> Set<u64> {
    entry_inodes(tcp_table(tcp)).union(entry_inodes(tcp_table(tcp6)))
}

/// The set of socket inodes of all connections listed in the texts of
/// `/proc/net/tcp` and `/proc/net/tcp6`.
pub fn current_inodes(tcp: &str, tcp6: &str) -> (r: std::collections::HashSet<u64>)
    ensures
        r@ == inodes_of(tcp@, tcp6@),
{
    broadcast use vstd::std_specs::hash::group_hash_axioms;

    let mut inodes: std::collections::HashSet<u64> = std::collections::HashSet::new();
    let a = parse_tcp(tcp);
    let b = parse_tcp(tcp6);
    let mut i: usize = 0;
    while i < a.len()
        invariant
            i <= a.len(),
            entry_views(a@) == tcp_table(tcp@),
            inodes@ == Set::new(|x: u64| exists|k: int| 0 <= k < i && #[trigger] a@[k].inode == x),
        decreases a.len() - i,
    {
        let ghost before = inodes@;
        inodes.insert(a[i].inode);
        assert(inodes@ =~= Set::new(
            |x: u64| exists|k: int| 0 <= k < i + 1 && #[trigger] a@[k].inode == x,
        )) by {
            assert forall|x: u64| inodes@.contains(x) implies exists|k: int|
                0 <= k < i + 1 && #[trigger] a@[k].inode == x by {
                if x == a@[i as int].inode {
                    assert(a@[i as int].inode == x);
                }
            }
        }
        i = i + 1;
    }
    let ghost sa = inodes@;
    let mut j: usize = 0;
    while j < b.len()
        invariant
            j <= b.len(),
            entry_views(b@) == tcp_table(tcp6@),
            sa == Set::new(|x: u64| exists|k: int| 0 <= k < a.len() && #[trigger] a@[k].inode == x),
            inodes@ == sa.union(
                Set::new(|x: u64| exists|k: int| 0 <= k < j && #[trigger] b@[k].inode == x),
            ),
        decreases b.len() - j,
    {
        inodes.insert(b[j].inode);
        assert(inodes@ =~= sa.union(
            Set::new(|x: u64| exists|k: int| 0 <= k < j + 1 && #[trigger] b@[k].inode == x),
        )) by {
            assert forall|x: u64| inodes@.contains(x) implies sa.contains(x) || exists|k: int|
                0 <= k < j + 1 && #[trigger] b@[k].inode == x by {
                if x == b@[j as int].inode {
                    assert(b@[j as int].inode == x);
                }
            }
        }
        j = j + 1;
    }
    proof {
        let ta = tcp_table(tcp@);
        let tb = tcp_table(tcp6@);
        assert forall|x: u64| sa.contains(x) <==> entry_inodes(ta).contains(x) by {
            if sa.contains(x) {
                let k = choose|k: int| 0 <= k < a.len() && #[trigger] a@[k].inode == x;
                assert(entry_views(a@)[k].inode == x);
            }
            if entry_inodes(ta).contains(x) {
                let k = choose|k: int| 0 <= k < ta.len() && #[trigger] ta[k].inode == x;
                assert(entry_views(a@)[k] == a@[k]@);
            }
        }
        let sb = Set::new(|x: u64| exists|k: int| 0 <= k < b.len() && #[trigger] b@[k].inode == x);
        assert forall|x: u64| sb.contains(x) <==> entry_inodes(tb).contains(x) by {
            if sb.contains(x) {
                let k = choose|k: int| 0 <= k < b.len() && #[trigger] b@[k].inode == x;
                assert(entry_views(b@)[k].inode == x);
            }
            if entry_inodes(tb).contains(x) {
                let k = choose|k: int| 0 <= k < tb.len() && #[trigger] tb[k].inode == x;
                assert(entry_views(b@)[k] == b@[k]@);
            }
        }
        assert(sa =~= entry_inodes(ta));
        assert(sb =~= entry_inodes(tb));
        assert(inodes@ =~= inodes_of(tcp@, tcp6@));
    }
    inodes
}


/// The identity of a connection for reporting it once.
pub type ConnKey = (Seq<char>, Seq<char>, u16);

/// The key of an entry: source, destination and destination port.
pub open spec fn conn_key(e: TcpEntryView) -> ConnKey {
    (e.src_ip, e.dst_ip, e.dst_port)
}

/// Whether an entry is an outbound connection in progress: established
/// (`01`) or SYN sent (`02`).
pub open spec fn is_outbound(e: TcpEntryView) -> bool {
    e.state == seq!['0', '1'] || e.state == seq!['0', '2']
}

/// The keys seen and the new connections after scanning `es` with the keys
/// `seen` already reported.
pub open spec fn observe_scan(seen: Set<ConnKey>, es: Seq<TcpEntryView>) -> (Set<ConnKey>, Seq<
    TcpEntryView,
>)
    decreases es.len(),
{
    if es.len() == 0 {
        (seen, seq![])
    } else {
        let (s, out) = observe_scan(seen, es.drop_last());
        let e = es.last();
        if is_outbound(e) && !s.contains(conn_key(e)) {
            (s.insert(conn_key(e)), out.push(e))
        } else {
            (s, out)
        }
    }
}

/// Remembers which outbound connections were already reported.
pub struct ConnectionTracker {
    seen: Vec<(String, String, u16)>,
}

impl ConnectionTracker {
    /// The connections already reported.
    pub closed spec fn seen_keys(&self) -> Set<ConnKey> {
        self.seen@.map_values(|k: (String, String, u16)| (k.0@, k.1@, k.2)).to_set()
    }

    /// A tracker that has reported nothing.
    pub fn new() -> (t: Self)
        ensures
            t.seen_keys() == Set::<ConnKey>::empty(),
    {
        let t = ConnectionTracker { seen: Vec::new() };
        assert(t.seen_keys() =~= Set::<ConnKey>::empty());
        t
    }

    fn has_seen(&self, src: &String, dst: &String, port: u16) -> (b: bool)
        ensures
            b == self.seen_keys().contains((src@, dst@, port)),
    {
        let ghost ks = self.seen@.map_values(|k: (String, String, u16)| (k.0@, k.1@, k.2));
        let mut i: usize = 0;
        while i < self.seen.len()
            invariant
                i <= self.seen.len(),
                ks == self.seen@.map_values(|k: (String, String, u16)| (k.0@, k.1@, k.2)),
                forall|j: int| 0 <= j < i ==> ks[j] != (src@, dst@, port),
            decreases self.seen.len() - i,
        {
            if self.seen[i].0 == *src && self.seen[i].1 == *dst && self.seen[i].2 == port {
                assert(ks[i as int] == (src@, dst@, port));
                return true;
            }
            i = i + 1;
        }
        false
    }

    /// The outbound connections among `entries` (established or SYN sent)
    /// that were not reported before, each once, in order; they count as
    /// reported from now on.
    pub fn observe(&mut self, entries: Vec<TcpEntry>) -> (fresh: Vec<TcpEntry>)
        ensures
            (final(self).seen_keys(), entry_views(fresh@)) == observe_scan(
                old(self).seen_keys(),
                entry_views(entries@),
            ),
    {
        let ghost s0 = self.seen_keys();
        let ghost ev = entry_views(entries@);
        let mut fresh: Vec<TcpEntry> = Vec::new();
        let mut rest = entries;
        let mut i: usize = 0;
        let n = rest.len();
        while rest.len() > 0
            invariant
                i + rest@.len() == n,
                n == ev.len(),
                entry_views(rest@) == ev.skip(i as int),
                (self.seen_keys(), entry_views(fresh@)) == observe_scan(s0, ev.take(i as int)),
            decreases rest.len(),
        {
            let ghost old_rest = rest@;
            let e = rest.remove(0);
            proof {
                assert(entry_views(old_rest)[0] == e@);
                assert(ev[i as int] == e@) by {
                    assert(ev.skip(i as int)[0] == ev[i as int]);
                }
                assert(ev.take(i + 1).drop_last() == ev.take(i as int));
                assert(ev.take(i + 1).last() == e@);
                assert forall|k: int| 0 <= k < rest@.len() implies entry_views(rest@)[k] == ev.skip(
                    i + 1,
                )[k] by {
                    assert(rest@[k] == old_rest[k + 1]);
                    assert(entry_views(old_rest)[k + 1] == ev.skip(i as int)[k + 1]);
                }
                assert(entry_views(rest@) =~= ev.skip(i + 1));
            }
            let outbound = crate::text::equals_str(&chars_of(e.state.as_str()), "01")
                || crate::text::equals_str(&chars_of(e.state.as_str()), "02");
            assert("01"@ == seq!['0', '1']) by {
                reveal_strlit("01");
            }
            assert("02"@ == seq!['0', '2']) by {
                reveal_strlit("02");
            }
            if outbound && !self.has_seen(&e.src_ip, &e.dst_ip, e.dst_port) {
                let ghost before = self.seen@;
                let ghost fb = fresh@;
                self.seen.push((e.src_ip.clone(), e.dst_ip.clone(), e.dst_port));
                proof {
                    let f = |k: (String, String, u16)| (k.0@, k.1@, k.2);
                    assert(self.seen@.map_values(f) =~= before.map_values(f).push(conn_key(e@)));
                    assert(self.seen@.map_values(f).to_set() =~= before.map_values(f).to_set().insert(
                        conn_key(e@),
                    )) by {
                        assert(self.seen@.map_values(f) =~= before.map_values(f) + seq![conn_key(e@)]);
                        Seq::lemma_to_set_insert_commutes(before.map_values(f), conn_key(e@));
                    }
                }
                fresh.push(e);
                assert(entry_views(fresh@) =~= entry_views(fb).push(e@));
            }
            i = i + 1;
        }
        assert(ev.take(n as int) == ev);
        fresh
    }
}

/// The keys of the connections in a list of entries.
pub open spec fn live_keys(es: Seq<TcpEntryView>) -> Set<ConnKey> {
    es.map_values(|e: TcpEntryView| conn_key(e)).to_set()
}

/// Whether a connection with this key is among `live`.
fn is_live(live: &Vec<TcpEntry>, src: &String, dst: &String, port: u16) -> (b: bool)
    ensures
        b == live_keys(entry_views(live@)).contains((src@, dst@, port)),
{
    let ghost ks = entry_views(live@).map_values(|e: TcpEntryView| conn_key(e));
    let mut i: usize = 0;
    while i < live.len()
        invariant
            i <= live.len(),
            ks == entry_views(live@).map_values(|e: TcpEntryView| conn_key(e)),
            forall|j: int| 0 <= j < i ==> ks[j] != (src@, dst@, port),
        decreases live.len() - i,
    {
        if live[i].src_ip == *src && live[i].dst_ip == *dst && live[i].dst_port == port {
            assert(ks[i as int] == (src@, dst@, port));
            assert(ks.contains((src@, dst@, port)));
            return true;
        }
        i = i + 1;
    }
    assert(!ks.contains((src@, dst@, port)));
    false
}

impl ConnectionTracker {
    /// Forgets the connections that are no longer listed: keeps the keys of
    /// `live`, the connections of the current tables, so that a connection
    /// that went away and comes back is reported again.
    pub fn prune(&mut self, live: &Vec<TcpEntry>)
        ensures
            final(self).seen_keys() == old(self).seen_keys().intersect(
                live_keys(entry_views(live@)),
            ),
    {
        let ghost f = |k: (String, String, u16)| (k.0@, k.1@, k.2);
        let ghost lk = live_keys(entry_views(live@));
        let mut kept: Vec<(String, String, u16)> = Vec::new();
        let mut i: usize = 0;
        while i < self.seen.len()
            invariant
                i <= self.seen.len(),
                f == (|k: (String, String, u16)| (k.0@, k.1@, k.2)),
                lk == live_keys(entry_views(live@)),
                kept@.map_values(f).to_set() == self.seen@.take(i as int).map_values(f).to_set().intersect(lk),
            decreases self.seen.len() - i,
        {
            let ghost prefix = self.seen@.take(i as int).map_values(f);
            let ghost key = f(self.seen@[i as int]);
            proof {
                assert(self.seen@.take(i + 1).map_values(f) =~= prefix + seq![key]);
                Seq::lemma_to_set_insert_commutes(prefix, key);
            }
            if is_live(live, &self.seen[i].0, &self.seen[i].1, self.seen[i].2) {
                let ghost kb = kept@.map_values(f);
                let k = (self.seen[i].0.clone(), self.seen[i].1.clone(), self.seen[i].2);
                kept.push(k);
                proof {
                    assert(kept@.map_values(f) =~= kb + seq![key]);
                    Seq::lemma_to_set_insert_commutes(kb, key);
                    assert(kept@.map_values(f).to_set() =~= prefix.to_set().insert(key).intersect(lk));
                }
            } else {
                assert(kept@.map_values(f).to_set() =~= prefix.to_set().insert(key).intersect(lk));
            }
            i = i + 1;
        }
        assert(self.seen@.take(self.seen.len() as int) == self.seen@);
        self.seen = kept;
    }
}

/// Each outbound connection is reported once: a scan reports no connection
/// whose key was already seen, no key twice, and afterwards the seen keys are
/// the earlier ones plus those of the reported connections.
pub proof fn lemma_reported_once(seen: Set<ConnKey>, es: Seq<TcpEntryView>)
    ensures
        ({
            let (s, out) = observe_scan(seen, es);
            &&& forall|k: int| 0 <= k < out.len() ==> !seen.contains(conn_key(#[trigger] out[k]))
            &&& forall|a: int, b: int|
                0 <= a < out.len() && 0 <= b < out.len() && a != b ==> conn_key(#[trigger] out[a])
                    != conn_key(#[trigger] out[b])
            &&& forall|k: int| 0 <= k < out.len() ==> is_outbound(#[trigger] out[k])
            &&& s == seen.union(out.map_values(|e: TcpEntryView| conn_key(e)).to_set())
        }),
    decreases es.len(),
{
    if es.len() > 0 {
        lemma_reported_once(seen, es.drop_last());
        let (s0, out0) = observe_scan(seen, es.drop_last());
        let e = es.last();
        let f = |x: TcpEntryView| conn_key(x);
        if is_outbound(e) && !s0.contains(conn_key(e)) {
            let out = out0.push(e);
            assert(out.map_values(f) =~= out0.map_values(f) + seq![conn_key(e)]);
            Seq::lemma_to_set_insert_commutes(out0.map_values(f), conn_key(e));
            assert forall|a: int| 0 <= a < out0.len() implies conn_key(out0[a]) != conn_key(e) by {
                assert(out0.map_values(f)[a] == conn_key(out0[a]));
                assert(out0.map_values(f).to_set().contains(conn_key(out0[a])));
            }
            assert forall|a: int, b: int|
                0 <= a < out.len() && 0 <= b < out.len() && a != b implies conn_key(
                #[trigger] out[a],
            ) != conn_key(#[trigger] out[b]) by {
                if a < out0.len() && b < out0.len() {
                    assert(out[a] == out0[a] && out[b] == out0[b]);
                } else if a < out0.len() {
                    assert(out[a] == out0[a]);
                } else {
                    assert(out[b] == out0[b]);
                }
            }
            assert(seen.union(out.map_values(f).to_set()) =~= s0.insert(conn_key(e)));
        }
    } else {
        assert(Seq::<TcpEntryView>::empty().map_values(|e: TcpEntryView| conn_key(e)).to_set()
            =~= Set::<ConnKey>::empty());
        assert(seen.union(Set::<ConnKey>::empty()) =~= seen);
    }
}

/// A connection whose key was not yet reported is reported by the next scan
/// that lists it as outbound; in particular one that a pruning step forgot
/// because it was no longer listed is reported again when it comes back.
pub proof fn lemma_unseen_connection_reported(seen: Set<ConnKey>, es: Seq<TcpEntryView>, i: int)
    requires
        0 <= i < es.len(),
        is_outbound(es[i]),
        !seen.contains(conn_key(es[i])),
    ensures
        exists|k: int|
            0 <= k < observe_scan(seen, es).1.len() && conn_key(
                #[trigger] observe_scan(seen, es).1[k],
            ) == conn_key(es[i]),
    decreases es.len(),
{
    let rest = es.drop_last();
    let (s0, out0) = observe_scan(seen, rest);
    let out = observe_scan(seen, es).1;
    let key = conn_key(es[i]);
    assert(out0.is_prefix_of(out) || out == out0) by {
        assert(out == out0 || out == out0.push(es.last()));
        if out != out0 {
            assert(out0.is_prefix_of(out0.push(es.last())));
        }
    }
    if i < es.len() - 1 {
        assert(rest[i] == es[i]);
        lemma_unseen_connection_reported(seen, rest, i);
        let k = choose|k: int| 0 <= k < out0.len() && conn_key(#[trigger] out0[k]) == key;
        assert(out[k] == out0[k]);
    } else {
        if s0.contains(key) {
            lemma_reported_once(seen, rest);
            let f = |e: TcpEntryView| conn_key(e);
            assert(out0.map_values(f).to_set().contains(key));
            assert(out0.map_values(f).contains(key));
            let k = choose|k: int| 0 <= k < out0.map_values(f).len() && out0.map_values(f)[k] == key;
            assert(conn_key(out0[k]) == key);
            assert(out[k] == out0[k]);
        } else {
            assert(out == out0.push(es[i]));
            assert(conn_key(out[out0.len() as int]) == key);
        }
    }
}

/// A scan reports, each once and in order of appearance, exactly the
/// connections in state `01` (established) or `02` (SYN sent) whose source,
/// destination and destination port were not reported before: every reported
/// entry has one of these states and a new key, and every entry with one of
/// these states and a key not reported before is reported.
pub proof fn lemma_scan_reports_established_and_syn_sent(
    seen: Set<(Seq<char>, Seq<char>, u16)>,
    es: Seq<TcpEntryView>,
    i: int,
)
    requires
        0 <= i < es.len(),
    ensures
        ({
            let out = observe_scan(seen, es).1;
            &&& forall|k: int|
                0 <= k < out.len() ==> (#[trigger] out[k].state == seq!['0', '1'] || out[k].state
                    == seq!['0', '2']) && !seen.contains((out[k].src_ip, out[k].dst_ip, out[k].dst_port))
            &&& ((es[i].state == seq!['0', '1'] || es[i].state == seq!['0', '2']) && !seen.contains(
                (es[i].src_ip, es[i].dst_ip, es[i].dst_port),
            )) ==> exists|k: int|
                0 <= k < out.len() && #[trigger] out[k].src_ip == es[i].src_ip && out[k].dst_ip
                    == es[i].dst_ip && out[k].dst_port == es[i].dst_port
        }),
{
    lemma_reported_once(seen, es);
    let out = observe_scan(seen, es).1;
    assert forall|k: int| 0 <= k < out.len() implies (#[trigger] out[k].state == seq!['0', '1']
        || out[k].state == seq!['0', '2']) && !seen.contains(
        (out[k].src_ip, out[k].dst_ip, out[k].dst_port),
    ) by {
        assert(is_outbound(out[k]));
        assert(!seen.contains(conn_key(out[k])));
    }
    if (es[i].state == seq!['0', '1'] || es[i].state == seq!['0', '2']) && !seen.contains(
        (es[i].src_ip, es[i].dst_ip, es[i].dst_port),
    ) {
        lemma_unseen_connection_reported(seen, es, i);
        let k = choose|k: int| 0 <= k < out.len() && conn_key(#[trigger] out[k]) == conn_key(es[i]);
        assert(out[k].src_ip == es[i].src_ip);
    }
}

/// The columns of a `/proc/net/tcp` line: the local address is the second,
/// the remote address the third, the state the fourth and the inode the
/// tenth (white-space separated); lines with fewer than ten columns give no
/// entry.
pub proof fn lemma_tcp_columns(line: Seq<char>)
    ensures
        ws_fields(line).len() < 10 ==> tcp_line_entry(line) is None,
        tcp_line_entry(line) matches Some(e) ==> ({
            let cols = ws_fields(line);
            &&& e.state == cols[3]
            &&& parse_unsigned(cols[9], 10, u64::MAX as nat) == Some(e.inode as nat)
            &&& decoded_addr(cols[1]) matches Some((src, _)) && src == e.src_ip
            &&& decoded_addr(cols[2]) == Some((e.dst_ip, e.dst_port))
        }),
{
    reveal(tcp_line_entry);
}

/// Addresses are printed in memory order: a little-endian word whose bytes
/// are `a`, `b`, `c`, `d` (in memory) prints as `a.b.c.d` for IPv4 and as
/// `aabb:ccdd` (two hex digits each) for an IPv6 word.
pub proof fn lemma_addresses_in_memory_order(a: u8, b: u8, c: u8, d: u8)
    ensures
        ({
            let n = (a as int + b as int * 256 + c as int * 65536 + d as int * 16777216) as u32;
            &&& ipv4_text(n) == decimal(a as nat) + seq!['.'] + decimal(b as nat) + seq!['.']
                + decimal(c as nat) + seq!['.'] + decimal(d as nat)
            &&& ipv6_group(n) == hex2(a) + hex2(b) + seq![':'] + hex2(c) + hex2(d)
        }),
{
    let v: int = a as int + b as int * 256 + c as int * 65536 + d as int * 16777216;
    assert(0 <= v < 0x1_0000_0000);
    let n = v as u32;
    assert(n == v);
    assert(le_byte(n, 0) == a);
    assert(le_byte(n, 1) == b);
    assert(le_byte(n, 2) == c);
    assert(le_byte(n, 3) == d);
}

/// The link target of the socket with inode `inode` in `/proc/<pid>/fd/`.
pub open spec fn socket_link(inode: u64) -> Seq<char> {
    "socket:["@ + decimal(inode as nat) + seq![']']
}

/// Whether a `/proc/<pid>/fd/` link target names the socket `inode`.
pub fn is_socket_link(link: &str, inode: u64) -> (b: bool)
    ensures
        b == (link@ == socket_link(inode)),
        b == (link@ == "socket:["@ + decimal(inode as nat) + seq![']']),
{
    let mut target = "socket:[".to_owned();
    assert(target@ == "socket:["@);
    push_decimal(&mut target, inode);
    push_char(&mut target, ']');
    assert(target@ =~= socket_link(inode));
    let l = chars_of(link);
    let t = chars_of(target.as_str());
    assert(t@ == socket_link(inode));
    crate::text::same_chars(&l, &t)
}

} // verus!
