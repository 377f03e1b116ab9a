use aegisec_agent::sensor::network::{
    current_inodes, decode_addr, is_socket_link, parse_tcp, ConnectionTracker,
};

const TCP: &str = "  sl  local_address rem_address   st tx_queue rx_queue tr tm->when retrnsmt   uid  timeout inode\n   0: 0100007F:0277 00000000:0000 0A 00000000:00000000 00:00000000 00000000     0        0 12345 1 0000000000000000 100 0 0 10 0\n   1: 0F02000A:C350 5DB8D822:115C 01 00000000:00000000 00:00000000 00000000  1000        0 67890 1 0000000000000000 20 4 30 10 -1\n   2: short line\n";

const TCP6: &str = "  sl  local_address                         remote_address                        st tx_queue rx_queue tr tm->when retrnsmt   uid  timeout inode\n   0: 00000000000000000000000001000000:0016 00000000000000000000000000000000:0000 0A 00000000:00000000 00:00000000 00000000     0        0 555 1 0000000000000000 100 0 0 10 0\n";

#[test]
fn ipv4_address_is_little_endian() {
    let (ip, port) = decode_addr("0100007F:0050").unwrap();
    assert_eq!(ip, "127.0.0.1");
    assert_eq!(port, 80);
}

#[test]
fn ipv6_address_groups() {
    let (ip, port) = decode_addr("00000000000000000000000001000000:0016").unwrap();
    assert_eq!(ip, "0000:0000:0000:0000:0000:0000:0000:0001");
    assert_eq!(port, 22);
    let (ip, port) = decode_addr("B80D0120000000000000000001000000:01BB").unwrap();
    assert_eq!(ip, "2001:0db8:0000:0000:0000:0000:0000:0001");
    assert_eq!(port, 443);
}

#[test]
fn malformed_addresses_decode_to_nothing() {
    assert!(decode_addr("0100007F").is_none());
    assert!(decode_addr("0100007F:0050:1").is_none());
    assert!(decode_addr("0100007G:0050").is_none());
    assert!(decode_addr("0100007F:10000").is_none());
    assert!(decode_addr("01007F:0050").is_none());
    assert!(decode_addr("0100007F:").is_none());
}

#[test]
fn hex_fields_accept_a_plus_sign() {
    let (ip, port) = decode_addr("+100007F:+50").unwrap();
    assert_eq!(ip, "127.0.0.1");
    assert_eq!(port, 80);
}

#[test]
fn tcp_table_parses_connection_lines() {
    let t = parse_tcp(TCP);
    assert_eq!(t.len(), 2);
    assert_eq!(t[0].inode, 12345);
    assert_eq!(t[0].src_ip, "127.0.0.1");
    assert_eq!(t[0].state, "0A");
    assert_eq!(t[1].inode, 67890);
    assert_eq!(t[1].src_ip, "10.0.2.15");
    assert_eq!(t[1].dst_ip, "34.216.184.93");
    assert_eq!(t[1].dst_port, 4444);
    assert_eq!(t[1].state, "01");
    assert!(parse_tcp("").is_empty());
    assert!(parse_tcp("header only").is_empty());
}

#[test]
fn inodes_of_both_tables() {
    let s = current_inodes(TCP, TCP6);
    assert_eq!(s.len(), 3);
    assert!(s.contains(&12345) && s.contains(&67890) && s.contains(&555));
}

#[test]
fn each_outbound_connection_is_reported_once() {
    let mut tracker = ConnectionTracker::new();
    let first = tracker.observe(parse_tcp(TCP));
    assert_eq!(first.len(), 1);
    assert_eq!(first[0].dst_port, 4444);
    let again = tracker.observe(parse_tcp(TCP));
    assert!(again.is_empty());
}

#[test]
fn connections_that_went_away_are_reported_again() {
    let mut tracker = ConnectionTracker::new();
    assert_eq!(tracker.observe(parse_tcp(TCP)).len(), 1);
    // still listed: kept, not reported again
    tracker.prune(&parse_tcp(TCP));
    assert!(tracker.observe(parse_tcp(TCP)).is_empty());
    // gone for one poll, then back
    tracker.prune(&vec![]);
    let back = tracker.observe(parse_tcp(TCP));
    assert_eq!(back.len(), 1);
    assert_eq!(back[0].dst_port, 4444);
}

#[test]
fn socket_links() {
    assert!(is_socket_link("socket:[67890]", 67890));
    assert!(!is_socket_link("socket:[67890]", 6789));
    assert!(!is_socket_link("pipe:[67890]", 67890));
}

#[test]
fn kernel_formatted_fields_decode() {
    let n: u32 = 0x0A00_020F;
    let (ip, port) = decode_addr(&format!("{:08X}:{:04X}", n, 8080)).unwrap();
    assert_eq!(ip, "15.2.0.10");
    assert_eq!(port, 8080);
    let (ip6, p6) = decode_addr(&format!("{:08X}{:08X}{:08X}{:08X}:{:04X}", 0x0000_80FEu32, 0, 0x0000_0000u32, 0x0100_0000u32, 443)).unwrap();
    assert_eq!(ip6, "fe80:0000:0000:0000:0000:0000:0000:0001");
    assert_eq!(p6, 443);
}
